use vstd::prelude::*;
use vstd::relations::injective_on;
use vstd::set_lib::*;

verus! {

/// The bucket of `key` in the pass that looks at the `width` bits from bit `shift`.
pub open spec fn bucket(key: u64, shift: u64, width: u64) -> u64 {
    (key & ((((1u64 << width) - 1) as u64) << shift)) >> shift
}

/// The number of buckets of a pass over `width` bits.
pub open spec fn buckets(width: u64) -> int {
    (1u64 << width) as int
}

/// The bits of `key` below bit `top`.
pub open spec fn low_bits(key: u64, top: u64) -> u64 {
    if top >= 64 {
        key
    } else {
        key & (((1u64 << top) - 1) as u64)
    }
}

/// How many keys of `s` fall in bucket `b`.
pub open spec fn count_in(s: Seq<u64>, shift: u64, width: u64, b: int) -> int
    decreases s.len(),
{
    if s.len() == 0 {
        0
    } else {
        count_in(s.drop_last(), shift, width, b) + if bucket(s.last(), shift, width) == b {
            1int
        } else {
            0int
        }
    }
}

/// How many keys of `s` fall in the buckets before `b`: where bucket `b` starts after a pass.
pub open spec fn start_of(s: Seq<u64>, shift: u64, width: u64, b: int) -> int
    decreases b,
{
    if b <= 0 {
        0
    } else {
        start_of(s, shift, width, b - 1) + count_in(s, shift, width, b - 1)
    }
}

/// Where a pass puts the key at `i`: after the keys of the buckets before its own, and after the
/// keys of its own bucket that come before it.
pub open spec fn place(s: Seq<u64>, shift: u64, width: u64, i: int) -> int {
    let b = bucket(s[i], shift, width) as int;
    start_of(s, shift, width, b) + count_in(s.take(i), shift, width, b)
}

/// Whether `s` is sorted by the bits below `top`.
pub open spec fn sorted_below(s: Seq<u64>, top: u64) -> bool {
    forall|i: int, j: int| 0 <= i < j < s.len() ==> low_bits(#[trigger] s[i], top) <= low_bits(#[trigger] s[j], top)
}

/// Whether `s` is in ascending order.
pub open spec fn ascending(s: Seq<u64>) -> bool {
    forall|i: int, j: int| 0 <= i < j < s.len() ==> #[trigger] s[i] <= #[trigger] s[j]
}

/// The keys paired with their values.
pub open spec fn rows(keys: Seq<u64>, values: Seq<u32>) -> Seq<(u64, u32)> {
    Seq::new(keys.len(), |i: int| (keys[i], values[i]))
}

/// The histogram entry of bucket `b` of pass `p`, with `nb` buckets per pass.
pub open spec fn hist_at(h: Seq<u32>, nb: int, p: int, b: int) -> u32 {
    h[p * nb + b]
}

proof fn lemma_buckets(width: u64)
    requires
        1 <= width <= 16,
    ensures
        2 <= buckets(width) <= 65536,
        (1u64 << width) >= 2,
{
    assert(2 <= (1u64 << width) <= 65536) by (bit_vector)
        requires
            1 <= width <= 16,
    ;
}

proof fn lemma_bucket_bound(key: u64, shift: u64, width: u64)
    requires
        shift < 64,
        1 <= width <= 16,
    ensures
        bucket(key, shift, width) < buckets(width),
{
    assert(((key & ((((1u64 << width) - 1) as u64) << shift)) >> shift) < (1u64 << width)) by (bit_vector)
        requires
            shift < 64,
            1 <= width <= 16,
    ;
}

/// Bucket order refines the order of the bits below the pass.
proof fn lemma_bucket_order(x: u64, y: u64, shift: u64, width: u64)
    requires
        shift < 64,
        1 <= width <= 16,
    ensures
        bucket(x, shift, width) < bucket(y, shift, width) ==> low_bits(x, (shift + width) as u64) < low_bits(
            y,
            (shift + width) as u64,
        ),
        bucket(x, shift, width) == bucket(y, shift, width) && low_bits(x, shift) <= low_bits(y, shift)
            ==> low_bits(x, (shift + width) as u64) <= low_bits(y, (shift + width) as u64),
{
    if shift + width >= 64 {
        assert(((x & ((((1u64 << width) - 1) as u64) << shift)) >> shift) < ((y & ((((1u64 << width) - 1) as u64)
            << shift)) >> shift) ==> x < y) by (bit_vector)
            requires
                shift < 64,
                1 <= width <= 16,
                shift + width >= 64,
        ;
        assert(((x & ((((1u64 << width) - 1) as u64) << shift)) >> shift) == ((y & ((((1u64 << width) - 1) as u64)
            << shift)) >> shift) && (x & (((1u64 << shift) - 1) as u64)) <= (y & (((1u64 << shift) - 1) as u64))
            ==> x <= y) by (bit_vector)
            requires
                shift < 64,
                1 <= width <= 16,
                shift + width >= 64,
        ;
    } else {
        let top: u64 = (shift + width) as u64;
        assert(((x & ((((1u64 << width) - 1) as u64) << shift)) >> shift) < ((y & ((((1u64 << width) - 1) as u64)
            << shift)) >> shift) ==> (x & (((1u64 << top) - 1) as u64)) < (y & (((1u64 << top) - 1) as u64)))
            by (bit_vector)
            requires
                shift < 64,
                1 <= width <= 16,
                top == shift + width,
                top < 64,
        ;
        assert(((x & ((((1u64 << width) - 1) as u64) << shift)) >> shift) == ((y & ((((1u64 << width) - 1) as u64)
            << shift)) >> shift) && (x & (((1u64 << shift) - 1) as u64)) <= (y & (((1u64 << shift) - 1) as u64))
            ==> (x & (((1u64 << top) - 1) as u64)) <= (y & (((1u64 << top) - 1) as u64))) by (bit_vector)
            requires
                shift < 64,
                1 <= width <= 16,
                top == shift + width,
                top < 64,
        ;
    }
}

proof fn lemma_count_bounds(s: Seq<u64>, shift: u64, width: u64, b: int)
    ensures
        0 <= count_in(s, shift, width, b) <= s.len(),
    decreases s.len(),
{
    if s.len() > 0 {
        lemma_count_bounds(s.drop_last(), shift, width, b);
    }
}

proof fn lemma_count_step(s: Seq<u64>, shift: u64, width: u64, b: int, i: int)
    requires
        0 <= i < s.len(),
    ensures
        count_in(s.take(i + 1), shift, width, b) == count_in(s.take(i), shift, width, b) + if bucket(
            s[i],
            shift,
            width,
        ) == b {
            1int
        } else {
            0int
        },
{
    assert(s.take(i + 1).drop_last() =~= s.take(i));
}

proof fn lemma_count_mono(s: Seq<u64>, shift: u64, width: u64, b: int, i: int, j: int)
    requires
        0 <= i <= j <= s.len(),
    ensures
        count_in(s.take(i), shift, width, b) <= count_in(s.take(j), shift, width, b),
    decreases j - i,
{
    if i < j {
        lemma_count_mono(s, shift, width, b, i, j - 1);
        lemma_count_step(s, shift, width, b, j - 1);
    }
}

proof fn lemma_start_mono(s: Seq<u64>, shift: u64, width: u64, b1: int, b2: int)
    requires
        0 <= b1 <= b2,
    ensures
        start_of(s, shift, width, b1) <= start_of(s, shift, width, b2),
    decreases b2 - b1,
{
    if b1 < b2 {
        lemma_start_mono(s, shift, width, b1, b2 - 1);
        lemma_count_bounds(s, shift, width, b2 - 1);
    }
}

/// Splitting the last key off: the buckets before `b` lose it exactly when its bucket is below `b`.
proof fn lemma_start_last(s: Seq<u64>, shift: u64, width: u64, b: int)
    requires
        s.len() > 0,
        b >= 0,
    ensures
        start_of(s, shift, width, b) == start_of(s.drop_last(), shift, width, b) + if bucket(
            s.last(),
            shift,
            width,
        ) < b {
            1int
        } else {
            0int
        },
    decreases b,
{
    if b > 0 {
        lemma_start_last(s, shift, width, b - 1);
    }
}

proof fn lemma_start_empty(s: Seq<u64>, shift: u64, width: u64, b: int)
    requires
        s.len() == 0,
    ensures
        start_of(s, shift, width, b) == 0,
    decreases b,
{
    if b > 0 {
        lemma_start_empty(s, shift, width, b - 1);
    }
}

/// All keys of `s` fall in the buckets of the pass.
proof fn lemma_start_total(s: Seq<u64>, shift: u64, width: u64)
    requires
        shift < 64,
        1 <= width <= 16,
    ensures
        start_of(s, shift, width, buckets(width)) == s.len(),
    decreases s.len(),
{
    lemma_buckets(width);
    if s.len() == 0 {
        lemma_start_empty(s, shift, width, buckets(width));
    } else {
        lemma_start_total(s.drop_last(), shift, width);
        lemma_start_last(s, shift, width, buckets(width));
        lemma_bucket_bound(s.last(), shift, width);
    }
}

/// Where a key is placed lies in its bucket's range, inside the output.
proof fn lemma_place_range(s: Seq<u64>, shift: u64, width: u64, i: int)
    requires
        shift < 64,
        1 <= width <= 16,
        0 <= i < s.len(),
    ensures
        start_of(s, shift, width, bucket(s[i], shift, width) as int) <= place(s, shift, width, i),
        place(s, shift, width, i) < start_of(s, shift, width, bucket(s[i], shift, width) + 1),
        0 <= place(s, shift, width, i) < s.len(),
{
    let b = bucket(s[i], shift, width) as int;
    lemma_bucket_bound(s[i], shift, width);
    lemma_count_bounds(s.take(i), shift, width, b);
    lemma_count_step(s, shift, width, b, i);
    lemma_count_mono(s, shift, width, b, i + 1, s.len() as int);
    assert(s.take(s.len() as int) =~= s);
    lemma_start_mono(s, shift, width, b + 1, buckets(width));
    lemma_start_mono(s, shift, width, 0, b);
    lemma_start_total(s, shift, width);
}

/// A pass keeps the order of buckets, and within a bucket the order of the input.
proof fn lemma_place_order(s: Seq<u64>, shift: u64, width: u64, i: int, j: int)
    requires
        shift < 64,
        1 <= width <= 16,
        0 <= i < j < s.len(),
    ensures
        bucket(s[i], shift, width) <= bucket(s[j], shift, width) ==> place(s, shift, width, i) < place(
            s,
            shift,
            width,
            j,
        ),
        bucket(s[i], shift, width) > bucket(s[j], shift, width) ==> place(s, shift, width, i) > place(
            s,
            shift,
            width,
            j,
        ),
{
    let bi = bucket(s[i], shift, width) as int;
    let bj = bucket(s[j], shift, width) as int;
    lemma_place_range(s, shift, width, i);
    lemma_place_range(s, shift, width, j);
    if bi == bj {
        lemma_count_step(s, shift, width, bi, i);
        lemma_count_mono(s, shift, width, bi, i + 1, j);
    } else if bi < bj {
        lemma_start_mono(s, shift, width, bi + 1, bj);
    } else {
        lemma_start_mono(s, shift, width, bj + 1, bi);
    }
}

/// The bucket of `key` in the pass over the `width` bits from bit `shift`.
pub fn bucket_of(key: u64, shift: u64, width: u64) -> (r: u64)
    requires
        shift < 64,
        1 <= width <= 16,
    ensures
        r == bucket(key, shift, width),
        r < buckets(width),
{
    proof {
        lemma_bucket_bound(key, shift, width);
        lemma_buckets(width);
    }
    let mask: u64 = ((1u64 << width) - 1) << shift;
    (key & mask) >> shift
}

proof fn lemma_index(p: int, b: int, nb: int, passes: int)
    requires
        0 <= p < passes,
        0 <= b < nb,
    ensures
        0 <= p * nb <= p * nb + b < passes * nb,
        (p + 1) * nb == p * nb + nb,
{
    assert(0 <= p * nb) by (nonlinear_arith)
        requires
            0 <= p,
            0 <= nb,
    ;
    assert(p * nb + b < passes * nb) by (nonlinear_arith)
        requires
            0 <= p < passes,
            0 <= b < nb,
    ;
    assert((p + 1) * nb == p * nb + nb) by (nonlinear_arith);
}

proof fn lemma_index_unique(p1: int, b1: int, p2: int, b2: int, nb: int)
    requires
        0 <= p1,
        0 <= p2,
        0 <= b1 < nb,
        0 <= b2 < nb,
        p1 != p2 || b1 != b2,
    ensures
        p1 * nb + b1 != p2 * nb + b2,
{
    if p1 < p2 {
        assert(p1 * nb + b1 < p2 * nb + b2) by (nonlinear_arith)
            requires
                0 <= p1 < p2,
                0 <= b1 < nb,
                0 <= b2 < nb,
        ;
    } else if p2 < p1 {
        assert(p2 * nb + b2 < p1 * nb + b1) by (nonlinear_arith)
            requires
                0 <= p2 < p1,
                0 <= b1 < nb,
                0 <= b2 < nb,
        ;
    }
}

/// Counts, in one scan of `keys`, how many keys fall in each bucket of each of `passes` passes over
/// `width` bits; the counts of pass `p` come from `p * buckets(width)` on.
pub fn build_histograms(keys: &Vec<u64>, width: u64, passes: u64) -> (h: Vec<u32>)
    requires
        1 <= width <= 16,
        1 <= passes <= 64,
        (passes - 1) * width < 64,
        keys.len() <= u32::MAX,
    ensures
        h.len() == passes * buckets(width),
        forall|p: int, b: int|
            0 <= p < passes && 0 <= b < buckets(width) ==> #[trigger] hist_at(h@, buckets(width), p, b)
                == count_in(keys@, (p * width) as u64, width, b),
{
    proof {
        lemma_buckets(width);
    }
    let ghost nb = buckets(width);
    let nbx: usize = (1u64 << width) as usize;
    assert(passes * nbx <= 64 * 65536) by (nonlinear_arith)
        requires
            passes <= 64,
            nbx <= 65536,
    ;
    let total: usize = (passes as usize) * nbx;
    let mut h: Vec<u32> = Vec::new();
    while h.len() < total
        invariant
            h.len() <= total,
            forall|k: int| 0 <= k < h.len() ==> h@[k] == 0,
        decreases total - h.len(),
    {
        h.push(0);
    }
    proof {
        assert forall|p: int, b: int| 0 <= p < passes && 0 <= b < nb implies #[trigger] hist_at(h@, nb, p, b)
            == count_in(keys@.take(0), (p * width) as u64, width, b) by {
            lemma_index(p, b, nb, passes as int);
        }
    }
    let mut idx: usize = 0;
    while idx < keys.len()
        invariant
            1 <= width <= 16,
            1 <= passes <= 64,
            (passes - 1) * width < 64,
            keys.len() <= u32::MAX,
            nb == buckets(width),
            nbx == nb,
            2 <= nb <= 65536,
            total == passes * nb,
            h.len() == total,
            idx <= keys.len(),
            forall|p: int, b: int|
                0 <= p < passes && 0 <= b < nb ==> #[trigger] hist_at(h@, nb, p, b) == count_in(
                    keys@.take(idx as int),
                    (p * width) as u64,
                    width,
                    b,
                ),
        decreases keys.len() - idx,
    {
        let key = keys[idx];
        let mut p: u64 = 0;
        let mut shift: u64 = 0;
        let mut base: usize = 0;
        while p < passes
            invariant
                1 <= width <= 16,
                1 <= passes <= 64,
                (passes - 1) * width < 64,
                keys.len() <= u32::MAX,
                nb == buckets(width),
                nbx == nb,
                2 <= nb <= 65536,
                total == passes * nb,
                h.len() == total,
                idx < keys.len(),
                key == keys@[idx as int],
                p <= passes,
                shift == p * width,
                base == p * nb,
                forall|q: int, b: int|
                    0 <= q < p && 0 <= b < nb ==> #[trigger] hist_at(h@, nb, q, b) == count_in(
                        keys@.take(idx + 1),
                        (q * width) as u64,
                        width,
                        b,
                    ),
                forall|q: int, b: int|
                    p <= q < passes && 0 <= b < nb ==> #[trigger] hist_at(h@, nb, q, b) == count_in(
                        keys@.take(idx as int),
                        (q * width) as u64,
                        width,
                        b,
                    ),
            decreases passes - p,
        {
            assert(shift < 64) by (nonlinear_arith)
                requires
                    shift == p * width,
                    p < passes,
                    (passes - 1) * width < 64,
                    width >= 1,
            ;
            let b0 = bucket_of(key, shift, width);
            proof {
                lemma_index(p as int, b0 as int, nb, passes as int);
                lemma_count_bounds(keys@.take(idx as int), shift, width, b0 as int);
                assert(hist_at(h@, nb, p as int, b0 as int) == count_in(keys@.take(idx as int), shift, width, b0 as int));
            }
            let v = h[base + b0 as usize];
            let ghost before = h@;
            h.set(base + b0 as usize, v + 1);
            proof {
                assert forall|q: int, b: int| 0 <= q < p + 1 && 0 <= b < nb implies #[trigger] hist_at(h@, nb, q, b)
                    == count_in(keys@.take(idx + 1), (q * width) as u64, width, b) by {
                    lemma_index(q, b, nb, passes as int);
                    if q == p {
                        lemma_count_step(keys@, shift, width, b, idx as int);
                        if b != b0 {
                            lemma_index_unique(q, b, p as int, b0 as int, nb);
                            assert(hist_at(before, nb, q, b) == count_in(keys@.take(idx as int), shift, width, b));
                        }
                    } else {
                        lemma_index_unique(q, b, p as int, b0 as int, nb);
                        assert(hist_at(before, nb, q, b) == count_in(keys@.take(idx + 1), (q * width) as u64, width, b));
                    }
                }
                assert forall|q: int, b: int| p + 1 <= q < passes && 0 <= b < nb implies #[trigger] hist_at(h@, nb, q, b)
                    == count_in(keys@.take(idx as int), (q * width) as u64, width, b) by {
                    lemma_index(q, b, nb, passes as int);
                    lemma_index_unique(q, b, p as int, b0 as int, nb);
                    assert(hist_at(before, nb, q, b) == count_in(keys@.take(idx as int), (q * width) as u64, width, b));
                }
                assert((p + 1) * width == p * width + width) by (nonlinear_arith);
                assert((p + 1) * nb <= passes * nb) by (nonlinear_arith)
                    requires
                        p < passes,
                        nb >= 0,
                ;
            }
            p = p + 1;
            shift = shift + width;
            base = base + nbx;
        }
        idx = idx + 1;
    }
    proof {
        assert(keys@.take(keys@.len() as int) =~= keys@);
    }
    h
}

/// The sum of the histogram entries of the buckets before `b` of pass `p`.
pub open spec fn bucket_sum(h: Seq<u32>, nb: int, p: int, b: int) -> int
    decreases b,
{
    if b <= 0 {
        0
    } else {
        bucket_sum(h, nb, p, b - 1) + hist_at(h, nb, p, b - 1)
    }
}

proof fn lemma_bucket_sum_mono(h: Seq<u32>, nb: int, p: int, b1: int, b2: int)
    requires
        0 <= b1 <= b2,
    ensures
        bucket_sum(h, nb, p, b1) <= bucket_sum(h, nb, p, b2),
    decreases b2 - b1,
{
    if b1 < b2 {
        lemma_bucket_sum_mono(h, nb, p, b1, b2 - 1);
    }
}

/// Counted buckets summed up give where each bucket starts.
proof fn lemma_bucket_sum_is_start(h: Seq<u32>, nb: int, p: int, s: Seq<u64>, shift: u64, width: u64, b: int)
    requires
        0 <= b <= nb,
        forall|e: int| 0 <= e < nb ==> #[trigger] hist_at(h, nb, p, e) == count_in(s, shift, width, e),
    ensures
        bucket_sum(h, nb, p, b) == start_of(s, shift, width, b),
    decreases b,
{
    if b > 0 {
        lemma_bucket_sum_is_start(h, nb, p, s, shift, width, b - 1);
    }
}

/// Turns the counts of each pass into where each bucket starts: every entry becomes the sum of
/// the entries before it in its pass.
pub fn prefix_histograms(h: &mut Vec<u32>, width: u64, passes: u64)
    requires
        1 <= width <= 16,
        1 <= passes <= 64,
        old(h).len() == passes * buckets(width),
        forall|p: int| 0 <= p < passes ==> #[trigger] bucket_sum(old(h)@, buckets(width), p, buckets(width)) <= u32::MAX,
    ensures
        final(h).len() == old(h).len(),
        forall|p: int, b: int|
            0 <= p < passes && 0 <= b < buckets(width) ==> #[trigger] hist_at(final(h)@, buckets(width), p, b)
                == bucket_sum(old(h)@, buckets(width), p, b),
{
    proof {
        lemma_buckets(width);
    }
    let ghost nb = buckets(width);
    let nbx: usize = (1u64 << width) as usize;
    let mut p: u64 = 0;
    let mut base: usize = 0;
    while p < passes
        invariant
            1 <= width <= 16,
            1 <= passes <= 64,
            nb == buckets(width),
            nbx == nb,
            2 <= nb <= 65536,
            h.len() == old(h).len(),
            old(h).len() == passes * nb,
            forall|q: int| 0 <= q < passes ==> #[trigger] bucket_sum(old(h)@, nb, q, nb) <= u32::MAX,
            p <= passes,
            base == p * nb,
            forall|q: int, b: int|
                0 <= q < p && 0 <= b < nb ==> #[trigger] hist_at(h@, nb, q, b) == bucket_sum(old(h)@, nb, q, b),
            forall|q: int, b: int|
                p <= q < passes && 0 <= b < nb ==> #[trigger] hist_at(h@, nb, q, b) == hist_at(old(h)@, nb, q, b),
        decreases passes - p,
    {
        let mut sum: u32 = 0;
        let mut j: usize = 0;
        while j < nbx
            invariant
                1 <= width <= 16,
                1 <= passes <= 64,
                nb == buckets(width),
                nbx == nb,
                2 <= nb <= 65536,
                h.len() == old(h).len(),
                old(h).len() == passes * nb,
                forall|q: int| 0 <= q < passes ==> #[trigger] bucket_sum(old(h)@, nb, q, nb) <= u32::MAX,
                p < passes,
                base == p * nb,
                j <= nb,
                sum == bucket_sum(old(h)@, nb, p as int, j as int),
                forall|q: int, b: int|
                    0 <= q < p && 0 <= b < nb ==> #[trigger] hist_at(h@, nb, q, b) == bucket_sum(old(h)@, nb, q, b),
                forall|b: int| 0 <= b < j ==> #[trigger] hist_at(h@, nb, p as int, b) == bucket_sum(old(h)@, nb, p as int, b),
                forall|q: int, b: int|
                    (p < q < passes || (q == p && j <= b)) && 0 <= b < nb ==> #[trigger] hist_at(h@, nb, q, b) == hist_at(old(h)@, nb, q, b),
            decreases nb - j,
        {
            proof {
                lemma_index(p as int, j as int, nb, passes as int);
                lemma_bucket_sum_mono(old(h)@, nb, p as int, j + 1, nb);
                assert(hist_at(h@, nb, p as int, j as int) == hist_at(old(h)@, nb, p as int, j as int));
            }
            let val = h[base + j];
            let ghost before = h@;
            h.set(base + j, sum);
            proof {
                assert forall|q: int, b: int| 0 <= q < p && 0 <= b < nb implies #[trigger] hist_at(h@, nb, q, b)
                    == bucket_sum(old(h)@, nb, q, b) by {
                    lemma_index(q, b, nb, passes as int);
                    lemma_index_unique(q, b, p as int, j as int, nb);
                    assert(hist_at(before, nb, q, b) == bucket_sum(old(h)@, nb, q, b));
                }
                assert forall|b: int| 0 <= b < j + 1 implies #[trigger] hist_at(h@, nb, p as int, b) == bucket_sum(
                    old(h)@,
                    nb,
                    p as int,
                    b,
                ) by {
                    lemma_index(p as int, b, nb, passes as int);
                    if b != j {
                        lemma_index_unique(p as int, b, p as int, j as int, nb);
                        assert(hist_at(before, nb, p as int, b) == bucket_sum(old(h)@, nb, p as int, b));
                    }
                }
                assert forall|q: int, b: int|
                    (p < q < passes || (q == p && j + 1 <= b)) && 0 <= b < nb implies #[trigger] hist_at(h@, nb, q, b)
                        == hist_at(old(h)@, nb, q, b) by {
                    lemma_index(q, b, nb, passes as int);
                    lemma_index_unique(q, b, p as int, j as int, nb);
                    assert(hist_at(before, nb, q, b) == hist_at(old(h)@, nb, q, b));
                }
            }
            sum = sum + val;
            j = j + 1;
        }
        proof {
            assert((p + 1) * nb <= passes * nb) by (nonlinear_arith)
                requires
                    p < passes,
                    nb >= 0,
            ;
            lemma_index(p as int, 0, nb, passes as int);
        }
        p = p + 1;
        base = base + nbx;
    }
}

/// Moves each key and its value from the first pair of arrays to the second, in the order of the
/// pass over the `width` bits of pass `pass`; the histogram entries of the pass, where each bucket
/// starts, end where each bucket ends.
pub fn radix_pass(
    keys1: &Vec<u64>,
    values1: &Vec<u32>,
    keys2: &mut Vec<u64>,
    values2: &mut Vec<u32>,
    hist: &mut Vec<u32>,
    pass: u64,
    width: u64,
)
    requires
        1 <= width <= 16,
        pass * width < 64,
        keys1.len() == values1.len(),
        old(keys2).len() == keys1.len(),
        old(values2).len() == keys1.len(),
        keys1.len() <= u32::MAX,
        (pass + 1) * buckets(width) <= old(hist).len(),
        forall|b: int|
            0 <= b < buckets(width) ==> #[trigger] hist_at(old(hist)@, buckets(width), pass as int, b) == start_of(
                keys1@,
                (pass * width) as u64,
                width,
                b,
            ),
    ensures
        final(keys2).len() == keys1.len(),
        final(values2).len() == keys1.len(),
        forall|i: int|
            0 <= i < keys1.len() ==> {
                let at = #[trigger] place(keys1@, (pass * width) as u64, width, i);
                &&& 0 <= at < keys1.len()
                &&& final(keys2)@[at] == keys1@[i]
                &&& final(values2)@[at] == values1@[i]
            },
        final(hist).len() == old(hist).len(),
        forall|b: int|
            0 <= b < buckets(width) ==> #[trigger] hist_at(final(hist)@, buckets(width), pass as int, b) == start_of(
                keys1@,
                (pass * width) as u64,
                width,
                b + 1,
            ),
        forall|k: int|
            0 <= k < old(hist).len() && !(pass * buckets(width) <= k < (pass + 1) * buckets(width))
                ==> #[trigger] final(hist)@[k] == old(hist)@[k],
        final(keys2)@.to_multiset() == keys1@.to_multiset(),
        rows(final(keys2)@, final(values2)@).to_multiset() == rows(keys1@, values1@).to_multiset(),
        sorted_below(keys1@, (pass * width) as u64) ==> sorted_below(final(keys2)@, (pass * width + width) as u64),
{
    proof {
        lemma_buckets(width);
    }
    let ghost nb = buckets(width);
    let ghost s = keys1@;
    let nbx: usize = (1u64 << width) as usize;
    let shift: u64 = pass * width;
    assert((pass + 1) * nb == pass * nb + nb) by (nonlinear_arith);
    assert(pass < 64) by (nonlinear_arith)
        requires
            pass * width < 64,
            width >= 1,
    ;
    let base: usize = (pass as usize) * nbx;
    let n = keys1.len();
    let mut idx: usize = 0;
    while idx < n
        invariant
            1 <= width <= 16,
            shift < 64,
            shift == pass * width,
            nb == buckets(width),
            nbx == nb,
            2 <= nb <= 65536,
            base == pass * nb,
            base + nb <= hist.len(),
            s == keys1@,
            n == keys1.len(),
            n == values1.len(),
            n <= u32::MAX,
            keys2.len() == n,
            values2.len() == n,
            hist.len() == old(hist).len(),
            idx <= n,
            forall|b: int|
                0 <= b < nb ==> #[trigger] hist_at(hist@, nb, pass as int, b) == start_of(s, shift, width, b) + count_in(
                    s.take(idx as int),
                    shift,
                    width,
                    b,
                ),
            forall|k: int| 0 <= k < hist.len() && !(base <= k < base + nb) ==> #[trigger] hist@[k] == old(hist)@[k],
            forall|i: int|
                0 <= i < idx ==> {
                    let at = #[trigger] place(s, shift, width, i);
                    &&& keys2@[at] == s[i]
                    &&& values2@[at] == values1@[i]
                },
        decreases n - idx,
    {
        let key = keys1[idx];
        let value = values1[idx];
        let b = bucket_of(key, shift, width);
        proof {
            lemma_place_range(s, shift, width, idx as int);
            assert(hist_at(hist@, nb, pass as int, b as int) == place(s, shift, width, idx as int));
        }
        let index = hist[base + b as usize];
        keys2.set(index as usize, key);
        values2.set(index as usize, value);
        let ghost before = hist@;
        hist.set(base + b as usize, index + 1);
        proof {
            assert forall|i: int| 0 <= i < idx + 1 implies {
                let at = #[trigger] place(s, shift, width, i);
                &&& keys2@[at] == s[i]
                &&& values2@[at] == values1@[i]
            } by {
                lemma_place_range(s, shift, width, i);
                if i < idx {
                    lemma_place_order(s, shift, width, i, idx as int);
                }
            }
            assert forall|c: int| 0 <= c < nb implies #[trigger] hist_at(hist@, nb, pass as int, c) == start_of(
                s,
                shift,
                width,
                c,
            ) + count_in(s.take(idx + 1), shift, width, c) by {
                lemma_count_step(s, shift, width, c, idx as int);
                if c != b {
                    lemma_index_unique(pass as int, c, pass as int, b as int, nb);
                    assert(hist_at(before, nb, pass as int, c) == start_of(s, shift, width, c) + count_in(
                        s.take(idx as int),
                        shift,
                        width,
                        c,
                    ));
                }
            }
        }
        idx = idx + 1;
    }
    proof {
        assert(s.take(n as int) =~= s);
        assert forall|i: int| 0 <= i < n implies {
            let at = #[trigger] place(s, shift, width, i);
            &&& 0 <= at < n
            &&& keys2@[at] == s[i]
            &&& values2@[at] == values1@[i]
        } by {
            lemma_place_range(s, shift, width, i);
        }
        assert forall|c: int| 0 <= c < nb implies #[trigger] hist_at(hist@, nb, pass as int, c) == start_of(
            s,
            shift,
            width,
            c + 1,
        ) by {}
        assert forall|k: int|
            0 <= k < old(hist).len() && !(pass * nb <= k < (pass + 1) * nb) implies #[trigger] hist@[k] == old(
                hist,
            )@[k] by {
            assert((pass + 1) * nb == pass * nb + nb) by (nonlinear_arith);
        }
        let f = |i: int| place(s, shift, width, i);
        assert forall|i: int, j: int| 0 <= i < j < n implies #[trigger] f(i) != #[trigger] f(j) by {
            lemma_place_order(s, shift, width, i, j);
        }
        lemma_perm_multiset(s, keys2@, f);
        lemma_perm_multiset(rows(s, values1@), rows(keys2@, values2@), f);
        if sorted_below(s, shift) {
            lemma_place_onto(s, shift, width);
            assert forall|x: int, y: int| 0 <= x < y < n implies low_bits(#[trigger] keys2@[x], (shift + width) as u64)
                <= low_bits(#[trigger] keys2@[y], (shift + width) as u64) by {
                assert(placed(s, shift, width, x));
                assert(placed(s, shift, width, y));
                let i = choose|i: int| 0 <= i < n && #[trigger] place(s, shift, width, i) == x;
                let j = choose|j: int| 0 <= j < n && #[trigger] place(s, shift, width, j) == y;
                lemma_bucket_order(s[i], s[j], shift, width);
                lemma_bucket_order(s[j], s[i], shift, width);
                if i < j {
                    lemma_place_order(s, shift, width, i, j);
                } else if j < i {
                    lemma_place_order(s, shift, width, j, i);
                }
            }
        }
    }
}

/// Whether a pass puts some key at position `x`.
pub open spec fn placed(s: Seq<u64>, shift: u64, width: u64, x: int) -> bool {
    exists|i: int| 0 <= i < s.len() && #[trigger] place(s, shift, width, i) == x
}

/// Every position of the output of a pass takes one key.
proof fn lemma_place_onto(s: Seq<u64>, shift: u64, width: u64)
    requires
        shift < 64,
        1 <= width <= 16,
    ensures
        forall|x: int| 0 <= x < s.len() ==> #[trigger] placed(s, shift, width, x),
{
    let n = s.len() as int;
    let f = |i: int| place(s, shift, width, i);
    let dom = set_int_range(0, n);
    let img = dom.map(f);
    lemma_int_range(0, n);
    assert forall|x1: int, x2: int| dom.contains(x1) && dom.contains(x2) && #[trigger] f(x1) == #[trigger] f(x2) implies x1
        == x2 by {
        if x1 < x2 {
            lemma_place_order(s, shift, width, x1, x2);
        } else if x2 < x1 {
            lemma_place_order(s, shift, width, x2, x1);
        }
    }
    assert(injective_on(f, dom));
    lemma_map_size(dom, img, f);
    assert forall|x: int| img.contains(x) implies dom.contains(x) by {
        let i = choose|i: int| dom.contains(i) && x == f(i);
        lemma_place_range(s, shift, width, i);
    }
    lemma_subset_equality(img, dom);
    assert forall|x: int| 0 <= x < n implies #[trigger] placed(s, shift, width, x) by {
        assert(dom.contains(x));
        assert(img.contains(x));
        let i = choose|i: int| dom.contains(i) && x == f(i);
        assert(place(s, shift, width, i) == x);
    }
}

/// A sequence laid out again by a one-to-one map of its positions holds the same items.
proof fn lemma_perm_multiset<A>(a: Seq<A>, b: Seq<A>, f: spec_fn(int) -> int)
    requires
        a.len() == b.len(),
        forall|i: int| 0 <= i < a.len() ==> 0 <= #[trigger] f(i) < a.len() && b[f(i)] == a[i],
        forall|i: int, j: int| 0 <= i < j < a.len() ==> #[trigger] f(i) != #[trigger] f(j),
    ensures
        a.to_multiset() == b.to_multiset(),
    decreases a.len(),
{
    broadcast use vstd::seq_lib::group_to_multiset_ensures;

    if a.len() > 0 {
        let n = a.len() - 1;
        let j = f(n);
        let a2 = a.drop_last();
        let b2 = b.remove(j);
        let g = |i: int| if f(i) < j { f(i) } else { f(i) - 1 };
        assert forall|i: int| 0 <= i < a2.len() implies 0 <= #[trigger] g(i) < a2.len() && b2[g(i)] == a2[i] by {
            assert(f(i) != f(n));
        }
        assert forall|i: int, k: int| 0 <= i < k < a2.len() implies #[trigger] g(i) != #[trigger] g(k) by {
            assert(f(i) != f(n));
            assert(f(k) != f(n));
            assert(f(i) != f(k));
        }
        lemma_perm_multiset(a2, b2, g);
        assert(a2.push(a[n]) =~= a);
        assert(b2.to_multiset() =~= b.to_multiset().remove(b[j]));
        assert(b.to_multiset().count(b[j]) > 0) by {
            assert(b.contains(b[j]));
        }
        assert(a.to_multiset() =~= b.to_multiset());
    }
}

/// Adds one for each key in bucket `b`.
pub open spec fn bucket_counter(shift: u64, width: u64, b: int) -> spec_fn(int, u64) -> int {
    |acc: int, x: u64| acc + if bucket(x, shift, width) == b { 1int } else { 0int }
}

proof fn lemma_count_fold(s: Seq<u64>, shift: u64, width: u64, b: int)
    ensures
        count_in(s, shift, width, b) == s.fold_left(0int, bucket_counter(shift, width, b)),
    decreases s.len(),
{
    if s.len() > 0 {
        lemma_count_fold(s.drop_last(), shift, width, b);
    }
}

/// Sequences with the same keys have the same buckets.
proof fn lemma_start_perm(s1: Seq<u64>, s2: Seq<u64>, shift: u64, width: u64, b: int)
    requires
        s1.to_multiset() == s2.to_multiset(),
    ensures
        start_of(s1, shift, width, b) == start_of(s2, shift, width, b),
    decreases b,
{
    if b > 0 {
        lemma_start_perm(s1, s2, shift, width, b - 1);
        let f = bucket_counter(shift, width, b - 1);
        assert(vstd::seq_lib::commutative_foldl(f));
        vstd::seq_lib::lemma_fold_left_permutation(s1, s2, f, 0int);
        lemma_count_fold(s1, shift, width, b - 1);
        lemma_count_fold(s2, shift, width, b - 1);
    }
}

/// Whether `out_keys` and `out_values` are `keys` and `values` laid out again by `origin`: the row
/// at position `i` of the output is the row at `origin[i]` of the input, each input row once.
pub open spec fn rearranged(
    keys: Seq<u64>,
    values: Seq<u32>,
    out_keys: Seq<u64>,
    out_values: Seq<u32>,
    origin: Seq<int>,
) -> bool {
    &&& origin.len() == keys.len()
    &&& out_keys.len() == keys.len()
    &&& out_values.len() == keys.len()
    &&& forall|i: int|
        0 <= i < origin.len() ==> 0 <= #[trigger] origin[i] < keys.len() && out_keys[i] == keys[origin[i]]
            && out_values[i] == values[origin[i]]
    &&& forall|i: int, j: int| 0 <= i < j < origin.len() ==> #[trigger] origin[i] != #[trigger] origin[j]
}

/// Whether rows whose keys agree below bit `top` keep the order they had in the input.
pub open spec fn stable_below(keys: Seq<u64>, origin: Seq<int>, top: u64) -> bool {
    forall|i: int, j: int|
        0 <= i < j < keys.len() && low_bits(#[trigger] keys[i], top) == low_bits(#[trigger] keys[j], top)
            ==> origin[i] < origin[j]
}

/// Whether rows of equal keys keep the order they had in the input.
pub open spec fn stable(keys: Seq<u64>, origin: Seq<int>) -> bool {
    forall|i: int, j: int| 0 <= i < j < keys.len() && #[trigger] keys[i] == #[trigger] keys[j] ==> origin[i] < origin[j]
}

/// Keys that agree below the bits of a pass agree on the pass's bucket and below it.
proof fn lemma_low_bits_split(x: u64, y: u64, shift: u64, width: u64)
    requires
        shift < 64,
        1 <= width <= 16,
        low_bits(x, (shift + width) as u64) == low_bits(y, (shift + width) as u64),
    ensures
        bucket(x, shift, width) == bucket(y, shift, width),
        low_bits(x, shift) == low_bits(y, shift),
{
    if shift + width >= 64 {
        assert(x == y ==> ((x & ((((1u64 << width) - 1) as u64) << shift)) >> shift) == ((y & ((((1u64 << width)
            - 1) as u64) << shift)) >> shift) && (x & (((1u64 << shift) - 1) as u64)) == (y & (((1u64 << shift)
            - 1) as u64))) by (bit_vector);
    } else {
        let top: u64 = (shift + width) as u64;
        assert((x & (((1u64 << top) - 1) as u64)) == (y & (((1u64 << top) - 1) as u64)) ==> ((x & ((((1u64
            << width) - 1) as u64) << shift)) >> shift) == ((y & ((((1u64 << width) - 1) as u64) << shift)) >> shift)
            && (x & (((1u64 << shift) - 1) as u64)) == (y & (((1u64 << shift) - 1) as u64))) by (bit_vector)
            requires
                shift < 64,
                1 <= width <= 16,
                top == shift + width,
                top < 64,
        ;
    }
}

/// A pass lays the rows out again, and keeps rows whose keys agree below the bits it has looked at
/// in input order.
proof fn lemma_pass_stable(
    s0: Seq<u64>,
    v0: Seq<u32>,
    s: Seq<u64>,
    v: Seq<u32>,
    k2: Seq<u64>,
    v2: Seq<u32>,
    origin: Seq<int>,
    shift: u64,
    width: u64,
) -> (next: Seq<int>)
    requires
        shift < 64,
        1 <= width <= 16,
        k2.len() == s.len(),
        v2.len() == s.len(),
        forall|i: int|
            0 <= i < s.len() ==> {
                let at = #[trigger] place(s, shift, width, i);
                &&& 0 <= at < s.len()
                &&& k2[at] == s[i]
                &&& v2[at] == v[i]
            },
        rearranged(s0, v0, s, v, origin),
        stable_below(s, origin, shift),
    ensures
        rearranged(s0, v0, k2, v2, next),
        stable_below(k2, next, (shift + width) as u64),
{
    let n = s.len() as int;
    lemma_place_onto(s, shift, width);
    let from = |x: int| choose|i: int| 0 <= i < n && #[trigger] place(s, shift, width, i) == x;
    let next = Seq::new(n as nat, |x: int| origin[from(x)]);
    assert forall|x: int| 0 <= x < n implies 0 <= #[trigger] from(x) < n && place(s, shift, width, from(x)) == x by {
        assert(placed(s, shift, width, x));
    }
    assert forall|x: int| 0 <= x < next.len() implies 0 <= #[trigger] next[x] < s0.len() && k2[x] == s0[next[x]]
        && v2[x] == v0[next[x]] by {
        let i = from(x);
        assert(place(s, shift, width, i) == x);
    }
    assert forall|x: int, y: int| 0 <= x < y < next.len() implies #[trigger] next[x] != #[trigger] next[y] by {
        let i = from(x);
        let j = from(y);
        assert(i != j);
        if i < j {
            assert(origin[i] != origin[j]);
        } else {
            assert(origin[j] != origin[i]);
        }
    }
    assert forall|x: int, y: int|
        0 <= x < y < k2.len() && low_bits(#[trigger] k2[x], (shift + width) as u64) == low_bits(
            #[trigger] k2[y],
            (shift + width) as u64,
        ) implies next[x] < next[y] by {
        let i = from(x);
        let j = from(y);
        assert(k2[x] == s[i] && k2[y] == s[j]);
        lemma_low_bits_split(s[i], s[j], shift, width);
        if j < i {
            lemma_place_order(s, shift, width, j, i);
        }
        assert(i != j);
        assert(i < j);
    }
    next
}

proof fn lemma_passes(width: u64, passes: u64)
    requires
        1 <= width <= 16,
        passes == (63 + width) / (width as int),
    ensures
        1 <= passes <= 64,
        passes * width >= 64,
        (passes - 1) * width < 64,
{
    vstd::arithmetic::div_mod::lemma_fundamental_div_mod(63 + width as int, width as int);
    assert(passes * width >= 64 && (passes - 1) * width < 64 && 1 <= passes <= 64) by (nonlinear_arith)
        requires
            1 <= width <= 16,
            63 + width == width * passes + (63 + width) % (width as int),
            0 <= (63 + width) % (width as int) < width,
    ;
}

/// Sorts the keys, each with its value, by least significant digit first radix passes over
/// `width` bits at a time.
pub fn radix_sort(keys: Vec<u64>, values: Vec<u32>, width: u64) -> (r: (Vec<u64>, Vec<u32>))
    requires
        1 <= width <= 16,
        keys.len() == values.len(),
        keys.len() <= u32::MAX,
    ensures
        r.0.len() == keys.len(),
        r.1.len() == keys.len(),
        ascending(r.0@),
        rows(r.0@, r.1@).to_multiset() == rows(keys@, values@).to_multiset(),
        exists|origin: Seq<int>| rearranged(keys@, values@, r.0@, r.1@, origin) && stable(r.0@, origin),
{
    let passes: u64 = (63 + width) / width;
    proof {
        lemma_passes(width, passes);
        lemma_buckets(width);
    }
    let ghost nb = buckets(width);
    let ghost s0 = keys@;
    let ghost v0 = values@;
    let n = keys.len();
    let mut h = build_histograms(&keys, width, passes);
    proof {
        assert forall|p: int| 0 <= p < passes implies #[trigger] bucket_sum(h@, nb, p, nb) <= u32::MAX by {
            assert(p * width < 64) by (nonlinear_arith)
                requires
                    0 <= p < passes,
                    (passes - 1) * width < 64,
                    width >= 1,
            ;
            lemma_bucket_sum_is_start(h@, nb, p, s0, (p * width) as u64, width, nb);
            lemma_start_total(s0, (p * width) as u64, width);
        }
    }
    let ghost counted = h@;
    prefix_histograms(&mut h, width, passes);
    proof {
        assert forall|p: int, b: int| 0 <= p < passes && 0 <= b < nb implies #[trigger] hist_at(h@, nb, p, b)
            == start_of(s0, (p * width) as u64, width, b) by {
            lemma_bucket_sum_is_start(counted, nb, p, s0, (p * width) as u64, width, b);
        }
    }
    let mut keys1 = keys;
    let mut values1 = values;
    let mut keys2: Vec<u64> = Vec::new();
    let mut values2: Vec<u32> = Vec::new();
    while keys2.len() < n
        invariant
            keys2.len() == values2.len(),
            keys2.len() <= n,
        decreases n - keys2.len(),
    {
        keys2.push(0);
        values2.push(0);
    }
    proof {
        assert forall|i: int, j: int| 0 <= i < j < n implies low_bits(#[trigger] keys1@[i], 0) <= low_bits(
            #[trigger] keys1@[j],
            0,
        ) by {
            let x = keys1@[i];
            let y = keys1@[j];
            assert((x & (((1u64 << 0u64) - 1) as u64)) == 0 && (y & (((1u64 << 0u64) - 1) as u64)) == 0)
                by (bit_vector);
        }
    }
    let ghost rows0 = rows(keys1@, values1@);
    let ghost mut origin: Seq<int> = Seq::new(n as nat, |i: int| i);
    proof {
        assert forall|i: int, j: int|
            0 <= i < j < keys1@.len() && low_bits(#[trigger] keys1@[i], 0) == low_bits(#[trigger] keys1@[j], 0)
                implies origin[i] < origin[j] by {}
    }
    let mut p: u64 = 0;
    while p < passes
        invariant
            1 <= width <= 16,
            1 <= passes <= 64,
            passes * width >= 64,
            (passes - 1) * width < 64,
            nb == buckets(width),
            2 <= nb <= 65536,
            n <= u32::MAX,
            keys1.len() == n,
            values1.len() == n,
            keys2.len() == n,
            values2.len() == n,
            h.len() == passes * nb,
            p <= passes,
            keys1@.to_multiset() == s0.to_multiset(),
            rows(keys1@, values1@).to_multiset() == rows0.to_multiset(),
            s0.len() == n,
            v0.len() == n,
            rearranged(s0, v0, keys1@, values1@, origin),
            stable_below(keys1@, origin, (p * width) as u64),
            sorted_below(keys1@, (p * width) as u64),
            forall|q: int, b: int|
                p <= q < passes && 0 <= b < nb ==> #[trigger] hist_at(h@, nb, q, b) == start_of(
                    s0,
                    (q * width) as u64,
                    width,
                    b,
                ),
        decreases passes - p,
    {
        proof {
            assert(p * width < 64) by (nonlinear_arith)
                requires
                    p < passes,
                    (passes - 1) * width < 64,
                    width >= 1,
            ;
            assert((p + 1) * nb <= passes * nb) by (nonlinear_arith)
                requires
                    p < passes,
                    nb >= 0,
            ;
            assert forall|b: int| 0 <= b < nb implies #[trigger] hist_at(h@, nb, p as int, b) == start_of(
                keys1@,
                (p * width) as u64,
                width,
                b,
            ) by {
                lemma_start_perm(keys1@, s0, (p * width) as u64, width, b);
            }
        }
        let ghost before = h@;
        radix_pass(&keys1, &values1, &mut keys2, &mut values2, &mut h, p, width);
        proof {
            origin = lemma_pass_stable(
                s0,
                v0,
                keys1@,
                values1@,
                keys2@,
                values2@,
                origin,
                (p * width) as u64,
                width,
            );
            assert forall|q: int, b: int| p + 1 <= q < passes && 0 <= b < nb implies #[trigger] hist_at(h@, nb, q, b)
                == start_of(s0, (q * width) as u64, width, b) by {
                lemma_index(q, b, nb, passes as int);
                assert((p + 1) * nb <= q * nb) by (nonlinear_arith)
                    requires
                        p + 1 <= q,
                        nb >= 0,
                ;
                assert(hist_at(before, nb, q, b) == start_of(s0, (q * width) as u64, width, b));
            }
            assert((p + 1) * width == p * width + width) by (nonlinear_arith);
        }
        std::mem::swap(&mut keys1, &mut keys2);
        std::mem::swap(&mut values1, &mut values2);
        p = p + 1;
    }
    proof {
        assert(passes * width <= 1024) by (nonlinear_arith)
            requires
                passes <= 64,
                width <= 16,
        ;
        assert forall|i: int, j: int| 0 <= i < j < n implies #[trigger] keys1@[i] <= #[trigger] keys1@[j] by {
            assert(low_bits(keys1@[i], (passes * width) as u64) <= low_bits(keys1@[j], (passes * width) as u64));
        }
        assert forall|i: int, j: int| 0 <= i < j < keys1@.len() && #[trigger] keys1@[i] == #[trigger] keys1@[j]
            implies origin[i] < origin[j] by {
            assert(low_bits(keys1@[i], (passes * width) as u64) == low_bits(keys1@[j], (passes * width) as u64));
        }
        assert(rearranged(s0, v0, keys1@, values1@, origin) && stable(keys1@, origin));
    }
    (keys1, values1)
}

/// The first position whose key is smaller than the key before it, if any.
pub fn first_unsorted(keys: &Vec<u64>) -> (r: Option<usize>)
    ensures
        match r {
            Some(i) => {
                &&& 1 <= i < keys.len()
                &&& keys@[i as int] < keys@[i - 1]
                &&& forall|j: int| 1 <= j < i ==> keys@[j - 1] <= #[trigger] keys@[j]
            },
            None => forall|j: int| 1 <= j < keys.len() ==> keys@[j - 1] <= #[trigger] keys@[j],
        },
{
    let mut idx: usize = 1;
    while idx < keys.len()
        invariant
            1 <= idx,
            idx <= keys.len() || keys.len() == 0,
            forall|j: int| 1 <= j < idx && j < keys.len() ==> keys@[j - 1] <= #[trigger] keys@[j],
        decreases keys.len() - idx,
    {
        if keys[idx] < keys[idx - 1] {
            return Some(idx);
        }
        idx = idx + 1;
    }
    None
}

} // verus!
