use vstd::prelude::*;

verus! {

broadcast use vstd::seq_lib::group_seq_properties, vstd::multiset::group_multiset_axioms;

/// Whether a sequence of words is in ascending order.
pub open spec fn sorted(s: Seq<u16>) -> bool {
    forall|a: int, b: int| 0 <= a < b < s.len() ==> s[a] <= s[b]
}

/// The sequence without its leading zeros.
pub open spec fn drop_zeros(s: Seq<u16>) -> Seq<u16>
    decreases s.len(),
{
    if s.len() == 0 {
        s
    } else if s[0] == 0 {
        drop_zeros(s.drop_first())
    } else {
        s
    }
}

/// The sequence with each run of equal adjacent words collapsed to one.
pub open spec fn dedup(s: Seq<u16>) -> Seq<u16>
    decreases s.len(),
{
    if s.len() <= 1 {
        s
    } else if s.last() == s[s.len() - 2] {
        dedup(s.drop_last())
    } else {
        dedup(s.drop_last()).push(s.last())
    }
}

/// What `list_items_distinct` leaves of a list: leading zeros dropped, adjacent repeats collapsed.
pub open spec fn distinct(s: Seq<u16>) -> Seq<u16> {
    dedup(drop_zeros(s))
}

proof fn lemma_dedup_last(s: Seq<u16>)
    requires
        s.len() > 0,
    ensures
        dedup(s).len() > 0,
        dedup(s).last() == s.last(),
        dedup(s).len() <= s.len(),
    decreases s.len(),
{
    if s.len() > 1 {
        lemma_dedup_last(s.drop_last());
    }
}

proof fn lemma_drop_zeros(s: Seq<u16>, i: int)
    requires
        0 <= i <= s.len(),
        forall|k: int| 0 <= k < i ==> s[k] == 0,
        i < s.len() ==> s[i] != 0,
    ensures
        drop_zeros(s) == s.subrange(i, s.len() as int),
    decreases i,
{
    if i == 0 {
        if s.len() == 0 {
            assert(s.subrange(0, 0) =~= s);
        } else {
            assert(s.subrange(0, s.len() as int) =~= s);
        }
    } else {
        lemma_drop_zeros(s.drop_first(), i - 1);
        assert(s.drop_first().subrange(i - 1, s.len() - 1) =~= s.subrange(i, s.len() as int));
    }
}

/// Dropping the leading zeros of sorted words leaves them sorted, without any zero, and with
/// every other word.
proof fn lemma_drop_zeros_sorted(s: Seq<u16>)
    requires
        sorted(s),
    ensures
        sorted(drop_zeros(s)),
        forall|i: int| 0 <= i < drop_zeros(s).len() ==> #[trigger] drop_zeros(s)[i] != 0,
        forall|x: u16| drop_zeros(s).contains(x) <==> (s.contains(x) && x != 0),
    decreases s.len(),
{
    if s.len() > 0 {
        if s[0] == 0 {
            let t = s.drop_first();
            assert forall|a: int, b: int| 0 <= a < b < t.len() implies t[a] <= t[b] by {
                assert(s[a + 1] <= s[b + 1]);
            }
            lemma_drop_zeros_sorted(t);
            assert forall|x: u16| t.contains(x) && x != 0 <==> (s.contains(x) && x != 0) by {
                if s.contains(x) && x != 0 {
                    let k = choose|k: int| 0 <= k < s.len() && s[k] == x;
                    assert(t[k - 1] == x);
                }
                if t.contains(x) {
                    let k = choose|k: int| 0 <= k < t.len() && t[k] == x;
                    assert(s[k + 1] == x);
                }
            }
        } else {
            assert forall|i: int| 0 <= i < s.len() implies #[trigger] s[i] != 0 by {
                assert(s[0] <= s[i]);
            }
        }
    }
}

/// Collapsing the repeats of sorted words leaves them in strictly ascending order, with the same
/// words.
proof fn lemma_dedup_sorted(t: Seq<u16>)
    requires
        sorted(t),
    ensures
        forall|a: int, b: int| 0 <= a < b < dedup(t).len() ==> #[trigger] dedup(t)[a] < #[trigger] dedup(t)[b],
        forall|x: u16| dedup(t).contains(x) <==> t.contains(x),
    decreases t.len(),
{
    if t.len() > 1 {
        let u = t.drop_last();
        assert(sorted(u));
        lemma_dedup_sorted(u);
        let d = dedup(u);
        lemma_dedup_last(u);
        assert forall|x: u16| u.contains(x) || x == t.last() <==> t.contains(x) by {
            if t.contains(x) {
                let k = choose|k: int| 0 <= k < t.len() && t[k] == x;
                if k < t.len() - 1 {
                    assert(u[k] == x);
                }
            }
            if u.contains(x) {
                let k = choose|k: int| 0 <= k < u.len() && u[k] == x;
                assert(t[k] == x);
            }
            if x == t.last() {
                assert(t[t.len() - 1] == x);
            }
        }
        if t.last() == t[t.len() - 2] {
            assert(u[u.len() - 1] == t.last());
        } else {
            let e = d.push(t.last());
            assert(t[t.len() - 2] <= t.last());
            assert forall|a: int, b: int| 0 <= a < b < e.len() implies #[trigger] e[a] < #[trigger] e[b] by {
                if b == e.len() - 1 {
                    if a < d.len() - 1 {
                        assert(d[a] < d[d.len() - 1]);
                    }
                } else {
                    assert(d[a] < d[b]);
                }
            }
            assert forall|x: u16| e.contains(x) <==> d.contains(x) || x == t.last() by {
                if e.contains(x) {
                    let k = choose|k: int| 0 <= k < e.len() && e[k] == x;
                    if k < d.len() {
                        assert(d[k] == x);
                    }
                }
                if d.contains(x) {
                    let k = choose|k: int| 0 <= k < d.len() && d[k] == x;
                    assert(e[k] == x);
                }
                if x == t.last() {
                    assert(e[d.len() as int] == x);
                }
            }
        }
    }
}

/// On sorted words, what `list_items_distinct` leaves is the distinct words other than zero, in
/// strictly ascending order.
pub proof fn lemma_distinct_sorted(s: Seq<u16>)
    requires
        sorted(s),
    ensures
        forall|a: int, b: int| 0 <= a < b < distinct(s).len() ==> #[trigger] distinct(s)[a] < #[trigger] distinct(s)[b],
        forall|i: int| 0 <= i < distinct(s).len() ==> #[trigger] distinct(s)[i] != 0,
        forall|x: u16| distinct(s).contains(x) <==> (s.contains(x) && x != 0),
{
    lemma_drop_zeros_sorted(s);
    lemma_dedup_sorted(drop_zeros(s));
    let d = distinct(s);
    let z = drop_zeros(s);
    assert forall|i: int| 0 <= i < d.len() implies #[trigger] d[i] != 0 by {
        assert(dedup(z).contains(d[i]));
        assert(z.contains(d[i]));
        let k = choose|k: int| 0 <= k < z.len() && z[k] == d[i];
        assert(z[k] != 0);
    }
}

/// Sorts the words in ascending order.
pub fn sort_words(v: &mut Vec<u16>)
    ensures
        sorted(final(v)@),
        final(v)@.to_multiset() == old(v)@.to_multiset(),
        final(v)@.len() == old(v)@.len(),
{
    let n = v.len();
    let mut i: usize = 1;
    if n == 0 {
        return ;
    }
    while i < n
        invariant
            1 <= i <= n,
            n == v@.len(),
            sorted(v@.subrange(0, i as int)),
            v@.to_multiset() == old(v)@.to_multiset(),
        decreases n - i,
    {
        let mut j: usize = i;
        while j > 0 && v[j - 1] > v[j]
            invariant
                0 <= j <= i < n,
                n == v@.len(),
                sorted(v@.subrange(0, j as int)),
                sorted(v@.subrange(j as int, i + 1)),
                forall|a: int, b: int| 0 <= a < j && j < b <= i ==> v@[a] <= v@[b],
                v@.to_multiset() == old(v)@.to_multiset(),
            decreases j,
        {
            let x = v[j - 1];
            let y = v[j];
            let ghost before = v@;
            v.set(j - 1, y);
            v.set(j, x);
            proof {
                vstd::seq_lib::to_multiset_update(before, j - 1, y);
                vstd::seq_lib::to_multiset_update(before.update(j - 1, y), j as int, x);
                assert(v@.to_multiset() =~= before.to_multiset());
                let jj = (j - 1) as int;
                assert forall|a: int, b: int| 0 <= a < b < jj implies #[trigger] v@.subrange(0, jj)[a]
                    <= #[trigger] v@.subrange(0, jj)[b] by {
                    assert(before.subrange(0, j as int)[a] <= before.subrange(0, j as int)[b]);
                }
                assert forall|a: int, b: int| 0 <= a < b < i + 1 - jj implies #[trigger] v@.subrange(jj, i + 1)[a]
                    <= #[trigger] v@.subrange(jj, i + 1)[b] by {
                    let pa = a + jj;
                    let pb = b + jj;
                    if pa == jj {
                        // y, the least of the old upper run
                        if pb == j {
                        } else {
                            assert(before.subrange(j as int, i + 1)[0] <= before.subrange(j as int, i + 1)[pb - j]);
                        }
                    } else {
                        if pa == j {
                            assert(before[jj] <= before[pb]);
                        } else {
                            assert(before.subrange(j as int, i + 1)[pa - j] <= before.subrange(j as int, i + 1)[pb - j]);
                        }
                    }
                }
                assert forall|a: int, b: int| 0 <= a < jj && jj < b <= i implies v@[a] <= v@[b] by {
                    if b == j {
                        assert(before.subrange(0, j as int)[a] <= before.subrange(0, j as int)[jj]);
                    } else {
                        assert(before[a] <= before[b]);
                    }
                }
            }
            j = j - 1;
        }
        proof {
            assert forall|a: int, b: int| 0 <= a < b < i + 1 implies #[trigger] v@.subrange(0, i + 1)[a] <= #[trigger] v@.subrange(0, i + 1)[b] by {
                assert(v@.subrange(0, i + 1)[a] == v@[a]);
                assert(v@.subrange(0, i + 1)[b] == v@[b]);
                if b < j {
                    assert(v@.subrange(0, j as int)[a] <= v@.subrange(0, j as int)[b]);
                } else if a >= j {
                    assert(v@.subrange(j as int, i + 1)[a - j] <= v@.subrange(j as int, i + 1)[b - j]);
                } else if j < b {
                } else {
                    // b == j and a < j: v[a] <= v[j - 1] <= v[j]
                    if j > 0 {
                        if a < j - 1 {
                            assert(v@.subrange(0, j as int)[a] <= v@.subrange(0, j as int)[j - 1]);
                        }
                    }
                }
            }
        }
        i = i + 1;
    }
    proof {
        assert(v@.subrange(0, n as int) =~= v@);
    }
}

/// Drops leading zeros and collapses runs of equal adjacent words.
pub fn distinct_words(v: &Vec<u16>) -> (r: Vec<u16>)
    ensures
        r@ == distinct(v@),
{
    let n = v.len();
    let mut out: Vec<u16> = Vec::new();
    let mut first: usize = 0;
    while first < n && v[first] == 0
        invariant
            first <= n == v@.len(),
            forall|k: int| 0 <= k < first ==> v@[k] == 0,
        decreases n - first,
    {
        first = first + 1;
    }
    proof {
        lemma_drop_zeros(v@, first as int);
    }
    if first == n {
        proof {
            assert(drop_zeros(v@) =~= Seq::<u16>::empty());
        }
        return out;
    }
    let ghost nz = v@.subrange(first as int, n as int);
    let mut prev = v[first];
    out.push(prev);
    let mut read = first + 1;
    proof {
        assert(nz.subrange(0, 1) =~= seq![prev]);
    }
    while read < n
        invariant
            first < read <= n == v@.len(),
            nz == v@.subrange(first as int, n as int),
            out@ == dedup(nz.subrange(0, read - first)),
            prev == v@[read - 1],
        decreases n - read,
    {
        let current = v[read];
        let ghost k = read - first;
        proof {
            let t = nz.subrange(0, k + 1);
            assert(t.drop_last() =~= nz.subrange(0, k));
            assert(t.last() == current);
            assert(t[t.len() - 2] == prev);
        }
        if current != prev {
            out.push(current);
            prev = current;
        }
        read = read + 1;
    }
    proof {
        assert(nz.subrange(0, n - first) =~= nz);
    }
    out
}

} // verus!
