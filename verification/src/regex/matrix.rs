use vstd::prelude::*;

use super::heap::{AllocatorSize, GuardSegfault, Heap};
use super::pages::{has_room, took_first_run, Naive64Pages};

verus! {

/// The transition table of a deterministic automaton: one row of 256 entries per state, the row
/// of a state numbered by the state. Entry 1 is the threshold: an entry above it marks an
/// accepting step, whose accepted value stands in row 0 and whose next state stands in row 1, at
/// the column the entry exceeds the threshold by.
pub struct Matrix {
    table: Vec<u16>,
}

/// Whether state `s` has its row in the table.
pub open spec fn has_row(t: Seq<u16>, s: int) -> bool {
    s * 256 + 256 <= t.len()
}

/// Whether entry `v` leads somewhere the table holds: nowhere (zero), to a state with a row, or,
/// above the threshold, to an accepting column whose next state is nowhere or has a row.
pub open spec fn leads(t: Seq<u16>, v: u16) -> bool {
    ||| v == 0
    ||| v <= t[1] && has_row(t, v as int)
    ||| v > t[1] && v - t[1] + 256 < t.len() && (t[v - t[1] + 256] == 0 || has_row(
        t,
        t[v - t[1] + 256] as int,
    ))
}

/// A table that the walk cannot leave: the start state 2 has a row, and every entry from row 1
/// on leads somewhere the table holds.
pub open spec fn well_formed(t: Seq<u16>) -> bool {
    &&& has_row(t, 2)
    &&& forall|j: int| 256 <= j < t.len() ==> #[trigger] leads(t, t[j])
}

/// One step from `state` on byte `b`: the next state, and the accepted value with the length read
/// where the step accepts.
pub open spec fn step(t: Seq<u16>, state: u16, b: u8, i: int, best: (u16, usize)) -> (u16, (u16, usize)) {
    let next = t[state * 256 + b];
    if next > t[1] {
        let off = next - t[1];
        (t[off + 256], (t[off], (i + 1) as usize))
    } else {
        (next, best)
    }
}

/// The walk over `d` from position `i` in `state`, with the best acceptance so far: it stops at
/// the zero byte or where no state follows, and gives the last acceptance.
pub open spec fn walk(t: Seq<u16>, d: Seq<u8>, i: int, state: u16, best: (u16, usize)) -> (u16, usize)
    decreases d.len() - i,
{
    if i < 0 || i >= d.len() || d[i] == 0 {
        best
    } else {
        let (next, accepted) = step(t, state, d[i], i, best);
        if next == 0 {
            accepted
        } else {
            walk(t, d, i + 1, next, accepted)
        }
    }
}

impl Matrix {
    /// The table, entry by entry.
    pub closed spec fn table(&self) -> Seq<u16> {
        self.table@
    }

    /// The matrix over `table`.
    pub fn at(table: Vec<u16>) -> (r: Self)
        ensures
            r.table() == table@,
    {
        Matrix { table }
    }

    /// Reads the zero-terminated `data` through the automaton from state 2: the value of the last
    /// accepting step and the number of bytes read up to it, or `(0, 0)` where none accepts.
    pub fn traverse(&self, data: &[u8]) -> (r: (u16, usize))
        requires
            well_formed(self.table()),
            exists|k: int| 0 <= k < data@.len() && data@[k] == 0,
        ensures
            r == walk(self.table(), data@, 0, 2, (0, 0)),
    {
        let t = &self.table;
        let mut state: u16 = 2;
        let mut best: (u16, usize) = (0, 0);
        let threshold = t[1];
        let mut i: usize = 0;

        while i < data.len() && data[i] > 0
            invariant
                t@ == self.table(),
                well_formed(t@),
                threshold == t@[1],
                i <= data.len(),
                state != 0,
                has_row(t@, state as int),
                walk(t@, data@, i as int, state, best) == walk(t@, data@, 0, 2, (0, 0)),
            decreases data.len() - i,
        {
            let ghost before = best;
            let column = state as usize * 256 + data[i] as usize;
            let next = t[column];
            assert(leads(t@, t@[column as int]));
            let mut following = next;
            if next > threshold {
                let off = (next - threshold) as usize;
                best = (t[off], i + 1);
                following = t[off + 256];
            }
            assert(step(t@, state, data@[i as int], i as int, before) == (following, best));
            if following == 0 {
                return best;
            }
            state = following;
            i = i + 1;
        }
        best
    }
}


/// How many of the first `k` transitions accept a value.
pub open spec fn accepts_before(ts: Seq<(u16, (u8, u8), u16, u16)>, k: int) -> int
    decreases k,
{
    if k <= 0 {
        0
    } else {
        accepts_before(ts, k - 1) + if ts[k - 1].3 != 0 {
            1int
        } else {
            0int
        }
    }
}

/// The highest source state: that of the last transition.
pub open spec fn high_state(ts: Seq<(u16, (u8, u8), u16, u16)>) -> int {
    ts.last().0 as int
}

/// Where a transition's entry for byte `c` stands: in the row after its source's number.
pub open spec fn cell_of(t: (u16, (u8, u8), u16, u16), c: int) -> int {
    (t.0 + 1) * 256 + c
}

/// Whether a transition is taken on byte `c`.
pub open spec fn covers(t: (u16, (u8, u8), u16, u16), c: int) -> bool {
    t.1.0 <= c <= t.1.1
}

/// The entry of transition `k`: the row of its target, or, where it accepts a value, its
/// accepting column above the threshold.
pub open spec fn row_value(ts: Seq<(u16, (u8, u8), u16, u16)>, k: int) -> int {
    if ts[k].3 == 0 {
        ts[k].2 + 1
    } else {
        2 + accepts_before(ts, k) + high_state(ts) + 1
    }
}

/// Whether the transitions of an automaton fit a table of `cap` words: there are some, sorted so
/// that the last has the highest source; sources are from 1, targets within the sources; the
/// byte ranges of one source do not overlap; the rows and the accepting columns fit.
pub open spec fn tabulable(ts: Seq<(u16, (u8, u8), u16, u16)>, cap: int) -> bool {
    &&& ts.len() > 0
    &&& (high_state(ts) + 2) * 256 <= cap
    &&& 2 + accepts_before(ts, ts.len() as int) <= 256
    &&& 2 + accepts_before(ts, ts.len() as int) + high_state(ts) + 1 <= u16::MAX
    &&& forall|k: int|
        0 <= k < ts.len() ==> 1 <= (#[trigger] ts[k]).0 <= high_state(ts) && ts[k].1.0 <= ts[k].1.1 && ts[k].2
            <= high_state(ts)
    &&& forall|j: int, k: int|
        0 <= j < k < ts.len() && (#[trigger] ts[j]).0 == (#[trigger] ts[k]).0 ==> ts[j].1.1 < ts[k].1.0 || ts[k].1.1
            < ts[j].1.0
}

/// Whether word `i` of the table is one that the first `n` transitions, or the two header words,
/// give a meaning.
pub open spec fn written(ts: Seq<(u16, (u8, u8), u16, u16)>, n: int, i: int) -> bool {
    ||| exists|k: int, c: int| 0 <= k < n && #[trigger] covers(ts[k], c) && i == cell_of(ts[k], c)
    ||| exists|k: int|
        0 <= k < n && (#[trigger] ts[k]).3 != 0 && (i == 2 + accepts_before(ts, k) || i == 258 + accepts_before(
            ts,
            k,
        ))
}

/// What the table holds after the first `n` transitions: each transition's entries; for each that
/// accepts, its value in row 0 and its target's row in row 1, at its accepting column; zero
/// everywhere else.
pub open spec fn filled(ts: Seq<(u16, (u8, u8), u16, u16)>, n: int, t: Seq<u16>) -> bool {
    &&& forall|k: int, c: int|
        0 <= k < n && #[trigger] covers(ts[k], c) ==> t[cell_of(ts[k], c)] == row_value(ts, k)
    &&& forall|k: int|
        0 <= k < n && (#[trigger] ts[k]).3 != 0 ==> t[2 + accepts_before(ts, k)] == ts[k].3 && t[258
            + accepts_before(ts, k)] == if ts[k].2 == 0 {
            0
        } else {
            ts[k].2 + 1
        }
    &&& forall|i: int| 0 <= i < t.len() && !written(ts, n, i) ==> t[i] == 0
}

/// The table of the transitions: the number of rows in word 0, the threshold in word 1, and what
/// all transitions fill in.
pub open spec fn table_of(ts: Seq<(u16, (u8, u8), u16, u16)>, t: Seq<u16>) -> bool {
    &&& t[0] == high_state(ts) + 2
    &&& t[1] == high_state(ts) + 1
    &&& filled_but_header(ts, t)
}

/// What all transitions fill in, leaving the two header words aside.
pub open spec fn filled_but_header(ts: Seq<(u16, (u8, u8), u16, u16)>, t: Seq<u16>) -> bool {
    &&& forall|k: int, c: int|
        0 <= k < ts.len() && #[trigger] covers(ts[k], c) ==> t[cell_of(ts[k], c)] == row_value(ts, k)
    &&& forall|k: int|
        0 <= k < ts.len() && (#[trigger] ts[k]).3 != 0 ==> t[2 + accepts_before(ts, k)] == ts[k].3 && t[258
            + accepts_before(ts, k)] == if ts[k].2 == 0 {
            0
        } else {
            ts[k].2 + 1
        }
    &&& forall|i: int| 2 <= i < t.len() && !written(ts, ts.len() as int, i) ==> t[i] == 0
}


/// Counting the accepting transitions grows with the count, and strictly past an accepting one.
proof fn lemma_accepts_mono(ts: Seq<(u16, (u8, u8), u16, u16)>, j: int, k: int)
    requires
        0 <= j <= k,
    ensures
        0 <= accepts_before(ts, j) <= accepts_before(ts, k),
        accepts_before(ts, k) - accepts_before(ts, j) <= k - j,
        j < k && ts[j].3 != 0 ==> accepts_before(ts, j) < accepts_before(ts, k),
    decreases k - j,
{
    if j < k {
        lemma_accepts_mono(ts, j, k - 1);
        if j == k - 1 {
        } else {
            lemma_accepts_mono(ts, j, k - 1);
        }
    } else {
        lemma_accepts_nonneg(ts, j);
    }
}

proof fn lemma_accepts_nonneg(ts: Seq<(u16, (u8, u8), u16, u16)>, k: int)
    ensures
        0 <= accepts_before(ts, k),
        k >= 0 ==> accepts_before(ts, k) <= k,
    decreases k,
{
    if k > 0 {
        lemma_accepts_nonneg(ts, k - 1);
    }
}

/// Filling in transition `k` after the ones before it: its entries over its byte range, and where
/// it accepts, its value and its target at its accepting column.
proof fn lemma_fill_step(
    ts: Seq<(u16, (u8, u8), u16, u16)>,
    k: int,
    before: Seq<u16>,
    rows: Seq<u16>,
    after: Seq<u16>,
)
    requires
        tabulable(ts, before.len() as int),
        0 <= k < ts.len(),
        filled(ts, k, before),
        rows.len() == before.len(),
        forall|i: int|
            0 <= i < rows.len() ==> #[trigger] rows[i] == if cell_of(ts[k], ts[k].1.0 as int) <= i < cell_of(
                ts[k],
                ts[k].1.1 as int,
            ) + 1 {
                row_value(ts, k) as u16
            } else {
                before[i]
            },
        after == if ts[k].3 == 0 {
            rows
        } else if ts[k].2 == 0 {
            rows.update(2 + accepts_before(ts, k), ts[k].3)
        } else {
            rows.update(2 + accepts_before(ts, k), ts[k].3).update(258 + accepts_before(ts, k), (ts[k].2 + 1) as u16)
        },
    ensures
        filled(ts, k + 1, after),
{
    lemma_fill_rows(ts, k, before, rows, after);
    lemma_fill_accepts(ts, k, before, rows, after);
    lemma_fill_zeros(ts, k, before, rows, after);
}

/// The entries of the transitions up to `k` hold after filling in `k`.
#[verifier::spinoff_prover]
#[verifier::rlimit(40)]
proof fn lemma_fill_rows(
    ts: Seq<(u16, (u8, u8), u16, u16)>,
    k: int,
    before: Seq<u16>,
    rows: Seq<u16>,
    after: Seq<u16>,
)
    requires
        tabulable(ts, before.len() as int),
        0 <= k < ts.len(),
        forall|j: int, c: int|
            0 <= j < k && #[trigger] covers(ts[j], c) ==> before[cell_of(ts[j], c)] == row_value(ts, j),
        rows.len() == before.len(),
        forall|i: int|
            0 <= i < rows.len() ==> #[trigger] rows[i] == if cell_of(ts[k], ts[k].1.0 as int) <= i < cell_of(
                ts[k],
                ts[k].1.1 as int,
            ) + 1 {
                row_value(ts, k) as u16
            } else {
                before[i]
            },
        after == if ts[k].3 == 0 {
            rows
        } else if ts[k].2 == 0 {
            rows.update(2 + accepts_before(ts, k), ts[k].3)
        } else {
            rows.update(2 + accepts_before(ts, k), ts[k].3).update(258 + accepts_before(ts, k), (ts[k].2 + 1) as u16)
        },
    ensures
        forall|j: int, c: int|
            0 <= j < k + 1 && #[trigger] covers(ts[j], c) ==> after[cell_of(ts[j], c)] == row_value(ts, j),
{
    let n = ts.len() as int;
    let high = high_state(ts);
    let t = ts[k];
    let acc = accepts_before(ts, k);
    lemma_accepts_mono(ts, k, n);
    lemma_accepts_mono(ts, k + 1, n);
    assert(1 <= t.0 <= high);
    assert(t.3 != 0 ==> acc <= 253) by {
        if t.3 != 0 {
            assert(accepts_before(ts, k + 1) == acc + 1);
            lemma_accepts_mono(ts, k + 1, n);
        }
    }
    assert forall|i: int| 512 <= i < before.len() implies #[trigger] after[i] == rows[i] by {}
    assert forall|j: int, c: int| 0 <= j < k + 1 && #[trigger] covers(ts[j], c) implies after[cell_of(ts[j], c)]
        == row_value(ts, j) by {
        let cell = cell_of(ts[j], c);
        assert(1 <= ts[j].0 <= high);
        assert(512 <= cell < before.len());
        assert(after[cell] == rows[cell]);
        if j < k {
            if ts[j].0 == t.0 {
                assert(ts[j].1.1 < t.1.0 || t.1.1 < ts[j].1.0);
            }
            assert(!(cell_of(t, t.1.0 as int) <= cell < cell_of(t, t.1.1 as int) + 1));
            assert(rows[cell] == before[cell]);
        } else {
            assert(cell_of(t, t.1.0 as int) <= cell < cell_of(t, t.1.1 as int) + 1);
        }
    }
}

/// The accepting columns of the transitions up to `k` hold after filling in `k`.
#[verifier::spinoff_prover]
proof fn lemma_fill_accepts(
    ts: Seq<(u16, (u8, u8), u16, u16)>,
    k: int,
    before: Seq<u16>,
    rows: Seq<u16>,
    after: Seq<u16>,
)
    requires
        tabulable(ts, before.len() as int),
        0 <= k < ts.len(),
        filled(ts, k, before),
        rows.len() == before.len(),
        forall|i: int|
            0 <= i < rows.len() ==> #[trigger] rows[i] == if cell_of(ts[k], ts[k].1.0 as int) <= i < cell_of(
                ts[k],
                ts[k].1.1 as int,
            ) + 1 {
                row_value(ts, k) as u16
            } else {
                before[i]
            },
        after == if ts[k].3 == 0 {
            rows
        } else if ts[k].2 == 0 {
            rows.update(2 + accepts_before(ts, k), ts[k].3)
        } else {
            rows.update(2 + accepts_before(ts, k), ts[k].3).update(258 + accepts_before(ts, k), (ts[k].2 + 1) as u16)
        },
    ensures
        forall|j: int|
            0 <= j < k + 1 && (#[trigger] ts[j]).3 != 0 ==> after[2 + accepts_before(ts, j)] == ts[j].3 && after[258
                + accepts_before(ts, j)] == if ts[j].2 == 0 {
                0
            } else {
                ts[j].2 + 1
            },
{
    let n = ts.len() as int;
    let t = ts[k];
    let acc = accepts_before(ts, k);
    lemma_accepts_mono(ts, k, n);
    lemma_accepts_mono(ts, k + 1, n);
    assert(1 <= t.0);
    assert forall|j: int| 0 <= j < k + 1 && (#[trigger] ts[j]).3 != 0 implies after[2 + accepts_before(ts, j)]
        == ts[j].3 && after[258 + accepts_before(ts, j)] == if ts[j].2 == 0 {
        0
    } else {
        ts[j].2 + 1
    } by {
        lemma_accepts_mono(ts, j, k);
        lemma_accepts_mono(ts, j + 1, n);
        if j == k && t.2 == 0 {
            assert(!written(ts, k, 258 + acc)) by {
                assert forall|m: int, c: int| 0 <= m < k && #[trigger] covers(ts[m], c) implies 258 + acc != cell_of(
                    ts[m],
                    c,
                ) by {
                    assert(1 <= ts[m].0);
                }
                assert forall|m: int| 0 <= m < k && (#[trigger] ts[m]).3 != 0 implies 258 + acc != 2
                    + accepts_before(ts, m) && 258 + acc != 258 + accepts_before(ts, m) by {
                    lemma_accepts_mono(ts, m, k);
                }
            }
        }
    }
}

/// Words that no transition up to `k` gives a meaning stay zero after filling in `k`.
#[verifier::spinoff_prover]
proof fn lemma_fill_zeros(
    ts: Seq<(u16, (u8, u8), u16, u16)>,
    k: int,
    before: Seq<u16>,
    rows: Seq<u16>,
    after: Seq<u16>,
)
    requires
        tabulable(ts, before.len() as int),
        0 <= k < ts.len(),
        filled(ts, k, before),
        rows.len() == before.len(),
        forall|i: int|
            0 <= i < rows.len() ==> #[trigger] rows[i] == if cell_of(ts[k], ts[k].1.0 as int) <= i < cell_of(
                ts[k],
                ts[k].1.1 as int,
            ) + 1 {
                row_value(ts, k) as u16
            } else {
                before[i]
            },
        after == if ts[k].3 == 0 {
            rows
        } else if ts[k].2 == 0 {
            rows.update(2 + accepts_before(ts, k), ts[k].3)
        } else {
            rows.update(2 + accepts_before(ts, k), ts[k].3).update(258 + accepts_before(ts, k), (ts[k].2 + 1) as u16)
        },
    ensures
        forall|i: int| 0 <= i < after.len() && !written(ts, k + 1, i) ==> after[i] == 0,
{
    let n = ts.len() as int;
    let t = ts[k];
    let acc = accepts_before(ts, k);
    lemma_accepts_mono(ts, k, n);
    assert forall|i: int| 0 <= i < after.len() && !written(ts, k + 1, i) implies after[i] == 0 by {
        assert(!written(ts, k, i)) by {
            assert forall|m: int, c: int| 0 <= m < k && #[trigger] covers(ts[m], c) implies i != cell_of(ts[m], c) by {
                assert(covers(ts[m], c));
            }
            assert forall|m: int| 0 <= m < k && (#[trigger] ts[m]).3 != 0 implies i != 2 + accepts_before(ts, m) && i
                != 258 + accepts_before(ts, m) by {
                assert(ts[m].3 != 0);
            }
        }
        assert(before[i] == 0);
        assert(!(cell_of(t, t.1.0 as int) <= i < cell_of(t, t.1.1 as int) + 1)) by {
            if cell_of(t, t.1.0 as int) <= i < cell_of(t, t.1.1 as int) + 1 {
                let c = i - (t.0 + 1) * 256;
                assert(covers(ts[k], c) && i == cell_of(ts[k], c));
            }
        }
        assert(rows[i] == before[i]);
        if t.3 != 0 {
            assert(ts[k].3 != 0);
            assert(i != 2 + acc && i != 258 + acc);
        }
        assert(after[i] == rows[i]);
    }
}

/// With every transition filled in, writing the number of rows and the threshold gives the table.
proof fn lemma_fill_done(ts: Seq<(u16, (u8, u8), u16, u16)>, filled_in: Seq<u16>, t: Seq<u16>)
    requires
        tabulable(ts, filled_in.len() as int),
        filled(ts, ts.len() as int, filled_in),
        t == filled_in.update(0, (high_state(ts) + 2) as u16).update(1, (high_state(ts) + 1) as u16),
    ensures
        table_of(ts, t),
{
    let n = ts.len() as int;
    lemma_accepts_mono(ts, n, n);
    assert forall|k: int, c: int| 0 <= k < n && #[trigger] covers(ts[k], c) implies t[cell_of(ts[k], c)]
        == row_value(ts, k) by {
        assert(1 <= ts[k].0);
    }
    assert forall|k: int| 0 <= k < n && (#[trigger] ts[k]).3 != 0 implies t[2 + accepts_before(ts, k)] == ts[k].3
        && t[258 + accepts_before(ts, k)] == if ts[k].2 == 0 {
        0
    } else {
        ts[k].2 + 1
    } by {
        lemma_accepts_mono(ts, k, n);
    }
}

/// The table of transitions that fit is one the walk cannot leave.
pub proof fn lemma_table_walkable(ts: Seq<(u16, (u8, u8), u16, u16)>, t: Seq<u16>)
    requires
        tabulable(ts, t.len() as int),
        table_of(ts, t),
    ensures
        well_formed(t),
{
    let n = ts.len() as int;
    let high = high_state(ts);
    lemma_accepts_mono(ts, n, n);
    assert(1 <= ts[n - 1].0);
    assert forall|j: int| 256 <= j < t.len() implies #[trigger] leads(t, t[j]) by {
        if exists|k: int, c: int| 0 <= k < n && #[trigger] covers(ts[k], c) && j == cell_of(ts[k], c) {
            let (k, c) = choose|k: int, c: int| 0 <= k < n && #[trigger] covers(ts[k], c) && j == cell_of(ts[k], c);
            assert(ts[k].2 <= high);
            lemma_accepts_mono(ts, k, n);
            if ts[k].3 != 0 {
                assert(accepts_before(ts, k + 1) == accepts_before(ts, k) + 1);
                lemma_accepts_mono(ts, k + 1, n);
                let off = 2 + accepts_before(ts, k);
                assert(t[j] - t[1] == off);
                assert(t[off + 256] == if ts[k].2 == 0 {
                    0
                } else {
                    ts[k].2 + 1
                });
            }
        } else if exists|k: int|
            0 <= k < n && (#[trigger] ts[k]).3 != 0 && (j == 2 + accepts_before(ts, k) || j == 258 + accepts_before(
                ts,
                k,
            )) {
            let k = choose|k: int|
                0 <= k < n && (#[trigger] ts[k]).3 != 0 && (j == 2 + accepts_before(ts, k) || j == 258
                    + accepts_before(ts, k));
            lemma_accepts_mono(ts, k, n);
            assert(ts[k].2 <= high);
        } else {
            assert(!written(ts, n, j));
        }
    }
}

impl Matrix {
    /// The table of an automaton's transitions, in a fresh block of the allocator; `None` only
    /// when the allocator has no room for it.
    pub fn build<SIZE: AllocatorSize>(
        allocator: &mut Naive64Pages,
        transitions: &Vec<(u16, (u8, u8), u16, u16)>,
    ) -> (r: Option<Heap<u16, SIZE, GuardSegfault>>)
        requires
            tabulable(transitions@, (SIZE::spec_measure() / 2) as int),
        ensures
            r is Some <==> has_room(old(allocator).spec_bitmap(), (SIZE::spec_measure() / 4096) as int),
            r is Some ==> took_first_run(
                old(allocator).spec_bitmap(),
                final(allocator).spec_bitmap(),
                (SIZE::spec_measure() / 4096) as int,
            ),
            r is None ==> final(allocator).spec_bitmap() == old(allocator).spec_bitmap(),
            r matches Some(h) ==> h.wf() && h.cap() == SIZE::spec_measure() / 2 && table_of(transitions@, h@),
    {
        let mut heap: Heap<u16, SIZE, GuardSegfault> = match Heap::allocate(allocator) {
            None => return None,
            Some(heap) => heap,
        };
        let ghost ts = transitions@;
        let ghost cap = heap.cap();
        let size = transitions.len();
        let high = transitions[size - 1].0;
        let threshold: u16 = high + 1;
        let mut counter: u16 = 2;
        proof {
            lemma_accepts_nonneg(ts, ts.len() as int);
            heap.lemma_slots_small();
        }

        let limit: usize = high as usize * 256 + 512;
        let mut off: usize = 0;
        while off < limit
            invariant
                heap.wf(),
                heap.cap() == cap,
                !heap.is_wrapping(),
                limit <= cap,
                off <= limit,
                heap@ == Seq::new(cap, |i: int| 0u16),
            decreases limit - off,
        {
            heap.set0(0, off);
            off = off + 1;
        }
        proof {
            assert forall|i: int| 0 <= i < heap@.len() && !written(ts, 0, i) implies heap@[i] == 0 by {}
        }

        let mut k: usize = 0;
        while k < size
            invariant
                ts == transitions@,
                size == ts.len(),
                tabulable(ts, cap as int),
                high == high_state(ts),
                threshold == high + 1,
                heap.wf(),
                heap.cap() == cap,
                !heap.is_wrapping(),
                k <= size,
                counter == 2 + accepts_before(ts, k as int),
                filled(ts, k as int, heap@),
            decreases size - k,
        {
            let (src, via, dst, meta) = transitions[k];
            let ghost before = heap@;
            proof {
                lemma_accepts_mono(ts, k as int, ts.len() as int);
                lemma_accepts_nonneg(ts, k as int);
                assert(1 <= ts[k as int].0 <= high && via.0 <= via.1 && dst <= high);
            }
            let value: u16 = if meta == 0 {
                dst + 1
            } else {
                counter + threshold
            };
            let lo: u16 = via.0 as u16;
            let hi: u16 = via.1 as u16;
            let mut c: u16 = lo;
            while c <= hi
                invariant
                    heap.wf(),
                    heap.cap() == cap,
                    !heap.is_wrapping(),
                    lo <= c <= hi + 1,
                    lo == ts[k as int].1.0,
                    hi == ts[k as int].1.1,
                    (src as int + 2) * 256 <= cap,
                    forall|i: int|
                        0 <= i < heap@.len() ==> #[trigger] heap@[i] == if (src + 1) * 256 + lo <= i < (src + 1)
                            * 256 + c {
                            value
                        } else {
                            before[i]
                        },
                    heap@.len() == before.len(),
                decreases hi + 1 - c,
            {
                heap.set0(value, src as usize * 256 + c as usize + 256);
                c = c + 1;
            }
            let ghost rows = heap@;
            proof {
                assert(value == row_value(ts, k as int));
                assert(src == ts[k as int].0 && via == ts[k as int].1 && dst == ts[k as int].2 && meta == ts[k as int].3);
            }
            if meta != 0 {
                heap.set0(meta, counter as usize);
                if dst != 0 {
                    heap.set0(dst + 1, counter as usize + 256);
                }
                counter = counter + 1;
            }
            proof {
                lemma_fill_step(ts, k as int, before, rows, heap@);
            }
            k = k + 1;
        }

        let ghost filled_in = heap@;
        heap.set0(high + 2, 0);
        heap.set0(threshold, 1);
        proof {
            lemma_fill_done(ts, filled_in, heap@);
        }
        Some(heap)
    }
}

} // verus!
