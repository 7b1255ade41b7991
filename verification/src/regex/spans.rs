use vstd::prelude::*;

use super::bits::{area_start, area_step, edge_first, edge_step, span_end, Bits};

verus! {

/// Whether byte value `i` lies in one of the first `m` runs.
pub open spec fn in_runs(runs: Seq<(u8, u8)>, m: int, i: int) -> bool
    decreases m,
{
    if m <= 0 {
        false
    } else {
        in_runs(runs, m - 1, i) || (runs[m - 1].0 <= i <= runs[m - 1].1)
    }
}

proof fn lemma_in_runs(runs: Seq<(u8, u8)>, m: int, i: int)
    requires
        0 <= m <= runs.len(),
    ensures
        in_runs(runs, m, i) <==> exists|k: int| 0 <= k < m && (#[trigger] runs[k]).0 <= i <= runs[k].1,
    decreases m,
{
    if m > 0 {
        lemma_in_runs(runs, m - 1, i);
        if runs[m - 1].0 <= i <= runs[m - 1].1 {
            assert(0 <= m - 1 < m && runs[m - 1].0 <= i <= runs[m - 1].1);
        }
        if exists|k: int| 0 <= k < m && (#[trigger] runs[k]).0 <= i <= runs[k].1 {
            let k = choose|k: int| 0 <= k < m && (#[trigger] runs[k]).0 <= i <= runs[k].1;
            if k < m - 1 {
                assert(0 <= k < m - 1 && runs[k].0 <= i <= runs[k].1);
            }
        }
    }
}

/// A whole area iteration: from state 0, `runs` are what the calls gave before the first `None`,
/// and `states` the states after them. The runs are exactly the maximal runs of members from byte
/// value 1 up, in ascending order and apart from each other; value 0 is never reported.
pub proof fn lemma_area_runs(bits: Bits, neg: bool, runs: Seq<(u8, u8)>, states: Seq<int>, last: int)
    requires
        states.len() == runs.len() + 1,
        states[0] == 0,
        forall|k: int| 0 <= k < runs.len() ==> area_step(bits, neg, #[trigger] states[k], Some(runs[k]), states[k + 1]),
        area_step(bits, neg, states[runs.len() as int], None, last),
    ensures
        forall|k: int| 0 <= k < runs.len() ==> 1 <= (#[trigger] runs[k]).0 <= runs[k].1 <= 255,
        forall|k: int| 0 <= k < runs.len() ==> (#[trigger] runs[k]).0 == 1 || !bits.member(neg, runs[k].0 - 1),
        forall|k: int| 0 <= k < runs.len() ==> (#[trigger] runs[k]).1 == 255 || !bits.member(neg, runs[k].1 + 1),
        forall|k: int| 0 <= k < runs.len() - 1 ==> (#[trigger] runs[k]).1 + 1 < runs[k + 1].0,
        forall|i: int|
            1 <= i <= 255 ==> (bits.member(neg, i) <==> exists|k: int| 0 <= k < runs.len() && (#[trigger] runs[k]).0 <= i <= runs[k].1),
{
    let n = runs.len() as int;
    assert forall|k: int| 0 <= k < n implies area_start(states[k + 1]) == runs[k].1 + 1 || (runs[k].1 == 255 && states[k
        + 1] == 256) by {
        assert(area_step(bits, neg, states[k], Some(runs[k]), states[k + 1]));
    }
    assert forall|k: int| 0 <= k < n implies area_start(states[k]) == if k == 0 {
        1
    } else {
        runs[k - 1].1 + 1
    } by {
        if k > 0 {
            assert(area_step(bits, neg, states[k - 1], Some(runs[k - 1]), states[k]));
            assert(area_step(bits, neg, states[k], Some(runs[k]), states[k + 1]));
        }
    }
    assert forall|k: int| 0 <= k < n implies 1 <= (#[trigger] runs[k]).0 <= runs[k].1 <= 255 && (runs[k].0 == 1
        || !bits.member(neg, runs[k].0 - 1)) && (runs[k].1 == 255 || !bits.member(neg, runs[k].1 + 1)) by {
        assert(area_step(bits, neg, states[k], Some(runs[k]), states[k + 1]));
        if runs[k].0 > area_start(states[k]) {
            assert(!bits.member(neg, runs[k].0 - 1));
        } else if k > 0 {
            assert(area_step(bits, neg, states[k - 1], Some(runs[k - 1]), states[k]));
        }
    }
    assert forall|k: int| 0 <= k < n - 1 implies (#[trigger] runs[k]).1 + 1 < runs[k + 1].0 by {
        assert(area_step(bits, neg, states[k], Some(runs[k]), states[k + 1]));
        assert(area_step(bits, neg, states[k + 1], Some(runs[k + 1]), states[k + 2]));
    }
    lemma_area_prefix(bits, neg, runs, states, n);
    assert forall|i: int| 1 <= i <= 255 implies (bits.member(neg, i) <==> exists|k: int|
        0 <= k < runs.len() && (#[trigger] runs[k]).0 <= i <= runs[k].1) by {
        lemma_in_runs(runs, n, i);
    }
}

/// After `m` calls of a whole area iteration, below the state the members are just the values of
/// the runs given, and no run reaches the state.
proof fn lemma_area_prefix(bits: Bits, neg: bool, runs: Seq<(u8, u8)>, states: Seq<int>, m: int)
    requires
        states.len() == runs.len() + 1,
        states[0] == 0,
        forall|k: int| 0 <= k < runs.len() ==> area_step(bits, neg, #[trigger] states[k], Some(runs[k]), states[k + 1]),
        0 <= m <= runs.len(),
    ensures
        forall|i: int| 1 <= i < area_start(states[m]) ==> (bits.member(neg, i) <==> in_runs(runs, m, i)),
        forall|i: int| area_start(states[m]) <= i ==> !in_runs(runs, m, i),
    decreases m,
{
    if m > 0 {
        let k = m - 1;
        lemma_area_prefix(bits, neg, runs, states, k);
        assert(area_step(bits, neg, states[k], Some(runs[k]), states[k + 1]));
        let (a, b) = runs[k];
        assert(area_start(states[m]) == b + 1);
        assert forall|i: int| 1 <= i < area_start(states[m]) implies (bits.member(neg, i) <==> in_runs(
            runs,
            m,
            i,
        )) by {
            assert(in_runs(runs, m, i) == (in_runs(runs, k, i) || (a <= i <= b)));
            if i < area_start(states[k]) {
            } else if i < a {
                assert(!bits.member(neg, i));
                assert(!in_runs(runs, k, i));
            } else {
                assert(bits.member(neg, i));
            }
        }
        assert forall|i: int| area_start(states[m]) <= i implies !in_runs(runs, m, i) by {
            assert(in_runs(runs, m, i) == (in_runs(runs, k, i) || (a <= i <= b)));
            assert(!in_runs(runs, k, i));
        }
    }
}

/// A whole edge iteration: from the state that `edge` gives, `spans` are what the calls gave
/// before the first `None`, and `states` the states after them; no call starts at 255, which is
/// the one case that `edge` leaves there (255 the only value in the set). With at most one value
/// from 1 up in the set there is no span; otherwise the spans run from each value to just before
/// the next, the last one to just before the greatest value, or up to 255 where that is 255.
#[verifier::rlimit(40)]
pub proof fn lemma_edge_spans(bits: Bits, spans: Seq<(u8, u8)>, states: Seq<int>, last: int)
    requires
        states.len() == spans.len() + 1,
        edge_first(bits, states[0]),
        forall|k: int| 0 <= k < spans.len() ==> edge_step(bits, #[trigger] states[k], Some(spans[k]), states[k + 1]),
        edge_step(bits, states[spans.len() as int], None, last),
        forall|k: int| 0 <= k < states.len() ==> #[trigger] states[k] != 255,
    ensures
        spans.len() == 0 ==> forall|i: int, j: int| 1 <= i <= 255 && 1 <= j <= 255 && bits.has(i) && bits.has(j) ==> i == j,
        forall|k: int| 0 <= k < spans.len() ==> 1 <= (#[trigger] spans[k]).0 <= spans[k].1 <= 255,
        forall|k: int| 0 <= k < spans.len() - 1 ==> (#[trigger] spans[k]).1 + 1 == spans[k + 1].0,
        spans.len() > 0 ==> forall|i: int|
            1 <= i <= 255 ==> (bits.has(i) <==> (exists|k: int| 0 <= k < spans.len() && (#[trigger] spans[k]).0 == i) || i
                == span_end(spans[spans.len() - 1].1 as int)),
{
    let n = spans.len() as int;
    lemma_edge_prefix(bits, spans, states, n);
    let sn = states[n];
    if n > 0 {
        let e = span_end(spans[n - 1].1 as int);
        assert(sn == e || (sn == 256 && e == 255));
        assert forall|i: int| 1 <= i <= 255 implies (bits.has(i) <==> (exists|k: int|
            0 <= k < spans.len() && (#[trigger] spans[k]).0 == i) || i == e) by {
            if exists|k: int| 0 <= k < spans.len() && (#[trigger] spans[k]).0 == i {
                let k = choose|k: int| 0 <= k < spans.len() && (#[trigger] spans[k]).0 == i;
                assert(spans[k].0 < edge_bound(sn));
            }
            if i < edge_bound(sn) {
                assert(i != e);
            } else if i == e {
                if sn == 256 {
                    assert(bits.has(255));
                } else {
                    assert(bits.has(sn));
                }
            } else {
                assert(sn <= 255 && i > sn);
                assert(!bits.has(i));
            }
        }
    }
    if n == 0 {
        assert forall|i: int, j: int| 1 <= i <= 255 && 1 <= j <= 255 && bits.has(i) && bits.has(j) implies i == j by {
            if sn <= 255 {
                if i > sn {
                    assert(!bits.has(i));
                }
                if j > sn {
                    assert(!bits.has(j));
                }
            }
        }
    }
}

/// The values below which an edge iteration in state `s` has reported every value as a start.
pub open spec fn edge_bound(s: int) -> int {
    if s <= 255 {
        s
    } else {
        255
    }
}

/// After `m` calls of a whole edge iteration: the state is a value of the set (or past 255, with
/// 255 in the set after a call), the spans so far run from value to value, and below the state
/// the values are the starts of the spans.
#[verifier::rlimit(40)]
proof fn lemma_edge_prefix(bits: Bits, spans: Seq<(u8, u8)>, states: Seq<int>, m: int)
    requires
        states.len() == spans.len() + 1,
        edge_first(bits, states[0]),
        forall|k: int| 0 <= k < spans.len() ==> edge_step(bits, #[trigger] states[k], Some(spans[k]), states[k + 1]),
        forall|k: int| 0 <= k < states.len() ==> #[trigger] states[k] != 255,
        0 <= m <= spans.len(),
    ensures
        1 <= states[m] <= 256,
        states[m] <= 255 ==> bits.has(states[m]),
        m == 0 && states[m] == 256 ==> forall|i: int| 1 <= i <= 255 ==> !bits.has(i),
        m > 0 ==> states[m] == span_end(spans[m - 1].1 as int) || (states[m] == 256 && spans[m - 1].1 == 255),
        m > 0 && states[m] == 256 ==> bits.has(255),
        forall|k: int| 0 <= k < m ==> 1 <= (#[trigger] spans[k]).0 <= spans[k].1 <= 255,
        forall|k: int| 0 <= k < m ==> (#[trigger] spans[k]).0 < edge_bound(states[m]),
        forall|k: int| 0 <= k < m - 1 ==> (#[trigger] spans[k]).1 + 1 == spans[k + 1].0,
        forall|i: int|
            1 <= i < edge_bound(states[m]) ==> (bits.has(i) <==> exists|k: int| 0 <= k < m && (#[trigger] spans[k]).0 == i),
    decreases m,
{
    if m > 0 {
        lemma_edge_prefix(bits, spans, states, m - 1);
        let k = m - 1;
        assert(edge_step(bits, states[k], Some(spans[k]), states[k + 1]));
        let s = states[k];
        assert(s <= 255);
        let (a, b) = spans[k];
        assert forall|i: int| 1 <= i < edge_bound(states[m]) implies (bits.has(i) <==> exists|j: int|
            0 <= j < m && (#[trigger] spans[j]).0 == i) by {
            if i < s {
                if bits.has(i) {
                    let j = choose|j: int| 0 <= j < k && (#[trigger] spans[j]).0 == i;
                    assert(0 <= j < m && spans[j].0 == i);
                } else if exists|j: int| 0 <= j < m && (#[trigger] spans[j]).0 == i {
                    let j = choose|j: int| 0 <= j < m && (#[trigger] spans[j]).0 == i;
                    assert(j != k);
                    assert(0 <= j < k && spans[j].0 == i);
                }
            } else if i == s {
                assert(spans[k].0 == i);
            } else {
                assert(!bits.has(i));
                if exists|j: int| 0 <= j < m && (#[trigger] spans[j]).0 == i {
                    let j = choose|j: int| 0 <= j < m && (#[trigger] spans[j]).0 == i;
                    if j < k {
                        assert(spans[j].0 < edge_bound(s));
                    }
                }
            }
        }
        if k > 0 {
            assert(s == span_end(spans[k - 1].1 as int) || (s == 256 && spans[k - 1].1 == 255));
        }
    }
}

} // verus!
