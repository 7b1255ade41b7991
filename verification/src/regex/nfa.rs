use vstd::prelude::*;

use super::array::{Array, StackLike};
use super::graph::{decode, encode, lemma_decode_encode, lemma_with_meta, numbered, ranges_wf, sorted_by_key, with_meta, Graph};
use super::heap::{B4096, B8192, GuardSegfault};
use super::layout::{
    laid_out, lemma_below_first, lemma_below_push, lists_below, lemma_item_write, lemma_last_append, lemma_last_resize, lemma_list_off_mono, lemma_lists_push,
    lemma_lists_update, lemma_push_list, list_off, lists_end, zero_from,
};
use super::list::Collection;
use super::pages::{has_room, Naive64Pages};
use super::rpn::RPN;

verus! {

/// The state of the construction: the number of states handed out, the transitions, the epsilon
/// lists, the fragments on the stack (each its first state and the index of its last list), and
/// the stack of what decides which transitions accept.
pub struct Construction {
    pub counter: nat,
    pub trans: Seq<u64>,
    pub lists: Seq<Seq<u16>>,
    pub frags: Seq<(u16, nat)>,
    pub accepting: Seq<u16>,
}

/// Before the first token: state 0 goes through list 0 (one item, filled in at the end) and
/// state 1, the end state, through the empty list 1.
pub open spec fn construction_start() -> Construction {
    Construction {
        counter: 2,
        trans: seq![encode(0, (0, 0), 0, 0), encode(1, (0, 0), 5, 0)],
        lists: seq![seq![0u16], Seq::<u16>::empty()],
        frags: Seq::empty(),
        accepting: Seq::empty(),
    }
}

/// The lists with the first item of list `k` replaced.
pub open spec fn set_first(lists: Seq<Seq<u16>>, k: int, item: u16) -> Seq<Seq<u16>> {
    lists.update(k, lists[k].update(0, item))
}

/// Whether the literal token at `pos`, its digit and all the bytes it announces are in the
/// expression.
pub open spec fn literal_ok(s: Seq<u8>, pos: int) -> bool {
    &&& 0 <= pos
    &&& pos + 2 <= s.len()
    &&& s[pos + 1] >= 48
    &&& pos + 2 + (s[pos + 1] - 48) <= s.len()
}

/// The first `n` transitions through a literal of `c` bytes: state `first + j` goes on byte
/// `s[start + j]` to the next; all but the last of the `c` are marked as inside the literal.
pub open spec fn chain(s: Seq<u8>, start: int, first: int, c: int, n: int) -> Seq<u64> {
    Seq::new(
        n as nat,
        |j: int|
            encode(
                (first + j) as u16,
                (s[start + j], s[start + j]),
                (first + j + 1) as u16,
                if j + 1 < c {
                    0x0200u16
                } else {
                    0u16
                },
            ),
    )
}

/// A literal: a fresh state goes through a new list to a chain over the bytes, whose last state
/// goes through another new list (one item, filled in later); the last transition of the chain
/// waits on the accepting stack.
pub open spec fn with_literal(s: Seq<u8>, pos: int, m: Construction) -> Construction {
    let c = s[pos + 1] - 48;
    let zero = m.counter as int;
    let first = zero + 1;
    let lists1 = m.lists.push(seq![first as u16]);
    Construction {
        counter: (m.counter + c + 2) as nat,
        trans: (m.trans.push(encode(zero as u16, (0, 0), lists_end(m.lists) as u16, 0x0200)) + chain(
            s,
            pos + 2,
            first,
            c,
            c,
        )).push(encode((first + c) as u16, (0, 0), lists_end(lists1) as u16, 0)),
        lists: lists1.push(seq![0u16]),
        frags: m.frags.push((zero as u16, (m.lists.len() + 1) as nat)),
        accepting: if c > 0 {
            m.accepting.push((m.trans.len() + c) as u16).push(0)
        } else {
            m.accepting
        },
    }
}

/// A byte range: a fresh state goes through a new list to a state that goes on any byte of the
/// range to a last state, which goes through another new list; the range's transition waits on
/// the accepting stack.
pub open spec fn with_class(s: Seq<u8>, pos: int, m: Construction) -> Construction {
    let zero = m.counter as int;
    let lists1 = m.lists.push(seq![(zero + 1) as u16]);
    Construction {
        counter: m.counter + 3,
        trans: m.trans.push(encode(zero as u16, (0, 0), lists_end(m.lists) as u16, 0x0200)).push(
            encode((zero + 1) as u16, (s[pos + 1], s[pos + 2]), (zero + 2) as u16, 0),
        ).push(encode((zero + 2) as u16, (0, 0), lists_end(lists1) as u16, 0)),
        lists: lists1.push(seq![0u16]),
        frags: m.frags.push((zero as u16, (m.lists.len() + 1) as nat)),
        accepting: m.accepting.push((m.trans.len() + 1) as u16).push(0),
    }
}

/// Either of the two top fragments: a fresh start state leads to both, both lead to a fresh end
/// state.
pub open spec fn with_alternation(m: Construction) -> Construction {
    let f = m.frags.len() as int;
    let right = m.frags[f - 1];
    let left = m.frags[f - 2];
    let start = m.counter as int;
    let lists1 = set_first(
        set_first(m.lists.push(seq![left.0, right.0]), left.1 as int, (start + 1) as u16),
        right.1 as int,
        (start + 1) as u16,
    );
    Construction {
        counter: m.counter + 2,
        trans: m.trans.push(encode(start as u16, (0, 0), lists_end(m.lists) as u16, 0)).push(
            encode((start + 1) as u16, (0, 0), lists_end(lists1) as u16, 0),
        ),
        lists: lists1.push(seq![0u16]),
        frags: m.frags.subrange(0, f - 2).push((start as u16, (m.lists.len() + 1) as nat)),
        accepting: m.accepting.push(124),
    }
}

/// The two top fragments one after the other: a start state leads to the left one, which leads
/// to a continue state, which leads to the right one, which leads to an end state.
pub open spec fn with_concatenation(m: Construction) -> Construction {
    let f = m.frags.len() as int;
    let right = m.frags[f - 1];
    let left = m.frags[f - 2];
    let start = m.counter as int;
    let lists0 = m.lists.push(seq![left.0]);
    let lists1 = set_first(
        set_first(lists0.push(seq![right.0]), left.1 as int, (start + 1) as u16),
        right.1 as int,
        (start + 2) as u16,
    );
    Construction {
        counter: m.counter + 3,
        trans: m.trans.push(encode(start as u16, (0, 0), lists_end(m.lists) as u16, 0)).push(
            encode((start + 1) as u16, (0, 0), lists_end(lists0) as u16, 0),
        ).push(encode((start + 2) as u16, (0, 0), lists_end(lists1) as u16, 0)),
        lists: lists1.push(seq![0u16]),
        frags: m.frags.subrange(0, f - 2).push((start as u16, (m.lists.len() + 2) as nat)),
        accepting: if m.accepting.last() == 63 {
            m.accepting.drop_last().push(124)
        } else {
            m.accepting.push(38)
        },
    }
}

/// The top fragment once or more: a start state leads to it, it leads to a repeat state, which
/// leads back to the start and on to an end state.
pub open spec fn with_repetition(m: Construction) -> Construction {
    let f = m.frags.len() as int;
    let one = m.frags[f - 1];
    let start = m.counter as int;
    let lists0 = m.lists.push(seq![one.0]);
    let lists1 = set_first(lists0.push(seq![start as u16, (start + 2) as u16]), one.1 as int, (start + 1) as u16);
    Construction {
        counter: m.counter + 3,
        trans: m.trans.push(encode(start as u16, (0, 0), lists_end(m.lists) as u16, 0)).push(
            encode((start + 1) as u16, (0, 0), lists_end(lists0) as u16, 0),
        ).push(encode((start + 2) as u16, (0, 0), lists_end(lists1) as u16, 0)),
        lists: lists1.push(seq![0u16]),
        frags: m.frags.subrange(0, f - 1).push((start as u16, (m.lists.len() + 2) as nat)),
        accepting: m.accepting,
    }
}

/// The top fragment or nothing: a start state leads to it and to an end state, and it leads to
/// the end state.
pub open spec fn with_optionality(m: Construction) -> Construction {
    let f = m.frags.len() as int;
    let one = m.frags[f - 1];
    let start = m.counter as int;
    let lists1 = set_first(m.lists.push(seq![one.0, (start + 1) as u16]), one.1 as int, (start + 1) as u16);
    Construction {
        counter: m.counter + 2,
        trans: m.trans.push(encode(start as u16, (0, 0), lists_end(m.lists) as u16, 0)).push(
            encode((start + 1) as u16, (0, 0), lists_end(lists1) as u16, 0),
        ),
        lists: lists1.push(seq![0u16]),
        frags: m.frags.subrange(0, f - 1).push((start as u16, (m.lists.len() + 1) as nat)),
        accepting: m.accepting.push(63),
    }
}

/// An accepting marker: its byte and `#` go on the accepting stack.
pub open spec fn with_acceptance(s: Seq<u8>, pos: int, m: Construction) -> Construction {
    Construction { accepting: m.accepting.push(s[pos + 1] as u16).push(35), ..m }
}

/// The construction from `pos` on, one token at a time; `None` where a token runs past the end,
/// finds too few fragments, or a concatenation finds the accepting stack empty. Other bytes are
/// skipped.
pub open spec fn run(s: Seq<u8>, pos: int, m: Construction) -> Option<Construction>
    decreases s.len() - pos,
{
    if !(0 <= pos < s.len()) {
        Some(m)
    } else if s[pos] == 108 {
        if literal_ok(s, pos) {
            run(s, pos + 2 + (s[pos + 1] - 48), with_literal(s, pos, m))
        } else {
            None
        }
    } else if s[pos] == 45 {
        if pos + 3 <= s.len() {
            run(s, pos + 3, with_class(s, pos, m))
        } else {
            None
        }
    } else if s[pos] == 35 {
        if pos + 2 <= s.len() {
            run(s, pos + 2, with_acceptance(s, pos, m))
        } else {
            None
        }
    } else if s[pos] == 124 {
        if m.frags.len() >= 2 {
            run(s, pos + 1, with_alternation(m))
        } else {
            None
        }
    } else if s[pos] == 38 {
        if m.frags.len() >= 2 && m.accepting.len() > 0 {
            run(s, pos + 1, with_concatenation(m))
        } else {
            None
        }
    } else if s[pos] == 43 {
        if m.frags.len() >= 1 {
            run(s, pos + 1, with_repetition(m))
        } else {
            None
        }
    } else if s[pos] == 63 {
        if m.frags.len() >= 1 {
            run(s, pos + 1, with_optionality(m))
        } else {
            None
        }
    } else {
        run(s, pos + 1, m)
    }
}

/// Works the accepting stack off from its top, with a second stack of accepting values that
/// starts as `[1]`: `|` copies the top value, `&` puts 0 under it, `#` replaces it with the
/// marker's byte, `?` does nothing, and a transition index takes the top value as its metadata
/// when that is not 0. `None` where a stack runs empty or an index lies past the transitions'
/// heap.
pub open spec fn propagate(front: Seq<u16>, back: Seq<u16>, trans: Seq<u64>) -> Option<Seq<u64>>
    decreases front.len(),
{
    if front.len() == 0 {
        Some(trans)
    } else {
        let x = front.last();
        let rest = front.drop_last();
        if x as u8 == 124 {
            if back.len() == 0 {
                None
            } else {
                propagate(rest, back.drop_last().push(back.last()).push(back.last()), trans)
            }
        } else if x as u8 == 38 {
            if back.len() == 0 {
                None
            } else {
                propagate(rest, back.drop_last().push(0).push(back.last()), trans)
            }
        } else if x as u8 == 35 {
            if rest.len() == 0 || back.len() == 0 {
                None
            } else {
                propagate(rest.drop_last(), back.drop_last().push(rest.last()), trans)
            }
        } else if x as u8 == 63 {
            propagate(rest, back, trans)
        } else {
            if rest.len() == 0 || back.len() == 0 {
                None
            } else {
                let idx = rest.last();
                let val = back.last();
                if val == 0 {
                    propagate(rest.drop_last(), back.drop_last(), trans)
                } else if idx >= 1024 {
                    None
                } else if idx < trans.len() {
                    propagate(rest.drop_last(), back.drop_last(), trans.update(idx as int, with_meta(trans[idx as int], val)))
                } else {
                    propagate(rest.drop_last(), back.drop_last(), trans)
                }
            }
        }
    }
}

/// The state after the last token.
pub open spec fn final_construction(s: Seq<u8>) -> Construction {
    run(s, 0, construction_start())->Some_0
}

/// Whether the expression can be built: every token is complete and finds what it needs, one
/// fragment is left at the end, everything fits in its heap, and the accepting values can be
/// worked off.
pub open spec fn buildable(s: Seq<u8>) -> bool {
    &&& s.len() < u16::MAX
    &&& run(s, 0, construction_start()) is Some
    &&& final_construction(s).frags.len() >= 1
    &&& final_construction(s).trans.len() <= 1024
    &&& lists_end(final_construction(s).lists) <= 4096
    &&& final_construction(s).accepting.len() < 2047
    &&& propagate(final_construction(s).accepting, seq![1u16], final_construction(s).trans) is Some
}

/// The transitions of the automaton built from `s`.
pub open spec fn built_transitions(s: Seq<u8>) -> Seq<u64> {
    propagate(final_construction(s).accepting, seq![1u16], final_construction(s).trans)->Some_0
}

/// The epsilon lists of the automaton built from `s`: the start list leads to the first state of
/// the last fragment, whose last list leads to the end state.
pub open spec fn built_lists(s: Seq<u8>) -> Seq<Seq<u16>> {
    let m = final_construction(s);
    let last = m.frags[m.frags.len() - 1];
    set_first(set_first(m.lists, 0, last.0), last.1 as int, 1)
}


/// What every state of the construction keeps: one state per transition, the lists of the start
/// and end states, two lists for each fragment, and for each fragment a last list of one item.
pub open spec fn construction_ok(m: Construction) -> bool {
    &&& m.counter == m.trans.len()
    &&& m.lists.len() >= 2
    &&& m.lists[0].len() == 1
    &&& 2 * m.frags.len() + 2 <= m.lists.len()
    &&& forall|i: int|
        0 <= i < m.frags.len() ==> 2 <= (#[trigger] m.frags[i]).1 < m.lists.len() && m.lists[m.frags[i].1 as int].len()
            == 1
}

/// How much a step adds: transitions, lists and words.
pub open spec fn grows(m: Construction, m2: Construction, t: int, l: int, w: int) -> bool {
    &&& m2.trans.len() == m.trans.len() + t
    &&& m2.lists.len() == m.lists.len() + l
    &&& lists_end(m2.lists) == lists_end(m.lists) + w
    &&& m.accepting.len() <= m2.accepting.len()
}

proof fn lemma_with_literal(s: Seq<u8>, pos: int, m: Construction)
    requires
        construction_ok(m),
        literal_ok(s, pos),
    ensures
        construction_ok(with_literal(s, pos, m)),
        grows(m, with_literal(s, pos, m), s[pos + 1] - 48 + 2, 2, 10),
{
    let c = s[pos + 1] - 48;
    let m2 = with_literal(s, pos, m);
    let lists1 = m.lists.push(seq![(m.counter + 1) as u16]);
    lemma_lists_push(m.lists, seq![(m.counter + 1) as u16]);
    lemma_lists_push(lists1, seq![0u16]);
    assert(chain(s, pos + 2, m.counter + 1int, c, c).len() == c);
    assert forall|i: int| 0 <= i < m2.frags.len() implies 2 <= (#[trigger] m2.frags[i]).1 < m2.lists.len()
        && m2.lists[m2.frags[i].1 as int].len() == 1 by {
        if i < m.frags.len() {
            assert(m2.frags[i] == m.frags[i]);
        }
    }
}

proof fn lemma_with_class(s: Seq<u8>, pos: int, m: Construction)
    requires
        construction_ok(m),
    ensures
        construction_ok(with_class(s, pos, m)),
        grows(m, with_class(s, pos, m), 3, 2, 10),
{
    let m2 = with_class(s, pos, m);
    let lists1 = m.lists.push(seq![(m.counter + 1) as u16]);
    lemma_lists_push(m.lists, seq![(m.counter + 1) as u16]);
    lemma_lists_push(lists1, seq![0u16]);
    assert forall|i: int| 0 <= i < m2.frags.len() implies 2 <= (#[trigger] m2.frags[i]).1 < m2.lists.len()
        && m2.lists[m2.frags[i].1 as int].len() == 1 by {
        if i < m.frags.len() {
            assert(m2.frags[i] == m.frags[i]);
        }
    }
}

proof fn lemma_with_alternation(m: Construction)
    requires
        construction_ok(m),
        m.frags.len() >= 2,
    ensures
        construction_ok(with_alternation(m)),
        grows(m, with_alternation(m), 2, 2, 11),
{
    let f = m.frags.len() as int;
    let right = m.frags[f - 1];
    let left = m.frags[f - 2];
    let end = (m.counter + 1) as u16;
    let l0 = m.lists.push(seq![left.0, right.0]);
    let l1 = set_first(l0, left.1 as int, end);
    let l2 = set_first(l1, right.1 as int, end);
    let m2 = with_alternation(m);
    lemma_lists_push(m.lists, seq![left.0, right.0]);
    lemma_lists_update(l0, left.1 as int, l0[left.1 as int].update(0, end));
    lemma_lists_update(l1, right.1 as int, l1[right.1 as int].update(0, end));
    lemma_lists_push(l2, seq![0u16]);
    assert forall|i: int| 0 <= i < m2.frags.len() implies 2 <= (#[trigger] m2.frags[i]).1 < m2.lists.len()
        && m2.lists[m2.frags[i].1 as int].len() == 1 by {
        if i < f - 2 {
            assert(m2.frags[i] == m.frags[i]);
        }
    }
}

proof fn lemma_with_concatenation(m: Construction)
    requires
        construction_ok(m),
        m.frags.len() >= 2,
    ensures
        construction_ok(with_concatenation(m)),
        grows(m, with_concatenation(m), 3, 3, 15),
{
    let f = m.frags.len() as int;
    let right = m.frags[f - 1];
    let left = m.frags[f - 2];
    let l0 = m.lists.push(seq![left.0]);
    let l1 = l0.push(seq![right.0]);
    let l2 = set_first(l1, left.1 as int, (m.counter + 1) as u16);
    let l3 = set_first(l2, right.1 as int, (m.counter + 2) as u16);
    let m2 = with_concatenation(m);
    lemma_lists_push(m.lists, seq![left.0]);
    lemma_lists_push(l0, seq![right.0]);
    lemma_lists_update(l1, left.1 as int, l1[left.1 as int].update(0, (m.counter + 1) as u16));
    lemma_lists_update(l2, right.1 as int, l2[right.1 as int].update(0, (m.counter + 2) as u16));
    lemma_lists_push(l3, seq![0u16]);
    assert forall|i: int| 0 <= i < m2.frags.len() implies 2 <= (#[trigger] m2.frags[i]).1 < m2.lists.len()
        && m2.lists[m2.frags[i].1 as int].len() == 1 by {
        if i < f - 2 {
            assert(m2.frags[i] == m.frags[i]);
        }
    }
}

proof fn lemma_with_repetition(m: Construction)
    requires
        construction_ok(m),
        m.frags.len() >= 1,
    ensures
        construction_ok(with_repetition(m)),
        grows(m, with_repetition(m), 3, 3, 16),
{
    let f = m.frags.len() as int;
    let one = m.frags[f - 1];
    let start = m.counter as int;
    let l0 = m.lists.push(seq![one.0]);
    let l1 = l0.push(seq![start as u16, (start + 2) as u16]);
    let l2 = set_first(l1, one.1 as int, (start + 1) as u16);
    let m2 = with_repetition(m);
    lemma_lists_push(m.lists, seq![one.0]);
    lemma_lists_push(l0, seq![start as u16, (start + 2) as u16]);
    lemma_lists_update(l1, one.1 as int, l1[one.1 as int].update(0, (start + 1) as u16));
    lemma_lists_push(l2, seq![0u16]);
    assert forall|i: int| 0 <= i < m2.frags.len() implies 2 <= (#[trigger] m2.frags[i]).1 < m2.lists.len()
        && m2.lists[m2.frags[i].1 as int].len() == 1 by {
        if i < f - 1 {
            assert(m2.frags[i] == m.frags[i]);
        }
    }
}

proof fn lemma_with_optionality(m: Construction)
    requires
        construction_ok(m),
        m.frags.len() >= 1,
    ensures
        construction_ok(with_optionality(m)),
        grows(m, with_optionality(m), 2, 2, 11),
{
    let f = m.frags.len() as int;
    let one = m.frags[f - 1];
    let start = m.counter as int;
    let l0 = m.lists.push(seq![one.0, (start + 1) as u16]);
    let l1 = set_first(l0, one.1 as int, (start + 1) as u16);
    let m2 = with_optionality(m);
    lemma_lists_push(m.lists, seq![one.0, (start + 1) as u16]);
    lemma_lists_update(l0, one.1 as int, l0[one.1 as int].update(0, (start + 1) as u16));
    lemma_lists_push(l1, seq![0u16]);
    assert forall|i: int| 0 <= i < m2.frags.len() implies 2 <= (#[trigger] m2.frags[i]).1 < m2.lists.len()
        && m2.lists[m2.frags[i].1 as int].len() == 1 by {
        if i < f - 1 {
            assert(m2.frags[i] == m.frags[i]);
        }
    }
}

/// The construction only adds transitions, words and accepting entries, and keeps what every
/// state keeps.
proof fn lemma_run_grows(s: Seq<u8>, pos: int, m: Construction)
    requires
        construction_ok(m),
        run(s, pos, m) is Some,
    ensures
        construction_ok(run(s, pos, m)->Some_0),
        m.trans.len() <= run(s, pos, m)->Some_0.trans.len(),
        lists_end(m.lists) <= lists_end(run(s, pos, m)->Some_0.lists),
        m.accepting.len() <= run(s, pos, m)->Some_0.accepting.len(),
    decreases s.len() - pos,
{
    if !(0 <= pos < s.len()) {
    } else if s[pos] == 108 {
        lemma_with_literal(s, pos, m);
        lemma_run_grows(s, pos + 2 + (s[pos + 1] - 48), with_literal(s, pos, m));
    } else if s[pos] == 45 {
        lemma_with_class(s, pos, m);
        lemma_run_grows(s, pos + 3, with_class(s, pos, m));
    } else if s[pos] == 35 {
        lemma_run_grows(s, pos + 2, with_acceptance(s, pos, m));
    } else if s[pos] == 124 {
        lemma_with_alternation(m);
        lemma_run_grows(s, pos + 1, with_alternation(m));
    } else if s[pos] == 38 {
        lemma_with_concatenation(m);
        lemma_run_grows(s, pos + 1, with_concatenation(m));
    } else if s[pos] == 43 {
        lemma_with_repetition(m);
        lemma_run_grows(s, pos + 1, with_repetition(m));
    } else if s[pos] == 63 {
        lemma_with_optionality(m);
        lemma_run_grows(s, pos + 1, with_optionality(m));
    } else {
        lemma_run_grows(s, pos + 1, m);
    }
}


/// Whether the accepting stack reads, from its top down, as whole entries: a transition index
/// below `n` under a 0, a marker's byte under `#`, or one of `|`, `&` and `?`.
pub open spec fn accepting_ok(a: Seq<u16>, n: int) -> bool
    decreases a.len(),
{
    if a.len() == 0 {
        true
    } else if a.last() == 0 {
        a.len() >= 2 && a[a.len() - 2] < n && accepting_ok(a.subrange(0, a.len() - 2), n)
    } else if a.last() == 35 {
        a.len() >= 2 && accepting_ok(a.subrange(0, a.len() - 2), n)
    } else if a.last() == 124 || a.last() == 38 || a.last() == 63 {
        accepting_ok(a.drop_last(), n)
    } else {
        false
    }
}

/// What the construction keeps besides the shape: transition `i` leaves state `i`, every index on
/// the accepting stack is that of a transition, the lists and the fragments name only states
/// handed out, and the end state's list stays empty.
pub open spec fn kept(m: Construction) -> bool {
    &&& numbered(m.trans)
    &&& accepting_ok(m.accepting, m.trans.len() as int)
    &&& lists_below(m.lists, m.counter as int)
    &&& forall|i: int| 0 <= i < m.frags.len() ==> (#[trigger] m.frags[i]).0 < m.counter
}

/// An accepting stack that reads whole for `n` transitions does so for more.
proof fn lemma_accepting_more(a: Seq<u16>, n: int, n2: int)
    requires
        accepting_ok(a, n),
        n <= n2,
    ensures
        accepting_ok(a, n2),
    decreases a.len(),
{
    if a.len() >= 2 && (a.last() == 0 || a.last() == 35) {
        lemma_accepting_more(a.subrange(0, a.len() - 2), n, n2);
    } else if a.len() > 0 {
        lemma_accepting_more(a.drop_last(), n, n2);
    }
}

/// Pushing an entry of two words onto a stack that reads whole.
proof fn lemma_accepting_pair(a: Seq<u16>, x: u16, y: u16, n: int)
    requires
        accepting_ok(a, n),
        y == 0 ==> x < n,
        y == 0 || y == 35,
    ensures
        accepting_ok(a.push(x).push(y), n),
{
    let b = a.push(x).push(y);
    assert(b.subrange(0, b.len() - 2) =~= a);
}

/// Pushing `|`, `&` or `?` onto a stack that reads whole.
proof fn lemma_accepting_op(a: Seq<u16>, y: u16, n: int)
    requires
        accepting_ok(a, n),
        y == 124 || y == 38 || y == 63,
    ensures
        accepting_ok(a.push(y), n),
{
    assert(a.push(y).drop_last() =~= a);
}

/// Appending a transition that leaves the state of its index.
proof fn lemma_push_numbered(t: Seq<u64>, src: u16, via: (u8, u8), dst: u16, meta: u16)
    requires
        numbered(t),
        src == t.len(),
    ensures
        numbered(t.push(encode(src, via, dst, meta))),
{
    lemma_decode_encode(src, via, dst, meta);
    let t2 = t.push(encode(src, via, dst, meta));
    assert forall|i: int| 0 <= i < t2.len() implies decode(#[trigger] t2[i]).0 == i by {
        if i < t.len() {
            assert(t2[i] == t[i]);
        }
    }
}

/// Whether every byte range token that the construction reads from `pos` on starts no later
/// than it ends; the tokens are walked as the construction walks them.
pub open spec fn classes_ordered(s: Seq<u8>, pos: int) -> bool
    decreases s.len() - pos,
{
    if !(0 <= pos < s.len()) {
        true
    } else if s[pos] == 108 {
        literal_ok(s, pos) ==> classes_ordered(s, pos + 2 + (s[pos + 1] - 48))
    } else if s[pos] == 45 {
        pos + 3 <= s.len() ==> s[pos + 1] <= s[pos + 2] && classes_ordered(s, pos + 3)
    } else if s[pos] == 35 {
        pos + 2 <= s.len() ==> classes_ordered(s, pos + 2)
    } else {
        classes_ordered(s, pos + 1)
    }
}

/// Appending a transition with a well formed byte range.
proof fn lemma_push_ranges(t: Seq<u64>, src: u16, via: (u8, u8), dst: u16, meta: u16)
    requires
        ranges_wf(t),
        (via.0 <= via.1),
    ensures
        ranges_wf(t.push(encode(src, via, dst, meta))),
{
    lemma_decode_encode(src, via, dst, meta);
    let t2 = t.push(encode(src, via, dst, meta));
    assert forall|i: int| 0 <= i < t2.len() implies decode(#[trigger] t2[i]).1.0 <= decode(t2[i]).1.1 by {
        if i < t.len() {
            assert(t2[i] == t[i]);
        }
    }
}

/// Each step keeps the byte ranges well formed where its class tokens are ordered.
proof fn lemma_step_ranges(s: Seq<u8>, pos: int, m: Construction)
    requires
        construction_ok(m),
        ranges_wf(m.trans),
        0 <= pos < s.len(),
        run(s, pos, m) is Some,
        classes_ordered(s, pos),
    ensures
        s[pos] == 108 ==> ranges_wf(with_literal(s, pos, m).trans) && classes_ordered(s, pos + 2 + (s[pos + 1] - 48)),
        s[pos] == 45 ==> ranges_wf(with_class(s, pos, m).trans) && classes_ordered(s, pos + 3),
        s[pos] == 35 ==> ranges_wf(with_acceptance(s, pos, m).trans) && classes_ordered(s, pos + 2),
        s[pos] == 124 ==> ranges_wf(with_alternation(m).trans),
        s[pos] == 38 ==> ranges_wf(with_concatenation(m).trans),
        s[pos] == 43 ==> ranges_wf(with_repetition(m).trans),
        s[pos] == 63 ==> ranges_wf(with_optionality(m).trans),
        s[pos] != 108 && s[pos] != 45 && s[pos] != 35 ==> classes_ordered(s, pos + 1),
{
    let t = m.trans;
    let n = t.len() as int;
    if s[pos] == 108 {
        let m2 = with_literal(s, pos, m);
        let c = s[pos + 1] - 48;
        let first = n + 1;
        let lists1 = m.lists.push(seq![first as u16]);
        let x = encode(n as u16, (0, 0), lists_end(m.lists) as u16, 0x0200);
        let y = encode((first + c) as u16, (0, 0), lists_end(lists1) as u16, 0);
        let ch = chain(s, pos + 2, first, c, c);
        assert(m2.trans == (t.push(x) + ch).push(y));
        lemma_decode_encode(n as u16, (0, 0), lists_end(m.lists) as u16, 0x0200);
        lemma_decode_encode((first + c) as u16, (0, 0), lists_end(lists1) as u16, 0);
        assert forall|i: int| 0 <= i < m2.trans.len() implies decode(#[trigger] m2.trans[i]).1.0 <= decode(
            m2.trans[i],
        ).1.1 by {
            if i < n {
                assert(m2.trans[i] == t[i]);
            } else if i == n {
                assert(m2.trans[i] == x);
            } else if i < first + c {
                let j = i - first;
                assert(m2.trans[i] == ch[j]);
                lemma_decode_encode(
                    (first + j) as u16,
                    (s[pos + 2 + j], s[pos + 2 + j]),
                    (first + j + 1) as u16,
                    if j + 1 < c { 0x0200u16 } else { 0u16 },
                );
            } else {
                assert(m2.trans[i] == y);
            }
        }
    } else if s[pos] == 45 {
        let lists1 = m.lists.push(seq![(n + 1) as u16]);
        lemma_push_ranges(t, n as u16, (0, 0), lists_end(m.lists) as u16, 0x0200);
        let t1 = t.push(encode(n as u16, (0, 0), lists_end(m.lists) as u16, 0x0200));
        lemma_push_ranges(t1, (n + 1) as u16, (s[pos + 1], s[pos + 2]), (n + 2) as u16, 0);
        let t2 = t1.push(encode((n + 1) as u16, (s[pos + 1], s[pos + 2]), (n + 2) as u16, 0));
        lemma_push_ranges(t2, (n + 2) as u16, (0, 0), lists_end(lists1) as u16, 0);
    } else if s[pos] == 124 {
        let m2 = with_alternation(m);
        let f = m.frags.len() as int;
        let right = m.frags[f - 1];
        let left = m.frags[f - 2];
        let lists1 = set_first(
            set_first(m.lists.push(seq![left.0, right.0]), left.1 as int, (n + 1) as u16),
            right.1 as int,
            (n + 1) as u16,
        );
        lemma_push_ranges(t, n as u16, (0, 0), lists_end(m.lists) as u16, 0);
        let t1 = t.push(encode(n as u16, (0, 0), lists_end(m.lists) as u16, 0));
        lemma_push_ranges(t1, (n + 1) as u16, (0, 0), lists_end(lists1) as u16, 0);
    } else if s[pos] == 38 {
        let f = m.frags.len() as int;
        let right = m.frags[f - 1];
        let left = m.frags[f - 2];
        let lists0 = m.lists.push(seq![left.0]);
        let lists1 = set_first(
            set_first(lists0.push(seq![right.0]), left.1 as int, (n + 1) as u16),
            right.1 as int,
            (n + 2) as u16,
        );
        lemma_push_ranges(t, n as u16, (0, 0), lists_end(m.lists) as u16, 0);
        let t1 = t.push(encode(n as u16, (0, 0), lists_end(m.lists) as u16, 0));
        lemma_push_ranges(t1, (n + 1) as u16, (0, 0), lists_end(lists0) as u16, 0);
        let t2 = t1.push(encode((n + 1) as u16, (0, 0), lists_end(lists0) as u16, 0));
        lemma_push_ranges(t2, (n + 2) as u16, (0, 0), lists_end(lists1) as u16, 0);
    } else if s[pos] == 43 {
        let f = m.frags.len() as int;
        let one = m.frags[f - 1];
        let lists0 = m.lists.push(seq![one.0]);
        let lists1 = set_first(lists0.push(seq![n as u16, (n + 2) as u16]), one.1 as int, (n + 1) as u16);
        lemma_push_ranges(t, n as u16, (0, 0), lists_end(m.lists) as u16, 0);
        let t1 = t.push(encode(n as u16, (0, 0), lists_end(m.lists) as u16, 0));
        lemma_push_ranges(t1, (n + 1) as u16, (0, 0), lists_end(lists0) as u16, 0);
        let t2 = t1.push(encode((n + 1) as u16, (0, 0), lists_end(lists0) as u16, 0));
        lemma_push_ranges(t2, (n + 2) as u16, (0, 0), lists_end(lists1) as u16, 0);
    } else if s[pos] == 63 {
        let f = m.frags.len() as int;
        let one = m.frags[f - 1];
        let lists1 = set_first(m.lists.push(seq![one.0, (n + 1) as u16]), one.1 as int, (n + 1) as u16);
        lemma_push_ranges(t, n as u16, (0, 0), lists_end(m.lists) as u16, 0);
        let t1 = t.push(encode(n as u16, (0, 0), lists_end(m.lists) as u16, 0));
        lemma_push_ranges(t1, (n + 1) as u16, (0, 0), lists_end(lists1) as u16, 0);
    }
}

/// Each step keeps what `kept` says, while the transitions stay below 65536.
#[verifier::rlimit(60)]
proof fn lemma_step_kept(s: Seq<u8>, pos: int, m: Construction)
    requires
        construction_ok(m),
        kept(m),
        0 <= pos < s.len(),
        run(s, pos, m) is Some,
        run(s, pos, m)->Some_0.trans.len() < 65536,
    ensures
        s[pos] == 108 ==> kept(with_literal(s, pos, m)),
        s[pos] == 45 ==> kept(with_class(s, pos, m)),
        s[pos] == 35 ==> kept(with_acceptance(s, pos, m)),
        s[pos] == 124 ==> kept(with_alternation(m)),
        s[pos] == 38 ==> kept(with_concatenation(m)),
        s[pos] == 43 ==> kept(with_repetition(m)),
        s[pos] == 63 ==> kept(with_optionality(m)),
{
    let t = m.trans;
    let n = t.len() as int;
    let a = m.accepting;
    if s[pos] == 108 {
        let m2 = with_literal(s, pos, m);
        lemma_with_literal(s, pos, m);
        lemma_run_grows(s, pos + 2 + (s[pos + 1] - 48), m2);
        let c = s[pos + 1] - 48;
        let first = n + 1;
        let lists1 = m.lists.push(seq![first as u16]);
        let x = encode(n as u16, (0, 0), lists_end(m.lists) as u16, 0x0200);
        let y = encode((first + c) as u16, (0, 0), lists_end(lists1) as u16, 0);
        let ch = chain(s, pos + 2, first, c, c);
        assert(m2.trans == (t.push(x) + ch).push(y));
        lemma_decode_encode(n as u16, (0, 0), lists_end(m.lists) as u16, 0x0200);
        lemma_decode_encode((first + c) as u16, (0, 0), lists_end(lists1) as u16, 0);
        assert forall|i: int| 0 <= i < m2.trans.len() implies decode(#[trigger] m2.trans[i]).0 == i by {
            if i < n {
                assert(m2.trans[i] == t[i]);
            } else if i == n {
                assert(m2.trans[i] == x);
            } else if i < first + c {
                let j = i - first;
                assert(m2.trans[i] == ch[j]);
                lemma_decode_encode(
                    (first + j) as u16,
                    (s[pos + 2 + j], s[pos + 2 + j]),
                    (first + j + 1) as u16,
                    if j + 1 < c { 0x0200u16 } else { 0u16 },
                );
            } else {
                assert(m2.trans[i] == y);
            }
        }
        lemma_accepting_more(a, n, m2.trans.len() as int);
        if c > 0 {
            lemma_accepting_pair(a, (n + c) as u16, 0, m2.trans.len() as int);
        }
        lemma_below_push(m.lists, seq![first as u16], n, m2.counter as int);
        lemma_below_push(lists1, seq![0u16], m2.counter as int, m2.counter as int);
        assert forall|i: int| 0 <= i < m2.frags.len() implies (#[trigger] m2.frags[i]).0 < m2.counter by {
            if i < m.frags.len() {
                assert(m2.frags[i] == m.frags[i]);
            }
        }
    } else if s[pos] == 45 {
        let m2 = with_class(s, pos, m);
        lemma_with_class(s, pos, m);
        lemma_run_grows(s, pos + 3, m2);
        let lists1 = m.lists.push(seq![(n + 1) as u16]);
        lemma_push_numbered(t, n as u16, (0, 0), lists_end(m.lists) as u16, 0x0200);
        let t1 = t.push(encode(n as u16, (0, 0), lists_end(m.lists) as u16, 0x0200));
        lemma_push_numbered(t1, (n + 1) as u16, (s[pos + 1], s[pos + 2]), (n + 2) as u16, 0);
        let t2 = t1.push(encode((n + 1) as u16, (s[pos + 1], s[pos + 2]), (n + 2) as u16, 0));
        lemma_push_numbered(t2, (n + 2) as u16, (0, 0), lists_end(lists1) as u16, 0);
        lemma_accepting_more(a, n, n + 3);
        lemma_accepting_pair(a, (n + 1) as u16, 0, n + 3);
        lemma_below_push(m.lists, seq![(n + 1) as u16], n, n + 3);
        lemma_below_push(lists1, seq![0u16], n + 3, n + 3);
        assert forall|i: int| 0 <= i < m2.frags.len() implies (#[trigger] m2.frags[i]).0 < m2.counter by {
            if i < m.frags.len() {
                assert(m2.frags[i] == m.frags[i]);
            }
        }
    } else if s[pos] == 35 {
        lemma_accepting_pair(a, s[pos + 1] as u16, 35, n);
    } else if s[pos] == 124 {
        let m2 = with_alternation(m);
        lemma_with_alternation(m);
        lemma_run_grows(s, pos + 1, m2);
        let f = m.frags.len() as int;
        let right = m.frags[f - 1];
        let left = m.frags[f - 2];
        let lists1 = set_first(
            set_first(m.lists.push(seq![left.0, right.0]), left.1 as int, (n + 1) as u16),
            right.1 as int,
            (n + 1) as u16,
        );
        lemma_push_numbered(t, n as u16, (0, 0), lists_end(m.lists) as u16, 0);
        let t1 = t.push(encode(n as u16, (0, 0), lists_end(m.lists) as u16, 0));
        lemma_push_numbered(t1, (n + 1) as u16, (0, 0), lists_end(lists1) as u16, 0);
        lemma_accepting_more(a, n, n + 2);
        lemma_accepting_op(a, 124, n + 2);
        let l0 = m.lists.push(seq![left.0, right.0]);
        lemma_below_push(m.lists, seq![left.0, right.0], n, n + 2);
        assert(l0[left.1 as int] == m.lists[left.1 as int]);
        lemma_below_first(l0, left.1 as int, (n + 1) as u16, n + 2);
        let l1 = set_first(l0, left.1 as int, (n + 1) as u16);
        assert(l1[right.1 as int].len() >= 1);
        lemma_below_first(l1, right.1 as int, (n + 1) as u16, n + 2);
        lemma_below_push(lists1, seq![0u16], n + 2, n + 2);
        assert forall|i: int| 0 <= i < m2.frags.len() implies (#[trigger] m2.frags[i]).0 < m2.counter by {
            if i < f - 2 {
                assert(m2.frags[i] == m.frags[i]);
            }
        }
    } else if s[pos] == 38 {
        let m2 = with_concatenation(m);
        lemma_with_concatenation(m);
        lemma_run_grows(s, pos + 1, m2);
        let f = m.frags.len() as int;
        let right = m.frags[f - 1];
        let left = m.frags[f - 2];
        let lists0 = m.lists.push(seq![left.0]);
        let lists1 = set_first(
            set_first(lists0.push(seq![right.0]), left.1 as int, (n + 1) as u16),
            right.1 as int,
            (n + 2) as u16,
        );
        lemma_push_numbered(t, n as u16, (0, 0), lists_end(m.lists) as u16, 0);
        let t1 = t.push(encode(n as u16, (0, 0), lists_end(m.lists) as u16, 0));
        lemma_push_numbered(t1, (n + 1) as u16, (0, 0), lists_end(lists0) as u16, 0);
        let t2 = t1.push(encode((n + 1) as u16, (0, 0), lists_end(lists0) as u16, 0));
        lemma_push_numbered(t2, (n + 2) as u16, (0, 0), lists_end(lists1) as u16, 0);
        let l1 = lists0.push(seq![right.0]);
        lemma_below_push(m.lists, seq![left.0], n, n + 3);
        lemma_below_push(lists0, seq![right.0], n + 3, n + 3);
        assert(l1[left.1 as int] == m.lists[left.1 as int]);
        lemma_below_first(l1, left.1 as int, (n + 1) as u16, n + 3);
        let l2 = set_first(l1, left.1 as int, (n + 1) as u16);
        assert(l2[right.1 as int].len() >= 1);
        lemma_below_first(l2, right.1 as int, (n + 2) as u16, n + 3);
        lemma_below_push(lists1, seq![0u16], n + 3, n + 3);
        assert forall|i: int| 0 <= i < m2.frags.len() implies (#[trigger] m2.frags[i]).0 < m2.counter by {
            if i < f - 2 {
                assert(m2.frags[i] == m.frags[i]);
            }
        }
        lemma_accepting_more(a, n, n + 3);
        if a.last() == 63 {
            assert(accepting_ok(a.drop_last(), n + 3));
            lemma_accepting_op(a.drop_last(), 124, n + 3);
        } else {
            lemma_accepting_op(a, 38, n + 3);
        }
    } else if s[pos] == 43 {
        let m2 = with_repetition(m);
        lemma_with_repetition(m);
        lemma_run_grows(s, pos + 1, m2);
        let f = m.frags.len() as int;
        let one = m.frags[f - 1];
        let lists0 = m.lists.push(seq![one.0]);
        let lists1 = set_first(lists0.push(seq![n as u16, (n + 2) as u16]), one.1 as int, (n + 1) as u16);
        lemma_push_numbered(t, n as u16, (0, 0), lists_end(m.lists) as u16, 0);
        let t1 = t.push(encode(n as u16, (0, 0), lists_end(m.lists) as u16, 0));
        lemma_push_numbered(t1, (n + 1) as u16, (0, 0), lists_end(lists0) as u16, 0);
        let t2 = t1.push(encode((n + 1) as u16, (0, 0), lists_end(lists0) as u16, 0));
        lemma_push_numbered(t2, (n + 2) as u16, (0, 0), lists_end(lists1) as u16, 0);
        lemma_accepting_more(a, n, n + 3);
        let l1 = lists0.push(seq![n as u16, (n + 2) as u16]);
        lemma_below_push(m.lists, seq![one.0], n, n + 3);
        lemma_below_push(lists0, seq![n as u16, (n + 2) as u16], n + 3, n + 3);
        assert(l1[one.1 as int] == m.lists[one.1 as int]);
        lemma_below_first(l1, one.1 as int, (n + 1) as u16, n + 3);
        lemma_below_push(lists1, seq![0u16], n + 3, n + 3);
        assert forall|i: int| 0 <= i < m2.frags.len() implies (#[trigger] m2.frags[i]).0 < m2.counter by {
            if i < f - 1 {
                assert(m2.frags[i] == m.frags[i]);
            }
        }
    } else if s[pos] == 63 {
        let m2 = with_optionality(m);
        lemma_with_optionality(m);
        lemma_run_grows(s, pos + 1, m2);
        let f = m.frags.len() as int;
        let one = m.frags[f - 1];
        let lists1 = set_first(m.lists.push(seq![one.0, (n + 1) as u16]), one.1 as int, (n + 1) as u16);
        lemma_push_numbered(t, n as u16, (0, 0), lists_end(m.lists) as u16, 0);
        let t1 = t.push(encode(n as u16, (0, 0), lists_end(m.lists) as u16, 0));
        lemma_push_numbered(t1, (n + 1) as u16, (0, 0), lists_end(lists1) as u16, 0);
        lemma_accepting_more(a, n, n + 2);
        lemma_accepting_op(a, 63, n + 2);
        let l0 = m.lists.push(seq![one.0, (n + 1) as u16]);
        lemma_below_push(m.lists, seq![one.0, (n + 1) as u16], n, n + 2);
        assert(l0[one.1 as int] == m.lists[one.1 as int]);
        lemma_below_first(l0, one.1 as int, (n + 1) as u16, n + 2);
        lemma_below_push(lists1, seq![0u16], n + 2, n + 2);
        assert forall|i: int| 0 <= i < m2.frags.len() implies (#[trigger] m2.frags[i]).0 < m2.counter by {
            if i < f - 1 {
                assert(m2.frags[i] == m.frags[i]);
            }
        }
    }
}

/// The transitions, lists and accepting entries of a state fit in their heaps.
pub open spec fn bounded(m: Construction) -> bool {
    &&& m.trans.len() <= 1024
    &&& lists_end(m.lists) <= 4096
    &&& m.accepting.len() < 2047
}

/// A nondeterministic automaton: transitions between states, where a transition on no byte leads
/// to an epsilon list of further states, and a transition's metadata says whether it accepts.
pub struct NFA {
    transitions: Graph<B8192, GuardSegfault>,
    pub epsilons: Collection<B8192, GuardSegfault>,
}

impl NFA {
    /// The transitions, one word each.
    pub closed spec fn graph(&self) -> Graph<B8192, GuardSegfault> {
        self.transitions
    }

    /// The epsilon lists.
    pub closed spec fn lists(&self) -> Collection<B8192, GuardSegfault> {
        self.epsilons
    }

    /// The transitions in use.
    pub open spec fn transitions(&self) -> Seq<u64> {
        self.graph().entries()
    }

    /// Both heaps are sound and have the sizes that the builder gives them.
    pub open spec fn wf(&self) -> bool {
        &&& self.graph().wf()
        &&& self.graph().heap().cap() == 1024
        &&& self.lists().wf()
        &&& self.lists().heap().cap() == 4096
    }

    /// Whether the epsilon lists, from offset 0 on, are `lists`.
    pub open spec fn holds(&self, lists: Seq<Seq<u16>>) -> bool {
        &&& self.lists().spec_count() == lists.len()
        &&& laid_out(self.lists().words(), lists)
    }

    fn from(transitions: Graph<B8192, GuardSegfault>, epsilons: Collection<B8192, GuardSegfault>) -> (r: Self)
        ensures
            r.graph() == transitions,
            r.lists() == epsilons,
    {
        NFA { transitions, epsilons }
    }

    /// Builds the automaton of `rpn` over four fresh blocks of the allocator; `None` only when the
    /// allocator has run out of room for one of them.
    pub fn build(allocator: &mut Naive64Pages, rpn: RPN<B4096>) -> (r: Option<Self>)
        requires
            rpn.wf(),
            buildable(rpn.bytes()),
        ensures
            match r {
                Some(nfa) => {
                    &&& nfa.wf()
                    &&& nfa.transitions() == built_transitions(rpn.bytes())
                    &&& nfa.holds(built_lists(rpn.bytes()))
                    &&& numbered(nfa.transitions())
                    &&& lists_below(built_lists(rpn.bytes()), nfa.transitions().len() as int)
                    &&& nfa.graph().tail_clear()
                    &&& ranges_wf(nfa.transitions()) ==> nfa.graph().ranges_sorted()
                    &&& classes_ordered(rpn.bytes(), 0) ==> nfa.graph().ranges_sorted()
                },
                None => !has_room(final(allocator).spec_bitmap(), 2) || !has_room(final(allocator).spec_bitmap(), 1),
            },
    {
        match Builder::new(allocator) {
            None => None,
            Some(builder) => builder.build(rpn),
        }
    }

    pub fn transition_count(&self) -> (r: u16)
        ensures
            r == self.graph().spec_count(),
    {
        self.transitions.graph_count()
    }

    /// The transition at `idx`: `(src, (via.0, via.1), dst, meta)`.
    pub fn transition_at(&self, idx: u16) -> (r: (u16, (u8, u8), u16, u16))
        requires
            self.wf(),
            idx < 1024,
        ensures
            r == decode(self.graph().words()[idx as int]),
    {
        self.transitions.graph_at(idx)
    }

    /// The destination and metadata of a transition from `src` whose byte range holds `via`; the
    /// search reads the word after the transitions, so one must be left.
    pub fn transition_find(&self, src: u16, via: u8) -> (r: Option<(u16, u16)>)
        requires
            self.wf(),
            self.graph().spec_count() < 1024,
        ensures
            self.graph().find_result(src, via, r),
    {
        self.transitions.graph_find(src, via)
    }

    /// The first and last index of the run of transitions from `src`; the search reads the word
    /// after the transitions, so one must be left.
    pub fn transition_find_all(&self, src: u16) -> (r: Option<(u16, u16)>)
        requires
            self.wf(),
            self.graph().spec_count() < 1024,
        ensures
            self.graph().find_all_result(src, r),
    {
        self.transitions.graph_find_all(src)
    }

    /// Item `off` of the list at `idx`.
    pub fn epsilon_items_get(&self, idx: u16, off: u16) -> (r: u16)
        requires
            self.wf(),
            idx + off + 4 < 4096,
        ensures
            r == self.lists().words()[idx + off + 4],
    {
        self.epsilons.list_items_get(idx, off)
    }

    /// The number of items of the list at `idx`.
    pub fn epsilon_items_count(&self, idx: u16) -> (r: u16)
        requires
            self.wf(),
            idx < 4096,
        ensures
            r == self.lists().words()[idx as int],
    {
        self.epsilons.list_items_count(idx)
    }
}

struct Collapsed;

impl StackLike for Collapsed {}

struct Accepting;

impl StackLike for Accepting {}

/// Builds an automaton from an expression in reverse Polish notation, keeping the fragments built
/// so far on one stack and what decides which transitions accept on another.
pub struct Builder {
    counter: u16,
    transitions: Graph<B8192, GuardSegfault>,
    epsilons: Collection<B8192, GuardSegfault>,
    collapsed: Array<Collapsed, u16, B4096, GuardSegfault>,
    accepting: Array<Accepting, u16, B4096, GuardSegfault>,
}

impl Builder {
    /// No state handed out and nothing built yet, over fresh heaps.
    pub closed spec fn fresh(&self) -> bool {
        &&& self.counter == 0
        &&& self.transitions.wf()
        &&& self.transitions.heap().cap() == 1024
        &&& self.transitions.spec_count() == 0
        &&& self.transitions.tail_clear()
        &&& self.epsilons.wf()
        &&& self.epsilons.heap().cap() == 4096
        &&& self.epsilons.spec_count() == 0
        &&& self.epsilons.spec_head() == 0
        &&& self.epsilons.spec_tail() == 0
        &&& self.epsilons.words() == Seq::new(4096, |i: int| 0u16)
        &&& self.stacks_ok()
        &&& self.collapsed.spec_head() == 0
        &&& self.accepting.spec_head() == 0
    }

    /// Both stacks are sound, have 2048 words, and their back stacks are empty.
    spec fn stacks_ok(&self) -> bool {
        &&& self.collapsed.wf()
        &&& self.collapsed.heap().cap() == 2048
        &&& self.collapsed.spec_tail() == 2047
        &&& !self.collapsed.heap().is_wrapping()
        &&& self.accepting.wf()
        &&& self.accepting.heap().cap() == 2048
        &&& self.accepting.spec_tail() == 2047
        &&& !self.accepting.heap().is_wrapping()
    }

    /// The builder holds the state `m` of the construction.
    spec fn holds(&self, m: Construction) -> bool {
        &&& self.transitions.wf()
        &&& self.transitions.heap().cap() == 1024
        &&& self.transitions.entries() == m.trans
        &&& self.transitions.tail_clear()
        &&& self.epsilons.wf()
        &&& self.epsilons.heap().cap() == 4096
        &&& self.epsilons.spec_count() == m.lists.len()
        &&& self.epsilons.spec_head() == list_off(m.lists, m.lists.len() - 1)
        &&& self.epsilons.spec_tail() == 0
        &&& laid_out(self.epsilons.words(), m.lists)
        &&& zero_from(self.epsilons.words(), lists_end(m.lists))
        &&& self.counter == m.counter
        &&& self.stacks_ok()
        &&& self.collapsed.spec_head() == 2 * m.frags.len()
        &&& forall|i: int|
            0 <= i < m.frags.len() ==> self.collapsed.front()[2 * i] == (#[trigger] m.frags[i]).0
                && self.collapsed.front()[2 * i + 1] == list_off(m.lists, m.frags[i].1 as int)
        &&& self.accepting.spec_head() == m.accepting.len()
        &&& self.accepting.front() == m.accepting
    }

    /// A builder over four fresh blocks of the allocator; `None` only when the allocator has run
    /// out of room for one of them.
    pub fn new(allocator: &mut Naive64Pages) -> (r: Option<Self>)
        ensures
            match r {
                Some(b) => b.fresh(),
                None => !has_room(final(allocator).spec_bitmap(), 2) || !has_room(final(allocator).spec_bitmap(), 1),
            },
    {
        let transitions: Graph<B8192, GuardSegfault> = match Graph::new(allocator) {
            None => return None,
            Some(graph) => graph,
        };
        let epsilons: Collection<B8192, GuardSegfault> = match Collection::new(allocator) {
            None => return None,
            Some(lists) => lists,
        };
        let collapsed: Array<Collapsed, u16, B4096, GuardSegfault> = match Array::new(allocator) {
            None => return None,
            Some(array) => array,
        };
        let accepting: Array<Accepting, u16, B4096, GuardSegfault> = match Array::new(allocator) {
            None => return None,
            Some(array) => array,
        };
        Some(Builder { counter: 0, transitions, epsilons, collapsed, accepting })
    }

    fn next(&mut self) -> (r: u16)
        requires
            old(self).counter < u16::MAX,
        ensures
            r == old(self).counter,
            final(self).counter == old(self).counter + 1,
            final(self).transitions == old(self).transitions,
            final(self).epsilons == old(self).epsilons,
            final(self).collapsed == old(self).collapsed,
            final(self).accepting == old(self).accepting,
    {
        self.counter += 1;
        self.counter - 1
    }

    /// The literal token at `idx`; returns the offset after its bytes.
    #[verifier::spinoff_prover]
    #[verifier::rlimit(50)]
    fn handle_literal(&mut self, rpn: &RPN<B4096>, idx: u16, Ghost(m): Ghost<Construction>) -> (r: u16)
        requires
            old(self).holds(m),
            construction_ok(m),
            rpn.wf(),
            rpn.bytes().len() < u16::MAX,
            literal_ok(rpn.bytes(), idx as int),
            bounded(with_literal(rpn.bytes(), idx as int, m)),
        ensures
            final(self).holds(with_literal(rpn.bytes(), idx as int, m)),
            r == idx + 2 + (rpn.bytes()[idx + 1] - 48),
    {
        let ghost s = rpn.bytes();
        let ghost c = s[idx + 1] - 48;
        let ghost m2 = with_literal(s, idx as int, m);
        let ghost n = m.lists.len() as int;
        proof {
            lemma_with_literal(s, idx as int, m);
            lemma_list_off_mono(m.lists, 0, n);
            lemma_list_off_mono(m.lists, n - 1, n);
            lemma_list_off_mono(m.lists, 0, n - 1);
            self.accepting.heap().lemma_slots_small();
        }
        let index = idx + 1;
        let count = rpn.at(index) - 48;

        let zero_state = self.next();
        let first_state = self.next();
        let mut last = first_state;

        let upper_limit = index + count as u16;
        let ghost ws0 = self.epsilons.words();
        let zero_epsilons = self.epsilons.list_push_head();
        proof {
            lemma_push_list(ws0, m.lists, list_off(m.lists, n - 1));
        }
        let ghost l0 = m.lists.push(Seq::<u16>::empty());
        let ghost ws1 = self.epsilons.words();
        self.epsilons.list_items_add(zero_epsilons, first_state);
        let ghost l1 = l0.update(n, l0[n].push(first_state));
        proof {
            lemma_last_append(ws1, l0, first_state);
            assert(l1 =~= m.lists.push(seq![first_state]));
        }
        let ghost trans0 = self.transitions.entries();
        self.transitions.graph_add(zero_state, (0, 0), zero_epsilons, 0x0200);
        proof {
            assert(self.transitions.entries() =~= trans0.push(
                encode(zero_state, (0, 0), lists_end(m.lists) as u16, 0x0200),
            ));
        }
        let ghost lits0 = self.transitions.entries();
        let ghost eps = self.epsilons;
        let ghost collapsed = self.collapsed;

        let mut j: u16 = index + 1;
        while j <= upper_limit
            invariant
                s == rpn.bytes(),
                rpn.wf(),
                s.len() < u16::MAX,
                literal_ok(s, idx as int),
                m.counter == m.trans.len(),
                count == c,
                index == idx + 1,
                upper_limit == index + count,
                index + 1 <= j <= upper_limit + 1,
                first_state == m.counter + 1,
                last == first_state + (j - index - 1),
                self.counter == last + 1,
                m2 == with_literal(s, idx as int, m),
                m2.trans.len() == m.trans.len() + c + 2,
                m2.trans.len() <= 1024,
                m2.accepting.len() < 2047,
                lits0.len() == m.trans.len() + 1,
                self.transitions.wf(),
                self.transitions.heap().cap() == 1024,
                self.transitions.tail_clear(),
                self.transitions.entries() == lits0 + chain(s, idx + 2, first_state as int, c, j - index - 1),
                self.epsilons == eps,
                self.collapsed == collapsed,
                self.accepting.wf(),
                self.accepting.heap().cap() == 2048,
                self.accepting.spec_tail() == 2047,
                !self.accepting.heap().is_wrapping(),
                self.accepting.spec_head() == self.accepting.front().len(),
                self.accepting.front() == if j == upper_limit + 1 && c > 0 {
                    m.accepting.push((m.trans.len() + c) as u16).push(0)
                } else {
                    m.accepting
                },
            decreases upper_limit + 1 - j,
        {
            let inside = j < upper_limit;
            let val = rpn.at(j);

            let next = self.next();
            let meta: u16 = if inside { 0x0200 } else { 0x00 };

            let ghost before = self.transitions.entries();
            assert(chain(s, idx + 2, first_state as int, c, j - index - 1).len() == j - index - 1);
            assert(self.transitions.spec_count() == before.len());
            let t = self.transitions.graph_inc();
            self.transitions.graph_set(t, last, (val, val), next, meta);
            proof {
                let k = j - index - 1;
                assert(chain(s, idx + 2, first_state as int, c, k + 1) =~= chain(s, idx + 2, first_state as int, c, k).push(
                    encode(last, (val, val), next, meta),
                ));
                assert(self.transitions.entries() =~= before.push(encode(last, (val, val), next, meta)));
            }

            if !inside {
                self.accepting.stack_push_front(t);
                self.accepting.stack_push_front(0);
            }

            last = next;
            j = j + 1;
        }

        let ghost ws2 = self.epsilons.words();
        let complete_epsilons = self.epsilons.list_push_head();
        proof {
            lemma_push_list(ws2, l1, list_off(l1, n));
        }
        let ghost l2 = l1.push(Seq::<u16>::empty());
        let ghost ws3 = self.epsilons.words();
        self.epsilons.list_items_resize(complete_epsilons, 1);
        proof {
            lemma_last_resize(ws3, l2);
            assert(l2.update(n + 1, seq![0u16]) =~= m2.lists);
        }
        let ghost trans1 = self.transitions.entries();
        self.transitions.graph_add(last, (0, 0), complete_epsilons, 0x00);
        proof {
            assert(self.transitions.entries() =~= trans1.push(encode(last, (0, 0), complete_epsilons, 0)));
            assert(self.transitions.entries() =~= m2.trans);
            self.collapsed.heap().lemma_slots_small();
        }
        let ghost st0 = self.collapsed.front();
        self.collapsed.stack_push_front(zero_state);
        self.collapsed.stack_push_front(complete_epsilons);
        proof {
            lemma_lists_push(m.lists, seq![first_state]);
            lemma_lists_push(l1, seq![0u16]);
            assert forall|i: int| 0 <= i < m2.frags.len() implies self.collapsed.front()[2 * i] == (
            #[trigger] m2.frags[i]).0 && self.collapsed.front()[2 * i + 1] == list_off(
                m2.lists,
                m2.frags[i].1 as int,
            ) by {
                if i < m.frags.len() {
                    assert(m2.frags[i] == m.frags[i]);
                    assert(self.collapsed.front()[2 * i] == st0[2 * i]);
                    assert(self.collapsed.front()[2 * i + 1] == st0[2 * i + 1]);
                }
            }
        }

        index + count as u16 + 1
    }

    /// The byte range token at `idx`; returns the offset after its bounds.
    #[verifier::spinoff_prover]
    #[verifier::rlimit(50)]
    fn handle_positive_class(&mut self, rpn: &RPN<B4096>, idx: u16, Ghost(m): Ghost<Construction>) -> (r: u16)
        requires
            old(self).holds(m),
            construction_ok(m),
            rpn.wf(),
            idx + 3 <= rpn.bytes().len(),
            rpn.bytes().len() < u16::MAX,
            bounded(with_class(rpn.bytes(), idx as int, m)),
        ensures
            final(self).holds(with_class(rpn.bytes(), idx as int, m)),
            r == idx + 3,
    {
        let ghost s = rpn.bytes();
        let ghost m2 = with_class(s, idx as int, m);
        let ghost n = m.lists.len() as int;
        proof {
            lemma_with_class(s, idx as int, m);
            lemma_list_off_mono(m.lists, 0, n);
            lemma_list_off_mono(m.lists, n - 1, n);
            lemma_list_off_mono(m.lists, 0, n - 1);
            self.accepting.heap().lemma_slots_small();
            self.collapsed.heap().lemma_slots_small();
        }
        let low = rpn.at(idx + 1);
        let high = rpn.at(idx + 2);

        let zero_state = self.next();
        let first_state = self.next();

        let last_state = self.next();
        let ghost ws0 = self.epsilons.words();
        let zero_epsilons = self.epsilons.list_push_head();
        proof {
            lemma_push_list(ws0, m.lists, list_off(m.lists, n - 1));
        }
        let ghost l0 = m.lists.push(Seq::<u16>::empty());
        let ghost ws1 = self.epsilons.words();
        self.epsilons.list_items_add(zero_epsilons, first_state);
        let ghost l1 = l0.update(n, l0[n].push(first_state));
        proof {
            lemma_last_append(ws1, l0, first_state);
            assert(l1 =~= m.lists.push(seq![first_state]));
        }
        let ghost trans0 = self.transitions.entries();
        self.transitions.graph_add(zero_state, (0, 0), zero_epsilons, 0x0200);

        let ghost ws2 = self.epsilons.words();
        let complete_epsilons = self.epsilons.list_push_head();
        proof {
            lemma_push_list(ws2, l1, list_off(l1, n));
        }
        let ghost l2 = l1.push(Seq::<u16>::empty());
        let ghost ws3 = self.epsilons.words();
        self.epsilons.list_items_resize(complete_epsilons, 1);
        proof {
            lemma_last_resize(ws3, l2);
            assert(l2.update(n + 1, seq![0u16]) =~= m2.lists);
        }

        let first_state_idx = self.transitions.graph_inc();
        self.transitions.graph_set(first_state_idx, first_state, (low, high), last_state, 0x00);
        self.transitions.graph_add(last_state, (0, 0), complete_epsilons, 0x00);
        proof {
            assert(self.transitions.entries() =~= m2.trans);
        }

        self.accepting.stack_push_front(first_state_idx);
        self.accepting.stack_push_front(0);

        let ghost st0 = self.collapsed.front();
        self.collapsed.stack_push_front(zero_state);
        self.collapsed.stack_push_front(complete_epsilons);
        proof {
            lemma_lists_push(m.lists, seq![first_state]);
            lemma_lists_push(l1, seq![0u16]);
            assert forall|i: int| 0 <= i < m2.frags.len() implies self.collapsed.front()[2 * i] == (
            #[trigger] m2.frags[i]).0 && self.collapsed.front()[2 * i + 1] == list_off(
                m2.lists,
                m2.frags[i].1 as int,
            ) by {
                if i < m.frags.len() {
                    assert(m2.frags[i] == m.frags[i]);
                    assert(self.collapsed.front()[2 * i] == st0[2 * i]);
                    assert(self.collapsed.front()[2 * i + 1] == st0[2 * i + 1]);
                }
            }
        }

        idx + 3
    }

    /// The alternation token: joins the two fragments on top of the stack.
    #[verifier::spinoff_prover]
    #[verifier::rlimit(50)]
    fn handle_alternation(&mut self, idx: u16, Ghost(m): Ghost<Construction>) -> (r: u16)
        requires
            old(self).holds(m),
            construction_ok(m),
            m.frags.len() >= 2,
            idx < u16::MAX,
            bounded(with_alternation(m)),
        ensures
            final(self).holds(with_alternation(m)),
            r == idx + 1,
    {
        let ghost m2 = with_alternation(m);
        let ghost n = m.lists.len() as int;
        let ghost f = m.frags.len() as int;
        let ghost right = m.frags[f - 1];
        let ghost left = m.frags[f - 2];
        proof {
            lemma_with_alternation(m);
            lemma_list_off_mono(m.lists, 0, n);
            lemma_list_off_mono(m.lists, n - 1, n);
            lemma_list_off_mono(m.lists, 0, n - 1);
            self.accepting.heap().lemma_slots_small();
            self.collapsed.heap().lemma_slots_small();
        }
        let ghost st0 = self.collapsed.front();
        let right_last_epsilons = self.collapsed.stack_pop_front();
        let right_first_state = self.collapsed.stack_pop_front();

        let left_last_epsilons = self.collapsed.stack_pop_front();
        let left_first_state = self.collapsed.stack_pop_front();
        proof {
            assert(right_last_epsilons == st0[2 * (f - 1) + 1]);
            assert(right_first_state == st0[2 * (f - 1)]);
            assert(left_last_epsilons == st0[2 * (f - 2) + 1]);
            assert(left_first_state == st0[2 * (f - 2)]);
            assert(self.collapsed.front() =~= st0.subrange(0, 2 * (f - 2)));
        }

        let start_state = self.next();
        let end_state = self.next();

        let ghost ws0 = self.epsilons.words();
        let start_epsilons = self.epsilons.list_push_head();
        proof {
            lemma_push_list(ws0, m.lists, list_off(m.lists, n - 1));
        }
        let ghost l0 = m.lists.push(Seq::<u16>::empty());
        let ghost ws1 = self.epsilons.words();
        self.epsilons.list_items_add(start_epsilons, left_first_state);
        let ghost l1 = l0.update(n, l0[n].push(left_first_state));
        proof {
            lemma_last_append(ws1, l0, left_first_state);
        }
        let ghost ws2 = self.epsilons.words();
        self.epsilons.list_items_add(start_epsilons, right_first_state);
        let ghost l2 = l1.update(n, l1[n].push(right_first_state));
        proof {
            lemma_last_append(ws2, l1, right_first_state);
            assert(l2[n] =~= seq![left.0, right.0]);
            assert(l2 =~= m.lists.push(seq![left.0, right.0]));
            lemma_lists_push(m.lists, seq![left.0, right.0]);
            lemma_list_off_mono(l2, left.1 + 1int, n + 1);
            lemma_list_off_mono(l2, right.1 + 1int, n + 1);
        }

        let ghost ws3 = self.epsilons.words();
        self.epsilons.list_items_set(left_last_epsilons, 0, end_state);
        let ghost l3 = set_first(l2, left.1 as int, end_state);
        proof {
            lemma_item_write(ws3, l2, left.1 as int, 0, end_state);
            lemma_lists_update(l2, left.1 as int, l2[left.1 as int].update(0, end_state));
        }
        let ghost ws4 = self.epsilons.words();
        self.epsilons.list_items_set(right_last_epsilons, 0, end_state);
        let ghost l4 = set_first(l3, right.1 as int, end_state);
        proof {
            lemma_item_write(ws4, l3, right.1 as int, 0, end_state);
            lemma_lists_update(l3, right.1 as int, l3[right.1 as int].update(0, end_state));
        }

        self.transitions.graph_add(start_state, (0, 0), start_epsilons, 0x00);

        let ghost ws5 = self.epsilons.words();
        let end_epsilons = self.epsilons.list_push_head();
        proof {
            lemma_push_list(ws5, l4, list_off(l4, n));
        }
        self.transitions.graph_add(end_state, (0, 0), end_epsilons, 0x00);
        proof {
            assert(self.transitions.entries() =~= m2.trans);
        }
        let ghost l5 = l4.push(Seq::<u16>::empty());
        let ghost ws6 = self.epsilons.words();
        self.epsilons.list_items_resize(end_epsilons, 1);
        proof {
            lemma_last_resize(ws6, l5);
            assert(l5.update(n + 1, seq![0u16]) =~= m2.lists);
        }

        let ghost st1 = self.collapsed.front();
        self.collapsed.stack_push_front(start_state);
        self.collapsed.stack_push_front(end_epsilons);
        self.accepting.stack_push_front(124);
        proof {
            lemma_lists_push(l4, seq![0u16]);
            assert forall|i: int| 0 <= i < m2.frags.len() implies self.collapsed.front()[2 * i] == (
            #[trigger] m2.frags[i]).0 && self.collapsed.front()[2 * i + 1] == list_off(
                m2.lists,
                m2.frags[i].1 as int,
            ) by {
                if i < f - 2 {
                    assert(m2.frags[i] == m.frags[i]);
                    assert(self.collapsed.front()[2 * i] == st0[2 * i]);
                    assert(self.collapsed.front()[2 * i + 1] == st0[2 * i + 1]);
                    assert(list_off(l4, m.frags[i].1 as int) == list_off(m.lists, m.frags[i].1 as int));
                }
            }
        }

        idx + 1
    }

    /// The concatenation token: the left of the two top fragments, then the right one.
    #[verifier::spinoff_prover]
    #[verifier::rlimit(60)]
    fn handle_concatenation(&mut self, idx: u16, Ghost(m): Ghost<Construction>) -> (r: u16)
        requires
            old(self).holds(m),
            construction_ok(m),
            m.frags.len() >= 2,
            m.accepting.len() > 0,
            idx < u16::MAX,
            bounded(with_concatenation(m)),
        ensures
            final(self).holds(with_concatenation(m)),
            r == idx + 1,
    {
        let ghost m2 = with_concatenation(m);
        let ghost n = m.lists.len() as int;
        let ghost f = m.frags.len() as int;
        let ghost right = m.frags[f - 1];
        let ghost left = m.frags[f - 2];
        proof {
            lemma_with_concatenation(m);
            lemma_list_off_mono(m.lists, 0, n);
            lemma_list_off_mono(m.lists, n - 1, n);
            lemma_list_off_mono(m.lists, 0, n - 1);
            self.accepting.heap().lemma_slots_small();
            self.collapsed.heap().lemma_slots_small();
        }
        let ghost st0 = self.collapsed.front();
        let right_last_epsilons = self.collapsed.stack_pop_front();
        let right_first_state = self.collapsed.stack_pop_front();

        let left_last_epsilons = self.collapsed.stack_pop_front();
        let left_first_state = self.collapsed.stack_pop_front();
        proof {
            assert(right_last_epsilons == st0[2 * (f - 1) + 1]);
            assert(right_first_state == st0[2 * (f - 1)]);
            assert(left_last_epsilons == st0[2 * (f - 2) + 1]);
            assert(left_first_state == st0[2 * (f - 2)]);
            assert(self.collapsed.front() =~= st0.subrange(0, 2 * (f - 2)));
        }

        let start_state = self.next();
        let continue_state = self.next();
        let end_state = self.next();

        let ghost ws0 = self.epsilons.words();
        let start_epsilons = self.epsilons.list_push_head();
        proof {
            lemma_push_list(ws0, m.lists, list_off(m.lists, n - 1));
        }
        let ghost l0 = m.lists.push(Seq::<u16>::empty());
        let ghost ws1 = self.epsilons.words();
        self.epsilons.list_items_add(start_epsilons, left_first_state);
        let ghost l1 = l0.update(n, l0[n].push(left_first_state));
        proof {
            lemma_last_append(ws1, l0, left_first_state);
            assert(l1 =~= m.lists.push(seq![left.0]));
            lemma_lists_push(m.lists, seq![left.0]);
        }

        let ghost ws2 = self.epsilons.words();
        let continue_epsilons = self.epsilons.list_push_head();
        proof {
            lemma_push_list(ws2, l1, list_off(l1, n));
        }
        let ghost l2 = l1.push(Seq::<u16>::empty());
        let ghost ws3 = self.epsilons.words();
        self.epsilons.list_items_add(continue_epsilons, right_first_state);
        let ghost l3 = l2.update(n + 1, l2[n + 1].push(right_first_state));
        proof {
            lemma_last_append(ws3, l2, right_first_state);
            assert(l3 =~= l1.push(seq![right.0]));
            lemma_lists_push(l1, seq![right.0]);
            lemma_list_off_mono(l3, left.1 + 1int, n + 2);
            lemma_list_off_mono(l3, right.1 + 1int, n + 2);
        }

        let ghost ws4 = self.epsilons.words();
        self.epsilons.list_items_set(left_last_epsilons, 0, continue_state);
        let ghost l4 = set_first(l3, left.1 as int, continue_state);
        proof {
            lemma_item_write(ws4, l3, left.1 as int, 0, continue_state);
            lemma_lists_update(l3, left.1 as int, l3[left.1 as int].update(0, continue_state));
        }
        let ghost ws5 = self.epsilons.words();
        self.epsilons.list_items_set(right_last_epsilons, 0, end_state);
        let ghost l5 = set_first(l4, right.1 as int, end_state);
        proof {
            lemma_item_write(ws5, l4, right.1 as int, 0, end_state);
            lemma_lists_update(l4, right.1 as int, l4[right.1 as int].update(0, end_state));
        }

        self.transitions.graph_add(start_state, (0, 0), start_epsilons, 0x00);
        self.transitions.graph_add(continue_state, (0, 0), continue_epsilons, 0x00);

        let ghost ws6 = self.epsilons.words();
        let end_epsilons = self.epsilons.list_push_head();
        proof {
            lemma_push_list(ws6, l5, list_off(l5, n + 1));
        }
        self.transitions.graph_add(end_state, (0, 0), end_epsilons, 0x00);
        proof {
            assert(self.transitions.entries() =~= m2.trans);
        }
        let ghost l6 = l5.push(Seq::<u16>::empty());
        let ghost ws7 = self.epsilons.words();
        self.epsilons.list_items_resize(end_epsilons, 1);
        proof {
            lemma_last_resize(ws7, l6);
            assert(l6.update(n + 2, seq![0u16]) =~= m2.lists);
        }

        self.collapsed.stack_push_front(start_state);
        self.collapsed.stack_push_front(end_epsilons);

        if self.accepting.stack_peek_front() == 63 {
            self.accepting.stack_pop_front();
            self.accepting.stack_push_front(124);
        } else {
            self.accepting.stack_push_front(38);
        }
        proof {
            assert(self.accepting.front() =~= m2.accepting);
            lemma_lists_push(l5, seq![0u16]);
            assert forall|i: int| 0 <= i < m2.frags.len() implies self.collapsed.front()[2 * i] == (
            #[trigger] m2.frags[i]).0 && self.collapsed.front()[2 * i + 1] == list_off(
                m2.lists,
                m2.frags[i].1 as int,
            ) by {
                if i < f - 2 {
                    assert(m2.frags[i] == m.frags[i]);
                    assert(self.collapsed.front()[2 * i] == st0[2 * i]);
                    assert(self.collapsed.front()[2 * i + 1] == st0[2 * i + 1]);
                    assert(list_off(l5, m.frags[i].1 as int) == list_off(m.lists, m.frags[i].1 as int));
                }
            }
        }

        idx + 1
    }

    /// The repetition token: the fragment on top of the stack, once or more.
    #[verifier::spinoff_prover]
    #[verifier::rlimit(60)]
    fn handle_repetition(&mut self, idx: u16, Ghost(m): Ghost<Construction>) -> (r: u16)
        requires
            old(self).holds(m),
            construction_ok(m),
            m.frags.len() >= 1,
            idx < u16::MAX,
            bounded(with_repetition(m)),
        ensures
            final(self).holds(with_repetition(m)),
            r == idx + 1,
    {
        let ghost m2 = with_repetition(m);
        let ghost n = m.lists.len() as int;
        let ghost f = m.frags.len() as int;
        let ghost one = m.frags[f - 1];
        proof {
            lemma_with_repetition(m);
            lemma_list_off_mono(m.lists, 0, n);
            lemma_list_off_mono(m.lists, n - 1, n);
            lemma_list_off_mono(m.lists, 0, n - 1);
            self.accepting.heap().lemma_slots_small();
            self.collapsed.heap().lemma_slots_small();
        }
        let ghost st0 = self.collapsed.front();
        let op_last_epsilons = self.collapsed.stack_pop_front();
        let op_first_state = self.collapsed.stack_pop_front();
        proof {
            assert(op_last_epsilons == st0[2 * (f - 1) + 1]);
            assert(op_first_state == st0[2 * (f - 1)]);
            assert(self.collapsed.front() =~= st0.subrange(0, 2 * (f - 1)));
        }

        let start_state = self.next();
        let repeat_state = self.next();
        let end_state = self.next();

        let ghost ws0 = self.epsilons.words();
        let start_epsilons = self.epsilons.list_push_head();
        proof {
            lemma_push_list(ws0, m.lists, list_off(m.lists, n - 1));
        }
        let ghost l0 = m.lists.push(Seq::<u16>::empty());
        let ghost ws1 = self.epsilons.words();
        self.epsilons.list_items_add(start_epsilons, op_first_state);
        let ghost l1 = l0.update(n, l0[n].push(op_first_state));
        proof {
            lemma_last_append(ws1, l0, op_first_state);
            assert(l1 =~= m.lists.push(seq![one.0]));
            lemma_lists_push(m.lists, seq![one.0]);
        }

        let ghost ws2 = self.epsilons.words();
        let repeat_epsilons = self.epsilons.list_push_head();
        proof {
            lemma_push_list(ws2, l1, list_off(l1, n));
        }
        let ghost l2 = l1.push(Seq::<u16>::empty());
        let ghost ws3 = self.epsilons.words();
        self.epsilons.list_items_add(repeat_epsilons, start_state);
        let ghost l3 = l2.update(n + 1, l2[n + 1].push(start_state));
        proof {
            lemma_last_append(ws3, l2, start_state);
        }
        let ghost ws4 = self.epsilons.words();
        self.epsilons.list_items_add(repeat_epsilons, end_state);
        let ghost l4 = l3.update(n + 1, l3[n + 1].push(end_state));
        proof {
            lemma_last_append(ws4, l3, end_state);
            assert(l4[n + 1] =~= seq![start_state, end_state]);
            assert(l4 =~= l1.push(seq![start_state, end_state]));
            lemma_lists_push(l1, seq![start_state, end_state]);
            lemma_list_off_mono(l4, one.1 + 1int, n + 2);
        }

        let ghost ws5 = self.epsilons.words();
        self.epsilons.list_items_set(op_last_epsilons, 0, repeat_state);
        let ghost l5 = set_first(l4, one.1 as int, repeat_state);
        proof {
            lemma_item_write(ws5, l4, one.1 as int, 0, repeat_state);
            lemma_lists_update(l4, one.1 as int, l4[one.1 as int].update(0, repeat_state));
        }
        self.transitions.graph_add(start_state, (0, 0), start_epsilons, 0x00);
        self.transitions.graph_add(repeat_state, (0, 0), repeat_epsilons, 0x00);

        let ghost ws6 = self.epsilons.words();
        let end_epsilons = self.epsilons.list_push_head();
        proof {
            lemma_push_list(ws6, l5, list_off(l5, n + 1));
        }
        self.transitions.graph_add(end_state, (0, 0), end_epsilons, 0x00);
        proof {
            assert(self.transitions.entries() =~= m2.trans);
        }
        let ghost l6 = l5.push(Seq::<u16>::empty());
        let ghost ws7 = self.epsilons.words();
        self.epsilons.list_items_resize(end_epsilons, 1);
        proof {
            lemma_last_resize(ws7, l6);
            assert(l6.update(n + 2, seq![0u16]) =~= m2.lists);
        }

        self.collapsed.stack_push_front(start_state);
        self.collapsed.stack_push_front(end_epsilons);
        proof {
            lemma_lists_push(l5, seq![0u16]);
            assert forall|i: int| 0 <= i < m2.frags.len() implies self.collapsed.front()[2 * i] == (
            #[trigger] m2.frags[i]).0 && self.collapsed.front()[2 * i + 1] == list_off(
                m2.lists,
                m2.frags[i].1 as int,
            ) by {
                if i < f - 1 {
                    assert(m2.frags[i] == m.frags[i]);
                    assert(self.collapsed.front()[2 * i] == st0[2 * i]);
                    assert(self.collapsed.front()[2 * i + 1] == st0[2 * i + 1]);
                    assert(list_off(l5, m.frags[i].1 as int) == list_off(m.lists, m.frags[i].1 as int));
                }
            }
        }

        idx + 1
    }

    /// The optionality token: the fragment on top of the stack, or nothing.
    #[verifier::spinoff_prover]
    #[verifier::rlimit(60)]
    fn handle_optionality(&mut self, idx: u16, Ghost(m): Ghost<Construction>) -> (r: u16)
        requires
            old(self).holds(m),
            construction_ok(m),
            m.frags.len() >= 1,
            idx < u16::MAX,
            bounded(with_optionality(m)),
        ensures
            final(self).holds(with_optionality(m)),
            r == idx + 1,
    {
        let ghost m2 = with_optionality(m);
        let ghost n = m.lists.len() as int;
        let ghost f = m.frags.len() as int;
        let ghost one = m.frags[f - 1];
        proof {
            lemma_with_optionality(m);
            lemma_list_off_mono(m.lists, 0, n);
            lemma_list_off_mono(m.lists, n - 1, n);
            lemma_list_off_mono(m.lists, 0, n - 1);
            self.accepting.heap().lemma_slots_small();
            self.collapsed.heap().lemma_slots_small();
        }
        let ghost st0 = self.collapsed.front();
        let op_last_epsilons = self.collapsed.stack_pop_front();
        let op_first_state = self.collapsed.stack_pop_front();
        proof {
            assert(op_last_epsilons == st0[2 * (f - 1) + 1]);
            assert(op_first_state == st0[2 * (f - 1)]);
            assert(self.collapsed.front() =~= st0.subrange(0, 2 * (f - 1)));
        }

        let start_state = self.next();
        let end_state = self.next();

        let ghost ws0 = self.epsilons.words();
        let start_epsilons = self.epsilons.list_push_head();
        proof {
            lemma_push_list(ws0, m.lists, list_off(m.lists, n - 1));
        }
        let ghost l0 = m.lists.push(Seq::<u16>::empty());
        let ghost ws1 = self.epsilons.words();
        self.epsilons.list_items_add(start_epsilons, op_first_state);
        let ghost l1 = l0.update(n, l0[n].push(op_first_state));
        proof {
            lemma_last_append(ws1, l0, op_first_state);
        }
        let ghost ws2 = self.epsilons.words();
        self.epsilons.list_items_add(start_epsilons, end_state);
        let ghost l2 = l1.update(n, l1[n].push(end_state));
        proof {
            lemma_last_append(ws2, l1, end_state);
            assert(l2[n] =~= seq![one.0, end_state]);
            assert(l2 =~= m.lists.push(seq![one.0, end_state]));
            lemma_lists_push(m.lists, seq![one.0, end_state]);
            lemma_list_off_mono(l2, one.1 + 1int, n + 1);
        }

        let ghost ws3 = self.epsilons.words();
        self.epsilons.list_items_set(op_last_epsilons, 0, end_state);
        let ghost l3 = set_first(l2, one.1 as int, end_state);
        proof {
            lemma_item_write(ws3, l2, one.1 as int, 0, end_state);
            lemma_lists_update(l2, one.1 as int, l2[one.1 as int].update(0, end_state));
        }
        self.transitions.graph_add(start_state, (0, 0), start_epsilons, 0x00);

        let ghost ws4 = self.epsilons.words();
        let end_epsilons = self.epsilons.list_push_head();
        proof {
            lemma_push_list(ws4, l3, list_off(l3, n));
        }
        self.transitions.graph_add(end_state, (0, 0), end_epsilons, 0x00);
        proof {
            assert(self.transitions.entries() =~= m2.trans);
        }
        let ghost l4 = l3.push(Seq::<u16>::empty());
        let ghost ws5 = self.epsilons.words();
        self.epsilons.list_items_resize(end_epsilons, 1);
        proof {
            lemma_last_resize(ws5, l4);
            assert(l4.update(n + 1, seq![0u16]) =~= m2.lists);
        }

        self.collapsed.stack_push_front(start_state);
        self.collapsed.stack_push_front(end_epsilons);
        self.accepting.stack_push_front(63);
        proof {
            lemma_lists_push(l3, seq![0u16]);
            assert forall|i: int| 0 <= i < m2.frags.len() implies self.collapsed.front()[2 * i] == (
            #[trigger] m2.frags[i]).0 && self.collapsed.front()[2 * i + 1] == list_off(
                m2.lists,
                m2.frags[i].1 as int,
            ) by {
                if i < f - 1 {
                    assert(m2.frags[i] == m.frags[i]);
                    assert(self.collapsed.front()[2 * i] == st0[2 * i]);
                    assert(self.collapsed.front()[2 * i + 1] == st0[2 * i + 1]);
                    assert(list_off(l3, m.frags[i].1 as int) == list_off(m.lists, m.frags[i].1 as int));
                }
            }
        }

        idx + 1
    }

    /// The accepting marker at `idx`: its byte becomes the accepting value of what it follows.
    fn handle_acceptance(&mut self, rpn: &RPN<B4096>, idx: u16, Ghost(m): Ghost<Construction>) -> (r: u16)
        requires
            old(self).holds(m),
            rpn.wf(),
            idx + 2 <= rpn.bytes().len(),
            rpn.bytes().len() < u16::MAX,
            bounded(with_acceptance(rpn.bytes(), idx as int, m)),
        ensures
            final(self).holds(with_acceptance(rpn.bytes(), idx as int, m)),
            r == idx + 2,
    {
        proof {
            self.accepting.heap().lemma_slots_small();
        }
        self.accepting.stack_push_front(rpn.at(idx + 1).into());
        self.accepting.stack_push_front(35);

        idx + 2
    }

    /// After the last token: the transitions and lists of `s`, the accepting stack of the last
    /// state, and the back stacks still empty.
    spec fn built(&self, s: Seq<u8>) -> bool {
        &&& self.transitions.wf()
        &&& self.transitions.heap().cap() == 1024
        &&& self.transitions.entries() == final_construction(s).trans
        &&& self.transitions.tail_clear()
        &&& kept(final_construction(s))
        &&& classes_ordered(s, 0) ==> ranges_wf(final_construction(s).trans)
        &&& self.epsilons.wf()
        &&& self.epsilons.heap().cap() == 4096
        &&& self.epsilons.spec_count() == built_lists(s).len()
        &&& laid_out(self.epsilons.words(), built_lists(s))
        &&& self.stacks_ok()
        &&& self.accepting.spec_head() == final_construction(s).accepting.len()
        &&& self.accepting.front() == final_construction(s).accepting
    }

    /// Lays out the transitions and lists of `rpn`, token by token.
    fn build_transitions(&mut self, rpn: &RPN<B4096>)
        requires
            old(self).fresh(),
            rpn.wf(),
            buildable(rpn.bytes()),
        ensures
            final(self).built(rpn.bytes()),
    {
        let ghost s = rpn.bytes();
        let mut idx = 0u16;

        let start_state = self.next();
        let end_state = self.next();

        let start_entry = self.transitions.graph_inc();
        let end_entry = self.transitions.graph_inc();

        let ghost ws0 = self.epsilons.words();
        let start_epsilons = self.epsilons.list_push_head();
        proof {
            lemma_push_list(ws0, Seq::<Seq<u16>>::empty(), 0);
        }
        let ghost l0 = Seq::<Seq<u16>>::empty().push(Seq::<u16>::empty());
        let ghost ws1 = self.epsilons.words();
        self.epsilons.list_items_resize(start_epsilons, 1);
        proof {
            lemma_last_resize(ws1, l0);
        }
        let ghost l1 = l0.update(0, seq![0u16]);

        let ghost ws2 = self.epsilons.words();
        let end_epsilons = self.epsilons.list_push_head();
        proof {
            lemma_push_list(ws2, l1, 0);
        }
        self.transitions.graph_set(end_entry, end_state, (0, 0), end_epsilons, 0x00);
        self.transitions.graph_set(start_entry, start_state, (0, 0), start_epsilons, 0x00);

        let ghost mut m = construction_start();
        proof {
            assert(l1.push(Seq::<u16>::empty()) =~= m.lists);
            assert(self.transitions.entries() =~= m.trans);
            assert(self.accepting.front() =~= m.accepting);
            lemma_run_grows(s, 0, m);
            lemma_decode_encode(0, (0, 0), 0, 0);
            lemma_decode_encode(1, (0, 0), 5, 0);
            assert(m.trans[0] == encode(0, (0, 0), 0, 0));
            assert(m.trans[1] == encode(1, (0, 0), 5, 0));
        }

        while idx < rpn.size()
            invariant
                s == rpn.bytes(),
                rpn.wf(),
                buildable(s),
                0 <= idx <= s.len(),
                run(s, idx as int, m) == run(s, 0, construction_start()),
                construction_ok(m),
                kept(m),
                classes_ordered(s, 0) ==> classes_ordered(s, idx as int) && ranges_wf(m.trans),
                self.holds(m),
                start_epsilons == 0,
                end_state == 1,
            ensures
                run(s, idx as int, m) == Some(m),
                kept(m),
                classes_ordered(s, 0) ==> ranges_wf(m.trans),
            decreases s.len() - idx,
        {
            proof {
                lemma_step_kept(s, idx as int, m);
                if classes_ordered(s, 0) {
                    lemma_step_ranges(s, idx as int, m);
                }
            }
            let byte = rpn.at(idx);
            if byte == 108 {
                proof {
                    lemma_with_literal(s, idx as int, m);
                    lemma_run_grows(s, idx + 2 + (s[idx + 1] - 48), with_literal(s, idx as int, m));
                }
                let next = self.handle_literal(rpn, idx, Ghost(m));
                proof {
                    m = with_literal(s, idx as int, m);
                }
                idx = next;
            } else if byte == 45 {
                proof {
                    lemma_with_class(s, idx as int, m);
                    lemma_run_grows(s, idx + 3, with_class(s, idx as int, m));
                }
                let next = self.handle_positive_class(rpn, idx, Ghost(m));
                proof {
                    m = with_class(s, idx as int, m);
                }
                idx = next;
            } else if byte == 35 {
                proof {
                    lemma_run_grows(s, idx + 2, with_acceptance(s, idx as int, m));
                }
                let next = self.handle_acceptance(rpn, idx, Ghost(m));
                proof {
                    m = with_acceptance(s, idx as int, m);
                }
                idx = next;
            } else if byte == 124 {
                proof {
                    lemma_with_alternation(m);
                    lemma_run_grows(s, idx + 1, with_alternation(m));
                }
                let next = self.handle_alternation(idx, Ghost(m));
                proof {
                    m = with_alternation(m);
                }
                idx = next;
            } else if byte == 38 {
                proof {
                    lemma_with_concatenation(m);
                    lemma_run_grows(s, idx + 1, with_concatenation(m));
                }
                let next = self.handle_concatenation(idx, Ghost(m));
                proof {
                    m = with_concatenation(m);
                }
                idx = next;
            } else if byte == 43 {
                proof {
                    lemma_with_repetition(m);
                    lemma_run_grows(s, idx + 1, with_repetition(m));
                }
                let next = self.handle_repetition(idx, Ghost(m));
                proof {
                    m = with_repetition(m);
                }
                idx = next;
            } else if byte == 63 {
                proof {
                    lemma_with_optionality(m);
                    lemma_run_grows(s, idx + 1, with_optionality(m));
                }
                let next = self.handle_optionality(idx, Ghost(m));
                proof {
                    m = with_optionality(m);
                }
                idx = next;
            } else {
                idx = idx + 1;
            }
        }

        let ghost f = m.frags.len() as int;
        let ghost last = m.frags[f - 1];
        let ghost st0 = self.collapsed.front();
        proof {
            self.collapsed.heap().lemma_slots_small();
            lemma_list_off_mono(m.lists, 0, m.lists.len() as int);
        }
        let last_epsilons = self.collapsed.stack_pop_front();
        let first_state = self.collapsed.stack_pop_front();
        proof {
            assert(last_epsilons == st0[2 * (f - 1) + 1]);
            assert(first_state == st0[2 * (f - 1)]);
            lemma_list_off_mono(m.lists, 1, m.lists.len() as int);
            lemma_list_off_mono(m.lists, last.1 + 1int, m.lists.len() as int);
        }

        let ghost ws3 = self.epsilons.words();
        self.epsilons.list_items_set(start_epsilons, 0, first_state);
        let ghost l2 = set_first(m.lists, 0, first_state);
        proof {
            lemma_item_write(ws3, m.lists, 0, 0, first_state);
            lemma_lists_update(m.lists, 0, m.lists[0].update(0, first_state));
        }
        let ghost ws4 = self.epsilons.words();
        self.epsilons.list_items_set(last_epsilons, 0, end_state);
        proof {
            lemma_item_write(ws4, l2, last.1 as int, 0, end_state);
        }
    }

    /// Works the accepting stack off and gives each transition that waited on it its accepting
    /// value.
    #[verifier::rlimit(40)]
    fn propagate_accepting_states(&mut self)
        requires
            old(self).transitions.wf(),
            old(self).transitions.heap().cap() == 1024,
            old(self).stacks_ok(),
            old(self).accepting.spec_head() == old(self).accepting.front().len(),
            old(self).accepting.front().len() < 2047,
            propagate(old(self).accepting.front(), seq![1u16], old(self).transitions.entries()) is Some,
            old(self).transitions.tail_clear(),
            accepting_ok(old(self).accepting.front(), old(self).transitions.spec_count()),
        ensures
            final(self).transitions.wf(),
            final(self).transitions.heap().cap() == 1024,
            final(self).transitions.tail_clear(),
            final(self).transitions.spec_count() == old(self).transitions.spec_count(),
            forall|i: int|
                0 <= i < old(self).transitions.spec_count() ==> decode(#[trigger] final(self).transitions.entries()[i]).0
                    == decode(old(self).transitions.entries()[i]).0 && decode(final(self).transitions.entries()[i]).1
                    == decode(old(self).transitions.entries()[i]).1,
            final(self).transitions.entries() == propagate(
                old(self).accepting.front(),
                seq![1u16],
                old(self).transitions.entries(),
            )->Some_0,
            final(self).epsilons == old(self).epsilons,
    {
        let ghost result = propagate(self.accepting.front(), seq![1u16], self.transitions.entries());
        proof {
            self.accepting.heap().lemma_slots_small();
        }
        let ghost front0 = self.accepting.front();
        self.accepting.stack_push_back(1);
        proof {
            assert(self.accepting.front() =~= front0);
            assert(self.accepting.back() =~= seq![1u16]);
        }
        while self.accepting.stack_size_front() > 0
            invariant
                self.transitions.wf(),
                self.transitions.heap().cap() == 1024,
                self.epsilons == old(self).epsilons,
                self.accepting.wf(),
                self.accepting.heap().cap() == 2048,
                !self.accepting.heap().is_wrapping(),
                self.accepting.spec_head() == self.accepting.front().len(),
                self.accepting.spec_head() + self.accepting.back().len() <= 2047,
                self.accepting.back().len() == 2047 - self.accepting.spec_tail(),
                propagate(self.accepting.front(), self.accepting.back(), self.transitions.entries()) == result,
                result is Some,
                self.transitions.tail_clear(),
                self.transitions.spec_count() == old(self).transitions.spec_count(),
                accepting_ok(self.accepting.front(), self.transitions.spec_count()),
                forall|i: int|
                    0 <= i < old(self).transitions.spec_count() ==> decode(#[trigger] self.transitions.entries()[i]).0
                        == decode(old(self).transitions.entries()[i]).0 && decode(self.transitions.entries()[i]).1
                        == decode(old(self).transitions.entries()[i]).1,
            decreases self.accepting.front().len(),
        {
            proof {
                self.accepting.heap().lemma_slots_small();
            }
            let ghost front = self.accepting.front();
            let ghost back = self.accepting.back();
            let x = self.accepting.stack_pop_front();
            let op = x as u8;
            proof {
                assert(x == 0 || x == 35 || x == 124 || x == 38 || x == 63);
                assert(op == x);
                assert(self.accepting.front() =~= front.drop_last());
            }
            if op == 124 {
                let val = self.accepting.stack_pop_back();
                let ghost mid = self.accepting;
                self.accepting.stack_push_back(val);
                proof {
                    assert(self.accepting.front() =~= mid.front());
                }
                let ghost mid2 = self.accepting;
                self.accepting.stack_push_back(val);
                proof {
                    assert(self.accepting.front() =~= mid2.front());
                }
            } else if op == 38 {
                let val = self.accepting.stack_pop_back();
                let ghost mid = self.accepting;
                self.accepting.stack_push_back(0);
                proof {
                    assert(self.accepting.front() =~= mid.front());
                }
                let ghost mid2 = self.accepting;
                self.accepting.stack_push_back(val);
                proof {
                    assert(self.accepting.front() =~= mid2.front());
                }
            } else if op == 35 {
                let val = self.accepting.stack_pop_front();
                proof {
                    assert(self.accepting.front() =~= front.subrange(0, front.len() - 2));
                }

                self.accepting.stack_pop_back();
                let ghost mid = self.accepting;
                self.accepting.stack_push_back(val);
                proof {
                    assert(self.accepting.front() =~= mid.front());
                }
            } else if op == 63 {
            } else {
                let idx = self.accepting.stack_pop_front();
                let val = self.accepting.stack_pop_back();
                proof {
                    assert(self.accepting.front() =~= front.subrange(0, front.len() - 2));
                }

                if val > 0 {
                    let ghost before = self.transitions.entries();
                    proof {
                        assert(x == 0);
                        assert(idx < self.transitions.spec_count());
                    }
                    self.transitions.graph_set_meta(idx, val);
                    proof {
                        lemma_with_meta(before[idx as int], val);
                        assert forall|i: int| 0 <= i < old(self).transitions.spec_count() implies decode(
                            #[trigger] self.transitions.entries()[i],
                        ).0 == decode(old(self).transitions.entries()[i]).0 && decode(self.transitions.entries()[i]).1
                            == decode(old(self).transitions.entries()[i]).1 by {
                            assert(self.transitions.entries()[i] == self.transitions.words()[i]);
                            assert(before[i] == self.transitions.words()[i] || i == idx);
                        }
                        if idx < before.len() {
                            assert(self.transitions.entries() =~= before.update(
                                idx as int,
                                with_meta(before[idx as int], val),
                            ));
                        } else {
                            assert(self.transitions.entries() =~= before);
                        }
                    }
                }
            }
        }
    }

    /// Builds the automaton of `rpn`.
    pub fn build(self, rpn: RPN<B4096>) -> (r: Option<NFA>)
        requires
            self.fresh(),
            rpn.wf(),
            buildable(rpn.bytes()),
        ensures
            match r {
                Some(nfa) => {
                    &&& nfa.wf()
                    &&& nfa.transitions() == built_transitions(rpn.bytes())
                    &&& nfa.holds(built_lists(rpn.bytes()))
                    &&& numbered(nfa.transitions())
                    &&& lists_below(built_lists(rpn.bytes()), nfa.transitions().len() as int)
                    &&& nfa.graph().tail_clear()
                    &&& ranges_wf(nfa.transitions()) ==> nfa.graph().ranges_sorted()
                    &&& classes_ordered(rpn.bytes(), 0) ==> nfa.graph().ranges_sorted()
                },
                None => false,
            },
    {
        let mut b = self;
        b.build_transitions(&rpn);
        let ghost before = b.transitions.entries();
        b.propagate_accepting_states();
        proof {
            let e = b.transitions.entries();
            assert forall|i: int| 0 <= i < e.len() implies decode(#[trigger] e[i]).0 == i by {
                assert(decode(before[i]).0 == i);
            }
            if classes_ordered(rpn.bytes(), 0) {
                assert forall|i: int| 0 <= i < e.len() implies decode(#[trigger] e[i]).1.0 <= decode(e[i]).1.1 by {
                    assert(decode(before[i]).1.0 <= decode(before[i]).1.1);
                }
            }
            if ranges_wf(e) {
                b.transitions.lemma_numbered_sorted();
            }
            let s = rpn.bytes();
            lemma_run_grows(s, 0, construction_start());
            let fm = final_construction(s);
            let fl = fm.frags[fm.frags.len() - 1];
            assert(fl.0 < fm.counter);
            lemma_below_first(fm.lists, 0, fl.0, fm.counter as int);
            let l1 = set_first(fm.lists, 0, fl.0);
            assert(l1[fl.1 as int] == fm.lists[fl.1 as int]);
            lemma_below_first(l1, fl.1 as int, 1, fm.counter as int);
        }
        Some(NFA::from(b.transitions, b.epsilons))
    }
}

} // verus!
