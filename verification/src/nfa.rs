use vstd::prelude::*;

use crate::regex::graph::{decode, encode, lemma_decode_encode, numbered, ranges_wf, sorted_by_key, Graph};
use crate::regex::heap::{B4096, GuardSegfault};
use crate::regex::layout::{
    laid_out, lemma_below_first, lemma_below_push, lists_below, lemma_item_write, lemma_last_append, lemma_last_resize, lemma_list_off_mono, lemma_lists_push,
    lemma_lists_update, lemma_push_list, list_off, lists_end, zero_from,
};
use crate::regex::list::Collection;
use crate::regex::pages::{has_room, Naive64Pages};
use crate::regex::words::{distinct, sorted};
use crate::rpn::RPN;

verus! {

/// The state of the construction: the number of states handed out, the transitions, the epsilon
/// lists, and the fragments on the stack, each its first state and the index of its last list.
pub struct NfaModel {
    pub counter: nat,
    pub trans: Seq<u64>,
    pub lists: Seq<Seq<u16>>,
    pub frags: Seq<(u16, nat)>,
}

/// Before the first token: state 0 goes through list 0 (one item, filled in at the end) and
/// state 1, the end state, through the empty list 1.
pub open spec fn model_init() -> NfaModel {
    NfaModel {
        counter: 2,
        trans: seq![encode(0, (0, 0), 0, 0), encode(1, (0, 0), 5, 0)],
        lists: seq![seq![0u16], Seq::<u16>::empty()],
        frags: Seq::empty(),
    }
}

/// The number of bytes that the digit after `l` announces, taken modulo 256 as the byte is.
pub open spec fn literal_count(b: u8) -> int {
    if b >= 48 {
        b - 48
    } else {
        b + 208
    }
}

/// Whether the literal token at `pos` and all the bytes it announces are in the expression.
pub open spec fn literal_ok(s: Seq<u8>, pos: int) -> bool {
    &&& 0 <= pos
    &&& pos + 2 <= s.len()
    &&& pos + 2 + literal_count(s[pos + 1]) <= s.len()
}

/// The transitions through a literal: state `first + j` goes on byte `s[start + j]` to the next.
pub open spec fn literal_trans(s: Seq<u8>, start: int, first: int, c: int) -> Seq<u64> {
    Seq::new(
        c as nat,
        |j: int| encode((first + j) as u16, (s[start + j], s[start + j]), (first + j + 1) as u16, 2),
    )
}

/// A literal: a fresh state goes through a new list to the first state of a chain over the bytes,
/// whose last state goes through another new list (one item, filled in later).
pub open spec fn literal_step(s: Seq<u8>, pos: int, m: NfaModel) -> NfaModel {
    let c = literal_count(s[pos + 1]);
    let zero = m.counter as int;
    let first = zero + 1;
    let lists1 = m.lists.push(seq![first as u16]);
    NfaModel {
        counter: (m.counter + c + 2) as nat,
        trans: (m.trans.push(encode(zero as u16, (0, 0), lists_end(m.lists) as u16, 2)) + literal_trans(
            s,
            pos + 2,
            first,
            c,
        )).push(encode((first + c) as u16, (0, 0), lists_end(lists1) as u16, 0)),
        lists: lists1.push(seq![0u16]),
        frags: m.frags.push((zero as u16, (m.lists.len() + 1) as nat)),
    }
}

/// The lists with the first item of list `k` replaced.
pub open spec fn set_first(lists: Seq<Seq<u16>>, k: int, item: u16) -> Seq<Seq<u16>> {
    lists.update(k, lists[k].update(0, item))
}

/// An alternation of the two top fragments: a fresh start state goes through a new list to both
/// their first states, both their last lists lead to a fresh end state, and that one goes through
/// another new list (one item, filled in later).
pub open spec fn alternation_step(m: NfaModel) -> NfaModel {
    let f = m.frags.len() as int;
    let right = m.frags[f - 1];
    let left = m.frags[f - 2];
    let start = m.counter as int;
    let end = start + 1;
    let lists1 = set_first(
        set_first(m.lists.push(seq![left.0, right.0]), left.1 as int, end as u16),
        right.1 as int,
        end as u16,
    );
    NfaModel {
        counter: m.counter + 2,
        trans: m.trans.push(encode(start as u16, (0, 0), lists_end(m.lists) as u16, 0)).push(
            encode(end as u16, (0, 0), lists_end(lists1) as u16, 0),
        ),
        lists: lists1.push(seq![0u16]),
        frags: m.frags.subrange(0, f - 2).push((start as u16, (m.lists.len() + 1) as nat)),
    }
}

/// The construction from `pos` on: `None` where a literal runs past the end or an alternation
/// finds fewer than two fragments; it stops at the end or at any other byte.
pub open spec fn run(s: Seq<u8>, pos: int, m: NfaModel) -> Option<NfaModel>
    decreases s.len() - pos,
{
    if 0 <= pos < s.len() && s[pos] == 108 {
        if literal_ok(s, pos) {
            run(s, pos + 2 + literal_count(s[pos + 1]), literal_step(s, pos, m))
        } else {
            None
        }
    } else if 0 <= pos < s.len() && s[pos] == 124 {
        if m.frags.len() >= 2 {
            run(s, pos + 1, alternation_step(m))
        } else {
            None
        }
    } else {
        Some(m)
    }
}

/// The state after the last token.
pub open spec fn final_model(s: Seq<u8>) -> NfaModel {
    run(s, 0, model_init())->Some_0
}

/// Whether the expression can be built: every literal is complete, every alternation has two
/// fragments, one is left at the end, and the transitions and lists fit in their heaps.
pub open spec fn rpn_ok(s: Seq<u8>) -> bool {
    &&& s.len() <= u16::MAX
    &&& run(s, 0, model_init()) is Some
    &&& final_model(s).frags.len() >= 1
    &&& final_model(s).trans.len() <= 512
    &&& lists_end(final_model(s).lists) <= 2048
}

/// The transitions of the automaton built from `s`.
pub open spec fn nfa_transitions(s: Seq<u8>) -> Seq<u64> {
    final_model(s).trans
}

/// The epsilon lists of the automaton built from `s`: the start list leads to the first state of
/// the last fragment, whose last list leads to the end state.
pub open spec fn nfa_lists(s: Seq<u8>) -> Seq<Seq<u16>> {
    let m = final_model(s);
    let last = m.frags[m.frags.len() - 1];
    set_first(set_first(m.lists, 0, last.0), last.1 as int, 1)
}



/// What every state of the construction keeps: one state per transition, the two lists of the
/// start and end states, and for each fragment on the stack a last list of one item.
pub open spec fn model_ok(m: NfaModel) -> bool {
    &&& m.counter == m.trans.len()
    &&& m.lists.len() >= 2
    &&& m.lists[0].len() == 1
    &&& forall|i: int|
        0 <= i < m.frags.len() ==> 2 <= (#[trigger] m.frags[i]).1 < m.lists.len() && m.lists[m.frags[i].1 as int].len()
            == 1
}

proof fn lemma_literal_step(s: Seq<u8>, pos: int, m: NfaModel)
    requires
        model_ok(m),
        literal_ok(s, pos),
    ensures
        model_ok(literal_step(s, pos, m)),
        literal_step(s, pos, m).trans.len() == m.trans.len() + literal_count(s[pos + 1]) + 2,
        literal_step(s, pos, m).lists.len() == m.lists.len() + 2,
        lists_end(literal_step(s, pos, m).lists) == lists_end(m.lists) + 10,
{
    let c = literal_count(s[pos + 1]);
    let m2 = literal_step(s, pos, m);
    let lists1 = m.lists.push(seq![(m.counter + 1) as u16]);
    lemma_lists_push(m.lists, seq![(m.counter + 1) as u16]);
    lemma_lists_push(lists1, seq![0u16]);
    assert(literal_trans(s, pos + 2, m.counter + 1int, c).len() == c);
    assert forall|i: int| 0 <= i < m2.frags.len() implies 2 <= (#[trigger] m2.frags[i]).1 < m2.lists.len()
        && m2.lists[m2.frags[i].1 as int].len() == 1 by {
        if i < m.frags.len() {
            assert(m2.frags[i] == m.frags[i]);
        }
    }
}

proof fn lemma_alternation_step(m: NfaModel)
    requires
        model_ok(m),
        m.frags.len() >= 2,
    ensures
        model_ok(alternation_step(m)),
        alternation_step(m).trans.len() == m.trans.len() + 2,
        alternation_step(m).lists.len() == m.lists.len() + 2,
        lists_end(alternation_step(m).lists) == lists_end(m.lists) + 11,
{
    let f = m.frags.len() as int;
    let right = m.frags[f - 1];
    let left = m.frags[f - 2];
    let end = (m.counter + 1) as u16;
    let l0 = m.lists.push(seq![left.0, right.0]);
    let l1 = set_first(l0, left.1 as int, end);
    let l2 = set_first(l1, right.1 as int, end);
    let m2 = alternation_step(m);
    lemma_lists_push(m.lists, seq![left.0, right.0]);
    lemma_lists_update(l0, left.1 as int, l0[left.1 as int].update(0, end));
    lemma_lists_update(l1, right.1 as int, l1[right.1 as int].update(0, end));
    lemma_lists_push(l2, seq![0u16]);
    assert forall|i: int| 0 <= i < m2.frags.len() implies 2 <= (#[trigger] m2.frags[i]).1 < m2.lists.len()
        && m2.lists[m2.frags[i].1 as int].len() == 1 by {
        if i < f - 2 {
            assert(m2.frags[i] == m.frags[i]);
        }
    }
}

/// The construction only adds transitions and words, and keeps what every state keeps.
proof fn lemma_run_grows(s: Seq<u8>, pos: int, m: NfaModel)
    requires
        model_ok(m),
        run(s, pos, m) is Some,
    ensures
        model_ok(run(s, pos, m)->Some_0),
        m.trans.len() <= run(s, pos, m)->Some_0.trans.len(),
        lists_end(m.lists) <= lists_end(run(s, pos, m)->Some_0.lists),
    decreases s.len() - pos,
{
    if 0 <= pos < s.len() && s[pos] == 108 {
        lemma_literal_step(s, pos, m);
        lemma_run_grows(s, pos + 2 + literal_count(s[pos + 1]), literal_step(s, pos, m));
    } else if 0 <= pos < s.len() && s[pos] == 124 {
        lemma_alternation_step(m);
        lemma_run_grows(s, pos + 1, alternation_step(m));
    }
}

/// A literal's transitions leave the states in the order of their indices, each on one byte or
/// on none.
proof fn lemma_literal_numbered(s: Seq<u8>, pos: int, m: NfaModel)
    requires
        model_ok(m),
        literal_ok(s, pos),
        numbered(m.trans),
        ranges_wf(m.trans),
        literal_step(s, pos, m).trans.len() <= 65536,
    ensures
        numbered(literal_step(s, pos, m).trans),
        ranges_wf(literal_step(s, pos, m).trans),
{
    let c = literal_count(s[pos + 1]);
    let t = m.trans;
    let n = t.len() as int;
    let first = n + 1;
    let lists1 = m.lists.push(seq![first as u16]);
    let x = encode(n as u16, (0, 0), lists_end(m.lists) as u16, 2);
    let y = encode((first + c) as u16, (0, 0), lists_end(lists1) as u16, 0);
    let chain = literal_trans(s, pos + 2, first, c);
    let t2 = literal_step(s, pos, m).trans;
    assert(t2 == (t.push(x) + chain).push(y));
    assert(chain.len() == c);
    lemma_decode_encode(n as u16, (0, 0), lists_end(m.lists) as u16, 2);
    lemma_decode_encode((first + c) as u16, (0, 0), lists_end(lists1) as u16, 0);
    assert forall|i: int| 0 <= i < t2.len() implies decode(#[trigger] t2[i]).0 == i && decode(t2[i]).1.0 <= decode(
        t2[i],
    ).1.1 by {
        if i < n {
            assert(t2[i] == t[i]);
        } else if i == n {
            assert(t2[i] == x);
        } else if i < first + c {
            let j = i - first;
            assert(t2[i] == chain[j]);
            lemma_decode_encode(
                (first + j) as u16,
                (s[pos + 2 + j], s[pos + 2 + j]),
                (first + j + 1) as u16,
                2,
            );
        } else {
            assert(t2[i] == y);
        }
    }
}

/// An alternation's transitions leave its two fresh states, on no byte.
proof fn lemma_alternation_numbered(m: NfaModel)
    requires
        model_ok(m),
        m.frags.len() >= 2,
        numbered(m.trans),
        ranges_wf(m.trans),
        alternation_step(m).trans.len() <= 65536,
    ensures
        numbered(alternation_step(m).trans),
        ranges_wf(alternation_step(m).trans),
{
    let t = m.trans;
    let n = t.len() as int;
    let t2 = alternation_step(m).trans;
    let f = m.frags.len() as int;
    let right = m.frags[f - 1];
    let left = m.frags[f - 2];
    let lists1 = set_first(
        set_first(m.lists.push(seq![left.0, right.0]), left.1 as int, (n + 1) as u16),
        right.1 as int,
        (n + 1) as u16,
    );
    lemma_decode_encode(n as u16, (0, 0), lists_end(m.lists) as u16, 0);
    lemma_decode_encode((n + 1) as u16, (0, 0), lists_end(lists1) as u16, 0);
    assert forall|i: int| 0 <= i < t2.len() implies decode(#[trigger] t2[i]).0 == i && decode(t2[i]).1.0 <= decode(
        t2[i],
    ).1.1 by {
        if i < n {
            assert(t2[i] == t[i]);
        }
    }
}

/// Whether the lists and the fragments on the stack name only states handed out already.
pub open spec fn states_ok(m: NfaModel) -> bool {
    &&& lists_below(m.lists, m.counter as int)
    &&& forall|i: int| 0 <= i < m.frags.len() ==> (#[trigger] m.frags[i]).0 < m.counter
}

/// A literal and an alternation name only states handed out.
proof fn lemma_step_states(s: Seq<u8>, pos: int, m: NfaModel)
    requires
        model_ok(m),
        states_ok(m),
        0 <= pos < s.len(),
        run(s, pos, m) is Some,
        run(s, pos, m)->Some_0.trans.len() <= 65536,
    ensures
        s[pos] == 108 ==> states_ok(literal_step(s, pos, m)),
        s[pos] == 124 ==> states_ok(alternation_step(m)),
{
    let n = m.counter as int;
    if s[pos] == 108 {
        let m2 = literal_step(s, pos, m);
        lemma_literal_step(s, pos, m);
        lemma_run_grows(s, pos + 2 + literal_count(s[pos + 1]), m2);
        let lists1 = m.lists.push(seq![(n + 1) as u16]);
        lemma_below_push(m.lists, seq![(n + 1) as u16], n, m2.counter as int);
        lemma_below_push(lists1, seq![0u16], m2.counter as int, m2.counter as int);
        assert forall|i: int| 0 <= i < m2.frags.len() implies (#[trigger] m2.frags[i]).0 < m2.counter by {
            if i < m.frags.len() {
                assert(m2.frags[i] == m.frags[i]);
            }
        }
    } else if s[pos] == 124 {
        let m2 = alternation_step(m);
        lemma_alternation_step(m);
        lemma_run_grows(s, pos + 1, m2);
        let f = m.frags.len() as int;
        let right = m.frags[f - 1];
        let left = m.frags[f - 2];
        let end = (n + 1) as u16;
        let l0 = m.lists.push(seq![left.0, right.0]);
        let l1 = set_first(l0, left.1 as int, end);
        lemma_below_push(m.lists, seq![left.0, right.0], n, n + 2);
        assert(l0[left.1 as int] == m.lists[left.1 as int]);
        lemma_below_first(l0, left.1 as int, end, n + 2);
        assert(l1[right.1 as int].len() >= 1);
        lemma_below_first(l1, right.1 as int, end, n + 2);
        lemma_below_push(set_first(l1, right.1 as int, end), seq![0u16], n + 2, n + 2);
        assert forall|i: int| 0 <= i < m2.frags.len() implies (#[trigger] m2.frags[i]).0 < m2.counter by {
            if i < f - 2 {
                assert(m2.frags[i] == m.frags[i]);
            }
        }
    }
}

/// Every transition that the construction adds leaves the state of its index, on one byte or on
/// none, and every list names states handed out.
proof fn lemma_run_numbered(s: Seq<u8>, pos: int, m: NfaModel)
    requires
        model_ok(m),
        run(s, pos, m) is Some,
        numbered(m.trans),
        ranges_wf(m.trans),
        states_ok(m),
        run(s, pos, m)->Some_0.trans.len() <= 65536,
    ensures
        numbered(run(s, pos, m)->Some_0.trans),
        ranges_wf(run(s, pos, m)->Some_0.trans),
        states_ok(run(s, pos, m)->Some_0),
    decreases s.len() - pos,
{
    if 0 <= pos < s.len() && s[pos] == 108 {
        let m2 = literal_step(s, pos, m);
        lemma_literal_step(s, pos, m);
        lemma_run_grows(s, pos + 2 + literal_count(s[pos + 1]), m2);
        lemma_literal_numbered(s, pos, m);
        lemma_step_states(s, pos, m);
        lemma_run_numbered(s, pos + 2 + literal_count(s[pos + 1]), m2);
    } else if 0 <= pos < s.len() && s[pos] == 124 {
        let m2 = alternation_step(m);
        lemma_alternation_step(m);
        lemma_run_grows(s, pos + 1, m2);
        lemma_alternation_numbered(m);
        lemma_step_states(s, pos, m);
        lemma_run_numbered(s, pos + 1, m2);
    }
}

/// A nondeterministic automaton: transitions between states, where a transition on no byte leads
/// to an epsilon list of further states.
pub struct NFA {
    counter: u16,
    transitions: Graph<B4096, GuardSegfault>,
    epsilons: Collection<B4096, GuardSegfault>,
}

impl NFA {
    pub closed spec fn spec_counter(&self) -> u16 {
        self.counter
    }

    /// The transitions, one word each.
    pub closed spec fn graph(&self) -> Graph<B4096, GuardSegfault> {
        self.transitions
    }

    /// The epsilon lists.
    pub closed spec fn lists(&self) -> Collection<B4096, GuardSegfault> {
        self.epsilons
    }

    /// The transitions in use.
    pub open spec fn transitions(&self) -> Seq<u64> {
        self.graph().entries()
    }

    /// Both heaps are sound and have the sizes that `new` gives them.
    pub open spec fn wf(&self) -> bool {
        &&& self.graph().wf()
        &&& self.graph().heap().cap() == 512
        &&& self.lists().wf()
        &&& self.lists().heap().cap() == 2048
    }

    /// Whether the epsilon lists, from offset 0 on, are `lists`.
    pub open spec fn holds(&self, lists: Seq<Seq<u16>>) -> bool {
        &&& self.lists().spec_count() == lists.len()
        &&& laid_out(self.lists().words(), lists)
    }

    /// An automaton with no transitions and no lists, over two fresh blocks of the allocator;
    /// `None` only when the allocator has run out of room.
    pub fn new(allocator: &mut Naive64Pages) -> (r: Option<Self>)
        ensures
            match r {
                Some(nfa) => {
                    &&& nfa.wf()
                    &&& nfa.spec_counter() == 0
                    &&& nfa.graph().spec_count() == 0
                    &&& nfa.lists().spec_count() == 0
                    &&& nfa.lists().spec_head() == 0
                    &&& nfa.lists().spec_tail() == 0
                    &&& nfa.graph().words() == Seq::new(512, |i: int| 0u64)
                    &&& nfa.lists().words() == Seq::new(2048, |i: int| 0u16)
                },
                None => !has_room(final(allocator).spec_bitmap(), 1),
            },
    {
        let transitions: Graph<B4096, GuardSegfault> = match Graph::new(allocator) {
            None => return None,
            Some(graph) => graph,
        };
        let epsilons: Collection<B4096, GuardSegfault> = match Collection::new(allocator) {
            None => return None,
            Some(lists) => lists,
        };
        Some(NFA::from(transitions, epsilons))
    }

    fn from(transitions: Graph<B4096, GuardSegfault>, epsilons: Collection<B4096, GuardSegfault>) -> (r: Self)
        ensures
            r.spec_counter() == 0,
            r.graph() == transitions,
            r.lists() == epsilons,
    {
        NFA { counter: 0, transitions, epsilons }
    }

    /// Hands out the next state number, wrapping around after the largest.
    pub fn next(&mut self) -> (r: u16)
        ensures
            r == old(self).spec_counter(),
            final(self).spec_counter() == vstd::wrapping::u16_specs::wrapping_add(old(self).spec_counter(), 1),
            final(self).graph() == old(self).graph(),
            final(self).lists() == old(self).lists(),
    {
        self.counter = self.counter.wrapping_add(1);
        self.counter.wrapping_sub(1)
    }

    pub fn transition_count(&self) -> (r: u16)
        ensures
            r == self.graph().spec_count(),
    {
        self.transitions.graph_count()
    }

    /// The transition at `idx`: `(src, (via.0, via.1), dst, meta)`.
    pub fn transition_at(&self, idx: u16) -> (r: (u16, (u8, u8), u16, u16))
        requires
            self.wf(),
            idx < 512,
        ensures
            r == decode(self.graph().words()[idx as int]),
    {
        self.transitions.graph_at(idx)
    }

    /// The destination and metadata of a transition from `src` whose byte range holds `via`; the
    /// search reads the word after the transitions, so one must be left.
    pub fn transition_find(&self, src: u16, via: u8) -> (r: Option<(u16, u16)>)
        requires
            self.wf(),
            self.graph().spec_count() < 512,
        ensures
            self.graph().find_result(src, via, r),
    {
        self.transitions.graph_find(src, via)
    }

    /// The first and last index of the run of transitions from `src`; the search reads the word
    /// after the transitions, so one must be left.
    pub fn transition_find_all(&self, src: u16) -> (r: Option<(u16, u16)>)
        requires
            self.wf(),
            self.graph().spec_count() < 512,
        ensures
            self.graph().find_all_result(src, r),
    {
        self.transitions.graph_find_all(src)
    }

    /// Takes the next transition slot; returns its index.
    pub fn transition_inc(&mut self) -> (r: u16)
        requires
            old(self).wf(),
            old(self).graph().spec_count() < 512,
        ensures
            final(self).wf(),
            r == old(self).graph().spec_count(),
            final(self).graph().spec_count() == old(self).graph().spec_count() + 1,
            final(self).graph().words() == old(self).graph().words(),
            final(self).lists() == old(self).lists(),
            final(self).spec_counter() == old(self).spec_counter(),
    {
        self.transitions.graph_inc()
    }

    /// Appends a transition.
    pub fn transition_add(&mut self, src: u16, via: (u8, u8), dst: u16, metadata: u16)
        requires
            old(self).wf(),
            old(self).graph().spec_count() < 512,
        ensures
            final(self).wf(),
            final(self).graph().spec_count() == old(self).graph().spec_count() + 1,
            final(self).graph().words() == old(self).graph().words().update(
                old(self).graph().spec_count(),
                encode(src, via, dst, metadata),
            ),
            final(self).lists() == old(self).lists(),
            final(self).spec_counter() == old(self).spec_counter(),
    {
        self.transitions.graph_add(src, via, dst, metadata);
    }

    /// Writes the transition at `idx`.
    pub fn transition_set(&mut self, idx: u16, src: u16, via: (u8, u8), dst: u16, metadata: u16)
        requires
            old(self).wf(),
            idx < 512,
        ensures
            final(self).wf(),
            final(self).graph().spec_count() == old(self).graph().spec_count(),
            final(self).graph().words() == old(self).graph().words().update(
                idx as int,
                encode(src, via, dst, metadata),
            ),
            final(self).lists() == old(self).lists(),
            final(self).spec_counter() == old(self).spec_counter(),
    {
        self.transitions.graph_set(idx, src, via, dst, metadata);
    }

    /// Sorts the transitions in use by source, then by the start of their byte range.
    fn transition_sort(&mut self)
        requires
            old(self).wf(),
        ensures
            final(self).wf(),
            final(self).graph().spec_count() == old(self).graph().spec_count(),
            sorted_by_key(final(self).transitions()),
            final(self).transitions().to_multiset() == old(self).transitions().to_multiset(),
            final(self).lists() == old(self).lists(),
    {
        self.transitions.graph_sort();
    }

    /// Starts a new, empty epsilon list after the last one; returns its offset.
    pub fn epsilon_new(&mut self) -> (r: u16)
        requires
            old(self).wf(),
            old(self).lists().spec_count() < u16::MAX,
            old(self).lists().spec_count() > 0 ==> old(self).lists().ok(old(self).lists().spec_head()),
            old(self).lists().spec_count() > 0 ==> old(self).lists().spec_head() + old(self).lists().at(
                old(self).lists().spec_head(),
            ) + 4 <= u16::MAX,
            ({
                let c = old(self).lists();
                let nh = c.pushed_head();
                &&& c.ok(nh)
                &&& c.ok(nh + 3)
                &&& c.ok(c.spec_head() + 2)
                &&& c.ok(c.spec_tail() + 1)
            }),
        ensures
            ({
                let c = old(self).lists();
                let nh = c.pushed_head();
                let h0 = c.spec_head();
                let t = c.spec_tail();
                &&& r == nh
                &&& final(self).wf()
                &&& final(self).lists().spec_head() == nh
                &&& final(self).lists().spec_tail() == t
                &&& final(self).lists().spec_count() == c.spec_count() + 1
                &&& final(self).lists().words() == c.words().update(c.w(nh), 0u16).update(c.w(nh + 3), 0u16).update(
                    c.w(nh + 1),
                    h0 as u16,
                ).update(c.w(nh + 2), t as u16).update(c.w(h0 + 2), nh as u16).update(c.w(t + 1), nh as u16)
            }),
            final(self).graph() == old(self).graph(),
            final(self).spec_counter() == old(self).spec_counter(),
    {
        self.epsilons.list_push_head()
    }

    pub fn epsilon_count(&self) -> (r: u16)
        ensures
            r == self.lists().spec_count(),
    {
        self.epsilons.list_count()
    }

    /// Sets the number of items of the list at `idx`.
    pub fn epsilon_items_resize(&mut self, idx: u16, size: u16)
        requires
            old(self).wf(),
            idx < 2048,
        ensures
            final(self).wf(),
            final(self).lists().same_fields(&old(self).lists()),
            final(self).lists().words() == old(self).lists().words().update(idx as int, size),
            final(self).graph() == old(self).graph(),
            final(self).spec_counter() == old(self).spec_counter(),
    {
        self.epsilons.list_items_resize(idx, size)
    }

    /// Appends an item to the list at `idx`.
    pub fn epsilon_items_add(&mut self, idx: u16, item: u16)
        requires
            old(self).wf(),
            idx < 2048,
            old(self).lists().at(idx as int) < u16::MAX,
            idx + old(self).lists().at(idx as int) + 4 < 2048,
        ensures
            final(self).wf(),
            final(self).lists().same_fields(&old(self).lists()),
            final(self).lists().words() == old(self).lists().words().update(
                idx as int,
                (old(self).lists().at(idx as int) + 1) as u16,
            ).update(idx + old(self).lists().at(idx as int) + 4, item),
            final(self).graph() == old(self).graph(),
            final(self).spec_counter() == old(self).spec_counter(),
    {
        self.epsilons.list_items_add(idx, item)
    }

    /// Replaces item `off` of the list at `idx`.
    pub fn epsilon_items_set(&mut self, idx: u16, off: u16, item: u16)
        requires
            old(self).wf(),
            idx + off + 4 < 2048,
        ensures
            final(self).wf(),
            final(self).lists().same_fields(&old(self).lists()),
            final(self).lists().words() == old(self).lists().words().update(idx + off + 4, item),
            final(self).graph() == old(self).graph(),
            final(self).spec_counter() == old(self).spec_counter(),
    {
        self.epsilons.list_items_set(idx, off, item)
    }

    /// Item `off` of the list at `idx`.
    pub fn epsilon_items_get(&self, idx: u16, off: u16) -> (r: u16)
        requires
            self.wf(),
            idx + off + 4 < 2048,
        ensures
            r == self.lists().words()[idx + off + 4],
    {
        self.epsilons.list_items_get(idx, off)
    }

    /// Sorts the items of the list at `idx`.
    fn epsilon_items_sort(&mut self, idx: u16)
        requires
            old(self).wf(),
            old(self).lists().fits(idx as int, old(self).lists().at(idx as int) as int),
        ensures
            final(self).wf(),
            final(self).lists().same_fields(&old(self).lists()),
            sorted(final(self).lists().items(idx as int)),
            final(self).lists().items(idx as int).to_multiset() == old(self).lists().items(
                idx as int,
            ).to_multiset(),
            final(self).graph() == old(self).graph(),
    {
        self.epsilons.list_items_sort(idx)
    }

    /// Drops leading zeros and repeated items of the list at `idx`.
    fn epsilon_items_distinct(&mut self, idx: u16)
        requires
            old(self).wf(),
            old(self).lists().fits(idx as int, old(self).lists().at(idx as int) as int),
        ensures
            final(self).wf(),
            final(self).lists().same_fields(&old(self).lists()),
            final(self).lists().items(idx as int) == distinct(old(self).lists().items(idx as int)),
            final(self).graph() == old(self).graph(),
    {
        self.epsilons.list_items_distinct(idx)
    }

    /// The number of items of the list at `idx`.
    pub fn epsilon_items_count(&self, idx: u16) -> (r: u16)
        requires
            self.wf(),
            idx < 2048,
        ensures
            r == self.lists().words()[idx as int],
    {
        self.epsilons.list_items_count(idx)
    }
}


/// Builds an automaton from an expression in reverse Polish notation: literals become chains of
/// states, alternations join the two fragments on top of the stack.
pub struct Builder {
    counter: u16,
    transitions: Graph<B4096, GuardSegfault>,
    epsilons: Collection<B4096, GuardSegfault>,
    stack: Vec<u16>,
}

impl Builder {
    /// No state handed out, no transition, no list and no fragment yet, over fresh heaps.
    pub closed spec fn fresh(&self) -> bool {
        &&& self.counter == 0
        &&& self.transitions.wf()
        &&& self.transitions.heap().cap() == 512
        &&& self.transitions.spec_count() == 0
        &&& self.transitions.tail_clear()
        &&& self.epsilons.wf()
        &&& self.epsilons.heap().cap() == 2048
        &&& self.epsilons.spec_count() == 0
        &&& self.epsilons.spec_head() == 0
        &&& self.epsilons.spec_tail() == 0
        &&& self.epsilons.words() == Seq::new(2048, |i: int| 0u16)
        &&& self.stack@.len() == 0
    }

    /// The builder holds the state `m` of the construction.
    spec fn holds(&self, m: NfaModel) -> bool {
        &&& self.transitions.wf()
        &&& self.transitions.heap().cap() == 512
        &&& self.transitions.entries() == m.trans
        &&& self.transitions.tail_clear()
        &&& self.epsilons.wf()
        &&& self.epsilons.heap().cap() == 2048
        &&& self.epsilons.spec_count() == m.lists.len()
        &&& self.epsilons.spec_head() == list_off(m.lists, m.lists.len() - 1)
        &&& self.epsilons.spec_tail() == 0
        &&& laid_out(self.epsilons.words(), m.lists)
        &&& zero_from(self.epsilons.words(), lists_end(m.lists))
        &&& self.counter == m.counter
        &&& self.stack@.len() == 2 * m.frags.len()
        &&& forall|i: int|
            0 <= i < m.frags.len() ==> self.stack@[2 * i] == (#[trigger] m.frags[i]).0 && self.stack@[2 * i + 1]
                == list_off(m.lists, m.frags[i].1 as int)
    }

    /// A builder over two fresh blocks of the allocator; `None` only when the allocator has run out
    /// of room.
    pub fn new(allocator: &mut Naive64Pages) -> (r: Option<Self>)
        ensures
            match r {
                Some(b) => b.fresh(),
                None => !has_room(final(allocator).spec_bitmap(), 1),
            },
    {
        let transitions: Graph<B4096, GuardSegfault> = match Graph::new(allocator) {
            None => return None,
            Some(graph) => graph,
        };
        let epsilons: Collection<B4096, GuardSegfault> = match Collection::new(allocator) {
            None => return None,
            Some(lists) => lists,
        };
        Some(Builder { counter: 0, transitions, epsilons, stack: Vec::new() })
    }

    fn next(&mut self) -> (r: u16)
        requires
            old(self).counter < u16::MAX,
        ensures
            r == old(self).counter,
            final(self).counter == old(self).counter + 1,
            final(self).transitions == old(self).transitions,
            final(self).epsilons == old(self).epsilons,
            final(self).stack == old(self).stack,
    {
        self.counter = self.counter.wrapping_add(1);
        self.counter.wrapping_sub(1)
    }

    /// The literal token at `idx`; returns the offset after its bytes.
    #[verifier::spinoff_prover]
    #[verifier::rlimit(40)]
    fn literal(&mut self, rpn: &RPN, idx: u16, Ghost(m): Ghost<NfaModel>) -> (r: u16)
        requires
            old(self).holds(m),
            model_ok(m),
            rpn.bytes().len() <= u16::MAX,
            literal_ok(rpn.bytes(), idx as int),
            rpn.bytes()[idx as int] == 108,
            literal_step(rpn.bytes(), idx as int, m).trans.len() <= 512,
            lists_end(literal_step(rpn.bytes(), idx as int, m).lists) <= 2048,
        ensures
            final(self).holds(literal_step(rpn.bytes(), idx as int, m)),
            r == idx + 2 + literal_count(rpn.bytes()[idx + 1]),
    {
        let ghost s = rpn.bytes();
        let ghost c = literal_count(s[idx + 1]);
        let ghost m2 = literal_step(s, idx as int, m);
        let ghost n = m.lists.len() as int;
        proof {
            lemma_literal_step(s, idx as int, m);
            lemma_list_off_mono(m.lists, 0, n);
            lemma_list_off_mono(m.lists, n - 1, n);
            lemma_list_off_mono(m.lists, 0, n - 1);
        }
        let index = idx + 1;
        let count = rpn.at(index).wrapping_sub(48) as u16;
        assert(count == c);

        let zero_state = self.next();
        let first = self.next();
        let mut last = first;

        let ghost ws0 = self.epsilons.words();
        let zero_epsilons = self.epsilons.list_push_head();
        proof {
            lemma_push_list(ws0, m.lists, list_off(m.lists, n - 1));
        }
        let ghost l0 = m.lists.push(Seq::<u16>::empty());
        let ghost ws1 = self.epsilons.words();
        self.epsilons.list_items_add(zero_epsilons, first);
        let ghost l1 = l0.update(n, l0[n].push(first));
        proof {
            lemma_last_append(ws1, l0, first);
            assert(l1 =~= m.lists.push(seq![first]));
        }
        assert(zero_epsilons == lists_end(m.lists));
        let ghost trans0 = self.transitions.entries();
        let ghost ws_t = self.transitions.words();
        self.transitions.graph_add(zero_state, (0, 0), zero_epsilons, 0x02);
        proof {
            let x = encode(zero_state, (0, 0), lists_end(m.lists) as u16, 2);
            assert(self.transitions.entries().len() == trans0.len() + 1);
            assert(self.transitions.entries()[trans0.len() as int] == x);
            assert(self.transitions.entries() =~= trans0.push(x));
        }
        let ghost lits0 = self.transitions.entries();
        let ghost eps = self.epsilons;
        let ghost stack = self.stack;

        let mut j: u16 = index + 1;
        assert(index + count <= 65534);
        while j <= index + count
            invariant
                s == rpn.bytes(),
                s.len() <= u16::MAX,
                literal_ok(s, idx as int),
                m.counter == m.trans.len(),
                count == c,
                c == literal_count(s[idx + 1]),
                index == idx + 1,
                index + 1 <= j <= index + count + 1,
                first == m.counter + 1,
                last == first + (j - index - 1),
                self.counter == last + 1,
                m2.trans.len() == m.trans.len() + c + 2,
                m2.trans.len() <= 512,
                lits0.len() == m.trans.len() + 1,
                self.transitions.wf(),
                self.transitions.heap().cap() == 512,
                self.transitions.tail_clear(),
                self.transitions.entries() == lits0 + literal_trans(s, idx + 2, first as int, j - index - 1),
                self.epsilons == eps,
                self.stack == stack,
            decreases index + count + 1 - j,
        {
            let inside = j > 0;
            let val = rpn.at(j);
            let next = self.next();
            let meta: u16 = if inside { 0x02 } else { 0x00 };
            let ghost before = self.transitions.entries();
            assert(literal_trans(s, idx + 2, first as int, j - index - 1).len() == j - index - 1);
            assert(self.transitions.spec_count() == before.len());
            self.transitions.graph_add(last, (val, val), next, meta);
            proof {
                let k = j - index - 1;
                assert(literal_trans(s, idx + 2, first as int, k + 1) =~= literal_trans(s, idx + 2, first as int, k).push(
                    encode(last, (val, val), next, 2),
                ));
                assert(self.transitions.entries() =~= before.push(encode(last, (val, val), next, meta)));
            }
            last = next;
            j = j + 1;
        }

        let ghost ws2 = self.epsilons.words();
        let complete_epsilons = self.epsilons.list_push_head();
        proof {
            lemma_push_list(ws2, l1, list_off(l1, n));
        }
        let ghost l2 = l1.push(Seq::<u16>::empty());
        let ghost ws3 = self.epsilons.words();
        self.epsilons.list_items_resize(complete_epsilons, 1);
        proof {
            lemma_last_resize(ws3, l2);
            assert(l2.update(n + 1, seq![0u16]) =~= m2.lists);
        }
        let ghost trans1 = self.transitions.entries();
        self.transitions.graph_add(last, (0, 0), complete_epsilons, 0x00);
        proof {
            assert(self.transitions.entries() =~= trans1.push(encode(last, (0, 0), complete_epsilons, 0)));
            assert(self.transitions.entries() =~= m2.trans);
        }
        let ghost st0 = self.stack@;
        self.stack.push(zero_state);
        self.stack.push(complete_epsilons);
        proof {
            lemma_lists_push(m.lists, seq![first]);
            lemma_lists_push(l1, seq![0u16]);
            assert forall|i: int| 0 <= i < m2.frags.len() implies self.stack@[2 * i] == (#[trigger] m2.frags[i]).0
                && self.stack@[2 * i + 1] == list_off(m2.lists, m2.frags[i].1 as int) by {
                if i < m.frags.len() {
                    assert(m2.frags[i] == m.frags[i]);
                    assert(self.stack@[2 * i] == st0[2 * i]);
                    assert(self.stack@[2 * i + 1] == st0[2 * i + 1]);
                }
            }
        }
        index + count + 1
    }

    /// The alternation token: joins the two fragments on top of the stack.
    #[verifier::spinoff_prover]
    #[verifier::rlimit(40)]
    fn alternation(&mut self, Ghost(m): Ghost<NfaModel>)
        requires
            old(self).holds(m),
            model_ok(m),
            m.frags.len() >= 2,
            alternation_step(m).trans.len() <= 512,
            lists_end(alternation_step(m).lists) <= 2048,
        ensures
            final(self).holds(alternation_step(m)),
    {
        let ghost m2 = alternation_step(m);
        let ghost n = m.lists.len() as int;
        let ghost f = m.frags.len() as int;
        let ghost right = m.frags[f - 1];
        let ghost left = m.frags[f - 2];
        proof {
            lemma_alternation_step(m);
            lemma_list_off_mono(m.lists, 0, n);
            lemma_list_off_mono(m.lists, n - 1, n);
            lemma_list_off_mono(m.lists, 0, n - 1);
        }
        let ghost st0 = self.stack@;
        let right_last_epsilons = self.stack.pop().unwrap();
        let right_first_state = self.stack.pop().unwrap();
        let left_last_epsilons = self.stack.pop().unwrap();
        let left_first_state = self.stack.pop().unwrap();
        proof {
            assert(right_last_epsilons == st0[2 * (f - 1) + 1]);
            assert(right_first_state == st0[2 * (f - 1)]);
            assert(left_last_epsilons == st0[2 * (f - 2) + 1]);
            assert(left_first_state == st0[2 * (f - 2)]);
            assert(self.stack@ =~= st0.subrange(0, 2 * (f - 2)));
        }

        let start_state = self.next();
        let end_state = self.next();

        let ghost ws0 = self.epsilons.words();
        let start_epsilons = self.epsilons.list_push_head();
        proof {
            lemma_push_list(ws0, m.lists, list_off(m.lists, n - 1));
        }
        let ghost l0 = m.lists.push(Seq::<u16>::empty());
        let ghost ws1 = self.epsilons.words();
        self.epsilons.list_items_add(start_epsilons, left_first_state);
        let ghost l1 = l0.update(n, l0[n].push(left_first_state));
        proof {
            lemma_last_append(ws1, l0, left_first_state);
        }
        let ghost ws2 = self.epsilons.words();
        self.epsilons.list_items_add(start_epsilons, right_first_state);
        let ghost l2 = l1.update(n, l1[n].push(right_first_state));
        proof {
            lemma_last_append(ws2, l1, right_first_state);
            assert(l2[n] =~= seq![left.0, right.0]);
            assert(l2 =~= m.lists.push(seq![left.0, right.0]));
            lemma_list_off_mono(l2, left.1 + 1int, n + 1);
            lemma_list_off_mono(l2, right.1 + 1int, n + 1);
            lemma_lists_push(m.lists, seq![left.0, right.0]);
            assert(list_off(l2, left.1 as int) == left_last_epsilons);
            assert(list_off(l2, right.1 as int) == right_last_epsilons);
        }
        let ghost ws3 = self.epsilons.words();
        self.epsilons.list_items_set(left_last_epsilons, 0, end_state);
        let ghost l3 = set_first(l2, left.1 as int, end_state);
        proof {
            lemma_item_write(ws3, l2, left.1 as int, 0, end_state);
            lemma_lists_update(l2, left.1 as int, l2[left.1 as int].update(0, end_state));
        }
        let ghost ws4 = self.epsilons.words();
        self.epsilons.list_items_set(right_last_epsilons, 0, end_state);
        let ghost l4 = set_first(l3, right.1 as int, end_state);
        proof {
            lemma_item_write(ws4, l3, right.1 as int, 0, end_state);
            lemma_lists_update(l3, right.1 as int, l3[right.1 as int].update(0, end_state));
        }

        let ghost trans0 = self.transitions.entries();
        self.transitions.graph_add(start_state, (0, 0), start_epsilons, 0x00);
        proof {
            assert(self.transitions.entries() =~= trans0.push(encode(start_state, (0, 0), start_epsilons, 0)));
        }

        let ghost ws5 = self.epsilons.words();
        let end_epsilons = self.epsilons.list_push_head();
        proof {
            lemma_push_list(ws5, l4, list_off(l4, n));
        }
        let ghost trans1 = self.transitions.entries();
        self.transitions.graph_add(end_state, (0, 0), end_epsilons, 0x00);
        proof {
            assert(self.transitions.entries() =~= trans1.push(encode(end_state, (0, 0), end_epsilons, 0)));
            assert(self.transitions.entries() =~= m2.trans);
        }
        let ghost l5 = l4.push(Seq::<u16>::empty());
        let ghost ws6 = self.epsilons.words();
        self.epsilons.list_items_resize(end_epsilons, 1);
        proof {
            lemma_last_resize(ws6, l5);
            assert(l5.update(n + 1, seq![0u16]) =~= m2.lists);
        }

        let ghost st1 = self.stack@;
        self.stack.push(start_state);
        self.stack.push(end_epsilons);
        proof {
            lemma_lists_push(l4, seq![0u16]);
            assert forall|i: int| 0 <= i < m2.frags.len() implies self.stack@[2 * i] == (#[trigger] m2.frags[i]).0
                && self.stack@[2 * i + 1] == list_off(m2.lists, m2.frags[i].1 as int) by {
                if i < f - 2 {
                    assert(m2.frags[i] == m.frags[i]);
                    assert(self.stack@[2 * i] == st0[2 * i]);
                    assert(self.stack@[2 * i + 1] == st0[2 * i + 1]);
                    assert(list_off(l4, m.frags[i].1 as int) == list_off(m.lists, m.frags[i].1 as int));
                }
            }
        }
    }

    /// Builds the automaton of `rpn`: state 0 leads through list 0 to the first state of the
    /// whole expression, whose last list leads to the end state 1.
    pub fn build(self, rpn: RPN) -> (r: Option<NFA>)
        requires
            self.fresh(),
            rpn_ok(rpn.bytes()),
        ensures
            match r {
                Some(nfa) => {
                    &&& nfa.wf()
                    &&& nfa.spec_counter() == 0
                    &&& nfa.transitions() == nfa_transitions(rpn.bytes())
                    &&& nfa.holds(nfa_lists(rpn.bytes()))
                    &&& numbered(nfa.transitions())
                    &&& lists_below(nfa_lists(rpn.bytes()), nfa.transitions().len() as int)
                    &&& nfa.graph().ranges_sorted()
                    &&& nfa.graph().tail_clear()
                },
                None => false,
            },
    {
        let mut b = self;
        let ghost s = rpn.bytes();
        let mut idx: u16 = 0;

        let start_state = b.next();
        let end_state = b.next();

        let start_entry = b.transitions.graph_inc();
        let end_entry = b.transitions.graph_inc();

        let ghost ws0 = b.epsilons.words();
        let start_epsilons = b.epsilons.list_push_head();
        proof {
            lemma_push_list(ws0, Seq::<Seq<u16>>::empty(), 0);
        }
        let ghost l0 = Seq::<Seq<u16>>::empty().push(Seq::<u16>::empty());
        let ghost ws1 = b.epsilons.words();
        b.epsilons.list_items_resize(start_epsilons, 1);
        proof {
            lemma_last_resize(ws1, l0);
        }
        let ghost l1 = l0.update(0, seq![0u16]);
        let ghost ws2 = b.epsilons.words();
        let end_epsilons = b.epsilons.list_push_head();
        proof {
            lemma_push_list(ws2, l1, 0);
        }
        let ghost ws_t = b.transitions.words();
        b.transitions.graph_set(end_entry, end_state, (0, 0), end_epsilons, 0x00);
        b.transitions.graph_set(start_entry, start_state, (0, 0), start_epsilons, 0x00);

        let ghost mut m = model_init();
        proof {
            assert(l1.push(Seq::<u16>::empty()) =~= m.lists);
            assert(b.transitions.entries() =~= m.trans);
            lemma_run_grows(s, 0, m);
        }

        while idx < rpn.size()
            invariant
                s == rpn.bytes(),
                rpn_ok(s),
                0 <= idx <= s.len(),
                run(s, idx as int, m) == run(s, 0, model_init()),
                model_ok(m),
                b.holds(m),
                start_epsilons == 0,
                end_state == 1,
            ensures
                run(s, idx as int, m) == Some(m),
            decreases s.len() - idx,
        {
            let byte = rpn.at(idx);
            if byte == 108 {
                proof {
                    let m2 = literal_step(s, idx as int, m);
                    lemma_literal_step(s, idx as int, m);
                    lemma_run_grows(s, idx + 2 + literal_count(s[idx + 1]), m2);
                }
                let next = b.literal(&rpn, idx, Ghost(m));
                proof {
                    m = literal_step(s, idx as int, m);
                }
                idx = next;
            } else if byte == 124 {
                proof {
                    let m2 = alternation_step(m);
                    lemma_alternation_step(m);
                    lemma_run_grows(s, idx + 1, m2);
                }
                b.alternation(Ghost(m));
                proof {
                    m = alternation_step(m);
                }
                idx = idx + 1;
            } else {
                break;
            }
        }

        proof {
            let m0 = model_init();
            lemma_decode_encode(0, (0, 0), 0, 0);
            lemma_decode_encode(1, (0, 0), 5, 0);
            assert(m0.trans[0] == encode(0, (0, 0), 0, 0));
            assert(m0.trans[1] == encode(1, (0, 0), 5, 0));
            assert(lists_below(m0.lists, 2)) by {
                assert(m0.lists[0] == seq![0u16]);
            }
            lemma_run_numbered(s, 0, m0);
            b.transitions.lemma_numbered_sorted();
            lemma_run_grows(s, 0, m0);
            let fm = final_model(s);
            let fl = fm.frags[fm.frags.len() - 1];
            assert(fl.0 < fm.counter);
            lemma_below_first(fm.lists, 0, fl.0, fm.counter as int);
            let l1 = set_first(fm.lists, 0, fl.0);
            assert(l1[fl.1 as int] == fm.lists[fl.1 as int]);
            lemma_below_first(l1, fl.1 as int, 1, fm.counter as int);
        }
        let ghost f = m.frags.len() as int;
        let ghost last = m.frags[f - 1];
        let ghost st0 = b.stack@;
        let last_epsilons = b.stack.pop().unwrap();
        let first_state = b.stack.pop().unwrap();
        proof {
            assert(last_epsilons == st0[2 * (f - 1) + 1]);
            assert(first_state == st0[2 * (f - 1)]);
            lemma_list_off_mono(m.lists, 0, m.lists.len() as int);
            lemma_list_off_mono(m.lists, 1, m.lists.len() as int);
            lemma_list_off_mono(m.lists, last.1 + 1int, m.lists.len() as int);
        }
        let ghost ws3 = b.epsilons.words();
        b.epsilons.list_items_set(start_epsilons, 0, first_state);
        let ghost l2 = set_first(m.lists, 0, first_state);
        proof {
            lemma_item_write(ws3, m.lists, 0, 0, first_state);
            lemma_lists_update(m.lists, 0, m.lists[0].update(0, first_state));
        }
        let ghost ws4 = b.epsilons.words();
        b.epsilons.list_items_set(last_epsilons, 0, end_state);
        proof {
            lemma_item_write(ws4, l2, last.1 as int, 0, end_state);
        }

        Some(NFA::from(b.transitions, b.epsilons))
    }
}

} // verus!
