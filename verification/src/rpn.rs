use vstd::prelude::*;

use crate::lexer::Tokenizer;
use crate::regex::lexer::{class_token, group_token, lemma_group_token, terminated};

verus! {

/// A regular expression in reverse Polish notation: `l` and a digit introduce that many literal
/// bytes, `-` (or `!` for a negated class) two bytes of a range, and `&`, `|`, `+`, `?` are the
/// operators.
pub struct RPN {
    elements: Vec<u8>,
}

/// Where the builder is in the expression.
pub enum BuilderState {
    Completed,
    InGroups { concatenation: bool },
    InClasses { alternation: bool, negation: bool },
}

/// The byte that remembers, under an opening bracket, whether what came before it is concatenated
/// with the group.
pub open spec fn flag(concatenation: bool) -> u8 {
    if concatenation {
        1
    } else {
        0
    }
}

/// Moves the pending `*`, `+`, `?` and `&` operators from the top of the operator stack to the
/// output, up to the first other operator.
pub open spec fn pop_quants(el: Seq<u8>, ops: Seq<u8>) -> (Seq<u8>, Seq<u8>)
    decreases ops.len(),
{
    if ops.len() == 0 {
        (el, ops)
    } else {
        let v = ops.last();
        if v == 42 || v == 43 || v == 63 || v == 38 {
            pop_quants(el.push(v), ops.drop_last())
        } else {
            (el, ops)
        }
    }
}

/// Closes a group: moves the operators above the last `(` to the output, drops the `(` and the
/// flag under it, and tells the flag.
pub open spec fn pop_group(el: Seq<u8>, ops: Seq<u8>) -> (Seq<u8>, Seq<u8>, bool)
    decreases ops.len(),
{
    if ops.len() == 0 {
        (el, ops, false)
    } else {
        let v = ops.last();
        let rest = ops.drop_last();
        if v == 40 {
            (el, rest.drop_last(), rest.last() == 1)
        } else {
            pop_group(el.push(v), rest)
        }
    }
}

/// Closes a class: moves the operators above the last `[` to the output and drops the `[`.
pub open spec fn pop_class(el: Seq<u8>, ops: Seq<u8>) -> (Seq<u8>, Seq<u8>)
    decreases ops.len(),
{
    if ops.len() == 0 {
        (el, ops)
    } else {
        let v = ops.last();
        if v == 91 {
            (el, ops.drop_last())
        } else {
            pop_class(el.push(v), ops.drop_last())
        }
    }
}

/// One token read in a group: the next state, the output, the operators, and the next position.
pub open spec fn group_step(s: Seq<u8>, pos: int, concatenation: bool, el: Seq<u8>, ops: Seq<u8>) -> (
    BuilderState,
    Seq<u8>,
    Seq<u8>,
    int,
) {
    match group_token(s, pos, false) {
        None => (BuilderState::Completed, el, ops, pos),
        Some(len) => {
            let c = s[pos];
            let next = pos + len;
            if c == 40 {
                (BuilderState::InGroups { concatenation: false }, el, ops.push(flag(concatenation)).push(40), next)
            } else if c == 43 || c == 63 {
                (BuilderState::InGroups { concatenation }, el.push(c), ops, next)
            } else if c == 42 {
                (BuilderState::InGroups { concatenation }, el.push(43).push(63), ops, next)
            } else if c == 91 {
                (
                    BuilderState::InClasses { alternation: false, negation: false },
                    el,
                    ops.push(flag(concatenation)).push(91),
                    next,
                )
            } else if c == 124 {
                let (el2, ops2) = pop_quants(el, ops);
                (BuilderState::InGroups { concatenation: false }, el2, ops2.push(124), next)
            } else if c == 41 {
                let (el2, ops2, c2) = pop_group(el, ops);
                (
                    BuilderState::InGroups { concatenation: true },
                    el2,
                    if c2 {
                        ops2.push(38)
                    } else {
                        ops2
                    },
                    next,
                )
            } else {
                (
                    BuilderState::InGroups { concatenation: true },
                    el.push(108).push((48 + len) as u8) + s.subrange(pos, next),
                    if concatenation {
                        ops.push(38)
                    } else {
                        ops
                    },
                    next,
                )
            }
        },
    }
}

/// One token read in a class: the next state, the output, the operators, and the next position.
pub open spec fn class_step(
    s: Seq<u8>,
    pos: int,
    alternation: bool,
    negation: bool,
    el: Seq<u8>,
    ops: Seq<u8>,
) -> (BuilderState, Seq<u8>, Seq<u8>, int) {
    let (from, to, adv) = class_token(s, pos);
    let next = pos + adv;
    if from == 0 {
        (BuilderState::Completed, el, ops, next)
    } else if from == 94 {
        (BuilderState::InClasses { alternation, negation: true }, el, ops, next)
    } else if from == 93 {
        let (el2, ops2) = pop_class(el, ops);
        (BuilderState::InGroups { concatenation: ops2.last() == 1 }, el2, ops2.drop_last(), next)
    } else {
        let el2 = el.push(if negation { 33u8 } else { 45u8 }).push(from).push(to);
        (
            BuilderState::InClasses { alternation: true, negation },
            if alternation {
                el2.push(124)
            } else {
                el2
            },
            ops,
            next,
        )
    }
}

/// Whether the class token at `pos` is a range: neither the end of input, `^` nor `]`.
pub open spec fn range_at(s: Seq<u8>, pos: int) -> bool {
    let from = class_token(s, pos).0;
    from != 0 && from != 94 && from != 93
}

/// Whether the next `n` tokens of a class from `pos` on are all ranges.
pub open spec fn ranges_ahead(s: Seq<u8>, pos: int, n: nat) -> bool
    decreases n,
{
    n == 0 || (range_at(s, pos) && ranges_ahead(s, pos + class_token(s, pos).2, (n - 1) as nat))
}

/// The state, output, operators and position after `n` steps in a class, stopping early where a
/// step leaves the class.
pub open spec fn class_steps(
    s: Seq<u8>,
    pos: int,
    alternation: bool,
    negation: bool,
    el: Seq<u8>,
    ops: Seq<u8>,
    n: nat,
) -> (BuilderState, Seq<u8>, Seq<u8>, int)
    decreases n,
{
    if n == 0 {
        (BuilderState::InClasses { alternation, negation }, el, ops, pos)
    } else {
        let (st, el2, ops2, p2) = class_step(s, pos, alternation, negation, el, ops);
        match st {
            BuilderState::InClasses { alternation: a, negation: g } => class_steps(s, p2, a, g, el2, ops2, (n - 1) as nat),
            _ => (st, el2, ops2, p2),
        }
    }
}

/// Reading a range in a class keeps the builder in the class with the same negation and
/// operators, now joining ranges: the output gains the range (`-`, or `!` in a negated class, and
/// its two ends) followed by `|` exactly when a range came before it in the class.
pub proof fn lemma_class_range(
    s: Seq<u8>,
    pos: int,
    alternation: bool,
    negation: bool,
    el: Seq<u8>,
    ops: Seq<u8>,
)
    requires
        range_at(s, pos),
    ensures
        ({
            let (st, el2, ops2, next) = class_step(s, pos, alternation, negation, el, ops);
            let (from, to, adv) = class_token(s, pos);
            &&& st == BuilderState::InClasses { alternation: true, negation }
            &&& ops2 == ops
            &&& next == pos + adv
            &&& el2 == el + seq![if negation { 33u8 } else { 45u8 }, from, to] + if alternation {
                seq![124u8]
            } else {
                Seq::<u8>::empty()
            }
        }),
{
    let (from, to, adv) = class_token(s, pos);
    let d: u8 = if negation { 33u8 } else { 45u8 };
    if alternation {
        assert(el.push(d).push(from).push(to).push(124) =~= el + seq![d, from, to] + seq![124u8]);
    } else {
        assert(el.push(d).push(from).push(to) =~= el + seq![d, from, to] + Seq::<u8>::empty());
    }
}

/// Of two ranges read one after the other in a class, whatever came before, the second one is
/// always followed by `|`: the output grows by its three bytes and the `|`.
pub proof fn lemma_class_ranges_joined(
    s: Seq<u8>,
    pos: int,
    alternation: bool,
    negation: bool,
    el: Seq<u8>,
    ops: Seq<u8>,
)
    requires
        range_at(s, pos),
        range_at(s, class_step(s, pos, alternation, negation, el, ops).3),
    ensures
        ({
            let (st, el1, ops1, p1) = class_step(s, pos, alternation, negation, el, ops);
            match st {
                BuilderState::InClasses { alternation: a, negation: g } => {
                    let el2 = class_step(s, p1, a, g, el1, ops1).1;
                    el2.len() == el1.len() + 4 && el2.last() == 124
                },
                _ => false,
            }
        }),
{
    lemma_class_range(s, pos, alternation, negation, el, ops);
    let (st, el1, ops1, p1) = class_step(s, pos, alternation, negation, el, ops);
    lemma_class_range(s, p1, true, negation, el1, ops1);
}

/// Reading `n >= 1` ranges in a row in a class emits each range and one `|` for every range but
/// the first of the class: `n - 1` of them where the class had no range yet, `n` where it had,
/// so the output grows by `4 * n - 1` or `4 * n` bytes; the operators stay and the builder ends
/// in the class, joining ranges.
pub proof fn lemma_class_ranges(
    s: Seq<u8>,
    pos: int,
    alternation: bool,
    negation: bool,
    el: Seq<u8>,
    ops: Seq<u8>,
    n: nat,
)
    requires
        n >= 1,
        ranges_ahead(s, pos, n),
    ensures
        ({
            let (st, el2, ops2, next) = class_steps(s, pos, alternation, negation, el, ops, n);
            &&& st == BuilderState::InClasses { alternation: true, negation }
            &&& ops2 == ops
            &&& el2.len() == el.len() + 4 * n - if alternation { 0int } else { 1int }
        }),
    decreases n,
{
    lemma_class_range(s, pos, alternation, negation, el, ops);
    let (st, el1, ops1, p1) = class_step(s, pos, alternation, negation, el, ops);
    assert(st == BuilderState::InClasses { alternation: true, negation });
    assert(el1.len() == el.len() + 3 + if alternation { 1int } else { 0int });
    assert(class_steps(s, pos, alternation, negation, el, ops, n) == class_steps(
        s,
        p1,
        true,
        negation,
        el1,
        ops1,
        (n - 1) as nat,
    ));
    if n > 1 {
        assert(ranges_ahead(s, p1, (n - 1) as nat));
        lemma_class_ranges(s, p1, true, negation, el1, ops1, (n - 1) as nat);
    }
}

/// The output and operators after reading the expression from `pos` on in state `st`.
pub open spec fn run(s: Seq<u8>, pos: int, st: BuilderState, el: Seq<u8>, ops: Seq<u8>) -> (Seq<u8>, Seq<u8>)
    decreases s.len() - pos,
{
    if pos < 0 || pos >= s.len() {
        (el, ops)
    } else {
        let (st2, el2, ops2, p2) = match st {
            BuilderState::Completed => (BuilderState::Completed, el, ops, pos),
            BuilderState::InGroups { concatenation } => group_step(s, pos, concatenation, el, ops),
            BuilderState::InClasses { alternation, negation } => class_step(s, pos, alternation, negation, el, ops),
        };
        if st2 is Completed || p2 <= pos || p2 > s.len() {
            (el2, ops2)
        } else {
            run(s, p2, st2, el2, ops2)
        }
    }
}

/// The reverse Polish notation of the zero-terminated expression `s`: what the token rules emit,
/// followed by the operators left on the stack, top first.
pub open spec fn rpn_of(s: Seq<u8>) -> Seq<u8> {
    let (el, ops) = run(s, 0, BuilderState::InGroups { concatenation: false }, Seq::empty(), Seq::empty());
    el + ops.reverse()
}

/// Every opening bracket on the operator stack sits on a flag.
pub open spec fn nested(ops: Seq<u8>) -> bool {
    forall|i: int| 0 <= i < ops.len() && (ops[i] == 40 || ops[i] == 91) ==> i >= 1
}

/// What the builder knows of its operator stack in each state.
pub open spec fn state_ok(st: BuilderState, ops: Seq<u8>) -> bool {
    &&& nested(ops)
    &&& st is InClasses ==> ops.len() >= 2 && ops.last() == 91
}

struct Builder {
    elements: Vec<u8>,
    operators: Vec<u8>,
}

impl Builder {
    fn new() -> (r: Self)
        ensures
            r.elements@ == Seq::<u8>::empty(),
            r.operators@ == Seq::<u8>::empty(),
    {
        Builder { elements: Vec::new(), operators: Vec::new() }
    }

    fn pop_quants(&mut self)
        ensures
            (final(self).elements@, final(self).operators@) == pop_quants(old(self).elements@, old(self).operators@),
    {
        let mut done = false;
        while !done && self.operators.len() > 0
            invariant
                pop_quants(self.elements@, self.operators@) == pop_quants(old(self).elements@, old(self).operators@),
                done ==> pop_quants(self.elements@, self.operators@) == (self.elements@, self.operators@),
            decreases self.operators.len(), if done { 0int } else { 1int },
        {
            let top = self.operators[self.operators.len() - 1];
            if top == 42 || top == 43 || top == 63 || top == 38 {
                let v = self.operators.pop().unwrap();
                self.elements.push(v);
            } else {
                done = true;
            }
        }
    }

    fn pop_group(&mut self) -> (r: bool)
        requires
            nested(old(self).operators@),
        ensures
            (final(self).elements@, final(self).operators@, r) == pop_group(old(self).elements@, old(self).operators@),
            nested(final(self).operators@),
    {
        let mut concatenation = false;
        while self.operators.len() > 0
            invariant_except_break
                pop_group(self.elements@, self.operators@) == pop_group(old(self).elements@, old(self).operators@),
                concatenation == false,
            invariant
                nested(self.operators@),
                self.operators@.len() == 0 ==> pop_group(self.elements@, self.operators@) == pop_group(
                    old(self).elements@,
                    old(self).operators@,
                ) ==> (self.elements@, self.operators@, concatenation) == pop_group(old(self).elements@, old(self).operators@),
            ensures
                (self.elements@, self.operators@, concatenation) == pop_group(old(self).elements@, old(self).operators@),
            decreases self.operators.len(),
        {
            let ghost before = self.operators@;
            let v = self.operators.pop().unwrap();
            if v == 40 {
                assert(before[before.len() - 1] == 40);
                let f = self.operators.pop().unwrap();
                concatenation = f == 1;
                break;
            } else {
                self.elements.push(v);
            }
        }
        concatenation
    }

    fn pop_class(&mut self)
        requires
            old(self).operators@.len() >= 1,
            old(self).operators@.last() == 91,
        ensures
            (final(self).elements@, final(self).operators@) == pop_class(old(self).elements@, old(self).operators@),
            final(self).operators@ == old(self).operators@.drop_last(),
    {
        let v = self.operators.pop().unwrap();
        assert(v == 91);
    }

    /// Reads one token in a group.
    fn handle_in_groups(&mut self, lexer: &mut Tokenizer, concatenation: bool) -> (r: BuilderState)
        requires
            old(lexer).wf(),
            state_ok(BuilderState::InGroups { concatenation }, old(self).operators@),
        ensures
            final(lexer).wf(),
            final(lexer).spec_input() == old(lexer).spec_input(),
            (r, final(self).elements@, final(self).operators@, final(lexer).spec_pos()) == group_step(
                old(lexer).spec_input(),
                old(lexer).spec_pos(),
                concatenation,
                old(self).elements@,
                old(self).operators@,
            ),
            state_ok(r, final(self).operators@),
    {
        let ghost s = lexer.spec_input();
        let ghost pos = lexer.spec_pos();
        proof {
            lemma_group_token(s, pos, false);
        }
        let (start, len) = match lexer.next_in_group() {
            None => return BuilderState::Completed,
            Some(token) => token,
        };
        let first = lexer.byte_at(start);
        let ghost expected = group_step(s, pos, concatenation, old(self).elements@, old(self).operators@);
        if first == 40 {
            self.operators.push(if concatenation { 1 } else { 0 });
            self.operators.push(40);
            assert(self.operators@ == expected.2);
            assert(nested(self.operators@));
            BuilderState::InGroups { concatenation: false }
        } else if first == 43 || first == 63 {
            self.elements.push(first);
            BuilderState::InGroups { concatenation }
        } else if first == 42 {
            self.elements.push(43);
            self.elements.push(63);
            BuilderState::InGroups { concatenation }
        } else if first == 91 {
            self.operators.push(if concatenation { 1 } else { 0 });
            self.operators.push(91);
            assert(self.operators@ == expected.2);
            assert(nested(self.operators@));
            BuilderState::InClasses { alternation: false, negation: false }
        } else if first == 124 {
            self.pop_quants();
            proof {
                lemma_pop_quants_nested(old(self).elements@, old(self).operators@);
            }
            self.operators.push(124);
            assert(self.operators@ == expected.2);
            assert(self.elements@ == expected.1);
            assert(nested(self.operators@));
            BuilderState::InGroups { concatenation: false }
        } else if first == 41 {
            let concat = self.pop_group();
            if concat {
                self.operators.push(38);
            }
            assert(self.operators@ == expected.2);
            assert(self.elements@ == expected.1);
            assert(nested(self.operators@));
            BuilderState::InGroups { concatenation: true }
        } else {
            self.elements.push(108);
            self.elements.push(48 + len);
            let mut off: u8 = 0;
            while off < len
                invariant
                    lexer.wf(),
                    lexer.spec_input() == s,
                    lexer.spec_pos() == pos + len,
                    start == pos,
                    0 <= pos,
                    pos + len <= s.len(),
                    s.len() <= usize::MAX,
                    off <= len,
                    self.operators@ == old(self).operators@,
                    self.elements@ == old(self).elements@.push(108).push((48 + len) as u8) + s.subrange(pos, pos + off),
                decreases len - off,
            {
                let b = lexer.byte_at(start + off as usize);
                self.elements.push(b);
                off = off + 1;
                proof {
                    assert(s.subrange(pos, pos + off) =~= s.subrange(pos, pos + off - 1).push(b));
                }
            }
            if concatenation {
                self.operators.push(38);
            }
            assert(self.elements@ == expected.1);
            assert(self.operators@ == expected.2);
            assert(nested(self.operators@));
            BuilderState::InGroups { concatenation: true }
        }
    }

    /// Reads one token in a class.
    fn handle_in_classes(&mut self, lexer: &mut Tokenizer, alternation: bool, negation: bool) -> (r: BuilderState)
        requires
            old(lexer).wf(),
            state_ok(BuilderState::InClasses { alternation, negation }, old(self).operators@),
        ensures
            final(lexer).wf(),
            final(lexer).spec_input() == old(lexer).spec_input(),
            (r, final(self).elements@, final(self).operators@, final(lexer).spec_pos()) == class_step(
                old(lexer).spec_input(),
                old(lexer).spec_pos(),
                alternation,
                negation,
                old(self).elements@,
                old(self).operators@,
            ),
            state_ok(r, final(self).operators@),
    {
        let (from, to) = lexer.next_in_class();
        if from == 0 {
            BuilderState::Completed
        } else if from == 94 {
            BuilderState::InClasses { alternation, negation: true }
        } else if from == 93 {
            self.pop_class();
            let ghost mid = self.operators@;
            let f = self.operators.pop().unwrap();
            proof {
                lemma_nested_prefix(old(self).operators@, mid.len() - 1);
            }
            BuilderState::InGroups { concatenation: f == 1 }
        } else {
            self.elements.push(if negation { 33 } else { 45 });
            self.elements.push(from);
            self.elements.push(to);
            if alternation {
                self.elements.push(124);
            }
            BuilderState::InClasses { alternation: true, negation }
        }
    }

    /// Reads one token in the given state.
    fn handle(&mut self, lexer: &mut Tokenizer, state: BuilderState) -> (r: BuilderState)
        requires
            old(lexer).wf(),
            state_ok(state, old(self).operators@),
        ensures
            final(lexer).wf(),
            final(lexer).spec_input() == old(lexer).spec_input(),
            (r, final(self).elements@, final(self).operators@, final(lexer).spec_pos()) == match state {
                BuilderState::Completed => (
                    BuilderState::Completed,
                    old(self).elements@,
                    old(self).operators@,
                    old(lexer).spec_pos(),
                ),
                BuilderState::InGroups { concatenation } => group_step(
                    old(lexer).spec_input(),
                    old(lexer).spec_pos(),
                    concatenation,
                    old(self).elements@,
                    old(self).operators@,
                ),
                BuilderState::InClasses { alternation, negation } => class_step(
                    old(lexer).spec_input(),
                    old(lexer).spec_pos(),
                    alternation,
                    negation,
                    old(self).elements@,
                    old(self).operators@,
                ),
            },
            state_ok(r, final(self).operators@),
    {
        match state {
            BuilderState::Completed => BuilderState::Completed,
            BuilderState::InGroups { concatenation } => self.handle_in_groups(lexer, concatenation),
            BuilderState::InClasses { alternation, negation } => self.handle_in_classes(lexer, alternation, negation),
        }
    }

    /// Reads the whole expression, then moves the operators left on the stack to the output.
    fn build(self, input: Vec<u8>) -> (r: Option<RPN>)
        requires
            terminated(input@, 0),
            self.elements@ == Seq::<u8>::empty(),
            self.operators@ == Seq::<u8>::empty(),
        ensures
            r matches Some(rpn) && rpn.bytes() == rpn_of(input@),
    {
        let mut builder = self;
        builder.run_all(input)
    }

    fn run_all(&mut self, input: Vec<u8>) -> (r: Option<RPN>)
        requires
            terminated(input@, 0),
            old(self).elements@ == Seq::<u8>::empty(),
            old(self).operators@ == Seq::<u8>::empty(),
        ensures
            r matches Some(rpn) && rpn.bytes() == rpn_of(input@),
    {
        let ghost s = input@;
        assert(input@.len() == input.len());
        let mut lexer = Tokenizer::new(input);
        let mut state = BuilderState::InGroups { concatenation: false };
        let ghost target = run(s, 0, BuilderState::InGroups { concatenation: false }, Seq::empty(), Seq::empty());
        loop
            invariant_except_break
                !(state is Completed),
                run(s, lexer.spec_pos(), state, self.elements@, self.operators@) == target,
                state_ok(state, self.operators@),
            invariant
                lexer.wf(),
                lexer.spec_input() == s,
            ensures
                (self.elements@, self.operators@) == target,
            decreases s.len() - lexer.spec_pos(),
        {
            let ghost pos = lexer.spec_pos();
            let ghost el = self.elements@;
            let ghost ops = self.operators@;
            proof {
                lemma_group_token(s, pos, false);
            }
            let next = self.handle(&mut lexer, state);
            match next {
                BuilderState::Completed => {
                    break;
                },
                _ => {
                    proof {
                        assert(lexer.spec_pos() > pos);
                        assert(lexer.spec_pos() < s.len());
                    }
                    state = next;
                },
            }
        }
        while self.operators.len() > 0
            invariant
                self.elements@ + self.operators@.reverse() == target.0 + target.1.reverse(),
            decreases self.operators.len(),
        {
            let ghost before_el = self.elements@;
            let ghost before_ops = self.operators@;
            let val = self.operators.pop().unwrap();
            self.elements.push(val);
            proof {
                assert(before_ops.reverse() =~= seq![val] + before_ops.drop_last().reverse());
                assert(self.elements@ + self.operators@.reverse() =~= before_el + before_ops.reverse());
            }
        }
        proof {
            assert(self.operators@.reverse() =~= Seq::<u8>::empty());
            assert(self.elements@ + self.operators@.reverse() =~= self.elements@);
        }
        let elements = self.elements.clone();
        Some(RPN { elements })
    }
}

impl RPN {
    /// The bytes of the expression.
    pub closed spec fn bytes(&self) -> Seq<u8> {
        self.elements@
    }

    /// Converts the zero-terminated regular expression `input`.
    pub fn build(input: Vec<u8>) -> (r: Option<Self>)
        requires
            terminated(input@, 0),
        ensures
            r matches Some(rpn) && rpn.bytes() == rpn_of(input@),
    {
        Builder::new().build(input)
    }

    /// An expression given by its bytes.
    pub fn from_bytes(bytes: &[u8]) -> (r: Self)
        ensures
            r.bytes() == bytes@,
    {
        let mut elements: Vec<u8> = Vec::new();
        let mut i: usize = 0;
        while i < bytes.len()
            invariant
                i <= bytes.len(),
                elements@ == bytes@.subrange(0, i as int),
            decreases bytes.len() - i,
        {
            elements.push(bytes[i]);
            i = i + 1;
            proof {
                assert(elements@ =~= bytes@.subrange(0, i as int));
            }
        }
        proof {
            assert(bytes@.subrange(0, bytes@.len() as int) =~= bytes@);
        }
        RPN { elements }
    }

    /// A copy of the bytes of the expression.
    pub fn as_bytes(&self) -> (r: Vec<u8>)
        ensures
            r@ == self.bytes(),
    {
        self.elements.clone()
    }

    /// The number of bytes of the expression.
    pub fn size(&self) -> (r: u16)
        requires
            self.bytes().len() <= u16::MAX,
        ensures
            r == self.bytes().len(),
    {
        self.elements.len() as u16
    }

    /// The byte at `off`.
    pub fn at(&self, off: u16) -> (r: u8)
        requires
            off < self.bytes().len(),
        ensures
            r == self.bytes()[off as int],
    {
        self.elements[off as usize]
    }
}

proof fn lemma_nested_prefix(ops: Seq<u8>, k: int)
    requires
        nested(ops),
        0 <= k <= ops.len(),
    ensures
        nested(ops.subrange(0, k)),
{
}

proof fn lemma_pop_quants_nested(el: Seq<u8>, ops: Seq<u8>)
    requires
        nested(ops),
    ensures
        nested(pop_quants(el, ops).1),
        pop_quants(el, ops).1.len() <= ops.len(),
        exists|k: int| 0 <= k <= ops.len() && pop_quants(el, ops).1 == ops.subrange(0, k),
    decreases ops.len(),
{
    if ops.len() > 0 {
        let v = ops.last();
        if v == 42 || v == 43 || v == 63 || v == 38 {
            lemma_pop_quants_nested(el.push(v), ops.drop_last());
            let k = choose|k: int| 0 <= k <= ops.drop_last().len() && pop_quants(el.push(v), ops.drop_last()).1 == ops.drop_last().subrange(0, k);
            assert(ops.drop_last().subrange(0, k) =~= ops.subrange(0, k));
        } else {
            assert(ops.subrange(0, ops.len() as int) =~= ops);
        }
    } else {
        assert(ops.subrange(0, 0) =~= ops);
    }
}

} // verus!
