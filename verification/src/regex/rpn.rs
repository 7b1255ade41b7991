use vstd::prelude::*;

use super::array::{Array, ArrayLike, StackLike};
use super::bits::Bits;
use super::error::RegexError;
use super::heap::{AllocatorSize, GuardSegfault};
use super::lexer::{class_next, group_next, terminated, PatternLexer, Token};
use super::pages::{has_room, took_first_run, Naive64Pages};

verus! {

struct ElementsMarker;

impl ArrayLike for ElementsMarker {}

impl StackLike for ElementsMarker {}

/// A regular expression in reverse Polish notation, its bytes kept on the front stack of an array
/// taken from the page allocator: `l` and a digit introduce that many literal bytes, `-` the two
/// bounds of a byte range, `#` and a byte an accepting marker, and `|`, `&`, `+`, `?` are the
/// operators.
pub struct RPN<SIZE>(Array<ElementsMarker, u8, SIZE, GuardSegfault>);

impl<SIZE: AllocatorSize> RPN<SIZE> {
    /// The bytes of the expression.
    pub closed spec fn bytes(&self) -> Seq<u8> {
        self.0.front()
    }

    /// The array is sound and its front stack lies inside it.
    pub closed spec fn wf(&self) -> bool {
        &&& self.0.wf()
        &&& self.0.spec_head() <= self.0.heap().cap()
        &&& !self.0.heap().is_wrapping()
    }

    /// The number of bytes that an expression can hold.
    pub closed spec fn capacity(&self) -> nat {
        self.0.heap().cap()
    }

    /// An expression holding `bytes`, over a fresh block of the allocator.
    pub fn from_bytes(allocator: &mut Naive64Pages, bytes: &[u8]) -> (r: Option<Self>)
        requires
            bytes.len() <= SIZE::spec_measure(),
            bytes.len() < u16::MAX,
        ensures
            r is Some <==> has_room(old(allocator).spec_bitmap(), (SIZE::spec_measure() / 4096) as int),
            r is Some ==> took_first_run(
                old(allocator).spec_bitmap(),
                final(allocator).spec_bitmap(),
                (SIZE::spec_measure() / 4096) as int,
            ),
            match r {
                Some(rpn) => {
                    &&& rpn.wf()
                    &&& rpn.bytes() == bytes@
                    &&& rpn.capacity() == SIZE::spec_measure()
                },
                None => final(allocator).spec_bitmap() == old(allocator).spec_bitmap(),
            },
    {
        let mut elements: Array<ElementsMarker, u8, SIZE, GuardSegfault> = match Array::new(allocator) {
            None => return None,
            Some(array) => array,
        };
        proof {
            elements.heap().lemma_slots_small();
        }
        let mut i: usize = 0;
        while i < bytes.len()
            invariant
                i <= bytes.len(),
                bytes.len() <= SIZE::spec_measure(),
                bytes.len() < u16::MAX,
                elements.wf(),
                elements.spec_head() == i,
                elements.heap().cap() == SIZE::spec_measure(),
                !elements.heap().is_wrapping(),
                elements.front() == bytes@.subrange(0, i as int),
            decreases bytes.len() - i,
        {
            elements.stack_push_front(bytes[i]);
            i = i + 1;
            proof {
                assert(elements.front() =~= bytes@.subrange(0, i as int));
            }
        }
        proof {
            assert(bytes@.subrange(0, bytes@.len() as int) =~= bytes@);
        }
        Some(RPN(elements))
    }

    /// A copy of the bytes of the expression.
    pub fn as_bytes(&self) -> (r: Vec<u8>)
        requires
            self.wf(),
        ensures
            r@ == self.bytes(),
    {
        self.0.as_bytes_front()
    }

    /// The number of bytes of the expression.
    pub fn size(&self) -> (r: u16)
        ensures
            r == self.bytes().len(),
    {
        self.0.stack_size_front()
    }

    /// The byte at `off`.
    pub fn at(&self, off: u16) -> (r: u8)
        requires
            self.wf(),
            off < self.bytes().len(),
        ensures
            r == self.bytes()[off as int],
    {
        self.0.array_get(off)
    }
}


/// Where the builder is in the expression, as the contracts see it: the bytes a class holds so
/// far make a set.
pub enum Mode {
    Completed,
    Invalid,
    InGroups { concatenation: bool },
    InClasses { negation: bool, members: Set<int> },
}

/// The byte that remembers, under an opening bracket, whether what came before it is concatenated
/// with the group.
pub open spec fn flag(concatenation: bool) -> u8 {
    if concatenation {
        1
    } else {
        0
    }
}

/// Moves the `&` operators on top of the operator stack to the output.
pub open spec fn pop_ands(el: Seq<u8>, ops: Seq<u8>) -> (Seq<u8>, Seq<u8>)
    decreases ops.len(),
{
    if ops.len() > 0 && ops.last() == 38 {
        pop_ands(el.push(38), ops.drop_last())
    } else {
        (el, ops)
    }
}

/// Moves the pending `&` operators to the output when what comes next is concatenated.
pub open spec fn pop_concatenation(el: Seq<u8>, ops: Seq<u8>, condition: bool) -> (Seq<u8>, Seq<u8>) {
    if condition {
        pop_ands(el, ops)
    } else {
        (el, ops)
    }
}

/// Moving the pending concatenations, when what comes next is concatenated, takes the whole run
/// of `&` on top of the operators, and only it, to the end of the output, and leaves everything
/// under it as it was; otherwise nothing moves.
pub proof fn lemma_pop_concatenation(el: Seq<u8>, ops: Seq<u8>, condition: bool)
    ensures
        ({
            let (el2, ops2) = pop_concatenation(el, ops, condition);
            let k = ops.len() - ops2.len();
            &&& 0 <= k <= ops.len()
            &&& !condition ==> k == 0
            &&& ops2 == ops.subrange(0, ops.len() - k)
            &&& el2 == el + Seq::new(k as nat, |i: int| 38u8)
            &&& forall|i: int| ops.len() - k <= i < ops.len() ==> ops[i] == 38
            &&& condition && ops2.len() > 0 ==> ops2.last() != 38
        }),
    decreases ops.len(),
{
    if condition && ops.len() > 0 && ops.last() == 38 {
        lemma_pop_concatenation(el.push(38), ops.drop_last(), condition);
        let (el2, ops2) = pop_concatenation(el, ops, condition);
        let k = ops.len() - ops2.len();
        assert(el2 == el.push(38) + Seq::new((k - 1) as nat, |i: int| 38u8));
        assert(el.push(38) + Seq::new((k - 1) as nat, |i: int| 38u8) =~= el + Seq::new(k as nat, |i: int| 38u8));
        assert(ops.drop_last().subrange(0, ops.len() - 1 - (k - 1)) =~= ops.subrange(0, ops.len() - k));
        assert forall|i: int| ops.len() - k <= i < ops.len() implies ops[i] == 38 by {
            if i < ops.len() - 1 {
                assert(ops.drop_last()[i] == ops[i]);
            }
        }
    } else {
        assert(el + Seq::new(0, |i: int| 38u8) =~= el);
        assert(ops.subrange(0, ops.len() as int) =~= ops);
    }
}

/// Closes a group: moves the operators above the last `(` to the output, drops the `(` and the
/// flag under it, and tells the flag.
pub open spec fn close_group(el: Seq<u8>, ops: Seq<u8>) -> (Seq<u8>, Seq<u8>, bool)
    decreases ops.len(),
{
    if ops.len() == 0 {
        (el, ops, false)
    } else {
        let v = ops.last();
        let rest = ops.drop_last();
        if v == 40 {
            if rest.len() > 0 {
                (el, rest.drop_last(), rest.last() == 1)
            } else {
                (el, rest, false)
            }
        } else {
            close_group(el.push(v), rest)
        }
    }
}

/// A literal of `length` bytes of `s` from `start` on, in pieces of at most 9: each piece is `l`,
/// its length as a digit and its bytes, concatenated with what came before when it is.
pub open spec fn literal_emit(
    s: Seq<u8>,
    start: int,
    length: int,
    concatenation: bool,
    el: Seq<u8>,
    ops: Seq<u8>,
) -> (Seq<u8>, Seq<u8>)
    decreases length,
{
    if length <= 0 {
        (el, ops)
    } else {
        let batch = if length < 9 {
            length
        } else {
            9
        };
        let (el1, ops1) = pop_concatenation(el, ops, concatenation);
        literal_emit(
            s,
            start + batch,
            length - batch,
            true,
            el1.push(108).push((48 + batch) as u8) + s.subrange(start, start + batch),
            if concatenation {
                ops1.push(38)
            } else {
                ops1
            },
        )
    }
}

/// Whether byte value `i` belongs to the area of a class: in it, or, negated, not in it.
pub open spec fn member_of(members: Set<int>, negation: bool, i: int) -> bool {
    members.contains(i) != negation
}

/// The last byte value of the run of the area that goes on from `i`.
pub open spec fn run_end(members: Set<int>, negation: bool, i: int) -> int
    decreases 255 - i,
{
    if i >= 255 || !member_of(members, negation, i + 1) {
        i
    } else {
        run_end(members, negation, i + 1)
    }
}

/// The maximal runs `(first, last)` of the area from byte value `i` up to 255.
pub open spec fn runs_from(members: Set<int>, negation: bool, i: int) -> Seq<(u8, u8)>
    decreases 256 - i,
{
    if i > 255 {
        Seq::empty()
    } else if !member_of(members, negation, i) {
        runs_from(members, negation, i + 1)
    } else {
        let e = run_end(members, negation, i);
        if e < i || e > 255 {
            Seq::empty()
        } else {
            seq![(i as u8, e as u8)] + runs_from(members, negation, e + 1)
        }
    }
}

/// What a class puts out: `-`, the first and the last byte of each run, and `|` after each run
/// but the first.
pub open spec fn class_elements(runs: Seq<(u8, u8)>) -> Seq<u8>
    decreases runs.len(),
{
    if runs.len() == 0 {
        Seq::empty()
    } else {
        class_elements(runs.drop_last()) + seq![45u8, runs.last().0, runs.last().1] + if runs.len() > 1 {
            seq![124u8]
        } else {
            Seq::<u8>::empty()
        }
    }
}

/// One token read in a group: the next mode, the output and the operators.
pub open spec fn in_groups(s: Seq<u8>, token: Token, concatenation: bool, el: Seq<u8>, ops: Seq<u8>) -> (
    Mode,
    Seq<u8>,
    Seq<u8>,
) {
    match token {
        Token::OpenGroup {  } => {
            let (el1, ops1) = pop_concatenation(el, ops, concatenation);
            (Mode::InGroups { concatenation: false }, el1, ops1.push(flag(concatenation)).push(40))
        },
        Token::Plus {  } => (Mode::InGroups { concatenation }, el.push(43), ops),
        Token::Optional {  } => (Mode::InGroups { concatenation }, el.push(63), ops),
        Token::Star {  } => (Mode::InGroups { concatenation }, el.push(43).push(63), ops),
        Token::Marker { value } => (Mode::InGroups { concatenation }, el.push(35).push(value), ops),
        Token::OpenClass {  } => {
            let (el1, ops1) = pop_concatenation(el, ops, concatenation);
            (
                Mode::InClasses { negation: false, members: Set::empty() },
                el1,
                ops1.push(flag(concatenation)).push(91),
            )
        },
        Token::Either {  } => {
            let (el1, ops1) = pop_concatenation(el, ops, true);
            (Mode::InGroups { concatenation: false }, el1, ops1.push(124))
        },
        Token::CloseGroup {  } => {
            let (el1, ops1, c) = close_group(el, ops);
            (
                Mode::InGroups { concatenation: true },
                el1,
                if c {
                    ops1.push(38)
                } else {
                    ops1
                },
            )
        },
        Token::Literal { start, length } => {
            let (el1, ops1) = literal_emit(s, start as int, length as int, concatenation, el, ops);
            (Mode::InGroups { concatenation: true }, el1, ops1)
        },
        _ => (Mode::Invalid, el, ops),
    }
}

/// One token read in a class: the next mode, the output and the operators.
pub open spec fn in_classes(token: Token, negation: bool, members: Set<int>, el: Seq<u8>, ops: Seq<u8>) -> (
    Mode,
    Seq<u8>,
    Seq<u8>,
) {
    match token {
        Token::NegateClass {  } => if negation || exists|i: int| 0 <= i < 256 && members.contains(i) {
            (Mode::Invalid, el, ops)
        } else {
            (Mode::InClasses { negation: true, members }, el, ops)
        },
        Token::CloseClass {  } => {
            let rest = ops.drop_last();
            let below = rest.drop_last();
            (
                Mode::InGroups { concatenation: true },
                el + class_elements(runs_from(members, negation, 1)),
                if rest.last() == 1 {
                    below.push(38)
                } else {
                    below
                },
            )
        },
        Token::RangeClass { min, max } => (
            Mode::InClasses { negation, members: members.union(Set::new(|i: int| min <= i <= max)) },
            el,
            ops,
        ),
        _ => (Mode::Invalid, el, ops),
    }
}

/// A negation inside a class is refused when the class is negated already or has a member;
/// otherwise it negates the class. Either way the output and the operators stay as they are.
pub proof fn lemma_class_negation(negation: bool, bits: Bits, el: Seq<u8>, ops: Seq<u8>)
    ensures
        in_classes(Token::NegateClass {  }, negation, members_of(bits), el, ops) == if negation || bits.any_spec() {
            (Mode::Invalid, el, ops)
        } else {
            (Mode::InClasses { negation: true, members: members_of(bits) }, el, ops)
        },
{
    if bits.any_spec() {
        let w = choose|i: int| 0 <= i < 256 && bits.has(i);
        assert(members_of(bits).contains(w));
    } else {
        assert forall|i: int| 0 <= i < 256 implies !members_of(bits).contains(i) by {}
    }
}

/// Reads the expression from `pos` on in mode `mode`: whether it ended well (at the end of input
/// or where no token is found) rather than on an invalid token, and the output and operators then.
pub open spec fn run(s: Seq<u8>, pos: int, mode: Mode, el: Seq<u8>, ops: Seq<u8>) -> (bool, Seq<u8>, Seq<u8>)
    decreases s.len() - pos,
{
    if !(0 <= pos < s.len()) {
        (true, el, ops)
    } else {
        let next = match mode {
            Mode::InGroups { concatenation } => match group_next(s, pos) {
                None => None,
                Some((t, n)) => Some((in_groups(s, t, concatenation, el, ops), n)),
            },
            Mode::InClasses { negation, members } => match class_next(s, pos) {
                None => None,
                Some((t, n)) => Some((in_classes(t, negation, members, el, ops), n)),
            },
            _ => None,
        };
        match next {
            None => (!(mode is Invalid), el, ops),
            Some((step, n)) => if step.0 is Invalid {
                (false, step.1, step.2)
            } else if n < 1 || pos + n > s.len() {
                (true, step.1, step.2)
            } else {
                run(s, pos + n, step.0, step.1, step.2)
            },
        }
    }
}

/// What appending the zero-terminated expression `s` gives, from output `el` and operators `ops`:
/// `None` when a token is invalid, else the output with the operators left, top first, and `|`
/// when `alternate`.
pub open spec fn appended(s: Seq<u8>, el: Seq<u8>, ops: Seq<u8>, alternate: bool) -> Option<Seq<u8>> {
    let (ok, el1, ops1) = run(s, 0, Mode::InGroups { concatenation: false }, el, ops);
    if ok {
        Some(
            el1 + ops1.reverse() + if alternate {
                seq![124u8]
            } else {
                Seq::<u8>::empty()
            },
        )
    } else {
        None
    }
}

/// Every opening bracket on the operator stack sits on a flag.
pub open spec fn nested(ops: Seq<u8>) -> bool {
    forall|i: int| 0 <= i < ops.len() && (ops[i] == 40 || ops[i] == 91) ==> i >= 1
}

/// What the builder knows of its operator stack in each mode.
pub open spec fn mode_ok(mode: Mode, ops: Seq<u8>) -> bool {
    &&& nested(ops)
    &&& mode is InClasses ==> ops.len() >= 2 && ops.last() == 91
}


proof fn lemma_pop_ands_grows(el: Seq<u8>, ops: Seq<u8>)
    ensures
        pop_ands(el, ops).0.len() >= el.len(),
        pop_ands(el, ops).0.len() + pop_ands(el, ops).1.len() == el.len() + ops.len(),
        pop_ands(el, ops).1 == ops.subrange(0, pop_ands(el, ops).1.len() as int),
    decreases ops.len(),
{
    if ops.len() > 0 && ops.last() == 38 {
        lemma_pop_ands_grows(el.push(38), ops.drop_last());
        let r = pop_ands(el.push(38), ops.drop_last());
        assert(ops.drop_last().subrange(0, r.1.len() as int) =~= ops.subrange(0, r.1.len() as int));
    } else {
        assert(ops.subrange(0, ops.len() as int) =~= ops);
    }
}

proof fn lemma_close_group_grows(el: Seq<u8>, ops: Seq<u8>)
    ensures
        close_group(el, ops).0.len() >= el.len(),
        close_group(el, ops).1.len() <= ops.len(),
        close_group(el, ops).1 == ops.subrange(0, close_group(el, ops).1.len() as int),
    decreases ops.len(),
{
    if ops.len() > 0 {
        let v = ops.last();
        let rest = ops.drop_last();
        if v != 40 {
            lemma_close_group_grows(el.push(v), rest);
            let r = close_group(el.push(v), rest);
            assert(rest.subrange(0, r.1.len() as int) =~= ops.subrange(0, r.1.len() as int));
        } else if rest.len() > 0 {
            assert(rest.drop_last() =~= ops.subrange(0, ops.len() - 2));
        } else {
            assert(rest =~= ops.subrange(0, 0));
        }
    } else {
        assert(ops.subrange(0, 0) =~= ops);
    }
}

proof fn lemma_literal_emit_grows(s: Seq<u8>, start: int, length: int, concatenation: bool, el: Seq<u8>, ops: Seq<u8>)
    ensures
        literal_emit(s, start, length, concatenation, el, ops).0.len() >= el.len(),
    decreases length,
{
    if length > 0 {
        let batch = if length < 9 {
            length
        } else {
            9
        };
        let (el1, ops1) = pop_concatenation(el, ops, concatenation);
        lemma_pop_ands_grows(el, ops);
        lemma_literal_emit_grows(
            s,
            start + batch,
            length - batch,
            true,
            el1.push(108).push((48 + batch) as u8) + s.subrange(start, start + batch),
            if concatenation {
                ops1.push(38)
            } else {
                ops1
            },
        );
    }
}

/// The output of some runs is the start of the output of those runs followed by more.
proof fn lemma_class_elements_prefix(p: Seq<(u8, u8)>, q: Seq<(u8, u8)>)
    ensures
        class_elements(p).len() <= class_elements(p + q).len(),
        class_elements(p) == class_elements(p + q).subrange(0, class_elements(p).len() as int),
    decreases q.len(),
{
    if q.len() == 0 {
        assert(p + q =~= p);
        assert(class_elements(p).subrange(0, class_elements(p).len() as int) =~= class_elements(p));
    } else {
        assert((p + q).drop_last() =~= p + q.drop_last());
        lemma_class_elements_prefix(p, q.drop_last());
        let a = class_elements(p + q.drop_last());
        let b = class_elements(p + q);
        assert(b == a + seq![45u8, (p + q).last().0, (p + q).last().1] + if (p + q).len() > 1 {
            seq![124u8]
        } else {
            Seq::<u8>::empty()
        });
        assert(b.subrange(0, class_elements(p).len() as int) =~= a.subrange(0, class_elements(p).len() as int));
    }
}

/// Byte values outside the area from `s` up to `a` add no run.
proof fn lemma_runs_skip(members: Set<int>, negation: bool, s: int, a: int)
    requires
        s <= a <= 256,
        forall|i: int| s <= i < a ==> !member_of(members, negation, i),
    ensures
        runs_from(members, negation, s) == runs_from(members, negation, a),
    decreases a - s,
{
    if s < a {
        lemma_runs_skip(members, negation, s + 1, a);
    }
}

/// The run that starts at `a` ends at `b` when all from `a` to `b` belong to the area and the
/// byte value after `b` does not.
proof fn lemma_run_end_is(members: Set<int>, negation: bool, a: int, b: int)
    requires
        0 <= a <= b <= 255,
        forall|i: int| a <= i <= b ==> member_of(members, negation, i),
        b == 255 || !member_of(members, negation, b + 1),
    ensures
        run_end(members, negation, a) == b,
    decreases b - a,
{
    if a < b {
        lemma_run_end_is(members, negation, a + 1, b);
    }
}

/// Running the builder only adds to the output.
proof fn lemma_run_grows(s: Seq<u8>, pos: int, mode: Mode, el: Seq<u8>, ops: Seq<u8>)
    ensures
        run(s, pos, mode, el, ops).1.len() >= el.len(),
    decreases s.len() - pos,
{
    if 0 <= pos < s.len() {
        match mode {
            Mode::InGroups { concatenation } => match group_next(s, pos) {
                None => {},
                Some((t, n)) => {
                    lemma_in_groups_grows(s, t, concatenation, el, ops);
                    let step = in_groups(s, t, concatenation, el, ops);
                    if !(step.0 is Invalid) && n >= 1 && pos + n <= s.len() {
                        lemma_run_grows(s, pos + n, step.0, step.1, step.2);
                    }
                },
            },
            Mode::InClasses { negation, members } => match class_next(s, pos) {
                None => {},
                Some((t, n)) => {
                    let step = in_classes(t, negation, members, el, ops);
                    if !(step.0 is Invalid) && n >= 1 && pos + n <= s.len() {
                        lemma_run_grows(s, pos + n, step.0, step.1, step.2);
                    }
                },
            },
            _ => {},
        }
    }
}

proof fn lemma_in_groups_grows(s: Seq<u8>, t: Token, concatenation: bool, el: Seq<u8>, ops: Seq<u8>)
    ensures
        in_groups(s, t, concatenation, el, ops).1.len() >= el.len(),
{
    lemma_pop_ands_grows(el, ops);
    lemma_close_group_grows(el, ops);
    match t {
        Token::Literal { start, length } => lemma_literal_emit_grows(s, start as int, length as int, concatenation, el, ops),
        _ => {},
    }
}


/// A token that the lexer gives is at least one byte long, ends before the zero byte, and a
/// literal lies inside it.
proof fn lemma_group_next(s: Seq<u8>, pos: int)
    requires
        0 <= pos,
        terminated(s, pos),
        s.len() <= usize::MAX,
    ensures
        pos < s.len(),
        group_next(s, pos) matches Some((t, n)) ==> {
            &&& 1 <= n
            &&& pos + n < s.len()
            &&& t matches Token::Literal { start, length } ==> pos <= start && start + length <= pos + n
        },
{
    let z = choose|z: int| pos <= z < s.len() && s[z] == 0;
    super::lexer::lemma_plain_len(s, pos);
    if s[pos] != 0 {
        super::lexer::lemma_terminated_step(s, pos);
        super::lexer::lemma_plain_len(s, pos + 1);
        if s[pos] == 35 || s[pos] == 92 {
            if s[pos + 1] != 0 {
                super::lexer::lemma_terminated_step(s, pos + 1);
            }
        }
    }
}

proof fn lemma_class_next(s: Seq<u8>, pos: int)
    requires
        0 <= pos,
        terminated(s, pos),
    ensures
        pos < s.len(),
        class_next(s, pos) matches Some((t, n)) ==> 1 <= n,
{
    let z = choose|z: int| pos <= z < s.len() && s[z] == 0;
}

/// Where the builder is in the expression.
enum BuilderState {
    Completed,
    Invalid,
    InGroups { concatenation: bool },
    InClasses { negation: bool, bits: Bits },
}

/// The byte values in a set of bits.
pub open spec fn members_of(bits: Bits) -> Set<int> {
    Set::new(|i: int| bits.has(i))
}

/// The mode that a state stands for.
spec fn mode_of(st: BuilderState) -> Mode {
    match st {
        BuilderState::Completed => Mode::Completed,
        BuilderState::Invalid => Mode::Invalid,
        BuilderState::InGroups { concatenation } => Mode::InGroups { concatenation },
        BuilderState::InClasses { negation, bits } => Mode::InClasses {
            negation,
            members: members_of(bits),
        },
    }
}

/// Builds the reverse Polish notation of regular expressions, one appended after the other as
/// alternatives.
pub struct Builder<SIZE> {
    counter: usize,
    elements: Array<ElementsMarker, u8, SIZE, GuardSegfault>,
    operators: Vec<u8>,
}

impl<SIZE: AllocatorSize> Builder<SIZE> {
    /// The output so far.
    pub closed spec fn output(&self) -> Seq<u8> {
        self.elements.front()
    }

    /// The operators waiting on the stack.
    pub closed spec fn pending(&self) -> Seq<u8> {
        self.operators@
    }

    /// How many expressions were appended.
    pub closed spec fn appends(&self) -> nat {
        self.counter as nat
    }

    /// How many bytes the output can hold.
    pub closed spec fn capacity(&self) -> nat {
        self.elements.heap().cap()
    }

    pub closed spec fn wf(&self) -> bool {
        &&& self.elements.wf()
        &&& !self.elements.heap().is_wrapping()
        &&& self.elements.spec_head() <= self.elements.heap().cap()
        &&& self.elements.heap().cap() == SIZE::spec_measure()
        &&& nested(self.operators@)
    }

    /// A builder with nothing appended, over a fresh block of the allocator.
    pub fn new(allocator: &mut Naive64Pages) -> (r: Option<Self>)
        ensures
            r is Some <==> has_room(old(allocator).spec_bitmap(), (SIZE::spec_measure() / 4096) as int),
            r is Some ==> took_first_run(
                old(allocator).spec_bitmap(),
                final(allocator).spec_bitmap(),
                (SIZE::spec_measure() / 4096) as int,
            ),
            match r {
                Some(b) => {
                    &&& b.wf()
                    &&& b.output() == Seq::<u8>::empty()
                    &&& b.pending() == Seq::<u8>::empty()
                    &&& b.appends() == 0
                    &&& b.capacity() == SIZE::spec_measure()
                },
                None => final(allocator).spec_bitmap() == old(allocator).spec_bitmap(),
            },
    {
        let elements: Array<ElementsMarker, u8, SIZE, GuardSegfault> = match Array::new(allocator) {
            None => return None,
            Some(array) => array,
        };
        proof {
            assert(elements.front() =~= Seq::<u8>::empty());
        }
        Some(Builder { counter: 0, elements, operators: Vec::new() })
    }

    fn push(&mut self, v: u8)
        requires
            old(self).wf(),
            old(self).output().len() < old(self).capacity(),
        ensures
            final(self).wf(),
            final(self).output() == old(self).output().push(v),
            final(self).pending() == old(self).pending(),
            final(self).appends() == old(self).appends(),
            final(self).capacity() == old(self).capacity(),
    {
        proof {
            self.elements.heap().lemma_slots_small();
        }
        self.elements.stack_push_front(v);
    }

    fn pop_operator(&mut self) -> (r: Option<u8>)
        requires
            old(self).wf(),
        ensures
            final(self).wf(),
            final(self).output() == old(self).output(),
            final(self).appends() == old(self).appends(),
            final(self).capacity() == old(self).capacity(),
            old(self).pending().len() > 0 ==> r == Some(old(self).pending().last()) && final(self).pending()
                == old(self).pending().drop_last(),
            old(self).pending().len() == 0 ==> r is None && final(self).pending() == old(self).pending(),
    {
        proof {
            if self.operators@.len() > 0 {
                lemma_prefix_nested(self.operators@, self.operators@.len() - 1);
            }
        }
        self.operators.pop()
    }

    fn push_operator(&mut self, v: u8)
        requires
            old(self).wf(),
            nested(old(self).pending().push(v)),
        ensures
            final(self).wf(),
            final(self).output() == old(self).output(),
            final(self).appends() == old(self).appends(),
            final(self).capacity() == old(self).capacity(),
            final(self).pending() == old(self).pending().push(v),
    {
        self.operators.push(v);
    }

    fn close_group(&mut self) -> (r: bool)
        requires
            old(self).wf(),
            close_group(old(self).output(), old(self).pending()).0.len() <= old(self).capacity(),
        ensures
            final(self).wf(),
            (final(self).output(), final(self).pending(), r) == close_group(old(self).output(), old(self).pending()),
            final(self).appends() == old(self).appends(),
            final(self).capacity() == old(self).capacity(),
    {
        let ghost target = close_group(self.output(), self.pending());
        let mut concatenation = false;
        while self.operators.len() > 0
            invariant_except_break
                close_group(self.output(), self.pending()) == target,
                concatenation == false,
            invariant
                self.wf(),
                target.0.len() <= self.capacity(),
                self.appends() == old(self).appends(),
                self.capacity() == old(self).capacity(),
            ensures
                (self.output(), self.pending(), concatenation) == target,
            decreases self.operators.len(),
        {
            let ghost before = self.pending();
            let v = self.operators.pop().unwrap();
            proof {
                lemma_prefix_nested(before, before.len() - 1);
            }
            if v == 40 {
                if self.operators.len() > 0 {
                    let ghost mid = self.pending();
                    let f = self.operators.pop().unwrap();
                    proof {
                        lemma_prefix_nested(mid, mid.len() - 1);
                    }
                    concatenation = f == 1;
                }
                break;
            } else {
                proof {
                    lemma_close_group_grows(self.output().push(v), self.pending());
                }
                self.push(v);
            }
        }
        concatenation
    }
}


impl BuilderState {
    fn new() -> (r: Self)
        ensures
            mode_of(r) == (Mode::InGroups { concatenation: false }),
    {
        BuilderState::InGroups { concatenation: false }
    }

    /// Reads one token in a group.
    #[verifier::rlimit(40)]
    fn handle_in_groups<SIZE: AllocatorSize>(
        builder: &mut Builder<SIZE>,
        lexer: &PatternLexer,
        token: Token,
        concatenation: bool,
    ) -> (r: Self)
        requires
            old(builder).wf(),
            lexer.wf(),
            token matches Token::Literal { start, length } ==> start + length <= lexer.spec_input().len(),
            in_groups(lexer.spec_input(), token, concatenation, old(builder).output(), old(builder).pending()).1.len()
                <= old(builder).capacity(),
        ensures
            final(builder).wf(),
            final(builder).appends() == old(builder).appends(),
            final(builder).capacity() == old(builder).capacity(),
            (mode_of(r), final(builder).output(), final(builder).pending()) == in_groups(
                lexer.spec_input(),
                token,
                concatenation,
                old(builder).output(),
                old(builder).pending(),
            ),
            !(r is Invalid) ==> mode_ok(mode_of(r), final(builder).pending()),
    {
        let ghost s = lexer.spec_input();
        let ghost el0 = builder.output();
        let ghost ops0 = builder.pending();
        proof {
            lemma_pop_ands_grows(el0, ops0);
            lemma_close_group_grows(el0, ops0);
        }
        match token {
            Token::OpenGroup {  } => {
                Self::pop_concatenation(builder, concatenation);
                let ghost mid = builder.pending();
                builder.operators.push(if concatenation { 1 } else { 0 });
                builder.operators.push(40);
                proof {
                    assert(nested(builder.pending()));
                }
                Self::InGroups { concatenation: false }
            },
            Token::Plus {  } => {
                builder.push(43);
                Self::InGroups { concatenation }
            },
            Token::Optional {  } => {
                builder.push(63);
                Self::InGroups { concatenation }
            },
            Token::Star {  } => {
                builder.push(43);
                builder.push(63);
                Self::InGroups { concatenation }
            },
            Token::Marker { value } => {
                builder.push(35);
                builder.push(value);
                Self::InGroups { concatenation }
            },
            Token::OpenClass {  } => {
                Self::pop_concatenation(builder, concatenation);
                builder.operators.push(if concatenation { 1 } else { 0 });
                builder.operators.push(91);
                let bits = Bits::new();
                proof {
                    assert(nested(builder.pending()));
                    assert(members_of(bits) =~= Set::<int>::empty());
                }
                Self::InClasses { negation: false, bits }
            },
            Token::Either {  } => {
                Self::pop_concatenation(builder, true);
                builder.operators.push(124);
                proof {
                    assert(nested(builder.pending()));
                }
                Self::InGroups { concatenation: false }
            },
            Token::CloseGroup {  } => {
                let concatenation = builder.close_group();
                if concatenation {
                    builder.operators.push(38);
                }
                proof {
                    assert(nested(builder.pending()));
                }
                Self::InGroups { concatenation: true }
            },
            Token::Literal { start, length } => {
                let ghost target = literal_emit(s, start as int, length as int, concatenation, el0, ops0);
                let mut start = start;
                let mut length = length;
                let mut concatenation = concatenation;

                while length > 0
                    invariant
                        builder.wf(),
                        builder.appends() == old(builder).appends(),
                        builder.capacity() == old(builder).capacity(),
                        s == lexer.spec_input(),
                        s.len() <= usize::MAX,
                        start + length <= s.len(),
                        literal_emit(s, start as int, length as int, concatenation, builder.output(), builder.pending())
                            == target,
                        target.0.len() <= builder.capacity(),
                    decreases length,
                {
                    let batch: usize = if length < 9 { length } else { 9 };
                    let ghost el1 = pop_concatenation(builder.output(), builder.pending(), concatenation).0;
                    let ghost ops1 = pop_concatenation(builder.output(), builder.pending(), concatenation).1;
                    let ghost el2 = el1.push(108).push((48 + batch) as u8) + s.subrange(start as int, start + batch);
                    let ghost ops2 = if concatenation { ops1.push(38) } else { ops1 };
                    proof {
                        lemma_literal_emit_grows(s, start + batch, length - batch, true, el2, ops2);
                        lemma_pop_ands_grows(builder.output(), builder.pending());
                    }
                    Self::pop_concatenation(builder, concatenation);

                    builder.push(108);
                    builder.push(48 + batch as u8);

                    let mut off: usize = 0;
                    while off < batch
                        invariant
                            builder.wf(),
                            builder.appends() == old(builder).appends(),
                            builder.capacity() == old(builder).capacity(),
                            s == lexer.spec_input(),
                            s.len() <= usize::MAX,
                            start + batch <= s.len(),
                            off <= batch,
                            builder.pending() == ops1,
                            builder.output() == el1.push(108).push((48 + batch) as u8) + s.subrange(
                                start as int,
                                start + off,
                            ),
                            el2.len() <= builder.capacity(),
                            el2 == el1.push(108).push((48 + batch) as u8) + s.subrange(start as int, start + batch),
                        decreases batch - off,
                    {
                        let b = lexer.byte_at(start + off);
                        builder.push(b);
                        off = off + 1;
                        proof {
                            assert(s.subrange(start as int, start + off) =~= s.subrange(start as int, start + off - 1).push(b));
                        }
                    }

                    if concatenation {
                        builder.operators.push(38);
                    }
                    proof {
                        assert(nested(builder.pending()));
                    }

                    length -= batch;
                    start += batch;
                    concatenation = true;
                }
                Self::InGroups { concatenation: true }
            },
            _ => BuilderState::Invalid,
        }
    }

    /// Reads one token in a class.
    #[verifier::spinoff_prover]
    #[verifier::rlimit(80)]
    fn handle_in_classes<SIZE: AllocatorSize>(
        builder: &mut Builder<SIZE>,
        token: Token,
        negation: bool,
        bits: Bits,
    ) -> (r: Self)
        requires
            old(builder).wf(),
            mode_ok(mode_of(BuilderState::InClasses { negation, bits }), old(builder).pending()),
            in_classes(token, negation, members_of(bits), old(builder).output(), old(builder).pending()).1.len()
                <= old(builder).capacity(),
        ensures
            final(builder).wf(),
            final(builder).appends() == old(builder).appends(),
            final(builder).capacity() == old(builder).capacity(),
            (mode_of(r), final(builder).output(), final(builder).pending()) == in_classes(
                token,
                negation,
                members_of(bits),
                old(builder).output(),
                old(builder).pending(),
            ),
            !(r is Invalid) ==> mode_ok(mode_of(r), final(builder).pending()),
    {
        let ghost members = members_of(bits);
        match token {
            Token::NegateClass {  } => {
                proof {
                    if bits.any_spec() {
                        let w = choose|i: int| 0 <= i < 256 && bits.has(i);
                        assert(members.contains(w));
                    } else {
                        assert forall|i: int| 0 <= i < 256 implies !members.contains(i) by {}
                    }
                }
                let any = bits.any();
                if negation || any {
                    Self::Invalid
                } else {
                    let r = Self::InClasses { negation: true, bits: bits };
                    proof {
                        assert(mode_of(r) == (Mode::InClasses { negation: true, members }));
                    }
                    r
                }
            },
            Token::CloseClass {  } => Self::close_class(builder, negation, bits),
            Token::RangeClass { min, max } => {
                let bits = with_range(bits, min, max);
                proof {
                    assert(members_of(bits) =~= members.union(Set::new(|i: int| min <= i <= max)));
                }
                Self::InClasses { negation: negation, bits: bits }
            },
            _ => BuilderState::Invalid,
        }
    }

    /// Closes a class: puts out its runs and drops its bracket and flag from the operators.
    #[verifier::spinoff_prover]
    #[verifier::rlimit(40)]
    fn close_class<SIZE: AllocatorSize>(builder: &mut Builder<SIZE>, negation: bool, bits: Bits) -> (r: Self)
        requires
            old(builder).wf(),
            old(builder).pending().len() >= 2,
            old(builder).pending().last() == 91,
            in_classes(Token::CloseClass {  }, negation, members_of(bits), old(builder).output(), old(builder).pending()).1.len()
                <= old(builder).capacity(),
        ensures
            final(builder).wf(),
            final(builder).appends() == old(builder).appends(),
            final(builder).capacity() == old(builder).capacity(),
            (mode_of(r), final(builder).output(), final(builder).pending()) == in_classes(
                Token::CloseClass {  },
                negation,
                members_of(bits),
                old(builder).output(),
                old(builder).pending(),
            ),
            mode_ok(mode_of(r), final(builder).pending()),
    {
        let ghost members = members_of(bits);
        let ghost el0 = builder.output();
        let ghost ops0 = builder.pending();
        let ghost total = runs_from(members, negation, 1);
        let ghost mut done: Seq<(u8, u8)> = Seq::empty();
        let mut alternation = false;
        let mut iterator = bits.area(negation);
        proof {
            assert(done + total =~= total);
        }
        loop
            invariant
                builder.wf(),
                builder.appends() == old(builder).appends(),
                builder.capacity() == old(builder).capacity(),
                builder.pending() == ops0,
                iterator.bits_spec() == bits,
                iterator.negation_spec() == negation,
                iterator.state_spec() <= 256,
                members == members_of(bits),
                total == runs_from(members, negation, 1),
                total == done + runs_from(members, negation, super::bits::area_start(iterator.state_spec() as int)),
                builder.output() == el0 + class_elements(done),
                alternation == (done.len() > 0),
                (el0 + class_elements(total)).len() <= builder.capacity(),
            ensures
                builder.wf(),
                builder.appends() == old(builder).appends(),
                builder.capacity() == old(builder).capacity(),
                builder.pending() == ops0,
                builder.output() == el0 + class_elements(total),
            decreases 257 - iterator.state_spec(),
        {
            let ghost st = iterator.state_spec() as int;
            let next = iterator.next();
            match next {
                None => {
                    proof {
                        assert forall|i: int| super::bits::area_start(st) <= i < 256 implies !member_of(
                            members,
                            negation,
                            i,
                        ) by {
                            assert(!bits.member(negation, i));
                        }
                        lemma_runs_skip(members, negation, super::bits::area_start(st), 256);
                        assert(total =~= done);
                    }
                    break;
                },
                Some((min, max)) => {
                    let ghost a = min as int;
                    let ghost b = max as int;
                    proof {
                        assert forall|i: int| super::bits::area_start(st) <= i < a implies !member_of(
                            members,
                            negation,
                            i,
                        ) by {
                            assert(!bits.member(negation, i));
                        }
                        assert forall|i: int| a <= i <= b implies member_of(members, negation, i) by {
                            assert(bits.member(negation, i));
                        }
                        if b < 255 {
                            assert(!bits.member(negation, b + 1));
                        }
                        lemma_runs_skip(members, negation, super::bits::area_start(st), a);
                        lemma_run_end_is(members, negation, a, b);
                        lemma_runs_skip(members, negation, b + 1, super::bits::area_start(iterator.state_spec() as int));
                        let rest = runs_from(members, negation, super::bits::area_start(iterator.state_spec() as int));
                        assert(runs_from(members, negation, a) == seq![(min, max)] + runs_from(members, negation, b + 1));
                        assert(total =~= done.push((min, max)) + rest);
                        lemma_class_elements_prefix(done.push((min, max)), rest);
                        assert(done.push((min, max)).drop_last() =~= done);
                    }
                    builder.push(45);
                    builder.push(min);
                    builder.push(max);

                    if alternation {
                        builder.push(124);
                    } else {
                        alternation = true;
                    }
                    proof {
                        done = done.push((min, max));
                    }
                },
            }
        }

        let bracket = builder.pop_operator();
        let below = builder.pop_operator();
        proof {
            assert(builder.pending() =~= ops0.drop_last().drop_last());
        }
        if below == Some(1u8) {
            builder.push_operator(38);
        }
        proof {
            assert(nested(builder.pending()));
        }

        Self::InGroups { concatenation: true }
    }

    /// Reads one token in the given state.
    fn handle<SIZE: AllocatorSize>(self, builder: &mut Builder<SIZE>, lexer: &PatternLexer, token: Token) -> (r: Self)
        requires
            old(builder).wf(),
            lexer.wf(),
            mode_ok(mode_of(self), old(builder).pending()),
            token matches Token::Literal { start, length } ==> start + length <= lexer.spec_input().len(),
            match mode_of(self) {
                Mode::InGroups { concatenation } => in_groups(
                    lexer.spec_input(),
                    token,
                    concatenation,
                    old(builder).output(),
                    old(builder).pending(),
                ).1.len() <= old(builder).capacity(),
                Mode::InClasses { negation, members } => in_classes(
                    token,
                    negation,
                    members,
                    old(builder).output(),
                    old(builder).pending(),
                ).1.len() <= old(builder).capacity(),
                _ => true,
            },
        ensures
            final(builder).wf(),
            final(builder).appends() == old(builder).appends(),
            final(builder).capacity() == old(builder).capacity(),
            (mode_of(r), final(builder).output(), final(builder).pending()) == match mode_of(self) {
                Mode::InGroups { concatenation } => in_groups(
                    lexer.spec_input(),
                    token,
                    concatenation,
                    old(builder).output(),
                    old(builder).pending(),
                ),
                Mode::InClasses { negation, members } => in_classes(
                    token,
                    negation,
                    members,
                    old(builder).output(),
                    old(builder).pending(),
                ),
                other => (other, old(builder).output(), old(builder).pending()),
            },
            !(r is Invalid) ==> mode_ok(mode_of(r), final(builder).pending()),
    {
        match self {
            Self::Invalid => Self::Invalid,
            Self::Completed => Self::Completed,
            Self::InGroups { concatenation } => Self::handle_in_groups(builder, lexer, token, concatenation),
            Self::InClasses { negation, bits } => Self::handle_in_classes(builder, token, negation, bits),
        }
    }

    /// Moves the pending `&` operators to the output when what comes next is concatenated.
    fn pop_concatenation<SIZE: AllocatorSize>(builder: &mut Builder<SIZE>, condition: bool)
        requires
            old(builder).wf(),
            pop_concatenation(old(builder).output(), old(builder).pending(), condition).0.len() <= old(builder).capacity(),
        ensures
            final(builder).wf(),
            (final(builder).output(), final(builder).pending()) == pop_concatenation(
                old(builder).output(),
                old(builder).pending(),
                condition,
            ),
            final(builder).appends() == old(builder).appends(),
            final(builder).capacity() == old(builder).capacity(),
    {
        if condition {
            let ghost target = pop_ands(builder.output(), builder.pending());
            while builder.operators.len() > 0
                invariant_except_break
                    pop_ands(builder.output(), builder.pending()) == target,
                invariant
                    builder.wf(),
                    target.0.len() <= builder.capacity(),
                    builder.appends() == old(builder).appends(),
                    builder.capacity() == old(builder).capacity(),
                ensures
                    (builder.output(), builder.pending()) == target,
                decreases builder.operators.len(),
            {
                let top = builder.operators[builder.operators.len() - 1];
                if top == 38 {
                    proof {
                        lemma_pop_ands_grows(builder.output().push(38), builder.pending().drop_last());
                        lemma_prefix_nested(builder.pending(), builder.pending().len() - 1);
                    }
                    builder.operators.pop();
                    builder.push(38);
                } else {
                    break;
                }
            }
        }
    }
}

/// The set of bits with the byte values from `min` to `max` added.
fn with_range(bits: Bits, min: u8, max: u8) -> (r: Bits)
    ensures
        forall|i: int| #[trigger] r.has(i) == (bits.has(i) || (min <= i <= max)),
{
    let mut bits = bits;
    let ghost bits0 = bits;
    let mut idx: u16 = min as u16;
    while idx <= max as u16
        invariant
            min <= idx <= 256,
            idx <= max + 1 || idx == min,
            forall|i: int| #[trigger] bits.has(i) == (bits0.has(i) || (min <= i < idx)),
        decreases 256 - idx,
    {
        bits.set(idx as u8);
        idx = idx + 1;
    }
    bits
}

/// A stack of operators cut short is still nested.
proof fn lemma_prefix_nested(ops: Seq<u8>, k: int)
    requires
        nested(ops),
        0 <= k <= ops.len(),
    ensures
        nested(ops.subrange(0, k)),
{
}


impl<SIZE: AllocatorSize> Builder<SIZE> {
    /// Appends the zero-terminated expression `pattern`, as an alternative to those appended
    /// before; an invalid token stops it with an error, leaving what was read so far.
    pub fn append(&mut self, pattern: Vec<u8>) -> (r: Result<(), RegexError>)
        requires
            old(self).wf(),
            terminated(pattern@, 0),
            old(self).appends() < usize::MAX,
            ({
                let (ok, el, ops) = run(
                    pattern@,
                    0,
                    Mode::InGroups { concatenation: false },
                    old(self).output(),
                    old(self).pending(),
                );
                el.len() + ops.len() + 1 <= old(self).capacity()
            }),
        ensures
            final(self).wf(),
            final(self).capacity() == old(self).capacity(),
            match appended(pattern@, old(self).output(), old(self).pending(), old(self).appends() > 0) {
                Some(out) => {
                    &&& r is Ok
                    &&& final(self).output() == out
                    &&& final(self).pending() == Seq::<u8>::empty()
                    &&& final(self).appends() == old(self).appends() + 1
                },
                None => {
                    let (ok, el, ops) = run(
                        pattern@,
                        0,
                        Mode::InGroups { concatenation: false },
                        old(self).output(),
                        old(self).pending(),
                    );
                    &&& r == Err::<(), RegexError>(RegexError::InvalidRegex {  })
                    &&& final(self).output() == el
                    &&& final(self).pending() == ops
                    &&& final(self).appends() == old(self).appends()
                },
            },
    {
        let ghost s = pattern@;
        let ghost target = run(s, 0, Mode::InGroups { concatenation: false }, self.output(), self.pending());
        assert(pattern@.len() == pattern.len());
        let mut lexer = match PatternLexer::new(pattern) {
            None => return Err(RegexError::InternallyFailed {  }),
            Some(lexer) => lexer,
        };
        let mut state = BuilderState::new();
        let mut invalid = false;

        loop
            invariant_except_break
                !invalid,
                !(state is Invalid),
                run(s, lexer.spec_pos(), mode_of(state), self.output(), self.pending()) == target,
                mode_ok(mode_of(state), self.pending()),
            invariant
                lexer.wf(),
                lexer.spec_input() == s,
                target == run(s, 0, Mode::InGroups { concatenation: false }, old(self).output(), old(self).pending()),
                self.wf(),
                self.appends() == old(self).appends(),
                self.capacity() == old(self).capacity(),
                target.1.len() + target.2.len() + 1 <= self.capacity(),
            ensures
                target == (!invalid, self.output(), self.pending()),
            decreases s.len() - lexer.spec_pos(),
        {
            let ghost pos = lexer.spec_pos();
            let ghost el = self.output();
            let ghost ops = self.pending();
            proof {
                lemma_group_next(s, pos);
                lemma_class_next(s, pos);
            }
            let next = match state {
                BuilderState::InGroups { .. } => lexer.next_in_group(),
                BuilderState::InClasses { .. } => lexer.next_in_class(),
                _ => None,
            };
            let token = match next {
                None => break,
                Some(token) => token,
            };
            let ghost n = lexer.spec_pos() - pos;
            let ghost mode = mode_of(state);
            let ghost step = match mode {
                Mode::InGroups { concatenation } => in_groups(s, token, concatenation, el, ops),
                Mode::InClasses { negation, members } => in_classes(token, negation, members, el, ops),
                other => (other, el, ops),
            };
            proof {
                if !(step.0 is Invalid) {
                    lemma_run_grows(s, pos + n, step.0, step.1, step.2);
                }
                assert(run(s, pos, mode, el, ops) == if step.0 is Invalid {
                    (false, step.1, step.2)
                } else {
                    run(s, pos + n, step.0, step.1, step.2)
                });
            }
            let result = state.handle(self, &lexer, token);
            state = match result {
                BuilderState::Completed => break,
                BuilderState::Invalid => {
                    invalid = true;
                    break;
                },
                state => state,
            };
        }

        if invalid {
            return Err(RegexError::InvalidRegex {  });
        }

        while self.operators.len() > 0
            invariant
                self.wf(),
                self.appends() == old(self).appends(),
                self.capacity() == old(self).capacity(),
                target.1.len() + target.2.len() + 1 <= self.capacity(),
                self.output() + self.pending().reverse() == target.1 + target.2.reverse(),
                self.output().len() + self.pending().len() == target.1.len() + target.2.len(),
            decreases self.operators.len(),
        {
            let ghost before_el = self.output();
            let ghost before_ops = self.pending();
            let val = self.pop_operator().unwrap();
            self.push(val);
            proof {
                assert(before_ops.reverse() =~= seq![val] + before_ops.drop_last().reverse());
                assert(self.output() + self.pending().reverse() =~= before_el + before_ops.reverse());
            }
        }
        proof {
            assert(self.pending().reverse() =~= Seq::<u8>::empty());
            assert(self.output() + self.pending().reverse() =~= self.output());
        }

        if self.counter > 0 {
            self.push(124);
        }
        proof {
            assert(target.1 + target.2.reverse() + seq![124u8] =~= (target.1 + target.2.reverse()).push(124));
            assert(target.1 + target.2.reverse() + Seq::<u8>::empty() =~= target.1 + target.2.reverse());
        }

        self.counter += 1;
        Ok(())
    }

    /// The expression built so far.
    pub fn build(self) -> (r: Result<RPN<SIZE>, RegexError>)
        requires
            self.wf(),
        ensures
            r matches Ok(rpn) && rpn.wf() && rpn.bytes() == self.output(),
    {
        Ok(RPN(self.elements))
    }
}

impl<SIZE: AllocatorSize> RPN<SIZE> {
    /// Builds the reverse Polish notation of the zero-terminated expression `pattern`, over a fresh
    /// block of the allocator.
    pub fn build(allocator: &mut Naive64Pages, pattern: Vec<u8>) -> (r: Result<Self, RegexError>)
        requires
            terminated(pattern@, 0),
            ({
                let (ok, el, ops) = run(
                    pattern@,
                    0,
                    Mode::InGroups { concatenation: false },
                    Seq::empty(),
                    Seq::empty(),
                );
                el.len() + ops.len() + 1 <= SIZE::spec_measure()
            }),
        ensures
            match r {
                Ok(rpn) => rpn.wf() && appended(pattern@, Seq::empty(), Seq::empty(), false) == Some(rpn.bytes()),
                Err(e) => e == (RegexError::NotEnoughHeap {  }) || (e == (RegexError::InvalidRegex {  })
                    && appended(pattern@, Seq::empty(), Seq::empty(), false) is None),
            },
            appended(pattern@, Seq::empty(), Seq::empty(), false) is None ==> r is Err,
            r == Err::<Self, RegexError>(RegexError::NotEnoughHeap {  }) <==> !has_room(
                old(allocator).spec_bitmap(),
                (SIZE::spec_measure() / 4096) as int,
            ),
    {
        let mut builder = match Builder::new(allocator) {
            None => return Err(RegexError::NotEnoughHeap {  }),
            Some(builder) => builder,
        };

        match builder.append(pattern) {
            Err(error) => return Err(error),
            Ok(()) => {},
        }
        builder.build()
    }

    /// A builder to append expressions to, over a fresh block of the allocator.
    pub fn builder(allocator: &mut Naive64Pages) -> (r: Option<Builder<SIZE>>)
        ensures
            r is Some <==> has_room(old(allocator).spec_bitmap(), (SIZE::spec_measure() / 4096) as int),
            r is Some ==> took_first_run(
                old(allocator).spec_bitmap(),
                final(allocator).spec_bitmap(),
                (SIZE::spec_measure() / 4096) as int,
            ),
            match r {
                Some(b) => {
                    &&& b.wf()
                    &&& b.output() == Seq::<u8>::empty()
                    &&& b.pending() == Seq::<u8>::empty()
                    &&& b.appends() == 0
                    &&& b.capacity() == SIZE::spec_measure()
                },
                None => final(allocator).spec_bitmap() == old(allocator).spec_bitmap(),
            },
    {
        Builder::new(allocator)
    }
}

} // verus!
