use vstd::prelude::*;

verus! {

/// Whether a zero byte ends the input at or after `pos`.
pub open spec fn terminated(s: Seq<u8>, pos: int) -> bool {
    exists|k: int| pos <= k < s.len() && s[k] == 0
}

pub proof fn lemma_terminated_step(s: Seq<u8>, pos: int)
    requires
        0 <= pos,
        terminated(s, pos),
        s[pos] != 0,
    ensures
        terminated(s, pos + 1),
        pos + 1 < s.len(),
{
    let k = choose|k: int| pos <= k < s.len() && s[k] == 0;
    assert(k != pos);
}

/// A byte that stands alone as a token in a group: an opening or closing bracket or an either.
pub open spec fn is_group_op(c: u8) -> bool {
    c == 40 || c == 41 || c == 91 || c == 124
}

/// A quantifier: `*`, `+` or `?`.
pub open spec fn is_quant(c: u8) -> bool {
    c == 42 || c == 43 || c == 63
}

/// The length of a literal run that starts at `pos`, scanned on from offset `off`: it stops before
/// the end of input, before an operator (and, with `markers`, before `#`), leaves its last byte to a
/// following quantifier, and takes at most 9 bytes.
pub open spec fn run_len(s: Seq<u8>, pos: int, off: int, markers: bool) -> int
    decreases 9 - off,
{
    if off < 1 || off >= 9 {
        9
    } else {
        let v = s[pos + off];
        if v == 0 || is_group_op(v) || (markers && v == 35) {
            off
        } else if is_quant(v) {
            if off == 1 {
                1
            } else {
                off - 1
            }
        } else if off + 1 == 9 {
            9
        } else {
            run_len(s, pos, off + 1, markers)
        }
    }
}

/// The length of the next token in a group at `pos`, or `None` at the end of input.
pub open spec fn group_token(s: Seq<u8>, pos: int, markers: bool) -> Option<int> {
    let v = s[pos];
    if v == 0 {
        None
    } else if markers && v == 35 && s[pos + 1] > 0 {
        Some(2)
    } else if is_group_op(v) || is_quant(v) {
        Some(1)
    } else if markers && v == 35 {
        Some(0)
    } else {
        Some(run_len(s, pos, 1, markers))
    }
}

/// The next token in a class at `pos`: its first byte, the upper end of a range (or 0 for `^` and
/// `]`), and how many bytes it takes.
pub open spec fn class_token(s: Seq<u8>, pos: int) -> (u8, u8, int) {
    let v = s[pos];
    if v == 0 {
        (0, 0, 0)
    } else if v == 94 {
        (94, 0, 1)
    } else if v == 93 {
        (93, 0, 1)
    } else if s[pos + 1] != 45 || s[pos + 2] == 0 || s[pos + 2] == 93 {
        (v, v, 1)
    } else {
        (v, s[pos + 2], 3)
    }
}

pub proof fn lemma_run_len(s: Seq<u8>, pos: int, off: int, markers: bool)
    requires
        0 <= pos,
        1 <= off <= 8,
        terminated(s, pos + off),
    ensures
        1 <= run_len(s, pos, off, markers) <= 9,
        run_len(s, pos, off, markers) <= off ==> run_len(s, pos, off, markers) >= off - 1,
        terminated(s, pos + run_len(s, pos, off, markers)),
    decreases 9 - off,
{
    let v = s[pos + off];
    if v == 0 || is_group_op(v) || (markers && v == 35) || is_quant(v) {
        if is_quant(v) && off > 1 {
            let k = choose|k: int| pos + off <= k < s.len() && s[k] == 0;
            assert(pos + off - 1 <= k);
        }
        if is_quant(v) && off == 1 {
            let k = choose|k: int| pos + off <= k < s.len() && s[k] == 0;
            assert(pos + 1 <= k);
        }
    } else {
        lemma_terminated_step(s, pos + off);
        if off + 1 < 9 {
            lemma_run_len(s, pos, off + 1, markers);
        }
    }
}

pub proof fn lemma_group_token(s: Seq<u8>, pos: int, markers: bool)
    requires
        0 <= pos,
        terminated(s, pos),
    ensures
        pos < s.len(),
        s[pos] != 0 ==> group_token(s, pos, markers) is Some,
        group_token(s, pos, markers) matches Some(len) ==> 0 <= len <= 9 && (!markers ==> len >= 1),
{
    let k = choose|k: int| pos <= k < s.len() && s[k] == 0;
    if s[pos] != 0 {
        lemma_terminated_step(s, pos);
        lemma_run_len(s, pos, 1, markers);
    }
}

/// Splits a regular expression into tokens; `#` followed by a byte is a marker.
pub struct Lexer {
    input: Vec<u8>,
    pos: usize,
}

impl Lexer {
    pub closed spec fn spec_input(&self) -> Seq<u8> {
        self.input@
    }

    pub closed spec fn spec_pos(&self) -> int {
        self.pos as int
    }

    /// The input is still ended by a zero byte.
    pub open spec fn wf(&self) -> bool {
        0 <= self.spec_pos() && terminated(self.spec_input(), self.spec_pos()) && self.spec_input().len() <= usize::MAX
    }

    pub fn new(input: Vec<u8>) -> (r: Option<Self>)
        ensures
            match r {
                Some(l) => l.spec_input() == input@ && l.spec_pos() == 0,
                None => false,
            },
    {
        Some(Lexer { input, pos: 0 })
    }

    /// The position of the next byte to read.
    pub fn position(&self) -> (r: usize)
        ensures
            r == self.spec_pos(),
    {
        self.pos
    }

    fn at(&self, off: usize) -> (r: u8)
        requires
            self.spec_pos() + off < self.spec_input().len(),
        ensures
            r == self.spec_input()[self.spec_pos() + off],
    {
        assert(self.input@.len() == self.input.len());
        self.input[self.pos + off]
    }

    /// The next token in a group: its position and length, or `None` at the end of input.
    pub fn next_in_group(&mut self) -> (r: Option<(usize, u8)>)
        requires
            old(self).wf(),
        ensures
            final(self).wf(),
            final(self).spec_input() == old(self).spec_input(),
            match group_token(old(self).spec_input(), old(self).spec_pos(), true) {
                None => r is None && final(self).spec_pos() == old(self).spec_pos(),
                Some(len) => r matches Some((p, l)) && p == old(self).spec_pos() && l == len && final(self).spec_pos()
                    == old(self).spec_pos() + len,
            },
    {
        let ghost s = self.input@;
        let ghost pos = self.pos as int;
        assert(self.input@.len() == self.input.len());
        proof {
            let k = choose|k: int| pos <= k < s.len() && s[k] == 0;
        }
        let first = self.at(0);
        if first == 0 {
            return None;
        }
        proof {
            lemma_terminated_step(s, pos);
        }
        let len: usize = if first == 35 && self.at(1) > 0 {
            proof {
                lemma_terminated_step(s, pos + 1);
            }
            2
        } else if first == 40 || first == 41 || first == 91 || first == 124 || first == 42 || first == 43 || first == 63 {
            1
        } else if first == 35 {
            0
        } else {
            proof {
                lemma_run_len(s, pos, 1, true);
            }
            let mut off: usize = 1;
            loop
                invariant_except_break
                    1 <= off <= 8,
                    terminated(s, pos + off),
                    run_len(s, pos, off as int, true) == run_len(s, pos, 1, true),
                invariant
                    s == self.input@,
                    pos == self.pos,
                    terminated(s, pos),
                ensures
                    off == run_len(s, pos, 1, true),
                decreases 9 - off,
            {
                let value = self.at(off);
                if value == 0 || value == 40 || value == 41 || value == 91 || value == 124 || value == 35 {
                    break;
                }
                if value == 42 || value == 43 || value == 63 {
                    if off > 1 {
                        off = off - 1;
                    }
                    break;
                }
                proof {
                    lemma_terminated_step(s, pos + off);
                }
                off = off + 1;
                let _peek = self.at(off);
                if off == 9 {
                    break;
                }
            }
            off
        };
        proof {
            if len > 2 || (len == 1 && !(first == 40 || first == 41 || first == 91 || first == 124 || first == 42
                || first == 43 || first == 63)) {
                lemma_run_len(s, pos, 1, true);
            }
            if len == 1 && (first == 40 || first == 41 || first == 91 || first == 124 || first == 42 || first == 43
                || first == 63) {
            }
        }
        let start = self.pos;
        self.pos = self.pos + len;
        Some((start, len as u8))
    }

    /// The next token in a class: its first byte and the upper end of a range (`0` for `^`, `]`
    /// and the end of input).
    pub fn next_in_class(&mut self) -> (r: (u8, u8))
        requires
            old(self).wf(),
        ensures
            final(self).wf(),
            final(self).spec_input() == old(self).spec_input(),
            ({
                let t = class_token(old(self).spec_input(), old(self).spec_pos());
                r == (t.0, t.1) && final(self).spec_pos() == old(self).spec_pos() + t.2
            }),
    {
        let ghost s = self.input@;
        let ghost pos = self.pos as int;
        assert(self.input@.len() == self.input.len());
        proof {
            let k = choose|k: int| pos <= k < s.len() && s[k] == 0;
        }
        let first = self.at(0);
        if first == 0 {
            return (0, 0);
        }
        proof {
            lemma_terminated_step(s, pos);
        }
        if first == 94 || first == 93 {
            self.pos = self.pos + 1;
            return (first, 0);
        }
        let dash = self.at(1);
        if dash != 45 {
            self.pos = self.pos + 1;
            return (first, first);
        }
        proof {
            lemma_terminated_step(s, pos + 1);
        }
        let last = self.at(2);
        if last == 0 || last == 93 {
            self.pos = self.pos + 1;
            return (first, first);
        }
        proof {
            lemma_terminated_step(s, pos + 2);
        }
        self.pos = self.pos + 3;
        (first, last)
    }
}


/// A token of a regular expression. A literal is a run of bytes of the input, by its offset and
/// length.
#[derive(PartialEq, Eq, Structural, Debug, Clone, Copy)]
pub enum Token {
    Literal { start: usize, length: usize },
    Marker { value: u8 },
    OpenGroup {},
    CloseGroup {},
    NegateClass {},
    OpenClass {},
    CloseClass {},
    RangeClass { min: u8, max: u8 },
    Either {},
    Plus {},
    Optional {},
    Star {},
}

/// A byte that stands for itself in a group: anything but the end of input, a bracket, an
/// operator, `#` and `\`.
pub open spec fn plain(c: u8) -> bool {
    c != 0 && c != 40 && c != 41 && c != 91 && c != 124 && !is_quant(c) && c != 35 && c != 92
}

/// The number of bytes from `pos` on that stand for themselves.
pub open spec fn plain_len(s: Seq<u8>, pos: int) -> int
    decreases s.len() - pos,
{
    if 0 <= pos < s.len() && plain(s[pos]) {
        1 + plain_len(s, pos + 1)
    } else {
        0
    }
}

/// The length of the literal at `pos`: the bytes that stand for themselves, less the last one when
/// a quantifier follows, which then takes that byte alone.
pub open spec fn literal_len(s: Seq<u8>, pos: int) -> int {
    let k = plain_len(s, pos);
    if k > 1 && is_quant(s[pos + k]) {
        k - 1
    } else {
        k
    }
}

/// The next token in a group at `pos` and the number of bytes it takes; `None` at the end of
/// input and where `#` or `\` has no byte after it.
pub open spec fn group_next(s: Seq<u8>, pos: int) -> Option<(Token, int)> {
    let v = s[pos];
    if v == 0 {
        None
    } else if v == 40 {
        Some((Token::OpenGroup {}, 1))
    } else if v == 41 {
        Some((Token::CloseGroup {}, 1))
    } else if v == 91 {
        Some((Token::OpenClass {}, 1))
    } else if v == 124 {
        Some((Token::Either {}, 1))
    } else if v == 42 {
        Some((Token::Star {}, 1))
    } else if v == 43 {
        Some((Token::Plus {}, 1))
    } else if v == 63 {
        Some((Token::Optional {}, 1))
    } else if v == 35 {
        if s[pos + 1] != 0 {
            Some((Token::Marker { value: s[pos + 1] }, 2))
        } else {
            None
        }
    } else if v == 92 {
        if s[pos + 1] != 0 {
            Some((Token::Literal { start: (pos + 1) as usize, length: 1 }, 2))
        } else {
            None
        }
    } else {
        Some((Token::Literal { start: pos as usize, length: literal_len(s, pos) as usize }, literal_len(s, pos)))
    }
}

/// A byte that stands for itself in a class: anything but the end of input, `-`, `\`, `]` and `^`.
pub open spec fn single(c: u8) -> bool {
    c != 0 && c != 45 && c != 92 && c != 93 && c != 94
}

/// One end of a range in a class at `pos`: a byte that stands for itself, or any byte after `\`;
/// with the number of bytes it takes.
pub open spec fn class_end(s: Seq<u8>, pos: int) -> Option<(u8, int)> {
    let v = s[pos];
    if v == 92 {
        if s[pos + 1] != 0 {
            Some((s[pos + 1], 2))
        } else {
            None
        }
    } else if single(v) {
        Some((v, 1))
    } else {
        None
    }
}

/// The next token in a class at `pos` and the number of bytes it takes: `^`, `]`, or a range of
/// one end, or of two ends around `-` where both are there; `None` otherwise.
pub open spec fn class_next(s: Seq<u8>, pos: int) -> Option<(Token, int)> {
    let v = s[pos];
    if v == 0 {
        None
    } else if v == 94 {
        Some((Token::NegateClass {}, 1))
    } else if v == 93 {
        Some((Token::CloseClass {}, 1))
    } else {
        match class_end(s, pos) {
            None => None,
            Some((min, n1)) => if s[pos + n1] == 45 {
                match class_end(s, pos + n1 + 1) {
                    Some((max, n2)) => Some((Token::RangeClass { min, max }, n1 + 1 + n2)),
                    None => Some((Token::RangeClass { min, max: min }, n1)),
                }
            } else {
                Some((Token::RangeClass { min, max: min }, n1))
            },
        }
    }
}

/// The bytes from `pos` up to the first zero byte stand for themselves as far as `plain_len`
/// counts, and that run stops before the zero.
pub proof fn lemma_plain_len(s: Seq<u8>, pos: int)
    requires
        0 <= pos,
        terminated(s, pos),
    ensures
        0 <= plain_len(s, pos),
        pos + plain_len(s, pos) < s.len(),
        terminated(s, pos + plain_len(s, pos)),
        forall|k: int| pos <= k < pos + plain_len(s, pos) ==> plain(#[trigger] s[k]),
        !plain(s[pos + plain_len(s, pos)]),
    decreases s.len() - pos,
{
    let z = choose|z: int| pos <= z < s.len() && s[z] == 0;
    if plain(s[pos]) {
        lemma_terminated_step(s, pos);
        lemma_plain_len(s, pos + 1);
    }
}

/// Splits a pattern into the tokens that the builder of reverse Polish notation reads, in a group
/// or in a class as the caller asks: groups, classes, alternation, the quantifiers, markers and
/// literals.
pub struct PatternLexer {
    data: Vec<u8>,
    pos: usize,
}

impl PatternLexer {
    pub closed spec fn spec_input(&self) -> Seq<u8> {
        self.data@
    }

    pub closed spec fn spec_pos(&self) -> int {
        self.pos as int
    }

    /// The input is still ended by a zero byte.
    pub open spec fn wf(&self) -> bool {
        0 <= self.spec_pos() && terminated(self.spec_input(), self.spec_pos()) && self.spec_input().len() <= usize::MAX
    }

    pub fn new(data: Vec<u8>) -> (r: Option<Self>)
        ensures
            match r {
                Some(l) => l.spec_input() == data@ && l.spec_pos() == 0,
                None => false,
            },
    {
        Some(PatternLexer { data, pos: 0 })
    }

    /// The position of the next byte to read.
    pub fn position(&self) -> (r: usize)
        ensures
            r == self.spec_pos(),
    {
        self.pos
    }

    /// The byte at offset `off` of the input.
    pub fn byte_at(&self, off: usize) -> (r: u8)
        requires
            off < self.spec_input().len(),
        ensures
            r == self.spec_input()[off as int],
    {
        self.data[off]
    }

    fn at(&self, off: usize) -> (r: u8)
        requires
            self.spec_pos() + off < self.spec_input().len(),
        ensures
            r == self.spec_input()[self.spec_pos() + off],
    {
        assert(self.data@.len() == self.data.len());
        self.data[self.pos + off]
    }

    /// The next token in a group, or `None` where `group_next` finds none; the position moves past
    /// the token.
    pub fn next_in_group(&mut self) -> (r: Option<Token>)
        requires
            old(self).wf(),
        ensures
            final(self).wf(),
            final(self).spec_input() == old(self).spec_input(),
            match group_next(old(self).spec_input(), old(self).spec_pos()) {
                None => r is None && final(self).spec_pos() == old(self).spec_pos(),
                Some((t, n)) => r == Some(t) && final(self).spec_pos() == old(self).spec_pos() + n,
            },
    {
        let ghost s = self.data@;
        let ghost pos = self.pos as int;
        assert(self.data@.len() == self.data.len());
        proof {
            let k = choose|k: int| pos <= k < s.len() && s[k] == 0;
        }
        let v = self.at(0);
        if v == 0 {
            return None;
        }
        proof {
            lemma_terminated_step(s, pos);
        }
        let (token, len): (Token, usize) = if v == 40 {
            (Token::OpenGroup {}, 1)
        } else if v == 41 {
            (Token::CloseGroup {}, 1)
        } else if v == 91 {
            (Token::OpenClass {}, 1)
        } else if v == 124 {
            (Token::Either {}, 1)
        } else if v == 42 {
            (Token::Star {}, 1)
        } else if v == 43 {
            (Token::Plus {}, 1)
        } else if v == 63 {
            (Token::Optional {}, 1)
        } else if v == 35 || v == 92 {
            let next = self.at(1);
            if next == 0 {
                return None;
            }
            proof {
                lemma_terminated_step(s, pos + 1);
            }
            if v == 35 {
                (Token::Marker { value: next }, 2)
            } else {
                (Token::Literal { start: self.pos + 1, length: 1 }, 2)
            }
        } else {
            proof {
                lemma_plain_len(s, pos);
            }
            let mut k: usize = 1;
            while plain_byte(self.at(k))
                invariant
                    s == self.data@,
                    s.len() == self.data.len(),
                    pos == self.pos,
                    1 <= k <= plain_len(s, pos),
                    pos + plain_len(s, pos) < s.len(),
                    forall|j: int| pos <= j < pos + plain_len(s, pos) ==> plain(#[trigger] s[j]),
                    !plain(s[pos + plain_len(s, pos)]),
                decreases plain_len(s, pos) - k,
            {
                k = k + 1;
            }
            let after = self.at(k);
            let len = if k > 1 && (after == 42 || after == 43 || after == 63) {
                k - 1
            } else {
                k
            };
            (Token::Literal { start: self.pos, length: len }, len)
        };
        proof {
            if plain(v) {
                lemma_plain_len(s, pos);
                lemma_terminated_step(s, pos + len - 1);
            }
        }
        self.pos = self.pos + len;
        Some(token)
    }

    /// The next token in a class, or `None` where `class_next` finds none; the position moves past
    /// the token.
    pub fn next_in_class(&mut self) -> (r: Option<Token>)
        requires
            old(self).wf(),
        ensures
            final(self).wf(),
            final(self).spec_input() == old(self).spec_input(),
            match class_next(old(self).spec_input(), old(self).spec_pos()) {
                None => r is None && final(self).spec_pos() == old(self).spec_pos(),
                Some((t, n)) => r == Some(t) && final(self).spec_pos() == old(self).spec_pos() + n,
            },
    {
        let ghost s = self.data@;
        let ghost pos = self.pos as int;
        proof {
            let k = choose|k: int| pos <= k < s.len() && s[k] == 0;
        }
        let v = self.at(0);
        if v == 0 {
            return None;
        }
        proof {
            lemma_terminated_step(s, pos);
        }
        if v == 94 {
            self.pos = self.pos + 1;
            return Some(Token::NegateClass {});
        }
        if v == 93 {
            self.pos = self.pos + 1;
            return Some(Token::CloseClass {});
        }
        let (min, n1) = match self.class_end(0) {
            None => return None,
            Some(end) => end,
        };
        let dash = self.at(n1);
        if dash != 45 {
            self.pos = self.pos + n1;
            return Some(Token::RangeClass { min, max: min });
        }
        proof {
            lemma_terminated_step(s, pos + n1);
        }
        match self.class_end(n1 + 1) {
            None => {
                self.pos = self.pos + n1;
                Some(Token::RangeClass { min, max: min })
            },
            Some((max, n2)) => {
                self.pos = self.pos + n1 + 1 + n2;
                Some(Token::RangeClass { min, max })
            },
        }
    }

    /// One end of a range at offset `off` from the position, as `class_end` reads it.
    fn class_end(&self, off: usize) -> (r: Option<(u8, usize)>)
        requires
            self.wf(),
            terminated(self.spec_input(), self.spec_pos() + off),
        ensures
            match class_end(self.spec_input(), self.spec_pos() + off) {
                None => r is None,
                Some((b, n)) => r == Some((b, n as usize)) && terminated(self.spec_input(), self.spec_pos() + off + n - 1)
                    && self.spec_input()[self.spec_pos() + off + n - 1] != 0,
            },
    {
        let ghost s = self.data@;
        let ghost p = self.pos + off;
        proof {
            let k = choose|k: int| p <= k < s.len() && s[k] == 0;
        }
        let v = self.at(off);
        if v == 92 {
            proof {
                if v != 0 {
                    lemma_terminated_step(s, p);
                }
            }
            let next = self.at(off + 1);
            if next != 0 {
                proof {
                    lemma_terminated_step(s, p + 1);
                }
                Some((next, 2))
            } else {
                None
            }
        } else if v != 0 && v != 45 && v != 92 && v != 93 && v != 94 {
            Some((v, 1))
        } else {
            None
        }
    }
}

/// Whether a byte stands for itself in a group.
fn plain_byte(c: u8) -> (r: bool)
    ensures
        r == plain(c),
{
    c != 0 && c != 40 && c != 41 && c != 91 && c != 124 && c != 42 && c != 43 && c != 63 && c != 35 && c != 92
}

/// A byte of a literal under the group rules of `Lexer2`: a lowercase letter.
pub open spec fn lower(c: u8) -> bool {
    97 <= c <= 122
}

/// The number of lowercase letters from `pos` on.
pub open spec fn lower_len(s: Seq<u8>, pos: int) -> int
    decreases s.len() - pos,
{
    if 0 <= pos < s.len() && lower(s[pos]) {
        1 + lower_len(s, pos + 1)
    } else {
        0
    }
}

/// The next token in a group at `pos` under the rules of `Lexer2`, and the number of bytes it
/// takes: a run of lowercase letters is a literal, `#` and a byte other than zero a marker, `[`
/// opens a class, and `(` as well as `)` give an opening group; no other byte starts a token.
pub open spec fn group_rule(s: Seq<u8>, pos: int) -> Option<(Token, int)> {
    let v = s[pos];
    if lower(v) {
        Some((Token::Literal { start: pos as usize, length: lower_len(s, pos) as usize }, lower_len(s, pos)))
    } else if v == 35 {
        if s[pos + 1] != 0 {
            Some((Token::Marker { value: s[pos + 1] }, 2))
        } else {
            None
        }
    } else if v == 91 {
        Some((Token::OpenClass {}, 1))
    } else if v == 40 || v == 41 {
        Some((Token::OpenGroup {}, 1))
    } else {
        None
    }
}

/// The lowercase letters from `pos` up to the first zero byte as far as `lower_len` counts, and
/// the run stops before the zero.
pub proof fn lemma_lower_len(s: Seq<u8>, pos: int)
    requires
        0 <= pos,
        terminated(s, pos),
    ensures
        0 <= lower_len(s, pos),
        pos + lower_len(s, pos) < s.len(),
        terminated(s, pos + lower_len(s, pos)),
        forall|k: int| pos <= k < pos + lower_len(s, pos) ==> lower(#[trigger] s[k]),
        !lower(s[pos + lower_len(s, pos)]),
    decreases s.len() - pos,
{
    let z = choose|z: int| pos <= z < s.len() && s[z] == 0;
    if lower(s[pos]) {
        lemma_terminated_step(s, pos);
        lemma_lower_len(s, pos + 1);
    }
}

/// The token reader of the original two-mode lexer: in a group it knows literals of lowercase
/// letters, markers, `[` and the group brackets (both read as an opening group); in a class it
/// reads as `PatternLexer` does.
pub struct Lexer2 {
    inner: PatternLexer,
}

impl Lexer2 {
    pub closed spec fn spec_input(&self) -> Seq<u8> {
        self.inner.spec_input()
    }

    pub closed spec fn spec_pos(&self) -> int {
        self.inner.spec_pos()
    }

    /// The input is still ended by a zero byte.
    pub open spec fn wf(&self) -> bool {
        0 <= self.spec_pos() && terminated(self.spec_input(), self.spec_pos()) && self.spec_input().len() <= usize::MAX
    }

    pub fn new(data: Vec<u8>) -> (r: Option<Self>)
        ensures
            match r {
                Some(l) => l.spec_input() == data@ && l.spec_pos() == 0,
                None => false,
            },
    {
        Some(Lexer2 { inner: PatternLexer { data, pos: 0 } })
    }

    /// The position of the next byte to read.
    pub fn position(&self) -> (r: usize)
        ensures
            r == self.spec_pos(),
    {
        self.inner.pos
    }

    /// The next token in a group, or `None` where `group_rule` finds none; the position moves past
    /// the token.
    pub fn next_in_group(&mut self) -> (r: Option<Token>)
        requires
            old(self).wf(),
        ensures
            final(self).wf(),
            final(self).spec_input() == old(self).spec_input(),
            match group_rule(old(self).spec_input(), old(self).spec_pos()) {
                None => r is None && final(self).spec_pos() == old(self).spec_pos(),
                Some((t, n)) => r == Some(t) && final(self).spec_pos() == old(self).spec_pos() + n,
            },
    {
        let ghost s = self.inner.data@;
        let ghost pos = self.inner.pos as int;
        assert(self.inner.data@.len() == self.inner.data.len());
        proof {
            let k = choose|k: int| pos <= k < s.len() && s[k] == 0;
        }
        let v = self.inner.at(0);
        if v == 0 {
            return None;
        }
        proof {
            lemma_terminated_step(s, pos);
        }
        if v == 35 {
            let next = self.inner.at(1);
            if next == 0 {
                return None;
            }
            proof {
                lemma_terminated_step(s, pos + 1);
            }
            self.inner.pos = self.inner.pos + 2;
            return Some(Token::Marker { value: next });
        }
        if v == 91 {
            self.inner.pos = self.inner.pos + 1;
            return Some(Token::OpenClass {});
        }
        if v == 40 || v == 41 {
            self.inner.pos = self.inner.pos + 1;
            return Some(Token::OpenGroup {});
        }
        if !lower_byte(v) {
            return None;
        }
        proof {
            lemma_lower_len(s, pos);
        }
        let mut k: usize = 1;
        while lower_byte(self.inner.at(k))
            invariant
                s == self.inner.data@,
                s.len() == self.inner.data.len(),
                pos == self.inner.pos,
                1 <= k <= lower_len(s, pos),
                pos + lower_len(s, pos) < s.len(),
                forall|j: int| pos <= j < pos + lower_len(s, pos) ==> lower(#[trigger] s[j]),
                !lower(s[pos + lower_len(s, pos)]),
            decreases lower_len(s, pos) - k,
        {
            k = k + 1;
        }
        let start = self.inner.pos;
        self.inner.pos = start + k;
        Some(Token::Literal { start, length: k })
    }

    /// The next token in a class, read as `PatternLexer::next_in_class` reads it.
    pub fn next_in_class(&mut self) -> (r: Option<Token>)
        requires
            old(self).wf(),
        ensures
            final(self).wf(),
            final(self).spec_input() == old(self).spec_input(),
            match class_next(old(self).spec_input(), old(self).spec_pos()) {
                None => r is None && final(self).spec_pos() == old(self).spec_pos(),
                Some((t, n)) => r == Some(t) && final(self).spec_pos() == old(self).spec_pos() + n,
            },
    {
        self.inner.next_in_class()
    }
}

/// Whether a byte is a lowercase letter.
fn lower_byte(c: u8) -> (r: bool)
    ensures
        r == lower(c),
{
    97 <= c && c <= 122
}

} // verus!
