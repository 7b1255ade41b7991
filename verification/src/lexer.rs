use vstd::prelude::*;

use crate::regex::lexer::{class_token, group_token, lemma_run_len, lemma_terminated_step, run_len, terminated};

verus! {

/// Splits a regular expression into tokens.
pub struct Tokenizer {
    input: Vec<u8>,
    pos: usize,
}

impl Tokenizer {
    pub closed spec fn spec_input(&self) -> Seq<u8> {
        self.input@
    }

    pub closed spec fn spec_pos(&self) -> int {
        self.pos as int
    }

    /// The input is still ended by a zero byte.
    pub open spec fn wf(&self) -> bool {
        0 <= self.spec_pos() && terminated(self.spec_input(), self.spec_pos()) && self.spec_input().len() <= usize::MAX
    }

    pub fn new(input: Vec<u8>) -> (r: Self)
        ensures
            r.spec_input() == input@,
            r.spec_pos() == 0,
    {
        Tokenizer { input, pos: 0 }
    }

    /// The byte at `idx` of the input.
    pub fn byte_at(&self, idx: usize) -> (r: u8)
        requires
            idx < self.spec_input().len(),
        ensures
            r == self.spec_input()[idx as int],
    {
        self.input[idx]
    }

    /// The position of the next byte to read.
    pub fn position(&self) -> (r: usize)
        ensures
            r == self.spec_pos(),
    {
        self.pos
    }

    fn at(&self, off: usize) -> (r: u8)
        requires
            self.spec_pos() + off < self.spec_input().len(),
        ensures
            r == self.spec_input()[self.spec_pos() + off],
    {
        assert(self.input@.len() == self.input.len());
        self.input[self.pos + off]
    }

    /// The next token in a group: its position and length, or `None` at the end of input.
    pub fn next_in_group(&mut self) -> (r: Option<(usize, u8)>)
        requires
            old(self).wf(),
        ensures
            final(self).wf(),
            final(self).spec_input() == old(self).spec_input(),
            match group_token(old(self).spec_input(), old(self).spec_pos(), false) {
                None => r is None && final(self).spec_pos() == old(self).spec_pos(),
                Some(len) => r matches Some((p, l)) && p == old(self).spec_pos() && l == len && final(self).spec_pos()
                    == old(self).spec_pos() + len,
            },
    {
        let ghost s = self.input@;
        let ghost pos = self.pos as int;
        assert(self.input@.len() == self.input.len());
        proof {
            let k = choose|k: int| pos <= k < s.len() && s[k] == 0;
        }
        let first = self.at(0);
        if first == 0 {
            return None;
        }
        proof {
            lemma_terminated_step(s, pos);
        }
        let len: usize = if first == 40 || first == 41 || first == 91 || first == 124 || first == 42 || first == 43 || first == 63 {
            1
        } else {
            proof {
                lemma_run_len(s, pos, 1, false);
            }
            let mut off: usize = 1;
            loop
                invariant_except_break
                    1 <= off <= 8,
                    terminated(s, pos + off),
                    run_len(s, pos, off as int, false) == run_len(s, pos, 1, false),
                invariant
                    s == self.input@,
                    pos == self.pos,
                    terminated(s, pos),
                ensures
                    off == run_len(s, pos, 1, false),
                decreases 9 - off,
            {
                let value = self.at(off);
                if value == 0 || value == 40 || value == 41 || value == 91 || value == 124 {
                    break;
                }
                if value == 42 || value == 43 || value == 63 {
                    if off > 1 {
                        off = off - 1;
                    }
                    break;
                }
                proof {
                    lemma_terminated_step(s, pos + off);
                }
                off = off + 1;
                let _peek = self.at(off);
                if off == 9 {
                    break;
                }
            }
            off
        };
        proof {
            if len > 1 || (len == 1 && !(first == 40 || first == 41 || first == 91 || first == 124 || first == 42
                || first == 43 || first == 63)) {
                lemma_run_len(s, pos, 1, false);
            }
            if len == 1 && (first == 40 || first == 41 || first == 91 || first == 124 || first == 42 || first == 43
                || first == 63) {
            }
        }
        let start = self.pos;
        self.pos = self.pos + len;
        Some((start, len as u8))
    }

    /// The next token in a class: its first byte and the upper end of a range (`0` for `^`, `]`
    /// and the end of input).
    pub fn next_in_class(&mut self) -> (r: (u8, u8))
        requires
            old(self).wf(),
        ensures
            final(self).wf(),
            final(self).spec_input() == old(self).spec_input(),
            ({
                let t = class_token(old(self).spec_input(), old(self).spec_pos());
                r == (t.0, t.1) && final(self).spec_pos() == old(self).spec_pos() + t.2
            }),
    {
        let ghost s = self.input@;
        let ghost pos = self.pos as int;
        assert(self.input@.len() == self.input.len());
        proof {
            let k = choose|k: int| pos <= k < s.len() && s[k] == 0;
        }
        let first = self.at(0);
        if first == 0 {
            return (0, 0);
        }
        proof {
            lemma_terminated_step(s, pos);
        }
        if first == 94 || first == 93 {
            self.pos = self.pos + 1;
            return (first, 0);
        }
        let dash = self.at(1);
        if dash != 45 {
            self.pos = self.pos + 1;
            return (first, first);
        }
        proof {
            lemma_terminated_step(s, pos + 1);
        }
        let last = self.at(2);
        if last == 0 || last == 93 {
            self.pos = self.pos + 1;
            return (first, first);
        }
        proof {
            lemma_terminated_step(s, pos + 2);
        }
        self.pos = self.pos + 3;
        (first, last)
    }
}

} // verus!
