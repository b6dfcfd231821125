//! The executable output engine: buffer, prefix, wrapping and escaping.
//!
//! Every method performs exactly the transition stated by the corresponding
//! function of `model`, so the whole engine is pinned to the mathematical
//! state machine.

use vstd::prelude::*;
use crate::chars::{is_space, is_digit, is_alpha, is_space_b, is_digit_b};
use crate::model::{
    St, Escaping, clamp_tight, flush_seq, flush_cr, hex_digit, needs_escaping, outc_sp,
    begin_pref, skip_spaces, wrap_chk, byte_step, out_from, output_sp, cr_sp, blankline_sp,
    lemma_skip_spaces_bounds, lemma_flush_seq_neg,
};

verus! {

/// The renderer instance: output buffer, prefix stack, column tracking,
/// deferred newlines and the flag set, plus the two rendering options.
pub struct CommonMarkFormatter {
    pub v: Vec<u8>,
    pub prefix: Vec<u8>,
    pub column: usize,
    pub need_cr: u8,
    pub last_breakable: usize,
    pub begin_line: bool,
    pub begin_content: bool,
    pub no_linebreaks: bool,
    pub in_tight_list_item: bool,
    pub width: usize,
    pub hardbreaks: bool,
}

impl CommonMarkFormatter {
    /// Abstraction to the model state.
    pub open spec fn m(&self) -> St {
        St {
            v: self.v@,
            prefix: self.prefix@,
            column: self.column as nat,
            need_cr: self.need_cr as nat,
            last_breakable: self.last_breakable as nat,
            begin_line: self.begin_line,
            begin_content: self.begin_content,
            no_linebreaks: self.no_linebreaks,
            in_tight: self.in_tight_list_item,
            width: self.width as nat,
            hardbreaks: self.hardbreaks,
        }
    }

    /// The machine-level state invariant: the column never runs ahead of the
    /// buffer, the deferred-newline level is 0, 1 or 2, and the breakable
    /// point stays inside the buffer.
    pub open spec fn inv(&self) -> bool {
        &&& self.column <= self.v.len()
        &&& self.need_cr <= 2
        &&& (self.last_breakable == 0 || self.last_breakable < self.v.len())
    }

    pub fn new(width: usize, hardbreaks: bool) -> (r: Self)
        ensures
            r.inv(),
            r.m() == (St {
                v: Seq::<u8>::empty(),
                prefix: Seq::<u8>::empty(),
                column: 0,
                need_cr: 0,
                last_breakable: 0,
                begin_line: true,
                begin_content: true,
                no_linebreaks: false,
                in_tight: false,
                width: width as nat,
                hardbreaks: hardbreaks,
            }),
    {
        let r = CommonMarkFormatter {
            v: Vec::new(),
            prefix: Vec::new(),
            column: 0,
            need_cr: 0,
            last_breakable: 0,
            begin_line: true,
            begin_content: true,
            no_linebreaks: false,
            in_tight_list_item: false,
            width,
            hardbreaks,
        };
        proof {
            assert(r.m() =~= St {
                v: Seq::<u8>::empty(),
                prefix: Seq::<u8>::empty(),
                column: 0,
                need_cr: 0,
                last_breakable: 0,
                begin_line: true,
                begin_content: true,
                no_linebreaks: false,
                in_tight: false,
                width: width as nat,
                hardbreaks: hardbreaks,
            });
        }
        r
    }

    /// Appends the current prefix to the buffer.
    fn push_prefix(&mut self)
        ensures
            final(self).v@ == old(self).v@ + old(self).prefix@,
            final(self).prefix == old(self).prefix,
            final(self).column == old(self).column,
            final(self).need_cr == old(self).need_cr,
            final(self).last_breakable == old(self).last_breakable,
            final(self).begin_line == old(self).begin_line,
            final(self).begin_content == old(self).begin_content,
            final(self).no_linebreaks == old(self).no_linebreaks,
            final(self).in_tight_list_item == old(self).in_tight_list_item,
            final(self).width == old(self).width,
            final(self).hardbreaks == old(self).hardbreaks,
    {
        let mut idx: usize = 0;
        while idx < self.prefix.len()
            invariant
                idx <= self.prefix.len(),
                self.v@ == old(self).v@ + self.prefix@.subrange(0, idx as int),
                self.prefix == old(self).prefix,
                self.column == old(self).column,
                self.need_cr == old(self).need_cr,
                self.last_breakable == old(self).last_breakable,
                self.begin_line == old(self).begin_line,
                self.begin_content == old(self).begin_content,
                self.no_linebreaks == old(self).no_linebreaks,
                self.in_tight_list_item == old(self).in_tight_list_item,
                self.width == old(self).width,
                self.hardbreaks == old(self).hardbreaks,
            decreases self.prefix.len() - idx,
        {
            let c = self.prefix[idx];
            self.v.push(c);
            idx = idx + 1;
            proof {
                assert(self.v@ =~= old(self).v@ + self.prefix@.subrange(0, idx as int));
            }
        }
        proof {
            assert(self.prefix@.subrange(0, self.prefix@.len() as int) =~= self.prefix@);
        }
    }

    /// Appends the given bytes to the buffer.
    fn push_bytes(&mut self, bytes: &Vec<u8>)
        ensures
            final(self).v@ == old(self).v@ + bytes@,
            final(self).prefix == old(self).prefix,
            final(self).column == old(self).column,
            final(self).need_cr == old(self).need_cr,
            final(self).last_breakable == old(self).last_breakable,
            final(self).begin_line == old(self).begin_line,
            final(self).begin_content == old(self).begin_content,
            final(self).no_linebreaks == old(self).no_linebreaks,
            final(self).in_tight_list_item == old(self).in_tight_list_item,
            final(self).width == old(self).width,
            final(self).hardbreaks == old(self).hardbreaks,
    {
        let mut idx: usize = 0;
        while idx < bytes.len()
            invariant
                idx <= bytes.len(),
                self.v@ == old(self).v@ + bytes@.subrange(0, idx as int),
                self.prefix == old(self).prefix,
                self.column == old(self).column,
                self.need_cr == old(self).need_cr,
                self.last_breakable == old(self).last_breakable,
                self.begin_line == old(self).begin_line,
                self.begin_content == old(self).begin_content,
                self.no_linebreaks == old(self).no_linebreaks,
                self.in_tight_list_item == old(self).in_tight_list_item,
                self.width == old(self).width,
                self.hardbreaks == old(self).hardbreaks,
            decreases bytes.len() - idx,
        {
            let c = bytes[idx];
            self.v.push(c);
            idx = idx + 1;
            proof {
                assert(self.v@ =~= old(self).v@ + bytes@.subrange(0, idx as int));
            }
        }
        proof {
            assert(bytes@.subrange(0, bytes@.len() as int) =~= bytes@);
        }
    }

    /// Raises the pending level to at least one line break.
    pub fn cr(&mut self)
        requires
            old(self).inv(),
        ensures
            final(self).inv(),
            final(self).m() == cr_sp(old(self).m()),
    {
        if self.need_cr < 1 {
            self.need_cr = 1;
        }
        proof {
            assert(final(self).m() =~= cr_sp(old(self).m()));
        }
    }

    /// Raises the pending level to a full blank line.
    pub fn blankline(&mut self)
        requires
            old(self).inv(),
        ensures
            final(self).inv(),
            final(self).m() == blankline_sp(old(self).m()),
    {
        if self.need_cr < 2 {
            self.need_cr = 2;
        }
        proof {
            assert(final(self).m() =~= blankline_sp(old(self).m()));
        }
    }

    /// Realizes the pending newlines.
    fn flush_crs(&mut self)
        requires
            old(self).inv(),
            old(self).need_cr == clamp_tight(old(self).m()).need_cr,
        ensures
            final(self).inv(),
            final(self).m() == flush_cr(old(self).m()),
            final(self).prefix == old(self).prefix,
            final(self).need_cr == 0,
    {
        if self.need_cr == 0 {
            proof {
                assert(final(self).m() =~= flush_cr(old(self).m()));
            }
            return;
        }
        let ghost s0 = self.m();
        let mut kk: usize = self.v.len();
        while self.need_cr > 0
            invariant
                self.inv(),
                kk <= self.v.len(),
                self.prefix == old(self).prefix,
                self.last_breakable == old(self).last_breakable,
                self.no_linebreaks == old(self).no_linebreaks,
                self.in_tight_list_item == old(self).in_tight_list_item,
                self.width == old(self).width,
                self.hardbreaks == old(self).hardbreaks,
                flush_seq(s0.v, s0.prefix, s0.v.len() - 1, s0.need_cr)
                    == flush_seq(self.v@, self.prefix@, kk as int - 1, self.need_cr as nat),
                s0.prefix == self.prefix@,
                self.need_cr == 0 ==> (self.column == 0 && self.begin_line && self.begin_content),
            decreases self.need_cr,
        {
            if kk == 0 {
                // every request left is satisfied as if scanning past the start.
                proof {
                    lemma_flush_seq_neg(self.v@, self.prefix@, -1, self.need_cr as nat);
                    lemma_flush_seq_neg(self.v@, self.prefix@, -1, (self.need_cr - 1) as nat);
                }
            } else if self.v[kk - 1] == 10 {
                kk = kk - 1;
            } else {
                let ghost pre_v = self.v@;
                self.v.push(10);
                if self.need_cr > 1 {
                    self.push_prefix();
                    proof {
                        assert(self.v@ =~= pre_v.push(10) + self.prefix@);
                    }
                }
            }
            self.column = 0;
            self.begin_line = true;
            self.begin_content = true;
            self.need_cr = self.need_cr - 1;
        }
        self.last_breakable = 0;
        proof {
            assert(final(self).m() =~= flush_cr(old(self).m()));
        }
    }

    /// Writes one byte under an escaping mode.
    fn outc(&mut self, c: u8, escaping: Escaping, nextc: u8)
        requires
            old(self).inv(),
        ensures
            final(self).inv(),
            final(self).m() == outc_sp(old(self).m(), c, escaping, nextc),
            final(self).prefix == old(self).prefix,
            final(self).need_cr == old(self).need_cr,
            final(self).last_breakable == old(self).last_breakable,
    {
        let follows_digit = self.v.len() > 0 && is_digit(self.v[self.v.len() - 1]);
        let ne = c < 0x80 && !matches!(escaping, Escaping::Literal) && (
            (matches!(escaping, Escaping::Normal) && (
                c == 42 || c == 95 || c == 91 || c == 93 || c == 35 || c == 60 || c == 62
                || c == 92 || c == 96 || c == 33
                || (c == 38 && is_alpha(nextc))
                || (c == 33 && nextc == 91)
                || (self.begin_content && (c == 45 || c == 43 || c == 61) && !follows_digit)
                || (self.begin_content && (c == 46 || c == 41) && follows_digit
                    && (nextc == 0 || is_space(nextc)))
            ))
            || (matches!(escaping, Escaping::URL) && (
                c == 96 || c == 60 || c == 62 || is_space(c) || c == 92 || c == 41 || c == 40
            ))
            || (matches!(escaping, Escaping::Title) && (
                c == 96 || c == 60 || c == 62 || c == 34 || c == 92
            ))
        );
        proof {
            assert(ne == needs_escaping(c, escaping, nextc, self.begin_content,
                self.v@.len() > 0 && is_digit_b(self.v@.last())));
        }
        if ne {
            if is_space(c) {
                self.v.push(37);
                self.v.push(hex_digit_e(c / 16));
                self.v.push(hex_digit_e(c % 16));
                let l = self.v.len();
                proof {
                    assert(self.column + 3 <= l);
                }
                self.column = self.column + 3;
                proof {
                    assert(self.v@ =~= old(self).v@
                        + seq![37u8, hex_digit((c / 16) as u8), hex_digit((c % 16) as u8)]);
                }
            } else {
                self.v.push(92);
                self.v.push(c);
                let l = self.v.len();
                proof {
                    assert(self.column + 2 <= l);
                }
                self.column = self.column + 2;
                proof {
                    assert(self.v@ =~= old(self).v@ + seq![92u8, c]);
                }
            }
        } else {
            self.v.push(c);
            let l = self.v.len();
            proof {
                assert(self.column + 1 <= l);
            }
            self.column = self.column + 1;
        }
        proof {
            assert(final(self).m() =~= outc_sp(old(self).m(), c, escaping, nextc));
        }
    }

    /// The central output routine: clamps and realizes pending newlines, then
    /// writes every byte of `buf` under the wrap and escaping rules.
    #[verifier::rlimit(100)]
    pub fn output(&mut self, buf: &Vec<u8>, wrap: bool, escaping: Escaping)
        requires
            old(self).inv(),
        ensures
            final(self).inv(),
            final(self).m() == output_sp(old(self).m(), buf@, wrap, escaping),
            final(self).prefix == old(self).prefix,
            final(self).no_linebreaks == old(self).no_linebreaks,
            final(self).in_tight_list_item == old(self).in_tight_list_item,
            final(self).width == old(self).width,
            final(self).hardbreaks == old(self).hardbreaks,
            final(self).need_cr == 0,
    {
        let wrap = wrap && !self.no_linebreaks;
        if self.in_tight_list_item && self.need_cr > 1 {
            self.need_cr = 1;
        }
        proof {
            assert(self.m() =~= clamp_tight(old(self).m()));
        }
        self.flush_crs();
        let ghost s0 = self.m();
        let mut i: usize = 0;
        while i < buf.len()
            invariant
                self.inv(),
                i <= buf.len(),
                self.prefix == old(self).prefix,
                self.no_linebreaks == old(self).no_linebreaks,
                self.in_tight_list_item == old(self).in_tight_list_item,
                self.width == old(self).width,
                self.hardbreaks == old(self).hardbreaks,
                self.need_cr == 0,
                out_from(s0, buf@, 0, wrap, escaping)
                    == out_from(self.m(), buf@, i as int, wrap, escaping),
            decreases buf.len() - i,
        {
            let ghost pre = self.m();
            let next_i = self.out_one(buf, i, wrap, escaping);
            proof {
                assert(out_from(pre, buf@, i as int, wrap, escaping)
                    == out_from(self.m(), buf@, next_i as int, wrap, escaping));
            }
            i = next_i;
        }
        proof {
            assert(out_from(self.m(), buf@, i as int, wrap, escaping) == self.m());
            assert(final(self).m() == output_sp(old(self).m(), buf@, wrap, escaping));
        }
    }

    /// Processes the byte at `i`, including prefix emission at begin-of-line
    /// and the retroactive wrap check, and returns the next index.
    #[verifier::rlimit(100)]
    fn out_one(&mut self, buf: &Vec<u8>, i: usize, wrap: bool, escaping: Escaping) -> (next_i:
        usize)
        requires
            old(self).inv(),
            i < buf.len(),
        ensures
            final(self).inv(),
            final(self).m() == byte_step(old(self).m(), buf@, i as int, wrap, escaping).0,
            next_i as int == byte_step(old(self).m(), buf@, i as int, wrap, escaping).1,
            i < next_i <= buf.len(),
            final(self).prefix == old(self).prefix,
            final(self).no_linebreaks == old(self).no_linebreaks,
            final(self).in_tight_list_item == old(self).in_tight_list_item,
            final(self).width == old(self).width,
            final(self).hardbreaks == old(self).hardbreaks,
            final(self).need_cr == old(self).need_cr,
    {
        {
            let ghost pre = self.m();
            let ghost gi = i as int;
            if self.begin_line {
                self.push_prefix();
                self.column = self.prefix.len();
            }
            proof {
                assert(self.m() =~= begin_pref(pre));
            }
            let c = buf[i];
            let mut next_i: usize = i + 1;
            if c == 32 && wrap {
                if !self.begin_line {
                    let last_nonspace = self.v.len();
                    self.v.push(32);
                    let l = self.v.len();
                    proof {
                        assert(self.column + 1 <= l);
                    }
                    self.column = self.column + 1;
                    self.begin_line = false;
                    self.begin_content = false;
                    let mut j: usize = i;
                    while j + 1 < buf.len() && buf[j + 1] == 32
                        invariant
                            gi <= j < buf.len(),
                            skip_spaces(buf@, gi) == skip_spaces(buf@, j as int),
                        decreases buf.len() - j,
                    {
                        j = j + 1;
                    }
                    proof {
                        lemma_skip_spaces_bounds(buf@, gi);
                        assert(j as int == skip_spaces(buf@, gi));
                    }
                    let digit_follows = j + 1 < buf.len() && is_digit(buf[j + 1]);
                    if !digit_follows {
                        self.last_breakable = last_nonspace;
                    }
                    next_i = j + 1;
                }
            } else if c == 10 {
                self.v.push(10);
                self.column = 0;
                self.begin_line = true;
                self.begin_content = true;
                self.last_breakable = 0;
            } else if matches!(escaping, Escaping::Literal) {
                self.v.push(c);
                let l = self.v.len();
                proof {
                    assert(self.column + 1 <= l);
                }
                self.column = self.column + 1;
                self.begin_line = false;
                self.begin_content = self.begin_content && is_digit(c);
            } else {
                let nextc: u8 = if i + 1 < buf.len() { buf[i + 1] } else { 0 };
                self.outc(c, escaping, nextc);
                self.begin_line = false;
                self.begin_content = self.begin_content && is_digit(c);
            }
            self.wrap_check();
            proof {
                assert(self.m() =~= byte_step(pre, buf@, gi, wrap, escaping).0);
                assert(next_i as int == byte_step(pre, buf@, gi, wrap, escaping).1);
            }
            next_i
        }
    }

    /// Retroactive wrap: splits the buffer at the recorded breakable point
    /// when the configured width has been exceeded.
    fn wrap_check(&mut self)
        requires
            old(self).inv(),
        ensures
            final(self).inv(),
            final(self).m() == wrap_chk(old(self).m()),
            final(self).prefix == old(self).prefix,
            final(self).no_linebreaks == old(self).no_linebreaks,
            final(self).in_tight_list_item == old(self).in_tight_list_item,
            final(self).width == old(self).width,
            final(self).hardbreaks == old(self).hardbreaks,
            final(self).need_cr == old(self).need_cr,
    {
        if self.width > 0 && self.column > self.width && !self.begin_line
            && self.last_breakable > 0 {
            let rest = self.v.split_off(self.last_breakable + 1);
            self.v.truncate(self.last_breakable);
            self.v.push(10);
            self.push_prefix();
            self.push_bytes(&rest);
            let l = self.v.len();
            proof {
                assert(self.prefix@.len() + rest@.len() <= l);
                assert(self.v@ =~= old(self).v@.subrange(0, old(self).last_breakable as int)
                    + seq![10u8] + old(self).prefix@
                    + old(self).v@.subrange(
                        old(self).last_breakable as int + 1,
                        old(self).v@.len() as int,
                    ));
            }
            self.column = self.prefix.len() + rest.len();
            self.last_breakable = 0;
            self.begin_line = false;
            self.begin_content = false;
            proof {
                assert(final(self).m() =~= wrap_chk(old(self).m()));
            }
        } else {
            proof {
                assert(final(self).m() =~= wrap_chk(old(self).m()));
            }
        }
    }
}

/// Lowercase hex digit of a nibble.
fn hex_digit_e(x: u8) -> (r: u8)
    requires
        x < 16,
    ensures
        r == hex_digit(x),
{
    if x < 10 {
        48 + x
    } else {
        87 + x
    }
}

} // verus!
