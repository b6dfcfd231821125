//! Mathematical model of the renderer state and of every state transition.
//!
//! The executable formatter mirrors these functions step for step; its
//! contracts state that each call performs exactly the transition written
//! here. `St` carries the output buffer, the line prefix, the column, the
//! deferred-newline level, the last safe break position and the flag set,
//! together with the two immutable rendering options.

use vstd::prelude::*;
use crate::chars::{is_space_b, is_digit_b, is_alpha_b};

verus! {

/// Character escaping modes.
#[derive(Clone, Copy, PartialEq, Eq, Structural)]
pub enum Escaping {
    Literal,
    Normal,
    URL,
    Title,
}

/// The renderer state.
#[verifier::ext_equal]
pub struct St {
    pub v: Seq<u8>,
    pub prefix: Seq<u8>,
    pub column: nat,
    pub need_cr: nat,
    pub last_breakable: nat,
    pub begin_line: bool,
    pub begin_content: bool,
    pub no_linebreaks: bool,
    pub in_tight: bool,
    pub width: nat,
    pub hardbreaks: bool,
}

/// Inside a tight list item a pending blank line is clamped down to a
/// single line break.
pub open spec fn clamp_tight(s: St) -> St {
    if s.in_tight && s.need_cr > 1 {
        St { need_cr: 1, ..s }
    } else {
        s
    }
}

/// Materializes `need` pending newlines at the end of `v`: newlines already
/// present at the end (scanned by `k` moving left) satisfy pending requests;
/// each remaining one is emitted, with the prefix re-emitted after the first
/// newline of a blank-line pair.
pub open spec fn flush_seq(v: Seq<u8>, prefix: Seq<u8>, k: int, need: nat) -> Seq<u8>
    decreases need,
{
    if need == 0 {
        v
    } else if k < 0 || (k < v.len() && v[k] == 10) {
        flush_seq(v, prefix, k - 1, (need - 1) as nat)
    } else {
        let v2 = if need > 1 { v.push(10) + prefix } else { v.push(10) };
        flush_seq(v2, prefix, k, (need - 1) as nat)
    }
}

/// Realizes the deferred-newline level, resetting column, the line flags and
/// the breakable point.
pub open spec fn flush_cr(s: St) -> St {
    if s.need_cr == 0 {
        s
    } else {
        St {
            v: flush_seq(s.v, s.prefix, s.v.len() - 1, s.need_cr),
            column: 0,
            need_cr: 0,
            last_breakable: 0,
            begin_line: true,
            begin_content: true,
            ..s
        }
    }
}

/// Lowercase hex digit of a nibble.
pub open spec fn hex_digit(x: u8) -> u8 {
    if x < 10 {
        (48 + x) as u8
    } else {
        (87 + x) as u8
    }
}

/// The escaping decision table. Only ASCII bytes are ever escaped.
pub open spec fn needs_escaping(
    c: u8,
    esc: Escaping,
    nextc: u8,
    begin_content: bool,
    follows_digit: bool,
) -> bool {
    c < 0x80 && esc != Escaping::Literal && (
        (esc == Escaping::Normal && (
            c == 42 || c == 95 || c == 91 || c == 93 || c == 35 || c == 60 || c == 62
            || c == 92 || c == 96 || c == 33
            || (c == 38 && is_alpha_b(nextc))
            || (c == 33 && nextc == 91)
            || (begin_content && (c == 45 || c == 43 || c == 61) && !follows_digit)
            || (begin_content && (c == 46 || c == 41) && follows_digit
                && (nextc == 0 || is_space_b(nextc)))
        ))
        || (esc == Escaping::URL && (
            c == 96 || c == 60 || c == 62 || is_space_b(c) || c == 92 || c == 41 || c == 40
        ))
        || (esc == Escaping::Title && (
            c == 96 || c == 60 || c == 62 || c == 34 || c == 92
        ))
    )
}

/// Writes one byte under an escaping mode: untouched, backslash-escaped, or
/// percent-encoded when the byte needing an escape is itself whitespace.
pub open spec fn outc_sp(s: St, c: u8, esc: Escaping, nextc: u8) -> St {
    let follows_digit = s.v.len() > 0 && is_digit_b(s.v.last());
    if needs_escaping(c, esc, nextc, s.begin_content, follows_digit) {
        if is_space_b(c) {
            St {
                v: s.v + seq![37u8, hex_digit(c / 16), hex_digit(c % 16)],
                column: s.column + 3,
                ..s
            }
        } else {
            St { v: s.v + seq![92u8, c], column: s.column + 2, ..s }
        }
    } else {
        St { v: s.v.push(c), column: s.column + 1, ..s }
    }
}

/// At begin-of-line the prefix is written before anything else.
pub open spec fn begin_pref(s: St) -> St {
    if s.begin_line {
        St { v: s.v + s.prefix, column: s.prefix.len(), ..s }
    } else {
        s
    }
}

/// Index of the last space of the run starting at `i`.
pub open spec fn skip_spaces(buf: Seq<u8>, i: int) -> int
    decreases buf.len() - i,
{
    if i + 1 < buf.len() && buf[i + 1] == 32 {
        skip_spaces(buf, i + 1)
    } else {
        i
    }
}

/// Retroactive wrap: when the width is exceeded past begin-of-line and a
/// breakable point exists, the buffer is split there, the space at the break
/// is replaced by a newline plus the prefix, and the tail is re-appended.
pub open spec fn wrap_chk(s: St) -> St {
    if s.width > 0 && s.column > s.width && !s.begin_line && s.last_breakable > 0
        && s.last_breakable < s.v.len() {
        let rest = s.v.subrange(s.last_breakable as int + 1, s.v.len() as int);
        St {
            v: s.v.subrange(0, s.last_breakable as int) + seq![10u8] + s.prefix + rest,
            column: s.prefix.len() + rest.len(),
            last_breakable: 0,
            begin_line: false,
            begin_content: false,
            ..s
        }
    } else {
        s
    }
}

/// Processes the byte at `i` and returns the state plus the next index
/// (a collapsed space run advances the index past the run).
pub open spec fn byte_step(s: St, buf: Seq<u8>, i: int, wrap: bool, esc: Escaping) -> (St, int) {
    let s0 = begin_pref(s);
    let c = buf[i];
    let nextc: u8 = if i + 1 < buf.len() { buf[i + 1] } else { 0 };
    if c == 32 && wrap {
        if !s0.begin_line {
            let s1 = St {
                v: s0.v.push(32),
                column: s0.column + 1,
                begin_line: false,
                begin_content: false,
                ..s0
            };
            let j = skip_spaces(buf, i);
            let digit_follows = j + 1 < buf.len() && is_digit_b(buf[j + 1]);
            let s2 = if !digit_follows {
                St { last_breakable: s0.v.len(), ..s1 }
            } else {
                s1
            };
            (wrap_chk(s2), j + 1)
        } else {
            (wrap_chk(s0), i + 1)
        }
    } else if c == 10 {
        let s1 = St {
            v: s0.v.push(10),
            column: 0,
            begin_line: true,
            begin_content: true,
            last_breakable: 0,
            ..s0
        };
        (wrap_chk(s1), i + 1)
    } else if esc == Escaping::Literal {
        let s1 = St {
            v: s0.v.push(c),
            column: s0.column + 1,
            begin_line: false,
            begin_content: s0.begin_content && is_digit_b(c),
            ..s0
        };
        (wrap_chk(s1), i + 1)
    } else {
        let s1 = outc_sp(s0, c, esc, nextc);
        let s2 = St {
            begin_line: false,
            begin_content: s1.begin_content && is_digit_b(c),
            ..s1
        };
        (wrap_chk(s2), i + 1)
    }
}

/// Folds `byte_step` over the buffer from index `i` on.
pub open spec fn out_from(s: St, buf: Seq<u8>, i: int, wrap: bool, esc: Escaping) -> St
    decreases buf.len() - i,
{
    if 0 <= i < buf.len() {
        let si = byte_step(s, buf, i, wrap, esc);
        if i < si.1 <= buf.len() {
            out_from(si.0, buf, si.1, wrap, esc)
        } else {
            si.0
        }
    } else {
        s
    }
}

/// One output call: clamp the pending newlines under tight-list rules,
/// realize them, then process every byte of the buffer.
pub open spec fn output_sp(s: St, buf: Seq<u8>, wrap: bool, esc: Escaping) -> St {
    out_from(flush_cr(clamp_tight(s)), buf, 0, wrap && !s.no_linebreaks, esc)
}

/// Raises the deferred-newline level to at least one line break.
pub open spec fn cr_sp(s: St) -> St {
    if s.need_cr < 1 {
        St { need_cr: 1, ..s }
    } else {
        s
    }
}

/// Raises the deferred-newline level to a full blank line.
pub open spec fn blankline_sp(s: St) -> St {
    if s.need_cr < 2 {
        St { need_cr: 2, ..s }
    } else {
        s
    }
}

/// Writing under `Literal` escaping without wrapping.
pub open spec fn lit_sp(s: St, bytes: Seq<u8>) -> St {
    output_sp(s, bytes, false, Escaping::Literal)
}

/// The marker-collision escapes of Normal mode, exactly: at begin-of-content,
/// `-`, `+` and `=` are backslash-escaped if and only if the preceding byte
/// is not a digit, and `.` and `)` if and only if it is a digit and the next
/// byte is whitespace or absent; away from begin-of-content none of these
/// five bytes is ever escaped.
pub proof fn lemma_marker_escapes(c: u8, nextc: u8, begin_content: bool, follows_digit: bool)
    requires
        c == 45 || c == 43 || c == 61 || c == 46 || c == 41,
    ensures
        needs_escaping(c, Escaping::Normal, nextc, begin_content, follows_digit) == (begin_content
            && if c == 46 || c == 41 {
            follows_digit && (nextc == 0 || is_space_b(nextc))
        } else {
            !follows_digit
        }),
{
}

/// Once the scan position has moved past the start of the buffer, the
/// remaining pending newlines change nothing.
pub proof fn lemma_flush_seq_neg(v: Seq<u8>, prefix: Seq<u8>, k: int, need: nat)
    requires
        k < 0,
    ensures
        flush_seq(v, prefix, k, need) == v,
    decreases need,
{
    if need > 0 {
        lemma_flush_seq_neg(v, prefix, k - 1, (need - 1) as nat);
    }
}

/// Under `Literal` escaping with wrapping unavailable (zero width), no
/// pending newline and past begin-of-line, an output call appends the buffer
/// to the output verbatim, byte for byte, and leaves the cursor in the same
/// shape.
pub proof fn lemma_literal_append(s: St, buf: Seq<u8>)
    requires
        s.need_cr == 0,
        !s.begin_line,
        s.width == 0,
        forall|j: int| 0 <= j < buf.len() ==> buf[j] != 10,
    ensures
        output_sp(s, buf, false, Escaping::Literal).v == s.v + buf,
        output_sp(s, buf, false, Escaping::Literal).need_cr == 0,
        !output_sp(s, buf, false, Escaping::Literal).begin_line,
        output_sp(s, buf, false, Escaping::Literal).width == s.width,
        output_sp(s, buf, false, Escaping::Literal).hardbreaks == s.hardbreaks,
        output_sp(s, buf, false, Escaping::Literal).no_linebreaks == s.no_linebreaks,
        output_sp(s, buf, false, Escaping::Literal).in_tight == s.in_tight,
{
    lemma_literal_append_from(s, buf, 0);
    assert(s.v + buf.subrange(0, buf.len() as int) =~= s.v + buf);
}

proof fn lemma_literal_append_from(s: St, buf: Seq<u8>, i: int)
    requires
        0 <= i <= buf.len(),
        s.need_cr == 0,
        !s.begin_line,
        s.width == 0,
        forall|j: int| 0 <= j < buf.len() ==> buf[j] != 10,
    ensures
        out_from(s, buf, i, false, Escaping::Literal).v == s.v + buf.subrange(
            i,
            buf.len() as int,
        ),
        out_from(s, buf, i, false, Escaping::Literal).need_cr == 0,
        !out_from(s, buf, i, false, Escaping::Literal).begin_line,
        out_from(s, buf, i, false, Escaping::Literal).width == s.width,
        out_from(s, buf, i, false, Escaping::Literal).hardbreaks == s.hardbreaks,
        out_from(s, buf, i, false, Escaping::Literal).no_linebreaks == s.no_linebreaks,
        out_from(s, buf, i, false, Escaping::Literal).in_tight == s.in_tight,
    decreases buf.len() - i,
{
    if i < buf.len() {
        let si = byte_step(s, buf, i, false, Escaping::Literal);
        assert(si.1 == i + 1);
        lemma_literal_append_from(si.0, buf, i + 1);
        assert(si.0.v + buf.subrange(i + 1, buf.len() as int) =~= s.v + buf.subrange(
            i,
            buf.len() as int,
        ));
    } else {
        assert(s.v =~= s.v + buf.subrange(i, buf.len() as int));
    }
}

/// The last space of a run has index at least `i` and stays in the buffer.
pub proof fn lemma_skip_spaces_bounds(buf: Seq<u8>, i: int)
    requires
        0 <= i < buf.len(),
    ensures
        i <= skip_spaces(buf, i) < buf.len(),
    decreases buf.len() - i,
{
    if i + 1 < buf.len() && buf[i + 1] == 32 {
        lemma_skip_spaces_bounds(buf, i + 1);
    }
}

} // verus!
