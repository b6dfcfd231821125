//! URI scheme recognition, used to gate autolink rendering.

use vstd::prelude::*;
use crate::chars::{is_alpha_b, is_digit_b, is_alpha, is_digit};

verus! {

/// Bytes allowed after the first letter of a URI scheme.
pub open spec fn scheme_char(c: u8) -> bool {
    is_alpha_b(c) || is_digit_b(c) || c == 43 || c == 45 || c == 46
}

/// The text begins with a syntactically valid URI scheme: an ASCII letter,
/// then letters, digits, `+`, `-` or `.`, terminated by a colon.
pub open spec fn has_scheme(url: Seq<u8>) -> bool {
    exists|k: int|
        1 <= k < url.len() && #[trigger] url[k] == 58 && is_alpha_b(url[0])
            && (forall|j: int| 1 <= j < k ==> scheme_char(#[trigger] url[j]))
}

/// Decides whether the text begins with a valid URI scheme.
pub fn scheme(url: &Vec<u8>) -> (r: bool)
    ensures
        r == has_scheme(url@),
{
    if url.len() == 0 || !is_alpha(url[0]) {
        proof {
            assert(!has_scheme(url@));
        }
        return false;
    }
    let mut i: usize = 1;
    while i < url.len() && scheme_char_e(url[i])
        invariant
            1 <= i <= url@.len(),
            is_alpha_b(url@[0]),
            forall|j: int| 1 <= j < i ==> scheme_char(#[trigger] url@[j]),
        decreases url@.len() - i,
    {
        i = i + 1;
    }
    if i < url.len() && url[i] == 58 {
        proof {
            assert(has_scheme(url@)) by {
                assert(url@[i as int] == 58
                    && (forall|j: int| 1 <= j < i ==> scheme_char(#[trigger] url@[j])));
            }
        }
        true
    } else {
        proof {
            assert forall|k: int|
                !(1 <= k < url@.len() && #[trigger] url@[k] == 58 && is_alpha_b(url@[0])
                    && (forall|j: int| 1 <= j < k ==> scheme_char(#[trigger] url@[j]))) by {
                if 1 <= k < url@.len() && url@[k] == 58
                    && (forall|j: int| 1 <= j < k ==> scheme_char(#[trigger] url@[j])) {
                    // the scan stopped at the first non-scheme byte, which is
                    // not a colon; a valid scheme end cannot lie on either side.
                    if k < i {
                        assert(scheme_char(url@[k]));
                    } else {
                        if i < url@.len() {
                            assert(scheme_char(url@[i as int]));
                        }
                    }
                }
            }
        }
        false
    }
}

/// Executable form of `scheme_char`.
fn scheme_char_e(c: u8) -> (r: bool)
    ensures
        r == scheme_char(c),
{
    is_alpha(c) || is_digit(c) || c == 43 || c == 45 || c == 46
}

} // verus!
