//! Fence-length selection for code blocks and inline code spans.
//!
//! Both solvers reason about the maximal contiguous runs of backtick bytes
//! inside a literal: a code block fence must be strictly longer than any
//! run in the content, and an inline code span is delimited by the shortest
//! run length that does not occur in the literal.

use vstd::prelude::*;

verus! {

pub const BACKTICK: u8 = 96;

/// A maximal run of backticks of length `n` occupies `[i, i + n)`.
pub open spec fn run_at(lit: Seq<u8>, i: int, n: int) -> bool {
    &&& n >= 1
    &&& 0 <= i
    &&& i + n <= lit.len()
    &&& (forall|j: int| i <= j < i + n ==> lit[j] == BACKTICK)
    &&& (i == 0 || lit[i - 1] != BACKTICK)
    &&& (i + n == lit.len() || lit[i + n] != BACKTICK)
}

/// The literal contains a maximal backtick run of exactly length `n`.
pub open spec fn has_run(lit: Seq<u8>, n: int) -> bool {
    exists|i: int| run_at(lit, i, n)
}

/// Length of the longest maximal backtick run; 0 if there is none.
pub open spec fn longest_run_from(lit: Seq<u8>, i: int, current: nat, longest: nat) -> nat
    decreases lit.len() - i,
{
    if 0 <= i < lit.len() {
        if lit[i] == BACKTICK {
            longest_run_from(lit, i + 1, current + 1, longest)
        } else {
            longest_run_from(lit, i + 1, 0, if current > longest { current } else { longest })
        }
    } else {
        if current > longest { current } else { longest }
    }
}

pub open spec fn longest_run(lit: Seq<u8>) -> nat {
    longest_run_from(lit, 0, 0, 0)
}

/// The least run length, starting the search at `n`, that does not occur in
/// the literal.
pub open spec fn shortest_unused_from(lit: Seq<u8>, n: nat) -> nat
    decreases lit.len() + 1 - n,
{
    if n <= lit.len() && has_run(lit, n as int) {
        shortest_unused_from(lit, n + 1)
    } else {
        n
    }
}

/// The least positive run length that does not occur in the literal.
pub open spec fn shortest_unused(lit: Seq<u8>) -> nat {
    shortest_unused_from(lit, 1)
}

/// Scans the literal for the longest maximal backtick run.
///
/// The result is exactly the length of the longest such run (0 when the
/// literal holds no backtick at all): some run of that length exists, and no
/// longer one does.
pub fn longest_backtick_sequence(literal: &Vec<u8>) -> (r: usize)
    ensures
        r == longest_run(literal@),
        r > 0 ==> has_run(literal@, r as int),
        r == 0 ==> forall|j: int| 0 <= j < literal@.len() ==> literal@[j] != BACKTICK,
        forall|n: int| n > r ==> !has_run(literal@, n),
{
    let ghost lit = literal@;
    let mut longest: usize = 0;
    let mut current: usize = 0;
    let mut i: usize = 0;
    while i < literal.len()
        invariant
            lit == literal@,
            i <= lit.len(),
            current <= i,
            longest <= i,
            // `current` is the maximal backtick run ending just before `i`.
            forall|j: int| i - current <= j < i ==> lit[j] == BACKTICK,
            current < i ==> lit[i - current - 1] != BACKTICK,
            // `longest` is witnessed by some fully finished run.
            longest > 0 ==> has_run(lit, longest as int),
            // no finished run longer than `longest` lies before `i`.
            forall|i0: int, n: int| run_at(lit, i0, n) && i0 + n < i ==> n <= longest,
            // the spec recursion agrees with the loop state.
            longest_run(lit) == longest_run_from(lit, i as int, current as nat, longest as nat),
        decreases lit.len() - i,
    {
        if literal[i] == BACKTICK {
            current = current + 1;
        } else {
            if current > longest {
                longest = current;
                proof {
                    assert(run_at(lit, i - current, current as int));
                }
            }
            proof {
                if current > 0 {
                    assert(run_at(lit, i - current, current as int));
                }
                assert forall|i0: int, n: int|
                    run_at(lit, i0, n) && i0 + n < i + 1 implies n <= longest by {
                    if i0 + n == i {
                        // this run is exactly the one ending at i.
                        assert(lit[i0 + n] != BACKTICK || i0 + n == lit.len());
                        assert(i0 == i - current) by {
                            if i0 < i - current {
                                assert(lit[i - current - 1] == BACKTICK);
                            }
                            if i0 > i - current {
                                assert(lit[i0 - 1] == BACKTICK);
                            }
                        }
                    }
                }
            }
            current = 0;
        }
        i = i + 1;
    }
    if current > longest {
        longest = current;
        proof {
            assert(run_at(lit, i - current, current as int));
        }
    }
    proof {
        if current > 0 {
            assert(run_at(lit, i - current, current as int));
        }
        assert forall|i0: int, n: int| run_at(lit, i0, n) implies n <= longest by {
            if i0 + n == i {
                assert(i0 == i - current) by {
                    if i0 < i - current {
                        assert(lit[i - current - 1] == BACKTICK);
                    }
                    if i0 > i - current {
                        assert(lit[i0 - 1] == BACKTICK);
                    }
                }
            }
        }
        assert forall|j: int| longest == 0 && 0 <= j < lit.len() implies lit[j] != BACKTICK by {
            if lit[j] == BACKTICK {
                let s = lemma_run_around(lit, j);
                assert(has_run(lit, s));
            }
        }
    }
    longest
}

/// Around any backtick position there is a maximal run; returns its length.
spec fn run_start(lit: Seq<u8>, j: int) -> int
    decreases j,
{
    if 0 < j <= lit.len() && lit[j - 1] == BACKTICK {
        run_start(lit, j - 1)
    } else {
        j
    }
}

spec fn run_end(lit: Seq<u8>, j: int) -> int
    decreases lit.len() - j,
{
    if 0 <= j < lit.len() && lit[j] == BACKTICK {
        run_end(lit, j + 1)
    } else {
        j
    }
}

proof fn run_start_props(lit: Seq<u8>, j: int)
    requires
        0 <= j <= lit.len(),
    ensures
        0 <= run_start(lit, j) <= j,
        run_start(lit, j) == 0 || lit[run_start(lit, j) - 1] != BACKTICK,
        forall|t: int| run_start(lit, j) <= t < j ==> lit[t] == BACKTICK,
    decreases j,
{
    if 0 < j && lit[j - 1] == BACKTICK {
        run_start_props(lit, j - 1);
    }
}

proof fn run_end_props(lit: Seq<u8>, j: int)
    requires
        0 <= j <= lit.len(),
    ensures
        j <= run_end(lit, j) <= lit.len(),
        run_end(lit, j) == lit.len() || lit[run_end(lit, j)] != BACKTICK,
        forall|t: int| j <= t < run_end(lit, j) ==> lit[t] == BACKTICK,
    decreases lit.len() - j,
{
    if j < lit.len() && lit[j] == BACKTICK {
        run_end_props(lit, j + 1);
    }
}

/// Every backtick lies inside some maximal run.
proof fn lemma_run_around(lit: Seq<u8>, j: int) -> (n: int)
    requires
        0 <= j < lit.len(),
        lit[j] == BACKTICK,
    ensures
        run_at(lit, run_start(lit, j), n),
        n >= 1,
{
    run_start_props(lit, j);
    run_end_props(lit, j + 1);
    let s = run_start(lit, j);
    let e = run_end(lit, j + 1);
    assert(run_at(lit, s, e - s));
    e - s
}

/// Scans the literal and returns the shortest positive backtick run length
/// that does not occur in it: no maximal run has that exact length, while
/// every shorter positive length does occur.
pub fn shortest_unused_backtick_sequence(literal: &Vec<u8>) -> (r: usize)
    requires
        literal@.len() < usize::MAX,
    ensures
        r == shortest_unused(literal@),
        r >= 1,
        !has_run(literal@, r as int),
        forall|k: int| 1 <= k < r ==> has_run(literal@, k),
{
    let ghost lit = literal@;
    let mut n: usize = 1;
    while has_run_exec(literal, n)
        invariant
            lit == literal@,
            literal@.len() < usize::MAX,
            1 <= n,
            n <= lit.len() + 1,
            forall|k: int| 1 <= k < n ==> has_run(lit, k),
            shortest_unused(lit) == shortest_unused_from(lit, n as nat),
        decreases lit.len() + 1 - n,
    {
        n = n + 1;
    }
    n
}

/// Decides whether the literal holds a maximal backtick run of exactly
/// length `n`.
fn has_run_exec(literal: &Vec<u8>, n: usize) -> (b: bool)
    requires
        n >= 1,
    ensures
        b == has_run(literal@, n as int),
{
    let ghost lit = literal@;
    let mut current: usize = 0;
    let mut i: usize = 0;
    while i < literal.len()
        invariant
            lit == literal@,
            n >= 1,
            i <= lit.len(),
            current <= i,
            forall|j: int| i - current <= j < i ==> lit[j] == BACKTICK,
            current < i ==> lit[i - current - 1] != BACKTICK,
            forall|i0: int| run_at(lit, i0, n as int) ==> i0 + n >= i,
        decreases lit.len() - i,
    {
        if literal[i] == BACKTICK {
            current = current + 1;
        } else {
            if current == n {
                proof {
                    assert(run_at(lit, i - current, n as int));
                }
                return true;
            }
            proof {
                assert forall|i0: int| run_at(lit, i0, n as int) implies i0 + n >= i + 1 by {
                    if i0 + n == i {
                        assert(i0 == i - current) by {
                            if i0 < i - current {
                                assert(lit[i - current - 1] == BACKTICK);
                            }
                            if i0 > i - current {
                                assert(lit[i0 - 1] == BACKTICK);
                            }
                        }
                    }
                }
            }
            current = 0;
        }
        i = i + 1;
    }
    if current == n {
        proof {
            assert(run_at(lit, i - current, n as int));
        }
        return true;
    }
    proof {
        assert forall|i0: int| !run_at(lit, i0, n as int) by {
            if run_at(lit, i0, n as int) {
                assert(i0 + n == i || i0 + n > i);
                if i0 + n == lit.len() {
                    assert(i0 == i - current) by {
                        if i0 < i - current {
                            assert(lit[i - current - 1] == BACKTICK);
                        }
                        if i0 > i - current {
                            assert(lit[i0 - 1] == BACKTICK);
                        }
                    }
                }
            }
        }
    }
    false
}

} // verus!
