use vstd::prelude::*;

verus! {

/// One executable instruction of the tape machine.
///
/// Loop instructions carry the index, in the final instruction sequence, of
/// their partner: an `OpenLoop` jumps forward to its `CloseLoop` when the
/// current cell is zero, and a `CloseLoop` jumps back to its `OpenLoop` when
/// the current cell is nonzero. `Clear` is the folded form of a loop that
/// only decrements the current cell.
#[derive(Clone, Copy, Debug, PartialEq, Eq, Structural)]
pub enum Op {
    MoveRight(usize),
    MoveLeft(usize),
    Add(u8),
    Sub(u8),
    Output,
    Input,
    OpenLoop(usize),
    CloseLoop(usize),
    Clear,
}

/// A compile-time failure: loop brackets that do not pair up.
#[derive(Clone, Copy, Debug, PartialEq, Eq, Structural)]
pub enum SyntaxError {
    /// A `]` appeared with no `[` still open before it.
    UnexpectedCloseLoop,
    /// One or more `[` were still open at the end of the source.
    UnterminatedLoop,
}

/// A sum of two values under 256 reduces modulo 256 by at most one subtraction.
pub proof fn lemma_mod256_range(x: int)
    requires
        0 <= x < 512,
    ensures
        x % 256 == if x < 256 {
            x
        } else {
            x - 256
        },
{
    if x < 256 {
        vstd::arithmetic::div_mod::lemma_small_mod(x as nat, 256);
    } else {
        vstd::arithmetic::div_mod::lemma_mod_add_multiples_vanish(x - 256, 256);
        vstd::arithmetic::div_mod::lemma_small_mod((x - 256) as nat, 256);
    }
}

/// Incrementing commutes with reduction modulo 256.
pub proof fn lemma_mod256_inc(x: int)
    requires
        x >= 0,
    ensures
        (x % 256 + 1) % 256 == (x + 1) % 256,
{
    vstd::arithmetic::div_mod::lemma_add_mod_noop(x, 1, 256);
    vstd::arithmetic::div_mod::lemma_small_mod(1, 256);
}

} // verus!
