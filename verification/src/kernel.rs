//! The decisions of the kernel's small diagnostic routines.

use vstd::prelude::*;

verus! {

/// The byte that the console echo loop writes back for a byte it read: the
/// same byte.
pub fn echo(byte: u8) -> (r: u8)
    ensures
        r == byte,
{
    byte
}

/// The panics that `panic_test` raises.
#[derive(Clone, Copy, Debug, PartialEq, Eq, Structural)]
pub enum Fault {
    /// Unwrapping an `Option` that is `None`.
    UnwrapNone,
    /// Reaching code marked unreachable.
    Unreachable,
    /// An explicit panic.
    Explicit,
}

/// Which panic the panic test raises for `n`: 0 unwraps `None`, 1 reaches
/// unreachable code, 2 panics explicitly, and any other `n` does nothing.
pub fn panic_test(n: usize) -> (r: Option<Fault>)
    ensures
        n == 0 ==> r == Some(Fault::UnwrapNone),
        n == 1 ==> r == Some(Fault::Unreachable),
        n == 2 ==> r == Some(Fault::Explicit),
        n > 2 ==> r == None::<Fault>,
{
    match n {
        0 => Some(Fault::UnwrapNone),
        1 => Some(Fault::Unreachable),
        2 => Some(Fault::Explicit),
        _ => None,
    }
}

} // verus!
