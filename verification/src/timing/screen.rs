//! The terminal's alternate screen.

use vstd::prelude::*;

verus! {

/// What switches the terminal to its alternate screen.
pub const ENTER_SCREEN: &'static str = "\x1b[?1049h";

/// What switches the terminal back.
pub const LEAVE_SCREEN: &'static str = "\x1b[?1049l";

/// A stay on the alternate screen, with what is to be called at its end.
pub struct AlternateScreenGuard<F> {
    cb: Option<F>,
}

impl<F> AlternateScreenGuard<F> {
    /// What is still to be called.
    pub closed spec fn pending(&self) -> Option<F> {
        self.cb
    }

    /// Begins a stay. The first part of the result is to be printed.
    pub fn new(cb: F) -> (r: (&'static str, AlternateScreenGuard<F>))
        ensures
            r.0@ == ENTER_SCREEN@,
            r.1.pending() == Some(cb),
    {
        (ENTER_SCREEN, AlternateScreenGuard { cb: Some(cb) })
    }

    /// Ends the stay. The first part of the result is to be printed, then the
    /// second part is to be called. It is handed out once.
    pub fn leave(&mut self) -> (r: (&'static str, Option<F>))
        ensures
            r.0@ == LEAVE_SCREEN@,
            r.1 == old(self).pending(),
            final(self).pending() is None,
    {
        (LEAVE_SCREEN, self.cb.take())
    }
}

} // verus!
