//! The quit confirmation an editor asks for while changes are unsaved.
use vstd::prelude::*;

verus! {

/// How many more times quit must be asked for, on a dirty document, before
/// the editor quits.
pub const QUIT_TIMES: u8 = 3;

/// What a quit request does: with presses left and unsaved changes it warns
/// and returns the presses still left after this one (`Some`); otherwise the
/// editor quits (`None`).
pub fn confirm_quit(quit_times: u8, dirty: bool) -> (r: Option<u8>)
    ensures
        quit_times > 0 && dirty ==> r == Some((quit_times - 1) as u8),
        !(quit_times > 0 && dirty) ==> r is None,
{
    if quit_times > 0 && dirty {
        Some(quit_times - 1)
    } else {
        None
    }
}

} // verus!
