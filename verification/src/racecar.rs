//! Racecar mode: the switch between the optimised kernels (on, the default) and
//! the plain code paths (off). Both write the same bitstream.
//!
//! The mode is latched: [`set`] decides it where it comes before the first read;
//! otherwise the first read decides it from the value of `RAV1E_RACECAR` (`0` and
//! `off` switch it off); otherwise it is on.

use crate::text::{eq_ignore_ascii_case, same_text, same_word};
use vstd::prelude::*;

verus! {

/// The mode that the variable asks for.
pub open spec fn asked(var: Option<&str>) -> bool {
    match var {
        Some(s) => s@ != "0"@ && !same_word(s@, "off"@),
        None => true,
    }
}

/// The latch after a call of [`set`].
pub open spec fn after_set(mode: Option<bool>, on: bool) -> Option<bool> {
    if mode is Some { mode } else { Some(on) }
}

/// The mode that a read finds.
pub open spec fn resolved(mode: Option<bool>, var: Option<&str>) -> bool {
    match mode {
        Some(on) => on,
        None => asked(var),
    }
}

/// Latches the mode, unless it is latched already.
pub fn set(mode: &mut Option<bool>, on: bool)
    ensures
        *final(mode) == after_set(*old(mode), on),
{
    if mode.is_none() {
        *mode = Some(on);
    }
}

/// Reads the mode and latches it; `var` is the value of `RAV1E_RACECAR`.
pub fn on(mode: &mut Option<bool>, var: Option<&str>) -> (r: bool)
    ensures
        r == resolved(*old(mode), var),
        *final(mode) == Some(r),
{
    match *mode {
        Some(on) => on,
        None => {
            let on: bool = match var {
                Some(s) => !same_text(s, "0") && !eq_ignore_ascii_case(s, "off"),
                None => true,
            };
            *mode = Some(on);
            on
        },
    }
}

/// A choice made before the first read wins over the variable.
pub proof fn law_choice_wins_before_the_first_read(choice: bool, var: Option<&str>)
    ensures
        resolved(after_set(None, choice), var) == choice,
{
}

/// After a first read neither a choice nor the variable changes what is read.
pub proof fn law_mode_is_latched_by_the_first_read(
    mode: Option<bool>,
    first: Option<&str>,
    choice: bool,
    later: Option<&str>,
)
    ensures
        resolved(after_set(Some(resolved(mode, first)), choice), later) == resolved(mode, first),
{
}

/// The variable switches the mode off with a zero, or with the word for off in any case,
/// and with nothing else.
pub proof fn law_only_off_switches_off(s: &str)
    ensures
        !asked(Some(s)) <==> s@ == seq!['0'] || same_word(s@, seq!['o', 'f', 'f']),
        asked(None),
{
    reveal_strlit("0");
    reveal_strlit("off");
    assert("0"@ =~= seq!['0']);
    assert("off"@ =~= seq!['o', 'f', 'f']);
}

} // verus!
