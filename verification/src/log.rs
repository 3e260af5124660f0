//! How much the program says on stderr, set once at startup from `-q`/`-v`.
//!
//! Levels: 0 = errors only, 1 = status (default), 2 = protocol trace.

use vstd::prelude::*;

verus! {

/// The verbosity of a run.
#[derive(Clone, Copy, PartialEq, Eq, Structural)]
pub struct Verbosity {
    level: u8,
}

impl View for Verbosity {
    type V = u8;

    closed spec fn view(&self) -> u8 {
        self.level
    }
}

impl Verbosity {
    /// The level of a run that was given neither `-q` nor `-v`: status lines.
    pub fn new() -> (v: Self)
        ensures
            v@ == 1,
    {
        Verbosity { level: 1 }
    }
}

/// Set the level.
pub fn set(verbosity: &mut Verbosity, level: u8)
    ensures
        final(verbosity)@ == level,
{
    verbosity.level = level;
}

/// The current level.
pub fn level(verbosity: &Verbosity) -> (l: u8)
    ensures
        l == verbosity@,
{
    verbosity.level
}

/// Whether a run at level `level` prints the lines of level `at`.
pub open spec fn prints(level: u8, at: u8) -> bool {
    level >= at
}

/// A run prints the lines of its own level and of those below, and none above.
pub proof fn lemma_levels(level: u8, at: u8)
    ensures
        prints(level, level),
        prints(level, at) || prints(at, level),
        prints(level, at) && prints(at, level) ==> level == at,
        prints(level, at) ==> level as int - at as int >= 0,
        prints(2, 1) && prints(1, 0) && !prints(1, 2) && !prints(0, 1),
{
}

/// Whether a line of the given level is printed. Real errors are not asked
/// for here: they are always printed.
pub fn enabled(verbosity: &Verbosity, at: u8) -> (b: bool)
    ensures
        b == prints(verbosity@, at),
        b == (verbosity@ >= at),
{
    level(verbosity) >= at
}

} // verus!
