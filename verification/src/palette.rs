//! Time-of-day themes. The colour tables themselves are floating point and
//! belong to the renderer; here are the themes, their order and names.

use vstd::prelude::*;

verus! {

/// Time-of-day selector; the themes cycle Dawn, Midday, Dusk, Night.
#[derive(Clone, Copy, Debug, PartialEq, Eq, Structural)]
pub enum TimeOfDay {
    Dawn,
    Midday,
    Dusk,
    Night,
}

/// The theme at position `n` of the endless Dawn, Midday, Dusk, Night cycle.
pub open spec fn theme_at(n: nat) -> TimeOfDay {
    if n % 4 == 0 {
        TimeOfDay::Dawn
    } else if n % 4 == 1 {
        TimeOfDay::Midday
    } else if n % 4 == 2 {
        TimeOfDay::Dusk
    } else {
        TimeOfDay::Night
    }
}

impl TimeOfDay {
    /// The theme for the `n`-th theme period since the start of a run.
    pub fn from_cycle(n: usize) -> (t: Self)
        ensures
            t == theme_at(n as nat),
    {
        match n % 4 {
            0 => TimeOfDay::Dawn,
            1 => TimeOfDay::Midday,
            2 => TimeOfDay::Dusk,
            _ => TimeOfDay::Night,
        }
    }

    /// Short uppercase display name (used by the HUD).
    pub fn name(self) -> (s: &'static str)
        ensures
            s@ == match self {
                TimeOfDay::Dawn => "DAWN"@,
                TimeOfDay::Midday => "MIDDAY"@,
                TimeOfDay::Dusk => "DUSK"@,
                TimeOfDay::Night => "NIGHT"@,
            },
    {
        match self {
            TimeOfDay::Dawn => "DAWN",
            TimeOfDay::Midday => "MIDDAY",
            TimeOfDay::Dusk => "DUSK",
            TimeOfDay::Night => "NIGHT",
        }
    }
}

} // verus!
