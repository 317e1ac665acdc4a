use vstd::prelude::*;
use vstd::string::*;
use crate::text::str_eq;

verus! {

/// The two public engine modes.
#[derive(Clone, Copy, Debug, PartialEq, Eq, Structural)]
pub enum Mode {
    Geometry,
    Predictive,
}

/// The name under which a mode is written in canonical state.
pub open spec fn mode_name(mode: Mode) -> Seq<char> {
    match mode {
        Mode::Geometry => "geometry"@,
        Mode::Predictive => "predictive"@,
    }
}

/// The mode that a canonical name denotes.
pub open spec fn mode_of_name(name: Seq<char>) -> Option<Mode> {
    if name == "geometry"@ {
        Some(Mode::Geometry)
    } else if name == "predictive"@ {
        Some(Mode::Predictive)
    } else {
        None
    }
}

impl Mode {
    /// Parses the canonical mode name; nothing else is accepted.
    pub fn parse(value: &str) -> (res: Result<Mode, Error>)
        ensures
            match mode_of_name(value@) {
                Some(m) => res == Ok::<Mode, Error>(m),
                None => res matches Err(Error::Invalid(m)) && m@
                    == "mode must be 'geometry' or 'predictive'"@,
            },
    {
        proof {
            reveal_strlit("geometry");
            reveal_strlit("predictive");
            assert("geometry"@[0] != "predictive"@[0]);
        }
        if str_eq(value, "geometry") {
            Ok(Mode::Geometry)
        } else if str_eq(value, "predictive") {
            Ok(Mode::Predictive)
        } else {
            Err(Error::Invalid(String::from_str("mode must be 'geometry' or 'predictive'")))
        }
    }

    pub fn as_str(self) -> (s: &'static str)
        ensures
            s@ == mode_name(self),
    {
        match self {
            Mode::Geometry => "geometry",
            Mode::Predictive => "predictive",
        }
    }

    pub fn predictive(self) -> (b: bool)
        ensures
            b == (self == Mode::Predictive),
    {
        matches!(self, Mode::Predictive)
    }
}

/// The two learning spaces of a layer.
#[derive(Clone, Copy, Debug, PartialEq, Eq, Structural, PartialOrd, Ord)]
pub enum Space {
    Geometry,
    Temporal,
}

impl Space {
    pub fn as_str(self) -> (s: &'static str)
        ensures
            self == Space::Geometry ==> s@ == "geometry"@,
            self == Space::Temporal ==> s@ == "temporal"@,
    {
        match self {
            Space::Geometry => "geometry",
            Space::Temporal => "temporal",
        }
    }
}

/// Every failure the engine reports, with its human-readable detail.
#[derive(Debug, Clone, PartialEq, Eq)]
pub enum Error {
    Invalid(String),
    Json(String),
    Io(String),
    Inexecutable(String),
}

/// The display text of an error: a fixed prefix per kind, then the detail.
pub open spec fn error_text(e: Error) -> Seq<char> {
    match e {
        Error::Invalid(s) => "invalid Auxein input: "@ + s@,
        Error::Json(s) => "invalid JSON: "@ + s@,
        Error::Io(s) => "I/O error: "@ + s@,
        Error::Inexecutable(s) => "inexecutable Auxein state: "@ + s@,
    }
}

impl Error {
    /// The text by which the error is displayed.
    pub fn message(&self) -> (out: String)
        ensures
            out@ == error_text(*self),
    {
        match self {
            Error::Invalid(s) => String::from_str("invalid Auxein input: ").concat(s.as_str()),
            Error::Json(s) => String::from_str("invalid JSON: ").concat(s.as_str()),
            Error::Io(s) => String::from_str("I/O error: ").concat(s.as_str()),
            Error::Inexecutable(s) => String::from_str("inexecutable Auxein state: ").concat(
                s.as_str(),
            ),
        }
    }
}

/// A material budget: raw units, or a decimal count of geometric kernels.
#[derive(Clone, Debug, PartialEq, Eq)]
pub enum Budget {
    /// Exact raw material units.
    Units(u64),
    /// Ergonomic kernel capacity, parsed as an exact decimal.
    Kernels(String),
}

/// Records the one budget that a command line may give; a second one is
/// refused and the first kept.
pub fn set_budget_once(slot: &mut Option<Budget>, value: Budget) -> (r: Result<(), Error>)
    ensures
        match *old(slot) {
            Some(_) => {
                &&& *final(slot) == *old(slot)
                &&& r matches Err(Error::Invalid(m)) && m@
                    == "provide exactly one of --budget or --budget-units"@
            },
            None => *final(slot) == Some(value) && r is Ok,
        },
{
    if slot.is_some() {
        return Err(Error::Invalid(String::from_str("provide exactly one of --budget or --budget-units")));
    }
    *slot = Some(value);
    Ok(())
}

/// Every mode reads back from its own name, and the two names differ.
pub proof fn law_mode_name_round_trip(mode: Mode)
    ensures
        mode_of_name(mode_name(mode)) == Some(mode),
{
    reveal_strlit("geometry");
    reveal_strlit("predictive");
    assert("geometry"@[0] != "predictive"@[0]);
}

impl Budget {
    pub fn kernels(value: &str) -> (b: Budget)
        ensures
            (b matches Budget::Kernels(s) && s@ == value@),
    {
        Budget::Kernels(String::from_str(value))
    }

    pub fn units(value: u64) -> (b: Budget)
        ensures
            b == Budget::Units(value),
    {
        Budget::Units(value)
    }
}

} // verus!
