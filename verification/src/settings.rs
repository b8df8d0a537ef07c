//! What a session can be set to: the order of reduction, what is shown,
//! and the mode of a run.

use vstd::prelude::*;
use crate::beta::BetaOrder;

verus! {

/// What can be wrong with a setting.
#[derive(Debug, Clone, Copy, PartialEq, Eq, Structural)]
pub enum Error {
    /// No order of reduction has the name given.
    UnknownBetaOrder,
    /// No mode has the name given.
    UnknownMode,
}

/// The settings of a session.
pub struct Settings {
    pub prompt: String,
    pub show_tokens: bool,
    pub show_ast: bool,
    pub show_form: bool,
    pub run: bool,
    pub bench: bool,
    pub show_output: bool,
    pub prettify: bool,
    pub b_order: BetaOrder,
}

/// The mode of a run.
#[derive(Debug, Clone, Copy, PartialEq, Eq, Structural)]
pub enum Mode {
    /// Every step is shown, and the run waits after each.
    Debug,
    /// Every step is shown.
    Visual,
    /// Every step is shown with its number, size and time.
    VisualTrace,
    /// The number, size and time of every step are shown.
    Trace,
    /// The time of every part of the work is shown.
    Bench,
    /// Only the result is shown.
    Normal,
}

/// The order of reduction that a name stands for: `normal` is the normal
/// order and `call-by-value` the order by value; any other name stands for
/// none.
pub open spec fn order_of_name(s: Seq<char>) -> Result<BetaOrder, Error> {
    if s == "normal"@ {
        Ok(BetaOrder::Normal)
    } else if s == "call-by-value"@ {
        Ok(BetaOrder::CallByValue)
    } else {
        Err(Error::UnknownBetaOrder)
    }
}

/// The mode that a name stands for: `debug`, `visual`, `visualtrace`,
/// `normal`, `bench` and `trace` stand for the modes so called; any other
/// name stands for none.
pub open spec fn mode_of_name(s: Seq<char>) -> Result<Mode, Error> {
    if s == "debug"@ {
        Ok(Mode::Debug)
    } else if s == "visual"@ {
        Ok(Mode::Visual)
    } else if s == "visualtrace"@ {
        Ok(Mode::VisualTrace)
    } else if s == "normal"@ {
        Ok(Mode::Normal)
    } else if s == "bench"@ {
        Ok(Mode::Bench)
    } else if s == "trace"@ {
        Ok(Mode::Trace)
    } else {
        Err(Error::UnknownMode)
    }
}

/// Whether two texts hold the same characters.
fn same_text(a: &str, b: &str) -> (r: bool)
    ensures
        r == (a@ == b@),
{
    a.to_owned() == b.to_owned()
}

impl Default for Settings {
    fn default() -> (s: Settings)
        ensures
            s.prompt@ == "λ> "@,
            !s.show_tokens,
            !s.show_ast,
            !s.show_form,
            s.run,
            !s.bench,
            s.show_output,
            s.prettify,
            s.b_order == BetaOrder::Normal,
    {
        Settings {
            prompt: "λ> ".to_owned(),
            show_tokens: false,
            show_ast: false,
            run: true,
            bench: false,
            show_output: true,
            prettify: true,
            show_form: false,
            b_order: BetaOrder::Normal,
        }
    }
}

impl Default for BetaOrder {
    fn default() -> (o: BetaOrder)
        ensures
            o == BetaOrder::Normal,
    {
        BetaOrder::Normal
    }
}

impl Default for Mode {
    fn default() -> (m: Mode)
        ensures
            m == Mode::Normal,
    {
        Mode::Normal
    }
}

impl BetaOrder {
    /// The order of reduction of the name `s`: `normal` or `call-by-value`.
    pub fn from_name(s: &str) -> (r: Result<BetaOrder, Error>)
        ensures
            r == order_of_name(s@),
    {
        if same_text(s, "normal") {
            Ok(BetaOrder::Normal)
        } else if same_text(s, "call-by-value") {
            Ok(BetaOrder::CallByValue)
        } else {
            Err(Error::UnknownBetaOrder)
        }
    }
}

impl core::str::FromStr for BetaOrder {
    type Err = Error;

    /// The order of reduction of the name `s`: `normal` or `call-by-value`.
    fn from_str(s: &str) -> (r: Result<BetaOrder, Error>)
        ensures
            r == order_of_name(s@),
    {
        BetaOrder::from_name(s)
    }
}

impl Mode {
    /// Whether the steps of a run are shown in this mode.
    pub fn should_show(&self) -> (r: bool)
        ensures
            r == (*self == Mode::Visual || *self == Mode::Debug || *self == Mode::VisualTrace),
    {
        match self {
            Mode::Visual => true,
            Mode::Debug => true,
            Mode::VisualTrace => true,
            _ => false,
        }
    }

    /// The mode of the name `s`.
    pub fn from_name(s: &str) -> (r: Result<Mode, Error>)
        ensures
            r == mode_of_name(s@),
    {
        if same_text(s, "debug") {
            Ok(Mode::Debug)
        } else if same_text(s, "visual") {
            Ok(Mode::Visual)
        } else if same_text(s, "visualtrace") {
            Ok(Mode::VisualTrace)
        } else if same_text(s, "normal") {
            Ok(Mode::Normal)
        } else if same_text(s, "bench") {
            Ok(Mode::Bench)
        } else if same_text(s, "trace") {
            Ok(Mode::Trace)
        } else {
            Err(Error::UnknownMode)
        }
    }
}

impl core::str::FromStr for Mode {
    type Err = Error;

    /// The mode of the name `s`.
    fn from_str(s: &str) -> (r: Result<Mode, Error>)
        ensures
            r == mode_of_name(s@),
    {
        Mode::from_name(s)
    }
}

} // verus!
