//! Input and output data types of the generation pipeline.
//!
//! `Ip`, `Pin` and `Signal` are filled in by an external reader of the
//! vendor metadata; this library only consumes them. A pin's port letter
//! and pin number are derived from its name by that reader, and the
//! derivation can fail, so both are held as `Option` and read through the
//! fallible `port()` / `number()` accessors.

use vstd::prelude::*;

verus! {

/// A generation error. Every fatal condition of the pipeline is one of
/// these variants; an `Err` always tells the caller exactly which input
/// was at fault.
#[derive(Debug)]
pub enum Error {
    /// An IP version string that does not match the expected
    /// `STM32<tag>_gpio_v1_0` pattern; carries the offending string.
    InvalidVersion(String),
    /// A pin whose port letter could not be derived; carries the pin name.
    UnknownPort(String),
    /// A pin whose pin number could not be derived; carries the pin name.
    UnknownNumber(String),
    /// A signal that does not resolve to an alternate function. Callers
    /// of [`Signal::af`] treat this as an expected, silently skipped case.
    NoAlternateFunction,
}

/// One electrical signal routable to a pin. The external reader resolves
/// it, when possible, to an alternate-function number and a function name
/// of the form `<peripheral>_<signal>`.
pub struct Signal {
    /// The resolved `(alternate-function number, function name)` pair, or
    /// `None` when the signal is not meaningful as an alternate function.
    pub af: Option<(u8, String)>,
}

impl Signal {
    /// The alternate-function resolution of this signal; an error means
    /// the signal carries no alternate function, which callers skip.
    pub fn af(&self) -> (r: Result<(u8, String), Error>)
        ensures
            match r {
                Ok(p) => self.af is Some && p.0 == (self.af->0).0 && p.1@ == (self.af->0).1@,
                Err(e) => self.af is None && e is NoAlternateFunction,
            },
    {
        match &self.af {
            Some(p) => Ok((p.0, p.1.clone())),
            None => Err(Error::NoAlternateFunction),
        }
    }
}

/// One physical pin of an IP block.
pub struct Pin {
    /// The pin's name as given by the metadata, e.g. `PA0`.
    pub name: String,
    /// The port letter derived from the name, when derivable.
    pub port: Option<char>,
    /// The pin number derived from the name, when derivable.
    pub number: Option<u32>,
    /// The signals routable to this pin.
    pub pin_signals: Vec<Signal>,
}

impl Pin {
    /// The pin's port letter; failure to derive it is a fatal error
    /// naming the pin.
    pub fn port(&self) -> (r: Result<char, Error>)
        ensures
            match r {
                Ok(c) => self.port == Some(c),
                Err(e) => self.port is None && (e matches Error::UnknownPort(n) && n@
                    == self.name@),
            },
    {
        match self.port {
            Some(c) => Ok(c),
            None => Err(Error::UnknownPort(self.name.clone())),
        }
    }

    /// The pin's number; failure to derive it is a fatal error naming
    /// the pin.
    pub fn number(&self) -> (r: Result<u32, Error>)
        ensures
            match r {
                Ok(n) => self.number == Some(n),
                Err(e) => self.number is None && (e matches Error::UnknownNumber(n) && n@
                    == self.name@),
            },
    {
        match self.number {
            Some(n) => Ok(n),
            None => Err(Error::UnknownNumber(self.name.clone())),
        }
    }
}

/// One GPIO IP-block variant: a version identifier and its pins.
pub struct Ip {
    /// The version identifier, expected to match `STM32<tag>_gpio_v1_0`.
    pub version: String,
    /// The pins of this IP block, in metadata order.
    pub pins: Vec<Pin>,
}

/// One generated record: a set of feature tags and the body text they
/// guard. The merge passes extend `features` and concatenate `string`;
/// emission renders the record as a `#[cfg(..)]`-guarded block.
pub struct PortMacro {
    /// The feature tags, in first-seen order; never deduplicated.
    pub features: Vec<String>,
    /// The body text: the pin-mapping lines, newline-joined.
    pub string: String,
}

/// The mathematical value of a [`PortMacro`]: its feature tags and body
/// as sequences of characters.
pub ghost struct MacroModel {
    pub features: Seq<Seq<char>>,
    pub body: Seq<char>,
}

impl View for PortMacro {
    type V = MacroModel;

    open spec fn view(&self) -> MacroModel {
        MacroModel { features: self.features.deep_view(), body: self.string@ }
    }
}

} // verus!
