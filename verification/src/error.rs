//! The compile errors that `#[goto]` reports, and their messages.
use vstd::prelude::*;

verus! {

/// A compile error of the rewrite, with what locates it: a macro invocation
/// (`site`) or a top-level statement (`stmt`).
pub enum GotoError {
    /// `label!(…)` whose argument is not an identifier; `reason` says why.
    InvalidLabel { site: usize, reason: String },
    /// A second `label!(name)` with a name already used.
    DuplicateLabel { site: usize, name: String },
    /// `goto!(name)` with no `label!(name)` in the body.
    UndefinedLabel { site: usize, name: String },
    /// `goto!(…)` whose argument is not an identifier; `reason` says why.
    InvalidGoto { site: usize, reason: String },
    /// `goto!(…)` in the body of a closure.
    GotoInClosure { site: usize },
    /// Strict mode: a `let` with an initializer that does work, after a
    /// forward `goto!()` in the same segment.
    LetAfterGoto { stmt: usize },
    /// Strict mode: a `let` with an initializer that does work, before the
    /// first `goto!()` statement of a labelled segment that a forward
    /// `goto!()` from an earlier segment skips entirely.
    SkippableLet { stmt: usize },
}

/// A compile error as a value: names and reasons as sequences of characters.
pub enum Fault {
    InvalidLabel { site: usize, reason: Seq<char> },
    DuplicateLabel { site: usize, name: Seq<char> },
    UndefinedLabel { site: usize, name: Seq<char> },
    InvalidGoto { site: usize, reason: Seq<char> },
    GotoInClosure { site: usize },
    LetAfterGoto { stmt: nat },
    SkippableLet { stmt: nat },
}

impl View for GotoError {
    type V = Fault;

    open spec fn view(&self) -> Fault {
        match self {
            GotoError::InvalidLabel { site, reason } => Fault::InvalidLabel {
                site: *site,
                reason: reason@,
            },
            GotoError::DuplicateLabel { site, name } => Fault::DuplicateLabel {
                site: *site,
                name: name@,
            },
            GotoError::UndefinedLabel { site, name } => Fault::UndefinedLabel {
                site: *site,
                name: name@,
            },
            GotoError::InvalidGoto { site, reason } => Fault::InvalidGoto {
                site: *site,
                reason: reason@,
            },
            GotoError::GotoInClosure { site } => Fault::GotoInClosure { site: *site },
            GotoError::LetAfterGoto { stmt } => Fault::LetAfterGoto { stmt: *stmt as nat },
            GotoError::SkippableLet { stmt } => Fault::SkippableLet { stmt: *stmt as nat },
        }
    }
}

/// The views of a list of errors.
pub open spec fn faults(v: Seq<GotoError>) -> Seq<Fault> {
    v.map_values(|e: GotoError| e@)
}

/// The text of the compile error.
pub open spec fn message_of(f: Fault) -> Seq<char> {
    match f {
        Fault::InvalidLabel { reason, .. } => "invalid label!() syntax: "@ + reason
            + " \u{2014} expected an identifier, e.g. `label!(my_label)`"@,
        Fault::DuplicateLabel { name, .. } => "duplicate label: `"@ + name
            + "` \u{2014} each label must be unique within a #[goto] function"@,
        Fault::UndefinedLabel { name, .. } => "undefined label: `"@ + name + "`"@,
        Fault::InvalidGoto { reason, .. } => reason,
        Fault::GotoInClosure { .. } =>
            "`goto!()` inside a closure is not supported \u{2014} apply `#[goto]` to a named inner function instead"@,
        Fault::LetAfterGoto { .. } =>
            "this initializer appears after a forward `goto!()` and can never run"@,
        Fault::SkippableLet { .. } =>
            "this initializer stands in a segment that a forward `goto!()` can skip entirely"@,
    }
}

/// `prefix`, then `middle`, then `suffix`, as one string.
fn surround(prefix: &str, middle: &String, suffix: &str) -> (s: String)
    ensures
        s@ == prefix@ + middle@ + suffix@,
{
    let mut s = String::from_str(prefix);
    s.append(middle.as_str());
    s.append(suffix);
    s
}

impl GotoError {
    /// The text of the compile error.
    pub fn message(&self) -> (m: String)
        ensures
            m@ == message_of(self@),
    {
        match self {
            GotoError::InvalidLabel { reason, .. } => surround(
                "invalid label!() syntax: ",
                reason,
                " \u{2014} expected an identifier, e.g. `label!(my_label)`",
            ),
            GotoError::DuplicateLabel { name, .. } => surround(
                "duplicate label: `",
                name,
                "` \u{2014} each label must be unique within a #[goto] function",
            ),
            GotoError::UndefinedLabel { name, .. } => surround("undefined label: `", name, "`"),
            GotoError::InvalidGoto { reason, .. } => reason.clone(),
            GotoError::GotoInClosure { .. } => String::from_str(
                "`goto!()` inside a closure is not supported \u{2014} apply `#[goto]` to a named inner function instead",
            ),
            GotoError::LetAfterGoto { .. } => String::from_str(
                "this initializer appears after a forward `goto!()` and can never run",
            ),
            GotoError::SkippableLet { .. } => String::from_str(
                "this initializer stands in a segment that a forward `goto!()` can skip entirely",
            ),
        }
    }
}

} // verus!
