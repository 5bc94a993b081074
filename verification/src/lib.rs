//! `#[goto]`: `label!(name)` and `goto!(name)` inside a function body, rewritten
//! into a loop over a `match` on a state number.
//!
//! The library works on the body as plain values ([`model`]): it reads the
//! arguments of the macro invocations as identifiers ([`read`]), splits the
//! body at its labels and hoists `let` bindings ([`segments`]), replaces each
//! `goto!(…)` with a jump ([`rewrite`]), checks strict mode ([`strict`]) and
//! lays out the arms of the state machine ([`expand`]); or it gives the
//! compile errors ([`error`]). [`laws`] states what holds of every rewrite.
pub mod error;
pub mod expand;
pub mod laws;
pub mod model;
pub mod read;
pub mod rewrite;
pub mod segments;
pub mod strict;

use vstd::prelude::*;

use crate::error::GotoError;
use crate::expand::{expand, expand_spec, outcome, Expansion};
use crate::model::{options_of, read_options, Arg, Body};
use crate::read::{body_read, read_args};

verus! {

/// Rewrites a function body for `#[goto(…)]`, given the identifiers written
/// between the attribute's parentheses (`debug`, `strict`) and the body with
/// the text of each macro invocation's arguments: the state machine that
/// replaces the body, or the compile errors.
pub fn goto(attr: &Vec<String>, body: &Body<String>) -> (r: Result<Expansion, Vec<GotoError>>)
    ensures
        exists|parsed: Body<Arg>|
            body_read(*body, parsed) && outcome(r) == expand_spec(parsed, options_of(attr@)),
{
    let opts = read_options(attr);
    let parsed = read_args(body);
    expand(&parsed, opts)
}

} // verus!
