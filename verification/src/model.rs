//! The function body that `#[goto]` rewrites, as plain values.
//!
//! A body is the list of its top-level statements. Within a statement, only what
//! the rewrite reads is kept: the macro invocations, closures and calls it holds,
//! in the order in which a syntax-tree visitor meets them, each with the number
//! of closures around it (its depth).
use vstd::prelude::*;

verus! {

/// The argument of a `label!(…)` or `goto!(…)` read as an identifier: its
/// name, or the reason it is not one.
pub enum Arg {
    Ident(String),
    Invalid(String),
}

/// What the rewrite reads inside a statement.
pub enum Event<A> {
    /// A macro invocation. `name` is its path when that path is a single
    /// identifier, `site` tells the invocation apart from all others, `arg`
    /// is what stands between its delimiters.
    Macro { name: Option<String>, site: usize, arg: A },
    /// A closure. The events of its body follow, one level deeper.
    Closure,
    /// A function or method call.
    Call,
}

/// An event and the number of closures that enclose it within its statement.
pub struct Mark<A> {
    pub depth: usize,
    pub event: Event<A>,
}

/// How a `let` statement is written.
#[derive(Clone, Copy, PartialEq, Eq, Structural)]
pub enum LetForm {
    /// `let p;` or `let p: T;`: a declaration without initializer.
    Bare,
    /// `let x = e;` (with or without `mut` or a type) where `x` is one name
    /// and `e` holds no closure and no `async` block, so that each run of
    /// `e` gives a value of the same type, which `x = e` can assign again.
    Assignable,
    /// Any other `let`: another pattern, an `else` block, or an initializer
    /// with a closure or an `async` block.
    Other,
}

/// A top-level statement of the function body.
pub enum Stmt<A> {
    /// A `let` binding: the events of its initializer, then those of its
    /// `else` block, if any; how it is written; the names its pattern binds;
    /// and the single-identifier names that its initializer and `else` block
    /// mention, as paths or as identifiers inside macro invocations.
    Local { init: Vec<Mark<A>>, rest: Vec<Mark<A>>, form: LetForm, names: Vec<String>, reads: Vec<String> },
    /// A macro invocation in statement position.
    Macro { name: Option<String>, site: usize, arg: A },
    /// An expression statement; `semi` tells whether a semicolon ends it.
    Expr { marks: Vec<Mark<A>>, semi: bool },
    /// An item declared in the body (a nested function, a type, …). Its
    /// contents are its own: the rewrite does not look into it.
    Item,
}

/// The body of the function, and whether the function returns a value.
pub struct Body<A> {
    pub stmts: Vec<Stmt<A>>,
    pub returns_value: bool,
}

/// The switches of `#[goto(…)]`.
#[derive(Clone, Copy)]
pub struct Options {
    /// Print the name of the label at each jump.
    pub debug: bool,
    /// Refuse `let` initializers that a forward jump makes misleading.
    pub strict: bool,
}

/// Whether `name` is the single identifier `word`.
pub open spec fn is_word(name: Option<String>, word: Seq<char>) -> bool {
    name matches Some(n) && n@ == word
}

/// Whether the statement is a `label!(…)` invocation.
pub open spec fn is_label<A>(st: Stmt<A>) -> bool {
    st matches Stmt::Macro { name, .. } && is_word(name, "label"@)
}

/// Whether the statement is a `goto!(…)` invocation in statement position.
pub open spec fn is_goto<A>(st: Stmt<A>) -> bool {
    st matches Stmt::Macro { name, .. } && is_word(name, "goto"@)
}

/// Whether the event is a `goto!(…)` invocation.
pub open spec fn is_goto_event<A>(e: Event<A>) -> bool {
    e matches Event::Macro { name, .. } && is_word(name, "goto"@)
}

/// Checks whether a macro path name is the single identifier `word`.
pub fn has_name(name: &Option<String>, word: &str) -> (r: bool)
    ensures
        r == is_word(*name, word@),
{
    match name {
        Some(n) => {
            let w = String::from_str(word);
            *n == w
        },
        None => false,
    }
}

/// The options named by the words of the attribute.
pub open spec fn options_of(words: Seq<String>) -> Options {
    Options {
        debug: exists|i: int| 0 <= i < words.len() && words[i]@ == "debug"@,
        strict: exists|i: int| 0 <= i < words.len() && words[i]@ == "strict"@,
    }
}

/// Reads the options from the identifiers written in `#[goto(…)]`; words
/// other than `debug` and `strict` are ignored.
pub fn read_options(words: &Vec<String>) -> (o: Options)
    ensures
        o == options_of(words@),
{
    let debug_word = String::from_str("debug");
    let strict_word = String::from_str("strict");
    let mut debug = false;
    let mut strict = false;
    let mut i: usize = 0;
    while i < words.len()
        invariant
            0 <= i <= words.len(),
            debug_word@ == "debug"@,
            strict_word@ == "strict"@,
            debug == exists|j: int| 0 <= j < i && words@[j]@ == "debug"@,
            strict == exists|j: int| 0 <= j < i && words@[j]@ == "strict"@,
        decreases words.len() - i,
    {
        if words[i] == debug_word {
            debug = true;
        }
        if words[i] == strict_word {
            strict = true;
        }
        i = i + 1;
    }
    Options { debug, strict }
}

} // verus!
