//! Strict mode: refusing `let` initializers that a forward jump makes misleading.
//!
//! An initializer does work when, outside any closure, it calls a function
//! or a method, or invokes a macro other than `vec!`, `matches!`, `concat!`
//! and `stringify!`. Strict mode refuses such a `let` in two places:
//! after a forward `goto!(…)` statement of its segment, where it can never
//! run; and before the first `goto!(…)` statement of a labelled segment that
//! a forward jump from an earlier segment skips entirely.
use vstd::prelude::*;

use crate::error::{faults, Fault, GotoError};
use crate::model::{has_name, is_goto, is_goto_event, is_label, is_word, Arg, Event, Mark, Stmt};
use crate::rewrite::goto_state;
use crate::segments::{
    after_goto, find, lemma_find_sound, segment_of, stmt_is_goto, stmt_is_label, string_views,
};

verus! {

/// The macros whose invocation counts as doing no work.
pub open spec fn is_pure_macro(name: Option<String>) -> bool {
    ||| is_word(name, "vec"@)
    ||| is_word(name, "matches"@)
    ||| is_word(name, "concat"@)
    ||| is_word(name, "stringify"@)
}

/// Whether the mark, outside any closure, calls or invokes a macro that does work.
pub open spec fn does_work(m: Mark<Arg>) -> bool {
    &&& m.depth == 0
    &&& match m.event {
        Event::Call => true,
        Event::Macro { name, .. } => !is_pure_macro(name),
        Event::Closure => false,
    }
}

/// Whether an initializer with these marks does work.
pub open spec fn works(ms: Seq<Mark<Arg>>) -> bool {
    exists|i: int| 0 <= i < ms.len() && #[trigger] does_work(ms[i])
}

/// Whether a `goto!(…)` statement that jumps forward stands before statement
/// `p` in its segment.
pub open spec fn forward_before(s: Seq<Stmt<Arg>>, names: Seq<Seq<char>>, p: int) -> bool
    decreases p,
{
    if p <= 0 {
        false
    } else if is_label(s[p - 1]) {
        false
    } else if is_goto(s[p - 1]) && match s[p - 1] {
        Stmt::Macro { arg, .. } => goto_state(names, arg) matches Some(t) && t > segment_of(
            s,
            p - 1,
        ),
        _ => false,
    } {
        true
    } else {
        forward_before(s, names, p - 1)
    }
}

/// The state that a mark jumps to, or 0.
pub open spec fn mark_reach(names: Seq<Seq<char>>, m: Mark<Arg>) -> nat {
    if m.depth == 0 && is_goto_event(m.event) {
        match m.event {
            Event::Macro { arg, .. } => match goto_state(names, arg) {
                Some(t) => t,
                None => 0,
            },
            _ => 0,
        }
    } else {
        0
    }
}

/// The furthest state that the first `k` marks jump to, or 0.
pub open spec fn marks_reach(names: Seq<Seq<char>>, ms: Seq<Mark<Arg>>, k: int) -> nat
    decreases k,
{
    if k <= 0 {
        0
    } else {
        let prev = marks_reach(names, ms, k - 1);
        let here = mark_reach(names, ms[k - 1]);
        if here > prev {
            here
        } else {
            prev
        }
    }
}

/// The furthest state that the statement jumps to, or 0.
pub open spec fn stmt_reach(names: Seq<Seq<char>>, st: Stmt<Arg>) -> nat {
    match st {
        Stmt::Local { init, rest, .. } => {
            let a = marks_reach(names, init@, init@.len() as int);
            let b = marks_reach(names, rest@, rest@.len() as int);
            if a > b {
                a
            } else {
                b
            }
        },
        Stmt::Macro { name, arg, .. } => if is_word(name, "goto"@) {
            match goto_state(names, arg) {
                Some(t) => t,
                None => 0,
            }
        } else {
            0
        },
        Stmt::Expr { marks, .. } => marks_reach(names, marks@, marks@.len() as int),
        Stmt::Item => 0,
    }
}

/// The furthest state that the statements before `p` jump to, or 0.
pub open spec fn reach_upto(s: Seq<Stmt<Arg>>, names: Seq<Seq<char>>, p: int) -> nat
    decreases p,
{
    if p <= 0 {
        0
    } else {
        let prev = reach_upto(s, names, p - 1);
        let here = if is_label(s[p - 1]) {
            0
        } else {
            stmt_reach(names, s[p - 1])
        };
        if here > prev {
            here
        } else {
            prev
        }
    }
}

/// The furthest state that the statements of the segments before the one
/// of statement `p` jump to, or 0.
pub open spec fn reach_earlier(s: Seq<Stmt<Arg>>, names: Seq<Seq<char>>, p: int) -> nat
    decreases p,
{
    if p <= 0 {
        0
    } else if is_label(s[p - 1]) {
        reach_upto(s, names, p - 1)
    } else {
        reach_earlier(s, names, p - 1)
    }
}

/// The strict-mode errors among the first `p` statements.
pub open spec fn strict_faults(s: Seq<Stmt<Arg>>, names: Seq<Seq<char>>, p: int) -> Seq<Fault>
    decreases p,
{
    if p <= 0 {
        Seq::empty()
    } else {
        let prev = strict_faults(s, names, p - 1);
        let q = p - 1;
        match s[q] {
            Stmt::Local { init, .. } => if !works(init@) {
                prev
            } else if forward_before(s, names, q) {
                prev.push(Fault::LetAfterGoto { stmt: q as nat })
            } else if !after_goto(s, q) && segment_of(s, q) >= 1 && reach_earlier(s, names, q)
                > segment_of(s, q) {
                prev.push(Fault::SkippableLet { stmt: q as nat })
            } else {
                prev
            },
            _ => prev,
        }
    }
}

/// The state that a `goto!(…)` with this argument jumps to, if it names a label.
fn state_of(names: &Vec<String>, arg: &Arg) -> (r: Option<usize>)
    ensures
        match r {
            Some(t) => goto_state(string_views(names@), *arg) == Some(t as nat),
            None => goto_state(string_views(names@), *arg) is None,
        },
{
    match arg {
        Arg::Ident(n) => {
            let found = find(names, n);
            proof {
                lemma_find_sound(string_views(names@), n@, names@.len() as int);
            }
            match found {
                Some(k) => {
                    let count = names.len();
                    assert(k < count);
                    Some(k + 1)
                },
                None => None,
            }
        },
        Arg::Invalid(_) => None,
    }
}

/// Whether an initializer with these marks does work.
fn initializer_works(ms: &Vec<Mark<Arg>>) -> (r: bool)
    ensures
        r == works(ms@),
{
    let mut i: usize = 0;
    while i < ms.len()
        invariant
            0 <= i <= ms.len(),
            forall|j: int| 0 <= j < i ==> !#[trigger] does_work(ms@[j]),
        decreases ms.len() - i,
    {
        let m = &ms[i];
        if m.depth == 0 {
            match &m.event {
                Event::Call => {
                    assert(does_work(ms@[i as int]));
                    return true;
                },
                Event::Macro { name, .. } => {
                    let pure = has_name(name, "vec") || has_name(name, "matches") || has_name(
                        name,
                        "concat",
                    ) || has_name(name, "stringify");
                    if !pure {
                        assert(does_work(ms@[i as int]));
                        return true;
                    }
                },
                Event::Closure => {},
            }
        }
        i = i + 1;
    }
    false
}

/// The furthest state that the marks jump to, or 0.
fn reach_of_marks(names: &Vec<String>, ms: &Vec<Mark<Arg>>) -> (r: usize)
    ensures
        r == marks_reach(string_views(names@), ms@, ms@.len() as int),
{
    let mut best: usize = 0;
    let mut i: usize = 0;
    while i < ms.len()
        invariant
            0 <= i <= ms.len(),
            best == marks_reach(string_views(names@), ms@, i as int),
        decreases ms.len() - i,
    {
        let m = &ms[i];
        if m.depth == 0 {
            if let Event::Macro { name, arg, .. } = &m.event {
                if has_name(name, "goto") {
                    if let Some(t) = state_of(names, arg) {
                        if t > best {
                            best = t;
                        }
                    }
                }
            }
        }
        i = i + 1;
    }
    best
}

/// The furthest state that the statement jumps to, or 0.
fn reach_of_stmt(names: &Vec<String>, st: &Stmt<Arg>) -> (r: usize)
    ensures
        r == stmt_reach(string_views(names@), *st),
{
    match st {
        Stmt::Local { init, rest, .. } => {
            let a = reach_of_marks(names, init);
            let b = reach_of_marks(names, rest);
            if a > b {
                a
            } else {
                b
            }
        },
        Stmt::Macro { name, arg, .. } => {
            if has_name(name, "goto") {
                match state_of(names, arg) {
                    Some(t) => t,
                    None => 0,
                }
            } else {
                0
            }
        },
        Stmt::Expr { marks, .. } => reach_of_marks(names, marks),
        Stmt::Item => 0,
    }
}

/// The strict-mode errors, in the order of the statements.
pub fn strict_check(stmts: &Vec<Stmt<Arg>>, names: &Vec<String>) -> (errs: Vec<GotoError>)
    ensures
        faults(errs@) == strict_faults(stmts@, string_views(names@), stmts@.len() as int),
{
    let ghost views = string_views(names@);
    let mut errs: Vec<GotoError> = Vec::new();
    let mut blocked = false;
    let mut forward = false;
    let mut segment: usize = 0;
    let mut reach: usize = 0;
    let mut earlier: usize = 0;
    let mut i: usize = 0;
    while i < stmts.len()
        invariant
            0 <= i <= stmts.len(),
            views == string_views(names@),
            segment as nat == segment_of(stmts@, i as int),
            segment <= i,
            blocked == after_goto(stmts@, i as int),
            forward == forward_before(stmts@, views, i as int),
            reach as nat == reach_upto(stmts@, views, i as int),
            earlier as nat == reach_earlier(stmts@, views, i as int),
            faults(errs@) == strict_faults(stmts@, views, i as int),
        decreases stmts.len() - i,
    {
        let st = &stmts[i];
        let is_label = stmt_is_label(st);
        let is_goto = stmt_is_goto(st);
        if let Stmt::Local { init, .. } = st {
            if initializer_works(init) {
                if forward {
                    errs.push(GotoError::LetAfterGoto { stmt: i });
                    assert(faults(errs@) =~= strict_faults(stmts@, views, i + 1));
                } else if !blocked && segment >= 1 && earlier > segment {
                    errs.push(GotoError::SkippableLet { stmt: i });
                    assert(faults(errs@) =~= strict_faults(stmts@, views, i + 1));
                }
            }
        }
        if is_label {
            earlier = reach;
        } else {
            let here = reach_of_stmt(names, st);
            if here > reach {
                reach = here;
            }
        }
        if is_label {
            blocked = false;
            forward = false;
        } else if is_goto {
            blocked = true;
            if let Stmt::Macro { arg, .. } = st {
                if let Some(t) = state_of(names, arg) {
                    if t > segment {
                        forward = true;
                    }
                }
            }
        }
        if is_label {
            segment = segment + 1;
        }
        i = i + 1;
    }
    errs
}

} // verus!
