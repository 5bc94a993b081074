//! Replacing each `goto!(name)` with a jump to the segment that `label!(name)` opens.
//!
//! All statements but the labels are visited in order. A `goto!(…)` outside
//! any closure becomes a jump to state `k + 1`, where `k` is the index of the
//! label it names; a `goto!(…)` anywhere in a closure is an error, reported
//! at the first such `goto!(…)` of each closure. Items declared in the body
//! (nested functions) are their own and are not visited.
use vstd::prelude::*;

use crate::error::{faults, Fault, GotoError};
use crate::model::{has_name, is_goto_event, is_label, is_word, Arg, Event, Mark, Stmt};
use crate::segments::{
    find, find_label, lemma_find_sound, stmt_is_label, string_views,
};

verus! {

/// A `goto!(…)` replaced by a jump: the invocation, the state it sets, and,
/// in debug mode, the name of the label to print.
pub struct Jump {
    pub site: usize,
    pub state: usize,
    pub announce: Option<String>,
}

/// A jump as a value.
pub struct JumpView {
    pub site: usize,
    pub state: nat,
    pub announce: Option<Seq<char>>,
}

impl View for Jump {
    type V = JumpView;

    open spec fn view(&self) -> JumpView {
        JumpView {
            site: self.site,
            state: self.state as nat,
            announce: match self.announce {
                Some(n) => Some(n@),
                None => None,
            },
        }
    }
}

/// The views of a list of jumps.
pub open spec fn jump_views(v: Seq<Jump>) -> Seq<JumpView> {
    v.map_values(|j: Jump| j@)
}

/// What the replacement makes of part of the body: its jumps and its errors,
/// each in the order met.
pub struct Rewrite {
    pub jumps: Seq<JumpView>,
    pub faults: Seq<Fault>,
}

/// Nothing replaced, nothing refused.
pub open spec fn unchanged() -> Rewrite {
    Rewrite { jumps: Seq::empty(), faults: Seq::empty() }
}

/// `a`, then `b`.
pub open spec fn then(a: Rewrite, b: Rewrite) -> Rewrite {
    Rewrite { jumps: a.jumps + b.jumps, faults: a.faults + b.faults }
}

/// The state that a `goto!(…)` with this argument jumps to, if it names a label.
pub open spec fn goto_state(names: Seq<Seq<char>>, arg: Arg) -> Option<nat> {
    match arg {
        Arg::Ident(n) => match find_label(names, n@) {
            Some(k) => Some(k + 1),
            None => None,
        },
        Arg::Invalid(_) => None,
    }
}

/// What becomes of one `goto!(…)`.
pub open spec fn resolve(names: Seq<Seq<char>>, site: usize, arg: Arg, debug: bool) -> Rewrite {
    match arg {
        Arg::Ident(n) => match find_label(names, n@) {
            Some(k) => Rewrite {
                jumps: seq![
                    JumpView {
                        site,
                        state: k + 1,
                        announce: if debug {
                            Some(n@)
                        } else {
                            None
                        },
                    },
                ],
                faults: Seq::empty(),
            },
            None => Rewrite {
                jumps: Seq::empty(),
                faults: seq![Fault::UndefinedLabel { site, name: n@ }],
            },
        },
        Arg::Invalid(r) => Rewrite {
            jumps: Seq::empty(),
            faults: seq![Fault::InvalidGoto { site, reason: r@ }],
        },
    }
}

/// The first `goto!(…)` in the closure whose body starts at mark `j`: the
/// body is the run of marks deeper than the closure, closures nested in it
/// included.
pub open spec fn closure_goto(ms: Seq<Mark<Arg>>, j: int) -> Option<usize>
    decreases ms.len() - j,
{
    if j < 0 || j >= ms.len() || ms[j].depth == 0 {
        None
    } else if is_goto_event(ms[j].event) {
        match ms[j].event {
            Event::Macro { site, .. } => Some(site),
            _ => None,
        }
    } else {
        closure_goto(ms, j + 1)
    }
}

/// What becomes of mark `i`.
pub open spec fn mark_rewrite(names: Seq<Seq<char>>, ms: Seq<Mark<Arg>>, i: int, debug: bool) -> Rewrite {
    if ms[i].depth != 0 {
        unchanged()
    } else {
        match ms[i].event {
            Event::Macro { name, site, arg } => if is_word(name, "goto"@) {
                resolve(names, site, arg, debug)
            } else {
                unchanged()
            },
            Event::Closure => match closure_goto(ms, i + 1) {
                Some(site) => Rewrite {
                    jumps: Seq::empty(),
                    faults: seq![Fault::GotoInClosure { site }],
                },
                None => unchanged(),
            },
            Event::Call => unchanged(),
        }
    }
}

/// What becomes of the first `k` marks.
pub open spec fn marks_rewrite(names: Seq<Seq<char>>, ms: Seq<Mark<Arg>>, k: int, debug: bool) -> Rewrite
    decreases k,
{
    if k <= 0 {
        unchanged()
    } else {
        then(marks_rewrite(names, ms, k - 1, debug), mark_rewrite(names, ms, k - 1, debug))
    }
}

/// What becomes of all the marks.
pub open spec fn all_marks_rewrite(names: Seq<Seq<char>>, ms: Seq<Mark<Arg>>, debug: bool) -> Rewrite {
    marks_rewrite(names, ms, ms.len() as int, debug)
}

/// What becomes of a statement other than a label.
pub open spec fn stmt_rewrite(names: Seq<Seq<char>>, st: Stmt<Arg>, debug: bool) -> Rewrite {
    match st {
        Stmt::Local { init, rest, .. } => then(
            all_marks_rewrite(names, init@, debug),
            all_marks_rewrite(names, rest@, debug),
        ),
        Stmt::Macro { name, site, arg } => if is_word(name, "goto"@) {
            resolve(names, site, arg, debug)
        } else {
            unchanged()
        },
        Stmt::Expr { marks, .. } => all_marks_rewrite(names, marks@, debug),
        Stmt::Item => unchanged(),
    }
}

/// What becomes of the first `p` statements; labels are left out.
pub open spec fn body_rewrite(s: Seq<Stmt<Arg>>, names: Seq<Seq<char>>, p: int, debug: bool) -> Rewrite
    decreases p,
{
    if p <= 0 {
        unchanged()
    } else if is_label(s[p - 1]) {
        body_rewrite(s, names, p - 1, debug)
    } else {
        then(body_rewrite(s, names, p - 1, debug), stmt_rewrite(names, s[p - 1], debug))
    }
}

/// Appends what becomes of one `goto!(…)`.
fn resolve_goto(
    names: &Vec<String>,
    site: usize,
    arg: &Arg,
    debug: bool,
    jumps: &mut Vec<Jump>,
    errs: &mut Vec<GotoError>,
)
    ensures
        jump_views(final(jumps)@) == jump_views(old(jumps)@) + resolve(
            string_views(names@),
            site,
            *arg,
            debug,
        ).jumps,
        faults(final(errs)@) == faults(old(errs)@) + resolve(
            string_views(names@),
            site,
            *arg,
            debug,
        ).faults,
{
    let ghost r = resolve(string_views(names@), site, *arg, debug);
    match arg {
        Arg::Ident(n) => {
            let found = find(names, n);
            proof {
                lemma_find_sound(string_views(names@), n@, names@.len() as int);
            }
            match found {
                Some(k) => {
                    let count = names.len();
                    assert(k < count);
                    let announce = if debug {
                        Some(n.clone())
                    } else {
                        None
                    };
                    jumps.push(Jump { site, state: k + 1, announce });
                },
                None => {
                    errs.push(GotoError::UndefinedLabel { site, name: n.clone() });
                },
            }
        },
        Arg::Invalid(reason) => {
            errs.push(GotoError::InvalidGoto { site, reason: reason.clone() });
        },
    }
    assert(jump_views(jumps@) =~= jump_views(old(jumps)@) + r.jumps);
    assert(faults(errs@) =~= faults(old(errs)@) + r.faults);
}

/// The first `goto!(…)` in the closure whose body starts at `start`.
fn find_closure_goto(ms: &Vec<Mark<Arg>>, start: usize) -> (r: Option<usize>)
    ensures
        r == closure_goto(ms@, start as int),
{
    let mut j = start;
    while j < ms.len()
        invariant
            start <= j,
            closure_goto(ms@, j as int) == closure_goto(ms@, start as int),
        decreases ms.len() - j,
    {
        let m = &ms[j];
        if m.depth == 0 {
            return None;
        }
        if let Event::Macro { name, site, .. } = &m.event {
            if has_name(name, "goto") {
                return Some(*site);
            }
        }
        j = j + 1;
    }
    None
}

/// Appends what becomes of the marks.
fn rewrite_marks(
    names: &Vec<String>,
    ms: &Vec<Mark<Arg>>,
    debug: bool,
    jumps: &mut Vec<Jump>,
    errs: &mut Vec<GotoError>,
)
    ensures
        jump_views(final(jumps)@) == jump_views(old(jumps)@) + all_marks_rewrite(
            string_views(names@),
            ms@,
            debug,
        ).jumps,
        faults(final(errs)@) == faults(old(errs)@) + all_marks_rewrite(
            string_views(names@),
            ms@,
            debug,
        ).faults,
{
    let ghost views = string_views(names@);
    let mut i: usize = 0;
    while i < ms.len()
        invariant
            0 <= i <= ms.len(),
            views == string_views(names@),
            jump_views(jumps@) == jump_views(old(jumps)@) + marks_rewrite(
                views,
                ms@,
                i as int,
                debug,
            ).jumps,
            faults(errs@) == faults(old(errs)@) + marks_rewrite(views, ms@, i as int, debug).faults,
        decreases ms.len() - i,
    {
        let ghost before_jumps = jump_views(jumps@);
        let ghost before_errs = faults(errs@);
        let ghost step = mark_rewrite(views, ms@, i as int, debug);
        let m = &ms[i];
        if m.depth == 0 {
            match &m.event {
                Event::Macro { name, site, arg } => {
                    if has_name(name, "goto") {
                        resolve_goto(names, *site, arg, debug, jumps, errs);
                    }
                },
                Event::Closure => {
                    match find_closure_goto(ms, i + 1) {
                        Some(site) => {
                            errs.push(GotoError::GotoInClosure { site });
                        },
                        None => {},
                    }
                },
                Event::Call => {},
            }
        }
        assert(jump_views(jumps@) =~= before_jumps + step.jumps);
        assert(faults(errs@) =~= before_errs + step.faults);
        assert(marks_rewrite(views, ms@, i + 1, debug).jumps =~= marks_rewrite(
            views,
            ms@,
            i as int,
            debug,
        ).jumps + step.jumps);
        assert(marks_rewrite(views, ms@, i + 1, debug).faults =~= marks_rewrite(
            views,
            ms@,
            i as int,
            debug,
        ).faults + step.faults);
        i = i + 1;
    }
}

/// Appends what becomes of a statement other than a label.
fn rewrite_stmt(
    names: &Vec<String>,
    st: &Stmt<Arg>,
    debug: bool,
    jumps: &mut Vec<Jump>,
    errs: &mut Vec<GotoError>,
)
    ensures
        jump_views(final(jumps)@) == jump_views(old(jumps)@) + stmt_rewrite(
            string_views(names@),
            *st,
            debug,
        ).jumps,
        faults(final(errs)@) == faults(old(errs)@) + stmt_rewrite(
            string_views(names@),
            *st,
            debug,
        ).faults,
{
    let ghost views = string_views(names@);
    match st {
        Stmt::Local { init, rest, .. } => {
            rewrite_marks(names, init, debug, jumps, errs);
            rewrite_marks(names, rest, debug, jumps, errs);
            let ghost a = all_marks_rewrite(views, init@, debug);
            let ghost b = all_marks_rewrite(views, rest@, debug);
            assert(jump_views(old(jumps)@) + a.jumps + b.jumps =~= jump_views(old(jumps)@) + (
            a.jumps + b.jumps));
            assert(faults(old(errs)@) + a.faults + b.faults =~= faults(old(errs)@) + (a.faults
                + b.faults));
        },
        Stmt::Macro { name, site, arg } => {
            if has_name(name, "goto") {
                resolve_goto(names, *site, arg, debug, jumps, errs);
            } else {
                assert(jump_views(jumps@) =~= jump_views(old(jumps)@) + Seq::empty());
                assert(faults(errs@) =~= faults(old(errs)@) + Seq::empty());
            }
        },
        Stmt::Expr { marks, .. } => {
            rewrite_marks(names, marks, debug, jumps, errs);
        },
        Stmt::Item => {
            assert(jump_views(jumps@) =~= jump_views(old(jumps)@) + Seq::empty());
            assert(faults(errs@) =~= faults(old(errs)@) + Seq::empty());
        },
    }
}

/// The jumps that replace the `goto!(…)` invocations, and the errors met, in order.
pub fn rewrite_body(stmts: &Vec<Stmt<Arg>>, names: &Vec<String>, debug: bool) -> (r: (
    Vec<Jump>,
    Vec<GotoError>,
))
    ensures
        jump_views(r.0@) == body_rewrite(
            stmts@,
            string_views(names@),
            stmts@.len() as int,
            debug,
        ).jumps,
        faults(r.1@) == body_rewrite(
            stmts@,
            string_views(names@),
            stmts@.len() as int,
            debug,
        ).faults,
{
    let ghost views = string_views(names@);
    let mut jumps: Vec<Jump> = Vec::new();
    let mut errs: Vec<GotoError> = Vec::new();
    let mut i: usize = 0;
    assert(jump_views(jumps@) =~= Seq::empty());
    assert(faults(errs@) =~= Seq::empty());
    while i < stmts.len()
        invariant
            0 <= i <= stmts.len(),
            views == string_views(names@),
            jump_views(jumps@) == body_rewrite(stmts@, views, i as int, debug).jumps,
            faults(errs@) == body_rewrite(stmts@, views, i as int, debug).faults,
        decreases stmts.len() - i,
    {
        let st = &stmts[i];
        if !stmt_is_label(st) {
            rewrite_stmt(names, st, debug, &mut jumps, &mut errs);
        }
        i = i + 1;
    }
    (jumps, errs)
}

} // verus!
