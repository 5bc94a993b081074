//! Reading the arguments of macro invocations as identifiers, with `syn`.
use vstd::prelude::*;

use crate::model::{Arg, Body, Event, Mark, Stmt};

verus! {

/// What `syn` reads from an ASCII text between a macro's delimiters when it
/// asks for one identifier: the identifier as written, or `None` when the
/// text is not one identifier.
pub uninterp spec fn ident_parse(text: Seq<char>) -> Option<Seq<char>>;

/// Whether every character of the text is ASCII.
pub open spec fn is_ascii_text(text: Seq<char>) -> bool {
    forall|i: int| 0 <= i < text.len() ==> (text[i] as u32) < 128
}

/// The identifier the argument holds, if any.
pub open spec fn arg_ident(a: Arg) -> Option<Seq<char>> {
    match a {
        Arg::Ident(n) => Some(n@),
        Arg::Invalid(_) => None,
    }
}

/// Calls `syn::parse_str::<syn::Ident>` on `text`, giving the identifier as
/// written (`Ident::to_string`) or the text of syn's error (`Error::to_string`).
/// For ASCII text the outcome is named by `ident_parse`, a function of the
/// text alone. Not stated: which texts syn accepts (identifiers other than
/// `_` and the keywords, raw identifiers, surrounding whitespace and
/// comments); the text of its errors; and anything of non-ASCII text, which
/// the compiler's lexer (inside a macro) normalizes to NFC and checks against
/// its own Unicode tables, while proc-macro2's own lexer (elsewhere) does not
/// normalize.
#[verifier::external_body]
fn read_ident(text: &String) -> (a: Arg)
    ensures
        is_ascii_text(text@) ==> arg_ident(a) == ident_parse(text@),
{
    match syn::parse_str::<syn::Ident>(text.as_str()) {
        Ok(ident) => Arg::Ident(ident.to_string()),
        Err(e) => Arg::Invalid(e.to_string()),
    }
}

/// `arg` is what reading `text` as an identifier can give: for ASCII text,
/// the identifier that `ident_parse` names, or no identifier when it names none.
pub open spec fn read_from(text: String, arg: Arg) -> bool {
    is_ascii_text(text@) ==> arg_ident(arg) == ident_parse(text@)
}

/// `f` is `e` with its argument read as an identifier.
pub open spec fn event_read(e: Event<String>, f: Event<Arg>) -> bool {
    match (e, f) {
        (
            Event::Macro { name: n1, site: s1, arg: text },
            Event::Macro { name: n2, site: s2, arg },
        ) => n1 == n2 && s1 == s2 && read_from(text, arg),
        (Event::Closure, Event::Closure) => true,
        (Event::Call, Event::Call) => true,
        _ => false,
    }
}

/// `ps` is `ms` with every argument read as an identifier.
pub open spec fn marks_read(ms: Seq<Mark<String>>, ps: Seq<Mark<Arg>>) -> bool {
    &&& ms.len() == ps.len()
    &&& forall|i: int|
        #![trigger ps[i]]
        0 <= i < ms.len() ==> ms[i].depth == ps[i].depth && event_read(ms[i].event, ps[i].event)
}

/// `t` is `s` with every argument read as an identifier.
pub open spec fn stmt_read(s: Stmt<String>, t: Stmt<Arg>) -> bool {
    match (s, t) {
        (
            Stmt::Local { init: i1, rest: r1, form: f1, names: n1, reads: d1 },
            Stmt::Local { init: i2, rest: r2, form: f2, names: n2, reads: d2 },
        ) => marks_read(i1@, i2@) && marks_read(r1@, r2@) && f1 == f2 && n1@ == n2@ && d1@
            == d2@,
        (
            Stmt::Macro { name: n1, site: s1, arg: text },
            Stmt::Macro { name: n2, site: s2, arg },
        ) => n1 == n2 && s1 == s2 && read_from(text, arg),
        (Stmt::Expr { marks: m1, semi: e1 }, Stmt::Expr { marks: m2, semi: e2 }) => marks_read(
            m1@,
            m2@,
        ) && e1 == e2,
        (Stmt::Item, Stmt::Item) => true,
        _ => false,
    }
}

/// `c` is `b` with every macro argument read as an identifier.
pub open spec fn body_read(b: Body<String>, c: Body<Arg>) -> bool {
    &&& b.returns_value == c.returns_value
    &&& b.stmts@.len() == c.stmts@.len()
    &&& forall|i: int|
        #![trigger c.stmts@[i]]
        0 <= i < b.stmts@.len() ==> stmt_read(b.stmts@[i], c.stmts@[i])
}

fn copy_name(name: &Option<String>) -> (r: Option<String>)
    ensures
        r == *name,
{
    match name {
        Some(n) => Some(n.clone()),
        None => None,
    }
}

fn copy_strings(v: &Vec<String>) -> (r: Vec<String>)
    ensures
        r@ == v@,
{
    let mut r: Vec<String> = Vec::new();
    let mut i: usize = 0;
    while i < v.len()
        invariant
            0 <= i <= v.len(),
            r@ == v@.subrange(0, i as int),
        decreases v.len() - i,
    {
        r.push(v[i].clone());
        assert(r@ =~= v@.subrange(0, i + 1));
        i = i + 1;
    }
    assert(r@ =~= v@);
    r
}

fn read_marks(ms: &Vec<Mark<String>>) -> (ps: Vec<Mark<Arg>>)
    ensures
        marks_read(ms@, ps@),
{
    let mut ps: Vec<Mark<Arg>> = Vec::new();
    let mut i: usize = 0;
    while i < ms.len()
        invariant
            0 <= i <= ms.len(),
            ps@.len() == i,
            forall|j: int|
                #![trigger ps@[j]]
                0 <= j < i ==> ms@[j].depth == ps@[j].depth && event_read(ms@[j].event, ps@[j].event),
        decreases ms.len() - i,
    {
        let m = &ms[i];
        let event = match &m.event {
            Event::Macro { name, site, arg } => Event::Macro {
                name: copy_name(name),
                site: *site,
                arg: read_ident(arg),
            },
            Event::Closure => Event::Closure,
            Event::Call => Event::Call,
        };
        ps.push(Mark { depth: m.depth, event });
        i = i + 1;
    }
    ps
}

/// Reads the argument of every macro invocation in the body as an
/// identifier; the body is otherwise unchanged.
pub fn read_args(body: &Body<String>) -> (parsed: Body<Arg>)
    ensures
        body_read(*body, parsed),
{
    let mut stmts: Vec<Stmt<Arg>> = Vec::new();
    let mut i: usize = 0;
    while i < body.stmts.len()
        invariant
            0 <= i <= body.stmts.len(),
            stmts@.len() == i,
            forall|j: int|
                #![trigger stmts@[j]]
                0 <= j < i ==> stmt_read(body.stmts@[j], stmts@[j]),
        decreases body.stmts.len() - i,
    {
        let st = match &body.stmts[i] {
            Stmt::Local { init, rest, form, names, reads } => Stmt::Local {
                init: read_marks(init),
                rest: read_marks(rest),
                form: *form,
                names: copy_strings(names),
                reads: copy_strings(reads),
            },
            Stmt::Macro { name, site, arg } => Stmt::Macro {
                name: copy_name(name),
                site: *site,
                arg: read_ident(arg),
            },
            Stmt::Expr { marks, semi } => Stmt::Expr { marks: read_marks(marks), semi: *semi },
            Stmt::Item => Stmt::Item,
        };
        stmts.push(st);
        i = i + 1;
    }
    Body { stmts, returns_value: body.returns_value }
}

} // verus!
