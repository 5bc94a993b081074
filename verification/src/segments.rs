//! Splitting the body at its labels, and hoisting `let` bindings.
//!
//! The `label!(…)` statements split the body into segments: segment 0 holds
//! the statements before the first label, segment `k + 1` those after the
//! `k`-th label (counting from 0). In each segment, the `let` statements that
//! stand before its first `goto!(…)` statement and do not jump are moved,
//! whole, in front of the state machine, so that all segments see them. A
//! labelled segment can be entered again and again; where one of its `let`s
//! binds one name that no other `let` of the body binds, and its initializer
//! mentions no name (so that running it again reads nothing that the first
//! run may have moved or that a hoisted `let` rebinds), its arm also assigns
//! the initializer to that name again, so that each arrival initializes it
//! anew. A `let` whose initializer jumps stays in its arm.
use vstd::prelude::*;

use crate::error::{faults, Fault, GotoError};
use crate::model::{has_name, is_goto, is_goto_event, is_label, Arg, LetForm, Mark, Stmt};

verus! {

/// The segment that statement `p` belongs to: the number of labels before it.
pub open spec fn segment_of<A>(s: Seq<Stmt<A>>, p: int) -> nat
    decreases p,
{
    if p <= 0 {
        0
    } else {
        segment_of(s, p - 1) + if is_label(s[p - 1]) {
            1nat
        } else {
            0nat
        }
    }
}

/// Whether a `goto!(…)` statement stands before statement `p` in its segment.
pub open spec fn after_goto<A>(s: Seq<Stmt<A>>, p: int) -> bool
    decreases p,
{
    if p <= 0 {
        false
    } else if is_label(s[p - 1]) {
        false
    } else if is_goto(s[p - 1]) {
        true
    } else {
        after_goto(s, p - 1)
    }
}

/// Whether the marks hold a `goto!(…)` outside closures.
pub open spec fn marks_jump<A>(ms: Seq<Mark<A>>) -> bool {
    exists|i: int| 0 <= i < ms.len() && ms[i].depth == 0 && #[trigger] is_goto_event(ms[i].event)
}

/// Whether the statement is a `let` whose pattern binds the name `x`.
pub open spec fn binds<A>(st: Stmt<A>, x: Seq<char>) -> bool {
    st matches Stmt::Local { names, .. } && exists|i: int|
        0 <= i < names@.len() && #[trigger] names@[i]@ == x
}

/// Whether statement `p` is a `let` that binds one name, which no other
/// statement of the body binds.
pub open spec fn sole_binder<A>(s: Seq<Stmt<A>>, p: int) -> bool {
    &&& s[p] matches Stmt::Local { names, .. } && names@.len() == 1
    &&& forall|q: int| 0 <= q < s.len() && q != p ==> !binds(#[trigger] s[q], s[p]->names@[0]@)
}

/// Where a statement goes in the rewritten function.
#[derive(Clone, Copy, PartialEq, Eq, Structural)]
pub enum Place {
    /// A label: it goes nowhere.
    Label,
    /// In front of the state machine, whole.
    Front,
    /// In front of the state machine, whole; its arm assigns the initializer
    /// to its name again.
    Rerun,
    /// In the arm of its segment, as written.
    Arm,
}

/// Whether the `let` at `p`, which is hoisted, is initialized again on each
/// arrival in its labelled segment.
pub open spec fn reruns<A>(s: Seq<Stmt<A>>, p: int) -> bool {
    &&& segment_of(s, p) >= 1
    &&& s[p] matches Stmt::Local { form, reads, .. } && form == LetForm::Assignable && reads@.len()
        == 0
    &&& sole_binder(s, p)
}

/// Where statement `p` goes.
pub open spec fn place<A>(s: Seq<Stmt<A>>, p: int) -> Place {
    if is_label(s[p]) {
        Place::Label
    } else {
        match s[p] {
            Stmt::Local { init, rest, .. } => if after_goto(s, p) || marks_jump(init@) || marks_jump(
                rest@,
            ) {
                Place::Arm
            } else if reruns(s, p) {
                Place::Rerun
            } else {
                Place::Front
            },
            _ => Place::Arm,
        }
    }
}

/// Whether statement `p` stands in front of the state machine.
pub open spec fn hoisted<A>(s: Seq<Stmt<A>>, p: int) -> bool {
    &&& 0 <= p < s.len()
    &&& (place(s, p) == Place::Front || place(s, p) == Place::Rerun)
}

/// Whether statement `p` runs in the arm of its segment.
pub open spec fn kept<A>(s: Seq<Stmt<A>>, p: int) -> bool {
    &&& 0 <= p < s.len()
    &&& (place(s, p) == Place::Arm || place(s, p) == Place::Rerun)
}

/// A statement placed in front of the state machine: its index in the
/// body, and whether its arm initializes it again.
#[derive(Clone, Copy)]
pub struct Hoist {
    pub index: usize,
    pub rerun: bool,
}

/// A hoisted statement as a value.
pub struct HoistView {
    pub index: nat,
    pub rerun: bool,
}

impl View for Hoist {
    type V = HoistView;

    open spec fn view(&self) -> HoistView {
        HoistView { index: self.index as nat, rerun: self.rerun }
    }
}

/// The views of a list of hoisted statements.
pub open spec fn hoist_views(v: Seq<Hoist>) -> Seq<HoistView> {
    v.map_values(|h: Hoist| h@)
}

/// The statements placed in front, among the first `p`, in order.
pub open spec fn hoisted_positions<A>(s: Seq<Stmt<A>>, p: int) -> Seq<HoistView>
    decreases p,
{
    if p <= 0 {
        Seq::empty()
    } else if hoisted(s, p - 1) {
        hoisted_positions(s, p - 1).push(
            HoistView { index: (p - 1) as nat, rerun: place(s, p - 1) == Place::Rerun },
        )
    } else {
        hoisted_positions(s, p - 1)
    }
}

/// The statements of each segment that run in its arm, for the first `p`
/// statements; there is always a last, open segment.
pub open spec fn arm_positions<A>(s: Seq<Stmt<A>>, p: int) -> Seq<Seq<nat>>
    decreases p,
{
    if p <= 0 {
        seq![Seq::empty()]
    } else {
        let prev = arm_positions(s, p - 1);
        if is_label(s[p - 1]) {
            prev.push(Seq::empty())
        } else if !kept(s, p - 1) {
            prev
        } else {
            prev.update(prev.len() - 1, prev.last().push((p - 1) as nat))
        }
    }
}

/// The name of a label statement, empty when its argument is not an identifier.
pub open spec fn label_name(st: Stmt<Arg>) -> Seq<char> {
    match st {
        Stmt::Macro { arg: Arg::Ident(n), .. } => n@,
        _ => Seq::empty(),
    }
}

/// The names of the labels among the first `p` statements, in order.
pub open spec fn label_names(s: Seq<Stmt<Arg>>, p: int) -> Seq<Seq<char>>
    decreases p,
{
    if p <= 0 {
        Seq::empty()
    } else if is_label(s[p - 1]) {
        label_names(s, p - 1).push(label_name(s[p - 1]))
    } else {
        label_names(s, p - 1)
    }
}

/// The errors for the labels, among the first `p` statements, whose argument
/// is not an identifier.
pub open spec fn label_faults(s: Seq<Stmt<Arg>>, p: int) -> Seq<Fault>
    decreases p,
{
    if p <= 0 {
        Seq::empty()
    } else {
        let prev = label_faults(s, p - 1);
        match s[p - 1] {
            Stmt::Macro { site, arg: Arg::Invalid(r), .. } => if is_label(s[p - 1]) {
                prev.push(Fault::InvalidLabel { site, reason: r@ })
            } else {
                prev
            },
            _ => prev,
        }
    }
}

/// The errors for the labels, among the first `p` statements, whose name an
/// earlier label already has.
pub open spec fn duplicate_faults(s: Seq<Stmt<Arg>>, p: int) -> Seq<Fault>
    decreases p,
{
    if p <= 0 {
        Seq::empty()
    } else {
        let prev = duplicate_faults(s, p - 1);
        match s[p - 1] {
            Stmt::Macro { site, arg: Arg::Ident(n), .. } => if is_label(s[p - 1]) && label_names(
                s,
                p - 1,
            ).contains(n@) {
                prev.push(Fault::DuplicateLabel { site, name: n@ })
            } else {
                prev
            },
            _ => prev,
        }
    }
}

/// The first index, below `k`, at which `names` holds `name`.
pub open spec fn find_in(names: Seq<Seq<char>>, name: Seq<char>, k: int) -> Option<nat>
    decreases k,
{
    if k <= 0 {
        None
    } else {
        match find_in(names, name, k - 1) {
            Some(j) => Some(j),
            None => if names[k - 1] == name {
                Some((k - 1) as nat)
            } else {
                None
            },
        }
    }
}

/// The index of the first label named `name`.
pub open spec fn find_label(names: Seq<Seq<char>>, name: Seq<char>) -> Option<nat> {
    find_in(names, name, names.len() as int)
}

/// The views of a list of strings.
pub open spec fn string_views(v: Seq<String>) -> Seq<Seq<char>> {
    v.map_values(|x: String| x@)
}

/// A search stays found once found.
pub proof fn lemma_find_stable(names: Seq<Seq<char>>, name: Seq<char>, j: int, k: int)
    requires
        j <= k,
        find_in(names, name, j) is Some,
    ensures
        find_in(names, name, k) == find_in(names, name, j),
    decreases k - j,
{
    if j < k {
        lemma_find_stable(names, name, j, k - 1);
    }
}

/// A label found by the search holds the name, and no earlier one does.
pub proof fn lemma_find_sound(names: Seq<Seq<char>>, name: Seq<char>, k: int)
    requires
        k <= names.len(),
    ensures
        find_in(names, name, k) matches Some(j) ==> j < k && names[j as int] == name && forall|
            i: int,
        |
            0 <= i < j ==> names[i] != name,
        find_in(names, name, k) is None ==> forall|i: int| 0 <= i < k ==> names[i] != name,
    decreases k,
{
    if k > 0 {
        lemma_find_sound(names, name, k - 1);
    }
}

/// Whether the statement is a `label!(…)` invocation.
pub fn stmt_is_label<A>(st: &Stmt<A>) -> (r: bool)
    ensures
        r == is_label(*st),
{
    match st {
        Stmt::Macro { name, .. } => has_name(name, "label"),
        _ => false,
    }
}

/// Whether the statement is a `goto!(…)` invocation.
pub fn stmt_is_goto<A>(st: &Stmt<A>) -> (r: bool)
    ensures
        r == is_goto(*st),
{
    match st {
        Stmt::Macro { name, .. } => has_name(name, "goto"),
        _ => false,
    }
}

/// The index of the first label named `name`.
pub fn find(names: &Vec<String>, name: &String) -> (r: Option<usize>)
    ensures
        match r {
            Some(k) => find_label(string_views(names@), name@) == Some(k as nat),
            None => find_label(string_views(names@), name@) is None,
        },
{
    let ghost views = string_views(names@);
    let mut i: usize = 0;
    while i < names.len()
        invariant
            0 <= i <= names.len(),
            views == string_views(names@),
            find_in(views, name@, i as int) is None,
        decreases names.len() - i,
    {
        if names[i] == *name {
            proof {
                lemma_find_stable(views, name@, i + 1, views.len() as int);
            }
            return Some(i);
        }
        i = i + 1;
    }
    None
}

/// The names of the labels, in order.
pub fn collect_labels(stmts: &Vec<Stmt<Arg>>) -> (names: Vec<String>)
    ensures
        string_views(names@) == label_names(stmts@, stmts@.len() as int),
{
    let mut names: Vec<String> = Vec::new();
    let mut i: usize = 0;
    while i < stmts.len()
        invariant
            0 <= i <= stmts.len(),
            string_views(names@) == label_names(stmts@, i as int),
        decreases stmts.len() - i,
    {
        if stmt_is_label(&stmts[i]) {
            let name = match &stmts[i] {
                Stmt::Macro { arg: Arg::Ident(n), .. } => n.clone(),
                _ => String::new(),
            };
            names.push(name);
            assert(string_views(names@) =~= label_names(stmts@, i + 1));
        }
        i = i + 1;
    }
    names
}

/// The errors for the labels whose argument is not an identifier.
pub fn invalid_labels(stmts: &Vec<Stmt<Arg>>) -> (errs: Vec<GotoError>)
    ensures
        faults(errs@) == label_faults(stmts@, stmts@.len() as int),
{
    let mut errs: Vec<GotoError> = Vec::new();
    let mut i: usize = 0;
    while i < stmts.len()
        invariant
            0 <= i <= stmts.len(),
            faults(errs@) == label_faults(stmts@, i as int),
        decreases stmts.len() - i,
    {
        if stmt_is_label(&stmts[i]) {
            if let Stmt::Macro { site, arg: Arg::Invalid(r), .. } = &stmts[i] {
                errs.push(GotoError::InvalidLabel { site: *site, reason: r.clone() });
                assert(faults(errs@) =~= label_faults(stmts@, i + 1));
            }
        }
        i = i + 1;
    }
    errs
}

/// The errors for the labels whose name an earlier label already has.
pub fn duplicate_labels(stmts: &Vec<Stmt<Arg>>) -> (errs: Vec<GotoError>)
    ensures
        faults(errs@) == duplicate_faults(stmts@, stmts@.len() as int),
{
    let mut errs: Vec<GotoError> = Vec::new();
    let mut names: Vec<String> = Vec::new();
    let mut i: usize = 0;
    while i < stmts.len()
        invariant
            0 <= i <= stmts.len(),
            faults(errs@) == duplicate_faults(stmts@, i as int),
            string_views(names@) == label_names(stmts@, i as int),
        decreases stmts.len() - i,
    {
        if stmt_is_label(&stmts[i]) {
            let name = match &stmts[i] {
                Stmt::Macro { site, arg: Arg::Ident(n), .. } => {
                    let found = find(&names, n);
                    proof {
                        lemma_find_sound(string_views(names@), n@, names@.len() as int);
                    }
                    if found.is_some() {
                        errs.push(GotoError::DuplicateLabel { site: *site, name: n.clone() });
                        assert(faults(errs@) =~= duplicate_faults(stmts@, i + 1));
                    }
                    n.clone()
                },
                _ => String::new(),
            };
            names.push(name);
            assert(string_views(names@) =~= label_names(stmts@, i + 1));
        }
        i = i + 1;
    }
    errs
}

/// The views of a list of indices.
pub open spec fn index_views(v: Seq<usize>) -> Seq<nat> {
    v.map_values(|x: usize| x as nat)
}

/// The views of a list of lists of indices.
pub open spec fn index_lists(v: Seq<Vec<usize>>) -> Seq<Seq<nat>> {
    v.map_values(|x: Vec<usize>| index_views(x@))
}

/// Whether the marks hold a `goto!(…)` outside closures.
pub fn has_jump(ms: &Vec<Mark<Arg>>) -> (r: bool)
    ensures
        r == marks_jump(ms@),
{
    let mut i: usize = 0;
    while i < ms.len()
        invariant
            0 <= i <= ms.len(),
            forall|j: int|
                0 <= j < i ==> !(ms@[j].depth == 0 && #[trigger] is_goto_event(ms@[j].event)),
        decreases ms.len() - i,
    {
        if ms[i].depth == 0 {
            if let crate::model::Event::Macro { name, .. } = &ms[i].event {
                if has_name(name, "goto") {
                    assert(is_goto_event(ms@[i as int].event));
                    return true;
                }
            }
        }
        i = i + 1;
    }
    false
}

/// Whether statement `p` is a `let` that binds one name, which no other
/// statement binds.
pub fn is_sole_binder(stmts: &Vec<Stmt<Arg>>, p: usize) -> (r: bool)
    requires
        p < stmts@.len(),
    ensures
        r == sole_binder(stmts@, p as int),
{
    let name = match &stmts[p] {
        Stmt::Local { names, .. } => {
            if names.len() != 1 {
                return false;
            }
            &names[0]
        },
        _ => return false,
    };
    let mut q: usize = 0;
    while q < stmts.len()
        invariant
            0 <= q <= stmts.len(),
            p < stmts@.len(),
            stmts@[p as int] matches Stmt::Local { names, .. } && names@.len() == 1,
            *name == stmts@[p as int]->names@[0],
            forall|r: int| 0 <= r < q && r != p ==> !binds(#[trigger] stmts@[r], name@),
        decreases stmts.len() - q,
    {
        if q != p {
            if let Stmt::Local { names, .. } = &stmts[q] {
                let mut i: usize = 0;
                while i < names.len()
                    invariant
                        0 <= i <= names.len(),
                        q < stmts@.len(),
                        stmts@[q as int] is Local,
                        stmts@[q as int]->names == *names,
                        p < stmts@.len(),
                        q != p,
                        stmts@[p as int] matches Stmt::Local { names, .. } && names@.len() == 1,
                        *name == stmts@[p as int]->names@[0],
                        forall|j: int| 0 <= j < i ==> #[trigger] names@[j]@ != name@,
                    decreases names.len() - i,
                {
                    if names[i] == *name {
                        assert(names@[i as int]@ == name@);
                        assert(binds(stmts@[q as int], name@));
                        return false;
                    }
                    i = i + 1;
                }
                assert(!binds(stmts@[q as int], name@));
            }
        }
        q = q + 1;
    }
    true
}

/// Where the statement goes, given whether a `goto!(…)` statement precedes
/// it in its segment and the segment it is in.
pub fn place_of(stmts: &Vec<Stmt<Arg>>, i: usize, blocked: bool, segment: usize) -> (r: Place)
    requires
        i < stmts@.len(),
        blocked == after_goto(stmts@, i as int),
        segment == segment_of(stmts@, i as int),
    ensures
        r == place(stmts@, i as int),
{
    let st = &stmts[i];
    if stmt_is_label(st) {
        return Place::Label;
    }
    match st {
        Stmt::Local { init, rest, form, reads, .. } => {
            if blocked || has_jump(init) || has_jump(rest) {
                Place::Arm
            } else if segment >= 1 && *form == LetForm::Assignable && reads.len() == 0
                && is_sole_binder(stmts, i) {
                Place::Rerun
            } else {
                Place::Front
            }
        },
        _ => Place::Arm,
    }
}

/// Where each statement goes, statement by statement.
pub fn places(stmts: &Vec<Stmt<Arg>>) -> (r: Vec<Place>)
    ensures
        r@.len() == stmts@.len(),
        forall|i: int| 0 <= i < r@.len() ==> #[trigger] r@[i] == place(stmts@, i),
{
    let mut r: Vec<Place> = Vec::new();
    let mut blocked = false;
    let mut segment: usize = 0;
    let mut i: usize = 0;
    while i < stmts.len()
        invariant
            0 <= i <= stmts.len(),
            segment <= i,
            blocked == after_goto(stmts@, i as int),
            segment == segment_of(stmts@, i as int),
            r@.len() == i,
            forall|j: int| 0 <= j < i ==> #[trigger] r@[j] == place(stmts@, j),
        decreases stmts.len() - i,
    {
        let st = &stmts[i];
        r.push(place_of(stmts, i, blocked, segment));
        if stmt_is_label(st) {
            blocked = false;
            segment = segment + 1;
        } else if stmt_is_goto(st) {
            blocked = true;
        }
        i = i + 1;
    }
    r
}

/// The statements placed in front of the state machine, in order.
pub fn hoist(stmts: &Vec<Stmt<Arg>>) -> (hoisted: Vec<Hoist>)
    ensures
        hoist_views(hoisted@) == hoisted_positions(stmts@, stmts@.len() as int),
{
    let mut hoisted: Vec<Hoist> = Vec::new();
    let mut blocked = false;
    let mut segment: usize = 0;
    let mut i: usize = 0;
    while i < stmts.len()
        invariant
            0 <= i <= stmts.len(),
            segment <= i,
            blocked == after_goto(stmts@, i as int),
            segment == segment_of(stmts@, i as int),
            hoist_views(hoisted@) == hoisted_positions(stmts@, i as int),
        decreases stmts.len() - i,
    {
        let st = &stmts[i];
        let where_to = place_of(stmts, i, blocked, segment);
        if where_to == Place::Front || where_to == Place::Rerun {
            hoisted.push(Hoist { index: i, rerun: where_to == Place::Rerun });
            assert(hoist_views(hoisted@) =~= hoisted_positions(stmts@, i + 1));
        }
        if stmt_is_label(st) {
            blocked = false;
            segment = segment + 1;
        } else if stmt_is_goto(st) {
            blocked = true;
        }
        i = i + 1;
    }
    hoisted
}

/// The statements that run in each segment's arm, segment by segment.
pub fn split_segments(stmts: &Vec<Stmt<Arg>>) -> (arms: Vec<Vec<usize>>)
    ensures
        index_lists(arms@) == arm_positions(stmts@, stmts@.len() as int),
{
    let mut arms: Vec<Vec<usize>> = Vec::new();
    let mut current: Vec<usize> = Vec::new();
    let mut blocked = false;
    let mut segment: usize = 0;
    let mut i: usize = 0;
    assert(index_views(current@) =~= Seq::empty());
    assert(index_lists(arms@).push(index_views(current@)) =~= arm_positions(stmts@, 0));
    while i < stmts.len()
        invariant
            0 <= i <= stmts.len(),
            segment <= i,
            blocked == after_goto(stmts@, i as int),
            segment == segment_of(stmts@, i as int),
            index_lists(arms@).push(index_views(current@)) == arm_positions(stmts@, i as int),
        decreases stmts.len() - i,
    {
        let st = &stmts[i];
        let ghost prev = arm_positions(stmts@, i as int);
        let ghost lists = index_lists(arms@);
        let ghost cur = index_views(current@);
        assert(prev == lists.push(cur));
        let where_to = place_of(stmts, i, blocked, segment);
        if where_to == Place::Label {
            let mut done: Vec<usize> = Vec::new();
            std::mem::swap(&mut done, &mut current);
            arms.push(done);
            assert(index_lists(arms@) =~= lists.push(cur));
            assert(index_views(current@) =~= Seq::empty());
            assert(index_lists(arms@).push(index_views(current@)) =~= prev.push(Seq::empty()));
        } else if where_to == Place::Arm || where_to == Place::Rerun {
            current.push(i);
            assert(index_views(current@) =~= cur.push(i as nat));
            assert(index_lists(arms@).push(index_views(current@)) =~= prev.update(
                prev.len() - 1,
                prev.last().push(i as nat),
            ));
        }
        if stmt_is_label(st) {
            blocked = false;
            segment = segment + 1;
        } else if stmt_is_goto(st) {
            blocked = true;
        }
        i = i + 1;
    }
    arms.push(current);
    arms
}

} // verus!
