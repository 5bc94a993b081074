// Each fixture below is a function written with `label!`/`goto!`, given to the
// library as the body that a syntax-tree reader would hand it: one entry per
// top-level statement, with the macro invocations, closures and calls inside.
// Beside the body stands what each statement does when run. The runner executes
// the state machine that the library lays out (hoisted statements first, then
// the arms, following the jumps), so each test checks the rewrite by running it.

use goto::error::GotoError;
use goto::expand::{Expansion, Finish};
use goto::goto;
use goto::model::{read_options, Body, Event, LetForm, Mark, Stmt};

// ── Building bodies ──────────────────────────────────────────────────────────

fn label(site: usize, name: &str) -> Stmt<String> {
    Stmt::Macro { name: Some("label".to_string()), site, arg: name.to_string() }
}

fn goto_stmt(site: usize, name: &str) -> Stmt<String> {
    Stmt::Macro { name: Some("goto".to_string()), site, arg: name.to_string() }
}

fn goto_mark(site: usize, name: &str) -> Mark<String> {
    Mark { depth: 0, event: Event::Macro { name: Some("goto".to_string()), site, arg: name.to_string() } }
}

fn nested_goto(depth: usize, site: usize, name: &str) -> Mark<String> {
    Mark { depth, event: Event::Macro { name: Some("goto".to_string()), site, arg: name.to_string() } }
}

fn macro_mark(site: usize, name: &str, text: &str) -> Mark<String> {
    Mark { depth: 0, event: Event::Macro { name: Some(name.to_string()), site, arg: text.to_string() } }
}

fn call() -> Mark<String> {
    Mark { depth: 0, event: Event::Call }
}

fn closure(depth: usize) -> Mark<String> {
    Mark { depth, event: Event::Closure }
}

// let name = …;  where the initializer mentions the names `reads`
fn local(name: &str, reads: &[&str], init: Vec<Mark<String>>) -> Stmt<String> {
    Stmt::Local { init, rest: vec![], form: LetForm::Assignable, names: words(&[name]), reads: words(reads) }
}

// let name;
fn local_bare(name: &str) -> Stmt<String> {
    Stmt::Local { init: vec![], rest: vec![], form: LetForm::Bare, names: words(&[name]), reads: vec![] }
}

// let (a, b) = …; or let Some(x) = … else { … };
fn local_other(names: &[&str], reads: &[&str], init: Vec<Mark<String>>) -> Stmt<String> {
    Stmt::Local { init, rest: vec![], form: LetForm::Other, names: words(names), reads: words(reads) }
}

// The hoisted statements: index, and whether the arm initializes it again.
fn hoisted(e: &Expansion) -> Vec<(usize, bool)> {
    e.hoisted.iter().map(|h| (h.index, h.rerun)).collect()
}

fn arm_steps(e: &Expansion, k: usize) -> Vec<usize> {
    e.arms[k].steps.iter().map(|t| t.index).collect()
}

fn stmt(marks: Vec<Mark<String>>) -> Stmt<String> {
    Stmt::Expr { marks, semi: true }
}

fn tail(marks: Vec<Mark<String>>) -> Stmt<String> {
    Stmt::Expr { marks, semi: false }
}

fn words(ws: &[&str]) -> Vec<String> {
    ws.iter().map(|w| w.to_string()).collect()
}

fn expand(attr: &[&str], stmts: Vec<Stmt<String>>, returns_value: bool) -> Expansion {
    match goto(&words(attr), &Body { stmts, returns_value }) {
        Ok(e) => e,
        Err(errs) => panic!("rewrite refused: {:?}", errs.iter().map(|e| e.message()).collect::<Vec<_>>()),
    }
}

fn refuse(attr: &[&str], stmts: Vec<Stmt<String>>, returns_value: bool) -> Vec<GotoError> {
    match goto(&words(attr), &Body { stmts, returns_value }) {
        Ok(_) => panic!("rewrite accepted"),
        Err(errs) => errs,
    }
}

// ── Running the state machine ────────────────────────────────────────────────

#[derive(Clone, Copy)]
enum Flow {
    Next,
    Jump(usize),
    Return,
}

type Action<S> = fn(&mut S) -> Flow;

fn nop<S>(_: &mut S) -> Flow {
    Flow::Next
}

/// Runs the rewritten function; gives what debug mode prints.
fn run<S>(e: &Expansion, actions: &[Action<S>], s: &mut S) -> Vec<String> {
    let mut printed = Vec::new();
    for h in &e.hoisted {
        let _ = actions[h.index](s);
    }
    let mut state = 0usize;
    'machine: loop {
        let arm = e.arms.get(state).expect("invalid goto state");
        for step in &arm.steps {
            match actions[step.index](s) {
                Flow::Next => {
                    if step.finish == Finish::Return {
                        return printed;
                    }
                },
                Flow::Jump(site) => {
                    let jump = e.jumps.iter().find(|j| j.site == site).expect("goto replaced");
                    if let Some(name) = &jump.announce {
                        printed.push(format!("jumping to {}", name));
                    }
                    state = jump.state;
                    continue 'machine;
                },
                Flow::Return => return printed,
            }
        }
        match arm.next {
            Some(n) => state = n,
            None => return printed,
        }
    }
}

// ── Fixtures ─────────────────────────────────────────────────────────────────

struct Counter {
    limit: i32,
    n: i32,
    ret: i32,
}

// let mut n = 0; label!(top); n += 1; if n < limit { goto!(top); } n
fn count_up_body() -> Vec<Stmt<String>> {
    vec![local("n", &[], vec![]), label(0, "top"), stmt(vec![]), tail(vec![goto_mark(1, "top")]), tail(vec![])]
}

fn count_up_actions() -> Vec<Action<Counter>> {
    vec![
        |s| {
            s.n = 0;
            Flow::Next
        },
        nop,
        |s| {
            s.n += 1;
            Flow::Next
        },
        |s| if s.n < s.limit { Flow::Jump(1) } else { Flow::Next },
        |s| {
            s.ret = s.n;
            Flow::Next
        },
    ]
}

fn count_up(limit: i32) -> i32 {
    let e = expand(&[], count_up_body(), true);
    let mut s = Counter { limit, n: -1, ret: -1 };
    run(&e, &count_up_actions(), &mut s);
    s.ret
}

fn count_up_debug(limit: i32) -> i32 {
    let e = expand(&["debug"], count_up_body(), true);
    let mut s = Counter { limit, n: -1, ret: -1 };
    let printed = run(&e, &count_up_actions(), &mut s);
    assert_eq!(printed.len() as i32, limit.max(1) - 1);
    assert!(printed.iter().all(|p| p == "jumping to top"));
    s.ret
}

fn strict_backward_ok(limit: i32) -> i32 {
    let e = expand(&["strict"], count_up_body(), true);
    let mut s = Counter { limit, n: -1, ret: -1 };
    run(&e, &count_up_actions(), &mut s);
    s.ret
}

struct Words {
    out: Vec<&'static str>,
}

// let mut out = vec!["first"]; goto!(end); out.push("middle"); label!(end); out.push("last"); out
fn skip_middle() -> Vec<&'static str> {
    let body = vec![
        local("out", &[], vec![macro_mark(0, "vec", "\"first\"")]),
        goto_stmt(1, "end"),
        stmt(vec![call()]),
        label(2, "end"),
        stmt(vec![call()]),
        tail(vec![]),
    ];
    let e = expand(&[], body, true);
    let actions: Vec<Action<Words>> = vec![
        |s| {
            s.out = vec!["first"];
            Flow::Next
        },
        |_| Flow::Jump(1),
        |s| {
            s.out.push("middle");
            Flow::Next
        },
        nop,
        |s| {
            s.out.push("last");
            Flow::Next
        },
        |_| Flow::Next,
    ];
    let mut s = Words { out: vec![] };
    run(&e, &actions, &mut s);
    s.out
}

// out.push("a"); goto!(end); out.push("b"); label!(end); out.push("c");
fn void_goto(out: &mut Vec<&'static str>) {
    let body = vec![stmt(vec![call()]), goto_stmt(0, "end"), stmt(vec![call()]), label(1, "end"), stmt(vec![call()])];
    let e = expand(&[], body, false);
    let actions: Vec<Action<Words>> = vec![
        |s| {
            s.out.push("a");
            Flow::Next
        },
        |_| Flow::Jump(0),
        |s| {
            s.out.push("b");
            Flow::Next
        },
        nop,
        |s| {
            s.out.push("c");
            Flow::Next
        },
    ];
    let mut s = Words { out: std::mem::take(out) };
    run(&e, &actions, &mut s);
    *out = s.out;
}

struct Pick {
    x: i32,
    y: i32,
    ret: &'static str,
}

// if n % 15 == 0 { goto!(fizzbuzz); } if n % 3 == 0 { goto!(fizz); }
// if n % 5 == 0 { goto!(buzz); } goto!(neither);
// label!(fizzbuzz); return "FizzBuzz"; label!(fizz); return "Fizz";
// label!(buzz); return "Buzz"; label!(neither); return "neither";
fn fizzbuzz_once(n: i32) -> &'static str {
    let body = vec![
        tail(vec![goto_mark(0, "fizzbuzz")]),
        tail(vec![goto_mark(1, "fizz")]),
        tail(vec![goto_mark(2, "buzz")]),
        goto_stmt(3, "neither"),
        label(4, "fizzbuzz"),
        stmt(vec![]),
        label(5, "fizz"),
        stmt(vec![]),
        label(6, "buzz"),
        stmt(vec![]),
        label(7, "neither"),
        stmt(vec![]),
    ];
    let e = expand(&[], body, true);
    let actions: Vec<Action<Pick>> = vec![
        |s| if s.x % 15 == 0 { Flow::Jump(0) } else { Flow::Next },
        |s| if s.x % 3 == 0 { Flow::Jump(1) } else { Flow::Next },
        |s| if s.x % 5 == 0 { Flow::Jump(2) } else { Flow::Next },
        |_| Flow::Jump(3),
        nop,
        |s| {
            s.ret = "FizzBuzz";
            Flow::Return
        },
        nop,
        |s| {
            s.ret = "Fizz";
            Flow::Return
        },
        nop,
        |s| {
            s.ret = "Buzz";
            Flow::Return
        },
        nop,
        |s| {
            s.ret = "neither";
            Flow::Return
        },
    ];
    let mut s = Pick { x: n, y: 0, ret: "" };
    run(&e, &actions, &mut s);
    s.ret
}

// if x > 0 { if y > 0 { goto!(both_pos); } goto!(x_only); } goto!(neither);
// label!(both_pos); return "both positive"; label!(x_only); return "x positive only";
// label!(neither); "neither positive"
fn nested_if_goto(x: i32, y: i32) -> &'static str {
    let body = vec![
        tail(vec![goto_mark(0, "both_pos"), goto_mark(1, "x_only")]),
        goto_stmt(2, "neither"),
        label(3, "both_pos"),
        stmt(vec![]),
        label(4, "x_only"),
        stmt(vec![]),
        label(5, "neither"),
        tail(vec![]),
    ];
    let e = expand(&[], body, true);
    let actions: Vec<Action<Pick>> = vec![
        |s| {
            if s.x > 0 {
                if s.y > 0 {
                    return Flow::Jump(0);
                }
                return Flow::Jump(1);
            }
            Flow::Next
        },
        |_| Flow::Jump(2),
        nop,
        |s| {
            s.ret = "both positive";
            Flow::Return
        },
        nop,
        |s| {
            s.ret = "x positive only";
            Flow::Return
        },
        nop,
        |s| {
            s.ret = "neither positive";
            Flow::Next
        },
    ];
    let mut s = Pick { x, y, ret: "" };
    run(&e, &actions, &mut s);
    s.ret
}

// match x { 0 => goto!(zero), 1 => goto!(one), _ => {} } goto!(other);
// label!(zero); return "zero"; label!(one); return "one"; label!(other); "other"
fn match_goto(x: i32) -> &'static str {
    let body = vec![
        tail(vec![goto_mark(0, "zero"), goto_mark(1, "one")]),
        goto_stmt(2, "other"),
        label(3, "zero"),
        stmt(vec![]),
        label(4, "one"),
        stmt(vec![]),
        label(5, "other"),
        tail(vec![]),
    ];
    let e = expand(&[], body, true);
    let actions: Vec<Action<Pick>> = vec![
        |s| match s.x {
            0 => Flow::Jump(0),
            1 => Flow::Jump(1),
            _ => Flow::Next,
        },
        |_| Flow::Jump(2),
        nop,
        |s| {
            s.ret = "zero";
            Flow::Return
        },
        nop,
        |s| {
            s.ret = "one";
            Flow::Return
        },
        nop,
        |s| {
            s.ret = "other";
            Flow::Next
        },
    ];
    let mut s = Pick { x, y: 0, ret: "" };
    run(&e, &actions, &mut s);
    s.ret
}

// if x > 0 { goto!(pos); } if x < 0 { goto!(neg); } return "zero";
// label!(pos); return "positive"; label!(neg); return "negative";
fn sign(x: i32) -> &'static str {
    let body = vec![
        tail(vec![goto_mark(0, "pos")]),
        tail(vec![goto_mark(1, "neg")]),
        stmt(vec![]),
        label(2, "pos"),
        stmt(vec![]),
        label(3, "neg"),
        stmt(vec![]),
    ];
    let e = expand(&[], body, true);
    let actions: Vec<Action<Pick>> = vec![
        |s| if s.x > 0 { Flow::Jump(0) } else { Flow::Next },
        |s| if s.x < 0 { Flow::Jump(1) } else { Flow::Next },
        |s| {
            s.ret = "zero";
            Flow::Return
        },
        nop,
        |s| {
            s.ret = "positive";
            Flow::Return
        },
        nop,
        |s| {
            s.ret = "negative";
            Flow::Return
        },
    ];
    let mut s = Pick { x, y: 0, ret: "" };
    run(&e, &actions, &mut s);
    s.ret
}

struct Search<T: 'static> {
    haystack: &'static [T],
    needle: T,
    i: usize,
    ret: bool,
}

// let mut i = 0; label!(check); if i >= haystack.len() { goto!(not_found); }
// if &haystack[i] == needle { goto!(found); } i += 1; goto!(check);
// label!(found); return true; label!(not_found); false
fn search_body() -> Vec<Stmt<String>> {
    vec![
        local("i", &[], vec![]),
        label(0, "check"),
        tail(vec![call(), goto_mark(1, "not_found")]),
        tail(vec![goto_mark(2, "found")]),
        stmt(vec![]),
        goto_stmt(3, "check"),
        label(4, "found"),
        stmt(vec![]),
        label(5, "not_found"),
        tail(vec![]),
    ]
}

fn search_actions<T: PartialEq>() -> Vec<Action<Search<T>>> {
    vec![
        |s| {
            s.i = 0;
            Flow::Next
        },
        nop,
        |s| if s.i >= s.haystack.len() { Flow::Jump(1) } else { Flow::Next },
        |s| if s.haystack[s.i] == s.needle { Flow::Jump(2) } else { Flow::Next },
        |s| {
            s.i += 1;
            Flow::Next
        },
        |_| Flow::Jump(3),
        nop,
        |s| {
            s.ret = true;
            Flow::Return
        },
        nop,
        |s| {
            s.ret = false;
            Flow::Next
        },
    ]
}

fn linear_search<T: PartialEq + Copy>(haystack: &'static [T], needle: &T) -> bool {
    let e = expand(&[], search_body(), true);
    let mut s = Search { haystack, needle: *needle, i: usize::MAX, ret: false };
    run(&e, &search_actions::<T>(), &mut s);
    s.ret
}

struct Collatz {
    n: u64,
    steps: u64,
    ret: u64,
}

// let mut steps = 0; label!(check); if n == 1 { goto!(done); }
// if n % 2 == 0 { goto!(even); } n = 3 * n + 1; steps += 1; goto!(check);
// label!(even); n /= 2; steps += 1; goto!(check); label!(done); steps
fn collatz_steps(n: u64) -> u64 {
    let body = vec![
        local("steps", &[], vec![]),
        label(0, "check"),
        tail(vec![goto_mark(1, "done")]),
        tail(vec![goto_mark(2, "even")]),
        stmt(vec![]),
        stmt(vec![]),
        goto_stmt(3, "check"),
        label(4, "even"),
        stmt(vec![]),
        stmt(vec![]),
        goto_stmt(5, "check"),
        label(6, "done"),
        tail(vec![]),
    ];
    let e = expand(&[], body, true);
    let actions: Vec<Action<Collatz>> = vec![
        |s| {
            s.steps = 0;
            Flow::Next
        },
        nop,
        |s| if s.n == 1 { Flow::Jump(1) } else { Flow::Next },
        |s| if s.n % 2 == 0 { Flow::Jump(2) } else { Flow::Next },
        |s| {
            s.n = 3 * s.n + 1;
            Flow::Next
        },
        |s| {
            s.steps += 1;
            Flow::Next
        },
        |_| Flow::Jump(3),
        nop,
        |s| {
            s.n /= 2;
            Flow::Next
        },
        |s| {
            s.steps += 1;
            Flow::Next
        },
        |_| Flow::Jump(5),
        nop,
        |s| {
            s.ret = s.steps;
            Flow::Next
        },
    ];
    let mut s = Collatz { n, steps: u64::MAX, ret: u64::MAX };
    run(&e, &actions, &mut s);
    s.ret
}

struct Value {
    ret: i32,
}

// goto!(end); label!(end); 42
fn strict_skip_safe() -> i32 {
    let e = expand(&["strict"], vec![goto_stmt(0, "end"), label(1, "end"), tail(vec![])], true);
    let actions: Vec<Action<Value>> = vec![|_| Flow::Jump(0), nop, |s| {
        s.ret = 42;
        Flow::Next
    }];
    let mut s = Value { ret: 0 };
    run(&e, &actions, &mut s);
    s.ret
}

// ── Behaviour of rewritten functions ──────────────────────────────────────────

#[test]
fn test_backward_goto() {
    assert_eq!(count_up(5), 5);
    assert_eq!(count_up(1), 1);
    assert_eq!(count_up(0), 1); // increments before the condition check
}

#[test]
fn test_forward_goto() {
    assert_eq!(skip_middle(), vec!["first", "last"]);
}

#[test]
fn test_multiple_labels() {
    assert_eq!(fizzbuzz_once(15), "FizzBuzz");
    assert_eq!(fizzbuzz_once(9), "Fizz");
    assert_eq!(fizzbuzz_once(10), "Buzz");
    assert_eq!(fizzbuzz_once(7), "neither");
}

#[test]
fn test_void_function() {
    let mut v = vec![];
    void_goto(&mut v);
    assert_eq!(v, vec!["a", "c"]);
}

#[test]
fn test_nested_if_goto() {
    assert_eq!(nested_if_goto(1, 1), "both positive");
    assert_eq!(nested_if_goto(1, -1), "x positive only");
    assert_eq!(nested_if_goto(-1, 1), "neither positive");
    assert_eq!(nested_if_goto(-1, -1), "neither positive");
}

#[test]
fn test_match_goto() {
    assert_eq!(match_goto(0), "zero");
    assert_eq!(match_goto(1), "one");
    assert_eq!(match_goto(2), "other");
    assert_eq!(match_goto(-1), "other");
}

#[test]
fn test_generic_goto() {
    assert!(linear_search(&[1, 2, 3], &2));
    assert!(!linear_search(&[1, 2, 3], &4));
    assert!(!linear_search::<i32>(&[], &1));
    assert!(linear_search(&["hello", "world"], &"world"));
}

#[test]
fn test_multiple_backward_gotos() {
    // Collatz: 6 → 3 → 10 → 5 → 16 → 8 → 4 → 2 → 1  (8 steps)
    assert_eq!(collatz_steps(6), 8);
    assert_eq!(collatz_steps(1), 0);
    assert_eq!(collatz_steps(2), 1);
}

#[test]
fn test_sign() {
    assert_eq!(sign(42), "positive");
    assert_eq!(sign(-1), "negative");
    assert_eq!(sign(0), "zero");
}

#[test]
fn test_debug_mode() {
    // `#[goto(debug)]` still produces correct results; it announces each jump.
    assert_eq!(count_up_debug(3), 3);
}

#[test]
fn test_strict_valid_code() {
    assert_eq!(strict_skip_safe(), 42);
    assert_eq!(strict_backward_ok(4), 4);
}

#[test]
fn test_strict_compile_errors() {
    // tests/ui/strict_after_forward_goto.rs:
    // goto!(end); let _y = expensive(); label!(end); x
    let errs = refuse(&["strict"], vec![goto_stmt(0, "end"), local("_y", &["expensive"], vec![call()]), label(1, "end"), tail(vec![])], true);
    assert!(matches!(errs[..], [GotoError::LetAfterGoto { stmt: 1 }]), "tests/ui/strict_after_forward_goto.rs");
    // tests/ui/strict_skipped_segment.rs:
    // goto!(end); label!(middle); let _conn = expensive(); goto!(end); label!(end); 0
    let errs = refuse(
        &["strict"],
        vec![goto_stmt(0, "end"), label(1, "middle"), local("_conn", &["expensive"], vec![call()]), goto_stmt(2, "end"), label(3, "end"), tail(vec![])],
        true,
    );
    assert!(matches!(errs[..], [GotoError::SkippableLet { stmt: 2 }]), "tests/ui/strict_skipped_segment.rs");
    // tests/ui/strict_ok.rs: both functions of the file are accepted.
    assert_eq!(strict_backward_ok(3), 3, "tests/ui/strict_ok.rs");
    assert_eq!(strict_skip_safe(), 42, "tests/ui/strict_ok.rs");
}

// ── The shape of the rewrite ─────────────────────────────────────────────────

#[test]
fn count_up_layout() {
    let e = expand(&[], count_up_body(), true);
    assert_eq!(hoisted(&e), vec![(0, false)]);
    assert_eq!(e.arms.len(), 2);
    assert!(e.arms[0].steps.is_empty());
    assert_eq!(e.arms[0].next, Some(1));
    let idx: Vec<usize> = e.arms[1].steps.iter().map(|t| t.index).collect();
    assert_eq!(idx, vec![2, 3, 4]);
    assert!(e.arms[1].steps[0].finish == Finish::Keep);
    assert!(e.arms[1].steps[1].finish == Finish::Keep);
    assert!(e.arms[1].steps[2].finish == Finish::Return);
    assert_eq!(e.jumps.len(), 1);
    assert_eq!((e.jumps[0].site, e.jumps[0].state), (1, 1));
    assert_eq!(e.jumps[0].announce, None);
}

#[test]
fn void_function_last_arm_returns() {
    // out.push("a"); goto!(end); label!(end); out.push("c")   (no semicolon on the last)
    let e = expand(&[], vec![stmt(vec![call()]), goto_stmt(0, "end"), label(1, "end"), tail(vec![call()])], false);
    assert_eq!(e.arms.len(), 2);
    assert_eq!(e.arms[0].next, Some(1));
    assert_eq!(e.arms[1].next, None);
    assert!(e.arms[1].steps[0].finish == Finish::Terminate);
}

#[test]
fn let_after_goto_is_not_hoisted() {
    // let a = 1; goto!(end); let b = f(); label!(end); let c = 2; a
    let body = vec![
        local("a", &[], vec![]),
        goto_stmt(0, "end"),
        local("b", &["f"], vec![call()]),
        label(1, "end"),
        local("c", &[], vec![]),
        tail(vec![]),
    ];
    let e = expand(&[], body, true);
    assert_eq!(hoisted(&e), vec![(0, false), (4, true)]);
    assert_eq!(arm_steps(&e, 0), vec![1, 2]);
    assert_eq!(arm_steps(&e, 1), vec![4, 5]);
    assert!(e.arms[1].steps[0].finish == Finish::Assign);
}

#[test]
fn body_without_labels_is_one_arm() {
    let e = expand(&[], vec![local("a", &[], vec![]), stmt(vec![call()]), tail(vec![])], true);
    assert_eq!(hoisted(&e), vec![(0, false)]);
    assert_eq!(e.arms.len(), 1);
    assert_eq!(e.arms[0].steps.len(), 2);
    assert!(e.jumps.is_empty());
}

#[test]
fn empty_segment_falls_through() {
    // goto!(b); label!(a); label!(b); 7
    let e = expand(&[], vec![goto_stmt(0, "b"), label(1, "a"), label(2, "b"), tail(vec![])], true);
    assert_eq!(e.arms.len(), 3);
    assert!(e.arms[1].steps.is_empty());
    assert_eq!(e.arms[1].next, Some(2));
    assert_eq!(e.jumps[0].state, 2);
}

#[test]
fn debug_announces_label_names() {
    let e = expand(&["debug"], count_up_body(), true);
    assert_eq!(e.jumps[0].announce.as_deref(), Some("top"));
    let both = expand(&["strict", "debug"], count_up_body(), true);
    assert_eq!(both.jumps[0].announce.as_deref(), Some("top"));
}

#[test]
fn goto_inside_closure_is_left_alone_and_refused() {
    // let f = || { goto!(top); }; label!(top); f()
    let body = vec![
        tail(vec![closure(0), nested_goto(1, 0, "top")]),
        label(1, "top"),
        tail(vec![call()]),
    ];
    let errs = refuse(&[], body, true);
    assert!(matches!(errs[..], [GotoError::GotoInClosure { site: 0 }]));
    assert_eq!(
        errs[0].message(),
        "`goto!()` inside a closure is not supported — apply `#[goto]` to a named inner function instead"
    );
}

#[test]
fn goto_in_nested_closure_is_refused() {
    // || { let g = || goto!(top); g() }; label!(top); 0
    let body = vec![tail(vec![closure(0), closure(1), nested_goto(2, 0, "top"), Mark { depth: 1, event: Event::Call }]), label(1, "top"), tail(vec![])];
    let errs = refuse(&[], body, true);
    assert!(matches!(errs[..], [GotoError::GotoInClosure { site: 0 }]));
}

#[test]
fn first_goto_of_a_closure_is_reported() {
    // (|| { goto!(a); goto!(a); })(); label!(a); 0   — one error, at the first
    let body = vec![
        stmt(vec![call(), closure(0), nested_goto(1, 5, "a"), nested_goto(1, 6, "a")]),
        label(7, "a"),
        tail(vec![]),
    ];
    let errs = refuse(&[], body, true);
    assert!(matches!(errs[..], [GotoError::GotoInClosure { site: 5 }]));
}

// ── Errors ───────────────────────────────────────────────────────────────────

#[test]
fn undefined_label_is_refused() {
    let errs = refuse(&[], vec![goto_stmt(7, "nowhere"), tail(vec![])], true);
    assert!(matches!(&errs[..], [GotoError::UndefinedLabel { site: 7, name }] if name == "nowhere"));
    assert_eq!(errs[0].message(), "undefined label: `nowhere`");
}

#[test]
fn duplicate_label_is_refused() {
    let errs = refuse(&[], vec![label(0, "a"), stmt(vec![]), label(1, "a"), tail(vec![])], true);
    assert!(matches!(&errs[..], [GotoError::DuplicateLabel { site: 1, name }] if name == "a"));
    assert_eq!(errs[0].message(), "duplicate label: `a` — each label must be unique within a #[goto] function");
}

#[test]
fn invalid_label_is_refused() {
    let errs = refuse(&[], vec![label(3, "123"), tail(vec![])], true);
    assert!(matches!(&errs[..], [GotoError::InvalidLabel { site: 3, .. }]));
    let m = errs[0].message();
    assert!(m.starts_with("invalid label!() syntax: "));
    assert!(m.ends_with(" — expected an identifier, e.g. `label!(my_label)`"));
}

#[test]
fn keyword_is_not_a_label() {
    let errs = refuse(&[], vec![label(0, "fn"), tail(vec![])], true);
    assert!(matches!(&errs[..], [GotoError::InvalidLabel { site: 0, .. }]));
}

#[test]
fn invalid_goto_is_refused() {
    let errs = refuse(&[], vec![goto_stmt(2, "a b"), label(3, "a"), tail(vec![])], true);
    assert!(matches!(&errs[..], [GotoError::InvalidGoto { site: 2, .. }]));
}

#[test]
fn label_errors_come_first() {
    // an invalid label and an undefined goto: only the label error is reported
    let errs = refuse(&[], vec![goto_stmt(0, "x"), label(1, "1"), tail(vec![])], true);
    assert_eq!(errs.len(), 1);
    assert!(matches!(errs[0], GotoError::InvalidLabel { site: 1, .. }));
}

#[test]
fn all_errors_of_a_kind_are_reported() {
    let errs = refuse(&[], vec![goto_stmt(0, "x"), tail(vec![goto_mark(1, "y")])], true);
    assert_eq!(errs.len(), 2);
    assert!(matches!(errs[0], GotoError::UndefinedLabel { site: 0, .. }));
    assert!(matches!(errs[1], GotoError::UndefinedLabel { site: 1, .. }));
}

#[test]
fn arguments_are_read_as_identifiers() {
    // The label's text carries spaces: it is still the identifier `top`.
    let body = vec![label(0, " top "), goto_stmt(1, "top")];
    let e = expand(&[], body, false);
    assert_eq!(e.jumps[0].state, 1);
    // Raw identifiers keep their prefix.
    let e = expand(&["debug"], vec![label(0, "r#loop"), goto_stmt(1, "r#loop")], false);
    assert_eq!(e.jumps[0].announce.as_deref(), Some("r#loop"));
}

#[test]
fn strict_accepts_pure_initializers() {
    // goto!(end); label!(mid); let v = vec![1]; label!(end); 0
    let body = vec![goto_stmt(0, "end"), label(1, "mid"), local("v", &[], vec![macro_mark(2, "vec", "1")]), label(3, "end"), tail(vec![])];
    let e = expand(&["strict"], body, true);
    assert_eq!(hoisted(&e), vec![(2, true)]);
}

#[test]
fn strict_ignores_calls_inside_closures() {
    // goto!(end); label!(mid); let f = || g(); label!(end); 0
    let body = vec![
        goto_stmt(0, "end"),
        label(1, "mid"),
        local_other(&["f"], &["g"], vec![closure(0), Mark { depth: 1, event: Event::Call }]),
        label(2, "end"),
        tail(vec![]),
    ];
    assert!(goto(&words(&["strict"]), &Body { stmts: body, returns_value: true }).is_ok());
}

#[test]
fn strict_messages() {
    assert_eq!(
        GotoError::LetAfterGoto { stmt: 1 }.message(),
        "this initializer appears after a forward `goto!()` and can never run"
    );
    assert_eq!(
        GotoError::SkippableLet { stmt: 1 }.message(),
        "this initializer stands in a segment that a forward `goto!()` can skip entirely"
    );
}

#[test]
fn options_from_attribute_words() {
    let o = read_options(&words(&["debug", "strict"]));
    assert!(o.debug && o.strict);
    let o = read_options(&words(&["other"]));
    assert!(!o.debug && !o.strict);
    let o = read_options(&words(&[]));
    assert!(!o.debug && !o.strict);
}

#[test]
fn debug_changes_only_announcements() {
    let quiet = expand(&[], search_body(), true);
    let loud = expand(&["debug"], search_body(), true);
    assert_eq!(hoisted(&quiet), hoisted(&loud));
    assert_eq!(quiet.arms.len(), loud.arms.len());
    for (a, b) in quiet.arms.iter().zip(loud.arms.iter()) {
        assert_eq!(a.next, b.next);
        let sa: Vec<usize> = a.steps.iter().map(|t| t.index).collect();
        let sb: Vec<usize> = b.steps.iter().map(|t| t.index).collect();
        assert_eq!(sa, sb);
    }
    let qj: Vec<(usize, usize)> = quiet.jumps.iter().map(|j| (j.site, j.state)).collect();
    let lj: Vec<(usize, usize)> = loud.jumps.iter().map(|j| (j.site, j.state)).collect();
    assert_eq!(qj, vec![(1, 3), (2, 2), (3, 1)]);
    assert_eq!(qj, lj);
    let names: Vec<&str> = loud.jumps.iter().map(|j| j.announce.as_deref().unwrap()).collect();
    assert_eq!(names, vec!["not_found", "found", "check"]);
}

#[test]
fn strict_rewrite_equals_default_rewrite() {
    let plain = expand(&[], search_body(), true);
    let strict = expand(&["strict"], search_body(), true);
    assert_eq!(hoisted(&plain), hoisted(&strict));
    assert_eq!(plain.arms.len(), strict.arms.len());
    let pj: Vec<(usize, usize)> = plain.jumps.iter().map(|j| (j.site, j.state)).collect();
    let sj: Vec<(usize, usize)> = strict.jumps.iter().map(|j| (j.site, j.state)).collect();
    assert_eq!(pj, sj);
}

#[test]
fn every_kept_statement_runs_in_the_arm_of_its_segment() {
    // collatz: labels at 1, 7, 11; statement 0 hoisted.
    let body = vec![
        local("steps", &[], vec![]),
        label(0, "check"),
        tail(vec![goto_mark(1, "done")]),
        tail(vec![goto_mark(2, "even")]),
        stmt(vec![]),
        stmt(vec![]),
        goto_stmt(3, "check"),
        label(4, "even"),
        stmt(vec![]),
        stmt(vec![]),
        goto_stmt(5, "check"),
        label(6, "done"),
        tail(vec![]),
    ];
    let e = expand(&[], body, true);
    let arms: Vec<Vec<usize>> = e.arms.iter().map(|a| a.steps.iter().map(|t| t.index).collect()).collect();
    assert_eq!(arms, vec![vec![], vec![2, 3, 4, 5, 6], vec![8, 9, 10], vec![12]]);
    assert_eq!(hoisted(&e), vec![(0, false)]);
}

// ── Revisions of the rewrite ─────────────────────────────────────────────────

#[test]
fn goto_in_a_hoisted_let_is_checked() {
    // let x = { goto!(nowhere) }; 0
    let errs = refuse(&[], vec![local("x", &[], vec![goto_mark(0, "nowhere")]), tail(vec![])], true);
    assert!(matches!(&errs[..], [GotoError::UndefinedLabel { site: 0, name }] if name == "nowhere"));
}

#[test]
fn a_let_that_jumps_stays_in_its_arm() {
    // let x = if c { goto!(end) } else { 1 }; label!(end); 0
    let e = expand(&[], vec![local("x", &["c"], vec![goto_mark(0, "end")]), label(1, "end"), tail(vec![])], true);
    assert_eq!(hoisted(&e), vec![]);
    assert_eq!(arm_steps(&e, 0), vec![0]);
    assert!(e.arms[0].steps[0].finish == Finish::Keep);
    assert_eq!((e.jumps[0].site, e.jumps[0].state), (0, 1));
}

struct Branch {
    x: i32,
    ret: i32,
}

// fn f(x: i32) -> i32 { if x < 0 { goto!(neg) } label!(pos); return 1; label!(neg); -1 }
fn branch(x: i32) -> i32 {
    let body = vec![tail(vec![goto_mark(0, "neg")]), label(1, "pos"), stmt(vec![]), label(2, "neg"), tail(vec![])];
    let e = expand(&[], body, true);
    assert!(e.arms[0].steps[0].finish == Finish::Keep);
    assert!(e.arms[2].steps[0].finish == Finish::Return);
    let actions: Vec<Action<Branch>> = vec![
        |s| if s.x < 0 { Flow::Jump(0) } else { Flow::Next },
        nop,
        |s| {
            s.ret = 1;
            Flow::Return
        },
        nop,
        |s| {
            s.ret = -1;
            Flow::Next
        },
    ];
    let mut s = Branch { x, ret: 0 };
    run(&e, &actions, &mut s);
    s.ret
}

#[test]
fn only_the_function_tail_becomes_a_return() {
    assert_eq!(branch(5), 1);
    assert_eq!(branch(-5), -1);
}

struct Totals {
    t: i32,
    i: i32,
    c: i32,
}

// let mut t = 0; let mut i = 0; label!(top); let mut c = 0; c += 1; t += c;
// i += 1; if i < 3 { goto!(top); } t
fn reinit() -> i32 {
    let body = vec![
        local("t", &[], vec![]),
        local("i", &[], vec![]),
        label(0, "top"),
        local("c", &[], vec![]),
        stmt(vec![]),
        stmt(vec![]),
        stmt(vec![]),
        tail(vec![goto_mark(1, "top")]),
        tail(vec![]),
    ];
    let e = expand(&[], body, true);
    assert_eq!(hoisted(&e), vec![(0, false), (1, false), (3, true)]);
    assert_eq!(arm_steps(&e, 1), vec![3, 4, 5, 6, 7, 8]);
    let actions: Vec<Action<Totals>> = vec![
        |s| {
            s.t = 0;
            Flow::Next
        },
        |s| {
            s.i = 0;
            Flow::Next
        },
        nop,
        |s| {
            s.c = 0;
            Flow::Next
        },
        |s| {
            s.c += 1;
            Flow::Next
        },
        |s| {
            s.t += s.c;
            Flow::Next
        },
        |s| {
            s.i += 1;
            Flow::Next
        },
        |s| if s.i < 3 { Flow::Jump(1) } else { Flow::Next },
        |_| Flow::Next,
    ];
    let mut s = Totals { t: -100, i: -100, c: -100 };
    run(&e, &actions, &mut s);
    s.t
}

#[test]
fn labelled_segment_lets_are_initialized_on_each_arrival() {
    assert_eq!(reinit(), 3);
}

#[test]
fn other_lets_of_labelled_segments_are_hoisted_whole() {
    // label!(a); let x; let (p, q) = f(); 0
    let body = vec![label(0, "a"), local_bare("x"), local_other(&["p", "q"], &["f"], vec![call()]), tail(vec![])];
    let e = expand(&[], body, true);
    assert_eq!(hoisted(&e), vec![(1, false), (2, false)]);
    assert_eq!(arm_steps(&e, 1), vec![3]);
}

#[test]
fn nested_function_items_are_left_alone() {
    // #[goto] fn inner() { goto!(end); label!(end); }  goto!(out); label!(out);
    let body = vec![Stmt::Item, goto_stmt(0, "out"), label(1, "out")];
    let e = expand(&[], body, false);
    assert_eq!(arm_steps(&e, 0), vec![0, 1]);
    assert!(e.arms[0].steps[0].finish == Finish::Keep);
    assert_eq!(e.jumps.len(), 1);
}

#[test]
fn strict_counts_only_jumps_from_earlier_segments() {
    // label!(m); if c { goto!(end); } let x = f(); label!(end); 0
    let body = vec![label(0, "m"), tail(vec![goto_mark(1, "end")]), local("x", &["f"], vec![call()]), label(2, "end"), tail(vec![])];
    let e = expand(&["strict"], body, true);
    assert_eq!(hoisted(&e), vec![(2, false)]);
}

struct Later {
    x: i32,
    ret: i32,
}

// fn f() -> i32 { label!(a); let x = 5; label!(b); x }
fn later_read() -> i32 {
    let body = vec![label(0, "a"), local("x", &[], vec![]), label(1, "b"), tail(vec![])];
    let e = expand(&[], body, true);
    assert_eq!(hoisted(&e), vec![(1, true)]);
    assert_eq!(arm_steps(&e, 1), vec![1]);
    assert!(e.arms[1].steps[0].finish == Finish::Assign);
    assert_eq!(arm_steps(&e, 2), vec![3]);
    let actions: Vec<Action<Later>> = vec![
        nop,
        |s| {
            s.x = 5;
            Flow::Next
        },
        nop,
        |s| {
            s.ret = s.x;
            Flow::Next
        },
    ];
    let mut s = Later { x: -1, ret: -1 };
    run(&e, &actions, &mut s);
    s.ret
}

#[test]
fn labelled_segment_lets_stay_visible_in_later_segments() {
    assert_eq!(later_read(), 5);
}

#[test]
fn same_name_lets_are_hoisted_whole_once() {
    // label!(a); let x = "s"; let x = x.len(); label!(b); x
    let body = vec![label(0, "a"), local("x", &[], vec![]), local("x", &["x"], vec![call()]), label(1, "b"), tail(vec![])];
    let e = expand(&[], body, true);
    assert_eq!(hoisted(&e), vec![(1, false), (2, false)]);
    assert!(e.arms[1].steps.is_empty());
}

#[test]
fn an_initializer_that_reads_a_name_runs_once() {
    // fn f(x: i32) -> i32 { label!(a); let y = x * 2; y }
    let body = vec![label(0, "a"), local("y", &["x"], vec![]), tail(vec![])];
    let e = expand(&[], body, true);
    assert_eq!(hoisted(&e), vec![(1, false)]);
    assert_eq!(arm_steps(&e, 1), vec![2]);
}
