# goto

C-style `goto` for Rust functions: `#[goto]` lets a function body use
`label!(name)` and `goto!(name)`, and rewrites the body into a loop over a
`match` on a state number.

```rust
#[goto]
fn count_up(limit: i32) -> i32 {
    let mut n = 0;
    label!(top);
    n += 1;
    if n < limit { goto!(top); }
    n
}
```

becomes

```rust
fn count_up(limit: i32) -> i32 {
    let mut n = 0;
    let mut __goto_state: usize = 0usize;
    'goto_loop: loop {
        match __goto_state {
            0usize => { __goto_state = 1usize; continue 'goto_loop; }
            1usize => {
                n += 1;
                if n < limit { { __goto_state = 1usize; continue 'goto_loop } }
                return n;
                __goto_state = 2usize; continue 'goto_loop;
            }
            _ => unreachable!("invalid goto state {} — this is a bug in the goto macro", __goto_state),
        }
    }
}
```

`let` bindings that stand before the first `goto!()` of their segment, and
whose initializer does not jump, move whole in front of the loop, so that all
segments see them. A labelled segment can be entered again and again: where
one of its `let x = e;` binds a name that no other `let` of the body binds and
`e` mentions no name (nor holds a closure or an `async` block), the arm also
runs `x = e;` where the `let` stood, so that each arrival initializes `x`
anew. A `let` whose initializer jumps stays in its arm. Only the function's
own tail expression becomes a `return`. Items declared in the body, such as a
nested `#[goto]` function, are left to themselves.

`#[goto(debug)]` prints `jumping to <label>` at each jump; `#[goto(strict)]`
refuses `let` initializers that do work after a forward `goto!()` of their
segment, or in a labelled segment that a forward jump from an earlier segment
can skip.

## Layout

- `src/` is the library, verified with Verus. It takes the function body as
  plain values (`model`): its top-level statements, and inside each the macro
  invocations, closures and calls in visiting order. It reads macro arguments
  as identifiers with `syn` (`read`), splits the body at its labels and hoists
  `let` bindings (`segments`), replaces each `goto!` with a jump (`rewrite`),
  checks strict mode (`strict`), lays out the arms (`expand`) or reports the
  compile errors (`error`). `laws` proves what holds of every rewrite: the
  arms follow the segments, jumps go to the labels they name, debug and strict
  mode change nothing else, which bodies are refused and accepted, which
  `let`s are hoisted and how, which `goto!()` of a closure is reported, and
  that the state machine runs the statements in the order the body would.
- `app/` holds the attribute over token streams: it reads the function with
  `syn`, calls the library, and writes the result back with `quote`.
- `tests/` runs the state machines that the library lays out for a set of
  functions written with `label!`/`goto!`.
