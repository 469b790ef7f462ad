//! What evaluation means: each expression as a function from the world before
//! it to its result and the world after it.
//!
//! A world is the store of variables, the lines printed so far, and the record
//! of the exchanges with the host of the doubles. The host's answers are a
//! parameter: `tape` holds them in the order in which they are given, and
//! answer number `n` goes to the `n`-th question of the run.

use vstd::prelude::*;
use crate::error::Failure;
use crate::floats::{bits_of, parsed_of, reply_at, text_of, Exchange, Query, Reply};
use crate::number::int_literal;
use crate::sexpr::Tree;
use crate::template::template_fill;
use crate::value::{compare, int_rem, int_rem_exists, plain_text, ValueView};

verus! {

/// All that an evaluation reads and changes.
pub struct World {
    pub vars: Map<Seq<char>, ValueView>,
    pub printed: Seq<Seq<char>>,
    pub heard: Seq<Exchange>,
}

impl World {
    /// The answer that the next question gets.
    pub open spec fn answer(self, tape: Seq<Reply>) -> Reply {
        reply_at(tape, self.heard.len())
    }

    /// The world after `query` was put to the host.
    pub open spec fn ask(self, query: Query, tape: Seq<Reply>) -> World {
        World { heard: self.heard.push(Exchange { query, reply: self.answer(tape) }), ..self }
    }

    /// The world with `name` bound to `value`.
    pub open spec fn bind(self, name: Seq<char>, value: ValueView) -> World {
        World { vars: self.vars.insert(name, value), ..self }
    }

    /// The world with `line` printed after what was printed before.
    pub open spec fn print(self, line: Seq<char>) -> World {
        World { printed: self.printed.push(line), ..self }
    }
}

/// A value or the error that stopped the evaluation.
pub type Outcome = Result<ValueView, Failure>;

/// An atom read as a literal: `true`, `false`, an integer, or else whatever
/// double the host reads it as.
pub open spec fn eval_atom(text: Seq<char>, w: World, tape: Seq<Reply>) -> (Outcome, World) {
    if text == "true"@ {
        (Ok(ValueView::Bool(true)), w)
    } else if text == "false"@ {
        (Ok(ValueView::Bool(false)), w)
    } else if let Some(i) = int_literal(text) {
        (Ok(ValueView::Int(i)), w)
    } else {
        match parsed_of(w.answer(tape)) {
            Some(bits) => (Ok(ValueView::Float(bits)), w.ask(Query::Parse(text), tape)),
            None => (Err(Failure::UnknownAtom(text)), w.ask(Query::Parse(text), tape)),
        }
    }
}

/// The text of a value, and the world after the host was asked for it where
/// the value is a double.
pub open spec fn render(value: ValueView, w: World, tape: Seq<Reply>) -> (Seq<char>, World) {
    match value {
        ValueView::Float(bits) => (text_of(w.answer(tape)), w.ask(Query::Render(bits), tape)),
        _ => (plain_text(value), w),
    }
}

/// Adds one to a number, in its own kind.
pub open spec fn increment(value: ValueView, w: World, tape: Seq<Reply>) -> (Outcome, World) {
    match value {
        ValueView::Int(i) => if i < i64::MAX {
            (Ok(ValueView::Int((i + 1) as i64)), w)
        } else {
            (Err(Failure::Arithmetic), w)
        },
        ValueView::Float(bits) => (
            Ok(ValueView::Float(bits_of(w.answer(tape)))),
            w.ask(Query::Successor(bits), tape),
        ),
        _ => (Err(Failure::TypeMismatch), w),
    }
}

/// The remainder of two numbers. Two integers give an integer; where either
/// is a double the other is widened first and the result is a double.
pub open spec fn remainder(left: ValueView, right: ValueView, w: World, tape: Seq<Reply>) -> (
    Outcome,
    World,
) {
    match (left, right) {
        (ValueView::Int(l), ValueView::Int(r)) => if int_rem_exists(l, r) {
            (Ok(ValueView::Int(int_rem(l as int, r as int) as i64)), w)
        } else {
            (Err(Failure::Arithmetic), w)
        },
        (ValueView::Float(l), ValueView::Float(r)) => (
            Ok(ValueView::Float(bits_of(w.answer(tape)))),
            w.ask(Query::Rem(l, r), tape),
        ),
        (ValueView::Int(l), ValueView::Float(r)) => {
            let wide = bits_of(w.answer(tape));
            let w1 = w.ask(Query::Widen(l), tape);
            (Ok(ValueView::Float(bits_of(w1.answer(tape)))), w1.ask(Query::Rem(wide, r), tape))
        },
        (ValueView::Float(l), ValueView::Int(r)) => {
            let wide = bits_of(w.answer(tape));
            let w1 = w.ask(Query::Widen(r), tape);
            (Ok(ValueView::Float(bits_of(w1.answer(tape)))), w1.ask(Query::Rem(l, wide), tape))
        },
        _ => (Err(Failure::TypeMismatch), w),
    }
}

/// Whether two values are equal. Only two of one kind can be asked.
pub open spec fn equality(left: ValueView, right: ValueView) -> Outcome {
    match compare(left, right) {
        Some(same) => Ok(ValueView::Bool(same)),
        None => Err(Failure::TypeMismatch),
    }
}

/// Whether `tree` is the atom `word`.
pub open spec fn is_word(tree: Tree, word: Seq<char>) -> bool {
    tree == Tree::Atom(word)
}

/// An expression: an atom is read as a literal, a list is a form whose first
/// item names it and whose other items are its arguments.
pub open spec fn eval_expr(e: Tree, w: World, tape: Seq<Reply>) -> (Outcome, World)
    decreases e, 0nat, 0nat,
{
    match e {
        Tree::Atom(text) => eval_atom(text, w, tape),
        Tree::List(items) => if items.len() == 0 {
            (Err(Failure::MalformedForm), w)
        } else {
            match items[0] {
                Tree::List(_) => (Err(Failure::MalformedForm), w),
                Tree::Atom(name) => if name == "print"@ {
                    print_from(items, 1, w, tape)
                } else if name == "format"@ {
                    form_format(items, w, tape)
                } else if name == "let"@ {
                    form_bind(items, false, w, tape)
                } else if name == "set"@ {
                    form_bind(items, true, w, tape)
                } else if name == "get"@ {
                    form_get(items, w)
                } else if name == "inc"@ {
                    form_inc(items, w, tape)
                } else if name == "mod"@ {
                    form_mod(items, w, tape)
                } else if name == "eq"@ {
                    form_eq(items, w, tape)
                } else if name == "if"@ {
                    form_if(items, w, tape)
                } else if name == "count"@ {
                    form_count(items, w, tape)
                } else {
                    (Err(Failure::UnknownForm(name)), w)
                },
            }
        },
    }
}

/// The items of `items` from `from` on, each evaluated in turn and its value
/// dropped. The first error ends it.
pub open spec fn eval_each(items: Seq<Tree>, from: nat, w: World, tape: Seq<Reply>) -> (
    Outcome,
    World,
)
    decreases items, 0nat, items.len() - from,
{
    if from >= items.len() {
        (Ok(ValueView::Void), w)
    } else {
        let (result, w1) = eval_expr(items[from as int], w, tape);
        match result {
            Err(e) => (Err(e), w1),
            Ok(_) => eval_each(items, from + 1, w1, tape),
        }
    }
}

/// `print`, from argument `from` on: each argument is evaluated and its text
/// printed as a line before the next one is evaluated.
pub open spec fn print_from(items: Seq<Tree>, from: nat, w: World, tape: Seq<Reply>) -> (
    Outcome,
    World,
)
    decreases items, 0nat, items.len() - from,
{
    if from >= items.len() {
        (Ok(ValueView::Void), w)
    } else {
        let (result, w1) = eval_expr(items[from as int], w, tape);
        match result {
            Err(e) => (Err(e), w1),
            Ok(value) => {
                let (line, w2) = render(value, w1, tape);
                print_from(items, from + 1, w2.print(line), tape)
            },
        }
    }
}

/// The texts of the arguments of `format` from `from` on, after `texts`:
/// each argument is evaluated and written out before the next one.
pub open spec fn texts_from(
    items: Seq<Tree>,
    from: nat,
    texts: Seq<Seq<char>>,
    w: World,
    tape: Seq<Reply>,
) -> (Result<Seq<Seq<char>>, Failure>, World)
    decreases items, 0nat, items.len() - from,
{
    if from >= items.len() {
        (Ok(texts), w)
    } else {
        let (result, w1) = eval_expr(items[from as int], w, tape);
        match result {
            Err(e) => (Err(e), w1),
            Ok(value) => {
                let (text, w2) = render(value, w1, tape);
                texts_from(items, from + 1, texts.push(text), w2, tape)
            },
        }
    }
}

/// `(format template argument ...)`: the template filled with the texts of
/// the arguments.
pub open spec fn form_format(items: Seq<Tree>, w: World, tape: Seq<Reply>) -> (Outcome, World)
    decreases items, 1nat, 0nat,
{
    if items.len() < 2 {
        (Err(Failure::Arity), w)
    } else {
        match items[1] {
            Tree::List(_) => (Err(Failure::MalformedForm), w),
            Tree::Atom(template) => {
                let (result, w1) = texts_from(items, 2, Seq::empty(), w, tape);
                match result {
                    Err(e) => (Err(e), w1),
                    Ok(texts) => (Ok(ValueView::String(template_fill(template, texts))), w1),
                }
            },
        }
    }
}

/// `(let name value)` and `(set name value)`: both bind the name to the
/// value; `set` yields the value, `let` yields nothing.
pub open spec fn form_bind(items: Seq<Tree>, yields: bool, w: World, tape: Seq<Reply>) -> (
    Outcome,
    World,
)
    decreases items, 1nat, 0nat,
{
    if items.len() < 2 {
        (Err(Failure::Arity), w)
    } else {
        match items[1] {
            Tree::List(_) => (Err(Failure::MalformedForm), w),
            Tree::Atom(name) => if items.len() != 3 {
                (Err(Failure::Arity), w)
            } else {
                let (result, w1) = eval_expr(items[2], w, tape);
                match result {
                    Err(e) => (Err(e), w1),
                    Ok(value) => (
                        Ok(
                            if yields {
                                value
                            } else {
                                ValueView::Void
                            },
                        ),
                        w1.bind(name, value),
                    ),
                }
            },
        }
    }
}

/// `(get name)`: the value bound to the name.
pub open spec fn form_get(items: Seq<Tree>, w: World) -> (Outcome, World) {
    if items.len() < 2 {
        (Err(Failure::Arity), w)
    } else {
        match items[1] {
            Tree::List(_) => (Err(Failure::MalformedForm), w),
            Tree::Atom(name) => if items.len() != 2 {
                (Err(Failure::Arity), w)
            } else if w.vars.contains_key(name) {
                (Ok(w.vars[name]), w)
            } else {
                (Err(Failure::UnboundVariable(name)), w)
            },
        }
    }
}

/// `(inc name)`: the number bound to the name plus one, which is bound in its
/// place and yielded.
pub open spec fn form_inc(items: Seq<Tree>, w: World, tape: Seq<Reply>) -> (Outcome, World) {
    if items.len() < 2 {
        (Err(Failure::Arity), w)
    } else {
        match items[1] {
            Tree::List(_) => (Err(Failure::MalformedForm), w),
            Tree::Atom(name) => if items.len() != 2 {
                (Err(Failure::Arity), w)
            } else if w.vars.contains_key(name) {
                let (result, w1) = increment(w.vars[name], w, tape);
                match result {
                    Err(e) => (Err(e), w1),
                    Ok(value) => (Ok(value), w1.bind(name, value)),
                }
            } else {
                (Err(Failure::UnboundVariable(name)), w)
            },
        }
    }
}

/// `(mod left right)`: the remainder of the two operands, which are evaluated
/// left to right.
pub open spec fn form_mod(items: Seq<Tree>, w: World, tape: Seq<Reply>) -> (Outcome, World)
    decreases items, 1nat, 0nat,
{
    if items.len() < 2 {
        (Err(Failure::Arity), w)
    } else {
        let (left, w1) = eval_expr(items[1], w, tape);
        match left {
            Err(e) => (Err(e), w1),
            Ok(l) => if items.len() < 3 {
                (Err(Failure::Arity), w1)
            } else {
                let (right, w2) = eval_expr(items[2], w1, tape);
                match right {
                    Err(e) => (Err(e), w2),
                    Ok(r) => if items.len() != 3 {
                        (Err(Failure::Arity), w2)
                    } else {
                        remainder(l, r, w2, tape)
                    },
                }
            },
        }
    }
}

/// `(eq left right)`: whether the two operands, evaluated left to right, are
/// equal.
pub open spec fn form_eq(items: Seq<Tree>, w: World, tape: Seq<Reply>) -> (Outcome, World)
    decreases items, 1nat, 0nat,
{
    if items.len() < 2 {
        (Err(Failure::Arity), w)
    } else {
        let (left, w1) = eval_expr(items[1], w, tape);
        match left {
            Err(e) => (Err(e), w1),
            Ok(l) => if items.len() < 3 {
                (Err(Failure::Arity), w1)
            } else {
                let (right, w2) = eval_expr(items[2], w1, tape);
                match right {
                    Err(e) => (Err(e), w2),
                    Ok(r) => if items.len() != 3 {
                        (Err(Failure::Arity), w2)
                    } else {
                        (equality(l, r), w2)
                    },
                }
            },
        }
    }
}

/// A branch of `if`: a list is a sequence of statements and yields nothing,
/// an atom is read as a literal.
pub open spec fn eval_branch(branch: Tree, w: World, tape: Seq<Reply>) -> (Outcome, World)
    decreases branch, 1nat, 0nat,
{
    match branch {
        Tree::List(statements) => eval_each(statements, 0, w, tape),
        Tree::Atom(text) => eval_atom(text, w, tape),
    }
}

/// `(if condition branch)` and `(if condition branch else branch)`: the
/// condition is evaluated and must be a boolean; then the branch it selects
/// is run, if there is one.
pub open spec fn form_if(items: Seq<Tree>, w: World, tape: Seq<Reply>) -> (Outcome, World)
    decreases items, 1nat, 0nat,
{
    if items.len() < 2 {
        (Err(Failure::Arity), w)
    } else {
        let (condition, w1) = eval_expr(items[1], w, tape);
        match condition {
            Err(e) => (Err(e), w1),
            Ok(ValueView::Bool(holds)) => if items.len() == 3 {
                if holds {
                    eval_branch(items[2], w1, tape)
                } else {
                    (Ok(ValueView::Void), w1)
                }
            } else if items.len() == 5 && is_word(items[3], "else"@) {
                if holds {
                    eval_branch(items[2], w1, tape)
                } else {
                    eval_branch(items[4], w1, tape)
                }
            } else {
                (Err(Failure::Arity), w1)
            },
            Ok(_) => (Err(Failure::TypeMismatch), w1),
        }
    }
}

/// The rounds of `count` from `next` up to, and without, `end`: each binds
/// the variable to its number and then runs the body.
pub open spec fn count_from(
    name: Seq<char>,
    body: Seq<Tree>,
    next: int,
    end: int,
    w: World,
    tape: Seq<Reply>,
) -> (Outcome, World)
    decreases body, 1nat, end - next,
{
    if next >= end {
        (Ok(ValueView::Void), w)
    } else {
        let (result, w1) = eval_each(body, 0, w.bind(name, ValueView::Int(next as i64)), tape);
        match result {
            Err(e) => (Err(e), w1),
            Ok(_) => count_from(name, body, next + 1, end, w1, tape),
        }
    }
}

/// `(count name from start to end body)`: the two bounds are evaluated, start
/// first, and must be integers; the body, a list of statements, is then run
/// once for each integer from `start` up to, and without, `end`.
pub open spec fn form_count(items: Seq<Tree>, w: World, tape: Seq<Reply>) -> (Outcome, World)
    decreases items, 2nat, 0nat,
{
    if items.len() < 2 {
        (Err(Failure::Arity), w)
    } else {
        match items[1] {
            Tree::List(_) => (Err(Failure::MalformedForm), w),
            Tree::Atom(name) => if items.len() < 3 {
                (Err(Failure::Arity), w)
            } else if !is_word(items[2], "from"@) {
                (Err(Failure::MalformedForm), w)
            } else if items.len() < 4 {
                (Err(Failure::Arity), w)
            } else {
                let (start, w1) = eval_expr(items[3], w, tape);
                match start {
                    Err(e) => (Err(e), w1),
                    Ok(ValueView::Int(first)) => if items.len() < 5 {
                        (Err(Failure::Arity), w1)
                    } else if !is_word(items[4], "to"@) {
                        (Err(Failure::MalformedForm), w1)
                    } else if items.len() < 6 {
                        (Err(Failure::Arity), w1)
                    } else {
                        let (end, w2) = eval_expr(items[5], w1, tape);
                        match end {
                            Err(e) => (Err(e), w2),
                            Ok(ValueView::Int(last)) => if items.len() != 7 {
                                (Err(Failure::Arity), w2)
                            } else {
                                match items[6] {
                                    Tree::Atom(_) => (Err(Failure::MalformedForm), w2),
                                    Tree::List(body) => count_from(
                                        name,
                                        body,
                                        first as int,
                                        last as int,
                                        w2,
                                        tape,
                                    ),
                                }
                            },
                            Ok(_) => (Err(Failure::TypeMismatch), w2),
                        }
                    },
                    Ok(_) => (Err(Failure::TypeMismatch), w1),
                }
            },
        }
    }
}

} // verus!
