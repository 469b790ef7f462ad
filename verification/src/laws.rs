//! What holds of every evaluation, whatever the world it starts in and
//! whatever the host answers.

use vstd::prelude::*;
use crate::error::Failure;
use crate::floats::{bits_of, Query, Reply};
use crate::number::int_literal;
use crate::semantics::{
    count_from, equality, eval_atom, eval_each, eval_expr, form_bind, form_get, form_if,
    increment, remainder, World,
};
use crate::sexpr::Tree;
use crate::value::{int_rem, int_rem_exists, ValueView};

verus! {

/// An atom that is read as a literal without asking the host: `true`,
/// `false` or an integer.
pub open spec fn is_plain_literal(text: Seq<char>) -> bool {
    text == "true"@ || text == "false"@ || int_literal(text) is Some
}

/// The kinds of values.
pub enum Kind {
    Int,
    Float,
    String,
    Bool,
    Null,
    Void,
}

/// The kind of `value`.
pub open spec fn kind_of(value: ValueView) -> Kind {
    match value {
        ValueView::Int(_) => Kind::Int,
        ValueView::Float(_) => Kind::Float,
        ValueView::String(_) => Kind::String,
        ValueView::Bool(_) => Kind::Bool,
        ValueView::Null => Kind::Null,
        ValueView::Void => Kind::Void,
    }
}

/// The names of the forms are ten different words.
pub proof fn lemma_form_names()
    ensures
        "print"@ != "format"@,
        "print"@ != "let"@,
        "print"@ != "set"@,
        "print"@ != "get"@,
        "print"@ != "inc"@,
        "print"@ != "mod"@,
        "print"@ != "eq"@,
        "print"@ != "if"@,
        "print"@ != "count"@,
        "format"@ != "let"@,
        "format"@ != "set"@,
        "format"@ != "get"@,
        "format"@ != "inc"@,
        "format"@ != "mod"@,
        "format"@ != "eq"@,
        "format"@ != "if"@,
        "format"@ != "count"@,
        "let"@ != "set"@,
        "let"@ != "get"@,
        "let"@ != "inc"@,
        "let"@ != "mod"@,
        "let"@ != "eq"@,
        "let"@ != "if"@,
        "let"@ != "count"@,
        "set"@ != "get"@,
        "set"@ != "inc"@,
        "set"@ != "mod"@,
        "set"@ != "eq"@,
        "set"@ != "if"@,
        "set"@ != "count"@,
        "get"@ != "inc"@,
        "get"@ != "mod"@,
        "get"@ != "eq"@,
        "get"@ != "if"@,
        "get"@ != "count"@,
        "inc"@ != "mod"@,
        "inc"@ != "eq"@,
        "inc"@ != "if"@,
        "inc"@ != "count"@,
        "mod"@ != "eq"@,
        "mod"@ != "if"@,
        "mod"@ != "count"@,
        "eq"@ != "if"@,
        "eq"@ != "count"@,
        "if"@ != "count"@,
{
    reveal_strlit("print");
    reveal_strlit("format");
    reveal_strlit("let");
    reveal_strlit("set");
    reveal_strlit("get");
    reveal_strlit("inc");
    reveal_strlit("mod");
    reveal_strlit("eq");
    reveal_strlit("if");
    reveal_strlit("count");
    assert("inc"@.len() == 3);
    assert("if"@.len() == 2);
    assert("print"@[0] != "count"@[0]);
    assert("let"@[0] != "set"@[0]);
    assert("let"@[0] != "get"@[0]);
    assert("let"@[0] != "inc"@[0]);
    assert("let"@[0] != "mod"@[0]);
    assert("set"@[0] != "get"@[0]);
    assert("set"@[0] != "inc"@[0]);
    assert("set"@[0] != "mod"@[0]);
    assert("get"@[0] != "inc"@[0]);
    assert("get"@[0] != "mod"@[0]);
    assert("inc"@[0] != "mod"@[0]);
    assert("eq"@[0] != "if"@[0]);
}

/// Binding a name to a literal twice leaves the world as binding it once
/// does: `(let name literal)` evaluated a second time changes nothing.
pub proof fn lemma_let_twice(name: Seq<char>, literal: Seq<char>, w: World, tape: Seq<Reply>)
    requires
        is_plain_literal(literal),
    ensures
        ({
            let form = Tree::List(seq![Tree::Atom("let"@), Tree::Atom(name), Tree::Atom(literal)]);
            let once = eval_expr(form, w, tape);
            &&& once.0 == Ok::<ValueView, Failure>(ValueView::Void)
            &&& once.1.vars.contains_key(name)
            &&& eval_expr(form, once.1, tape) == once
        }),
{
    lemma_form_names();
    reveal_with_fuel(eval_expr, 2);
    let items = seq![Tree::Atom("let"@), Tree::Atom(name), Tree::Atom(literal)];
    let form = Tree::List(items);
    let value = eval_atom(literal, w, tape).0->Ok_0;
    assert(eval_atom(literal, w, tape) == (Ok::<ValueView, Failure>(value), w));
    assert(eval_expr(form, w, tape) == form_bind(items, false, w, tape));
    let once = w.bind(name, value);
    assert(eval_atom(literal, once, tape) == (Ok::<ValueView, Failure>(value), once));
    assert(eval_expr(form, once, tape) == form_bind(items, false, once, tape));
    assert(once.vars.insert(name, value) == once.vars);
}

/// Reading a name that nothing has bound fails, and changes nothing.
pub proof fn lemma_get_unbound(name: Seq<char>, w: World, tape: Seq<Reply>)
    requires
        !w.vars.contains_key(name),
    ensures
        eval_expr(Tree::List(seq![Tree::Atom("get"@), Tree::Atom(name)]), w, tape) == (
            Err::<ValueView, Failure>(Failure::UnboundVariable(name)),
            w,
        ),
{
    lemma_form_names();
    let items = seq![Tree::Atom("get"@), Tree::Atom(name)];
    assert(eval_expr(Tree::List(items), w, tape) == form_get(items, w));
}

/// Reading a name that is bound yields what it is bound to, and changes
/// nothing.
pub proof fn lemma_get_bound(name: Seq<char>, w: World, tape: Seq<Reply>)
    requires
        w.vars.contains_key(name),
    ensures
        eval_expr(Tree::List(seq![Tree::Atom("get"@), Tree::Atom(name)]), w, tape) == (
            Ok::<ValueView, Failure>(w.vars[name]),
            w,
        ),
{
    lemma_form_names();
    let items = seq![Tree::Atom("get"@), Tree::Atom(name)];
    assert(eval_expr(Tree::List(items), w, tape) == form_get(items, w));
}

/// A range that is empty runs its body not once: where `start` is not below
/// `end`, the loop yields nothing and leaves the world as it was.
pub proof fn lemma_count_empty_range(
    name: Seq<char>,
    body: Seq<Tree>,
    start: int,
    end: int,
    w: World,
    tape: Seq<Reply>,
)
    requires
        start >= end,
    ensures
        count_from(name, body, start, end, w, tape) == (
            Ok::<ValueView, Failure>(ValueView::Void),
            w,
        ),
{
}

/// A range that is not empty runs its body first with the variable bound to
/// `start`, and then goes on from `start + 1`; an error in the body ends the
/// loop.
pub proof fn lemma_count_first_round(
    name: Seq<char>,
    body: Seq<Tree>,
    start: int,
    end: int,
    w: World,
    tape: Seq<Reply>,
)
    requires
        start < end,
    ensures
        ({
            let round = eval_each(body, 0, w.bind(name, ValueView::Int(start as i64)), tape);
            count_from(name, body, start, end, w, tape) == match round.0 {
                Err(e) => (Err::<ValueView, Failure>(e), round.1),
                Ok(_) => count_from(name, body, start + 1, end, round.1, tape),
            }
        }),
{
}

/// The range is half open: a loop over it whose body does nothing leaves the
/// variable bound to the last integer below `end`, and changes nothing else.
pub proof fn lemma_count_last_binding(
    name: Seq<char>,
    start: int,
    end: int,
    w: World,
    tape: Seq<Reply>,
)
    requires
        i64::MIN <= start < end <= i64::MAX,
    ensures
        count_from(name, Seq::empty(), start, end, w, tape) == (
            Ok::<ValueView, Failure>(ValueView::Void),
            w.bind(name, ValueView::Int((end - 1) as i64)),
        ),
    decreases end - start,
{
    let bound = w.bind(name, ValueView::Int(start as i64));
    assert(eval_each(Seq::empty(), 0, bound, tape) == (
        Ok::<ValueView, Failure>(ValueView::Void),
        bound,
    ));
    assert(count_from(name, Seq::empty(), start, end, w, tape) == count_from(
        name,
        Seq::empty(),
        start + 1,
        end,
        bound,
        tape,
    ));
    if start + 1 < end {
        lemma_count_last_binding(name, start + 1, end, bound, tape);
        let last = ValueView::Int((end - 1) as i64);
        assert(bound.vars.insert(name, last) =~= w.vars.insert(name, last));
        assert(bound.bind(name, last) == w.bind(name, last));
    }
}

/// The remainder of two integers is an integer, and the host is not asked.
pub proof fn lemma_mod_integers(left: i64, right: i64, w: World, tape: Seq<Reply>)
    ensures
        remainder(ValueView::Int(left), ValueView::Int(right), w, tape) == (
            if int_rem_exists(left, right) {
                Ok::<ValueView, Failure>(
                    ValueView::Int(int_rem(left as int, right as int) as i64),
                )
            } else {
                Err::<ValueView, Failure>(Failure::Arithmetic)
            },
            w,
        ),
{
}

/// Beside a double an integer is widened: the host is asked for the double
/// nearest to it and then for the remainder of the two doubles, and that
/// remainder, a double, is the result.
pub proof fn lemma_mod_widens(whole: i64, bits: u64, w: World, tape: Seq<Reply>)
    ensures
        ({
            let wide = bits_of(w.answer(tape));
            let widened = w.ask(Query::Widen(whole), tape);
            &&& remainder(ValueView::Int(whole), ValueView::Float(bits), w, tape) == (
                Ok::<ValueView, Failure>(ValueView::Float(bits_of(widened.answer(tape)))),
                widened.ask(Query::Rem(wide, bits), tape),
            )
            &&& remainder(ValueView::Float(bits), ValueView::Int(whole), w, tape) == (
                Ok::<ValueView, Failure>(ValueView::Float(bits_of(widened.answer(tape)))),
                widened.ask(Query::Rem(bits, wide), tape),
            )
        }),
{
}

/// The remainder of anything but two numbers is a mismatch.
pub proof fn lemma_mod_numbers_only(left: ValueView, right: ValueView, w: World, tape: Seq<Reply>)
    requires
        !(left is Int || left is Float) || !(right is Int || right is Float),
    ensures
        remainder(left, right, w, tape) == (
            Err::<ValueView, Failure>(Failure::TypeMismatch),
            w,
        ),
{
}

/// Equality is strict: two values of different kinds are a mismatch and never
/// `false`; two of one kind are always `true` or `false`.
pub proof fn lemma_eq_strict(left: ValueView, right: ValueView)
    ensures
        kind_of(left) != kind_of(right) ==> equality(left, right) == Err::<ValueView, Failure>(
            Failure::TypeMismatch,
        ),
        kind_of(left) == kind_of(right) ==> equality(left, right) is Ok && equality(
            left,
            right,
        )->Ok_0 is Bool,
{
}

/// Without an `else` a condition that is false runs nothing: the result is
/// void and the world is as the condition left it.
pub proof fn lemma_if_without_else(condition: Tree, branch: Tree, w: World, tape: Seq<Reply>)
    requires
        eval_expr(condition, w, tape).0 == Ok::<ValueView, Failure>(ValueView::Bool(false)),
    ensures
        eval_expr(Tree::List(seq![Tree::Atom("if"@), condition, branch]), w, tape) == (
            Ok::<ValueView, Failure>(ValueView::Void),
            eval_expr(condition, w, tape).1,
        ),
{
    lemma_form_names();
    let items = seq![Tree::Atom("if"@), condition, branch];
    assert(eval_expr(Tree::List(items), w, tape) == form_if(items, w, tape));
}

/// Adding one keeps the kind: an integer gives an integer, unless it is the
/// greatest; a double gives the double that the host answers; anything else
/// is a mismatch.
pub proof fn lemma_inc_keeps_kind(value: ValueView, w: World, tape: Seq<Reply>)
    ensures
        match value {
            ValueView::Int(i) => increment(value, w, tape) == (
                if i < i64::MAX {
                    Ok::<ValueView, Failure>(ValueView::Int((i + 1) as i64))
                } else {
                    Err::<ValueView, Failure>(Failure::Arithmetic)
                },
                w,
            ),
            ValueView::Float(bits) => increment(value, w, tape) == (
                Ok::<ValueView, Failure>(ValueView::Float(bits_of(w.answer(tape)))),
                w.ask(Query::Successor(bits), tape),
            ),
            _ => increment(value, w, tape) == (
                Err::<ValueView, Failure>(Failure::TypeMismatch),
                w,
            ),
        },
{
}

} // verus!
