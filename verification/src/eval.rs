//! The evaluator: it walks expression trees and changes the store, the
//! printed lines and the record of the host's answers as it goes.

use vstd::prelude::*;
use crate::env::Environment;
use crate::error::{EvalError, ScriptError};
use crate::floats::{
    agrees, extends, lemma_agrees_earlier, lemma_agrees_last, lemma_extends_twice, FloatArith,
    FloatUnit, Reply,
};
use crate::number::parse_int;
use crate::parser::Parser;
use crate::reading::read_back;
use crate::semantics::{
    count_from, equality, eval_atom, eval_branch, eval_each, eval_expr, form_bind, form_count,
    form_eq, form_format, form_get, form_if, form_inc, form_mod, increment, is_word, print_from,
    remainder, texts_from, Outcome, World,
};
use crate::sexpr::{forest_view, SExpr, Tree};
use crate::template::{fill_template, texts_view};
use crate::text::{chars_of, same_text};
use crate::tokens::{defect, tokens};
use crate::value::{checked_int_rem, Value, ValueView};

verus! {

broadcast use {lemma_agrees_earlier, lemma_agrees_last, lemma_extends_twice};

/// An interpreter: the store of variables, the lines printed and not yet
/// taken, and the host that does the arithmetic on doubles.
pub struct Interpreter<F: FloatArith> {
    env: Environment,
    output: Vec<String>,
    floats: FloatUnit<F>,
}

impl<F: FloatArith> View for Interpreter<F> {
    type V = World;

    closed spec fn view(&self) -> World {
        World { vars: self.env@, printed: texts_view(self.output@), heard: self.floats.heard() }
    }
}

/// What a run came to, for a script that could be read: nothing, or the
/// error of the expression that failed.
pub open spec fn script_outcome(result: Result<(), ScriptError>) -> Outcome
    recommends
        !(result matches Err(ScriptError::Syntax(_))),
{
    match result {
        Err(ScriptError::Eval(e)) => Err(e@),
        _ => Ok(ValueView::Void),
    }
}

/// The mathematical value of what an evaluation returns.
pub open spec fn outcome_view(result: Result<Value, EvalError>) -> Outcome {
    match result {
        Ok(value) => Ok(value@),
        Err(e) => Err(e@),
    }
}

impl<F: FloatArith> Interpreter<F> {
    /// An interpreter with nothing bound and nothing printed, whose host has
    /// not been asked anything.
    pub fn new(host: F) -> (interpreter: Self)
        ensures
            interpreter@ == (World {
                vars: Map::empty(),
                printed: Seq::empty(),
                heard: Seq::empty(),
            }),
    {
        let interpreter = Interpreter {
            env: Environment::new(),
            output: Vec::new(),
            floats: FloatUnit::new(host),
        };
        assert(texts_view(interpreter.output@) =~= Seq::<Seq<char>>::empty());
        interpreter
    }

    /// The lines printed so far, oldest first.
    pub fn output(&self) -> (lines: &Vec<String>)
        ensures
            texts_view(lines@) == self@.printed,
    {
        &self.output
    }

    /// Hands over the lines printed so far and starts anew with none.
    pub fn take_output(&mut self) -> (lines: Vec<String>)
        ensures
            texts_view(lines@) == old(self)@.printed,
            final(self)@ == (World { printed: Seq::empty(), ..old(self)@ }),
    {
        let mut lines: Vec<String> = Vec::new();
        std::mem::swap(&mut self.output, &mut lines);
        assert(texts_view(self.output@) =~= Seq::<Seq<char>>::empty());
        lines
    }

    /// The value bound to `name`, or `None` where it is unbound.
    pub fn lookup(&self, name: &String) -> (value: Option<Value>)
        ensures
            match value {
                Some(held) => self@.vars.contains_key(name@) && held@ == self@.vars[name@],
                None => !self@.vars.contains_key(name@),
            },
    {
        self.env.get(name)
    }

    /// Reads an atom as a literal.
    pub fn eval_atom(&mut self, atom: &String) -> (result: Result<Value, EvalError>)
        ensures
            extends(final(self)@.heard, old(self)@.heard),
            forall|tape: Seq<Reply>| #[trigger]
                agrees(final(self)@.heard, tape) ==> eval_atom(atom@, old(self)@, tape) == (
                    outcome_view(result),
                    final(self)@,
                ),
    {
        if same_text(atom.as_str(), "true") {
            return Ok(Value::Bool(true));
        }
        if same_text(atom.as_str(), "false") {
            return Ok(Value::Bool(false));
        }
        let chars = chars_of(atom.as_str());
        match parse_int(&chars) {
            Some(i) => Ok(Value::Int(i)),
            None => match self.floats.parse(atom.as_str()) {
                Some(bits) => Ok(Value::Float(bits)),
                None => Err(EvalError::UnknownAtom(atom.clone())),
            },
        }
    }

    /// Evaluates an expression.
    pub fn eval(&mut self, sexpr: &SExpr) -> (result: Result<Value, EvalError>)
        ensures
            extends(final(self)@.heard, old(self)@.heard),
            forall|tape: Seq<Reply>| #[trigger]
                agrees(final(self)@.heard, tape) ==> eval_expr(sexpr@, old(self)@, tape) == (
                    outcome_view(result),
                    final(self)@,
                ),
        decreases sexpr, 0nat, 0nat,
    {
        match sexpr {
            SExpr::Atom(atom) => {
                assert(sexpr@ == Tree::Atom(atom@));
                self.eval_atom(atom)
            },
            SExpr::List(list) => {
                assert(sexpr@ == Tree::List(forest_view(list)));
                assert(forall|i: int| 0 <= i < list.len() ==> forest_view(list)[i] == list[i]@);
                if list.len() == 0 {
                    return Err(EvalError::MalformedForm);
                }
                let name = match &list[0] {
                    SExpr::Atom(atom) => atom,
                    SExpr::List(_) => {
                        return Err(EvalError::MalformedForm);
                    },
                };
                assert(list[0]@ == Tree::Atom(name@));
                if same_text(name.as_str(), "print") {
                    self.print_from(list, 1)
                } else if same_text(name.as_str(), "format") {
                    self.form_format(list)
                } else if same_text(name.as_str(), "let") {
                    self.form_bind(list, false)
                } else if same_text(name.as_str(), "set") {
                    self.form_bind(list, true)
                } else if same_text(name.as_str(), "get") {
                    self.form_get(list)
                } else if same_text(name.as_str(), "inc") {
                    self.form_inc(list)
                } else if same_text(name.as_str(), "mod") {
                    self.form_mod(list)
                } else if same_text(name.as_str(), "eq") {
                    self.form_eq(list)
                } else if same_text(name.as_str(), "if") {
                    self.form_if(list)
                } else if same_text(name.as_str(), "count") {
                    self.form_count(list)
                } else {
                    Err(EvalError::UnknownForm(name.clone()))
                }
            },
        }
    }

    /// Evaluates the expressions of `list` in order and drops their values.
    pub fn eval_list(&mut self, list: &Vec<SExpr>) -> (result: Result<Value, EvalError>)
        ensures
            extends(final(self)@.heard, old(self)@.heard),
            forall|tape: Seq<Reply>| #[trigger]
                agrees(final(self)@.heard, tape) ==> eval_each(
                    forest_view(list),
                    0,
                    old(self)@,
                    tape,
                ) == (outcome_view(result), final(self)@),
            result matches Ok(value) ==> value@ == ValueView::Void,
        decreases list, 0nat, list.len() + 1,
    {
        let ghost before = self@;
        let ghost items = forest_view(list);
        let mut at: usize = 0;
        while at < list.len()
            invariant
                at <= list.len(),
                before == old(self)@,
                items == forest_view(list),
                extends(self@.heard, before.heard),
                forall|tape: Seq<Reply>| #[trigger]
                    agrees(self@.heard, tape) ==> eval_each(items, 0, before, tape) == eval_each(
                        items,
                        at as nat,
                        self@,
                        tape,
                    ),
            decreases list.len() - at,
        {
            match self.eval(&list[at]) {
                Err(e) => {
                    return Err(e);
                },
                Ok(_) => {},
            }
            at += 1;
        }
        Ok(Value::Void)
    }

    /// Evaluates the arguments of `print` from `from` on and prints each.
    fn print_from(&mut self, list: &Vec<SExpr>, from: usize) -> (result: Result<Value, EvalError>)
        requires
            from <= list.len(),
        ensures
            extends(final(self)@.heard, old(self)@.heard),
            forall|tape: Seq<Reply>| #[trigger]
                agrees(final(self)@.heard, tape) ==> print_from(
                    forest_view(list),
                    from as nat,
                    old(self)@,
                    tape,
                ) == (outcome_view(result), final(self)@),
        decreases list, 0nat, list.len() + 1,
    {
        let ghost before = self@;
        let ghost items = forest_view(list);
        let mut at: usize = from;
        while at < list.len()
            invariant
                from <= at <= list.len(),
                before == old(self)@,
                items == forest_view(list),
                extends(self@.heard, before.heard),
                forall|tape: Seq<Reply>| #[trigger]
                    agrees(self@.heard, tape) ==> print_from(items, from as nat, before, tape)
                        == print_from(items, at as nat, self@, tape),
            decreases list.len() - at,
        {
            let value = match self.eval(&list[at]) {
                Err(e) => {
                    return Err(e);
                },
                Ok(value) => value,
            };
            let line = value.render(&mut self.floats);
            let ghost rendered = self@;
            self.output.push(line);
            proof {
                assert(texts_view(self.output@) =~= rendered.printed.push(line@));
            }
            at += 1;
        }
        Ok(Value::Void)
    }

    /// Reads `text` as a script and evaluates its expressions in order. A
    /// text that cannot be read changes nothing; an expression that fails
    /// ends the run, and what was done before it stays done.
    pub fn run(&mut self, text: &str) -> (result: Result<(), ScriptError>)
        ensures
            extends(final(self)@.heard, old(self)@.heard),
            match defect(tokens(text@)) {
                Some(e) => result == Err::<(), ScriptError>(ScriptError::Syntax(e)) && final(self)@
                    == old(self)@,
                None => {
                    &&& !(result matches Err(ScriptError::Syntax(_)))
                    &&& forall|tape: Seq<Reply>| #[trigger]
                        agrees(final(self)@.heard, tape) ==> eval_each(
                            read_back(tokens(text@)),
                            0,
                            old(self)@,
                            tape,
                        ) == (script_outcome(result), final(self)@)
                },
            },
    {
        let parser = Parser::new(text);
        match parser.parse() {
            Err(e) => Err(ScriptError::Syntax(e)),
            Ok(trees) => {
                assert(forest_view(&trees) == read_back(tokens(text@)));
                match self.eval_list(&trees) {
                    Ok(_) => Ok(()),
                    Err(e) => Err(ScriptError::Eval(e)),
                }
            },
        }
    }

    /// Adds one to a number.
    pub fn increment(&mut self, value: &Value) -> (result: Result<Value, EvalError>)
        ensures
            extends(final(self)@.heard, old(self)@.heard),
            forall|tape: Seq<Reply>| #[trigger]
                agrees(final(self)@.heard, tape) ==> increment(value@, old(self)@, tape) == (
                    outcome_view(result),
                    final(self)@,
                ),
    {
        match value {
            Value::Int(i) => match i.checked_add(1) {
                Some(next) => Ok(Value::Int(next)),
                None => Err(EvalError::Arithmetic),
            },
            Value::Float(bits) => Ok(Value::Float(self.floats.successor(*bits))),
            _ => Err(EvalError::TypeMismatch),
        }
    }

    /// Takes the remainder of two numbers.
    pub fn remainder(&mut self, left: &Value, right: &Value) -> (result: Result<Value, EvalError>)
        ensures
            extends(final(self)@.heard, old(self)@.heard),
            forall|tape: Seq<Reply>| #[trigger]
                agrees(final(self)@.heard, tape) ==> remainder(left@, right@, old(self)@, tape)
                    == (outcome_view(result), final(self)@),
    {
        match (left, right) {
            (Value::Int(l), Value::Int(r)) => match checked_int_rem(*l, *r) {
                Some(rest) => Ok(Value::Int(rest)),
                None => Err(EvalError::Arithmetic),
            },
            (Value::Float(l), Value::Float(r)) => Ok(Value::Float(self.floats.rem(*l, *r))),
            (Value::Int(l), Value::Float(r)) => {
                let wide = self.floats.widen(*l);
                Ok(Value::Float(self.floats.rem(wide, *r)))
            },
            (Value::Float(l), Value::Int(r)) => {
                let wide = self.floats.widen(*r);
                Ok(Value::Float(self.floats.rem(*l, wide)))
            },
            _ => Err(EvalError::TypeMismatch),
        }
    }

    /// `(format template argument ...)`
    fn form_format(&mut self, list: &Vec<SExpr>) -> (result: Result<Value, EvalError>)
        ensures
            extends(final(self)@.heard, old(self)@.heard),
            forall|tape: Seq<Reply>| #[trigger]
                agrees(final(self)@.heard, tape) ==> form_format(
                    forest_view(list),
                    old(self)@,
                    tape,
                ) == (outcome_view(result), final(self)@),
        decreases list, 1nat, 0nat,
    {
        if list.len() < 2 {
            return Err(EvalError::Arity);
        }
        let template = match &list[1] {
            SExpr::Atom(atom) => atom,
            SExpr::List(_) => {
                return Err(EvalError::MalformedForm);
            },
        };
        assert(list[1]@ == Tree::Atom(template@));
        let ghost before = self@;
        let ghost items = forest_view(list);
        let mut texts: Vec<String> = Vec::new();
        assert(texts_view(texts@) =~= Seq::<Seq<char>>::empty());
        let mut at: usize = 2;
        while at < list.len()
            invariant
                2 <= at <= list.len(),
                before == old(self)@,
                items == forest_view(list),
                items[1] == Tree::Atom(template@),
                extends(self@.heard, before.heard),
                forall|tape: Seq<Reply>| #[trigger]
                    agrees(self@.heard, tape) ==> texts_from(
                        items,
                        2,
                        Seq::empty(),
                        before,
                        tape,
                    ) == texts_from(items, at as nat, texts_view(texts@), self@, tape),
            decreases list.len() - at,
        {
            let value = match self.eval(&list[at]) {
                Err(e) => {
                    return Err(e);
                },
                Ok(value) => value,
            };
            let ghost gathered = texts_view(texts@);
            let text = value.render(&mut self.floats);
            texts.push(text);
            proof {
                assert(texts_view(texts@) =~= gathered.push(text@));
            }
            at += 1;
        }
        Ok(Value::String(fill_template(template, &texts)))
    }

    /// `(let name value)` and, with `yields`, `(set name value)`
    fn form_bind(&mut self, list: &Vec<SExpr>, yields: bool) -> (result: Result<Value, EvalError>)
        ensures
            extends(final(self)@.heard, old(self)@.heard),
            forall|tape: Seq<Reply>| #[trigger]
                agrees(final(self)@.heard, tape) ==> form_bind(
                    forest_view(list),
                    yields,
                    old(self)@,
                    tape,
                ) == (outcome_view(result), final(self)@),
        decreases list, 1nat, 0nat,
    {
        if list.len() < 2 {
            return Err(EvalError::Arity);
        }
        let name = match &list[1] {
            SExpr::Atom(atom) => atom,
            SExpr::List(_) => {
                return Err(EvalError::MalformedForm);
            },
        };
        assert(list[1]@ == Tree::Atom(name@));
        if list.len() != 3 {
            return Err(EvalError::Arity);
        }
        let value = match self.eval(&list[2]) {
            Err(e) => {
                return Err(e);
            },
            Ok(value) => value,
        };
        if yields {
            self.env.insert(name, value.clone());
            Ok(value)
        } else {
            self.env.insert(name, value);
            Ok(Value::Void)
        }
    }

    /// `(get name)`
    fn form_get(&mut self, list: &Vec<SExpr>) -> (result: Result<Value, EvalError>)
        ensures
            final(self)@ == old(self)@,
            form_get(forest_view(list), old(self)@) == (outcome_view(result), final(self)@),
    {
        if list.len() < 2 {
            return Err(EvalError::Arity);
        }
        let name = match &list[1] {
            SExpr::Atom(atom) => atom,
            SExpr::List(_) => {
                return Err(EvalError::MalformedForm);
            },
        };
        assert(list[1]@ == Tree::Atom(name@));
        if list.len() != 2 {
            return Err(EvalError::Arity);
        }
        match self.env.get(name) {
            Some(value) => Ok(value),
            None => Err(EvalError::UnboundVariable(name.clone())),
        }
    }

    /// `(inc name)`
    fn form_inc(&mut self, list: &Vec<SExpr>) -> (result: Result<Value, EvalError>)
        ensures
            extends(final(self)@.heard, old(self)@.heard),
            forall|tape: Seq<Reply>| #[trigger]
                agrees(final(self)@.heard, tape) ==> form_inc(forest_view(list), old(self)@, tape)
                    == (outcome_view(result), final(self)@),
    {
        if list.len() < 2 {
            return Err(EvalError::Arity);
        }
        let name = match &list[1] {
            SExpr::Atom(atom) => atom,
            SExpr::List(_) => {
                return Err(EvalError::MalformedForm);
            },
        };
        assert(list[1]@ == Tree::Atom(name@));
        if list.len() != 2 {
            return Err(EvalError::Arity);
        }
        let held = match self.env.get(name) {
            Some(value) => value,
            None => {
                return Err(EvalError::UnboundVariable(name.clone()));
            },
        };
        let next = match self.increment(&held) {
            Err(e) => {
                return Err(e);
            },
            Ok(next) => next,
        };
        self.env.insert(name, next.clone());
        Ok(next)
    }

    /// `(mod left right)`
    fn form_mod(&mut self, list: &Vec<SExpr>) -> (result: Result<Value, EvalError>)
        ensures
            extends(final(self)@.heard, old(self)@.heard),
            forall|tape: Seq<Reply>| #[trigger]
                agrees(final(self)@.heard, tape) ==> form_mod(forest_view(list), old(self)@, tape)
                    == (outcome_view(result), final(self)@),
        decreases list, 1nat, 0nat,
    {
        if list.len() < 2 {
            return Err(EvalError::Arity);
        }
        let left = match self.eval(&list[1]) {
            Err(e) => {
                return Err(e);
            },
            Ok(value) => value,
        };
        if list.len() < 3 {
            return Err(EvalError::Arity);
        }
        let right = match self.eval(&list[2]) {
            Err(e) => {
                return Err(e);
            },
            Ok(value) => value,
        };
        if list.len() != 3 {
            return Err(EvalError::Arity);
        }
        self.remainder(&left, &right)
    }

    /// `(eq left right)`
    fn form_eq(&mut self, list: &Vec<SExpr>) -> (result: Result<Value, EvalError>)
        ensures
            extends(final(self)@.heard, old(self)@.heard),
            forall|tape: Seq<Reply>| #[trigger]
                agrees(final(self)@.heard, tape) ==> form_eq(forest_view(list), old(self)@, tape)
                    == (outcome_view(result), final(self)@),
        decreases list, 1nat, 0nat,
    {
        if list.len() < 2 {
            return Err(EvalError::Arity);
        }
        let left = match self.eval(&list[1]) {
            Err(e) => {
                return Err(e);
            },
            Ok(value) => value,
        };
        if list.len() < 3 {
            return Err(EvalError::Arity);
        }
        let right = match self.eval(&list[2]) {
            Err(e) => {
                return Err(e);
            },
            Ok(value) => value,
        };
        if list.len() != 3 {
            return Err(EvalError::Arity);
        }
        match left.equals(&right) {
            Some(same) => Ok(Value::Bool(same)),
            None => Err(EvalError::TypeMismatch),
        }
    }

    /// A branch of `if`.
    fn eval_branch(&mut self, branch: &SExpr) -> (result: Result<Value, EvalError>)
        ensures
            extends(final(self)@.heard, old(self)@.heard),
            forall|tape: Seq<Reply>| #[trigger]
                agrees(final(self)@.heard, tape) ==> eval_branch(branch@, old(self)@, tape) == (
                    outcome_view(result),
                    final(self)@,
                ),
        decreases branch, 1nat, 0nat,
    {
        match branch {
            SExpr::List(statements) => {
                assert(branch@ == Tree::List(forest_view(statements)));
                self.eval_list(statements)
            },
            SExpr::Atom(atom) => {
                assert(branch@ == Tree::Atom(atom@));
                self.eval_atom(atom)
            },
        }
    }

    /// `(if condition branch)` and `(if condition branch else branch)`
    fn form_if(&mut self, list: &Vec<SExpr>) -> (result: Result<Value, EvalError>)
        ensures
            extends(final(self)@.heard, old(self)@.heard),
            forall|tape: Seq<Reply>| #[trigger]
                agrees(final(self)@.heard, tape) ==> form_if(forest_view(list), old(self)@, tape)
                    == (outcome_view(result), final(self)@),
        decreases list, 1nat, 0nat,
    {
        if list.len() < 2 {
            return Err(EvalError::Arity);
        }
        let condition = match self.eval(&list[1]) {
            Err(e) => {
                return Err(e);
            },
            Ok(value) => value,
        };
        let holds = match condition {
            Value::Bool(holds) => holds,
            _ => {
                return Err(EvalError::TypeMismatch);
            },
        };
        let has_else = if list.len() == 3 {
            false
        } else if list.len() == 5 && is_atom(&list[3], "else") {
            true
        } else {
            return Err(EvalError::Arity);
        };
        if holds {
            self.eval_branch(&list[2])
        } else if has_else {
            self.eval_branch(&list[4])
        } else {
            Ok(Value::Void)
        }
    }

    /// `(count name from start to end body)`
    fn form_count(&mut self, list: &Vec<SExpr>) -> (result: Result<Value, EvalError>)
        ensures
            extends(final(self)@.heard, old(self)@.heard),
            forall|tape: Seq<Reply>| #[trigger]
                agrees(final(self)@.heard, tape) ==> form_count(
                    forest_view(list),
                    old(self)@,
                    tape,
                ) == (outcome_view(result), final(self)@),
        decreases list, 2nat, 0nat,
    {
        if list.len() < 2 {
            return Err(EvalError::Arity);
        }
        let name = match &list[1] {
            SExpr::Atom(atom) => atom,
            SExpr::List(_) => {
                return Err(EvalError::MalformedForm);
            },
        };
        assert(list[1]@ == Tree::Atom(name@));
        if list.len() < 3 {
            return Err(EvalError::Arity);
        }
        if !is_atom(&list[2], "from") {
            return Err(EvalError::MalformedForm);
        }
        if list.len() < 4 {
            return Err(EvalError::Arity);
        }
        let start = match self.eval(&list[3]) {
            Err(e) => {
                return Err(e);
            },
            Ok(Value::Int(start)) => start,
            Ok(_) => {
                return Err(EvalError::TypeMismatch);
            },
        };
        if list.len() < 5 {
            return Err(EvalError::Arity);
        }
        if !is_atom(&list[4], "to") {
            return Err(EvalError::MalformedForm);
        }
        if list.len() < 6 {
            return Err(EvalError::Arity);
        }
        let end = match self.eval(&list[5]) {
            Err(e) => {
                return Err(e);
            },
            Ok(Value::Int(end)) => end,
            Ok(_) => {
                return Err(EvalError::TypeMismatch);
            },
        };
        if list.len() != 7 {
            return Err(EvalError::Arity);
        }
        let body = match &list[6] {
            SExpr::List(body) => body,
            SExpr::Atom(_) => {
                assert(list[6]@ is Atom);
                return Err(EvalError::MalformedForm);
            },
        };
        assert(list[6]@ == Tree::List(forest_view(body)));
        assert(decreases_to!(list => list[6]));
        assert(decreases_to!(list[6] => body));
        let ghost before = old(self)@;
        let ghost items = forest_view(list);
        let ghost statements = forest_view(body);
        let mut next: i64 = start;
        while next < end
            invariant
                before == old(self)@,
                extends(self@.heard, before.heard),
                forall|tape: Seq<Reply>| #[trigger]
                    agrees(self@.heard, tape) ==> form_count(items, before, tape) == count_from(
                        name@,
                        statements,
                        next as int,
                        end as int,
                        self@,
                        tape,
                    ),
                items == forest_view(list),
                statements == forest_view(body),
                decreases_to!(list => body),
            decreases end - next,
        {
            self.env.insert(name, Value::Int(next));
            match self.eval_list(body) {
                Err(e) => {
                    return Err(e);
                },
                Ok(_) => {},
            }
            next += 1;
        }
        Ok(Value::Void)
    }
}

/// Whether `sexpr` is the atom `word`.
fn is_atom(sexpr: &SExpr, word: &str) -> (same: bool)
    ensures
        same == is_word(sexpr@, word@),
{
    match sexpr {
        SExpr::Atom(atom) => same_text(atom.as_str(), word),
        SExpr::List(_) => false,
    }
}

} // verus!
