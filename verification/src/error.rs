//! The ways in which reading or running a script fails. Every one is fatal:
//! nothing is retried and nothing recovers.

use vstd::prelude::*;

verus! {

/// Why a text is no sequence of expressions.
#[derive(Debug, Clone, Copy, PartialEq, Eq, Structural)]
pub enum SyntaxError {
    /// A `)` with no list open.
    UnexpectedClose,
    /// The text ends inside a list.
    UnclosedList,
}

/// Why an evaluation stopped.
#[derive(Debug, PartialEq, Eq)]
pub enum EvalError {
    /// The atom is neither `true`, `false` nor a number, and stood where a
    /// literal is read.
    UnknownAtom(String),
    /// A list that is empty or does not begin with an atom was evaluated, or
    /// an argument has not the shape that its form asks for.
    MalformedForm,
    /// The first atom of a list, which is this one, names no form.
    UnknownForm(String),
    /// A form has too few or too many arguments.
    Arity,
    /// The variable of this name was read and was never bound.
    UnboundVariable(String),
    /// A value is of a kind that the form does not take.
    TypeMismatch,
    /// An integer result does not exist: a remainder by zero, or a result
    /// outside sixty-four signed bits.
    Arithmetic,
}

/// The mathematical value of an [`EvalError`].
pub enum Failure {
    UnknownAtom(Seq<char>),
    MalformedForm,
    UnknownForm(Seq<char>),
    Arity,
    UnboundVariable(Seq<char>),
    TypeMismatch,
    Arithmetic,
}

impl View for EvalError {
    type V = Failure;

    open spec fn view(&self) -> Failure {
        match self {
            EvalError::UnknownAtom(atom) => Failure::UnknownAtom(atom@),
            EvalError::MalformedForm => Failure::MalformedForm,
            EvalError::UnknownForm(name) => Failure::UnknownForm(name@),
            EvalError::Arity => Failure::Arity,
            EvalError::UnboundVariable(name) => Failure::UnboundVariable(name@),
            EvalError::TypeMismatch => Failure::TypeMismatch,
            EvalError::Arithmetic => Failure::Arithmetic,
        }
    }
}

/// Why a script stopped: it could not be read, or one of its expressions
/// failed.
#[derive(Debug, PartialEq, Eq)]
pub enum ScriptError {
    Syntax(SyntaxError),
    Eval(EvalError),
}

} // verus!
