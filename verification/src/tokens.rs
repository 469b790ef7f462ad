//! The tokens of a text, and the tokens that a tree is written with.
//!
//! A text is cut into `(`, `)` and words; a word is a longest run of
//! characters that are neither white space nor a parenthesis. A sequence of
//! trees is written as the tokens of its trees one after another, a list as
//! `(`, its items and `)`.

use vstd::prelude::*;
use crate::error::SyntaxError;
use crate::sexpr::Tree;

verus! {

/// A parenthesis or a word.
pub enum Token {
    Open,
    Close,
    Word(Seq<char>),
}

/// White space, as Unicode defines it.
pub open spec fn is_space(c: char) -> bool {
    let code = c as u32;
    ||| 0x09 <= code <= 0x0d
    ||| code == 0x20
    ||| code == 0x85
    ||| code == 0xa0
    ||| code == 0x1680
    ||| 0x2000 <= code <= 0x200a
    ||| code == 0x2028
    ||| code == 0x2029
    ||| code == 0x202f
    ||| code == 0x205f
    ||| code == 0x3000
}

/// A character that ends a word.
pub open spec fn is_delimiter(c: char) -> bool {
    c == '(' || c == ')' || is_space(c)
}

/// A text that is read as one word: not empty, and free of delimiters.
pub open spec fn is_word_text(text: Seq<char>) -> bool {
    &&& text.len() > 0
    &&& forall|i: int| 0 <= i < text.len() ==> !is_delimiter(#[trigger] text[i])
}

/// What has been read of a text: the tokens that are complete, and the
/// characters of a word that may still go on.
pub struct Lexed {
    pub tokens: Seq<Token>,
    pub word: Seq<char>,
}

/// The tokens of `lexed` once its word has ended.
pub open spec fn flush(lexed: Lexed) -> Seq<Token> {
    if lexed.word.len() == 0 {
        lexed.tokens
    } else {
        lexed.tokens.push(Token::Word(lexed.word))
    }
}

/// `before` with one more character read.
pub open spec fn lex_step(before: Lexed, c: char) -> Lexed {
    if c == '(' {
        Lexed { tokens: flush(before).push(Token::Open), word: Seq::empty() }
    } else if c == ')' {
        Lexed { tokens: flush(before).push(Token::Close), word: Seq::empty() }
    } else if is_space(c) {
        Lexed { tokens: flush(before), word: Seq::empty() }
    } else {
        Lexed { tokens: before.tokens, word: before.word.push(c) }
    }
}

/// `before` with all of `text` read after it.
pub open spec fn lex_from(before: Lexed, text: Seq<char>) -> Lexed
    decreases text.len(),
{
    if text.len() == 0 {
        before
    } else {
        lex_step(lex_from(before, text.drop_last()), text.last())
    }
}

/// What reading all of `text` leaves.
pub open spec fn lex(text: Seq<char>) -> Lexed {
    lex_from(Lexed { tokens: Seq::empty(), word: Seq::empty() }, text)
}

/// The tokens of `text`.
pub open spec fn tokens(text: Seq<char>) -> Seq<Token> {
    flush(lex(text))
}

/// The tokens that write `tree`.
pub open spec fn flatten(tree: Tree) -> Seq<Token>
    decreases tree, 0nat,
{
    match tree {
        Tree::Atom(word) => seq![Token::Word(word)],
        Tree::List(items) => seq![Token::Open] + flatten_upto(items, items.len()) + seq![
            Token::Close,
        ],
    }
}

/// The tokens that write the first `count` trees of `items`.
pub open spec fn flatten_upto(items: Seq<Tree>, count: nat) -> Seq<Token>
    decreases items, count,
{
    if count == 0 || count > items.len() {
        Seq::empty()
    } else {
        flatten_upto(items, (count - 1) as nat) + flatten(items[count - 1])
    }
}

/// The tokens that write `items`.
pub open spec fn flatten_all(items: Seq<Tree>) -> Seq<Token> {
    flatten_upto(items, items.len())
}

/// How many lists are open after `tokens`: the `(` less the `)`.
pub open spec fn depth(tokens: Seq<Token>) -> int
    decreases tokens.len(),
{
    if tokens.len() == 0 {
        0
    } else {
        depth(tokens.drop_last()) + match tokens.last() {
            Token::Open => 1int,
            Token::Close => -1int,
            Token::Word(_) => 0int,
        }
    }
}

/// Some `)` of `tokens` has no `(` before it to close.
pub open spec fn closes_unopened(tokens: Seq<Token>) -> bool {
    exists|n: int| 0 <= n <= tokens.len() && depth(#[trigger] tokens.take(n)) < 0
}

/// What keeps `tokens` from writing a sequence of trees, if anything does.
pub open spec fn defect(tokens: Seq<Token>) -> Option<SyntaxError> {
    if closes_unopened(tokens) {
        Some(SyntaxError::UnexpectedClose)
    } else if depth(tokens) > 0 {
        Some(SyntaxError::UnclosedList)
    } else {
        None
    }
}

/// Whether `c` is white space.
pub fn is_space_char(c: char) -> (space: bool)
    ensures
        space == is_space(c),
{
    let code = c as u32;
    (0x09 <= code && code <= 0x0d) || code == 0x20 || code == 0x85 || code == 0xa0 || code
        == 0x1680 || (0x2000 <= code && code <= 0x200a) || code == 0x2028 || code == 0x2029
        || code == 0x202f || code == 0x205f || code == 0x3000
}

/// The first `count` trees are written the same in any two sequences that
/// agree on them.
pub proof fn lemma_flatten_upto_same(a: Seq<Tree>, b: Seq<Tree>, count: nat)
    requires
        count <= a.len(),
        count <= b.len(),
        forall|i: int| 0 <= i < count ==> a[i] == b[i],
    ensures
        flatten_upto(a, count) == flatten_upto(b, count),
    decreases count,
{
    if count > 0 {
        lemma_flatten_upto_same(a, b, (count - 1) as nat);
    }
}

/// A sequence with one more tree is written with the tokens of that tree at
/// the end.
pub proof fn lemma_flatten_push(items: Seq<Tree>, last: Tree)
    ensures
        flatten_all(items.push(last)) == flatten_all(items) + flatten(last),
{
    lemma_flatten_upto_same(items.push(last), items, items.len());
}

/// One more token changes the depth by what the token opens or closes.
pub proof fn lemma_depth_push(tokens: Seq<Token>, last: Token)
    ensures
        depth(tokens.push(last)) == depth(tokens) + match last {
            Token::Open => 1int,
            Token::Close => -1int,
            Token::Word(_) => 0int,
        },
{
    assert(tokens.push(last).drop_last() == tokens);
}

/// No beginning of tokens that never close an unopened list does so either
/// after one more token, unless that token does.
pub proof fn lemma_never_negative_push(before: Seq<Token>, last: Token)
    requires
        !closes_unopened(before),
        depth(before.push(last)) >= 0,
    ensures
        !closes_unopened(before.push(last)),
{
    let after = before.push(last);
    assert forall|n: int| 0 <= n <= after.len() implies depth(#[trigger] after.take(n)) >= 0 by {
        if n <= before.len() {
            assert(after.take(n) == before.take(n));
        } else {
            assert(after.take(n) == after);
        }
    }
}

} // verus!
