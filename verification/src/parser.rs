//! The parser: from a text to the trees that it writes.

use vstd::prelude::*;
use crate::error::SyntaxError;
use crate::reading::{lemma_read_back, read_back};
use crate::sexpr::{forest_view, SExpr, Tree};
use crate::text::{chars_of, string_of};
use crate::tokens::{
    closes_unopened, defect, depth, flatten, flatten_all, flush, is_space_char, lemma_depth_push,
    lemma_flatten_push, lemma_never_negative_push, lex, lex_step, tokens, Lexed, Token,
};

verus! {

/// A parser over one text.
pub struct Parser {
    chars: Vec<char>,
}

impl View for Parser {
    type V = Seq<char>;

    closed spec fn view(&self) -> Seq<char> {
        self.chars@
    }
}

/// The trees of each list that is open, outermost first.
pub open spec fn frames_view(stack: Seq<Vec<SExpr>>) -> Seq<Seq<Tree>> {
    Seq::new(stack.len(), |k: int| forest_view(&stack[k]))
}

/// The tokens that wrote the first `count` open lists as far as they have
/// been read: for each its `(` after the trees of the list around it.
pub open spec fn open_tokens(frames: Seq<Seq<Tree>>, count: nat) -> Seq<Token>
    decreases count,
{
    if count == 0 || count > frames.len() {
        Seq::empty()
    } else {
        open_tokens(frames, (count - 1) as nat) + flatten_all(frames[count - 1]) + seq![
            Token::Open,
        ]
    }
}

proof fn lemma_open_tokens_same(a: Seq<Seq<Tree>>, b: Seq<Seq<Tree>>, count: nat)
    requires
        count <= a.len(),
        count <= b.len(),
        forall|i: int| 0 <= i < count ==> a[i] == b[i],
    ensures
        open_tokens(a, count) == open_tokens(b, count),
    decreases count,
{
    if count > 0 {
        lemma_open_tokens_same(a, b, (count - 1) as nat);
    }
}

/// The tokens that wrote the open lists `frames` and, in the innermost of
/// them, `trees`.
pub open spec fn written(frames: Seq<Seq<Tree>>, trees: Seq<Tree>) -> Seq<Token> {
    open_tokens(frames, frames.len()) + flatten_all(trees)
}

/// `read` are the tokens of a text as far as it has been read, and they have
/// left the lists `frames` open with `trees` in the innermost.
pub open spec fn reads(read: Seq<Token>, frames: Seq<Seq<Tree>>, trees: Seq<Tree>) -> bool {
    &&& read == written(frames, trees)
    &&& depth(read) == frames.len()
    &&& !closes_unopened(read)
}

proof fn lemma_reads_nothing()
    ensures
        reads(Seq::empty(), Seq::empty(), Seq::empty()),
{
    let none = Seq::<Token>::empty();
    assert(written(Seq::empty(), Seq::empty()) == none);
    assert forall|n: int| 0 <= n <= none.len() implies depth(#[trigger] none.take(n)) >= 0 by {}
}

/// A word adds an atom to the innermost list.
proof fn lemma_reads_word(
    read: Seq<Token>,
    frames: Seq<Seq<Tree>>,
    trees: Seq<Tree>,
    word: Seq<char>,
)
    requires
        reads(read, frames, trees),
    ensures
        reads(read.push(Token::Word(word)), frames, trees.push(Tree::Atom(word))),
{
    lemma_flatten_push(trees, Tree::Atom(word));
    lemma_depth_push(read, Token::Word(word));
    lemma_never_negative_push(read, Token::Word(word));
    assert(open_tokens(frames, frames.len()) + (flatten_all(trees) + seq![Token::Word(word)])
        == (open_tokens(frames, frames.len()) + flatten_all(trees)).push(Token::Word(word)));
}

/// A `(` opens a list inside the innermost one.
proof fn lemma_reads_open(read: Seq<Token>, frames: Seq<Seq<Tree>>, trees: Seq<Tree>)
    requires
        reads(read, frames, trees),
    ensures
        reads(read.push(Token::Open), frames.push(trees), Seq::empty()),
{
    let deeper = frames.push(trees);
    lemma_open_tokens_same(deeper, frames, frames.len());
    lemma_depth_push(read, Token::Open);
    lemma_never_negative_push(read, Token::Open);
    assert(deeper[frames.len() as int] == trees);
    assert(open_tokens(deeper, deeper.len()) == open_tokens(deeper, frames.len()) + flatten_all(
        trees,
    ) + seq![Token::Open]);
    assert(flatten_all(Seq::<Tree>::empty()) == Seq::<Token>::empty());
    assert(open_tokens(deeper, deeper.len()) + Seq::<Token>::empty() == open_tokens(
        deeper,
        deeper.len(),
    ));
    assert(open_tokens(frames, frames.len()) + flatten_all(trees) + seq![Token::Open] == (
    open_tokens(frames, frames.len()) + flatten_all(trees)).push(Token::Open));
}

/// A `)` ends the innermost list, which becomes a tree of the list around it.
proof fn lemma_reads_close(read: Seq<Token>, frames: Seq<Seq<Tree>>, trees: Seq<Tree>)
    requires
        reads(read, frames, trees),
        frames.len() > 0,
    ensures
        reads(
            read.push(Token::Close),
            frames.drop_last(),
            frames.last().push(Tree::List(trees)),
        ),
{
    let fewer = frames.drop_last();
    let around = frames.last();
    lemma_open_tokens_same(fewer, frames, fewer.len());
    lemma_flatten_push(around, Tree::List(trees));
    lemma_depth_push(read, Token::Close);
    lemma_never_negative_push(read, Token::Close);
    let outer = open_tokens(fewer, fewer.len());
    assert(open_tokens(frames, frames.len()) == outer + flatten_all(around) + seq![Token::Open]);
    assert(flatten(Tree::List(trees)) == seq![Token::Open] + flatten_all(trees) + seq![
        Token::Close,
    ]);
    assert(outer + (flatten_all(around) + (seq![Token::Open] + flatten_all(trees) + seq![
        Token::Close,
    ])) == (outer + flatten_all(around) + seq![Token::Open] + flatten_all(trees)).push(
        Token::Close,
    ));
}

/// With no list open a `)` closes an unopened one.
proof fn lemma_reads_unopened(read: Seq<Token>, trees: Seq<Tree>, whole: Seq<Token>)
    requires
        reads(read, Seq::empty(), trees),
        read.len() < whole.len(),
        whole.take(read.len() as int + 1) == read.push(Token::Close),
    ensures
        closes_unopened(whole),
{
    lemma_depth_push(read, Token::Close);
}

/// What has been read of the beginning of a text stays the beginning of the
/// tokens of the whole text.
proof fn lemma_lexed_is_beginning(text: Seq<char>, read: int)
    requires
        0 <= read <= text.len(),
    ensures
        lex(text.take(read)).tokens.len() <= tokens(text).len(),
        tokens(text).take(lex(text.take(read)).tokens.len() as int) == lex(text.take(read)).tokens,
        flush(lex(text.take(read))).len() <= tokens(text).len() || read == text.len(),
    decreases text.len() - read,
{
    if read == text.len() {
        assert(text.take(read) == text);
    } else {
        lemma_lexed_is_beginning(text, read + 1);
        assert(text.take(read + 1).drop_last() == text.take(read));
        let before = lex(text.take(read));
        let after = lex(text.take(read + 1));
        assert(after == lex_step(before, text[read]));
        assert(after.tokens.take(before.tokens.len() as int) == before.tokens);
        assert(tokens(text).take(after.tokens.len() as int).take(before.tokens.len() as int)
            == tokens(text).take(before.tokens.len() as int));
    }
}

impl Parser {
    /// A parser over `text`.
    pub fn new(text: &str) -> (parser: Self)
        ensures
            parser@ == text@,
    {
        Parser { chars: chars_of(text) }
    }

    /// Reads the text as a sequence of trees. It succeeds exactly where every
    /// `)` closes a list and no list is left open, and the trees are then
    /// those that the tokens of the text write, which are those that the
    /// tokens are read back as. Otherwise the error says which of the two went
    /// wrong, an unopened `)` coming first.
    pub fn parse(&self) -> (result: Result<Vec<SExpr>, SyntaxError>)
        ensures
            match result {
                Ok(trees) => {
                    &&& defect(tokens(self@)) is None
                    &&& flatten_all(forest_view(&trees)) == tokens(self@)
                    &&& forest_view(&trees) == read_back(tokens(self@))
                },
                Err(e) => defect(tokens(self@)) == Some(e),
            },
    {
        let ghost text = self.chars@;
        let mut stack: Vec<Vec<SExpr>> = Vec::new();
        let mut current: Vec<SExpr> = Vec::new();
        let mut word_start: usize = 0;
        let mut at: usize = 0;
        proof {
            assert(text.take(0) == Seq::<char>::empty());
            assert(text.subrange(0, 0) == Seq::<char>::empty());
            lemma_reads_nothing();
            assert(frames_view(stack@) == Seq::<Seq<Tree>>::empty());
            assert(forest_view(&current) == Seq::<Tree>::empty());
        }
        while at < self.chars.len()
            invariant
                text == self.chars@,
                word_start <= at <= text.len(),
                lex(text.take(at as int)).word == text.subrange(word_start as int, at as int),
                reads(lex(text.take(at as int)).tokens, frames_view(stack@), forest_view(&current)),
            decreases text.len() - at,
        {
            let c = self.chars[at];
            let ghost before = lex(text.take(at as int));
            let ghost after = lex(text.take(at + 1));
            proof {
                assert(text.take(at + 1).drop_last() == text.take(at as int));
                assert(after == lex_step(before, c));
            }
            if c == '(' || c == ')' || is_space_char(c) {
                end_word(
                    &self.chars,
                    word_start,
                    at,
                    &mut current,
                    Ghost(before),
                    Ghost(frames_view(stack@)),
                );
                if c == '(' {
                    open_list(&mut stack, &mut current, Ghost(flush(before)));
                } else if c == ')' {
                    let ghost frames = frames_view(stack@);
                    let ghost trees = forest_view(&current);
                    if !close_list(&mut stack, &mut current, Ghost(flush(before))) {
                        proof {
                            assert(frames == Seq::<Seq<Tree>>::empty());
                            lemma_lexed_is_beginning(text, at + 1);
                            lemma_reads_unopened(flush(before), trees, tokens(text));
                        }
                        return Err(SyntaxError::UnexpectedClose);
                    }
                }
                word_start = at + 1;
                assert(text.subrange(at + 1, at + 1) == Seq::<char>::empty());
            } else {
                assert(text.subrange(word_start as int, at + 1) == text.subrange(
                    word_start as int,
                    at as int,
                ).push(c));
            }
            at += 1;
        }
        assert(text.take(at as int) == text);
        end_word(&self.chars, word_start, at, &mut current, Ghost(lex(text)), Ghost(frames_view(stack@)));
        if stack.len() > 0 {
            Err(SyntaxError::UnclosedList)
        } else {
            proof {
                assert(open_tokens(frames_view(stack@), 0) + flatten_all(forest_view(&current))
                    == flatten_all(forest_view(&current)));
                lemma_read_back(forest_view(&current));
            }
            Ok(current)
        }
    }
}

/// Ends the word that began at `word_start`, if `at` is past it: the word
/// becomes an atom of the innermost list.
fn end_word(
    chars: &Vec<char>,
    word_start: usize,
    at: usize,
    current: &mut Vec<SExpr>,
    Ghost(before): Ghost<Lexed>,
    Ghost(frames): Ghost<Seq<Seq<Tree>>>,
)
    requires
        word_start <= at <= chars.len(),
        before.word == chars@.subrange(word_start as int, at as int),
        reads(before.tokens, frames, forest_view(old(current))),
    ensures
        reads(flush(before), frames, forest_view(final(current))),
{
    if word_start < at {
        let ghost trees = forest_view(current);
        let word = string_of(chars, word_start, at);
        current.push(SExpr::Atom(word));
        proof {
            assert(forest_view(current) == trees.push(Tree::Atom(before.word)));
            lemma_reads_word(before.tokens, frames, trees, before.word);
        }
    }
}

/// Opens a list inside the innermost one.
fn open_list(stack: &mut Vec<Vec<SExpr>>, current: &mut Vec<SExpr>, Ghost(read): Ghost<Seq<Token>>)
    requires
        reads(read, frames_view(old(stack)@), forest_view(old(current))),
    ensures
        reads(read.push(Token::Open), frames_view(final(stack)@), forest_view(final(current))),
{
    let ghost frames = frames_view(stack@);
    let ghost trees = forest_view(current);
    let mut around: Vec<SExpr> = Vec::new();
    std::mem::swap(current, &mut around);
    stack.push(around);
    proof {
        lemma_reads_open(read, frames, trees);
        assert(frames_view(stack@) == frames.push(trees));
        assert(forest_view(current) == Seq::<Tree>::empty());
    }
}

/// Ends the innermost list and makes it a tree of the list around it. Where no
/// list is open nothing changes and the result is `false`.
fn close_list(
    stack: &mut Vec<Vec<SExpr>>,
    current: &mut Vec<SExpr>,
    Ghost(read): Ghost<Seq<Token>>,
) -> (closed: bool)
    requires
        reads(read, frames_view(old(stack)@), forest_view(old(current))),
    ensures
        closed ==> reads(
            read.push(Token::Close),
            frames_view(final(stack)@),
            forest_view(final(current)),
        ),
        !closed ==> old(stack)@.len() == 0,
{
    let ghost frames = frames_view(stack@);
    let ghost trees = forest_view(current);
    match stack.pop() {
        None => false,
        Some(outer) => {
            let ghost around = forest_view(&outer);
            let mut inner = outer;
            std::mem::swap(current, &mut inner);
            current.push(SExpr::List(inner));
            proof {
                lemma_reads_close(read, frames, trees);
                assert(frames_view(stack@) == frames.drop_last());
                assert(around == frames.last());
                assert(forest_view(current) == around.push(Tree::List(trees)));
            }
            true
        },
    }
}

} // verus!
