//! Writing trees out as text, and why reading the text gives the trees back.

use vstd::prelude::*;
use vstd::string::StringExecFns;
use crate::reading::{lemma_read_back, read_back};
use crate::sexpr::{forest_view, SExpr, Tree};
use crate::tokens::{
    closes_unopened, defect, depth, flatten, flatten_all, flatten_upto, flush, is_word_text,
    lemma_depth_push, lemma_never_negative_push, lex, lex_from, lex_step, tokens, Lexed, Token,
};

verus! {

/// A tree whose atoms are all read as one word each.
pub open spec fn well_formed(tree: Tree) -> bool
    decreases tree,
{
    match tree {
        Tree::Atom(word) => is_word_text(word),
        Tree::List(items) => forall|i: int| 0 <= i < items.len() ==> well_formed(#[trigger] items[i]),
    }
}

/// Every tree of `trees` is well formed.
pub open spec fn all_well_formed(trees: Seq<Tree>) -> bool {
    forall|i: int| 0 <= i < trees.len() ==> well_formed(#[trigger] trees[i])
}

/// The text of `tree`: an atom as it is, a list as its items between
/// parentheses with one blank between any two.
pub open spec fn tree_text(tree: Tree) -> Seq<char>
    decreases tree, 0nat,
{
    match tree {
        Tree::Atom(word) => word,
        Tree::List(items) => seq!['('] + forest_text_upto(items, items.len()) + seq![')'],
    }
}

/// What stands before tree number `count` of a sequence: a blank, but for the
/// first.
pub open spec fn separator(count: nat) -> Seq<char> {
    if count > 1 {
        seq![' ']
    } else {
        Seq::empty()
    }
}

/// The text of the first `count` trees of `items`, with one blank between any
/// two.
pub open spec fn forest_text_upto(items: Seq<Tree>, count: nat) -> Seq<char>
    decreases items, count,
{
    if count == 0 || count > items.len() {
        Seq::empty()
    } else {
        forest_text_upto(items, (count - 1) as nat) + separator(count) + tree_text(
            items[count - 1],
        )
    }
}

/// The text of `trees`.
pub open spec fn forest_text(trees: Seq<Tree>) -> Seq<char> {
    forest_text_upto(trees, trees.len())
}

/// Reading two texts one after the other is reading the two as one.
pub proof fn lemma_lex_concat(before: Lexed, first: Seq<char>, second: Seq<char>)
    ensures
        lex_from(before, first + second) == lex_from(lex_from(before, first), second),
    decreases second.len(),
{
    if second.len() == 0 {
        assert(first + second == first);
    } else {
        lemma_lex_concat(before, first, second.drop_last());
        assert((first + second).drop_last() == first + second.drop_last());
        assert((first + second).last() == second.last());
    }
}

/// Reading one character is one step.
pub proof fn lemma_lex_one(before: Lexed, c: char)
    ensures
        lex_from(before, seq![c]) == lex_step(before, c),
{
    assert(seq![c].drop_last() == Seq::<char>::empty());
    assert(lex_from(before, seq![c].drop_last()) == before);
}

/// Characters that end no word go on with the word that is being read.
pub proof fn lemma_lex_word(before: Lexed, word: Seq<char>)
    requires
        forall|i: int| 0 <= i < word.len() ==> !crate::tokens::is_delimiter(#[trigger] word[i]),
    ensures
        lex_from(before, word) == (Lexed { tokens: before.tokens, word: before.word + word }),
    decreases word.len(),
{
    if word.len() == 0 {
        assert(before.word + word == before.word);
    } else {
        lemma_lex_word(before, word.drop_last());
        assert(!crate::tokens::is_delimiter(word[word.len() - 1]));
        assert((before.word + word.drop_last()).push(word.last()) == before.word + word);
    }
}

/// After the text of a tree, read from where no word is going on, the tokens
/// are those before it and those of the tree.
pub proof fn lemma_lex_tree(before: Lexed, tree: Tree)
    requires
        before.word.len() == 0,
        well_formed(tree),
    ensures
        flush(lex_from(before, tree_text(tree))) == before.tokens + flatten(tree),
    decreases tree, 0nat,
{
    match tree {
        Tree::Atom(word) => {
            lemma_lex_word(before, word);
            assert(before.word + word == word);
            assert(before.tokens.push(Token::Word(word)) == before.tokens + seq![Token::Word(word)]);
        },
        Tree::List(items) => {
            let inside = forest_text_upto(items, items.len());
            lemma_lex_concat(before, seq!['('], inside);
            lemma_lex_concat(before, seq!['('] + inside, seq![')']);
            lemma_lex_one(before, '(');
            let opened = lex_step(before, '(');
            assert(opened == Lexed { tokens: before.tokens.push(Token::Open), word: Seq::empty() });
            lemma_lex_forest(opened, items, items.len());
            let filled = lex_from(opened, inside);
            lemma_lex_one(filled, ')');
            let closed = lex_step(filled, ')');
            assert(closed.tokens == flush(filled).push(Token::Close));
            assert(closed.word.len() == 0);
            assert((before.tokens.push(Token::Open) + flatten_upto(items, items.len())).push(
                Token::Close,
            ) == before.tokens + (seq![Token::Open] + flatten_upto(items, items.len()) + seq![
                Token::Close,
            ]));
        },
    }
}

/// After the text of the first `count` trees of `items`, read from where no
/// word is going on, the tokens are those before it and those of the trees.
pub proof fn lemma_lex_forest(before: Lexed, items: Seq<Tree>, count: nat)
    requires
        before.word.len() == 0,
        count <= items.len(),
        all_well_formed(items),
    ensures
        flush(lex_from(before, forest_text_upto(items, count))) == before.tokens + flatten_upto(
            items,
            count,
        ),
    decreases items, count,
{
    if count == 0 {
        assert(before.tokens + Seq::<Token>::empty() == before.tokens);
    } else {
        let fewer = (count - 1) as nat;
        let earlier = forest_text_upto(items, fewer);
        let last = items[count - 1];
        lemma_lex_forest(before, items, fewer);
        lemma_lex_concat(before, earlier, separator(count));
        lemma_lex_concat(before, earlier + separator(count), tree_text(last));
        let read = lex_from(before, earlier);
        let parted = lex_from(read, separator(count));
        if count > 1 {
            lemma_lex_one(read, ' ');
            assert(crate::tokens::is_space(' '));
        } else {
            assert(earlier == Seq::<char>::empty());
            assert(read == before);
        }
        assert(parted.word.len() == 0);
        assert(parted.tokens == before.tokens + flatten_upto(items, fewer));
        lemma_lex_tree(parted, last);
        assert(before.tokens + flatten_upto(items, fewer) + flatten(last) == before.tokens + (
        flatten_upto(items, fewer) + flatten(last)));
    }
}

/// The tokens of a tree open and close the same number of lists, and close
/// none that they have not opened.
pub proof fn lemma_tree_balanced(before: Seq<Token>, tree: Tree)
    requires
        !closes_unopened(before),
    ensures
        !closes_unopened(before + flatten(tree)),
        depth(before + flatten(tree)) == depth(before),
    decreases tree, 0nat,
{
    assert(depth(before) >= 0) by {
        assert(before.take(before.len() as int) == before);
    }
    match tree {
        Tree::Atom(word) => {
            assert(before + flatten(tree) == before.push(Token::Word(word)));
            lemma_depth_push(before, Token::Word(word));
            lemma_never_negative_push(before, Token::Word(word));
        },
        Tree::List(items) => {
            let opened = before.push(Token::Open);
            lemma_depth_push(before, Token::Open);
            lemma_never_negative_push(before, Token::Open);
            lemma_forest_balanced(opened, items, items.len());
            let filled = opened + flatten_upto(items, items.len());
            lemma_depth_push(filled, Token::Close);
            lemma_never_negative_push(filled, Token::Close);
            assert(filled.push(Token::Close) == before + flatten(tree));
        },
    }
}

/// The same of the tokens of the first `count` trees of `items`.
pub proof fn lemma_forest_balanced(before: Seq<Token>, items: Seq<Tree>, count: nat)
    requires
        !closes_unopened(before),
        count <= items.len(),
    ensures
        !closes_unopened(before + flatten_upto(items, count)),
        depth(before + flatten_upto(items, count)) == depth(before),
    decreases items, count,
{
    if count == 0 {
        assert(before + flatten_upto(items, count) == before);
    } else {
        let fewer = (count - 1) as nat;
        lemma_forest_balanced(before, items, fewer);
        lemma_tree_balanced(before + flatten_upto(items, fewer), items[count - 1]);
        assert(before + flatten_upto(items, fewer) + flatten(items[count - 1]) == before
            + flatten_upto(items, count));
    }
}

/// The text of well-formed trees has the tokens of those trees, and nothing
/// keeps it from being read.
pub proof fn lemma_text_tokens(trees: Seq<Tree>)
    requires
        all_well_formed(trees),
    ensures
        tokens(forest_text(trees)) == flatten_all(trees),
        defect(tokens(forest_text(trees))) is None,
{
    let nothing = Lexed { tokens: Seq::empty(), word: Seq::empty() };
    lemma_lex_forest(nothing, trees, trees.len());
    assert(Seq::<Token>::empty() + flatten_all(trees) == flatten_all(trees));
    let none = Seq::<Token>::empty();
    assert forall|n: int| 0 <= n <= none.len() implies depth(#[trigger] none.take(n)) >= 0 by {}
    lemma_forest_balanced(none, trees, trees.len());
}

/// Any sequence of trees whose atoms are words is read back, from the text
/// that writes it, as itself: the text has no defect, and its tokens are read
/// as the very trees that were written.
pub proof fn lemma_round_trip(trees: Seq<Tree>)
    requires
        all_well_formed(trees),
    ensures
        defect(tokens(forest_text(trees))) is None,
        read_back(tokens(forest_text(trees))) == trees,
{
    lemma_text_tokens(trees);
    lemma_read_back(trees);
}

/// Appends the text of the trees of `items` to `text`.
fn write_items(items: &Vec<SExpr>, text: &mut String)
    ensures
        final(text)@ == old(text)@ + forest_text(forest_view(items)),
    decreases items, 0nat,
{
    let ghost trees = forest_view(items);
    let ghost before = text@;
    let mut at: usize = 0;
    assert(before + forest_text_upto(trees, 0) == before);
    while at < items.len()
        invariant
            at <= items.len(),
            trees == forest_view(items),
            text@ == before + forest_text_upto(trees, at as nat),
        decreases items.len() - at,
    {
        let ghost earlier = text@;
        if at > 0 {
            text.push(' ');
        }
        assert(text@ == earlier + separator((at + 1) as nat));
        write_tree(&items[at], text);
        proof {
            assert(before + forest_text_upto(trees, at as nat) + separator((at + 1) as nat)
                + tree_text(trees[at as int]) == before + (forest_text_upto(trees, at as nat)
                + separator((at + 1) as nat) + tree_text(trees[at as int])));
        }
        at += 1;
    }
}

/// Appends the text of `tree` to `text`.
fn write_tree(tree: &SExpr, text: &mut String)
    ensures
        final(text)@ == old(text)@ + tree_text(tree@),
    decreases tree, 1nat,
{
    let ghost before = text@;
    match tree {
        SExpr::Atom(word) => {
            assert(tree@ == Tree::Atom(word@));
            text.append(word.as_str());
        },
        SExpr::List(items) => {
            assert(tree@ == Tree::List(forest_view(items)));
            text.push('(');
            write_items(items, text);
            text.push(')');
            proof {
                let inside = forest_text(forest_view(items));
                assert(before.push('(') + inside == before + (seq!['('] + inside));
                assert((before + (seq!['('] + inside)).push(')') == before + (seq!['('] + inside
                    + seq![')']));
            }
        },
    }
}

impl SExpr {
    /// The text of the tree: an atom as it is, a list as its items between
    /// parentheses with one blank between any two.
    pub fn to_text(&self) -> (text: String)
        ensures
            text@ == tree_text(self@),
    {
        let mut text = String::new();
        write_tree(self, &mut text);
        assert(Seq::<char>::empty() + tree_text(self@) == tree_text(self@));
        text
    }
}

/// The text of `trees`, with one blank between any two.
pub fn forest_to_text(trees: &Vec<SExpr>) -> (text: String)
    ensures
        text@ == forest_text(forest_view(trees)),
{
    let mut text = String::new();
    write_items(trees, &mut text);
    assert(Seq::<char>::empty() + forest_text(forest_view(trees)) == forest_text(forest_view(trees)));
    text
}

} // verus!
