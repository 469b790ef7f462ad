//! Reading tokens back into trees, and why the trees that a text writes are
//! the only ones that it can be read as.

use vstd::prelude::*;
use crate::sexpr::Tree;
use crate::tokens::{flatten, flatten_all, flatten_upto, Token};

verus! {

/// The lists that are open while tokens are read, outermost first, each with
/// the trees read into it so far; `trees` are those of the innermost.
pub struct Reader {
    pub frames: Seq<Seq<Tree>>,
    pub trees: Seq<Tree>,
}

/// A reader that has read nothing.
pub open spec fn start() -> Reader {
    Reader { frames: Seq::empty(), trees: Seq::empty() }
}

/// `reader` after one more token. A `)` that closes nothing is passed over.
pub open spec fn feed(reader: Reader, token: Token) -> Reader {
    match token {
        Token::Word(word) => Reader { trees: reader.trees.push(Tree::Atom(word)), ..reader },
        Token::Open => Reader { frames: reader.frames.push(reader.trees), trees: Seq::empty() },
        Token::Close => if reader.frames.len() > 0 {
            Reader {
                frames: reader.frames.drop_last(),
                trees: reader.frames.last().push(Tree::List(reader.trees)),
            }
        } else {
            reader
        },
    }
}

/// `reader` after `tokens`.
pub open spec fn feed_all(reader: Reader, tokens: Seq<Token>) -> Reader
    decreases tokens.len(),
{
    if tokens.len() == 0 {
        reader
    } else {
        feed(feed_all(reader, tokens.drop_last()), tokens.last())
    }
}

/// The trees that `tokens` are read as.
pub open spec fn read_back(tokens: Seq<Token>) -> Seq<Tree> {
    feed_all(start(), tokens).trees
}

/// Reading two runs of tokens is reading one and then the other.
pub proof fn lemma_feed_concat(reader: Reader, first: Seq<Token>, second: Seq<Token>)
    ensures
        feed_all(reader, first + second) == feed_all(feed_all(reader, first), second),
    decreases second.len(),
{
    if second.len() == 0 {
        assert(first + second == first);
    } else {
        lemma_feed_concat(reader, first, second.drop_last());
        assert((first + second).drop_last() == first + second.drop_last());
        assert((first + second).last() == second.last());
    }
}

/// Reading the tokens of a tree adds that tree to the innermost list.
pub proof fn lemma_feed_tree(reader: Reader, tree: Tree)
    ensures
        feed_all(reader, flatten(tree)) == (Reader { trees: reader.trees.push(tree), ..reader }),
    decreases tree, 0nat,
{
    match tree {
        Tree::Atom(word) => {
            let one = seq![Token::Word(word)];
            assert(one.drop_last() == Seq::<Token>::empty());
            assert(feed_all(reader, one.drop_last()) == reader);
        },
        Tree::List(items) => {
            let open = seq![Token::Open];
            let inside = flatten_upto(items, items.len());
            let close = seq![Token::Close];
            assert(open.drop_last() == Seq::<Token>::empty());
            assert(feed_all(reader, open.drop_last()) == reader);
            let opened = feed_all(reader, open);
            assert(opened == Reader { frames: reader.frames.push(reader.trees), trees: Seq::empty() });
            lemma_feed_upto(opened, items, items.len());
            assert(Seq::<Tree>::empty() + items.take(items.len() as int) == items);
            let filled = feed_all(opened, inside);
            assert(filled == Reader { frames: opened.frames, trees: items });
            lemma_feed_concat(reader, open, inside);
            lemma_feed_concat(reader, open + inside, close);
            assert(close.drop_last() == Seq::<Token>::empty());
            assert(feed_all(filled, close.drop_last()) == filled);
            assert(opened.frames.drop_last() == reader.frames);
        },
    }
}

/// Reading the tokens of the first `count` trees of `items` adds those trees
/// to the innermost list.
pub proof fn lemma_feed_upto(reader: Reader, items: Seq<Tree>, count: nat)
    requires
        count <= items.len(),
    ensures
        feed_all(reader, flatten_upto(items, count)) == (Reader {
            trees: reader.trees + items.take(count as int),
            ..reader
        }),
    decreases items, count,
{
    if count == 0 {
        assert(reader.trees + items.take(0) == reader.trees);
    } else {
        let fewer = (count - 1) as nat;
        lemma_feed_upto(reader, items, fewer);
        lemma_feed_concat(reader, flatten_upto(items, fewer), flatten(items[count - 1]));
        lemma_feed_tree(feed_all(reader, flatten_upto(items, fewer)), items[count - 1]);
        assert((reader.trees + items.take(fewer as int)).push(items[count - 1]) == reader.trees
            + items.take(count as int));
    }
}

/// The tokens of a sequence of trees are read back as that sequence.
pub proof fn lemma_read_back(trees: Seq<Tree>)
    ensures
        read_back(flatten_all(trees)) == trees,
{
    lemma_feed_upto(start(), trees, trees.len());
    assert(Seq::<Tree>::empty() + trees.take(trees.len() as int) == trees);
}

/// Two sequences of trees that are written with the same tokens are the same.
pub proof fn lemma_flatten_unique(a: Seq<Tree>, b: Seq<Tree>)
    requires
        flatten_all(a) == flatten_all(b),
    ensures
        a == b,
{
    lemma_read_back(a);
    lemma_read_back(b);
}

} // verus!
