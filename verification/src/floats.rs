//! Arithmetic on doubles, which the interpreter leaves to its host.
//!
//! A double travels through the interpreter as its sixty-four bits. Whatever
//! has to look inside one (reading a literal, writing it out, a remainder, an
//! increment, widening an integer) is asked of a [`FloatArith`]. Nothing is
//! assumed of the answers: a [`FloatUnit`] writes down each question with its
//! answer, and the interpreter's contracts say what a run asks and what it
//! yields for the answers it was given.

use vstd::prelude::*;

verus! {

/// The operations on doubles that a host supplies.
pub trait FloatArith {
    /// Reads a literal; `None` where `text` is no double.
    fn parse(&self, text: &str) -> Option<u64>;

    /// Writes a double out in base ten.
    fn render(&self, bits: u64) -> String;

    /// The double nearest to an integer.
    fn widen(&self, value: i64) -> u64;

    /// The remainder of `left` divided by `right`.
    fn rem(&self, left: u64, right: u64) -> u64;

    /// `bits` plus one.
    fn successor(&self, bits: u64) -> u64;
}

/// One question to the host.
pub enum Query {
    Parse(Seq<char>),
    Render(u64),
    Widen(i64),
    Rem(u64, u64),
    Successor(u64),
}

/// One answer of the host.
pub enum Reply {
    Parsed(Option<u64>),
    Text(Seq<char>),
    Bits(u64),
}

/// A question together with the answer it got.
pub struct Exchange {
    pub query: Query,
    pub reply: Reply,
}

/// The answers of `heard` are the first answers of `tape`, in order.
pub open spec fn agrees(heard: Seq<Exchange>, tape: Seq<Reply>) -> bool {
    &&& heard.len() <= tape.len()
    &&& forall|i: int| 0 <= i < heard.len() ==> (#[trigger] heard[i]).reply == tape[i]
}

/// The answers of `heard`, in order.
pub open spec fn replies(heard: Seq<Exchange>) -> Seq<Reply> {
    heard.map_values(|exchange: Exchange| exchange.reply)
}

/// A record agrees with its own answers, so there is always a tape that a
/// record agrees with.
pub proof fn lemma_agrees_itself(heard: Seq<Exchange>)
    ensures
        agrees(heard, replies(heard)),
{
}

/// `later` begins with `earlier`.
pub open spec fn extends(later: Seq<Exchange>, earlier: Seq<Exchange>) -> bool {
    &&& earlier.len() <= later.len()
    &&& forall|i: int| 0 <= i < earlier.len() ==> #[trigger] earlier[i] == later[i]
}

/// Answer number `at` of `tape`. Past its end a tape gives an answer that
/// reports nothing.
pub open spec fn reply_at(tape: Seq<Reply>, at: nat) -> Reply {
    if at < tape.len() {
        tape[at as int]
    } else {
        Reply::Parsed(None)
    }
}

/// The literal that `reply` reports.
pub open spec fn parsed_of(reply: Reply) -> Option<u64> {
    match reply {
        Reply::Parsed(bits) => bits,
        _ => None,
    }
}

/// The text that `reply` reports.
pub open spec fn text_of(reply: Reply) -> Seq<char> {
    match reply {
        Reply::Text(text) => text,
        _ => Seq::empty(),
    }
}

/// The double that `reply` reports.
pub open spec fn bits_of(reply: Reply) -> u64 {
    match reply {
        Reply::Bits(bits) => bits,
        _ => 0,
    }
}

/// What agrees with a record agrees with every beginning of it.
pub broadcast proof fn lemma_agrees_earlier(
    earlier: Seq<Exchange>,
    later: Seq<Exchange>,
    tape: Seq<Reply>,
)
    requires
        #[trigger] extends(later, earlier),
        #[trigger] agrees(later, tape),
    ensures
        agrees(earlier, tape),
{
    assert forall|i: int| 0 <= i < earlier.len() implies (#[trigger] earlier[i]).reply
        == tape[i] by {
        assert(earlier[i] == later[i]);
    }
}

/// A tape that agrees with a record answers the record's last question as
/// the record says.
pub broadcast proof fn lemma_agrees_last(heard: Seq<Exchange>, last: Exchange, tape: Seq<Reply>)
    requires
        #[trigger] agrees(heard.push(last), tape),
    ensures
        reply_at(tape, heard.len()) == last.reply,
        extends(heard.push(last), heard),
{
    assert(heard.push(last)[heard.len() as int] == last);
}

/// A beginning of a beginning is a beginning.
pub broadcast proof fn lemma_extends_twice(
    first: Seq<Exchange>,
    second: Seq<Exchange>,
    third: Seq<Exchange>,
)
    requires
        #[trigger] extends(second, first),
        #[trigger] extends(third, second),
    ensures
        extends(third, first),
{
    assert forall|i: int| 0 <= i < first.len() implies #[trigger] first[i] == third[i] by {
        assert(first[i] == second[i]);
    }
}

/// A host together with the record of what it was asked and what it answered.
pub struct FloatUnit<F: FloatArith> {
    host: F,
    heard: Ghost<Seq<Exchange>>,
}

impl<F: FloatArith> FloatUnit<F> {
    /// The exchanges so far, oldest first.
    pub closed spec fn heard(&self) -> Seq<Exchange> {
        self.heard@
    }

    /// A unit that has asked nothing yet.
    pub fn new(host: F) -> (unit: Self)
        ensures
            unit.heard() == Seq::<Exchange>::empty(),
    {
        FloatUnit { host, heard: Ghost(Seq::empty()) }
    }

    /// Asks the host to read a literal.
    pub fn parse(&mut self, text: &str) -> (bits: Option<u64>)
        ensures
            final(self).heard() == old(self).heard().push(
                Exchange { query: Query::Parse(text@), reply: Reply::Parsed(bits) },
            ),
    {
        let bits = self.host.parse(text);
        proof {
            self.heard@ = self.heard@.push(
                Exchange { query: Query::Parse(text@), reply: Reply::Parsed(bits) },
            );
        }
        bits
    }

    /// Asks the host to write a double out.
    pub fn render(&mut self, bits: u64) -> (text: String)
        ensures
            final(self).heard() == old(self).heard().push(
                Exchange { query: Query::Render(bits), reply: Reply::Text(text@) },
            ),
    {
        let text = self.host.render(bits);
        proof {
            self.heard@ = self.heard@.push(
                Exchange { query: Query::Render(bits), reply: Reply::Text(text@) },
            );
        }
        text
    }

    /// Asks the host for the double nearest to an integer.
    pub fn widen(&mut self, value: i64) -> (bits: u64)
        ensures
            final(self).heard() == old(self).heard().push(
                Exchange { query: Query::Widen(value), reply: Reply::Bits(bits) },
            ),
    {
        let bits = self.host.widen(value);
        proof {
            self.heard@ = self.heard@.push(
                Exchange { query: Query::Widen(value), reply: Reply::Bits(bits) },
            );
        }
        bits
    }

    /// Asks the host for a remainder.
    pub fn rem(&mut self, left: u64, right: u64) -> (bits: u64)
        ensures
            final(self).heard() == old(self).heard().push(
                Exchange { query: Query::Rem(left, right), reply: Reply::Bits(bits) },
            ),
    {
        let bits = self.host.rem(left, right);
        proof {
            self.heard@ = self.heard@.push(
                Exchange { query: Query::Rem(left, right), reply: Reply::Bits(bits) },
            );
        }
        bits
    }

    /// Asks the host for a double plus one.
    pub fn successor(&mut self, bits: u64) -> (next: u64)
        ensures
            final(self).heard() == old(self).heard().push(
                Exchange { query: Query::Successor(bits), reply: Reply::Bits(next) },
            ),
    {
        let next = self.host.successor(bits);
        proof {
            self.heard@ = self.heard@.push(
                Exchange { query: Query::Successor(bits), reply: Reply::Bits(next) },
            );
        }
        next
    }
}

} // verus!
