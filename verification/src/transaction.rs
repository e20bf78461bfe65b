//! One entry of a ledger, and the line of text that describes it.

use crate::id;
use crate::id::Id;
use crate::id::NonRootId;
use crate::text::decimal_usize;
use crate::text::next_word;
use crate::text::nth_word;
use crate::text::nth_word_start;
use crate::text::parse_failure;
use crate::text::parse_usize;
use std::num::ParseIntError;
use vstd::prelude::*;
use vstd::std_specs::convert::TryFromSpecImpl;
use vstd::string::*;

verus! {

/// Why a line of text describes no transaction.
#[derive(PartialEq, Eq, Debug)]
pub enum Error {
    /// The line holds no word.
    MissingLeft,
    /// The line holds one word only.
    MissingRight,
    /// The line holds two words only.
    MissingTimestamp,
    /// The transaction's own identifier is none.
    InvalidId(id::Error),
    /// The first word spells no number.
    InvalidLeft(ParseIntError),
    /// The second word spells no number.
    InvalidRight(ParseIntError),
    /// The third word spells no number.
    InvalidTimestamp(ParseIntError),
    /// The first word spells a number that identifies nothing.
    InvalidLeftId(id::Error),
    /// The second word spells a number that identifies nothing.
    InvalidRightId(id::Error),
}

/// What a transaction says, in integers: its own identifier, the identifiers
/// of the two vertices that it refers to, and its timestamp.
pub struct TransactionView {
    pub id: int,
    pub left: int,
    pub right: int,
    pub timestamp: int,
}

/// A transaction: two references to other vertices of the ledger, and the
/// time at which it was made.
#[derive(PartialEq, Eq, Debug, Structural)]
pub struct Transaction {
    id: NonRootId,
    left: Id,
    right: Id,
    timestamp: usize,
}

impl View for Transaction {
    type V = TransactionView;

    closed spec fn view(&self) -> TransactionView {
        TransactionView {
            id: self.id@,
            left: self.left@,
            right: self.right@,
            timestamp: self.timestamp as int,
        }
    }
}

impl Transaction {
    /// The transaction with these four parts, in specifications.
    pub closed spec fn of(id: NonRootId, left: Id, right: Id, timestamp: usize) -> Transaction {
        Transaction { id, left, right, timestamp }
    }

    /// What the transaction made of four parts says.
    pub broadcast proof fn lemma_of_view(id: NonRootId, left: Id, right: Id, timestamp: usize)
        ensures
            (#[trigger] Transaction::of(id, left, right, timestamp))@ == (TransactionView {
                id: id@,
                left: left@,
                right: right@,
                timestamp: timestamp as int,
            }),
    {
    }

    pub fn new(id: NonRootId, left: Id, right: Id, timestamp: usize) -> (transaction: Transaction)
        ensures
            transaction == Transaction::of(id, left, right, timestamp),
    {
        Transaction { id, left, right, timestamp }
    }

    pub fn id(&self) -> (id: NonRootId)
        ensures
            id@ == self@.id,
            id@ >= 2,
    {
        proof {
            use_type_invariant(self.id);
        }
        self.id
    }

    pub fn left(&self) -> (left: Id)
        ensures
            left@ == self@.left,
            left@ >= 1,
    {
        proof {
            if let Id::Transaction(n) = self.left {
                use_type_invariant(n);
            }
        }
        self.left
    }

    pub fn right(&self) -> (right: Id)
        ensures
            right@ == self@.right,
            right@ >= 1,
    {
        proof {
            if let Id::Transaction(n) = self.right {
                use_type_invariant(n);
            }
        }
        self.right
    }

    pub fn timestamp(&self) -> (timestamp: usize)
        ensures
            timestamp == self@.timestamp,
    {
        self.timestamp
    }
}

/// What one word of a line means as a reference: the vertex that it names,
/// or the reason why it names none.
pub enum Reference {
    /// The word spells no number; the error is the one reported for it.
    NoNumber(ParseIntError),
    /// The word spells a number that identifies nothing.
    NoId(id::Error),
    /// The word names this vertex.
    To(Id),
}

/// What the word `word` means as a reference.
pub open spec fn reference(word: Seq<char>) -> Reference {
    match decimal_usize(word) {
        None => Reference::NoNumber(parse_failure(word)),
        Some(n) => if n == 0 {
            Reference::NoId(id::Error::Invalid)
        } else {
            Reference::To(Id::of(n))
        },
    }
}

/// The transaction that the line `line` describes when it is given the
/// identifier `id`, or the first fault found: in the identifier, then in the
/// first word, the second and the third. Words after the third are not read.
pub open spec fn parsed(id: usize, line: Seq<char>) -> Result<Transaction, Error> {
    if id == 0 {
        Err(Error::InvalidId(id::Error::Invalid))
    } else if id == 1 {
        Err(Error::InvalidId(id::Error::Reserved))
    } else {
        match nth_word(line, 0) {
            None => Err(Error::MissingLeft),
            Some(first) => match reference(first) {
                Reference::NoNumber(e) => Err(Error::InvalidLeft(e)),
                Reference::NoId(e) => Err(Error::InvalidLeftId(e)),
                Reference::To(left) => match nth_word(line, 1) {
                    None => Err(Error::MissingRight),
                    Some(second) => match reference(second) {
                        Reference::NoNumber(e) => Err(Error::InvalidRight(e)),
                        Reference::NoId(e) => Err(Error::InvalidRightId(e)),
                        Reference::To(right) => match nth_word(line, 2) {
                            None => Err(Error::MissingTimestamp),
                            Some(third) => match decimal_usize(third) {
                                None => Err(Error::InvalidTimestamp(parse_failure(third))),
                                Some(timestamp) => Ok(
                                    Transaction::of(NonRootId::of(id), left, right, timestamp),
                                ),
                            },
                        },
                    },
                },
            },
        }
    }
}

/// Reads the word of `line` between `start` and `end` as a reference.
fn read_reference(line: &str, start: usize, end: usize) -> (result: Reference)
    requires
        start <= end <= line@.len(),
    ensures
        result == reference(line@.subrange(start as int, end as int)),
{
    let word = line.substring_char(start, end);
    match parse_usize(word) {
        Err(e) => Reference::NoNumber(e),
        Ok(n) => match Id::try_from(n) {
            Err(e) => Reference::NoId(e),
            Ok(to) => Reference::To(to),
        },
    }
}

impl<'a> TryFrom<(usize, &'a String)> for Transaction {
    type Error = Error;

    /// Reads a line of text as the transaction with the given identifier.
    fn try_from(numbered: (usize, &'a String)) -> (result: Result<Transaction, Error>) {
        let (id, text) = numbered;
        let line = text.as_str();
        proof {
            reveal_with_fuel(nth_word_start, 3);
        }
        let id = match NonRootId::try_from(id) {
            Err(e) => { return Err(Error::InvalidId(e)); },
            Ok(id) => id,
        };
        let first = match next_word(line, 0) {
            None => { return Err(Error::MissingLeft); },
            Some(word) => word,
        };
        let left = match read_reference(line, first.start, first.end) {
            Reference::NoNumber(e) => { return Err(Error::InvalidLeft(e)); },
            Reference::NoId(e) => { return Err(Error::InvalidLeftId(e)); },
            Reference::To(left) => left,
        };
        let second = match next_word(line, first.end) {
            None => { return Err(Error::MissingRight); },
            Some(word) => word,
        };
        let right = match read_reference(line, second.start, second.end) {
            Reference::NoNumber(e) => { return Err(Error::InvalidRight(e)); },
            Reference::NoId(e) => { return Err(Error::InvalidRightId(e)); },
            Reference::To(right) => right,
        };
        let third = match next_word(line, second.end) {
            None => { return Err(Error::MissingTimestamp); },
            Some(word) => word,
        };
        let timestamp = match parse_usize(line.substring_char(third.start, third.end)) {
            Err(e) => { return Err(Error::InvalidTimestamp(e)); },
            Ok(n) => n,
        };
        Ok(Transaction::new(id, left, right, timestamp))
    }
}

impl<'a> TryFromSpecImpl<(usize, &'a String)> for Transaction {
    open spec fn obeys_try_from_spec() -> bool {
        true
    }

    open spec fn try_from_spec(numbered: (usize, &'a String)) -> Result<Transaction, Error> {
        parsed(numbered.0, numbered.1@)
    }
}

} // verus!
