//! Identifiers of the vertices of a ledger: the root, and the transactions.

use vstd::prelude::*;
use vstd::std_specs::convert::FromSpecImpl;
use vstd::std_specs::convert::TryFromSpecImpl;

verus! {

/// Why an integer cannot serve as an identifier.
#[derive(Clone, Copy, PartialEq, Eq, Debug, Structural)]
pub enum Error {
    /// The integer is 0, which identifies nothing.
    Invalid,
    /// The integer is 1, which is kept for the root.
    Reserved,
}

/// The identifier of a transaction: an integer that is at least 2.
#[derive(Clone, Copy, PartialEq, Eq, Hash, Debug, Structural)]
pub struct NonRootId(usize);

impl View for NonRootId {
    type V = int;

    /// The integer that the identifier stands for.
    closed spec fn view(&self) -> int {
        self.0 as int
    }
}

impl NonRootId {
    #[verifier::type_invariant]
    pub(crate) open spec fn at_least_two(self) -> bool {
        self@ >= 2
    }

    /// The identifier that stands for `value` in specifications.
    pub closed spec fn of(value: usize) -> NonRootId {
        NonRootId(value)
    }

    /// `of` and the view undo each other.
    pub broadcast proof fn lemma_of_view(value: usize)
        ensures
            (#[trigger] NonRootId::of(value))@ == value,
    {
    }

    /// Two identifiers that stand for the same integer are the same.
    pub proof fn lemma_view_injective(self, other: NonRootId)
        requires
            self@ == other@,
        ensures
            self == other,
    {
    }

    /// The identifier's integer, which is never below 2.
    pub fn value(self) -> (value: usize)
        ensures
            value == self@,
            value >= 2,
            self == NonRootId::of(value),
    {
        proof {
            use_type_invariant(self);
        }
        self.0
    }
}

impl TryFrom<usize> for NonRootId {
    type Error = Error;

    fn try_from(value: usize) -> (result: Result<NonRootId, Error>) {
        if value == 0 {
            Err(Error::Invalid)
        } else if value == 1 {
            Err(Error::Reserved)
        } else {
            Ok(NonRootId(value))
        }
    }
}

impl TryFromSpecImpl<usize> for NonRootId {
    open spec fn obeys_try_from_spec() -> bool {
        true
    }

    open spec fn try_from_spec(value: usize) -> Result<NonRootId, Error> {
        if value == 0 {
            Err(Error::Invalid)
        } else if value == 1 {
            Err(Error::Reserved)
        } else {
            Ok(NonRootId::of(value))
        }
    }
}

impl From<NonRootId> for usize {
    fn from(id: NonRootId) -> (value: usize) {
        id.value()
    }
}

impl FromSpecImpl<NonRootId> for usize {
    open spec fn obeys_from_spec() -> bool {
        true
    }

    open spec fn from_spec(id: NonRootId) -> usize {
        id@ as usize
    }
}

/// The identifier of a vertex: the root, which is written 1, or a transaction.
#[derive(Clone, Copy, PartialEq, Eq, Hash, Debug, Structural)]
pub enum Id {
    /// The vertex that every ledger starts from; no line of input describes it.
    Root,
    /// A transaction.
    Transaction(NonRootId),
}

impl View for Id {
    type V = int;

    /// The integer that the identifier stands for: 1 for the root.
    open spec fn view(&self) -> int {
        match self {
            Id::Root => 1,
            Id::Transaction(id) => id@,
        }
    }
}

impl Id {
    /// The identifier that stands for `value` in specifications.
    pub open spec fn of(value: usize) -> Id {
        if value == 1 {
            Id::Root
        } else {
            Id::Transaction(NonRootId::of(value))
        }
    }

    /// The identifier's integer, which is never 0.
    pub fn value(self) -> (value: usize)
        ensures
            value == self@,
            value >= 1,
            self == Id::of(value),
    {
        match self {
            Id::Root => 1,
            Id::Transaction(id) => id.value(),
        }
    }
}

impl From<NonRootId> for Id {
    fn from(id: NonRootId) -> (result: Id) {
        Id::Transaction(id)
    }
}

impl FromSpecImpl<NonRootId> for Id {
    open spec fn obeys_from_spec() -> bool {
        true
    }

    open spec fn from_spec(id: NonRootId) -> Id {
        Id::Transaction(id)
    }
}

impl TryFrom<usize> for Id {
    type Error = Error;

    fn try_from(value: usize) -> (result: Result<Id, Error>) {
        if value == 0 {
            Err(Error::Invalid)
        } else if value == 1 {
            Ok(Id::Root)
        } else {
            Ok(Id::Transaction(NonRootId(value)))
        }
    }
}

impl TryFromSpecImpl<usize> for Id {
    open spec fn obeys_try_from_spec() -> bool {
        true
    }

    open spec fn try_from_spec(value: usize) -> Result<Id, Error> {
        if value == 0 {
            Err(Error::Invalid)
        } else {
            Ok(Id::of(value))
        }
    }
}

impl From<Id> for usize {
    fn from(id: Id) -> (value: usize) {
        id.value()
    }
}

impl FromSpecImpl<Id> for usize {
    open spec fn obeys_from_spec() -> bool {
        true
    }

    open spec fn from_spec(id: Id) -> usize {
        id@ as usize
    }
}

/// Converting an integer to an identifier and back gives the integer again,
/// and an identifier's integer converts to the identifier it came from.
pub proof fn lemma_id_round_trip(value: usize)
    requires
        value != 0,
    ensures
        Id::of(value)@ == value,
        (Id::of(value) is Root) <==> value == 1,
{
    broadcast use NonRootId::lemma_of_view;

}

} // verus!
