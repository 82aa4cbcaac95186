use vstd::prelude::*;

verus! {

/// Identifier of a stored deck; zero means that none has been assigned yet.
#[derive(Clone, Copy, Debug, PartialEq, Eq, Structural)]
pub struct DeckId(pub i64);

/// Synchronisation version stamped on every change.
#[derive(Clone, Copy, Debug, PartialEq, Eq, Structural)]
pub struct Usn(pub i32);

#[derive(Clone, Copy, Debug, PartialEq, Eq, Structural)]
pub enum DeckKind {
    Normal,
    /// Gathers cards by a search; such a deck is always a leaf.
    Filtered,
}

#[derive(Clone, Debug)]
pub struct Deck {
    pub id: DeckId,
    /// Components joined by the separator.
    pub name: String,
    pub kind: DeckKind,
    pub mtime_secs: i64,
    pub usn: Usn,
}

#[derive(Clone, Copy, Debug, PartialEq, Eq, Structural)]
pub enum AnkiError {
    /// A deck to add already has an id, or a name nests too deep.
    InvalidInput,
    /// No deck has the given id.
    NotFound,
    /// The nearest existing ancestor of a name is a filtered deck.
    FilteredDeckMustBeLeaf,
    /// The store could not give a new deck an id.
    DbError,
}

impl Deck {
    pub fn new_normal() -> (d: Deck)
        ensures
            d.id == DeckId(0),
            d.name@.len() == 0,
            d.kind == DeckKind::Normal,
            d.mtime_secs == 0,
            d.usn == Usn(0),
    {
        Deck { id: DeckId(0), name: String::new(), kind: DeckKind::Normal, mtime_secs: 0, usn: Usn(0) }
    }

    pub fn new_filtered() -> (d: Deck)
        ensures
            d.id == DeckId(0),
            d.name@.len() == 0,
            d.kind == DeckKind::Filtered,
            d.mtime_secs == 0,
            d.usn == Usn(0),
    {
        Deck {
            id: DeckId(0),
            name: String::new(),
            kind: DeckKind::Filtered,
            mtime_secs: 0,
            usn: Usn(0),
        }
    }

    pub fn is_filtered(&self) -> (r: bool)
        ensures
            r == (self.kind == DeckKind::Filtered),
    {
        match self.kind {
            DeckKind::Filtered => true,
            DeckKind::Normal => false,
        }
    }

    /// Stamps the deck as changed at `mtime_secs` under `usn`.
    pub fn set_modified(&mut self, mtime_secs: i64, usn: Usn)
        ensures
            *final(self) == (Deck { mtime_secs, usn, ..*old(self) }),
    {
        self.mtime_secs = mtime_secs;
        self.usn = usn;
    }

    /// A copy with every field equal to this one's.
    pub fn duplicate(&self) -> (r: Deck)
        ensures
            r == *self,
    {
        Deck {
            id: self.id,
            name: self.name.clone(),
            kind: self.kind,
            mtime_secs: self.mtime_secs,
            usn: self.usn,
        }
    }
}

} // verus!
