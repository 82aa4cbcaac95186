use vstd::prelude::*;
use vstd::string::*;

use crate::deck::{AnkiError, Deck, DeckId, DeckKind, Usn};
use crate::name::{
    ancestor_names, lemma_ancestor_names, lemma_parent_some, name_matches, names_match,
    parent_name, SEP,
};

verus! {

/// Index of the first deck whose name matches `n`.
pub open spec fn first_match(decks: Seq<Deck>, n: Seq<char>) -> Option<int>
    decreases decks.len(),
{
    if decks.len() == 0 {
        None
    } else {
        match first_match(decks.drop_last(), n) {
            Some(i) => Some(i),
            None => if names_match(decks.last().name@, n) {
                Some(decks.len() - 1)
            } else {
                None
            },
        }
    }
}

/// Some deck of the store has a name that matches `n`.
pub open spec fn has_name(decks: Seq<Deck>, n: Seq<char>) -> bool {
    first_match(decks, n) is Some
}

/// Every proper ancestor of the name `s` is the name of a stored deck.
pub open spec fn ancestors_exist(decks: Seq<Deck>, s: Seq<char>) -> bool
    decreases s.len(),
    via ancestors_exist_decreases
{
    match parent_name(s) {
        None => true,
        Some(p) => has_name(decks, p) && ancestors_exist(decks, p),
    }
}

#[via_fn]
proof fn ancestors_exist_decreases(decks: Seq<Deck>, s: Seq<char>) {
    if parent_name(s) is Some {
        lemma_parent_some(s);
    }
}

/// Every stored deck has an assigned id, and no two share one.
pub open spec fn ids_distinct(decks: Seq<Deck>) -> bool {
    &&& forall|i: int| 0 <= i < decks.len() ==> (#[trigger] decks[i].id).0 != 0
    &&& forall|i: int, j: int|
        0 <= i < decks.len() && 0 <= j < decks.len() && i != j ==> decks[i].id != decks[j].id
}

/// Some stored deck has the id `id`.
pub open spec fn has_id(decks: Seq<Deck>, id: DeckId) -> bool {
    exists|i: int| 0 <= i < decks.len() && decks[i].id == id
}

/// The store after the row with `d`'s id has been replaced by `d`.
pub open spec fn replaced(decks: Seq<Deck>, d: Deck) -> Seq<Deck> {
    Seq::new(decks.len(), |j: int| if decks[j].id == d.id { d } else { decks[j] })
}

/// `c` lies strictly below `p` in the tree.
pub open spec fn is_descendant(c: Seq<char>, p: Seq<char>) -> bool {
    &&& c.len() > p.len()
    &&& names_match(c.subrange(0, p.len() as int), p)
    &&& c[p.len() as int] == SEP
}

/// The name of a descendant of a deck named with `old_len` characters, once
/// that deck is named `new_name`.
pub open spec fn moved_name(c: Seq<char>, old_len: nat, new_name: Seq<char>) -> Seq<char> {
    new_name + c.subrange(old_len as int, c.len() as int)
}

/// `after` is the store `before` once every descendant of `old` was moved
/// under `new_name` and stamped with `mtime_secs` and `usn`.
pub open spec fn children_renamed(
    before: Seq<Deck>,
    after: Seq<Deck>,
    old: Seq<char>,
    new_name: Seq<char>,
    mtime_secs: i64,
    usn: Usn,
) -> bool {
    &&& after.len() == before.len()
    &&& forall|j: int|
        0 <= j < before.len() ==> if is_descendant(#[trigger] before[j].name@, old) {
            &&& after[j].name@ == moved_name(before[j].name@, old.len(), new_name)
            &&& after[j].id == before[j].id
            &&& after[j].kind == before[j].kind
            &&& after[j].mtime_secs == mtime_secs
            &&& after[j].usn == usn
        } else {
            after[j] == before[j]
        }
}

/// `k` plus signs.
pub open spec fn pluses(k: nat) -> Seq<char> {
    Seq::new(k, |j: int| '+')
}

/// `n` is taken by a deck other than the one with id `id`.
pub open spec fn name_taken(decks: Seq<Deck>, n: Seq<char>, id: DeckId) -> bool {
    match first_match(decks, n) {
        Some(i) => decks[i].id != id,
        None => false,
    }
}

/// The name that a deck with id `id` gets when it asks for `n`: the fewest
/// plus signs appended that make it free.
pub open spec fn unique_name_for(decks: Seq<Deck>, n: Seq<char>, id: DeckId, m: Seq<char>) -> bool {
    exists|k: nat|
        {
            &&& m == n + pluses(k)
            &&& !name_taken(decks, m, id)
            &&& forall|j: nat| j < k ==> #[trigger] name_taken(decks, n + pluses(j), id)
        }
}

/// The names among `names` that no stored deck has, in their order.
pub open spec fn missing_names(decks: Seq<Deck>, names: Seq<Seq<char>>) -> Seq<Seq<char>>
    decreases names.len(),
{
    if names.len() == 0 {
        names
    } else {
        let m = missing_names(decks, names.drop_last());
        if has_name(decks, names.last()) {
            m
        } else {
            m.push(names.last())
        }
    }
}

/// The ancestors of `s` that the store lacks, nearest first: the decks that
/// materialising the parents of `s` creates.
pub open spec fn missing_ancestors(decks: Seq<Deck>, s: Seq<char>) -> Seq<Seq<char>> {
    missing_names(decks, ancestor_names(s))
}

/// `after` is `before` followed by one new normal deck for each of `names`,
/// in that order, stamped with `mtime_secs` and `usn`, with ids counting up
/// from one above the largest id of `before`.
pub open spec fn parents_added(
    before: Seq<Deck>,
    after: Seq<Deck>,
    names: Seq<Seq<char>>,
    mtime_secs: i64,
    usn: Usn,
) -> bool {
    &&& after.len() == before.len() + names.len()
    &&& after.subrange(0, before.len() as int) == before
    &&& forall|k: int|
        0 <= k < names.len() ==> {
            let d = #[trigger] after[before.len() + k];
            &&& d.name@ == names[k]
            &&& d.id.0 == max_id(before) + 1 + k
            &&& d.kind == DeckKind::Normal
            &&& d.mtime_secs == mtime_secs
            &&& d.usn == usn
        }
}

pub proof fn lemma_ancestors_exist(decks: Seq<Deck>, s: Seq<char>)
    ensures
        ancestors_exist(decks, s) <==> forall|k: int|
            0 <= k < ancestor_names(s).len() ==> has_name(decks, #[trigger] ancestor_names(s)[k]),
    decreases s.len(),
{
    lemma_ancestor_names(s);
    if let Some(p) = parent_name(s) {
        lemma_ancestors_exist(decks, p);
        let a = ancestor_names(s);
        assert(a =~= seq![p] + ancestor_names(p));
        assert forall|k: int| 0 <= k < ancestor_names(p).len() implies #[trigger] ancestor_names(p)[k] == a[k + 1] by {}
    }
}

/// A name stays taken when a deck is added.
pub proof fn lemma_has_name_push(decks: Seq<Deck>, d: Deck, n: Seq<char>)
    ensures
        has_name(decks, n) ==> has_name(decks.push(d), n),
        d.name@.len() != n.len() ==> has_name(decks.push(d), n) == has_name(decks, n),
{
    lemma_first_match_push(decks, d, n);
}

/// With every ancestor present, nothing is missing.
pub proof fn lemma_none_missing(decks: Seq<Deck>, names: Seq<Seq<char>>)
    requires
        forall|k: int| 0 <= k < names.len() ==> has_name(decks, #[trigger] names[k]),
    ensures
        missing_names(decks, names).len() == 0,
    decreases names.len(),
{
    if names.len() > 0 {
        assert forall|k: int| 0 <= k < names.len() - 1 implies has_name(
            decks,
            #[trigger] names.drop_last()[k],
        ) by {
            assert(names.drop_last()[k] == names[k]);
        }
        lemma_none_missing(decks, names.drop_last());
    }
}

pub proof fn lemma_first_match(decks: Seq<Deck>, n: Seq<char>)
    ensures
        first_match(decks, n) matches Some(i) ==> 0 <= i < decks.len() && names_match(
            decks[i].name@,
            n,
        ) && forall|j: int| 0 <= j < i ==> !names_match(#[trigger] decks[j].name@, n),
        first_match(decks, n) is None ==> forall|j: int|
            0 <= j < decks.len() ==> !names_match(#[trigger] decks[j].name@, n),
    decreases decks.len(),
{
    if decks.len() > 0 {
        lemma_first_match(decks.drop_last(), n);
        assert forall|j: int| 0 <= j < decks.len() - 1 implies decks[j] == decks.drop_last()[j] by {}
    }
}

/// Appending a deck leaves the earlier matches as they were.
pub proof fn lemma_first_match_push(decks: Seq<Deck>, d: Deck, n: Seq<char>)
    ensures
        first_match(decks.push(d), n) == (match first_match(decks, n) {
            Some(i) => Some(i),
            None => if names_match(d.name@, n) {
                Some(decks.len() as int)
            } else {
                None
            },
        }),
{
    assert(decks.push(d).drop_last() =~= decks);
}

/// The largest id in the store, or zero when there is none above zero.
pub open spec fn max_id(decks: Seq<Deck>) -> int
    decreases decks.len(),
{
    if decks.len() == 0 {
        0
    } else {
        let m = max_id(decks.drop_last());
        if decks.last().id.0 > m {
            decks.last().id.0 as int
        } else {
            m
        }
    }
}

pub proof fn lemma_max_id(decks: Seq<Deck>)
    ensures
        0 <= max_id(decks) <= i64::MAX,
        forall|i: int| 0 <= i < decks.len() ==> #[trigger] decks[i].id.0 <= max_id(decks),
        max_id(decks) == 0 || exists|i: int| 0 <= i < decks.len() && #[trigger] decks[i].id.0 == max_id(decks),
    decreases decks.len(),
{
    if decks.len() > 0 {
        lemma_max_id(decks.drop_last());
        assert forall|i: int| 0 <= i < decks.len() - 1 implies decks[i] == decks.drop_last()[i] by {}
        if max_id(decks) != 0 && max_id(decks) != decks.last().id.0 {
            let i = choose|i: int| 0 <= i < decks.len() - 1 && #[trigger] decks.drop_last()[i].id.0 == max_id(decks.drop_last());
            assert(decks[i] == decks.drop_last()[i]);
        }
    }
}

/// The longest name in the store.
pub open spec fn max_name_len(decks: Seq<Deck>) -> nat
    decreases decks.len(),
{
    if decks.len() == 0 {
        0
    } else {
        let m = max_name_len(decks.drop_last());
        if decks.last().name@.len() > m {
            decks.last().name@.len()
        } else {
            m
        }
    }
}

proof fn lemma_max_name_len(decks: Seq<Deck>)
    ensures
        forall|i: int| 0 <= i < decks.len() ==> #[trigger] decks[i].name@.len() <= max_name_len(decks),
    decreases decks.len(),
{
    if decks.len() > 0 {
        lemma_max_name_len(decks.drop_last());
        assert forall|i: int| 0 <= i < decks.len() - 1 implies decks[i] == decks.drop_last()[i] by {}
    }
}

/// The store: every deck, with the clock and sync version that the current
/// operation stamps on what it changes.
pub struct Collection {
    decks: Vec<Deck>,
    mtime_secs: i64,
    usn: Usn,
}

impl View for Collection {
    type V = Seq<Deck>;

    closed spec fn view(&self) -> Seq<Deck> {
        self.decks@
    }
}

impl Collection {
    pub closed spec fn clock(&self) -> i64 {
        self.mtime_secs
    }

    pub closed spec fn current_usn(&self) -> Usn {
        self.usn
    }

    pub open spec fn wf(&self) -> bool {
        ids_distinct(self@)
    }

    /// An empty store.
    pub fn new(mtime_secs: i64, usn: Usn) -> (c: Collection)
        ensures
            c@ == Seq::<Deck>::empty(),
            c.clock() == mtime_secs,
            c.current_usn() == usn,
            c.wf(),
    {
        Collection { decks: Vec::new(), mtime_secs, usn }
    }

    /// Sets the time and sync version that later changes are stamped with.
    pub fn set_clock(&mut self, mtime_secs: i64, usn: Usn)
        ensures
            final(self)@ == old(self)@,
            final(self).clock() == mtime_secs,
            final(self).current_usn() == usn,
    {
        self.mtime_secs = mtime_secs;
        self.usn = usn;
    }

    pub fn usn(&self) -> (r: Usn)
        ensures
            r == self.current_usn(),
    {
        self.usn
    }

    pub fn now(&self) -> (r: i64)
        ensures
            r == self.clock(),
    {
        self.mtime_secs
    }

    /// Every stored deck, in the order in which they were first stored.
    pub fn decks(&self) -> (r: &Vec<Deck>)
        ensures
            r@ == self@,
    {
        &self.decks
    }

    /// The deck with id `id`.
    pub fn get_deck(&self, id: DeckId) -> (r: Option<Deck>)
        ensures
            r is Some <==> has_id(self@, id),
            r matches Some(d) ==> d.id == id && self@.contains(d),
    {
        let mut i: usize = 0;
        while i < self.decks.len()
            invariant
                i <= self@.len(),
                forall|j: int| 0 <= j < i ==> self@[j].id != id,
            decreases self@.len() - i,
        {
            if self.decks[i].id == id {
                return Some(self.decks[i].duplicate());
            }
            i = i + 1;
        }
        None
    }

    /// The id of the first deck whose name matches `name`.
    pub fn get_deck_id(&self, name: &str) -> (r: Option<DeckId>)
        ensures
            r == (match first_match(self@, name@) {
                Some(i) => Some(self@[i].id),
                None => None::<DeckId>,
            }),
    {
        proof {
            lemma_first_match(self@, name@);
        }
        let mut i: usize = 0;
        while i < self.decks.len()
            invariant
                i <= self@.len(),
                forall|j: int| 0 <= j < i ==> !names_match(#[trigger] self@[j].name@, name@),
                first_match(self@, name@) matches Some(k) ==> 0 <= k < self@.len() && names_match(
                    self@[k].name@,
                    name@,
                ) && forall|j: int| 0 <= j < k ==> !names_match(#[trigger] self@[j].name@, name@),
                first_match(self@, name@) is None ==> forall|j: int|
                    0 <= j < self@.len() ==> !names_match(#[trigger] self@[j].name@, name@),
            decreases self@.len() - i,
        {
            if name_matches(self.decks[i].name.as_str(), name) {
                return Some(self.decks[i].id);
            }
            i = i + 1;
        }
        None
    }

    /// Whether `name` belongs to a deck other than the one with id `id`.
    pub fn name_taken_by_other(&self, name: &str, id: DeckId) -> (r: bool)
        ensures
            r == name_taken(self@, name@, id),
    {
        match self.get_deck_id(name) {
            Some(did) => did != id,
            None => false,
        }
    }

    /// Appends plus signs to the deck's name until no other deck has it,
    /// stamping the deck if its name changed.
    pub(crate) fn ensure_deck_name_unique(&self, deck: &mut Deck, usn: Usn)
        ensures
            unique_name_for(self@, old(deck).name@, old(deck).id, final(deck).name@),
            final(deck).id == old(deck).id,
            final(deck).kind == old(deck).kind,
            final(deck).name@ == old(deck).name@ ==> *final(deck) == *old(deck),
            final(deck).name@ != old(deck).name@ ==> final(deck).mtime_secs == self.clock()
                && final(deck).usn == usn,
    {
        let ghost n = deck.name@;
        let ghost maxlen = max_name_len(self@);
        let ghost mut k: nat = 0;
        proof {
            lemma_max_name_len(self@);
            lemma_first_match(self@, n);
            assert(n + pluses(0) =~= n);
        }
        while self.name_taken_by_other(deck.name.as_str(), deck.id)
            invariant
                deck.name@ == n + pluses(k),
                forall|j: nat| j < k ==> #[trigger] name_taken(self@, n + pluses(j), old(deck).id),
                deck.id == old(deck).id,
                deck.kind == old(deck).kind,
                k == 0 ==> *deck == *old(deck),
                k > 0 ==> deck.mtime_secs == self.clock() && deck.usn == usn,
                k > 0 ==> deck.name@.len() <= maxlen + 1,
                forall|i: int|
                    0 <= i < self@.len() ==> #[trigger] self@[i].name@.len() <= maxlen,
            decreases maxlen + 1 - deck.name@.len(),
        {
            proof {
                lemma_first_match(self@, deck.name@);
                let i = first_match(self@, deck.name@)->0;
                assert(self@[i].name@.len() <= maxlen);
            }
            deck.name.append("+");
            proof {
                reveal_strlit("+");
                assert(n + pluses(k) + "+"@ =~= n + pluses(k + 1));
                k = k + 1;
            }
            let mtime_secs = self.mtime_secs;
            deck.set_modified(mtime_secs, usn);
        }
    }

    /// Stores `deck` under a new id, one above every id in use.
    pub(crate) fn add_deck_undoable(&mut self, deck: &mut Deck) -> (r: Result<(), AnkiError>)
        requires
            old(self).wf(),
        ensures
            final(self).wf(),
            final(self).clock() == old(self).clock(),
            final(self).current_usn() == old(self).current_usn(),
            r is Err <==> max_id(old(self)@) == i64::MAX,
            r is Err ==> r == Err::<(), AnkiError>(AnkiError::DbError) && final(self)@ == old(
                self,
            )@ && *final(deck) == *old(deck),
            r is Ok ==> {
                &&& *final(deck) == (Deck { id: DeckId((max_id(old(self)@) + 1) as i64), ..*old(deck) })
                &&& final(self)@ == old(self)@.push(*final(deck))
                &&& max_id(final(self)@) == max_id(old(self)@) + 1
            },
    {
        let mut max: i64 = 0;
        let mut i: usize = 0;
        while i < self.decks.len()
            invariant
                i <= self@.len(),
                max == max_id(self@.subrange(0, i as int)),
            decreases self@.len() - i,
        {
            assert(self@.subrange(0, i + 1).drop_last() =~= self@.subrange(0, i as int));
            if self.decks[i].id.0 > max {
                max = self.decks[i].id.0;
            }
            i = i + 1;
        }
        assert(self@.subrange(0, i as int) =~= self@);
        proof {
            lemma_max_id(self@);
        }
        if max == i64::MAX {
            return Err(AnkiError::DbError);
        }
        deck.id = DeckId(max + 1);
        let ghost before = self@;
        self.decks.push(deck.duplicate());
        assert(self@.drop_last() =~= before);
        assert(forall|j: int| 0 <= j < before.len() ==> self@[j] == before[j]);
        assert forall|j: int| 0 <= j < before.len() implies self@[j].id != deck.id by {
            assert(self@[j] == before[j]);
            assert(before[j].id.0 <= max);
        }
        Ok(())
    }

    /// Replaces the stored row that has `deck`'s id.
    pub(crate) fn update_single_deck_undoable(&mut self, deck: &Deck) -> (r: Result<(), AnkiError>)
        requires
            old(self).wf(),
        ensures
            final(self).wf(),
            final(self).clock() == old(self).clock(),
            final(self).current_usn() == old(self).current_usn(),
            r is Ok <==> has_id(old(self)@, deck.id),
            r is Ok ==> final(self)@ == replaced(old(self)@, *deck),
            r is Err ==> r == Err::<(), AnkiError>(AnkiError::NotFound) && final(self)@ == old(
                self,
            )@,
    {
        let mut i: usize = 0;
        while i < self.decks.len()
            invariant
                *self == *old(self),
                self.wf(),
                i <= self@.len(),
                forall|j: int| 0 <= j < i ==> self@[j].id != deck.id,
            decreases self@.len() - i,
        {
            if self.decks[i].id == deck.id {
                let ghost before = self@;
                self.decks.set(i, deck.duplicate());
                assert(self@ =~= replaced(before, *deck));
                return Ok(());
            }
            i = i + 1;
        }
        Err(AnkiError::NotFound)
    }

    /// Replaces the stored row that has `deck`'s id, or stores `deck` as a
    /// new row under its own id.
    pub(crate) fn add_or_update_deck_with_existing_id_undoable(&mut self, deck: &Deck)
        requires
            old(self).wf(),
            deck.id.0 != 0,
        ensures
            final(self).wf(),
            final(self).clock() == old(self).clock(),
            final(self).current_usn() == old(self).current_usn(),
            has_id(old(self)@, deck.id) ==> final(self)@ == replaced(old(self)@, *deck),
            !has_id(old(self)@, deck.id) ==> final(self)@ == old(self)@.push(*deck),
    {
        match self.update_single_deck_undoable(deck) {
            Ok(()) => {},
            Err(_) => {
                self.decks.push(deck.duplicate());
            },
        }
    }

    /// Moves every descendant of `parent` under `new_name`.
    pub(crate) fn rename_child_decks(&mut self, parent: &Deck, new_name: &str, usn: Usn)
        requires
            old(self).wf(),
        ensures
            final(self).wf(),
            final(self).clock() == old(self).clock(),
            final(self).current_usn() == old(self).current_usn(),
            children_renamed(
                old(self)@,
                final(self)@,
                parent.name@,
                new_name@,
                old(self).clock(),
                usn,
            ),
    {
        let ghost before = self@;
        let plen: usize = parent.name.unicode_len();
        let mtime_secs = self.mtime_secs;
        let mut i: usize = 0;
        while i < self.decks.len()
            invariant
                self@.len() == before.len(),
                i <= self@.len(),
                plen == parent.name@.len(),
                mtime_secs == self.clock(),
                self.clock() == old(self).clock(),
                self.current_usn() == old(self).current_usn(),
                ids_distinct(before),
                forall|j: int| 0 <= j < self@.len() ==> #[trigger] self@[j].id == before[j].id,
                forall|j: int| i <= j < self@.len() ==> #[trigger] self@[j] == before[j],
                forall|j: int|
                    0 <= j < i ==> if is_descendant(#[trigger] before[j].name@, parent.name@) {
                        &&& self@[j].name@ == moved_name(before[j].name@, parent.name@.len(), new_name@)
                        &&& self@[j].id == before[j].id
                        &&& self@[j].kind == before[j].kind
                        &&& self@[j].mtime_secs == mtime_secs
                        &&& self@[j].usn == usn
                    } else {
                        self@[j] == before[j]
                    },
            decreases self@.len() - i,
        {
            let clen: usize = self.decks[i].name.unicode_len();
            let child = clen > plen && self.decks[i].name.as_str().get_char(plen) == SEP
                && name_matches(self.decks[i].name.as_str().substring_char(0, plen), parent.name.as_str());
            if child {
                let mut d = self.decks[i].duplicate();
                let mut renamed = String::from_str(new_name);
                renamed.append(self.decks[i].name.as_str().substring_char(plen, clen));
                d.name = renamed;
                d.set_modified(mtime_secs, usn);
                self.decks.set(i, d);
            }
            i = i + 1;
        }
        assert(children_renamed(before, self@, parent.name@, new_name@, mtime_secs, usn));
    }

    /// A copy of every stored deck, for rolling back.
    pub(crate) fn snapshot(&self) -> (r: Vec<Deck>)
        ensures
            r@ == self@,
    {
        let mut out: Vec<Deck> = Vec::new();
        let mut i: usize = 0;
        while i < self.decks.len()
            invariant
                i <= self@.len(),
                out@ == self@.subrange(0, i as int),
            decreases self@.len() - i,
        {
            out.push(self.decks[i].duplicate());
            i = i + 1;
            assert(out@ =~= self@.subrange(0, i as int));
        }
        assert(out@ =~= self@);
        out
    }

    /// Puts back what `snapshot` took.
    pub(crate) fn restore(&mut self, saved: Vec<Deck>)
        ensures
            final(self)@ == saved@,
            final(self).clock() == old(self).clock(),
            final(self).current_usn() == old(self).current_usn(),
    {
        self.decks = saved;
    }
}

} // verus!
