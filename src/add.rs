use vstd::prelude::*;
use vstd::string::*;

use crate::deck::{AnkiError, Deck, DeckId, DeckKind, Usn};
use crate::name::{
    ancestor_names, immediate_parent_name, lemma_ancestor_names, lemma_parent_some,
    normalize_native_name, normalized, parent_name, SEP,
};
use crate::store::{
    ancestors_exist, children_renamed, first_match, has_id, has_name, lemma_ancestors_exist,
    lemma_first_match, lemma_has_name_push, max_id, missing_ancestors, missing_names,
    parents_added, replaced, unique_name_for, Collection,
};

verus! {

/// What is missing among the first names is the start of what is missing
/// among all of them.
proof fn lemma_missing_prefix(decks: Seq<Deck>, names: Seq<Seq<char>>, m: int)
    requires
        0 <= m <= names.len(),
    ensures
        missing_names(decks, names.subrange(0, m)).len() <= missing_names(decks, names).len(),
        missing_names(decks, names.subrange(0, m)) == missing_names(decks, names).subrange(
            0,
            missing_names(decks, names.subrange(0, m)).len() as int,
        ),
    decreases names.len(),
{
    if m < names.len() {
        assert(names.drop_last().subrange(0, m) =~= names.subrange(0, m));
        lemma_missing_prefix(decks, names.drop_last(), m);
        let a = missing_names(decks, names.subrange(0, m));
        let b = missing_names(decks, names.drop_last());
        assert(b.push(names.last()).subrange(0, a.len() as int) =~= b.subrange(0, a.len() as int));
    } else {
        assert(names.subrange(0, m) =~= names);
    }
}

/// The most nesting that ancestor resolution walks through.
pub const MAX_NESTING: usize = 10;

/// The nearest ancestor of `s` that the store has, looked up from nesting
/// level `level`; `Err` when the walk would pass the nesting limit.
pub open spec fn resolve_parent(decks: Seq<Deck>, s: Seq<char>, level: int) -> Result<
    Option<Seq<char>>,
    (),
>
    decreases s.len(),
    via resolve_parent_decreases
{
    if level > MAX_NESTING {
        Err(())
    } else {
        match parent_name(s) {
            None => Ok(None),
            Some(p) => if has_name(decks, p) {
                Ok(Some(p))
            } else {
                resolve_parent(decks, p, level + 1)
            },
        }
    }
}

#[via_fn]
proof fn resolve_parent_decreases(decks: Seq<Deck>, s: Seq<char>, level: int) {
    if parent_name(s) is Some {
        lemma_parent_some(s);
    }
}

/// `a` is a proper ancestor of `s`: a prefix of it that ends where a
/// separator starts.
pub open spec fn is_ancestor(a: Seq<char>, s: Seq<char>) -> bool {
    &&& a.len() < s.len()
    &&& a == s.subrange(0, a.len() as int)
    &&& s[a.len() as int] == SEP
}

/// The name that the deck asking for `s` gets when `found` is the stored
/// name of its nearest existing ancestor `a`: that ancestor's spelling,
/// then the rest of `s`.
pub open spec fn reconciled_name(found: Seq<char>, a: Seq<char>, s: Seq<char>) -> Seq<char> {
    found + s.subrange(a.len() as int, s.len() as int)
}

/// What resolution finds is a stored ancestor of the name.
pub proof fn lemma_resolve_parent(decks: Seq<Deck>, s: Seq<char>, level: int)
    ensures
        resolve_parent(decks, s, level) matches Ok(Some(a)) ==> is_ancestor(a, s) && has_name(
            decks,
            a,
        ),
        resolve_parent(decks, s, level) matches Ok(None) ==> level <= MAX_NESTING,
    decreases s.len(),
{
    if level <= MAX_NESTING {
        if let Some(p) = parent_name(s) {
            lemma_parent_some(s);
            if !has_name(decks, p) {
                lemma_resolve_parent(decks, p, level + 1);
                if let Ok(Some(a)) = resolve_parent(decks, p, level + 1) {
                    assert(s.subrange(0, a.len() as int) =~= p.subrange(0, a.len() as int));
                    assert(s[a.len() as int] == p[a.len() as int]);
                }
            }
        }
    }
}

/// Every stored deck has all of its ancestors stored.
pub open spec fn hierarchy_complete(decks: Seq<Deck>) -> bool {
    forall|i: int| 0 <= i < decks.len() ==> ancestors_exist(decks, #[trigger] decks[i].name@)
}

/// Adding decks never takes an ancestor away.
pub proof fn lemma_ancestors_exist_push(decks: Seq<Deck>, d: Deck, s: Seq<char>)
    requires
        ancestors_exist(decks, s),
    ensures
        ancestors_exist(decks.push(d), s),
    decreases s.len(),
{
    if let Some(p) = parent_name(s) {
        lemma_parent_some(s);
        lemma_has_name_push(decks, d, p);
        lemma_ancestors_exist_push(decks, d, p);
    }
}

/// What reconciling `before_deck` against the store `before` leaves: the
/// deck `after_deck` and the store `after`, with result `r`.
pub open spec fn matched_parents(
    before: Seq<Deck>,
    after: Seq<Deck>,
    before_deck: Deck,
    after_deck: Deck,
    mtime_secs: i64,
    usn: Usn,
    r: Result<(), AnkiError>,
) -> bool {
    let n = before_deck.name@;
    let unchanged = after == before && after_deck == before_deck;
    match resolve_parent(before, n, 0) {
        Err(()) => r == Err::<(), AnkiError>(AnkiError::InvalidInput) && unchanged,
        Ok(Some(a)) => {
            let found = before[first_match(before, a)->0];
            if found.kind == DeckKind::Filtered {
                r == Err::<(), AnkiError>(AnkiError::FilteredDeckMustBeLeaf) && unchanged
            } else {
                let m = reconciled_name(found.name@, a, n);
                &&& after_deck == (Deck { name: after_deck.name, ..before_deck })
                &&& after_deck.name@ == m
                &&& if Some(a) == parent_name(n) {
                    &&& r is Ok
                    &&& after == before
                    &&& ancestors_exist(before, found.name@) ==> ancestors_exist(after, m)
                } else {
                    created_parents(before, after, m, mtime_secs, usn, r)
                }
            }
        },
        Ok(None) => after_deck == before_deck && created_parents(
            before,
            after,
            n,
            mtime_secs,
            usn,
            r,
        ),
    }
}

/// What materialising the ancestors of `s` in `before` leaves: the store
/// `after`, with result `r`.
pub open spec fn created_parents(
    before: Seq<Deck>,
    after: Seq<Deck>,
    s: Seq<char>,
    mtime_secs: i64,
    usn: Usn,
    r: Result<(), AnkiError>,
) -> bool {
    &&& r is Err <==> max_id(before) + missing_ancestors(before, s).len() > i64::MAX
    &&& r is Err ==> r == Err::<(), AnkiError>(AnkiError::DbError)
    &&& r is Err ==> exists|j: int|
        0 <= j < missing_ancestors(before, s).len() && #[trigger] parents_added(
            before,
            after,
            missing_ancestors(before, s).subrange(0, j),
            mtime_secs,
            usn,
        )
    &&& r is Ok ==> parents_added(before, after, missing_ancestors(before, s), mtime_secs, usn)
    &&& r is Ok ==> ancestors_exist(after, s)
}

/// The result of an operation, without what it returns.
pub open spec fn unit_result<T>(r: Result<T, AnkiError>) -> Result<(), AnkiError> {
    match r {
        Ok(_) => Ok(()),
        Err(e) => Err(e),
    }
}

/// The kind of change that a public operation made, for the undo system.
#[derive(Clone, Copy, Debug, PartialEq, Eq, Structural)]
pub enum Op {
    AddDeck,
    UpdateDeck,
}

/// The result of a public operation, tagged with what it was.
#[derive(Debug)]
pub struct OpOutput<T> {
    pub op: Op,
    pub output: T,
}

/// `after` is `before` with its name made canonical and then unique in
/// `decks`, stamped if the name changed.
pub open spec fn prepared(decks: Seq<Deck>, before: Deck, after: Deck, mtime_secs: i64, usn: Usn) -> bool {
    &&& unique_name_for(decks, normalized(before.name@), before.id, after.name@)
    &&& after.id == before.id
    &&& after.kind == before.kind
    &&& if normalized(before.name@) == before.name@ && after.name@ == before.name@ {
        after == before
    } else {
        after.mtime_secs == mtime_secs && after.usn == usn
    }
}

/// What storing the reconciled deck `m` in `mid` leaves: the stored deck
/// `d1`, the store `after`, and the result `r`.
pub open spec fn stored_new(mid: Seq<Deck>, after: Seq<Deck>, m: Deck, d1: Deck, r: Result<(), AnkiError>) -> bool {
    &&& r is Err <==> max_id(mid) == i64::MAX
    &&& r is Err ==> r == Err::<(), AnkiError>(AnkiError::DbError)
    &&& r is Ok ==> d1 == (Deck { id: DeckId((max_id(mid) + 1) as i64), ..m }) && after == mid.push(d1)
}

/// What adding the deck `d0` to the store `before` leaves: the deck `d1`,
/// the store `after` and the result `r`. The name is made canonical and
/// unique, the deck stamped, its name reconciled with its ancestors and the
/// missing ones created, and the deck stored under a new id.
pub open spec fn deck_added(
    before: Seq<Deck>,
    after: Seq<Deck>,
    d0: Deck,
    d1: Deck,
    mtime_secs: i64,
    usn: Usn,
    r: Result<(), AnkiError>,
) -> bool {
    exists|p: Deck, mid: Seq<Deck>, m: Deck, rm: Result<(), AnkiError>|
        #![trigger prepared(before, d0, p, mtime_secs, usn), matched_parents(before, mid, Deck { mtime_secs, usn, ..p }, m, mtime_secs, usn, rm)]
        {
            &&& prepared(before, d0, p, mtime_secs, usn)
            &&& matched_parents(before, mid, Deck { mtime_secs, usn, ..p }, m, mtime_secs, usn, rm)
            &&& match rm {
                Err(e) => r == Err::<(), AnkiError>(e),
                Ok(()) => stored_new(mid, after, m, d1, r),
            }
        }
}

/// What storing the prepared deck `s` as the new state of `original` leaves:
/// the deck `d1`, the store `after` and the result `r`. A deck whose name
/// changed is reconciled with its ancestors, its descendants follow it, the
/// row is replaced, and the ancestors of the new name are completed.
pub open spec fn moved_and_stored(
    before: Seq<Deck>,
    after: Seq<Deck>,
    original: Deck,
    s: Deck,
    d1: Deck,
    mtime_secs: i64,
    usn: Usn,
    r: Result<(), AnkiError>,
) -> bool {
    if s.name@ == original.name@ {
        &&& d1 == s
        &&& r is Ok <==> has_id(before, s.id)
        &&& r is Ok ==> after == replaced(before, s)
        &&& r is Err ==> r == Err::<(), AnkiError>(AnkiError::NotFound)
    } else {
        exists|mid: Seq<Deck>, m: Deck, rm: Result<(), AnkiError>|
            #[trigger] matched_parents(before, mid, s, m, mtime_secs, usn, rm) && match rm {
                Err(e) => r == Err::<(), AnkiError>(e),
                Ok(()) => d1 == m && renamed_then_stored(mid, after, original, m, mtime_secs, usn, r),
            }
    }
}

/// The descendants of `original` in `mid` moved under the name of `m`, then
/// the row of `m` replaced and the ancestors of its name completed.
pub open spec fn renamed_then_stored(
    mid: Seq<Deck>,
    after: Seq<Deck>,
    original: Deck,
    m: Deck,
    mtime_secs: i64,
    usn: Usn,
    r: Result<(), AnkiError>,
) -> bool {
    exists|ren: Seq<Deck>|
        #[trigger] children_renamed(mid, ren, original.name@, m.name@, mtime_secs, usn) && if has_id(
            ren,
            m.id,
        ) {
            exists|fin: Seq<Deck>|
                #[trigger] created_parents(replaced(ren, m), fin, m.name@, mtime_secs, usn, r) && (r is Ok
                    ==> after == fin)
        } else {
            r == Err::<(), AnkiError>(AnkiError::NotFound)
        }
}

/// What updating the stored deck `original` to `d0` leaves: the deck `d1`,
/// the store `after` and the result `r`.
pub open spec fn deck_updated(
    before: Seq<Deck>,
    after: Seq<Deck>,
    original: Deck,
    d0: Deck,
    d1: Deck,
    mtime_secs: i64,
    usn: Usn,
    r: Result<(), AnkiError>,
) -> bool {
    exists|p: Deck|
        #[trigger] prepared(before, d0, p, mtime_secs, usn) && moved_and_stored(
            before,
            after,
            original,
            Deck { mtime_secs, usn, ..p },
            d1,
            mtime_secs,
            usn,
            r,
        )
}

/// The name of a deck recovered under id `id`.
pub open spec fn recovered_name(id: i64) -> Seq<char> {
    "recovered"@ + signed_decimal(id as int)
}

/// The digit characters, by value.
pub open spec fn digit_chars() -> Seq<char> {
    seq!['0', '1', '2', '3', '4', '5', '6', '7', '8', '9']
}

/// The decimal digits of `n`, without leading zeros.
pub open spec fn decimal(n: nat) -> Seq<char>
    decreases n,
{
    if n < 10 {
        seq![digit_chars()[n as int]]
    } else {
        decimal(n / 10).push(digit_chars()[(n % 10) as int])
    }
}

/// `n` in decimal, with a minus sign when it is negative.
pub open spec fn signed_decimal(n: int) -> Seq<char> {
    if n < 0 {
        seq!['-'] + decimal((-n) as nat)
    } else {
        decimal(n as nat)
    }
}

/// `p` is the placeholder deck stored for the missing id `did`.
pub open spec fn recovered(decks: Seq<Deck>, p: Deck, did: DeckId, mtime_secs: i64, usn: Usn) -> bool {
    &&& p.id == did
    &&& p.kind == DeckKind::Normal
    &&& p.mtime_secs == mtime_secs
    &&& p.usn == usn
    &&& unique_name_for(decks, normalized(recovered_name(did.0)), did, p.name@)
}

fn digit_str(d: u64) -> (r: &'static str)
    requires
        d < 10,
    ensures
        r@ == seq![digit_chars()[d as int]],
{
    proof {
        reveal_strlit("0");
        reveal_strlit("1");
        reveal_strlit("2");
        reveal_strlit("3");
        reveal_strlit("4");
        reveal_strlit("5");
        reveal_strlit("6");
        reveal_strlit("7");
        reveal_strlit("8");
        reveal_strlit("9");
    }
    match d {
        0 => "0",
        1 => "1",
        2 => "2",
        3 => "3",
        4 => "4",
        5 => "5",
        6 => "6",
        7 => "7",
        8 => "8",
        _ => "9",
    }
}

/// Appends the decimal digits of `n` to `out`.
fn append_decimal(out: &mut String, n: u64)
    ensures
        final(out)@ == old(out)@ + decimal(n as nat),
    decreases n,
{
    if n >= 10 {
        append_decimal(out, n / 10);
    }
    out.append(digit_str(n % 10));
    proof {
        if n >= 10 {
            assert(decimal(n as nat) == decimal((n / 10) as nat).push(digit_chars()[(n % 10) as int]));
        }
    }
    assert(final(out)@ =~= old(out)@ + decimal(n as nat)) by {
        if n < 10 {
            assert(decimal(n as nat) == seq![digit_chars()[n as int]]);
        }
    }
}

/// The name of the placeholder deck for `did`.
fn recovered_name_of(did: DeckId) -> (r: String)
    ensures
        r@ == recovered_name(did.0),
{
    let mut out = String::from_str("recovered");
    proof {
        reveal_strlit("recovered");
        reveal_strlit("-");
    }
    let magnitude: u64 = if did.0 < 0 {
        out.append("-");
        ((-(did.0 + 1)) as u64) + 1
    } else {
        did.0 as u64
    };
    append_decimal(&mut out, magnitude);
    assert(out@ =~= recovered_name(did.0));
    out
}

/// A failed update says nothing of the store it leaves, so the store put
/// back after the failure fits it as well.
proof fn lemma_failed_update_any_store(
    before: Seq<Deck>,
    a1: Seq<Deck>,
    a2: Seq<Deck>,
    original: Deck,
    d0: Deck,
    d1: Deck,
    mtime_secs: i64,
    usn: Usn,
    r: Result<(), AnkiError>,
)
    requires
        deck_updated(before, a1, original, d0, d1, mtime_secs, usn, r),
        r is Err,
    ensures
        deck_updated(before, a2, original, d0, d1, mtime_secs, usn, r),
{
    let p = choose|p: Deck|
        #[trigger] prepared(before, d0, p, mtime_secs, usn) && moved_and_stored(
            before,
            a1,
            original,
            Deck { mtime_secs, usn, ..p },
            d1,
            mtime_secs,
            usn,
            r,
        );
    let s = Deck { mtime_secs, usn, ..p };
    if s.name@ != original.name@ {
        let (mid, m, rm) = choose|mid: Seq<Deck>, m: Deck, rm: Result<(), AnkiError>|
            #[trigger] matched_parents(before, mid, s, m, mtime_secs, usn, rm) && match rm {
                Err(e) => r == Err::<(), AnkiError>(e),
                Ok(()) => d1 == m && renamed_then_stored(mid, a1, original, m, mtime_secs, usn, r),
            };
        if rm is Ok {
            let ren = choose|ren: Seq<Deck>|
                #[trigger] children_renamed(mid, ren, original.name@, m.name@, mtime_secs, usn)
                    && if has_id(ren, m.id) {
                    exists|fin: Seq<Deck>|
                        #[trigger] created_parents(replaced(ren, m), fin, m.name@, mtime_secs, usn, r)
                            && (r is Ok ==> a1 == fin)
                } else {
                    r == Err::<(), AnkiError>(AnkiError::NotFound)
                };
            if has_id(ren, m.id) {
                let fin = choose|fin: Seq<Deck>|
                    #[trigger] created_parents(replaced(ren, m), fin, m.name@, mtime_secs, usn, r)
                        && (r is Ok ==> a1 == fin);
                assert(created_parents(replaced(ren, m), fin, m.name@, mtime_secs, usn, r));
            }
            assert(children_renamed(mid, ren, original.name@, m.name@, mtime_secs, usn));
            assert(renamed_then_stored(mid, a2, original, m, mtime_secs, usn, r));
        }
        assert(matched_parents(before, mid, s, m, mtime_secs, usn, rm));
    }
    assert(moved_and_stored(before, a2, original, s, d1, mtime_secs, usn, r));
}

impl Collection {
    /// Stores a new normal deck named `machine_name`, as the parent of some
    /// other deck.
    fn add_parent_deck(&mut self, machine_name: &str, usn: Usn) -> (r: Result<(), AnkiError>)
        requires
            old(self).wf(),
        ensures
            final(self).wf(),
            final(self).clock() == old(self).clock(),
            final(self).current_usn() == old(self).current_usn(),
            r is Err <==> max_id(old(self)@) == i64::MAX,
            r is Err ==> r == Err::<(), AnkiError>(AnkiError::DbError) && final(self)@ == old(
                self,
            )@,
            r is Ok ==> max_id(final(self)@) == max_id(old(self)@) + 1,
            r is Ok ==> parents_added(
                old(self)@,
                final(self)@,
                seq![machine_name@],
                old(self).clock(),
                usn,
            ),
    {
        let mut deck = Deck::new_normal();
        deck.name = String::from_str(machine_name);
        let mtime_secs = self.now();
        deck.set_modified(mtime_secs, usn);
        let ghost before = self@;
        let r = self.add_deck_undoable(&mut deck);
        proof {
            if r is Ok {
                assert(self@.subrange(0, before.len() as int) =~= before);
                assert(self@[before.len() + 0int] == deck);
            }
        }
        r
    }

    /// Creates every ancestor of `machine_name` that the store lacks, nearest
    /// first.
    fn create_missing_parents(&mut self, machine_name: &str, usn: Usn) -> (r: Result<
        (),
        AnkiError,
    >)
        requires
            old(self).wf(),
        ensures
            final(self).wf(),
            final(self).clock() == old(self).clock(),
            final(self).current_usn() == old(self).current_usn(),
            created_parents(old(self)@, final(self)@, machine_name@, old(self).clock(), usn, r),
    {
        let mut name: &str = machine_name;
        let ghost s = name@;
        let ghost before = self@;
        let ghost anc = ancestor_names(s);
        let ghost mut k: int = 0;
        proof {
            lemma_ancestor_names(s);
            crate::store::lemma_max_id(before);
            assert(anc.subrange(0, 0) =~= Seq::<Seq<char>>::empty());
            assert(before.subrange(0, before.len() as int) =~= before);
            assert(anc.subrange(0, anc.len() as int) =~= anc);
        }
        loop
            invariant
                self.wf(),
                self.clock() == old(self).clock(),
                self.current_usn() == old(self).current_usn(),
                anc == ancestor_names(s),
                before == old(self)@,
                s == machine_name@,
                0 <= k <= anc.len(),
                name@ == (if k == 0 { s } else { anc[k - 1] }),
                ancestor_names(name@) == anc.subrange(k, anc.len() as int),
                forall|j: int| 0 <= j < k ==> has_name(self@, #[trigger] anc[j]),
                forall|j: int| k <= j < anc.len() ==> has_name(self@, #[trigger] anc[j]) == has_name(
                    before,
                    anc[j],
                ),
                parents_added(before, self@, missing_names(before, anc.subrange(0, k)), self.clock(), usn),
                forall|i: int|
                    before.len() <= i < self@.len() ==> #[trigger] self@[i].name@.len() >= (
                    name@.len() as int),
                max_id(self@) == max_id(before) + missing_names(before, anc.subrange(0, k)).len(),
                max_id(self@) <= i64::MAX,
            ensures
                k == anc.len(),
            decreases name@.len(),
        {
            proof {
                lemma_ancestor_names(name@);
            }
            let parent = match immediate_parent_name(name) {
                Some(p) => p,
                None => break,
            };
            assert(parent@ == anc[k]);
            assert(anc.subrange(0, k + 1).drop_last() =~= anc.subrange(0, k));
            let ghost m = missing_names(before, anc.subrange(0, k));
            if self.get_deck_id(parent).is_none() {
                let ghost mid = self@;
                assert(!has_name(before, anc[k]));
                assert(missing_names(before, anc.subrange(0, k + 1)) == m.push(anc[k]));
                match self.add_parent_deck(parent, usn) {
                    Ok(()) => {},
                    Err(e) => {
                        proof {
                            lemma_missing_prefix(before, anc, k + 1);
                            lemma_missing_prefix(before, anc, k);
                            assert(parents_added(
                                before,
                                self@,
                                missing_ancestors(before, s).subrange(0, m.len() as int),
                                self.clock(),
                                usn,
                            ));
                        }
                        return Err(e);
                    },
                }
                proof {
                    lemma_ancestor_names(s);
                    let d = self@[mid.len() + 0int];
                    assert(d.name@ == seq![parent@][0int]);
                    assert(self@ =~= mid.push(d));
                    assert(d.name@ == anc[k]);
                    assert forall|j: int| 0 <= j < anc.len() implies has_name(self@, #[trigger] anc[j])
                        == (if j <= k { true } else { has_name(before, anc[j]) }) by {
                        lemma_has_name_push(mid, d, anc[j]);
                        crate::store::lemma_first_match_push(mid, d, anc[j]);
                        if j > k {
                            assert(anc[j].len() < anc[k].len());
                        } else if j == k {
                            assert(crate::name::names_match(d.name@, anc[k]));
                        }
                    }
                    assert(self@.subrange(0, before.len() as int) =~= before);
                    assert forall|i: int| 0 <= i < m.len() implies #[trigger] self@[before.len() + i]
                        == mid[before.len() + i] by {}
                }
            } else {
                assert(has_name(self@, anc[k]));
                assert(missing_names(before, anc.subrange(0, k + 1)) == m);
            }
            name = parent;
            proof {
                k = k + 1;
            }
        }
        proof {
            lemma_ancestors_exist(self@, s);
        }
        Ok(())
    }

    /// The nearest stored ancestor of `machine_name`, walking up from nesting
    /// level `recursion_level`.
    fn first_existing_parent(&self, machine_name: &str, recursion_level: usize) -> (r: Result<
        Option<Deck>,
        AnkiError,
    >)
        requires
            self.wf(),
        ensures
            r == (match resolve_parent(self@, machine_name@, recursion_level as int) {
                Err(()) => Err(AnkiError::InvalidInput),
                Ok(None) => Ok(None),
                Ok(Some(a)) => Ok(Some(self@[first_match(self@, a)->0])),
            }),
        decreases machine_name@.len(),
    {
        if recursion_level > MAX_NESTING {
            return Err(AnkiError::InvalidInput);
        }
        if let Some(parent_name) = immediate_parent_name(machine_name) {
            proof {
                lemma_parent_some(machine_name@);
            }
            if let Some(parent_did) = self.get_deck_id(parent_name) {
                proof {
                    lemma_first_match(self@, parent_name@);
                }
                let found = self.get_deck(parent_did);
                proof {
                    let i = first_match(self@, parent_name@)->0;
                    assert(has_id(self@, parent_did));
                    let d = found->0;
                    let j = choose|j: int| 0 <= j < self@.len() && self@[j] == d;
                    assert(self@[j].id == self@[i].id);
                }
                Ok(found)
            } else {
                self.first_existing_parent(parent_name, recursion_level + 1)
            }
        } else {
            Ok(None)
        }
    }

    /// Gives the deck's name the spelling of its nearest stored ancestor and
    /// creates the ancestors that are still missing below it; with no stored
    /// ancestor, creates them all.
    fn match_or_create_parents(&mut self, deck: &mut Deck, usn: Usn) -> (r: Result<(), AnkiError>)
        requires
            old(self).wf(),
        ensures
            final(self).wf(),
            final(self).clock() == old(self).clock(),
            final(self).current_usn() == old(self).current_usn(),
            matched_parents(
                old(self)@,
                final(self)@,
                *old(deck),
                *final(deck),
                old(self).clock(),
                usn,
                r,
            ),
    {
        let ghost d0 = self@;
        let ghost n = deck.name@;
        proof {
            lemma_resolve_parent(d0, n, 0);
            lemma_ancestor_names(n);
        }
        let found = match self.first_existing_parent(deck.name.as_str(), 0) {
            Ok(found) => found,
            Err(e) => {
                return Err(e);
            },
        };
        if let Some(parent_deck) = found {
            if parent_deck.is_filtered() {
                return Err(AnkiError::FilteredDeckMustBeLeaf);
            }
            let ghost a = resolve_parent(d0, n, 0)->Ok_0->0;
            proof {
                lemma_first_match(d0, a);
                lemma_parent_some(n);
            }
            let plen: usize = parent_deck.name.unicode_len();
            let clen: usize = deck.name.unicode_len();
            let need_create = match immediate_parent_name(deck.name.as_str()) {
                Some(p) => p.unicode_len() != plen,
                None => true,
            };
            proof {
                let p = parent_name(n)->0;
                if !need_create {
                    assert(p =~= a);
                }
            }
            let mut new_name = parent_deck.name.clone();
            new_name.append(deck.name.as_str().substring_char(plen, clen));
            deck.name = new_name;
            if need_create {
                self.create_missing_parents(deck.name.as_str(), usn)
            } else {
                proof {
                    let t = n.subrange(a.len() + 1int, n.len() as int);
                    assert(n.subrange(a.len() as int, n.len() as int) =~= seq![SEP] + t);
                    assert(deck.name@ =~= parent_deck.name@ + seq![SEP] + t);
                    crate::name::lemma_parent_of_join(parent_deck.name@, t);
                    assert(d0.subrange(0, d0.len() as int) =~= d0);
                    if ancestors_exist(d0, parent_deck.name@) {
                        assert(has_name(d0, parent_deck.name@)) by {
                            lemma_first_match(d0, parent_deck.name@);
                            let i = first_match(d0, a)->0;
                            assert(crate::name::names_match(d0[i].name@, parent_deck.name@));
                        }
                    }
                }
                Ok(())
            }
        } else if immediate_parent_name(deck.name.as_str()).is_none() {
            proof {
                assert(d0.subrange(0, d0.len() as int) =~= d0);
                crate::store::lemma_max_id(d0);
                assert(missing_ancestors(d0, n).len() == 0);
                assert(ancestors_exist(d0, n));
            }
            Ok(())
        } else {
            self.create_missing_parents(deck.name.as_str(), usn)
        }
    }

    /// Makes the deck's name canonical and unique; stamps the deck if its
    /// name changed.
    fn prepare_deck_for_update(&self, deck: &mut Deck, usn: Usn)
        ensures
            prepared(self@, *old(deck), *final(deck), self.clock(), usn),
    {
        if let Some(name) = normalize_native_name(deck.name.as_str()) {
            deck.name = name;
            let mtime_secs = self.now();
            deck.set_modified(mtime_secs, usn);
        }
        self.ensure_deck_name_unique(deck, usn);
    }

    /// Adds a deck that has no id yet, with the parents its name needs.
    fn add_deck_inner(&mut self, deck: &mut Deck, usn: Usn) -> (r: Result<(), AnkiError>)
        requires
            old(self).wf(),
        ensures
            final(self).wf(),
            final(self).clock() == old(self).clock(),
            final(self).current_usn() == old(self).current_usn(),
            deck_added(old(self)@, final(self)@, *old(deck), *final(deck), old(self).clock(), usn, r),
    {
        let ghost before = self@;
        self.prepare_deck_for_update(deck, usn);
        let ghost p = *deck;
        let mtime_secs = self.now();
        deck.set_modified(mtime_secs, usn);
        let rm = self.match_or_create_parents(deck, usn);
        let ghost mid = self@;
        let ghost m = *deck;
        match rm {
            Err(e) => {
                assert(matched_parents(before, mid, Deck { mtime_secs, usn, ..p }, m, mtime_secs, usn, rm));
                return Err(e);
            },
            Ok(()) => {},
        }
        proof {
            crate::store::lemma_max_id(mid);
        }
        let r = self.add_deck_undoable(deck);
        assert(matched_parents(before, mid, Deck { mtime_secs, usn, ..p }, m, mtime_secs, usn, rm));
        assert(stored_new(mid, self@, m, *deck, r));
        r
    }

    /// Adds a new deck; its id must be zero, and it gets a new one. Missing
    /// parents are created and the name takes the spelling of existing
    /// ones. On failure the store is left as it was.
    pub fn add_deck(&mut self, deck: &mut Deck) -> (r: Result<OpOutput<()>, AnkiError>)
        requires
            old(self).wf(),
        ensures
            final(self).wf(),
            final(self).clock() == old(self).clock(),
            final(self).current_usn() == old(self).current_usn(),
            old(deck).id.0 != 0 ==> r == Err::<OpOutput<()>, AnkiError>(AnkiError::InvalidInput)
                && *final(deck) == *old(deck),
            old(deck).id.0 == 0 ==> deck_added(
                old(self)@,
                final(self)@,
                *old(deck),
                *final(deck),
                old(self).clock(),
                old(self).current_usn(),
                unit_result(r),
            ),
            r is Err ==> final(self)@ == old(self)@,
            r matches Ok(out) ==> out.op == Op::AddDeck,
    {
        if deck.id.0 != 0 {
            return Err(AnkiError::InvalidInput);
        }
        let saved = self.snapshot();
        let usn = self.usn();
        match self.add_deck_inner(deck, usn) {
            Ok(()) => Ok(OpOutput { op: Op::AddDeck, output: () }),
            Err(e) => {
                self.restore(saved);
                Err(e)
            },
        }
    }

    /// Stores `deck`, the new state of the stored deck `original`. A change
    /// of name moves the deck's descendants with it and creates whatever
    /// ancestors the new name lacks.
    fn update_deck_inner(&mut self, deck: &mut Deck, original: Deck, usn: Usn) -> (r: Result<
        (),
        AnkiError,
    >)
        requires
            old(self).wf(),
        ensures
            final(self).wf(),
            final(self).clock() == old(self).clock(),
            final(self).current_usn() == old(self).current_usn(),
            deck_updated(
                old(self)@,
                final(self)@,
                original,
                *old(deck),
                *final(deck),
                old(self).clock(),
                usn,
                r,
            ),
    {
        let ghost before = self@;
        self.prepare_deck_for_update(deck, usn);
        let mtime_secs = self.now();
        deck.set_modified(mtime_secs, usn);
        let ghost st = *deck;
        let name_changed = original.name != deck.name;
        if name_changed {
            let rm = self.match_or_create_parents(deck, usn);
            let ghost mid = self@;
            let ghost m = *deck;
            match rm {
                Err(e) => {
                    assert(matched_parents(before, mid, st, m, mtime_secs, usn, rm));
                    return Err(e);
                },
                Ok(()) => {},
            }
            self.rename_child_decks(&original, deck.name.as_str(), usn);
            let ghost ren = self@;
            assert(children_renamed(mid, ren, original.name@, m.name@, mtime_secs, usn));
            match self.update_single_deck_undoable(deck) {
                Ok(()) => {},
                Err(e) => {
                    assert(matched_parents(before, mid, st, m, mtime_secs, usn, rm));
                    return Err(e);
                },
            }
            let r = self.create_missing_parents(deck.name.as_str(), usn);
            assert(matched_parents(before, mid, st, m, mtime_secs, usn, rm));
            assert(created_parents(replaced(ren, m), self@, m.name@, mtime_secs, usn, r));
            assert(renamed_then_stored(mid, self@, original, m, mtime_secs, usn, r));
            r
        } else {
            self.update_single_deck_undoable(deck)
        }
    }

    /// Stores the new state of an existing deck, found by its id. A change of
    /// name moves its descendants with it and creates the ancestors the new
    /// name needs. On failure the store is left as it was.
    pub fn update_deck(&mut self, deck: &mut Deck) -> (r: Result<OpOutput<()>, AnkiError>)
        requires
            old(self).wf(),
        ensures
            final(self).wf(),
            final(self).clock() == old(self).clock(),
            final(self).current_usn() == old(self).current_usn(),
            !has_id(old(self)@, old(deck).id) ==> r == Err::<OpOutput<()>, AnkiError>(
                AnkiError::NotFound,
            ) && *final(deck) == *old(deck),
            forall|i: int|
                0 <= i < old(self)@.len() && old(self)@[i].id == old(deck).id ==> deck_updated(
                    old(self)@,
                    final(self)@,
                    #[trigger] old(self)@[i],
                    *old(deck),
                    *final(deck),
                    old(self).clock(),
                    old(self).current_usn(),
                    unit_result(r),
                ),
            r is Err ==> final(self)@ == old(self)@,
            r matches Ok(out) ==> out.op == Op::UpdateDeck,
    {
        let saved = self.snapshot();
        let usn = self.usn();
        let existing = match self.get_deck(deck.id) {
            Some(d) => d,
            None => {
                return Err(AnkiError::NotFound);
            },
        };
        proof {
            let j = choose|j: int| 0 <= j < self@.len() && self@[j] == existing;
            assert forall|i: int| 0 <= i < self@.len() && self@[i].id == deck.id implies self@[i] == existing by {
                assert(self@[j].id == self@[i].id);
            }
        }
        let ghost before = self@;
        let res = self.update_deck_inner(deck, existing, usn);
        let ghost failed_store = self@;
        match res {
            Ok(u) => {
                assert(u == ());
                assert(res == Ok::<(), AnkiError>(()));
                Ok(OpOutput { op: Op::UpdateDeck, output: () })
            },
            Err(e) => {
                self.restore(saved);
                proof {
                    lemma_failed_update_any_store(
                        before,
                        failed_store,
                        self@,
                        existing,
                        *old(deck),
                        *deck,
                        self.clock(),
                        usn,
                        res,
                    );
                    assert(forall|i: int|
                        0 <= i < before.len() && before[i].id == old(deck).id ==> before[i] == existing);
                    assert(deck_updated(before, self@, existing, *old(deck), *deck, self.clock(), usn, Err(e)));
                }
                Err(e)
            },
        }
    }

    /// Adds the deck when its id is zero, and otherwise updates the stored
    /// deck with its id.
    pub fn add_or_update_deck(&mut self, deck: &mut Deck) -> (r: Result<OpOutput<()>, AnkiError>)
        requires
            old(self).wf(),
        ensures
            final(self).wf(),
            final(self).clock() == old(self).clock(),
            final(self).current_usn() == old(self).current_usn(),
            old(deck).id.0 == 0 ==> deck_added(
                old(self)@,
                final(self)@,
                *old(deck),
                *final(deck),
                old(self).clock(),
                old(self).current_usn(),
                unit_result(r),
            ) && (r matches Ok(out) ==> out.op == Op::AddDeck),
            old(deck).id.0 != 0 && !has_id(old(self)@, old(deck).id) ==> r == Err::<
                OpOutput<()>,
                AnkiError,
            >(AnkiError::NotFound) && *final(deck) == *old(deck),
            forall|i: int|
                0 <= i < old(self)@.len() && old(self)@[i].id == old(deck).id ==> deck_updated(
                    old(self)@,
                    final(self)@,
                    #[trigger] old(self)@[i],
                    *old(deck),
                    *final(deck),
                    old(self).clock(),
                    old(self).current_usn(),
                    unit_result(r),
                ) && (r matches Ok(out) ==> out.op == Op::UpdateDeck),
            r is Err ==> final(self)@ == old(self)@,
    {
        if deck.id.0 == 0 {
            self.add_deck(deck)
        } else {
            self.update_deck(deck)
        }
    }

    /// Stores a deck that arrives with its id, as when syncing or importing:
    /// its name is made canonical and unique, but parents and children are
    /// left alone.
    pub fn add_or_update_single_deck_with_existing_id(&mut self, deck: &mut Deck, usn: Usn)
        requires
            old(self).wf(),
            old(deck).id.0 != 0,
        ensures
            final(self).wf(),
            final(self).clock() == old(self).clock(),
            final(self).current_usn() == old(self).current_usn(),
            prepared(old(self)@, *old(deck), *final(deck), old(self).clock(), usn),
            has_id(old(self)@, old(deck).id) ==> final(self)@ == replaced(old(self)@, *final(deck)),
            !has_id(old(self)@, old(deck).id) ==> final(self)@ == old(self)@.push(*final(deck)),
    {
        self.prepare_deck_for_update(deck, usn);
        self.add_or_update_deck_with_existing_id_undoable(deck);
    }

    /// Stores a placeholder normal deck under `did`, for an id that other
    /// records refer to but the store lacks.
    pub fn recover_missing_deck(&mut self, did: DeckId, usn: Usn)
        requires
            old(self).wf(),
            did.0 != 0,
        ensures
            final(self).wf(),
            final(self).clock() == old(self).clock(),
            final(self).current_usn() == old(self).current_usn(),
            exists|p: Deck|
                #[trigger] recovered(old(self)@, p, did, old(self).clock(), usn) && (if has_id(
                    old(self)@,
                    did,
                ) {
                    final(self)@ == replaced(old(self)@, p)
                } else {
                    final(self)@ == old(self)@.push(p)
                }),
    {
        let mut deck = Deck::new_normal();
        deck.id = did;
        deck.name = recovered_name_of(did);
        let mtime_secs = self.now();
        deck.set_modified(mtime_secs, usn);
        let ghost d0 = deck;
        let ghost before = self@;
        self.add_or_update_single_deck_with_existing_id(&mut deck, usn);
        assert(d0.name@ == recovered_name(did.0));
        assert(recovered(before, deck, did, mtime_secs, usn));
    }
}

} // verus!
