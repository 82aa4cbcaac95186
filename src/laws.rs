use vstd::prelude::*;

use crate::add::{
    created_parents, deck_added, deck_updated, hierarchy_complete, lemma_ancestors_exist_push,
    lemma_resolve_parent, matched_parents, moved_and_stored, prepared, renamed_then_stored,
    resolve_parent, stored_new, MAX_NESTING,
};
use crate::deck::{AnkiError, Deck, DeckKind, Usn};
use crate::name::{
    ancestor_names, lemma_ancestor_names, names_match, normalized, parent_name, same_letter,
};
use crate::store::{
    unique_name_for,
    ancestors_exist, children_renamed, first_match, has_id, has_name, ids_distinct,
    is_descendant, lemma_ancestors_exist, lemma_first_match, lemma_max_id, lemma_none_missing,
    missing_ancestors, missing_names, moved_name, name_taken, parents_added, pluses, replaced,
};

verus! {

/// Adding a deck to a store in which every deck has all of its ancestors
/// leaves the added deck with all of its ancestors stored as well.
pub proof fn lemma_added_deck_has_ancestors(
    before: Seq<Deck>,
    after: Seq<Deck>,
    d0: Deck,
    d1: Deck,
    mtime_secs: i64,
    usn: Usn,
)
    requires
        hierarchy_complete(before),
        deck_added(before, after, d0, d1, mtime_secs, usn, Ok(())),
    ensures
        ancestors_exist(after, d1.name@),
{
    let (p, mid, m, rm) = choose|p: Deck, mid: Seq<Deck>, m: Deck, rm: Result<(), AnkiError>|
        #![trigger prepared(before, d0, p, mtime_secs, usn), matched_parents(before, mid, Deck { mtime_secs, usn, ..p }, m, mtime_secs, usn, rm)]
        {
            &&& prepared(before, d0, p, mtime_secs, usn)
            &&& matched_parents(before, mid, Deck { mtime_secs, usn, ..p }, m, mtime_secs, usn, rm)
            &&& match rm {
                Err(e) => Ok::<(), AnkiError>(()) == Err::<(), AnkiError>(e),
                Ok(()) => stored_new(mid, after, m, d1, Ok(())),
            }
        };
    let s = Deck { mtime_secs, usn, ..p };
    lemma_resolve_parent(before, s.name@, 0);
    if let Ok(Some(a)) = resolve_parent(before, s.name@, 0) {
        lemma_first_match(before, a);
        let i = first_match(before, a)->0;
        assert(ancestors_exist(before, before[i].name@));
    }
    assert(ancestors_exist(mid, m.name@));
    lemma_ancestors_exist_push(mid, d1, m.name@);
}

/// Renaming a deck moves each of its descendants with it: a descendant's
/// name becomes the new name followed by the part below the old one.
pub proof fn lemma_rename_moves_descendants(
    before: Seq<Deck>,
    after: Seq<Deck>,
    original: Deck,
    d0: Deck,
    d1: Deck,
    mtime_secs: i64,
    usn: Usn,
    j: int,
)
    requires
        deck_updated(before, after, original, d0, d1, mtime_secs, usn, Ok(())),
        original.id == d0.id,
        d1.name@ != original.name@,
        0 <= j < before.len(),
        before[j].id != original.id,
        is_descendant(before[j].name@, original.name@),
    ensures
        after[j].name@ == moved_name(before[j].name@, original.name@.len(), d1.name@),
        after[j].id == before[j].id,
{
    let p = choose|p: Deck|
        #[trigger] prepared(before, d0, p, mtime_secs, usn) && moved_and_stored(
            before,
            after,
            original,
            Deck { mtime_secs, usn, ..p },
            d1,
            mtime_secs,
            usn,
            Ok(()),
        );
    let s = Deck { mtime_secs, usn, ..p };
    let (mid, m, rm) = choose|mid: Seq<Deck>, m: Deck, rm: Result<(), AnkiError>|
        #[trigger] matched_parents(before, mid, s, m, mtime_secs, usn, rm) && match rm {
            Err(e) => Ok::<(), AnkiError>(()) == Err::<(), AnkiError>(e),
            Ok(()) => d1 == m && renamed_then_stored(mid, after, original, m, mtime_secs, usn, Ok(())),
        };
    let ren = choose|ren: Seq<Deck>|
        #[trigger] children_renamed(mid, ren, original.name@, m.name@, mtime_secs, usn) && if has_id(
            ren,
            m.id,
        ) {
            exists|fin: Seq<Deck>|
                #[trigger] created_parents(replaced(ren, m), fin, m.name@, mtime_secs, usn, Ok(()))
                    && after == fin
        } else {
            Ok::<(), AnkiError>(()) == Err::<(), AnkiError>(AnkiError::NotFound)
        };
    assert(mid.subrange(0, before.len() as int) == before);
    assert(mid[j] == before[j]);
    let upd = replaced(ren, m);
    assert(after.subrange(0, upd.len() as int) == upd);
    assert(after[j] == upd[j]);
}

/// Creating the missing ancestors of a name a second time creates nothing:
/// the store stays as the first time left it.
pub proof fn lemma_create_parents_idempotent(
    d0: Seq<Deck>,
    d1: Seq<Deck>,
    d2: Seq<Deck>,
    s: Seq<char>,
    mtime_secs: i64,
    usn: Usn,
    r: Result<(), AnkiError>,
)
    requires
        created_parents(d0, d1, s, mtime_secs, usn, Ok(())),
        created_parents(d1, d2, s, mtime_secs, usn, r),
    ensures
        missing_ancestors(d1, s).len() == 0,
        r is Ok,
        d2 == d1,
{
    lemma_ancestors_exist(d1, s);
    lemma_none_missing(d1, crate::name::ancestor_names(s));
    lemma_max_id(d1);
    assert(d2 =~= d2.subrange(0, d1.len() as int));
}

proof fn lemma_names_match_trans(a: Seq<char>, b: Seq<char>, c: Seq<char>)
    requires
        names_match(a, b),
        names_match(b, c),
    ensures
        names_match(a, c),
{
    assert forall|j: int| 0 <= j < a.len() implies same_letter(#[trigger] a[j], c[j]) by {
        assert(same_letter(a[j], b[j]));
        assert(same_letter(b[j], c[j]));
    }
}

proof fn lemma_missing_among(decks: Seq<Deck>, names: Seq<Seq<char>>)
    ensures
        forall|k: int|
            0 <= k < missing_names(decks, names).len() ==> names.contains(
                #[trigger] missing_names(decks, names)[k],
            ),
    decreases names.len(),
{
    if names.len() > 0 {
        lemma_missing_among(decks, names.drop_last());
        let m = missing_names(decks, names.drop_last());
        assert forall|k: int| 0 <= k < m.len() implies names.contains(#[trigger] m[k]) by {
            let j = choose|j: int| 0 <= j < names.drop_last().len() && names.drop_last()[j] == m[k];
            assert(names[j] == m[k]);
        }
        assert(names[names.len() - 1] == names.last());
    }
}

/// The decks that materialising the ancestors of `s` creates all have names
/// shorter than `s`.
proof fn lemma_created_shorter(
    before: Seq<Deck>,
    after: Seq<Deck>,
    s: Seq<char>,
    mtime_secs: i64,
    usn: Usn,
)
    requires
        parents_added(before, after, missing_ancestors(before, s), mtime_secs, usn),
    ensures
        forall|i: int| before.len() <= i < after.len() ==> (#[trigger] after[i]).name@.len() < s.len(),
{
    let names = missing_ancestors(before, s);
    lemma_missing_among(before, crate::name::ancestor_names(s));
    crate::name::lemma_ancestor_names(s);
    assert forall|i: int| before.len() <= i < after.len() implies (#[trigger] after[i]).name@.len() < s.len() by {
        let k = i - before.len();
        assert(after[before.len() + k] == after[i]);
        assert(crate::name::ancestor_names(s).contains(names[k]));
    }
}

/// A deck added to the store ends up with a name that no other stored deck
/// has, letters compared without regard to case.
pub proof fn lemma_added_name_unique(
    before: Seq<Deck>,
    after: Seq<Deck>,
    d0: Deck,
    d1: Deck,
    mtime_secs: i64,
    usn: Usn,
)
    requires
        ids_distinct(before),
        d0.id.0 == 0,
        deck_added(before, after, d0, d1, mtime_secs, usn, Ok(())),
    ensures
        after.len() > 0 && after.last() == d1,
        forall|i: int| 0 <= i < after.len() - 1 ==> !names_match(#[trigger] after[i].name@, d1.name@),
{
    let (p, mid, m, rm) = choose|p: Deck, mid: Seq<Deck>, m: Deck, rm: Result<(), AnkiError>|
        #![trigger prepared(before, d0, p, mtime_secs, usn), matched_parents(before, mid, Deck { mtime_secs, usn, ..p }, m, mtime_secs, usn, rm)]
        {
            &&& prepared(before, d0, p, mtime_secs, usn)
            &&& matched_parents(before, mid, Deck { mtime_secs, usn, ..p }, m, mtime_secs, usn, rm)
            &&& match rm {
                Err(e) => Ok::<(), AnkiError>(()) == Err::<(), AnkiError>(e),
                Ok(()) => stored_new(mid, after, m, d1, Ok(())),
            }
        };
    let s = Deck { mtime_secs, usn, ..p };
    let n = s.name@;
    // the prepared name is free in the store
    lemma_first_match(before, n);
    let k = choose|k: nat|
        {
            &&& p.name@ == normalized(d0.name@) + #[trigger] pluses(k)
            &&& !name_taken(before, p.name@, d0.id)
            &&& forall|j: nat| j < k ==> #[trigger] name_taken(before, normalized(d0.name@) + pluses(j), d0.id)
        };
    assert(forall|i: int| 0 <= i < before.len() ==> !names_match(#[trigger] before[i].name@, n));
    // the reconciled name matches the prepared one
    lemma_resolve_parent(before, n, 0);
    assert(names_match(m.name@, n)) by {
        if let Ok(Some(a)) = resolve_parent(before, n, 0) {
            lemma_first_match(before, a);
            let found = before[first_match(before, a)->0];
            let t = n.subrange(a.len() as int, n.len() as int);
            assert(m.name@ =~= found.name@ + t);
            assert(n =~= a + t);
            assert forall|j: int| 0 <= j < n.len() implies same_letter(#[trigger] m.name@[j], n[j]) by {
                if j < a.len() {
                    assert(same_letter(found.name@[j], a[j]));
                }
            }
        }
    }
    // and the ancestors created on the way are shorter
    if let Ok(Some(a)) = resolve_parent(before, n, 0) {
        if Some(a) != parent_name(n) {
            lemma_created_shorter(before, mid, m.name@, mtime_secs, usn);
        }
    } else {
        lemma_created_shorter(before, mid, n, mtime_secs, usn);
    }
    assert(mid.subrange(0, before.len() as int) == before);
    assert forall|i: int| 0 <= i < after.len() - 1 implies !names_match(#[trigger] after[i].name@, d1.name@) by {
        assert(after[i] == mid[i]);
        if i < before.len() {
            assert(mid[i] == before[i]);
            if names_match(before[i].name@, d1.name@) {
                lemma_names_match_trans(before[i].name@, m.name@, n);
            }
        }
    }
}

/// A deck asks for one name only: the canonical, unique name is determined.
pub proof fn lemma_unique_name_determined(
    decks: Seq<Deck>,
    n: Seq<char>,
    id: crate::deck::DeckId,
    m1: Seq<char>,
    m2: Seq<char>,
)
    requires
        unique_name_for(decks, n, id, m1),
        unique_name_for(decks, n, id, m2),
    ensures
        m1 == m2,
{
    let k1 = choose|k: nat|
        {
            &&& m1 == n + #[trigger] pluses(k)
            &&& !name_taken(decks, m1, id)
            &&& forall|j: nat| j < k ==> #[trigger] name_taken(decks, n + pluses(j), id)
        };
    let k2 = choose|k: nat|
        {
            &&& m2 == n + #[trigger] pluses(k)
            &&& !name_taken(decks, m2, id)
            &&& forall|j: nat| j < k ==> #[trigger] name_taken(decks, n + pluses(j), id)
        };
    if k1 < k2 {
        assert(name_taken(decks, n + pluses(k1), id));
    } else if k2 < k1 {
        assert(name_taken(decks, n + pluses(k2), id));
    }
}

/// An update whose new name cannot be placed is refused: when resolving the
/// ancestors of the prepared name passes the nesting limit the update fails
/// with `InvalidInput`, and when the nearest stored ancestor is a filtered
/// deck it fails with `FilteredDeckMustBeLeaf` (`update_deck` then leaves
/// the store as it was).
pub proof fn lemma_update_refused(
    before: Seq<Deck>,
    after: Seq<Deck>,
    original: Deck,
    d0: Deck,
    d1: Deck,
    mtime_secs: i64,
    usn: Usn,
    r: Result<(), AnkiError>,
    p: Deck,
)
    requires
        deck_updated(before, after, original, d0, d1, mtime_secs, usn, r),
        prepared(before, d0, p, mtime_secs, usn),
        p.name@ != original.name@,
    ensures
        resolve_parent(before, p.name@, 0) is Err ==> r == Err::<(), AnkiError>(
            AnkiError::InvalidInput,
        ),
        resolve_parent(before, p.name@, 0) matches Ok(Some(a)) && before[first_match(
            before,
            a,
        )->0].kind == DeckKind::Filtered ==> r == Err::<(), AnkiError>(
            AnkiError::FilteredDeckMustBeLeaf,
        ),
{
    let q = choose|q: Deck|
        #[trigger] prepared(before, d0, q, mtime_secs, usn) && moved_and_stored(
            before,
            after,
            original,
            Deck { mtime_secs, usn, ..q },
            d1,
            mtime_secs,
            usn,
            r,
        );
    lemma_unique_name_determined(before, normalized(d0.name@), d0.id, p.name@, q.name@);
}

/// An added deck whose name cannot be placed is refused, as for an update.
pub proof fn lemma_add_refused(
    before: Seq<Deck>,
    after: Seq<Deck>,
    d0: Deck,
    d1: Deck,
    mtime_secs: i64,
    usn: Usn,
    r: Result<(), AnkiError>,
    p: Deck,
)
    requires
        deck_added(before, after, d0, d1, mtime_secs, usn, r),
        prepared(before, d0, p, mtime_secs, usn),
    ensures
        resolve_parent(before, p.name@, 0) is Err ==> r == Err::<(), AnkiError>(
            AnkiError::InvalidInput,
        ),
        resolve_parent(before, p.name@, 0) matches Ok(Some(a)) && before[first_match(
            before,
            a,
        )->0].kind == DeckKind::Filtered ==> r == Err::<(), AnkiError>(
            AnkiError::FilteredDeckMustBeLeaf,
        ),
{
    let (q, mid, m, rm) = choose|q: Deck, mid: Seq<Deck>, m: Deck, rm: Result<(), AnkiError>|
        #![trigger prepared(before, d0, q, mtime_secs, usn), matched_parents(before, mid, Deck { mtime_secs, usn, ..q }, m, mtime_secs, usn, rm)]
        {
            &&& prepared(before, d0, q, mtime_secs, usn)
            &&& matched_parents(before, mid, Deck { mtime_secs, usn, ..q }, m, mtime_secs, usn, rm)
            &&& match rm {
                Err(e) => r == Err::<(), AnkiError>(e),
                Ok(()) => stored_new(mid, after, m, d1, r),
            }
        };
    lemma_unique_name_determined(before, normalized(d0.name@), d0.id, p.name@, q.name@);
}

/// Resolution refuses a name whose nearest ancestors are all missing from
/// the store for more levels than the nesting limit allows; `add_deck` and
/// `update_deck` then fail with `InvalidInput` and leave the store as it was.
pub proof fn lemma_deep_chain_refused(decks: Seq<Deck>, s: Seq<char>, level: int)
    requires
        0 <= level,
        ancestor_names(s).len() >= MAX_NESTING + 1 - level,
        forall|j: int|
            0 <= j < MAX_NESTING + 1 - level ==> !has_name(decks, #[trigger] ancestor_names(s)[j]),
    ensures
        resolve_parent(decks, s, level) == Err::<Option<Seq<char>>, ()>(()),
    decreases s.len(),
{
    if level <= MAX_NESTING {
        lemma_ancestor_names(s);
        let anc = ancestor_names(s);
        let p = anc[0];
        assert(!has_name(decks, anc[0]));
        assert forall|j: int| 0 <= j < MAX_NESTING + 1 - (level + 1) implies !has_name(
            decks,
            #[trigger] ancestor_names(p)[j],
        ) by {
            assert(ancestor_names(p)[j] == anc[j + 1]);
        }
        lemma_deep_chain_refused(decks, p, level + 1);
    }
}

proof fn lemma_names_match_symm(a: Seq<char>, b: Seq<char>)
    requires
        names_match(a, b),
    ensures
        names_match(b, a),
{
    assert forall|j: int| 0 <= j < b.len() implies same_letter(#[trigger] b[j], a[j]) by {
        assert(same_letter(a[j], b[j]));
    }
}

/// The missing names are all absent from the store, and they keep the
/// strictly shrinking lengths of the names they are taken from.
proof fn lemma_missing_props(decks: Seq<Deck>, names: Seq<Seq<char>>)
    ensures
        forall|k: int|
            0 <= k < missing_names(decks, names).len() ==> !has_name(
                decks,
                #[trigger] missing_names(decks, names)[k],
            ),
        (forall|a: int, b: int|
            0 <= a < b < names.len() ==> #[trigger] names[b].len() < #[trigger] names[a].len())
            ==> forall|a: int, b: int|
            0 <= a < b < missing_names(decks, names).len() ==> #[trigger] missing_names(
                decks,
                names,
            )[b].len() < #[trigger] missing_names(decks, names)[a].len(),
    decreases names.len(),
{
    if names.len() > 0 {
        let rest = names.drop_last();
        lemma_missing_props(decks, rest);
        lemma_missing_among(decks, rest);
        let m = missing_names(decks, rest);
        if forall|a: int, b: int|
            0 <= a < b < names.len() ==> #[trigger] names[b].len() < #[trigger] names[a].len() {
            assert forall|a: int, b: int| 0 <= a < b < rest.len() implies #[trigger] rest[b].len()
                < #[trigger] rest[a].len() by {
                assert(rest[a] == names[a] && rest[b] == names[b]);
            }
            assert forall|a: int| 0 <= a < m.len() implies names.last().len() < #[trigger] m[a].len() by {
                assert(rest.contains(m[a]));
                let j = choose|j: int| 0 <= j < rest.len() && rest[j] == m[a];
                assert(names[j] == rest[j]);
                assert(names[names.len() - 1] == names.last());
            }
        }
    }
}

/// The decks that materialising the ancestors of `s` creates have names
/// that the store lacked and that differ from one another in length.
proof fn lemma_created_fresh(
    before: Seq<Deck>,
    after: Seq<Deck>,
    s: Seq<char>,
    mtime_secs: i64,
    usn: Usn,
)
    requires
        parents_added(before, after, missing_ancestors(before, s), mtime_secs, usn),
    ensures
        forall|i: int| before.len() <= i < after.len() ==> !has_name(before, #[trigger] after[i].name@),
        forall|i: int, j: int|
            before.len() <= i < j < after.len() ==> #[trigger] after[j].name@.len()
                < #[trigger] after[i].name@.len(),
{
    let names = missing_ancestors(before, s);
    lemma_ancestor_names(s);
    lemma_missing_props(before, ancestor_names(s));
    assert forall|i: int| before.len() <= i < after.len() implies !has_name(before, #[trigger] after[i].name@) by {
        assert(after[before.len() + (i - before.len())] == after[i]);
    }
    assert forall|i: int, j: int| before.len() <= i < j < after.len() implies #[trigger] after[j].name@.len()
        < #[trigger] after[i].name@.len() by {
        assert(after[before.len() + (i - before.len())] == after[i]);
        assert(after[before.len() + (j - before.len())] == after[j]);
        assert(names[j - before.len()].len() < names[i - before.len()].len());
    }
}

/// No two stored decks have names that match.
pub open spec fn names_distinct(decks: Seq<Deck>) -> bool {
    forall|i: int, j: int|
        0 <= i < decks.len() && 0 <= j < decks.len() && i != j ==> !names_match(
            #[trigger] decks[i].name@,
            #[trigger] decks[j].name@,
        )
}

/// Adding a deck to a store whose names are all distinct keeps them all
/// distinct: the added deck and every ancestor created on the way included.
pub proof fn lemma_add_keeps_names_distinct(
    before: Seq<Deck>,
    after: Seq<Deck>,
    d0: Deck,
    d1: Deck,
    mtime_secs: i64,
    usn: Usn,
)
    requires
        ids_distinct(before),
        names_distinct(before),
        d0.id.0 == 0,
        deck_added(before, after, d0, d1, mtime_secs, usn, Ok(())),
    ensures
        names_distinct(after),
{
    lemma_added_name_unique(before, after, d0, d1, mtime_secs, usn);
    let (p, mid, m, rm) = choose|p: Deck, mid: Seq<Deck>, m: Deck, rm: Result<(), AnkiError>|
        #![trigger prepared(before, d0, p, mtime_secs, usn), matched_parents(before, mid, Deck { mtime_secs, usn, ..p }, m, mtime_secs, usn, rm)]
        {
            &&& prepared(before, d0, p, mtime_secs, usn)
            &&& matched_parents(before, mid, Deck { mtime_secs, usn, ..p }, m, mtime_secs, usn, rm)
            &&& match rm {
                Err(e) => Ok::<(), AnkiError>(()) == Err::<(), AnkiError>(e),
                Ok(()) => stored_new(mid, after, m, d1, Ok(())),
            }
        };
    let s = Deck { mtime_secs, usn, ..p };
    let n = s.name@;
    if let Ok(Some(a)) = resolve_parent(before, n, 0) {
        if Some(a) != parent_name(n) {
            lemma_created_fresh(before, mid, m.name@, mtime_secs, usn);
        }
    } else {
        lemma_created_fresh(before, mid, n, mtime_secs, usn);
    }
    assert(mid.subrange(0, before.len() as int) == before);
    let last = after.len() - 1;
    assert forall|i: int, j: int|
        0 <= i < after.len() && 0 <= j < after.len() && i != j implies !names_match(
        #[trigger] after[i].name@,
        #[trigger] after[j].name@,
    ) by {
        if i == last {
            if names_match(after[i].name@, after[j].name@) {
                lemma_names_match_symm(after[i].name@, after[j].name@);
            }
        } else if j != last {
            assert(after[i] == mid[i] && after[j] == mid[j]);
            if i < before.len() && j < before.len() {
                assert(mid[i] == before[i] && mid[j] == before[j]);
            } else if i < before.len() {
                assert(mid[i] == before[i]);
                lemma_first_match(before, mid[j].name@);
            } else if j < before.len() {
                assert(mid[j] == before[j]);
                lemma_first_match(before, mid[i].name@);
                if names_match(mid[i].name@, mid[j].name@) {
                    lemma_names_match_symm(mid[i].name@, mid[j].name@);
                }
            }
        }
    }
}

} // verus!
