use vstd::prelude::*;
use vstd::string::*;

verus! {

/// The reserved character that joins the components of a deck name.
pub const SEP: char = '\x1f';

/// The name of the immediate parent: everything before the last separator,
/// or nothing when the name is a single component.
pub open spec fn parent_name(s: Seq<char>) -> Option<Seq<char>>
    decreases s.len(),
{
    if s.len() == 0 {
        None
    } else if s.last() == SEP {
        Some(s.drop_last())
    } else {
        parent_name(s.drop_last())
    }
}

/// No character of `s` is the separator.
pub open spec fn sep_free(s: Seq<char>) -> bool {
    forall|j: int| 0 <= j < s.len() ==> s[j] != SEP
}

/// Every proper ancestor of the name `s`, nearest first.
pub open spec fn ancestor_names(s: Seq<char>) -> Seq<Seq<char>>
    decreases s.len(),
    via ancestor_names_decreases
{
    match parent_name(s) {
        None => Seq::empty(),
        Some(p) => seq![p] + ancestor_names(p),
    }
}

#[via_fn]
proof fn ancestor_names_decreases(s: Seq<char>) {
    if parent_name(s) is Some {
        lemma_parent_some(s);
    }
}

/// The ancestors of a name get shorter as they go up, and the ancestors of
/// an ancestor are the ones above it.
pub proof fn lemma_ancestor_names(s: Seq<char>)
    ensures
        ({
            let a = ancestor_names(s);
            &&& a.len() == 0 <==> parent_name(s) is None
            &&& a.len() > 0 ==> parent_name(s) == Some(a[0])
            &&& forall|k: int| 0 <= k < a.len() ==> #[trigger] a[k].len() < s.len()
            &&& forall|j: int, k: int| 0 <= j < k < a.len() ==> #[trigger] a[k].len() < #[trigger] a[j].len()
            &&& forall|k: int|
                0 <= k < a.len() ==> #[trigger] ancestor_names(a[k]) == a.subrange(
                    k + 1,
                    a.len() as int,
                )
        }),
    decreases s.len(),
{
    if let Some(p) = parent_name(s) {
        lemma_parent_some(s);
        lemma_ancestor_names(p);
        let a = ancestor_names(s);
        let b = ancestor_names(p);
        assert(a =~= seq![p] + b);
        assert(b =~= a.subrange(1, a.len() as int));
        assert forall|k: int| 0 <= k < a.len() implies #[trigger] ancestor_names(a[k]) == a.subrange(
            k + 1,
            a.len() as int,
        ) by {
            if k > 0 {
                assert(a[k] == b[k - 1]);
                assert(b.subrange(k, b.len() as int) =~= a.subrange(k + 1, a.len() as int));
            }
        }
        assert forall|j: int, k: int| 0 <= j < k < a.len() implies #[trigger] a[k].len() < #[trigger] a[j].len() by {
            if j > 0 {
                assert(a[k] == b[k - 1] && a[j] == b[j - 1]);
            } else {
                assert(a[k] == b[k - 1]);
            }
        }
        assert forall|k: int| 0 <= k < a.len() implies #[trigger] a[k].len() < s.len() by {
            if k > 0 {
                assert(a[k] == b[k - 1]);
            }
        }
    }
}

/// A character with ASCII capitals taken to lower case.
pub open spec fn folded(c: char) -> int {
    let v = c as u32 as int;
    if 65 <= v <= 90 {
        v + 32
    } else {
        v
    }
}

/// ASCII letters compare without regard to case; every other character
/// matches only itself.
pub open spec fn same_letter(a: char, b: char) -> bool {
    folded(a) == folded(b)
}

/// Two names that the store treats as the same name.
pub open spec fn names_match(a: Seq<char>, b: Seq<char>) -> bool {
    a.len() == b.len() && forall|j: int| 0 <= j < a.len() ==> same_letter(#[trigger] a[j], b[j])
}

pub proof fn lemma_parent_some(s: Seq<char>)
    requires
        parent_name(s) is Some,
    ensures
        ({
            let p = parent_name(s)->0;
            &&& p.len() < s.len()
            &&& p =~= s.subrange(0, p.len() as int)
            &&& s[p.len() as int] == SEP
            &&& sep_free(s.subrange(p.len() + 1 as int, s.len() as int))
        }),
    decreases s.len(),
{
    if s.last() != SEP {
        lemma_parent_some(s.drop_last());
        let p = parent_name(s)->0;
        assert forall|j: int| 0 <= j < s.len() - p.len() - 1 implies #[trigger] s.subrange(
            p.len() + 1 as int,
            s.len() as int,
        )[j] != SEP by {
            if j < s.len() - p.len() - 2 {
                assert(s.subrange(p.len() + 1 as int, s.len() as int)[j] == s.drop_last().subrange(
                    p.len() + 1 as int,
                    s.len() - 1,
                )[j]);
            }
        }
    }
}

/// A name made of a prefix, the separator and a last component without
/// separators has that prefix as its parent.
pub proof fn lemma_parent_of_join(p: Seq<char>, t: Seq<char>)
    requires
        sep_free(t),
    ensures
        parent_name(p + seq![SEP] + t) == Some(p),
    decreases t.len(),
{
    let s = p + seq![SEP] + t;
    if t.len() == 0 {
        assert(s.drop_last() =~= p);
    } else {
        assert(s.drop_last() =~= p + seq![SEP] + t.drop_last());
        lemma_parent_of_join(p, t.drop_last());
    }
}

/// A control character that may not stand in a name; the separator is the
/// one control character that may.
pub open spec fn is_stray_control(c: char) -> bool {
    (c as u32) < 32 && c != SEP || c as u32 == 127
}

/// The name with its stray control characters removed.
pub open spec fn without_controls(s: Seq<char>) -> Seq<char>
    decreases s.len(),
{
    if s.len() == 0 {
        s
    } else if is_stray_control(s.last()) {
        without_controls(s.drop_last())
    } else {
        without_controls(s.drop_last()).push(s.last())
    }
}

/// A component as stored: an empty one is written `blank`.
pub open spec fn filled_component(c: Seq<char>) -> Seq<char> {
    if c.len() == 0 {
        "blank"@
    } else {
        c
    }
}

/// The name with every empty component written `blank`.
pub open spec fn blanks_filled(s: Seq<char>) -> Seq<char>
    decreases s.len(),
    via blanks_filled_decreases
{
    match parent_name(s) {
        None => filled_component(s),
        Some(p) => blanks_filled(p) + seq![SEP] + filled_component(
            s.subrange(p.len() + 1int, s.len() as int),
        ),
    }
}

#[via_fn]
proof fn blanks_filled_decreases(s: Seq<char>) {
    if parent_name(s) is Some {
        lemma_parent_some(s);
    }
}

/// The canonical form of a name: stray control characters removed, then
/// every empty component written `blank`.
pub open spec fn normalized(s: Seq<char>) -> Seq<char> {
    blanks_filled(without_controls(s))
}

/// A name without separators is a single component.
pub proof fn lemma_sep_free_no_parent(s: Seq<char>)
    requires
        sep_free(s),
    ensures
        parent_name(s) is None,
    decreases s.len(),
{
    if s.len() > 0 {
        assert(sep_free(s.drop_last())) by {
            assert forall|j: int| 0 <= j < s.len() - 1 implies s.drop_last()[j] != SEP by {
                assert(s.drop_last()[j] == s[j]);
            }
        }
        lemma_sep_free_no_parent(s.drop_last());
    }
}

/// `name` with its stray control characters removed.
fn strip_controls(name: &str) -> (r: String)
    ensures
        r@ == without_controls(name@),
{
    let len: usize = name.unicode_len();
    let mut out = String::new();
    let mut i: usize = 0;
    while i < len
        invariant
            len == name@.len(),
            i <= len,
            out@ == without_controls(name@.subrange(0, i as int)),
        decreases len - i,
    {
        let c = name.get_char(i);
        assert(name@.subrange(0, i + 1).drop_last() =~= name@.subrange(0, i as int));
        if !((c as u32) < 32 && c != SEP || c as u32 == 127) {
            let ghost before = out@;
            out.append(name.substring_char(i, i + 1));
            assert(out@ =~= before.push(c));
            assert(name@.subrange(0, i + 1) =~= name@.subrange(0, i as int).push(c));
        }
        i = i + 1;
    }
    assert(name@.subrange(0, len as int) =~= name@);
    out
}

/// Appends the component `piece` to `out`, written `blank` when empty.
fn append_component(out: &mut String, piece: &str)
    ensures
        final(out)@ == old(out)@ + filled_component(piece@),
{
    if piece.unicode_len() == 0 {
        out.append("blank");
        proof {
            reveal_strlit("blank");
        }
    } else {
        out.append(piece);
    }
}

/// `name` with every empty component written `blank`.
fn fill_blanks(name: &str) -> (r: String)
    ensures
        r@ == blanks_filled(name@),
{
    let ghost c = name@;
    let len: usize = name.unicode_len();
    let mut out = String::new();
    let mut start: usize = 0;
    let mut i: usize = 0;
    proof {
        reveal_strlit("\x1f");
    }
    while i < len
        invariant
            len == c.len(),
            c == name@,
            "\x1f"@ == seq![SEP],
            start <= i <= len,
            sep_free(c.subrange(start as int, i as int)),
            start == 0 ==> out@ == Seq::<char>::empty(),
            start > 0 ==> c[start - 1] == SEP && out@ == blanks_filled(c.subrange(0, start - 1))
                + seq![SEP],
        decreases len - i,
    {
        if name.get_char(i) == SEP {
            let ghost before = out@;
            append_component(&mut out, name.substring_char(start, i));
            proof {
                lemma_component_end(c, start as int, i as int, before);
            }
            out.append("\x1f");
            start = i + 1;
            assert(c.subrange(start as int, start as int) =~= Seq::<char>::empty());
        } else {
            assert(c.subrange(start as int, i + 1) =~= c.subrange(start as int, i as int).push(c[i as int]));
        }
        i = i + 1;
    }
    let ghost before = out@;
    append_component(&mut out, name.substring_char(start, len));
    proof {
        lemma_component_end(c, start as int, len as int, before);
        assert(c.subrange(0, len as int) =~= c);
    }
    out
}

/// Closing the component `c[start..i]` extends the filled prefix by it.
proof fn lemma_component_end(c: Seq<char>, start: int, i: int, before: Seq<char>)
    requires
        0 <= start <= i <= c.len(),
        sep_free(c.subrange(start, i)),
        start == 0 ==> before == Seq::<char>::empty(),
        start > 0 ==> c[start - 1] == SEP && before == blanks_filled(c.subrange(0, start - 1))
            + seq![SEP],
    ensures
        before + filled_component(c.subrange(start, i)) == blanks_filled(c.subrange(0, i)),
{
    let t = c.subrange(0, i);
    let comp = c.subrange(start, i);
    if start == 0 {
        assert(t =~= comp);
        lemma_sep_free_no_parent(t);
        assert(before + filled_component(comp) =~= filled_component(comp));
    } else {
        let p = c.subrange(0, start - 1);
        assert(t =~= p + seq![SEP] + comp);
        lemma_parent_of_join(p, comp);
        assert(t.subrange(p.len() + 1int, t.len() as int) =~= comp);
    }
}

/// The canonical form of `name`, or `None` when `name` is already canonical.
pub fn normalize_native_name(name: &str) -> (r: Option<String>)
    ensures
        r is None ==> normalized(name@) == name@,
        r matches Some(n) ==> n@ == normalized(name@) && n@ != name@,
{
    let cleaned = strip_controls(name);
    let out = fill_blanks(cleaned.as_str());
    if out == String::from_str(name) {
        None
    } else {
        Some(out)
    }
}

/// The immediate parent of `name`, or `None` for a single component.
pub fn immediate_parent_name(name: &str) -> (r: Option<&str>)
    ensures
        r is Some <==> parent_name(name@) is Some,
        r is Some ==> r->0@ == parent_name(name@)->0,
{
    let mut i: usize = name.unicode_len();
    assert(name@.subrange(0, i as int) =~= name@);
    while i > 0
        invariant
            i <= name@.len(),
            parent_name(name@) == parent_name(name@.subrange(0, i as int)),
        decreases i,
    {
        if name.get_char(i - 1) == SEP {
            assert(name@.subrange(0, i as int).drop_last() =~= name@.subrange(0, i - 1));
            return Some(name.substring_char(0, i - 1));
        }
        assert(name@.subrange(0, i as int).drop_last() =~= name@.subrange(0, i - 1));
        i = i - 1;
    }
    None
}

fn fold_char(c: char) -> (r: u32)
    ensures
        r as int == folded(c),
{
    let v = c as u32;
    if 65 <= v && v <= 90 {
        v + 32
    } else {
        v
    }
}

/// Whether two names are the same name to the store.
pub fn name_matches(a: &str, b: &str) -> (r: bool)
    ensures
        r == names_match(a@, b@),
{
    let n: usize = a.unicode_len();
    if n != b.unicode_len() {
        return false;
    }
    let mut i: usize = 0;
    while i < n
        invariant
            n == a@.len() == b@.len(),
            i <= n,
            forall|j: int| 0 <= j < i ==> same_letter(#[trigger] a@[j], b@[j]),
        decreases n - i,
    {
        let x = a.get_char(i);
        let y = b.get_char(i);
        if fold_char(x) != fold_char(y) {
            assert(!same_letter(a@[i as int], b@[i as int]));
            return false;
        }
        i = i + 1;
    }
    true
}

} // verus!
