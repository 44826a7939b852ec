//! The orders by which factors are laid out: text by code point, sort keys
//! entry by entry.

use crate::arithmetic::Exponent;
use vstd::prelude::*;

verus! {

/// A sort key: base unit names, each with an exponent.
pub type SortKey = Vec<(String, Exponent)>;

/// What a sort key denotes.
pub type KeyView = Seq<(Seq<char>, real)>;

/// Text ordered character by character, by code point; a proper prefix comes
/// first.
pub open spec fn text_lt(a: Seq<char>, b: Seq<char>) -> bool
    decreases a.len(),
{
    if b.len() == 0 {
        false
    } else if a.len() == 0 {
        true
    } else if a[0] != b[0] {
        (a[0] as int) < (b[0] as int)
    } else {
        text_lt(a.drop_first(), b.drop_first())
    }
}

/// Key entries ordered by name, then by exponent.
pub open spec fn entry_lt(a: (Seq<char>, real), b: (Seq<char>, real)) -> bool {
    text_lt(a.0, b.0) || (a.0 == b.0 && a.1 < b.1)
}

/// Sort keys ordered entry by entry; a proper prefix comes first.
pub open spec fn key_lt(a: KeyView, b: KeyView) -> bool
    decreases a.len(),
{
    if b.len() == 0 {
        false
    } else if a.len() == 0 {
        true
    } else if a[0] != b[0] {
        entry_lt(a[0], b[0])
    } else {
        key_lt(a.drop_first(), b.drop_first())
    }
}

/// The view of a sort key.
pub open spec fn key_view(key: Seq<(String, Exponent)>) -> KeyView {
    key.map_values(|e: (String, Exponent)| (e.0@, e.1@))
}

/// Whether every exponent of a key is well formed.
pub open spec fn key_wf(key: Seq<(String, Exponent)>) -> bool {
    forall|i: int| 0 <= i < key.len() ==> (#[trigger] key[i]).1.wf()
}

/// No text comes before itself.
pub proof fn lemma_text_lt_irreflexive(a: Seq<char>)
    ensures
        !text_lt(a, a),
    decreases a.len(),
{
    if a.len() > 0 {
        lemma_text_lt_irreflexive(a.drop_first());
    }
}

/// Whether `a` comes before `b`.
pub fn text_precedes(a: &str, b: &str) -> (r: bool)
    ensures
        r == text_lt(a@, b@),
{
    let n = a.unicode_len();
    let m = b.unicode_len();
    let mut i: usize = 0;
    assert(a@.skip(0) =~= a@ && b@.skip(0) =~= b@);
    while i < n && i < m
        invariant
            n == a@.len(),
            m == b@.len(),
            i <= n,
            i <= m,
            text_lt(a@, b@) == text_lt(a@.skip(i as int), b@.skip(i as int)),
        decreases n - i,
    {
        let x = a.get_char(i);
        let y = b.get_char(i);
        let ghost ra = a@.skip(i as int);
        let ghost rb = b@.skip(i as int);
        assert(ra[0] == x && rb[0] == y);
        assert(ra.drop_first() =~= a@.skip(i + 1));
        assert(rb.drop_first() =~= b@.skip(i + 1));
        if x != y {
            return (x as u32) < (y as u32);
        }
        i += 1;
    }
    i < m
}

/// Whether both texts are the same.
pub fn text_same(a: &str, b: &str) -> (r: bool)
    ensures
        r == (a@ == b@),
{
    let n = a.unicode_len();
    let m = b.unicode_len();
    if n != m {
        return false;
    }
    let mut i: usize = 0;
    while i < n
        invariant
            n == a@.len(),
            m == b@.len(),
            n == m,
            i <= n,
            a@.take(i as int) == b@.take(i as int),
        decreases n - i,
    {
        if a.get_char(i) != b.get_char(i) {
            assert(a@[i as int] != b@[i as int]);
            return false;
        }
        assert(a@.take(i + 1) =~= a@.take(i as int).push(a@[i as int]));
        assert(b@.take(i + 1) =~= b@.take(i as int).push(b@[i as int]));
        i += 1;
    }
    assert(a@.take(n as int) =~= a@ && b@.take(n as int) =~= b@);
    true
}

/// Whether key `a` comes before key `b`.
pub fn key_precedes(a: &SortKey, b: &SortKey) -> (r: bool)
    requires
        key_wf(a@),
        key_wf(b@),
    ensures
        r == key_lt(key_view(a@), key_view(b@)),
{
    let ghost va = key_view(a@);
    let ghost vb = key_view(b@);
    let mut i: usize = 0;
    assert(va.skip(0) =~= va && vb.skip(0) =~= vb);
    while i < a.len() && i < b.len()
        invariant
            va == key_view(a@),
            vb == key_view(b@),
            key_wf(a@),
            key_wf(b@),
            i <= a.len(),
            i <= b.len(),
            key_lt(va, vb) == key_lt(va.skip(i as int), vb.skip(i as int)),
        decreases a.len() - i,
    {
        let ghost ra = va.skip(i as int);
        let ghost rb = vb.skip(i as int);
        assert(ra[0] == va[i as int] && rb[0] == vb[i as int]);
        assert(ra.drop_first() =~= va.skip(i + 1));
        assert(rb.drop_first() =~= vb.skip(i + 1));
        let same_name = text_same(a[i].0.as_str(), b[i].0.as_str());
        if !same_name {
            return text_precedes(a[i].0.as_str(), b[i].0.as_str());
        }
        if !a[i].1.same(&b[i].1) {
            proof {
                lemma_text_lt_irreflexive(a@[i as int].0@);
            }
            return a[i].1.lt(&b[i].1);
        }
        i += 1;
    }
    i < b.len()
}

/// Whether both keys denote the same key.
pub fn key_same(a: &SortKey, b: &SortKey) -> (r: bool)
    requires
        key_wf(a@),
        key_wf(b@),
    ensures
        r == (key_view(a@) == key_view(b@)),
{
    if a.len() != b.len() {
        return false;
    }
    let ghost va = key_view(a@);
    let ghost vb = key_view(b@);
    let mut i: usize = 0;
    while i < a.len()
        invariant
            va == key_view(a@),
            vb == key_view(b@),
            key_wf(a@),
            key_wf(b@),
            a.len() == b.len(),
            i <= a.len(),
            va.take(i as int) == vb.take(i as int),
        decreases a.len() - i,
    {
        if !text_same(a[i].0.as_str(), b[i].0.as_str()) || !a[i].1.same(&b[i].1) {
            assert(va[i as int] != vb[i as int]);
            return false;
        }
        assert(va.take(i + 1) =~= va.take(i as int).push(va[i as int]));
        assert(vb.take(i + 1) =~= vb.take(i as int).push(vb[i as int]));
        i += 1;
    }
    assert(va.take(a.len() as int) =~= va && vb.take(a.len() as int) =~= vb);
    true
}

/// Text order is transitive.
pub proof fn lemma_text_lt_transitive(a: Seq<char>, b: Seq<char>, c: Seq<char>)
    requires
        text_lt(a, b),
        text_lt(b, c),
    ensures
        text_lt(a, c),
    decreases a.len(),
{
    if a.len() > 0 && a[0] == b[0] && b[0] == c[0] {
        lemma_text_lt_transitive(a.drop_first(), b.drop_first(), c.drop_first());
    }
}

/// Of two different texts one comes before the other.
pub proof fn lemma_text_lt_connected(a: Seq<char>, b: Seq<char>)
    requires
        a != b,
    ensures
        text_lt(a, b) || text_lt(b, a),
    decreases a.len(),
{
    if a.len() > 0 && b.len() > 0 && a[0] == b[0] {
        if a.drop_first() == b.drop_first() {
            assert(a =~= seq![a[0]] + a.drop_first());
            assert(b =~= seq![b[0]] + b.drop_first());
        }
        lemma_text_lt_connected(a.drop_first(), b.drop_first());
    } else if a.len() == 0 && b.len() == 0 {
        assert(a =~= b);
    } else if a.len() > 0 && b.len() > 0 {
        let (x, y) = (a[0], b[0]);
        assert(x as int != y as int);
    }
}

/// No key entry comes before itself.
pub proof fn lemma_entry_lt_irreflexive(a: (Seq<char>, real))
    ensures
        !entry_lt(a, a),
{
    lemma_text_lt_irreflexive(a.0);
}

/// The order of key entries is transitive.
pub proof fn lemma_entry_lt_transitive(
    a: (Seq<char>, real),
    b: (Seq<char>, real),
    c: (Seq<char>, real),
)
    requires
        entry_lt(a, b),
        entry_lt(b, c),
    ensures
        entry_lt(a, c),
{
    if text_lt(a.0, b.0) && text_lt(b.0, c.0) {
        lemma_text_lt_transitive(a.0, b.0, c.0);
    }
}

/// Of two different key entries one comes before the other.
pub proof fn lemma_entry_lt_connected(a: (Seq<char>, real), b: (Seq<char>, real))
    requires
        a != b,
    ensures
        entry_lt(a, b) || entry_lt(b, a),
{
    if a.0 != b.0 {
        lemma_text_lt_connected(a.0, b.0);
    }
}

/// No sort key comes before itself.
pub proof fn lemma_key_lt_irreflexive(a: KeyView)
    ensures
        !key_lt(a, a),
    decreases a.len(),
{
    if a.len() > 0 {
        lemma_key_lt_irreflexive(a.drop_first());
    }
}

/// The order of sort keys is transitive.
pub proof fn lemma_key_lt_transitive(a: KeyView, b: KeyView, c: KeyView)
    requires
        key_lt(a, b),
        key_lt(b, c),
    ensures
        key_lt(a, c),
    decreases a.len(),
{
    if a.len() > 0 {
        if a[0] == b[0] && b[0] == c[0] {
            lemma_key_lt_transitive(a.drop_first(), b.drop_first(), c.drop_first());
        } else if a[0] != b[0] && b[0] != c[0] {
            lemma_entry_lt_transitive(a[0], b[0], c[0]);
            lemma_entry_lt_irreflexive(a[0]);
        }
    }
}

/// Of two different sort keys one comes before the other.
pub proof fn lemma_key_lt_connected(a: KeyView, b: KeyView)
    requires
        a != b,
    ensures
        key_lt(a, b) || key_lt(b, a),
    decreases a.len(),
{
    if a.len() > 0 && b.len() > 0 {
        if a[0] == b[0] {
            if a.drop_first() == b.drop_first() {
                assert(a =~= seq![a[0]] + a.drop_first());
                assert(b =~= seq![b[0]] + b.drop_first());
            }
            lemma_key_lt_connected(a.drop_first(), b.drop_first());
        } else {
            lemma_entry_lt_connected(a[0], b[0]);
        }
    } else if a.len() == 0 && b.len() == 0 {
        assert(a =~= b);
    }
}

} // verus!
