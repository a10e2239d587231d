//! Properties of the map that span several operations, stated over the views that the
//! operations' own contracts use.
use vstd::prelude::*;
use crate::lex::{in_bounds, lemma_lex_asym, lemma_lex_total, lex_le, lex_lt};
use crate::model::{lemma_select_listing, select, sorted_listing, within};

verus! {

/// A sorted listing of a map is unique: two sequences that both list the entries of `m`
/// once each in increasing key order are the same sequence. So `items()` and a full
/// iteration are fixed by the map's contents alone.
pub proof fn lemma_listing_unique<V>(s1: Seq<(Seq<u8>, V)>, s2: Seq<(Seq<u8>, V)>, m: Map<Seq<u8>, V>)
    requires
        sorted_listing(s1, m),
        sorted_listing(s2, m),
    ensures
        s1 == s2,
    decreases s1.len(),
{
    if s1.len() == 0 {
        if s2.len() > 0 {
            assert(m.contains_key(s2[0].0));
        }
        assert(s1 =~= s2);
    } else {
        assert(m.contains_key(s1[0].0));
        let j2 = choose|j: int| 0 <= j < s2.len() && s2[j].0 == s1[0].0;
        let j1 = choose|j: int| 0 <= j < s1.len() && s1[j].0 == s2[0].0;
        if j2 > 0 {
            if j1 > 0 {
                assert(lex_lt(s1[0].0, s1[j1].0));
                assert(lex_lt(s2[0].0, s2[j2].0));
                lemma_lex_asym(s1[0].0, s2[0].0);
            } else {
                assert(lex_lt(s2[0].0, s2[j2].0));
                lemma_lex_asym(s2[0].0, s2[0].0);
            }
        } else if j1 > 0 {
            assert(lex_lt(s1[0].0, s1[j1].0));
            lemma_lex_asym(s1[0].0, s1[0].0);
        }
        let k = s1[0].0;
        assert(s2[0].0 == k);
        lemma_listing_tail(s1, m);
        lemma_listing_tail(s2, m);
        lemma_listing_unique(s1.drop_first(), s2.drop_first(), m.remove(k));
        assert(s1 =~= seq![s1[0]] + s1.drop_first());
        assert(s2 =~= seq![s2[0]] + s2.drop_first());
    }
}

/// Dropping the first item of a sorted listing lists the map without that item's key.
proof fn lemma_listing_tail<V>(s: Seq<(Seq<u8>, V)>, m: Map<Seq<u8>, V>)
    requires
        sorted_listing(s, m),
        s.len() > 0,
    ensures
        sorted_listing(s.drop_first(), m.remove(s[0].0)),
        m.contains_key(s[0].0),
        m[s[0].0] == s[0].1,
{
    let k = s[0].0;
    let t = s.drop_first();
    let r = m.remove(k);
    assert forall|i: int, j: int| 0 <= i < j < t.len() implies lex_lt(#[trigger] t[i].0, #[trigger] t[j].0) by {
        assert(t[i] == s[i + 1] && t[j] == s[j + 1]);
    }
    assert forall|i: int| 0 <= i < t.len() implies r.contains_key(#[trigger] t[i].0) && r[t[i].0] == t[i].1 by {
        assert(t[i] == s[i + 1]);
        assert(lex_lt(s[0].0, s[i + 1].0));
        lemma_lex_asym(k, k);
    }
    assert forall|x: Seq<u8>| #[trigger] r.contains_key(x) implies exists|i: int| 0 <= i < t.len() && t[i].0 == x by {
        assert(m.contains_key(x));
        let j = choose|j: int| 0 <= j < s.len() && s[j].0 == x;
        assert(j != 0);
        assert(t[j - 1] == s[j]);
    }
}

/// A sorted listing holds as many items as the map has keys, and the map is finite: the
/// length of `items()` is the map's `len()`.
pub proof fn lemma_listing_len<V>(s: Seq<(Seq<u8>, V)>, m: Map<Seq<u8>, V>)
    requires
        sorted_listing(s, m),
    ensures
        m.dom().finite(),
        s.len() == m.len(),
    decreases s.len(),
{
    if s.len() == 0 {
        assert forall|x: Seq<u8>| !m.dom().contains(x) by {
            if m.contains_key(x) {
                let j = choose|j: int| 0 <= j < s.len() && s[j].0 == x;
            }
        }
        assert(m.dom() =~= Set::<Seq<u8>>::empty());
    } else {
        let k = s[0].0;
        lemma_listing_tail(s, m);
        lemma_listing_len(s.drop_first(), m.remove(k));
        assert(m.dom() =~= m.remove(k).dom().insert(k));
    }
}

/// Selecting the items within bounds is filtering them by the bounds.
proof fn lemma_select_is_filter<V>(s: Seq<(Seq<u8>, V)>, lo: Option<Seq<u8>>, hi: Option<Seq<u8>>)
    ensures
        select(s, lo, hi) == s.filter(|p: (Seq<u8>, V)| in_bounds(p.0, lo, hi)),
    decreases s.len(),
{
    reveal(Seq::filter);
    if s.len() > 0 {
        lemma_select_is_filter(s.drop_last(), lo, hi);
    }
}

/// A range scan gives exactly the full in-order scan filtered to the inclusive bounds:
/// if `s` is the listing `items()` returns for `m` and `r` the listing `range(lo, hi)`
/// returns, `r` is `s` with the items outside the bounds left out.
pub proof fn lemma_range_is_filtered_scan<V>(
    s: Seq<(Seq<u8>, V)>,
    r: Seq<(Seq<u8>, V)>,
    m: Map<Seq<u8>, V>,
    lo: Option<Seq<u8>>,
    hi: Option<Seq<u8>>,
)
    requires
        sorted_listing(s, m),
        sorted_listing(r, within(m, lo, hi)),
    ensures
        r == s.filter(|p: (Seq<u8>, V)| in_bounds(p.0, lo, hi)),
{
    lemma_select_listing(s, m, lo, hi);
    lemma_listing_unique(select(s, lo, hi), r, within(m, lo, hi));
    lemma_select_is_filter(s, lo, hi);
}

/// A range whose two bounds are the same key holds that key's entry if the map has it, and
/// nothing else.
pub proof fn lemma_range_single_key<V>(m: Map<Seq<u8>, V>, k: Seq<u8>)
    ensures
        within(m, Some(k), Some(k)) == if m.contains_key(k) {
            map![k => m[k]]
        } else {
            Map::empty()
        },
{
    assert forall|x: Seq<u8>| in_bounds(x, Some(k), Some(k)) implies x == k by {
        lemma_lex_total(x, k);
    }
    lemma_lex_asym(k, k);
    if m.contains_key(k) {
        assert(within(m, Some(k), Some(k)) =~= map![k => m[k]]);
    } else {
        assert(within(m, Some(k), Some(k)) =~= Map::<Seq<u8>, V>::empty());
    }
}

/// A range whose lower bound lies above its upper bound is empty.
pub proof fn lemma_range_inverted_empty<V>(m: Map<Seq<u8>, V>, lo: Seq<u8>, hi: Seq<u8>)
    requires
        lex_lt(hi, lo),
    ensures
        within(m, Some(lo), Some(hi)) == Map::<Seq<u8>, V>::empty(),
{
    assert forall|x: Seq<u8>| !in_bounds(x, Some(lo), Some(hi)) by {
        if lex_le(lo, x) && lex_le(x, hi) {
            lemma_lex_total(lo, x);
            lemma_lex_total(x, hi);
            if lex_lt(lo, x) {
                crate::lex::lemma_lex_trans(hi, lo, x);
            } else if lex_lt(x, hi) {
                crate::lex::lemma_lex_trans(x, hi, lo);
                lemma_lex_asym(x, lo);
            }
            lemma_lex_asym(hi, lo);
        }
    }
    assert(within(m, Some(lo), Some(hi)) =~= Map::<Seq<u8>, V>::empty());
}

/// After `put(k, v)`, `get(k)` gives `v`, and every other key keeps its entry.
pub proof fn lemma_get_after_put<V>(m: Map<Seq<u8>, V>, k: Seq<u8>, v: V, other: Seq<u8>)
    requires
        other != k,
    ensures
        m.insert(k, v).contains_key(k),
        m.insert(k, v)[k] == v,
        m.insert(k, v).contains_key(other) == m.contains_key(other),
        m.contains_key(other) ==> m.insert(k, v)[other] == m[other],
{
}

/// After `delete(k)`, `get(k)` gives nothing, and every other key keeps its entry.
pub proof fn lemma_get_after_delete<V>(m: Map<Seq<u8>, V>, k: Seq<u8>, other: Seq<u8>)
    requires
        other != k,
    ensures
        !m.remove(k).contains_key(k),
        m.remove(k).contains_key(other) == m.contains_key(other),
        m.contains_key(other) ==> m.remove(k)[other] == m[other],
{
}

/// `put` grows `len()` by one exactly when the key was absent; `delete` shrinks it by one
/// exactly when the key was present.
pub proof fn lemma_len_after_put_delete<V>(m: Map<Seq<u8>, V>, k: Seq<u8>, v: V)
    requires
        m.dom().finite(),
    ensures
        m.insert(k, v).len() == if m.contains_key(k) { m.len() } else { m.len() + 1 },
        m.remove(k).len() == if m.contains_key(k) { m.len() - 1 } else { m.len() as int },
{
    assert(m.insert(k, v).dom() =~= m.dom().insert(k));
    assert(m.remove(k).dom() =~= m.dom().remove(k));
}

/// A second `put` on the same key replaces the first: the map is as if only the second had
/// been made.
pub proof fn lemma_put_overwrites<V>(m: Map<Seq<u8>, V>, k: Seq<u8>, v1: V, v2: V)
    ensures
        m.insert(k, v1).insert(k, v2) == m.insert(k, v2),
{
    assert(m.insert(k, v1).insert(k, v2) =~= m.insert(k, v2));
}

/// Deleting a key that `put` has just added gives back the map as it was; putting a key
/// back after deleting it is the same as putting it.
pub proof fn lemma_put_delete_inverse<V>(m: Map<Seq<u8>, V>, k: Seq<u8>, v: V)
    ensures
        !m.contains_key(k) ==> m.insert(k, v).remove(k) == m,
        m.remove(k).insert(k, v) == m.insert(k, v),
{
    if !m.contains_key(k) {
        assert(m.insert(k, v).remove(k) =~= m);
    }
    assert(m.remove(k).insert(k, v) =~= m.insert(k, v));
}

} // verus!
