//! What a tree holds: its entries as a map, in key order, and its well-formedness.
use vstd::prelude::*;
use crate::lex::{in_bounds, is_prefix, lemma_lex_by_byte, lemma_lex_prefix, lemma_prefix_trans, lex_lt};
use crate::raw::{Node, NodeHeader};

verus! {

broadcast use vstd::map_lib::lemma_union_dom;

// ---------------------------------------------------------------------------
// Uniform view of the node kinds
// ---------------------------------------------------------------------------

/// The child under byte `b` of an inner node (`None` for leaves).
pub open spec fn child<V>(n: Node<V>, b: u8) -> Option<Node<V>> {
    match n {
        Node::Leaf(_) => None,
        Node::N4(x) => x.child(b),
        Node::N16(x) => x.child(b),
        Node::N48(x) => x.child(b),
        Node::N256(x) => x.child(b),
    }
}

/// The header of an inner node.
pub open spec fn hdr<V>(n: Node<V>) -> NodeHeader<V> {
    match n {
        Node::Leaf(_) => arbitrary(),
        Node::N4(x) => x.header,
        Node::N16(x) => x.header,
        Node::N48(x) => x.header,
        Node::N256(x) => x.header,
    }
}

/// The kind-specific layout invariant.
pub open spec fn shape<V>(n: Node<V>) -> bool {
    match n {
        Node::Leaf(_) => true,
        Node::N4(x) => x.shape(),
        Node::N16(x) => x.shape(),
        Node::N48(x) => x.shape(),
        Node::N256(x) => x.shape(),
    }
}

/// How many children the node kind can hold.
pub open spec fn capacity<V>(n: Node<V>) -> nat {
    match n {
        Node::Leaf(_) => 0,
        Node::N4(_) => 4,
        Node::N16(_) => 16,
        Node::N48(_) => 48,
        Node::N256(_) => 256,
    }
}

/// A child is smaller than its parent, so recursion over children terminates.
pub proof fn lemma_child_decreases<V>(n: Node<V>, b: u8)
    requires
        child(n, b) is Some,
    ensures
        decreases_to!(n => child(n, b).unwrap()),
{
    match n {
        Node::Leaf(_) => {},
        Node::N4(x) => {
            let i = x.keys@.index_of(b);
            assert(decreases_to!(n => x));
            assert(decreases_to!(x => x.children));
            assert(decreases_to!(x.children => x.children@));
            assert(decreases_to!(x.children@ => x.children@[i]));
        },
        Node::N16(x) => {
            let i = x.keys@.index_of(b);
            assert(decreases_to!(n => x));
            assert(decreases_to!(x => x.children));
            assert(decreases_to!(x.children => x.children@));
            assert(decreases_to!(x.children@ => x.children@[i]));
        },
        Node::N48(x) => {
            let j = x.index@[b as int] as int;
            assert(decreases_to!(n => x));
            assert(decreases_to!(x => x.slots));
            assert(decreases_to!(x.slots => x.slots@));
            assert(decreases_to!(x.slots@ => x.slots@[j]));
            assert(decreases_to!(x.slots@[j] => x.slots@[j].unwrap()));
        },
        Node::N256(x) => {
            let j = b as int;
            assert(decreases_to!(n => x));
            assert(decreases_to!(x => x.children));
            assert(decreases_to!(x.children => x.children@));
            assert(decreases_to!(x.children@ => x.children@[j]));
            assert(decreases_to!(x.children@[j] => x.children@[j].unwrap()));
        },
    }
}

// ---------------------------------------------------------------------------
// Entries, in-order items, size, well-formedness
// ---------------------------------------------------------------------------

/// The entry an inner node holds itself, as a map.
pub open spec fn value_entries<V>(h: NodeHeader<V>) -> Map<Seq<u8>, V> {
    match h.value {
        Some(kv) => map![kv.0@ => kv.1],
        None => Map::empty(),
    }
}

/// The entry an inner node holds itself, as a sequence.
pub open spec fn value_items<V>(h: NodeHeader<V>) -> Seq<(Seq<u8>, V)> {
    match h.value {
        Some(kv) => seq![(kv.0@, kv.1)],
        None => Seq::empty(),
    }
}

/// Every key-value pair stored in the subtree.
pub open spec fn entries<V>(n: Node<V>) -> Map<Seq<u8>, V>
    decreases n, 1nat, 0int,
{
    match n {
        Node::Leaf(l) => map![l.key@ => l.value],
        _ => value_entries(hdr(n)).union_prefer_right(entries_from(n, 0)),
    }
}

/// The entries under children at bytes `b` and above.
pub open spec fn entries_from<V>(n: Node<V>, b: int) -> Map<Seq<u8>, V>
    decreases n, 0nat, 256 - b,
{
    if b < 0 || b >= 256 {
        Map::empty()
    } else {
        match child(n, b as u8) {
            Some(c) => {
                proof {
                    lemma_child_decreases(n, b as u8);
                }
                entries(c).union_prefer_right(entries_from(n, b + 1))
            },
            None => entries_from(n, b + 1),
        }
    }
}

/// The subtree's entries in traversal order: own value first, then children by byte.
pub open spec fn items<V>(n: Node<V>) -> Seq<(Seq<u8>, V)>
    decreases n, 1nat, 0int,
{
    match n {
        Node::Leaf(l) => seq![(l.key@, l.value)],
        _ => value_items(hdr(n)) + items_from(n, 0),
    }
}

/// The items under children at bytes `b` and above.
pub open spec fn items_from<V>(n: Node<V>, b: int) -> Seq<(Seq<u8>, V)>
    decreases n, 0nat, 256 - b,
{
    if b < 0 || b >= 256 {
        Seq::empty()
    } else {
        match child(n, b as u8) {
            Some(c) => {
                proof {
                    lemma_child_decreases(n, b as u8);
                }
                items(c) + items_from(n, b + 1)
            },
            None => items_from(n, b + 1),
        }
    }
}

/// Number of nodes in the subtree.
pub open spec fn size<V>(n: Node<V>) -> nat
    decreases n, 1nat, 0int,
{
    match n {
        Node::Leaf(_) => 1,
        _ => 1 + size_from(n, 0),
    }
}

/// Number of nodes under children at bytes `b` and above.
pub open spec fn size_from<V>(n: Node<V>, b: int) -> nat
    decreases n, 0nat, 256 - b,
{
    if b < 0 || b >= 256 {
        0
    } else {
        match child(n, b as u8) {
            Some(c) => {
                proof {
                    lemma_child_decreases(n, b as u8);
                }
                size(c) + size_from(n, b + 1)
            },
            None => size_from(n, b + 1),
        }
    }
}

/// The path of bytes leading to an inner node's children: its own path and its prefix.
pub open spec fn child_path<V>(n: Node<V>, path: Seq<u8>) -> Seq<u8> {
    path + hdr(n).prefix@
}

/// The subtree reached by `path` is well formed: every node has a valid layout, leaf keys
/// extend the path, an inner node's full path fits a `usize` length and is exactly the key
/// of its own value, and each child sits under the path extended by its byte.
pub open spec fn wf<V>(n: Node<V>, path: Seq<u8>) -> bool
    decreases n, 1nat, 0int,
{
    match n {
        Node::Leaf(l) => is_prefix(path, l.key@),
        _ => {
            &&& shape(n)
            &&& child_path(n, path).len() <= usize::MAX
            &&& (hdr(n).value matches Some(kv) ==> kv.0@ == child_path(n, path))
            &&& wf_from(n, child_path(n, path), 0)
        },
    }
}

/// Children at bytes `b` and above are well formed under `q` extended by their byte.
pub open spec fn wf_from<V>(n: Node<V>, q: Seq<u8>, b: int) -> bool
    decreases n, 0nat, 256 - b,
{
    if b < 0 || b >= 256 {
        true
    } else {
        &&& match child(n, b as u8) {
            Some(c) => {
                proof {
                    lemma_child_decreases(n, b as u8);
                }
                wf(c, q.push(b as u8))
            },
            None => true,
        }
        &&& wf_from(n, q, b + 1)
    }
}

/// `s` lists exactly the entries of `m`, each once, in strictly increasing key order.
pub open spec fn sorted_listing<V>(s: Seq<(Seq<u8>, V)>, m: Map<Seq<u8>, V>) -> bool {
    &&& forall|i: int, j: int| 0 <= i < j < s.len() ==> lex_lt(#[trigger] s[i].0, #[trigger] s[j].0)
    &&& forall|i: int| 0 <= i < s.len() ==> m.contains_key(#[trigger] s[i].0) && m[s[i].0] == s[i].1
    &&& forall|k: Seq<u8>| #[trigger] m.contains_key(k) ==> exists|i: int| 0 <= i < s.len() && s[i].0 == k
}

// ---------------------------------------------------------------------------
// Well-formedness of children
// ---------------------------------------------------------------------------

proof fn lemma_wf_from_at<V>(n: Node<V>, q: Seq<u8>, b0: int, b: u8)
    requires
        wf_from(n, q, b0),
        0 <= b0 <= b,
        child(n, b) is Some,
    ensures
        wf(child(n, b).unwrap(), q.push(b)),
    decreases b - b0,
{
    if b0 < b {
        lemma_wf_from_at(n, q, b0 + 1, b);
    }
}

/// Each child of a well-formed inner node is well formed under its byte.
pub proof fn lemma_wf_child<V>(n: Node<V>, path: Seq<u8>, b: u8)
    requires
        wf(n, path),
        !(n is Leaf),
        child(n, b) is Some,
    ensures
        wf(child(n, b).unwrap(), child_path(n, path).push(b)),
{
    lemma_wf_from_at(n, child_path(n, path), 0, b);
}

proof fn lemma_wf_from_intro<V>(n: Node<V>, q: Seq<u8>, b0: int)
    requires
        0 <= b0 <= 256,
        forall|b: u8| b0 <= b && #[trigger] child(n, b) is Some ==> wf(child(n, b).unwrap(), q.push(b)),
    ensures
        wf_from(n, q, b0),
    decreases 256 - b0,
{
    if b0 < 256 {
        lemma_wf_from_intro(n, q, b0 + 1);
        let b = b0 as u8;
        assert(b as int == b0);
    }
}

/// An inner node is well formed when its layout, value and children are.
pub proof fn lemma_wf_intro<V>(n: Node<V>, path: Seq<u8>)
    requires
        !(n is Leaf),
        shape(n),
        child_path(n, path).len() <= usize::MAX,
        hdr(n).value matches Some(kv) ==> kv.0@ == child_path(n, path),
        forall|b: u8| #[trigger] child(n, b) is Some ==> wf(child(n, b).unwrap(), child_path(n, path).push(b)),
    ensures
        wf(n, path),
{
    lemma_wf_from_intro(n, child_path(n, path), 0);
}

// ---------------------------------------------------------------------------
// Entries, pointwise
// ---------------------------------------------------------------------------

/// All keys of a well-formed subtree extend its path; there are finitely many.
pub proof fn lemma_entries_extend<V>(n: Node<V>, path: Seq<u8>)
    requires
        wf(n, path),
    ensures
        entries(n).dom().finite(),
        forall|k: Seq<u8>| #[trigger] entries(n).contains_key(k) ==> is_prefix(path, k),
    decreases n, 1nat, 0int,
{
    match n {
        Node::Leaf(l) => {},
        _ => {
            let q = child_path(n, path);
            lemma_entries_from(n, path, 0);
            assert forall|k: Seq<u8>| #[trigger] entries(n).contains_key(k) implies is_prefix(path, k) by {
                if value_entries(hdr(n)).contains_key(k) {
                    assert(k == q);
                    assert(k.take(path.len() as int) =~= path);
                } else {
                    let b = k[q.len() as int];
                    let c = child(n, b).unwrap();
                    assert(entries(c).contains_key(k));
                    lemma_wf_child(n, path, b);
                    lemma_entries_extend_child(n, path, b);
                    assert(is_prefix(q.push(b), k));
                    assert(k.take(path.len() as int) =~= k.take(q.push(b).len() as int).take(path.len() as int));
                }
            }
        },
    }
}

/// Every key under the child at byte `b` extends the parent's full path and that byte.
pub proof fn lemma_entries_extend_child<V>(n: Node<V>, path: Seq<u8>, b: u8)
    requires
        wf(n, path),
        !(n is Leaf),
        child(n, b) is Some,
    ensures
        entries(child(n, b).unwrap()).dom().finite(),
        forall|k: Seq<u8>| #[trigger] entries(child(n, b).unwrap()).contains_key(k) ==> is_prefix(child_path(n, path).push(b), k),
    decreases n, 0nat, 0int,
{
    lemma_child_decreases(n, b);
    lemma_wf_child(n, path, b);
    lemma_entries_extend(child(n, b).unwrap(), child_path(n, path).push(b));
}

/// Pointwise description of the entries under children at bytes `b0` and above.
pub proof fn lemma_entries_from<V>(n: Node<V>, path: Seq<u8>, b0: int)
    requires
        wf(n, path),
        !(n is Leaf),
        0 <= b0 <= 256,
    ensures
        entries_from(n, b0).dom().finite(),
        forall|k: Seq<u8>| #[trigger] entries_from(n, b0).contains_key(k) <==> {
            let d = child_path(n, path).len() as int;
            &&& k.len() > d
            &&& b0 <= k[d]
            &&& child(n, k[d]) is Some
            &&& entries(child(n, k[d]).unwrap()).contains_key(k)
        },
        forall|k: Seq<u8>| #[trigger] entries_from(n, b0).contains_key(k) ==> entries_from(n, b0)[k]
            == entries(child(n, k[child_path(n, path).len() as int]).unwrap())[k],
    decreases n, 0nat, 256 - b0,
{
    let q = child_path(n, path);
    let d = q.len() as int;
    if b0 < 256 {
        lemma_entries_from(n, path, b0 + 1);
        let b = b0 as u8;
        assert(b as int == b0);
        match child(n, b) {
            Some(c) => {
                lemma_entries_extend_child(n, path, b);
                assert forall|k: Seq<u8>| #[trigger] entries(c).contains_key(k) implies k.len() > d && k[d] == b by {
                    assert(is_prefix(q.push(b), k));
                    assert(k.take(d + 1)[d] == q.push(b)[d]);
                }
            },
            None => {},
        }
    }
}

/// Pointwise description of an inner node's entries.
pub proof fn lemma_entries_inner<V>(n: Node<V>, path: Seq<u8>)
    requires
        wf(n, path),
        !(n is Leaf),
    ensures
        entries(n).dom().finite(),
        forall|k: Seq<u8>| #[trigger] entries(n).contains_key(k) <==> {
            let q = child_path(n, path);
            ||| (hdr(n).value is Some && k == q)
            ||| (k.len() > q.len() && child(n, k[q.len() as int]) is Some && entries(
                child(n, k[q.len() as int]).unwrap(),
            ).contains_key(k))
        },
        forall|k: Seq<u8>| #[trigger] entries(n).contains_key(k) ==> entries(n)[k] == {
            let q = child_path(n, path);
            if k == q {
                hdr(n).value.unwrap().1
            } else {
                entries(child(n, k[q.len() as int]).unwrap())[k]
            }
        },
{
    lemma_entries_from(n, path, 0);
    let q = child_path(n, path);
    assert forall|k: Seq<u8>| #[trigger] entries(n).contains_key(k) implies entries(n)[k] == (if k == q {
        hdr(n).value.unwrap().1
    } else {
        entries(child(n, k[q.len() as int]).unwrap())[k]
    }) by {
        if entries_from(n, 0).contains_key(k) {
            assert(k.len() > q.len());
            assert(k != q);
        }
    }
}

// ---------------------------------------------------------------------------
// Nodes with the same contents
// ---------------------------------------------------------------------------

/// Two inner nodes with the same value and children hold the same entries, items and size.
pub proof fn lemma_same_contents<V>(n1: Node<V>, n2: Node<V>)
    requires
        !(n1 is Leaf),
        !(n2 is Leaf),
        hdr(n1).value == hdr(n2).value,
        forall|b: u8| child(n1, b) == child(n2, b),
    ensures
        entries(n1) == entries(n2),
        items(n1) == items(n2),
        size(n1) == size(n2),
{
    lemma_same_contents_from(n1, n2, 0);
}

proof fn lemma_same_contents_from<V>(n1: Node<V>, n2: Node<V>, b0: int)
    requires
        forall|b: u8| child(n1, b) == child(n2, b),
        0 <= b0 <= 256,
    ensures
        entries_from(n1, b0) == entries_from(n2, b0),
        items_from(n1, b0) == items_from(n2, b0),
        size_from(n1, b0) == size_from(n2, b0),
    decreases 256 - b0,
{
    if b0 < 256 {
        lemma_same_contents_from(n1, n2, b0 + 1);
        assert(child(n1, b0 as u8) == child(n2, b0 as u8));
    }
}

/// Well-formedness carries over to a node with the same children, under the same path,
/// whose own entry (if any) has that path as key.
pub proof fn lemma_same_contents_wf<V>(n1: Node<V>, p1: Seq<u8>, n2: Node<V>, p2: Seq<u8>)
    requires
        wf(n1, p1),
        !(n1 is Leaf),
        !(n2 is Leaf),
        shape(n2),
        hdr(n1).value == hdr(n2).value || (hdr(n2).value matches Some(kv) ==> kv.0@ == child_path(n2, p2)),
        child_path(n1, p1) == child_path(n2, p2),
        forall|b: u8| child(n1, b) == child(n2, b),
    ensures
        wf(n2, p2),
{
    assert forall|b: u8| #[trigger] child(n2, b) is Some implies wf(child(n2, b).unwrap(), child_path(n2, p2).push(b)) by {
        lemma_wf_child(n1, p1, b);
    }
    lemma_wf_intro(n2, p2);
}

/// An inner node whose layout says it has no children has none.
pub proof fn lemma_no_children<V>(n: Node<V>)
    requires
        !(n is Leaf),
        shape(n),
        hdr(n).count == 0,
    ensures
        forall|b: u8| child(n, b) is None,
{
    match n {
        Node::N48(x) => {
            crate::raw::lemma_count_true_zero(crate::raw::used(x.index@));
            assert forall|b: u8| child(n, b) is None by {
                assert(!crate::raw::used(x.index@)[b as int]);
            }
        },
        Node::N256(x) => {
            crate::raw::lemma_count_true_zero(crate::raw::occupied(x.children@));
            assert forall|b: u8| child(n, b) is None by {
                assert(!crate::raw::occupied(x.children@)[b as int]);
            }
        },
        _ => {},
    }
}

/// A node without children holds just its own entry, if any.
pub proof fn lemma_childless_entries<V>(n: Node<V>, path: Seq<u8>)
    requires
        wf(n, path),
        !(n is Leaf),
        forall|b: u8| child(n, b) is None,
    ensures
        entries(n) =~= value_entries(hdr(n)),
{
    lemma_entries_inner(n, path);
}

/// A node without value and with a single child holds exactly that child's entries.
pub proof fn lemma_single_child_entries<V>(n: Node<V>, path: Seq<u8>, b: u8)
    requires
        wf(n, path),
        !(n is Leaf),
        hdr(n).value is None,
        child(n, b) is Some,
        forall|c: u8| c != b ==> child(n, c) is None,
    ensures
        entries(n) =~= entries(child(n, b).unwrap()),
{
    lemma_entries_inner(n, path);
    lemma_entries_extend_child(n, path, b);
    let q = child_path(n, path);
    assert forall|k: Seq<u8>| #[trigger] entries(child(n, b).unwrap()).contains_key(k) implies entries(n).contains_key(k) by {
        assert(is_prefix(q.push(b), k));
        assert(k.take(q.len() as int + 1)[q.len() as int] == q.push(b)[q.len() as int]);
    }
}

/// All keys under an inner node extend the node's full path.
pub proof fn lemma_entries_extend_inner<V>(n: Node<V>, path: Seq<u8>)
    requires
        wf(n, path),
        !(n is Leaf),
    ensures
        forall|k: Seq<u8>| #[trigger] entries(n).contains_key(k) ==> is_prefix(child_path(n, path), k),
{
    lemma_entries_inner(n, path);
    let q = child_path(n, path);
    assert forall|k: Seq<u8>| #[trigger] entries(n).contains_key(k) implies is_prefix(q, k) by {
        if k == q {
            assert(k.take(q.len() as int) =~= q);
        } else {
            let b = k[q.len() as int];
            lemma_entries_extend_child(n, path, b);
            assert(is_prefix(q.push(b), k));
            assert(k.take(q.len() as int) =~= k.take(q.len() as int + 1).take(q.len() as int));
        }
    }
}

/// A child's subtree is smaller than its parent's.
pub proof fn lemma_size_child<V>(n: Node<V>, b: u8)
    requires
        !(n is Leaf),
        child(n, b) is Some,
    ensures
        size(child(n, b).unwrap()) < size(n),
{
    lemma_size_from_child(n, 0, b);
}

proof fn lemma_size_from_child<V>(n: Node<V>, b0: int, b: u8)
    requires
        0 <= b0 <= b,
        child(n, b) is Some,
    ensures
        size(child(n, b).unwrap()) <= size_from(n, b0),
    decreases b - b0,
{
    if b0 < b {
        lemma_size_from_child(n, b0 + 1, b);
    }
}

/// The entries under the child at byte `b`, if any.
pub open spec fn child_entries<V>(n: Node<V>, b: u8) -> Map<Seq<u8>, V> {
    match child(n, b) {
        Some(c) => entries(c),
        None => Map::empty(),
    }
}

/// Changing only the child under byte `b` changes only the entries whose keys run through
/// `b`: an insertion or removal of such a key below `b` is one in the whole node.
pub proof fn lemma_entries_child_update<V>(n1: Node<V>, n2: Node<V>, path: Seq<u8>, b: u8, key: Seq<u8>, v: V)
    requires
        wf(n1, path),
        wf(n2, path),
        !(n1 is Leaf),
        !(n2 is Leaf),
        child_path(n1, path) == child_path(n2, path),
        hdr(n1).value == hdr(n2).value,
        forall|x: u8| x != b ==> child(n1, x) == child(n2, x),
        key.len() > child_path(n1, path).len(),
        key[child_path(n1, path).len() as int] == b,
    ensures
        child_entries(n2, b) == child_entries(n1, b).insert(key, v) ==> entries(n2) == entries(n1).insert(key, v),
        child_entries(n2, b) == child_entries(n1, b).remove(key) ==> entries(n2) == entries(n1).remove(key),
{
    lemma_entries_inner(n1, path);
    lemma_entries_inner(n2, path);
    let q = child_path(n1, path);
    if child_entries(n2, b) == child_entries(n1, b).insert(key, v) {
        assert(entries(n2) =~= entries(n1).insert(key, v)) by {
            assert forall|k: Seq<u8>| #[trigger] entries(n2).contains_key(k) <==> entries(n1).insert(key, v).contains_key(k) by {
                if k.len() > q.len() && k[q.len() as int] == b {
                    assert(child_entries(n2, b).contains_key(k) == child_entries(n1, b).insert(key, v).contains_key(k));
                }
            }
            assert forall|k: Seq<u8>| #[trigger] entries(n2).contains_key(k) implies entries(n2)[k] == entries(n1).insert(key, v)[k] by {
                if k.len() > q.len() && k[q.len() as int] == b {
                    assert(child_entries(n2, b)[k] == child_entries(n1, b).insert(key, v)[k]);
                }
            }
        }
    }
    if child_entries(n2, b) == child_entries(n1, b).remove(key) {
        assert(entries(n2) =~= entries(n1).remove(key)) by {
            assert forall|k: Seq<u8>| #[trigger] entries(n2).contains_key(k) <==> entries(n1).remove(key).contains_key(k) by {
                if k.len() > q.len() && k[q.len() as int] == b {
                    assert(child_entries(n2, b).contains_key(k) == child_entries(n1, b).remove(key).contains_key(k));
                }
            }
            assert forall|k: Seq<u8>| #[trigger] entries(n2).contains_key(k) implies entries(n2)[k] == entries(n1).remove(key)[k] by {
                if k.len() > q.len() && k[q.len() as int] == b {
                    assert(child_entries(n2, b)[k] == child_entries(n1, b).remove(key)[k]);
                }
            }
        }
    }
}

/// The full path of an inner node with a child is shorter than `usize::MAX`.
pub proof fn lemma_child_path_bound<V>(n: Node<V>, path: Seq<u8>, b: u8)
    requires
        wf(n, path),
        !(n is Leaf),
        child(n, b) is Some,
    ensures
        child_path(n, path).len() < usize::MAX,
{
    lemma_wf_child(n, path, b);
    let c = child(n, b).unwrap();
    match c {
        Node::Leaf(l) => {
            assert(l.key@.len() == l.key.len());
        },
        _ => {},
    }
}

// ---------------------------------------------------------------------------
// Items in order
// ---------------------------------------------------------------------------

/// Children missing between bytes `b1` and `b2` contribute no items and no nodes.
pub proof fn lemma_from_gap<V>(n: Node<V>, b1: int, b2: int)
    requires
        0 <= b1 <= b2 <= 256,
        forall|c: u8| b1 <= c < b2 ==> #[trigger] child(n, c) is None,
    ensures
        items_from(n, b1) == items_from(n, b2),
        size_from(n, b1) == size_from(n, b2),
    decreases b2 - b1,
{
    if b1 < b2 {
        assert(child(n, b1 as u8) is None);
        lemma_from_gap(n, b1 + 1, b2);
    }
}

/// Concatenating two sorted listings of disjoint maps, all keys of the first below all keys
/// of the second, lists the union.
pub proof fn lemma_listing_concat<V>(s1: Seq<(Seq<u8>, V)>, m1: Map<Seq<u8>, V>, s2: Seq<(Seq<u8>, V)>, m2: Map<Seq<u8>, V>)
    requires
        sorted_listing(s1, m1),
        sorted_listing(s2, m2),
        forall|i: int, j: int| 0 <= i < s1.len() && 0 <= j < s2.len() ==> lex_lt(s1[i].0, s2[j].0),
        m1.dom().disjoint(m2.dom()),
    ensures
        sorted_listing(s1 + s2, m1.union_prefer_right(m2)),
{
    let s = s1 + s2;
    let m = m1.union_prefer_right(m2);
    assert forall|i: int, j: int| 0 <= i < j < s.len() implies lex_lt(#[trigger] s[i].0, #[trigger] s[j].0) by {
        if j < s1.len() {
            assert(s[i] == s1[i] && s[j] == s1[j]);
        } else if i < s1.len() {
            assert(s[i] == s1[i] && s[j] == s2[j - s1.len()]);
        } else {
            assert(s[i] == s2[i - s1.len()] && s[j] == s2[j - s1.len()]);
        }
    }
    assert forall|i: int| 0 <= i < s.len() implies m.contains_key(#[trigger] s[i].0) && m[s[i].0] == s[i].1 by {
        if i < s1.len() {
            assert(s[i] == s1[i]);
            assert(m1.contains_key(s1[i].0));
            assert(!m2.contains_key(s1[i].0));
        } else {
            assert(s[i] == s2[i - s1.len()]);
        }
    }
    assert forall|k: Seq<u8>| #[trigger] m.contains_key(k) implies exists|i: int| 0 <= i < s.len() && s[i].0 == k by {
        if m2.contains_key(k) {
            let j = choose|j: int| 0 <= j < s2.len() && s2[j].0 == k;
            assert(s[s1.len() + j] == s2[j]);
        } else {
            let j = choose|j: int| 0 <= j < s1.len() && s1[j].0 == k;
            assert(s[j] == s1[j]);
        }
    }
}

/// A well-formed subtree's items list its entries in strictly increasing key order.
pub proof fn lemma_items_listing<V>(n: Node<V>, path: Seq<u8>)
    requires
        wf(n, path),
    ensures
        sorted_listing(items(n), entries(n)),
    decreases n, 1nat, 0int,
{
    match n {
        Node::Leaf(l) => {
            assert(items(n)[0].0 == l.key@);
        },
        _ => {
            let q = child_path(n, path);
            lemma_items_from_listing(n, path, 0);
            lemma_entries_from(n, path, 0);
            let vi = value_items(hdr(n));
            let ve = value_entries(hdr(n));
            let rest = items_from(n, 0);
            assert(sorted_listing(vi, ve)) by {
                if hdr(n).value is Some {
                    assert(vi[0].0 == hdr(n).value.unwrap().0@);
                }
            }
            assert forall|i: int, j: int| 0 <= i < vi.len() && 0 <= j < rest.len() implies lex_lt(vi[i].0, rest[j].0) by {
                assert(vi[i].0 == q);
                lemma_lex_prefix(q, rest[j].0);
            }
            assert(ve.dom().disjoint(entries_from(n, 0).dom())) by {
                assert forall|k: Seq<u8>| ve.contains_key(k) implies !entries_from(n, 0).contains_key(k) by {
                    assert(k == q);
                }
            }
            lemma_listing_concat(vi, ve, rest, entries_from(n, 0));
        },
    }
}

/// The items under children at bytes `b0` and above list those children's entries in order,
/// and each runs through its child's byte.
pub proof fn lemma_items_from_listing<V>(n: Node<V>, path: Seq<u8>, b0: int)
    requires
        wf(n, path),
        !(n is Leaf),
        0 <= b0 <= 256,
    ensures
        sorted_listing(items_from(n, b0), entries_from(n, b0)),
        forall|i: int| 0 <= i < items_from(n, b0).len() ==> {
            let k = #[trigger] items_from(n, b0)[i].0;
            let d = child_path(n, path).len() as int;
            &&& k.len() > d
            &&& b0 <= k[d]
            &&& is_prefix(child_path(n, path).push(k[d]), k)
        },
    decreases n, 0nat, 256 - b0,
{
    let q = child_path(n, path);
    let d = q.len() as int;
    if b0 < 256 {
        lemma_items_from_listing(n, path, b0 + 1);
        lemma_entries_from(n, path, b0 + 1);
        let b = b0 as u8;
        assert(b as int == b0);
        match child(n, b) {
            Some(c) => {
                lemma_child_decreases(n, b);
                lemma_wf_child(n, path, b);
                lemma_items_listing(c, q.push(b));
                lemma_entries_extend_child(n, path, b);
                let ci = items(c);
                let rest = items_from(n, b0 + 1);
                assert forall|i: int| 0 <= i < ci.len() implies ci[i].0.len() > d && ci[i].0[d] == b && is_prefix(q.push(b), ci[i].0) by {
                    assert(entries(c).contains_key(ci[i].0));
                    assert(ci[i].0.take(d + 1)[d] == q.push(b)[d]);
                }
                assert forall|i: int, j: int| 0 <= i < ci.len() && 0 <= j < rest.len() implies lex_lt(ci[i].0, rest[j].0) by {
                    let x = ci[i].0;
                    let y = rest[j].0;
                    assert(x.take(d) =~= q) by {
                        assert(x.take(d) =~= x.take(d + 1).take(d));
                    }
                    assert(y.take(d) =~= q) by {
                        assert(y.take(d) =~= y.take(d + 1).take(d));
                        assert(is_prefix(q.push(y[d]), y));
                    }
                    lemma_lex_by_byte(x, y, d);
                }
                assert(entries(c).dom().disjoint(entries_from(n, b0 + 1).dom()));
                lemma_listing_concat(ci, entries(c), rest, entries_from(n, b0 + 1));
                let all = items_from(n, b0);
                assert forall|i: int| 0 <= i < all.len() implies {
                    let k = #[trigger] all[i].0;
                    &&& k.len() > d
                    &&& b0 <= k[d]
                    &&& is_prefix(q.push(k[d]), k)
                } by {
                    if i < ci.len() {
                        assert(all[i] == ci[i]);
                    } else {
                        assert(all[i] == rest[i - ci.len()]);
                    }
                }
            },
            None => {},
        }
    }
}

/// Every item of an inner node's subtree extends the node's full path.
pub proof fn lemma_items_extend_inner<V>(n: Node<V>, path: Seq<u8>)
    requires
        wf(n, path),
        !(n is Leaf),
    ensures
        forall|i: int| 0 <= i < items(n).len() ==> is_prefix(child_path(n, path), #[trigger] items(n)[i].0),
{
    lemma_items_listing(n, path);
    lemma_entries_extend_inner(n, path);
    assert forall|i: int| 0 <= i < items(n).len() implies is_prefix(child_path(n, path), #[trigger] items(n)[i].0) by {
        assert(entries(n).contains_key(items(n)[i].0));
    }
}

// ---------------------------------------------------------------------------
// Entries within bounds
// ---------------------------------------------------------------------------

/// The entries of `m` whose keys lie within the optional inclusive bounds.
pub open spec fn within<V>(m: Map<Seq<u8>, V>, lo: Option<Seq<u8>>, hi: Option<Seq<u8>>) -> Map<Seq<u8>, V> {
    Map::new(|k: Seq<u8>| m.contains_key(k) && in_bounds(k, lo, hi), |k: Seq<u8>| m[k])
}

/// The items of `s` whose keys lie within the bounds, in their order in `s`.
pub open spec fn select<V>(s: Seq<(Seq<u8>, V)>, lo: Option<Seq<u8>>, hi: Option<Seq<u8>>) -> Seq<(Seq<u8>, V)>
    decreases s.len(),
{
    if s.len() == 0 {
        s
    } else {
        let rest = select(s.drop_last(), lo, hi);
        if in_bounds(s.last().0, lo, hi) {
            rest.push(s.last())
        } else {
            rest
        }
    }
}

/// Selecting from a concatenation selects from each part.
pub proof fn lemma_select_concat<V>(a: Seq<(Seq<u8>, V)>, b: Seq<(Seq<u8>, V)>, lo: Option<Seq<u8>>, hi: Option<Seq<u8>>)
    ensures
        select(a + b, lo, hi) == select(a, lo, hi) + select(b, lo, hi),
    decreases b.len(),
{
    if b.len() == 0 {
        assert(a + b =~= a);
        assert(select(a, lo, hi) + select(b, lo, hi) =~= select(a, lo, hi));
    } else {
        assert((a + b).drop_last() =~= a + b.drop_last());
        lemma_select_concat(a, b.drop_last(), lo, hi);
        assert((a + b).last() == b.last());
        if in_bounds(b.last().0, lo, hi) {
            assert(select(a, lo, hi) + select(b.drop_last(), lo, hi).push(b.last()) =~= (select(a, lo, hi) + select(b.drop_last(), lo, hi)).push(b.last()));
        }
    }
}

/// A single item is selected exactly when its key is within the bounds.
pub proof fn lemma_select_single<V>(x: (Seq<u8>, V), lo: Option<Seq<u8>>, hi: Option<Seq<u8>>)
    ensures
        select(seq![x], lo, hi) == if in_bounds(x.0, lo, hi) {
            seq![x]
        } else {
            Seq::empty()
        },
{
    let s = seq![x];
    assert(s.drop_last() =~= Seq::<(Seq<u8>, V)>::empty());
    assert(select(s.drop_last(), lo, hi) =~= Seq::<(Seq<u8>, V)>::empty());
    assert(s.last() == x);
    if in_bounds(x.0, lo, hi) {
        assert(Seq::<(Seq<u8>, V)>::empty().push(x) =~= s);
    }
}

/// Bounds that agree on every key of `s` select the same items.
pub proof fn lemma_select_congruent<V>(
    s: Seq<(Seq<u8>, V)>,
    lo1: Option<Seq<u8>>,
    hi1: Option<Seq<u8>>,
    lo2: Option<Seq<u8>>,
    hi2: Option<Seq<u8>>,
)
    requires
        forall|i: int| 0 <= i < s.len() ==> in_bounds(#[trigger] s[i].0, lo1, hi1) == in_bounds(s[i].0, lo2, hi2),
    ensures
        select(s, lo1, hi1) == select(s, lo2, hi2),
    decreases s.len(),
{
    if s.len() > 0 {
        assert forall|i: int| 0 <= i < s.drop_last().len() implies in_bounds(#[trigger] s.drop_last()[i].0, lo1, hi1) == in_bounds(s.drop_last()[i].0, lo2, hi2) by {
            assert(s.drop_last()[i] == s[i]);
        }
        lemma_select_congruent(s.drop_last(), lo1, hi1, lo2, hi2);
        assert(in_bounds(s[s.len() - 1].0, lo1, hi1) == in_bounds(s[s.len() - 1].0, lo2, hi2));
    }
}

/// Bounds that exclude every key of `s` select nothing.
pub proof fn lemma_select_none<V>(s: Seq<(Seq<u8>, V)>, lo: Option<Seq<u8>>, hi: Option<Seq<u8>>)
    requires
        forall|i: int| 0 <= i < s.len() ==> !in_bounds(#[trigger] s[i].0, lo, hi),
    ensures
        select(s, lo, hi) == Seq::<(Seq<u8>, V)>::empty(),
    decreases s.len(),
{
    if s.len() > 0 {
        assert forall|i: int| 0 <= i < s.drop_last().len() implies !in_bounds(#[trigger] s.drop_last()[i].0, lo, hi) by {
            assert(s.drop_last()[i] == s[i]);
        }
        lemma_select_none(s.drop_last(), lo, hi);
        assert(!in_bounds(s[s.len() - 1].0, lo, hi));
    }
}

/// Selecting from a sorted listing of `m` gives a sorted listing of `m` within the bounds.
pub proof fn lemma_select_listing<V>(s: Seq<(Seq<u8>, V)>, m: Map<Seq<u8>, V>, lo: Option<Seq<u8>>, hi: Option<Seq<u8>>)
    requires
        sorted_listing(s, m),
    ensures
        sorted_listing(select(s, lo, hi), within(m, lo, hi)),
{
    let r = select(s, lo, hi);
    let w = within(m, lo, hi);
    lemma_select_sorted(s, lo, hi);
    assert forall|i: int| 0 <= i < r.len() implies w.contains_key(#[trigger] r[i].0) && w[r[i].0] == r[i].1 by {
        lemma_select_source(s, lo, hi, i);
        let j = choose|j: int| 0 <= j < s.len() && r[i] == s[j] && in_bounds(s[j].0, lo, hi);
        assert(m.contains_key(s[j].0));
    }
    assert forall|k: Seq<u8>| #[trigger] w.contains_key(k) implies exists|i: int| 0 <= i < r.len() && r[i].0 == k by {
        let j = choose|j: int| 0 <= j < s.len() && s[j].0 == k;
        lemma_select_complete(s, lo, hi, j);
        let i = choose|i: int| 0 <= i < r.len() && r[i] == s[j];
        assert(r[i].0 == k);
    }
}

/// Every selected item is an item of `s` within the bounds.
proof fn lemma_select_source<V>(s: Seq<(Seq<u8>, V)>, lo: Option<Seq<u8>>, hi: Option<Seq<u8>>, i: int)
    requires
        0 <= i < select(s, lo, hi).len(),
    ensures
        exists|j: int| 0 <= j < s.len() && select(s, lo, hi)[i] == s[j] && in_bounds(s[j].0, lo, hi),
    decreases s.len(),
{
    let t = s.drop_last();
    let rt = select(t, lo, hi);
    let r = select(s, lo, hi);
    if i < rt.len() {
        assert(r[i] == rt[i]);
        lemma_select_source(t, lo, hi, i);
        let j = choose|j: int| 0 <= j < t.len() && rt[i] == t[j] && in_bounds(t[j].0, lo, hi);
        assert(s[j] == t[j]);
    } else {
        assert(r[i] == s[s.len() - 1]);
    }
}

/// Every item of `s` within the bounds is selected.
proof fn lemma_select_complete<V>(s: Seq<(Seq<u8>, V)>, lo: Option<Seq<u8>>, hi: Option<Seq<u8>>, j: int)
    requires
        0 <= j < s.len(),
        in_bounds(s[j].0, lo, hi),
    ensures
        exists|i: int| 0 <= i < select(s, lo, hi).len() && select(s, lo, hi)[i] == s[j],
    decreases s.len(),
{
    let t = s.drop_last();
    let rt = select(t, lo, hi);
    let r = select(s, lo, hi);
    if j < t.len() {
        assert(t[j] == s[j]);
        lemma_select_complete(t, lo, hi, j);
        let i = choose|i: int| 0 <= i < rt.len() && rt[i] == t[j];
        assert(r[i] == rt[i]);
    } else {
        assert(r[r.len() - 1] == s[j]);
    }
}

/// Selecting from keys in increasing order keeps them in increasing order.
proof fn lemma_select_sorted<V>(s: Seq<(Seq<u8>, V)>, lo: Option<Seq<u8>>, hi: Option<Seq<u8>>)
    requires
        forall|i: int, j: int| 0 <= i < j < s.len() ==> lex_lt(#[trigger] s[i].0, #[trigger] s[j].0),
    ensures
        forall|i: int, j: int| 0 <= i < j < select(s, lo, hi).len() ==> lex_lt(
            #[trigger] select(s, lo, hi)[i].0,
            #[trigger] select(s, lo, hi)[j].0,
        ),
    decreases s.len(),
{
    if s.len() > 0 {
        let t = s.drop_last();
        assert forall|i: int, j: int| 0 <= i < j < t.len() implies lex_lt(#[trigger] t[i].0, #[trigger] t[j].0) by {
            assert(t[i] == s[i] && t[j] == s[j]);
        }
        lemma_select_sorted(t, lo, hi);
        let rt = select(t, lo, hi);
        let r = select(s, lo, hi);
        assert forall|i: int, j: int| 0 <= i < j < r.len() implies lex_lt(#[trigger] r[i].0, #[trigger] r[j].0) by {
            if j < rt.len() {
                assert(r[i] == rt[i] && r[j] == rt[j]);
            } else {
                assert(r[i] == rt[i]);
                lemma_select_source(t, lo, hi, i);
                let k = choose|k: int| 0 <= k < t.len() && rt[i] == t[k] && in_bounds(t[k].0, lo, hi);
                assert(s[k] == t[k]);
                assert(r[j] == s[s.len() - 1]);
            }
        }
    }
}

// ---------------------------------------------------------------------------
// Path compression and node occupancy
// ---------------------------------------------------------------------------

/// The fewest children a node of `n`'s kind keeps: one more than the next smaller kind
/// can hold (a `Node4` has no smaller kind).
pub open spec fn min_children<V>(n: Node<V>) -> nat {
    if capacity(n) == 16 {
        5
    } else if capacity(n) == 48 {
        17
    } else if capacity(n) == 256 {
        49
    } else {
        0
    }
}

/// How many entries hang directly on an inner node: its children and its own entry.
pub open spec fn occupancy<V>(n: Node<V>) -> nat {
    (hdr(n).count + (if hdr(n).value is Some {
        1int
    } else {
        0int
    })) as nat
}

/// An inner node is compact: it holds at least two of children and own entry (else it
/// would be merged away), and is not larger than its children need.
pub open spec fn node_compact<V>(n: Node<V>) -> bool {
    &&& occupancy(n) >= 2
    &&& hdr(n).count >= min_children(n)
}

/// Every inner node of the subtree is compact: paths stay compressed and node kinds fit.
pub open spec fn compressed<V>(n: Node<V>) -> bool
    decreases n, 1nat, 0int,
{
    match n {
        Node::Leaf(_) => true,
        _ => node_compact(n) && compressed_from(n, 0),
    }
}

/// The children at bytes `b` and above are compressed.
pub open spec fn compressed_from<V>(n: Node<V>, b: int) -> bool
    decreases n, 0nat, 256 - b,
{
    if b < 0 || b >= 256 {
        true
    } else {
        &&& match child(n, b as u8) {
            Some(c) => {
                proof {
                    lemma_child_decreases(n, b as u8);
                }
                compressed(c)
            },
            None => true,
        }
        &&& compressed_from(n, b + 1)
    }
}

/// An optional subtree is compressed.
pub open spec fn compressed_opt<V>(n: Option<Node<V>>) -> bool {
    match n {
        Some(b) => compressed(b),
        None => true,
    }
}

proof fn lemma_compressed_from_at<V>(n: Node<V>, b0: int, b: u8)
    requires
        compressed_from(n, b0),
        0 <= b0 <= b,
        child(n, b) is Some,
    ensures
        compressed(child(n, b).unwrap()),
    decreases b - b0,
{
    if b0 < b {
        lemma_compressed_from_at(n, b0 + 1, b);
    }
}

/// Each child of a compressed inner node is compressed.
pub proof fn lemma_compressed_child<V>(n: Node<V>, b: u8)
    requires
        compressed(n),
        !(n is Leaf),
        child(n, b) is Some,
    ensures
        compressed(child(n, b).unwrap()),
{
    lemma_compressed_from_at(n, 0, b);
}

proof fn lemma_compressed_from_intro<V>(n: Node<V>, b0: int)
    requires
        0 <= b0 <= 256,
        forall|b: u8| b0 <= b && #[trigger] child(n, b) is Some ==> compressed(child(n, b).unwrap()),
    ensures
        compressed_from(n, b0),
    decreases 256 - b0,
{
    if b0 < 256 {
        lemma_compressed_from_intro(n, b0 + 1);
        let b = b0 as u8;
        assert(b as int == b0);
    }
}

/// An inner node is compressed when it is compact and its children are compressed.
pub proof fn lemma_compressed_intro<V>(n: Node<V>)
    requires
        !(n is Leaf),
        node_compact(n),
        forall|b: u8| #[trigger] child(n, b) is Some ==> compressed(child(n, b).unwrap()),
    ensures
        compressed(n),
{
    lemma_compressed_from_intro(n, 0);
}

/// A compact inner node whose children are those of a compressed node is compressed.
pub proof fn lemma_compressed_same_children<V>(n1: Node<V>, n2: Node<V>)
    requires
        compressed(n1),
        !(n1 is Leaf),
        !(n2 is Leaf),
        node_compact(n2),
        forall|b: u8| child(n1, b) == child(n2, b),
    ensures
        compressed(n2),
{
    assert forall|b: u8| #[trigger] child(n2, b) is Some implies compressed(child(n2, b).unwrap()) by {
        lemma_compressed_child(n1, b);
    }
    lemma_compressed_intro(n2);
}

} // verus!
