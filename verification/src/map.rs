//! The map: insertion, deletion and lookup over the tree.
use vstd::prelude::*;
use crate::inner::{
    children_compressed, compact, entries_opt, grow, inner_add_child, inner_find, inner_has_value, inner_clear_value,
    inner_is_full, inner_ok, inner_prefix, inner_remove_child, inner_replace_child, inner_set_prefix,
    inner_set_value, inner_value,
};
use crate::lex::{bytes_eq, is_prefix, opt_view, prefix_mismatch};
use crate::model::{
    compressed, compressed_opt, lemma_compressed_child, lemma_compressed_intro,
    lemma_compressed_same_children, node_compact, capacity, child, child_entries, child_path, entries, hdr, lemma_entries_child_update, lemma_entries_extend, lemma_entries_extend_child,
    lemma_entries_extend_inner, lemma_entries_inner, lemma_same_contents, lemma_same_contents_wf,
    lemma_items_listing, lemma_select_listing, lemma_size_child, lemma_wf_child, lemma_wf_intro, shape, size,
    sorted_listing, value_entries, wf, within,
};
use crate::iter::{Iter, RangeIter};
use crate::prefix::Prefix;
use crate::raw::{deref_opt, Leaf, Node, Node4};

verus! {

broadcast use vstd::map_lib::lemma_union_dom;

/// Number of nodes in an optional subtree.
pub open spec fn size_opt<V>(n: Option<Node<V>>) -> nat {
    match n {
        Some(b) => size(b),
        None => 0,
    }
}

/// An optional subtree is well formed under `path`.
pub open spec fn wf_opt<V>(n: Option<Node<V>>, path: Seq<u8>) -> bool {
    match n {
        Some(b) => wf(b, path),
        None => true,
    }
}

impl<V> Leaf<V> {
    /// Deletes `key` if it is this leaf's key.
    pub fn delete(leaf: Leaf<V>, key: &[u8], Ghost(path): Ghost<Seq<u8>>) -> (r: (Option<Node<V>>, bool))
        requires
            wf(Node::Leaf(leaf), path),
        ensures
            wf_opt(r.0, path),
            compressed_opt(r.0),
            entries_opt(r.0) == entries(Node::Leaf(leaf)).remove(key@),
            r.1 == entries(Node::Leaf(leaf)).contains_key(key@),
            !r.1 ==> r.0 == Some(Node::Leaf(leaf)),
    {
        if leaf.matches(key) {
            proof {
                assert(entries(Node::Leaf(leaf)).remove(key@) =~= Map::empty());
            }
            (None, true)
        } else {
            proof {
                assert(entries(Node::Leaf(leaf)).remove(key@) =~= entries(Node::Leaf(leaf)));
            }
            (Some(Node::Leaf(leaf)), false)
        }
    }

    /// Inserts `key` into the subtree that is this leaf: overwrites its value if the keys
    /// match, and otherwise splits into a `Node4` over the bytes the two keys share.
    pub fn put(leaf: Leaf<V>, key: &[u8], value: V, depth: usize, Ghost(path): Ghost<Seq<u8>>) -> (r: (Node<V>, bool))
        requires
            wf(Node::Leaf(leaf), path),
            path.len() == depth,
            is_prefix(path, key@),
        ensures
            wf(r.0, path),
            compressed(r.0),
            entries(r.0) == entries(Node::Leaf(leaf)).insert(key@, value),
            r.1 == !entries(Node::Leaf(leaf)).contains_key(key@),
    {
        let mut leaf = leaf;
        let ghost old_entries = entries(Node::Leaf(leaf));
        if leaf.matches(key) {
            leaf.value = value;
            proof {
                assert(entries(Node::Leaf(leaf)) =~= old_entries.insert(key@, value));
            }
            return (Node::Leaf(leaf), false);
        }
        let ghost lk = leaf.key@;
        let common = prefix_mismatch(key, depth, leaf.key.as_slice(), depth);
        let sd = depth + common;
        let mut nn = Node4::<V>::new();
        nn.header.prefix = Prefix::from_slice(&key[depth..sd]);
        let mut nn = Node::N4(nn);
        let ghost q = key@.take(sd as int);
        proof {
            assert(child_path(nn, path) =~= q);
            assert(lk.take(sd as int) =~= q) by {
                assert(lk.take(depth as int) =~= path);
                assert(key@.take(depth as int) =~= path);
                assert forall|j: int| 0 <= j < sd implies lk[j] == key@[j] by {
                    if j < depth {
                        assert(lk.take(depth as int)[j] == key@.take(depth as int)[j]);
                    } else {
                        assert(key@.subrange(depth as int, sd as int)[j - depth] == lk.subrange(depth as int, sd as int)[j - depth]);
                    }
                }
            }
        }
        if sd == key.len() {
            proof {
                assert(key@ =~= q);
                assert(lk.len() > sd) by {
                    if lk.len() == sd {
                        assert(lk =~= key@);
                    }
                }
            }
            let b = leaf.key[sd];
            proof {
                assert(lk.take(sd as int + 1) =~= q.push(b));
            }
            inner_set_value(&mut nn, vstd::slice::slice_to_vec(key), value);
            let ghost old_leaf = Node::Leaf(leaf);
            inner_add_child(&mut nn, b, Box::new(Node::Leaf(leaf)));
            proof {
                assert forall|c: u8| #[trigger] child(nn, c) is Some implies wf(child(nn, c).unwrap(), child_path(nn, path).push(c)) by {
                    assert(c == b);
                }
                lemma_wf_intro(nn, path);
                assert forall|c: u8| #[trigger] child(nn, c) is Some implies compressed(child(nn, c).unwrap()) by {
                    assert(c == b);
                }
                lemma_compressed_intro(nn);
                lemma_entries_inner(nn, path);
                assert(entries(nn) =~= old_entries.insert(key@, value));
            }
        } else if sd == leaf.key.len() {
            let b = key[sd];
            let new_leaf = Leaf::new_ptr(key, value);
            proof {
                assert(lk =~= q);
                assert(key@.take(sd as int + 1) =~= q.push(b));
            }
            let Leaf { key: lkey, value: lvalue } = leaf;
            inner_set_value(&mut nn, lkey, lvalue);
            inner_add_child(&mut nn, b, new_leaf);
            proof {
                assert forall|c: u8| #[trigger] child(nn, c) is Some implies wf(child(nn, c).unwrap(), child_path(nn, path).push(c)) by {
                    assert(c == b);
                }
                lemma_wf_intro(nn, path);
                assert forall|c: u8| #[trigger] child(nn, c) is Some implies compressed(child(nn, c).unwrap()) by {
                    assert(c == b);
                }
                lemma_compressed_intro(nn);
                lemma_entries_inner(nn, path);
                assert(entries(nn) =~= old_entries.insert(key@, value));
            }
        } else {
            let new_b = key[sd];
            let old_b = leaf.key[sd];
            let new_leaf = Leaf::new_ptr(key, value);
            proof {
                assert(key@.take(sd as int + 1) =~= q.push(new_b));
                assert(lk.take(sd as int + 1) =~= q.push(old_b));
            }
            inner_add_child(&mut nn, new_b, new_leaf);
            inner_add_child(&mut nn, old_b, Box::new(Node::Leaf(leaf)));
            proof {
                assert forall|c: u8| #[trigger] child(nn, c) is Some implies wf(child(nn, c).unwrap(), child_path(nn, path).push(c)) by {
                    assert(c == new_b || c == old_b);
                }
                lemma_wf_intro(nn, path);
                assert forall|c: u8| #[trigger] child(nn, c) is Some implies compressed(child(nn, c).unwrap()) by {
                    assert(c == new_b || c == old_b);
                }
                lemma_compressed_intro(nn);
                lemma_entries_inner(nn, path);
                assert(entries(nn) =~= old_entries.insert(key@, value));
            }
        }
        (nn, true)
    }
}

/// Inserts `key` where it leaves the compressed path of inner node `node` after `ml`
/// bytes of its prefix: a new `Node4` takes the shared part of the prefix and gets the old
/// node (with the rest of its prefix) and the new entry as its children.
fn split_prefix<V>(
    node: Node<V>,
    key: &[u8],
    value: V,
    depth: usize,
    prefix: &[u8],
    ml: usize,
    Ghost(path): Ghost<Seq<u8>>,
) -> (r: Node<V>)
    requires
        wf(node, path),
        compressed(node),
        !(node is Leaf),
        prefix@ == hdr(node).prefix@,
        path.len() == depth,
        is_prefix(path, key@),
        ml < prefix@.len(),
        ml <= key@.len() - depth,
        key@.subrange(depth as int, depth + ml) =~= prefix@.subrange(0, ml as int),
        ml < key@.len() - depth ==> key@[depth + ml] != prefix@[ml as int],
    ensures
        wf(r, path),
        compressed(r),
        entries(r) == entries(node).insert(key@, value),
        !entries(node).contains_key(key@),
{
    let ghost orig = node;
    let ghost old_entries = entries(orig);
    let ghost q = child_path(orig, path);
    let plen = prefix.len();
    proof {
        lemma_entries_inner(orig, path);
        lemma_entries_extend_inner(orig, path);
    }
    let mut nn = Node4::<V>::new();
    nn.header.prefix = Prefix::from_slice(&prefix[0..ml]);
    let mut nn = Node::N4(nn);
    let ghost qn = child_path(nn, path);
    let pb = prefix[ml];
    let mut old_node = node;
    inner_set_prefix(&mut old_node, Prefix::from_slice(&prefix[ml + 1..plen]));
    proof {
        assert(qn =~= path + prefix@.take(ml as int));
        assert(child_path(old_node, qn.push(pb)) =~= q);
        lemma_same_contents_wf(orig, path, old_node, qn.push(pb));
        lemma_same_contents(old_node, orig);
        assert(node_compact(old_node));
        lemma_compressed_same_children(orig, old_node);
        assert(key@.take(depth as int) =~= path);
        assert forall|j: int| 0 <= j < qn.len() implies key@[j] == qn[j] by {
            if j < depth {
                assert(key@.take(depth as int)[j] == path[j]);
            } else {
                assert(key@.subrange(depth as int, depth + ml)[j - depth] == prefix@.subrange(0, ml as int)[j - depth]);
            }
        }
    }
    inner_add_child(&mut nn, pb, Box::new(old_node));
    let klen = key.len();
    assert(depth + ml <= klen);
    let nd = depth + ml;
    if nd == key.len() {
        proof {
            assert(key@ =~= qn);
        }
        inner_set_value(&mut nn, vstd::slice::slice_to_vec(key), value);
    } else {
        let kb = key[nd];
        proof {
            assert(key@.take(nd as int + 1) =~= qn.push(kb));
            assert(kb != pb);
        }
        inner_add_child(&mut nn, kb, Leaf::new_ptr(key, value));
    }
    proof {
        assert forall|c: u8| #[trigger] child(nn, c) is Some implies wf(child(nn, c).unwrap(), child_path(nn, path).push(c)) by {}
        lemma_wf_intro(nn, path);
        assert forall|c: u8| #[trigger] child(nn, c) is Some implies compressed(child(nn, c).unwrap()) by {}
        lemma_compressed_intro(nn);
        lemma_entries_inner(nn, path);
        // every old key runs through the split byte, the new key does not
        assert forall|k: Seq<u8>| #[trigger] old_entries.contains_key(k) implies k.len() > qn.len() && k[qn.len() as int] == pb by {
            assert(is_prefix(q, k));
            assert(k.take(q.len() as int)[qn.len() as int] == q[qn.len() as int]);
        }
        assert(!old_entries.contains_key(key@)) by {
            if old_entries.contains_key(key@) {
                if nd < key.len() {
                    assert(key@[qn.len() as int] == pb);
                }
            }
        }
        assert(entries(nn) =~= old_entries.insert(key@, value));
    }
    nn
}

/// Inserts `(key, value)` into the subtree `node` reached by `path` (the first `depth`
/// bytes of `key`). Returns the new subtree, still compressed, and whether the key was new.
fn put_recursive<V>(
    node: Option<Node<V>>,
    key: &[u8],
    value: V,
    depth: usize,
    Ghost(path): Ghost<Seq<u8>>,
) -> (r: (Node<V>, bool))
    requires
        wf_opt(node, path),
        compressed_opt(node),
        path.len() == depth,
        is_prefix(path, key@),
    ensures
        wf(r.0, path),
        compressed(r.0),
        entries(r.0) == entries_opt(node).insert(key@, value),
        r.1 == !entries_opt(node).contains_key(key@),
    decreases size_opt(node),
{
    let mut node = match node {
        None => {
            let r = Node::Leaf(Leaf { key: vstd::slice::slice_to_vec(key), value });
            proof {
                assert(entries(r) =~= Map::<Seq<u8>, V>::empty().insert(key@, value));
            }
            return (r, true);
        },
        Some(n) => n,
    };
    let ghost orig = node;
    let ghost old_entries = entries(orig);
    match node {
        Node::Leaf(leaf) => {
            return Leaf::put(leaf, key, value, depth, Ghost(path));
        },
        _ => {},
    }
    let ghost q = child_path(orig, path);
    proof {
        lemma_entries_inner(orig, path);
        lemma_entries_extend_inner(orig, path);
    }
    let prefix = vstd::slice::slice_to_vec(inner_prefix(&node));
    let plen = prefix.len();
    let ml = prefix_mismatch(key, depth, prefix.as_slice(), 0);

    if ml < plen {
        return (split_prefix(node, key, value, depth, prefix.as_slice(), ml, Ghost(path)), true);
    }

    let nd = depth + plen;
    proof {
        assert(key@.take(nd as int) =~= q) by {
            assert(key@.take(depth as int) =~= path);
            assert forall|j: int| 0 <= j < nd implies key@[j] == q[j] by {
                if j < depth {
                    assert(key@.take(depth as int)[j] == path[j]);
                } else {
                    assert(key@.subrange(depth as int, nd as int)[j - depth] == prefix@.subrange(0, plen as int)[j - depth]);
                }
            }
        }
    }

    if nd == key.len() {
        // The key ends at this node: it is the node's own entry.
        let added = !inner_has_value(&node);
        proof {
            assert(key@ =~= q);
        }
        inner_set_value(&mut node, vstd::slice::slice_to_vec(key), value);
        proof {
            lemma_same_contents_wf(orig, path, node, path);
            lemma_entries_inner(node, path);
            assert(entries(node) =~= old_entries.insert(key@, value));
            assert(node_compact(node));
            lemma_compressed_same_children(orig, node);
        }
        return (node, added);
    }

    let b = key[nd];
    proof {
        assert(key@.take(nd as int + 1) =~= q.push(b));
    }
    if inner_find(&node, b).is_none() {
        // No child for the next byte: add a leaf, growing the node if it is full.
        if inner_is_full(&node) {
            let ghost before = node;
            node = grow(node);
            proof {
                lemma_same_contents(node, before);
                lemma_same_contents_wf(before, path, node, path);
                lemma_entries_inner(node, path);
            }
        }
        let ghost mid = node;
        let new_leaf = Leaf::new_ptr(key, value);
        inner_add_child(&mut node, b, new_leaf);
        proof {
            assert forall|c: u8| #[trigger] child(node, c) is Some implies wf(child(node, c).unwrap(), child_path(node, path).push(c)) by {
                if c != b {
                    lemma_wf_child(mid, path, c);
                }
            }
            lemma_wf_intro(node, path);
            assert(child_entries(node, b) =~= child_entries(orig, b).insert(key@, value));
            lemma_entries_child_update(orig, node, path, b, key@, value);
            // a node grew only when full, so the added child takes it past the smaller kind
            assert(node_compact(node));
            assert forall|c: u8| #[trigger] child(node, c) is Some implies compressed(child(node, c).unwrap()) by {
                if c != b {
                    assert(child(node, c) == child(orig, c));
                    lemma_compressed_child(orig, c);
                }
            }
            lemma_compressed_intro(node);
        }
        return (node, true);
    }

    // Descend into the child for the next byte; the new child takes its place.
    proof {
        lemma_wf_child(orig, path, b);
        lemma_size_child(orig, b);
        lemma_entries_extend_child(orig, path, b);
        lemma_compressed_child(orig, b);
    }
    let c = inner_replace_child(&mut node, b, Node::N4(Node4::new()));
    let (new_child, added) = put_recursive(Some(c), key, value, nd + 1, Ghost(q.push(b)));
    let _ = inner_replace_child(&mut node, b, new_child);
    proof {
        assert forall|x: u8| #[trigger] child(node, x) is Some implies wf(child(node, x).unwrap(), child_path(node, path).push(x)) by {
            if x != b {
                lemma_wf_child(orig, path, x);
            }
        }
        lemma_wf_intro(node, path);
        assert(child_entries(node, b) == child_entries(orig, b).insert(key@, value));
        lemma_entries_child_update(orig, node, path, b, key@, value);
        lemma_entries_inner(orig, path);
        assert(node_compact(node));
        assert forall|x: u8| #[trigger] child(node, x) is Some implies compressed(child(node, x).unwrap()) by {
            if x != b {
                lemma_compressed_child(orig, x);
            }
        }
        lemma_compressed_intro(node);
    }
    (node, added)
}

/// The value stored under `key` in the subtree `node` reached by `path` (the first `depth`
/// bytes of `key`), found by walking down without changing anything.
fn lookup<'a, V>(node: &'a Node<V>, key: &[u8], depth: usize, Ghost(path): Ghost<Seq<u8>>) -> (r: Option<&'a V>)
    requires
        wf(*node, path),
        path.len() == depth,
        is_prefix(path, key@),
    ensures
        r is Some <==> entries(*node).contains_key(key@),
        r matches Some(v) ==> *v == entries(*node)[key@],
{
    let ghost top = entries(*node);
    let mut cur: Option<&Node<V>> = Some(node);
    let mut depth: usize = depth;
    proof {
        assert(key@.take(depth as int) =~= path);
    }
    loop
        invariant
            top == entries(*node),
            depth <= key@.len(),
            match cur {
                Some(n) => {
                    &&& wf(*n, key@.take(depth as int))
                    &&& (top.contains_key(key@) <==> entries(*n).contains_key(key@))
                    &&& (top.contains_key(key@) ==> top[key@] == entries(*n)[key@])
                },
                None => !top.contains_key(key@),
            },
        decreases key@.len() - depth,
    {
        let n = match cur {
            Some(n) => n,
            None => {
                return None;
            },
        };
        let ghost path = key@.take(depth as int);
        match n {
            Node::Leaf(leaf) => {
                return leaf.get_value(key);
            },
            _ => {},
        }
        proof {
            lemma_entries_inner(*n, path);
            lemma_entries_extend_inner(*n, path);
        }
        let ghost q = child_path(*n, path);
        let prefix = inner_prefix(n);
        let plen = prefix.len();
        if plen > key.len() - depth || !bytes_eq(&key[depth..depth + plen], prefix) {
            proof {
                if entries(*n).contains_key(key@) {
                    assert(is_prefix(q, key@));
                    assert(key@.subrange(depth as int, depth + plen) =~= prefix@) by {
                        assert forall|j: int| 0 <= j < plen implies key@[depth + j] == prefix@[j] by {
                            assert(key@.take(q.len() as int)[depth + j] == q[depth + j]);
                        }
                    }
                }
            }
            return None;
        }
        depth = depth + plen;
        proof {
            assert(key@.take(depth as int) =~= q) by {
                assert forall|j: int| 0 <= j < depth implies key@[j] == q[j] by {
                    if j < depth - plen {
                        assert(key@.take(depth - plen)[j] == path[j]);
                    } else {
                        assert(key@.subrange(depth - plen, depth as int)[j - (depth - plen)] == prefix@[j - (depth - plen)]);
                    }
                }
            }
        }
        if depth == key.len() {
            proof {
                assert(key@ =~= q);
            }
            return match inner_value(n) {
                Some((_, value)) => Some(value),
                None => None,
            };
        }
        let b = key[depth];
        proof {
            assert(key@.take(depth as int + 1) =~= q.push(b));
            if child(*n, b) is Some {
                lemma_wf_child(*n, path, b);
            }
        }
        cur = inner_find(n, b);
        depth = depth + 1;
    }
}

/// Deletes `key` from the subtree `node` reached by `path` (the first `depth` bytes of
/// `key`). Returns the new subtree, if anything is left, and whether the key was there.
/// The key is looked up first, so a subtree without it comes back untouched; otherwise the
/// removal keeps the tree compressed.
fn delete_recursive<V>(
    node: Option<Node<V>>,
    key: &[u8],
    depth: usize,
    Ghost(path): Ghost<Seq<u8>>,
) -> (r: (Option<Node<V>>, bool))
    requires
        wf_opt(node, path),
        compressed_opt(node),
        path.len() == depth,
        is_prefix(path, key@),
    ensures
        wf_opt(r.0, path),
        compressed_opt(r.0),
        entries_opt(r.0) == entries_opt(node).remove(key@),
        r.1 == entries_opt(node).contains_key(key@),
        !r.1 ==> r.0 == node,
{
    let n = match node {
        None => {
            proof {
                assert(Map::<Seq<u8>, V>::empty().remove(key@) =~= Map::empty());
            }
            return (None, false);
        },
        Some(n) => n,
    };
    if lookup(&n, key, depth, Ghost(path)).is_none() {
        proof {
            assert(entries(n).remove(key@) =~= entries(n));
        }
        return (Some(n), false);
    }
    (delete_present(n, key, depth, Ghost(path)), true)
}

/// Removes `key`, which the subtree `node` reached by `path` holds, and compacts each node
/// on the way back up. A child that still holds entries takes its old place in its parent.
fn delete_present<V>(node: Node<V>, key: &[u8], depth: usize, Ghost(path): Ghost<Seq<u8>>) -> (r: Option<Node<V>>)
    requires
        wf(node, path),
        compressed(node),
        path.len() == depth,
        is_prefix(path, key@),
        entries(node).contains_key(key@),
    ensures
        wf_opt(r, path),
        compressed_opt(r),
        entries_opt(r) == entries(node).remove(key@),
    decreases size(node),
{
    let mut node = node;
    let ghost orig = node;
    let ghost old_entries = entries(orig);
    match node {
        Node::Leaf(leaf) => {
            let (r, _) = Leaf::delete(leaf, key, Ghost(path));
            return r;
        },
        _ => {},
    }
    let ghost q = child_path(orig, path);
    proof {
        lemma_entries_inner(orig, path);
        lemma_entries_extend_inner(orig, path);
        assert(is_prefix(q, key@));
    }
    let plen = inner_prefix(&node).len();
    let nd = depth + plen;
    proof {
        assert(key@.take(nd as int) =~= q);
    }

    if nd == key.len() {
        // The key ends here: it is the node's own entry.
        proof {
            assert(key@ =~= q);
        }
        inner_clear_value(&mut node);
        proof {
            lemma_same_contents_wf(orig, path, node, path);
            lemma_entries_inner(node, path);
            assert(entries(node) =~= old_entries.remove(key@));
            assert(node_compact(orig));
            assert forall|x: u8| #[trigger] child(node, x) is Some implies compressed(child(node, x).unwrap()) by {
                lemma_compressed_child(orig, x);
            }
            assert(children_compressed(node));
        }
        return compact(node, Ghost(path));
    }

    let b = key[nd];
    proof {
        assert(key@.take(nd as int + 1) =~= q.push(b));
        assert(key@ != q);
        lemma_wf_child(orig, path, b);
        lemma_size_child(orig, b);
        lemma_entries_extend_child(orig, path, b);
        lemma_compressed_child(orig, b);
    }
    let c = inner_replace_child(&mut node, b, Node::N4(Node4::new()));
    let new_child = delete_present(c, key, nd + 1, Ghost(q.push(b)));
    match new_child {
        Some(nc) => {
            let _ = inner_replace_child(&mut node, b, nc);
        },
        None => {
            let _ = inner_remove_child(&mut node, b);
        },
    }
    proof {
        assert forall|x: u8| #[trigger] child(node, x) is Some implies wf(child(node, x).unwrap(), child_path(node, path).push(x)) by {
            if x != b {
                lemma_wf_child(orig, path, x);
            }
        }
        lemma_wf_intro(node, path);
        assert(child_entries(node, b) =~= child_entries(orig, b).remove(key@));
        lemma_entries_child_update(orig, node, path, b, key@, arbitrary());
        lemma_entries_inner(orig, path);
        assert(node_compact(orig));
        assert forall|x: u8| #[trigger] child(node, x) is Some implies compressed(child(node, x).unwrap()) by {
            if x != b {
                lemma_compressed_child(orig, x);
            }
        }
        assert(children_compressed(node));
    }
    compact(node, Ghost(path))
}

/// The keys and values that a list of borrowed pairs shows.
pub open spec fn pairs_view<V>(r: Seq<(&[u8], &V)>) -> Seq<(Seq<u8>, V)> {
    r.map_values(|p: (&[u8], &V)| (p.0@, *p.1))
}

/// An ordered map from byte strings to values, stored as an adaptive radix tree.
pub struct ARTMap<V> {
    root: Option<Node<V>>,
    len: usize,
}

impl<V> View for ARTMap<V> {
    type V = Map<Seq<u8>, V>;

    /// The map's contents: every key with its value.
    closed spec fn view(&self) -> Map<Seq<u8>, V> {
        entries_opt(self.root)
    }
}

impl<V> ARTMap<V> {
    #[verifier::type_invariant]
    spec fn inv(self) -> bool {
        &&& wf_opt(self.root, Seq::empty())
        &&& compressed_opt(self.root)
        &&& entries_opt(self.root).dom().finite()
        &&& self.len == entries_opt(self.root).dom().len()
    }

    /// An empty map.
    pub fn new() -> (r: Self)
        ensures
            r@ == Map::<Seq<u8>, V>::empty(),
    {
        ARTMap { root: None, len: 0 }
    }

    /// The number of keys.
    pub fn len(&self) -> (r: usize)
        ensures
            self@.dom().finite(),
            r == self@.len(),
    {
        proof {
            use_type_invariant(self);
        }
        self.len
    }

    /// Whether the map has no keys.
    pub fn is_empty(&self) -> (r: bool)
        ensures
            r == (self@.len() == 0),
            r == (self@ == Map::<Seq<u8>, V>::empty()),
    {
        proof {
            use_type_invariant(self);
            if self@.len() == 0 {
                assert(self@.dom() =~= Set::<Seq<u8>>::empty());
                assert(self@ =~= Map::<Seq<u8>, V>::empty());
            }
        }
        self.len == 0
    }

    /// Associates `value` with `key`, replacing any previous value.
    pub fn put(&mut self, key: &[u8], value: V)
        requires
            old(self)@.contains_key(key@) || old(self)@.len() < usize::MAX,
        ensures
            final(self)@ == old(self)@.insert(key@, value),
    {
        proof {
            use_type_invariant(&*self);
        }
        let mut this = ARTMap::new();
        std::mem::swap(self, &mut this);
        proof {
            use_type_invariant(&this);
        }
        let ARTMap { root, len } = this;
        proof {
            assert(key@.take(0) =~= Seq::<u8>::empty());
        }
        let (new_root, added) = put_recursive(root, key, value, 0, Ghost(Seq::empty()));
        let ghost old_map = entries_opt(root);
        proof {
            lemma_entries_extend(new_root, Seq::empty());
            if added {
                assert(old_map.insert(key@, value).dom() =~= old_map.dom().insert(key@));
            } else {
                assert(old_map.insert(key@, value).dom() =~= old_map.dom());
            }
        }
        let new_len = if added {
            len + 1
        } else {
            len
        };
        *self = ARTMap { root: Some(new_root), len: new_len };
    }

    /// Removes `key`; returns whether it was present. A map without the key is left as it
    /// was, node for node.
    pub fn delete(&mut self, key: &[u8]) -> (r: bool)
        ensures
            r == old(self)@.contains_key(key@),
            final(self)@ == old(self)@.remove(key@),
            !r ==> *final(self) == *old(self),
    {
        proof {
            use_type_invariant(&*self);
        }
        let mut this = ARTMap::new();
        std::mem::swap(self, &mut this);
        proof {
            use_type_invariant(&this);
        }
        let ARTMap { root, len } = this;
        proof {
            assert(key@.take(0) =~= Seq::<u8>::empty());
        }
        let (new_root, deleted) = delete_recursive(root, key, 0, Ghost(Seq::empty()));
        let ghost old_map = entries_opt(root);
        proof {
            if deleted {
                assert(old_map.remove(key@).dom() =~= old_map.dom().remove(key@));
            } else {
                assert(old_map.remove(key@) =~= old_map);
            }
        }
        let new_len = if deleted {
            len - 1
        } else {
            len
        };
        *self = ARTMap { root: new_root, len: new_len };
        deleted
    }

    /// An iterator over the entries in increasing key order.
    pub fn iter(&self) -> (r: Iter<'_, V>)
        ensures
            sorted_listing(r.remaining(), self@),
    {
        proof {
            use_type_invariant(self);
        }
        let root = match &self.root {
            Some(n) => Some(n),
            None => None,
        };
        proof {
            match root {
                Some(n) => lemma_items_listing(*n, Seq::empty()),
                None => {},
            }
        }
        Iter::new(root)
    }

    /// All entries in increasing key order.
    pub fn items(&self) -> (r: Vec<(&[u8], &V)>)
        ensures
            sorted_listing(pairs_view(r@), self@),
    {
        let mut it = self.iter();
        let ghost all = it.remaining();
        let mut out: Vec<(&[u8], &V)> = Vec::new();
        loop
            invariant
                sorted_listing(all, self@),
                pairs_view(out@) + it.remaining() == all,
            decreases it.remaining().len(),
        {
            let ghost out0 = out@;
            match it.next() {
                Some(kv) => {
                    out.push(kv);
                    proof {
                        assert(pairs_view(out@) =~= pairs_view(out0).push((kv.0@, *kv.1)));
                        assert(pairs_view(out@) + it.remaining() =~= all);
                    }
                },
                None => {
                    proof {
                        assert(pairs_view(out@) =~= all);
                    }
                    return out;
                },
            }
        }
    }

    /// An iterator over the entries with keys between `lo` and `hi`, both included (an
    /// absent bound does not limit), in increasing key order.
    pub fn range_iter<'a>(&'a self, lo: Option<&'a [u8]>, hi: Option<&'a [u8]>) -> (r: RangeIter<'a, V>)
        ensures
            sorted_listing(r.remaining(), within(self@, opt_view(lo), opt_view(hi))),
    {
        proof {
            use_type_invariant(self);
        }
        let root = match &self.root {
            Some(n) => Some(n),
            None => None,
        };
        proof {
            match root {
                Some(n) => {
                    lemma_items_listing(*n, Seq::empty());
                    lemma_select_listing(crate::model::items(*n), entries(*n), opt_view(lo), opt_view(hi));
                },
                None => {
                    assert(within(self@, opt_view(lo), opt_view(hi)) =~= Map::<Seq<u8>, V>::empty());
                },
            }
        }
        RangeIter::new(root, lo, hi)
    }

    /// The entries with keys between `from_key` and `to_key`, both included (an absent bound
    /// does not limit), in increasing key order.
    pub fn range<'a>(&'a self, from_key: Option<&'a [u8]>, to_key: Option<&'a [u8]>) -> (r: Vec<(&'a [u8], &'a V)>)
        ensures
            sorted_listing(pairs_view(r@), within(self@, opt_view(from_key), opt_view(to_key))),
    {
        let mut it = self.range_iter(from_key, to_key);
        let ghost all = it.remaining();
        let ghost m = within(self@, opt_view(from_key), opt_view(to_key));
        let mut out: Vec<(&'a [u8], &'a V)> = Vec::new();
        loop
            invariant
                sorted_listing(all, m),
                m == within(self@, opt_view(from_key), opt_view(to_key)),
                pairs_view(out@) + it.remaining() == all,
            decreases it.remaining().len(),
        {
            let ghost out0 = out@;
            match it.next() {
                Some(kv) => {
                    out.push(kv);
                    proof {
                        assert(pairs_view(out@) =~= pairs_view(out0).push((kv.0@, *kv.1)));
                        assert(pairs_view(out@) + it.remaining() =~= all);
                    }
                },
                None => {
                    proof {
                        assert(pairs_view(out@) =~= all);
                    }
                    return out;
                },
            }
        }
    }

    /// The value stored under `key`, if any.
    pub fn get(&self, key: &[u8]) -> (r: Option<&V>)
        ensures
            r is Some <==> self@.contains_key(key@),
            r matches Some(v) ==> *v == self@[key@],
    {
        proof {
            use_type_invariant(self);
            assert(key@.take(0) =~= Seq::<u8>::empty());
        }
        match &self.root {
            Some(n) => lookup(n, key, 0, Ghost(Seq::empty())),
            None => None,
        }
    }
}

} // verus!
