//! Operations on inner nodes of any kind.
use vstd::prelude::*;
use crate::lex::{in_bounds, key_in_bounds, opt_view};
use crate::lex::{is_prefix, lemma_prefix_trans};
use crate::model::{
    capacity, compressed, compressed_opt, lemma_compressed_intro,
    lemma_compressed_same_children, min_children, node_compact, child, child_path, entries, hdr, lemma_childless_entries, lemma_entries_extend_child,
    lemma_no_children, lemma_same_contents, lemma_same_contents_wf, lemma_single_child_entries,
    lemma_wf_child, shape, value_entries, wf,
};
use crate::prefix::Prefix;
use crate::raw::{deref_opt, listing_sorted, InnerValue, Leaf, Node, Node16, Node256, Node4, Node48};

verus! {

/// `n` is an inner node with a valid layout.
pub open spec fn inner_ok<V>(n: Node<V>) -> bool {
    !(n is Leaf) && shape(n)
}

/// `a` and `b` have the same child under every byte.
pub open spec fn same_children<V>(a: Node<V>, b: Node<V>) -> bool {
    forall|c: u8| #[trigger] child(a, c) == child(b, c)
}

/// The prefix of an inner node.
pub fn inner_prefix<V>(node: &Node<V>) -> (r: &[u8])
    requires
        inner_ok(*node),
    ensures
        r@ == hdr(*node).prefix@,
{
    match node {
        Node::N4(n) => n.header.prefix.as_slice(),
        Node::N16(n) => n.header.prefix.as_slice(),
        Node::N48(n) => n.header.prefix.as_slice(),
        Node::N256(n) => n.header.prefix.as_slice(),
        Node::Leaf(_) => {
            assert(false);
            &[]
        },
    }
}

/// The key and value stored on an inner node itself, if any.
pub fn inner_value<V>(node: &Node<V>) -> (r: Option<(&[u8], &V)>)
    requires
        !(*node is Leaf),
    ensures
        r is Some <==> hdr(*node).value is Some,
        r matches Some(kv) ==> kv.0@ == hdr(*node).value.unwrap().0@ && *kv.1 == hdr(*node).value.unwrap().1,
{
    let v = match node {
        Node::N4(n) => &n.header.value,
        Node::N16(n) => &n.header.value,
        Node::N48(n) => &n.header.value,
        Node::N256(n) => &n.header.value,
        Node::Leaf(_) => {
            assert(false);
            return None;
        },
    };
    match v {
        Some(kv) => Some((kv.0.as_slice(), &kv.1)),
        None => None,
    }
}

/// The inner node's own entry, if it has one within the inclusive bounds.
pub fn inner_value_in_lex_range<'a, V>(
    node: &'a Node<V>,
    lo: Option<&[u8]>,
    hi: Option<&[u8]>,
) -> (r: Option<(&'a [u8], &'a V)>)
    requires
        !(*node is Leaf),
    ensures
        r is Some <==> (hdr(*node).value is Some && in_bounds(hdr(*node).value.unwrap().0@, opt_view(lo), opt_view(hi))),
        r matches Some(kv) ==> kv.0@ == hdr(*node).value.unwrap().0@ && *kv.1 == hdr(*node).value.unwrap().1,
{
    match inner_value(node) {
        Some((key, value)) => {
            if key_in_bounds(key, lo, hi) {
                Some((key, value))
            } else {
                None
            }
        },
        None => None,
    }
}

/// The child under byte `b`, if any.
pub fn inner_find<V>(node: &Node<V>, b: u8) -> (r: Option<&Node<V>>)
    requires
        inner_ok(*node),
    ensures
        deref_opt(r) == child(*node, b),
{
    match node {
        Node::N4(n) => n.find_child(b),
        Node::N16(n) => n.find_child(b),
        Node::N48(n) => n.find_child(b),
        Node::N256(n) => n.find_child(b),
        Node::Leaf(_) => None,
    }
}

/// Adds `c` under byte `b`, which must be free; the node must not be full.
pub fn inner_add_child<V>(node: &mut Node<V>, b: u8, c: Box<Node<V>>)
    requires
        inner_ok(*old(node)),
        child(*old(node), b) is None,
        *old(node) is N256 || hdr(*old(node)).count < capacity(*old(node)),
    ensures
        inner_ok(*final(node)),
        capacity(*final(node)) == capacity(*old(node)),
        hdr(*final(node)).count == hdr(*old(node)).count + 1,
        hdr(*final(node)).prefix == hdr(*old(node)).prefix,
        hdr(*final(node)).value == hdr(*old(node)).value,
        child(*final(node), b) == Some(*c),
        forall|x: u8| x != b ==> child(*final(node), x) == child(*old(node), x),
{
    match node {
        Node::N4(n) => n.add_child(b, c),
        Node::N16(n) => n.add_child(b, c),
        Node::N48(n) => n.add_child(b, c),
        Node::N256(n) => n.add_child(b, c),
        Node::Leaf(_) => {},
    }
}

/// Detaches and returns the child under byte `b`, if any.
pub fn inner_remove_child<V>(node: &mut Node<V>, b: u8) -> (r: Option<Box<Node<V>>>)
    requires
        inner_ok(*old(node)),
    ensures
        inner_ok(*final(node)),
        capacity(*final(node)) == capacity(*old(node)),
        r is Some <==> child(*old(node), b) is Some,
        r is Some ==> *r.unwrap() == child(*old(node), b).unwrap(),
        hdr(*final(node)).count == hdr(*old(node)).count - (if r is Some {
            1int
        } else {
            0int
        }),
        hdr(*final(node)).prefix == hdr(*old(node)).prefix,
        hdr(*final(node)).value == hdr(*old(node)).value,
        child(*final(node), b) is None,
        forall|x: u8| x != b ==> child(*final(node), x) == child(*old(node), x),
        r is None ==> *final(node) == *old(node),
{
    match node {
        Node::N4(n) => n.remove_child(b),
        Node::N16(n) => n.remove_child(b),
        Node::N48(n) => n.remove_child(b),
        Node::N256(n) => n.remove_child(b),
        Node::Leaf(_) => None,
    }
}

/// Puts `c` in place of the child under byte `b`, which must exist, and returns that child.
/// The child keeps its place in the node's arrays; header and kind are unchanged.
pub fn inner_replace_child<V>(node: &mut Node<V>, b: u8, c: Node<V>) -> (r: Node<V>)
    requires
        inner_ok(*old(node)),
        child(*old(node), b) is Some,
    ensures
        inner_ok(*final(node)),
        capacity(*final(node)) == capacity(*old(node)),
        hdr(*final(node)) == hdr(*old(node)),
        r == child(*old(node), b).unwrap(),
        child(*final(node), b) == Some(c),
        forall|x: u8| x != b ==> child(*final(node), x) == child(*old(node), x),
{
    match node {
        Node::N4(n) => n.replace_child(b, c),
        Node::N16(n) => n.replace_child(b, c),
        Node::N48(n) => n.replace_child(b, c),
        Node::N256(n) => n.replace_child(b, c),
        Node::Leaf(_) => c,
    }
}

/// Whether the node has no room for another child.
pub fn inner_is_full<V>(node: &Node<V>) -> (r: bool)
    requires
        inner_ok(*node),
    ensures
        r == (!(*node is N256) && hdr(*node).count >= capacity(*node)),
{
    match node {
        Node::N4(n) => n.header.count >= 4u16,
        Node::N16(n) => n.header.count >= 16u16,
        Node::N48(n) => n.header.count >= 48u16,
        Node::N256(n) => {
            false
        },
        Node::Leaf(_) => false,
    }
}

/// The number of children.
pub fn inner_count<V>(node: &Node<V>) -> (r: usize)
    requires
        !(*node is Leaf),
    ensures
        r == hdr(*node).count,
{
    match node {
        Node::N4(n) => n.header.count as usize,
        Node::N16(n) => n.header.count as usize,
        Node::N48(n) => n.header.count as usize,
        Node::N256(n) => n.header.count as usize,
        Node::Leaf(_) => 0,
    }
}

/// Replaces the prefix.
pub fn inner_set_prefix<V>(node: &mut Node<V>, prefix: Prefix)
    requires
        inner_ok(*old(node)),
        prefix.wf(),
    ensures
        inner_ok(*final(node)),
        capacity(*final(node)) == capacity(*old(node)),
        hdr(*final(node)).prefix == prefix,
        hdr(*final(node)).value == hdr(*old(node)).value,
        hdr(*final(node)).count == hdr(*old(node)).count,
        same_children(*final(node), *old(node)),
{
    match node {
        Node::N4(n) => n.header.prefix = prefix,
        Node::N16(n) => n.header.prefix = prefix,
        Node::N48(n) => n.header.prefix = prefix,
        Node::N256(n) => n.header.prefix = prefix,
        Node::Leaf(_) => {},
    }
}

/// Stores `(key, value)` as the node's own entry, replacing any previous one.
pub fn inner_set_value<V>(node: &mut Node<V>, key: Vec<u8>, value: V)
    requires
        inner_ok(*old(node)),
    ensures
        inner_ok(*final(node)),
        capacity(*final(node)) == capacity(*old(node)),
        hdr(*final(node)).value == Some((key, value)),
        hdr(*final(node)).prefix == hdr(*old(node)).prefix,
        hdr(*final(node)).count == hdr(*old(node)).count,
        same_children(*final(node), *old(node)),
{
    match node {
        Node::N4(n) => n.header.value = Some((key, value)),
        Node::N16(n) => n.header.value = Some((key, value)),
        Node::N48(n) => n.header.value = Some((key, value)),
        Node::N256(n) => n.header.value = Some((key, value)),
        Node::Leaf(_) => {},
    }
}

/// Whether the node holds an entry itself.
pub fn inner_has_value<V>(node: &Node<V>) -> (r: bool)
    requires
        !(*node is Leaf),
    ensures
        r == hdr(*node).value is Some,
{
    match node {
        Node::N4(n) => n.header.value.is_some(),
        Node::N16(n) => n.header.value.is_some(),
        Node::N48(n) => n.header.value.is_some(),
        Node::N256(n) => n.header.value.is_some(),
        Node::Leaf(_) => false,
    }
}

/// Removes and returns the node's own entry.
pub fn inner_clear_value<V>(node: &mut Node<V>) -> (r: InnerValue<V>)
    requires
        inner_ok(*old(node)),
    ensures
        inner_ok(*final(node)),
        capacity(*final(node)) == capacity(*old(node)),
        r == hdr(*old(node)).value,
        hdr(*final(node)).value is None,
        hdr(*final(node)).prefix == hdr(*old(node)).prefix,
        hdr(*final(node)).count == hdr(*old(node)).count,
        same_children(*final(node), *old(node)),
{
    match node {
        Node::N4(n) => n.header.value.take(),
        Node::N16(n) => n.header.value.take(),
        Node::N48(n) => n.header.value.take(),
        Node::N256(n) => n.header.value.take(),
        Node::Leaf(_) => None,
    }
}

/// Removes and returns the prefix, leaving it empty.
pub fn inner_take_prefix<V>(node: &mut Node<V>) -> (r: Prefix)
    requires
        inner_ok(*old(node)),
    ensures
        inner_ok(*final(node)),
        capacity(*final(node)) == capacity(*old(node)),
        r == hdr(*old(node)).prefix,
        hdr(*final(node)).prefix@ =~= Seq::<u8>::empty(),
        hdr(*final(node)).value == hdr(*old(node)).value,
        hdr(*final(node)).count == hdr(*old(node)).count,
        same_children(*final(node), *old(node)),
{
    let mut p = Prefix::empty();
    match node {
        Node::N4(n) => std::mem::swap(&mut p, &mut n.header.prefix),
        Node::N16(n) => std::mem::swap(&mut p, &mut n.header.prefix),
        Node::N48(n) => std::mem::swap(&mut p, &mut n.header.prefix),
        Node::N256(n) => std::mem::swap(&mut p, &mut n.header.prefix),
        Node::Leaf(_) => {},
    }
    p
}

/// The node moved to the next larger kind; a `Node256` cannot grow.
pub fn grow<V>(node: Node<V>) -> (r: Node<V>)
    requires
        inner_ok(node),
        !(node is N256),
    ensures
        inner_ok(r),
        capacity(r) > capacity(node),
        node is N4 ==> r is N16,
        node is N16 ==> r is N48,
        node is N48 ==> r is N256,
        hdr(r).count == hdr(node).count,
        hdr(r).prefix == hdr(node).prefix,
        hdr(r).value == hdr(node).value,
        same_children(r, node),
{
    match node {
        Node::N4(n) => Node::N16(n.grow()),
        Node::N16(n) => Node::N48(n.grow()),
        Node::N48(n) => Node::N256(n.grow()),
        _ => node,
    }
}

/// The node kind one step smaller than `n`'s; a `Node4` has none below it.
pub open spec fn smaller_kind<V>(n: Node<V>, r: Node<V>) -> bool {
    match n {
        Node::N256(_) => r is N48,
        Node::N48(_) => r is N16,
        Node::N16(_) => r is N4,
        _ => r is N4,
    }
}

/// Whether `n`'s children fit the next smaller kind, so that compaction shrinks it.
pub open spec fn sparse<V>(n: Node<V>) -> bool {
    match n {
        Node::N256(_) => hdr(n).count <= 48,
        Node::N48(_) => hdr(n).count <= 16,
        Node::N16(_) => hdr(n).count <= 4,
        _ => false,
    }
}

/// The node moved to the next smaller kind; its children must fit there. A `Node4` comes
/// back as it is.
pub fn shrink<V>(node: Node<V>) -> (r: Node<V>)
    requires
        inner_ok(node),
        node is N256 ==> hdr(node).count <= 48,
        node is N48 ==> hdr(node).count <= 16,
        node is N16 ==> hdr(node).count <= 4,
    ensures
        inner_ok(r),
        smaller_kind(node, r),
        node is N4 ==> r == node,
        hdr(r).count == hdr(node).count,
        hdr(r).prefix == hdr(node).prefix,
        hdr(r).value == hdr(node).value,
        same_children(r, node),
{
    match node {
        Node::N256(n) => Node::N48(n.shrink()),
        Node::N48(n) => Node::N16(n.shrink()),
        Node::N16(n) => Node::N4(n.shrink()),
        _ => node,
    }
}

/// The children in increasing byte order.
pub fn inner_children<V>(node: &Node<V>) -> (r: Vec<(u8, &Node<V>)>)
    requires
        inner_ok(*node),
    ensures
        r@.len() == hdr(*node).count,
        listing_sorted(r@),
        forall|i: int| 0 <= i < r@.len() ==> child(*node, #[trigger] r@[i].0) == Some(*r@[i].1),
        forall|c: u8| #[trigger] child(*node, c) is Some ==> exists|i: int| 0 <= i < r@.len() && r@[i].0 == c,
{
    match node {
        Node::N4(n) => n.get_children(),
        Node::N16(n) => n.get_children(),
        Node::N48(n) => n.get_children(),
        Node::N256(n) => n.get_children(),
        Node::Leaf(_) => Vec::new(),
    }
}

/// The entries of an optional subtree.
pub open spec fn entries_opt<V>(n: Option<Node<V>>) -> Map<Seq<u8>, V> {
    match n {
        Some(b) => entries(b),
        None => Map::empty(),
    }
}

/// Every child of `n` is compressed.
pub open spec fn children_compressed<V>(n: Node<V>) -> bool {
    forall|b: u8| #[trigger] child(n, b) is Some ==> compressed(child(n, b).unwrap())
}

/// `r` is the single child of `n`, under byte `b`, with `n`'s prefix and `b` put in front of
/// the child's own prefix when the child is an inner node.
pub open spec fn merged_into_child<V>(n: Node<V>, b: u8, r: Option<Node<V>>) -> bool {
    &&& child(n, b) is Some
    &&& r is Some
    &&& match child(n, b).unwrap() {
        Node::Leaf(l) => r.unwrap() == Node::<V>::Leaf(l),
        c => {
            let m = r.unwrap();
            &&& !(m is Leaf)
            &&& hdr(m).prefix@ == hdr(n).prefix@.push(b) + hdr(c).prefix@
            &&& hdr(m).value == hdr(c).value
            &&& hdr(m).count == hdr(c).count
            &&& capacity(m) == capacity(c)
            &&& same_children(m, c)
        },
    }
}

/// Restores the tree's shape after a removal: a node without children becomes a leaf
/// holding its own entry (or disappears), a node with one child and no entry merges into
/// that child, and a sparse node moves to a smaller kind. The entries are unchanged.
pub fn compact<V>(node: Node<V>, Ghost(path): Ghost<Seq<u8>>) -> (r: Option<Node<V>>)
    requires
        wf(node, path),
        !(node is Leaf),
    ensures
        r matches Some(n) ==> wf(n, path),
        entries_opt(r) == entries(node),
        children_compressed(node) && hdr(node).count + 1 >= min_children(node) ==> compressed_opt(r),
        hdr(node).count == 0 ==> {
            &&& (r is None <==> hdr(node).value is None)
            &&& (r matches Some(n) ==> n is Leaf)
        },
        hdr(node).count == 1 && hdr(node).value is None ==> exists|b: u8| #[trigger] merged_into_child(node, b, r),
        hdr(node).count > 1 || (hdr(node).count == 1 && hdr(node).value is Some) ==> (r matches Some(n) && {
            &&& hdr(n).count == hdr(node).count
            &&& hdr(n).prefix == hdr(node).prefix
            &&& hdr(n).value == hdr(node).value
            &&& same_children(n, node)
            &&& (sparse(node) ==> smaller_kind(node, n))
            &&& (!sparse(node) ==> n == node)
        }),
{
    let ghost orig = node;
    let mut node = node;
    let count = inner_count(&node);

    if count == 0 {
        proof {
            lemma_no_children(orig);
            lemma_childless_entries(orig, path);
        }
        if inner_has_value(&node) {
            let val = inner_clear_value(&mut node);
            let (key, value) = val.unwrap();
            proof {
                assert(key@ == child_path(orig, path));
                assert(child_path(orig, path).take(path.len() as int) =~= path);
                assert(entries(Node::Leaf(Leaf { key, value })) =~= value_entries(hdr(orig)));
            }
            return Some(Node::Leaf(Leaf { key, value }));
        }
        return None;
    }

    if count == 1 && !inner_has_value(&node) {
        let children = inner_children(&node);
        let b = children[0].0;
        proof {
            assert forall|c: u8| c != b implies child(orig, c) is None by {
                if child(orig, c) is Some {
                    let i = choose|i: int| 0 <= i < children@.len() && children@[i].0 == c;
                    assert(i == 0);
                }
            }
            lemma_single_child_entries(orig, path, b);
            lemma_wf_child(orig, path, b);
        }
        let parent_prefix = vstd::slice::slice_to_vec(inner_prefix(&node));
        let removed = inner_remove_child(&mut node, b);
        let mut child_node = *removed.unwrap();
        let ghost q = child_path(orig, path).push(b);
        match child_node {
            Node::Leaf(_) => {
                proof {
                    lemma_prefix_trans(path, q, child_node->Leaf_0.key@);
                    assert(q.take(path.len() as int) =~= path);
                    assert(merged_into_child(orig, b, Some(child_node)));
                }
                return Some(child_node);
            },
            _ => {},
        }
        let ghost c0 = child_node;
        let child_prefix = inner_take_prefix(&mut child_node);
        let mut merged = parent_prefix;
        merged.push(b);
        let mut tail = vstd::slice::slice_to_vec(child_prefix.as_slice());
        merged.append(&mut tail);
        inner_set_prefix(&mut child_node, Prefix::from_slice(merged.as_slice()));
        proof {
            assert(child_path(child_node, path) =~= child_path(c0, q));
            lemma_same_contents_wf(c0, q, child_node, path);
            lemma_same_contents(child_node, c0);
            assert(hdr(child_node).prefix@ =~= hdr(orig).prefix@.push(b) + hdr(c0).prefix@);
            assert(merged_into_child(orig, b, Some(child_node)));
            if children_compressed(orig) {
                assert(compressed(c0));
                assert(node_compact(child_node));
                lemma_compressed_same_children(c0, child_node);
            }
        }
        return Some(child_node);
    }

    let should_shrink = match &node {
        Node::N256(_) => count <= 48,
        Node::N48(_) => count <= 16,
        Node::N16(_) => count <= 4,
        _ => false,
    };
    if should_shrink {
        let shrunk = shrink(node);
        proof {
            lemma_same_contents(shrunk, orig);
            lemma_same_contents_wf(orig, path, shrunk, path);
            if children_compressed(orig) && hdr(orig).count + 1 >= min_children(orig) {
                assert(node_compact(shrunk));
                assert forall|c: u8| #[trigger] child(shrunk, c) is Some implies compressed(child(shrunk, c).unwrap()) by {
                    assert(child(shrunk, c) == child(orig, c));
                }
                lemma_compressed_intro(shrunk);
            }
        }
        return Some(shrunk);
    }
    proof {
        if children_compressed(orig) && hdr(orig).count + 1 >= min_children(orig) {
            assert(node_compact(orig));
            lemma_compressed_intro(orig);
        }
    }
    Some(node)
}

} // verus!
