//! In-order traversal, whole or within bounds, with an explicit stack.
use vstd::prelude::*;
use crate::inner::{inner_find, inner_prefix, inner_value, inner_value_in_lex_range};
use crate::lex::{
    compare_bytes, in_bounds, is_prefix, key_in_bounds, lemma_lex_asym, lemma_lex_by_byte,
    lemma_lex_lt_within, lemma_lex_prefix, lemma_prefix_trans, lex_le, lex_lt, opt_view, Cmp,
};
use crate::model::{
    child, child_path, entries, hdr, items, items_from, lemma_child_path_bound, lemma_entries_extend,
    lemma_from_gap, lemma_items_extend_inner, lemma_items_from_listing, lemma_items_listing, lemma_select_concat,
    lemma_select_congruent, lemma_select_none, lemma_select_single, lemma_wf_child, select, size, size_from, value_items,
    wf,
};
use crate::raw::{lemma_sorted_index_of, sorted_child, sorted_keys, Node};

verus! {

/// A subtree waiting on the traversal stack, with the path that leads to it.
pub struct IterFrame<'a, V> {
    pub node: &'a Node<V>,
    pub path: Ghost<Seq<u8>>,
}

/// The items still to come from a stack of subtrees, top of the stack first.
pub open spec fn frames_items<'a, V>(s: Seq<IterFrame<'a, V>>) -> Seq<(Seq<u8>, V)>
    decreases s.len(),
{
    if s.len() == 0 {
        Seq::empty()
    } else {
        items(*s.last().node) + frames_items(s.drop_last())
    }
}

/// Number of nodes in a stack of subtrees.
pub open spec fn frames_size<'a, V>(s: Seq<IterFrame<'a, V>>) -> nat
    decreases s.len(),
{
    if s.len() == 0 {
        0
    } else {
        size(*s.last().node) + frames_size(s.drop_last())
    }
}

/// Every subtree on the stack is well formed under its path.
pub open spec fn frames_ok<'a, V>(s: Seq<IterFrame<'a, V>>) -> bool {
    forall|i: int| 0 <= i < s.len() ==> wf(*(#[trigger] s[i]).node, s[i].path@)
}

proof fn lemma_frames_push<'a, V>(s: Seq<IterFrame<'a, V>>, f: IterFrame<'a, V>)
    requires
        frames_ok(s),
        wf(*f.node, f.path@),
    ensures
        frames_ok(s.push(f)),
        frames_items(s.push(f)) == items(*f.node) + frames_items(s),
        frames_size(s.push(f)) == size(*f.node) + frames_size(s),
{
    assert(s.push(f).drop_last() =~= s);
    assert forall|i: int| 0 <= i < s.push(f).len() implies wf(*(#[trigger] s.push(f)[i]).node, s.push(f)[i].path@) by {
        if i < s.len() {
            assert(s.push(f)[i] == s[i]);
        }
    }
}

/// Pushes the children held in parallel sorted arrays, largest byte first.
fn push_sorted_rev<'a, V>(
    node: &'a Node<V>,
    keys: &'a Vec<u8>,
    children: &'a Vec<Box<Node<V>>>,
    Ghost(path): Ghost<Seq<u8>>,
    stack: &mut Vec<IterFrame<'a, V>>,
)
    requires
        wf(*node, path),
        !(*node is Leaf),
        sorted_keys(keys@),
        keys@.len() == children@.len(),
        forall|c: u8| #[trigger] child(*node, c) == sorted_child(keys@, children@, c),
        frames_ok(old(stack)@),
    ensures
        frames_ok(final(stack)@),
        frames_items(final(stack)@) == items_from(*node, 0) + frames_items(old(stack)@),
        frames_size(final(stack)@) == size_from(*node, 0) + frames_size(old(stack)@),
{
    let ghost q = child_path(*node, path);
    let ghost orig = stack@;
    let cnt = keys.len();
    let mut i = cnt;
    proof {
        assert forall|c: u8| 256 <= c < 256 implies #[trigger] child(*node, c) is None by {}
    }
    while i > 0
        invariant
            wf(*node, path),
            !(*node is Leaf),
            q == child_path(*node, path),
            sorted_keys(keys@),
            keys@.len() == children@.len(),
            cnt == keys@.len(),
            forall|c: u8| #[trigger] child(*node, c) == sorted_child(keys@, children@, c),
            i <= cnt,
            frames_ok(stack@),
            frames_items(stack@) == items_from(*node, if i == cnt { 256 } else { keys@[i as int] as int }) + frames_items(orig),
            frames_size(stack@) == size_from(*node, if i == cnt { 256 } else { keys@[i as int] as int }) + frames_size(orig),
        decreases i,
    {
        let ghost hi: int = if i == cnt { 256 } else { keys@[i as int] as int };
        i = i - 1;
        let k = keys[i];
        proof {
            lemma_sorted_index_of(keys@, i as int);
            assert forall|c: u8| k < c < hi implies #[trigger] child(*node, c) is None by {
                if keys@.contains(c) {
                    let j = keys@.index_of(c);
                    if j <= i {
                        if j < i {
                            assert(keys@[j] < keys@[i as int]);
                        }
                    } else {
                        if j > i + 1 {
                            assert(keys@[i + 1] < keys@[j]);
                        }
                    }
                }
            }
            lemma_from_gap(*node, k as int + 1, hi);
            lemma_wf_child(*node, path, k);
        }
        let f = IterFrame { node: &*children[i], path: Ghost(q.push(k)) };
        proof {
            lemma_frames_push(stack@, f);
        }
        stack.push(f);
    }
    proof {
        let lo: int = if cnt == 0 { 256 } else { keys@[0] as int };
        assert forall|c: u8| 0 <= c < lo implies #[trigger] child(*node, c) is None by {
            if keys@.contains(c) {
                let j = keys@.index_of(c);
                if j > 0 {
                    assert(keys@[0] < keys@[j]);
                }
            }
        }
        lemma_from_gap(*node, 0, lo);
    }
}

/// Pushes the children of any kind by scanning every byte, largest first.
fn push_indexed_rev<'a, V>(node: &'a Node<V>, Ghost(path): Ghost<Seq<u8>>, stack: &mut Vec<IterFrame<'a, V>>)
    requires
        wf(*node, path),
        !(*node is Leaf),
        frames_ok(old(stack)@),
    ensures
        frames_ok(final(stack)@),
        frames_items(final(stack)@) == items_from(*node, 0) + frames_items(old(stack)@),
        frames_size(final(stack)@) == size_from(*node, 0) + frames_size(old(stack)@),
{
    let ghost q = child_path(*node, path);
    let ghost orig = stack@;
    let mut b: usize = 256;
    while b > 0
        invariant
            wf(*node, path),
            !(*node is Leaf),
            q == child_path(*node, path),
            b <= 256,
            frames_ok(stack@),
            frames_items(stack@) == items_from(*node, b as int) + frames_items(orig),
            frames_size(stack@) == size_from(*node, b as int) + frames_size(orig),
        decreases b,
    {
        b = b - 1;
        match inner_find(node, b as u8) {
            Some(c) => {
                proof {
                    lemma_wf_child(*node, path, b as u8);
                }
                let f = IterFrame { node: c, path: Ghost(q.push(b as u8)) };
                proof {
                    lemma_frames_push(stack@, f);
                }
                stack.push(f);
            },
            None => {},
        }
    }
}

/// Pushes the children of an inner node so that the smallest byte ends on top.
fn push_children_rev<'a, V>(node: &'a Node<V>, Ghost(path): Ghost<Seq<u8>>, stack: &mut Vec<IterFrame<'a, V>>)
    requires
        wf(*node, path),
        !(*node is Leaf),
        frames_ok(old(stack)@),
    ensures
        frames_ok(final(stack)@),
        frames_items(final(stack)@) == items_from(*node, 0) + frames_items(old(stack)@),
        frames_size(final(stack)@) == size_from(*node, 0) + frames_size(old(stack)@),
{
    match node {
        Node::N4(n) => push_sorted_rev(node, &n.keys, &n.children, Ghost(path), stack),
        Node::N16(n) => push_sorted_rev(node, &n.keys, &n.children, Ghost(path), stack),
        _ => push_indexed_rev(node, Ghost(path), stack),
    }
}

/// In-order iterator over a map's entries.
pub struct Iter<'a, V> {
    stack: Vec<IterFrame<'a, V>>,
}

impl<'a, V> Iter<'a, V> {
    #[verifier::type_invariant]
    spec fn inv(self) -> bool {
        frames_ok(self.stack@)
    }

    /// The entries this iterator has yet to yield, in order.
    pub closed spec fn remaining(&self) -> Seq<(Seq<u8>, V)> {
        frames_items(self.stack@)
    }

    /// An iterator over the subtree `root`.
    pub(crate) fn new(root: Option<&'a Node<V>>) -> (r: Self)
        requires
            root matches Some(n) ==> wf(*n, Seq::empty()),
        ensures
            r.remaining() == match root {
                Some(n) => items(*n),
                None => Seq::empty(),
            },
    {
        let mut stack: Vec<IterFrame<'a, V>> = Vec::new();
        match root {
            Some(n) => {
                let f = IterFrame { node: n, path: Ghost(Seq::empty()) };
                proof {
                    lemma_frames_push(stack@, f);
                }
                stack.push(f);
            },
            None => {},
        }
        Iter { stack }
    }

    /// Yields the next entry in key order, if any.
    pub fn next(&mut self) -> (r: Option<(&'a [u8], &'a V)>)
        ensures
            old(self).remaining().len() == 0 ==> r is None && final(self).remaining() == old(self).remaining(),
            old(self).remaining().len() > 0 ==> {
                &&& r matches Some(kv)
                &&& (kv.0@, *kv.1) == old(self).remaining()[0]
                &&& final(self).remaining() == old(self).remaining().drop_first()
            },
    {
        proof {
            use_type_invariant(&*self);
        }
        let mut this = Iter { stack: Vec::new() };
        std::mem::swap(self, &mut this);
        proof {
            use_type_invariant(&this);
        }
        assert(this == *old(self));
        let Iter { mut stack } = this;
        let ghost rem = frames_items(stack@);
        assert(rem == old(self).remaining());
        loop
            invariant
                frames_ok(stack@),
                frames_items(stack@) == rem,
                rem == old(self).remaining(),
            decreases frames_size(stack@),
        {
            let ghost before = stack@;
            let f = match stack.pop() {
                Some(f) => f,
                None => {
                    proof {
                        assert(rem.len() == 0);
                    }
                    *self = Iter { stack };
                    return None;
                },
            };
            proof {
                assert(stack@ == before.drop_last());
                assert(f == before.last());
                assert(rem == items(*f.node) + frames_items(stack@));
                assert(frames_ok(stack@)) by {
                    assert forall|i: int| 0 <= i < stack@.len() implies wf(*(#[trigger] stack@[i]).node, stack@[i].path@) by {
                        assert(stack@[i] == before[i]);
                    }
                }
                assert(wf(*before[before.len() - 1].node, before[before.len() - 1].path@));
            }
            let node = f.node;
            let ghost path = f.path@;
            match node {
                Node::Leaf(leaf) => {
                    proof {
                        assert(items(*node) =~= seq![(leaf.key@, leaf.value)]);
                        assert(rem.drop_first() =~= frames_items(stack@));
                    }
                    *self = Iter { stack };
                    return Some((leaf.key.as_slice(), &leaf.value));
                },
                _ => {},
            }
            push_children_rev(node, Ghost(path), &mut stack);
            match inner_value(node) {
                Some(kv) => {
                    proof {
                        assert(rem =~= value_items(hdr(*node)) + items_from(*node, 0) + frames_items(before.drop_last()));
                        assert(rem.drop_first() =~= frames_items(stack@));
                    }
                    *self = Iter { stack };
                    return Some(kv);
                },
                None => {
                    proof {
                        assert(frames_items(stack@) =~= rem);
                    }
                },
            }
        }
    }
}

// ---------------------------------------------------------------------------
// Bounds against a subtree
// ---------------------------------------------------------------------------

/// Every key under path `q` is below `l`.
pub open spec fn all_below(q: Seq<u8>, l: Seq<u8>) -> bool {
    forall|k: Seq<u8>| #[trigger] is_prefix(q, k) ==> lex_lt(k, l)
}

/// No key under path `q` is below `l`.
pub open spec fn none_below(q: Seq<u8>, l: Seq<u8>) -> bool {
    forall|k: Seq<u8>| #[trigger] is_prefix(q, k) ==> !lex_lt(k, l)
}

/// Every key under path `q` is above `h`.
pub open spec fn all_above(q: Seq<u8>, h: Seq<u8>) -> bool {
    forall|k: Seq<u8>| #[trigger] is_prefix(q, k) ==> lex_lt(h, k)
}

/// No key under path `q` is above `h`.
pub open spec fn none_above(q: Seq<u8>, h: Seq<u8>) -> bool {
    forall|k: Seq<u8>| #[trigger] is_prefix(q, k) ==> !lex_lt(h, k)
}

/// Where a subtree stands against the lower bound.
pub enum LowerBound<'a> {
    /// Every key in the subtree is below the bound.
    Prune,
    /// No key in the subtree is below the bound.
    Free,
    /// The bound continues below the subtree's full path.
    Follow(&'a [u8]),
}

/// Where a subtree stands against the upper bound.
pub enum UpperBound<'a> {
    /// Every key in the subtree is above the bound.
    Prune,
    /// No key in the subtree is above the bound.
    Free,
    /// The bound continues below the subtree's full path.
    Follow(&'a [u8]),
    /// The bound is a prefix of the subtree's full path: only the node's own entry can match.
    OwnOnly(&'a [u8]),
}

/// Compares the prefix of a node reached by `path` with the lower bound.
fn lower_bound<'a>(prefix: &[u8], depth: usize, lo: Option<&'a [u8]>, Ghost(path): Ghost<Seq<u8>>) -> (r: LowerBound<'a>)
    requires
        path.len() == depth,
        lo matches Some(l) ==> l@.len() >= depth && l@.take(depth as int) == path,
    ensures
        r is Prune ==> lo is Some && all_below(path + prefix@, lo.unwrap()@),
        r is Free ==> lo is None || none_below(path + prefix@, lo.unwrap()@),
        r matches LowerBound::Follow(l) ==> lo == Some(l) && l@.len() > (path + prefix@).len() && is_prefix(path + prefix@, l@),
{
    let ghost q = path + prefix@;
    let lo_bytes = match lo {
        Some(l) => l,
        None => {
            return LowerBound::Free;
        },
    };
    let ghost l = lo_bytes@;
    let lo_avail = lo_bytes.len().saturating_sub(depth);
    if lo_avail == 0 {
        proof {
            assert(l =~= path);
            assert forall|k: Seq<u8>| #[trigger] is_prefix(q, k) implies !lex_lt(k, l) by {
                assert(is_prefix(path, q)) by {
                    assert(q.take(path.len() as int) =~= path);
                }
                lemma_prefix_trans(path, q, k);
                lemma_lex_prefix(l, k);
            }
        }
        return LowerBound::Free;
    }
    if prefix.len() == 0 {
        proof {
            assert(q =~= path);
        }
        return LowerBound::Follow(lo_bytes);
    }
    let cn = if prefix.len() < lo_avail {
        prefix.len()
    } else {
        lo_avail
    };
    let pp = &prefix[0..cn];
    let lp = &lo_bytes[depth..depth + cn];
    match compare_bytes(pp, lp) {
        Cmp::Less => {
            proof {
                assert forall|k: Seq<u8>| #[trigger] is_prefix(q, k) implies lex_lt(k, l) by {
                    assert(k.take(depth as int) =~= l.take(depth as int)) by {
                        assert(k.take(depth as int) =~= k.take(q.len() as int).take(depth as int));
                    }
                    assert(k.subrange(depth as int, depth + cn) =~= pp@) by {
                        assert forall|j: int| 0 <= j < cn implies k[depth + j] == pp@[j] by {
                            assert(k.take(q.len() as int)[depth + j] == q[depth + j]);
                        }
                    }
                    lemma_lex_lt_within(pp@, lp@, k, l, depth as int);
                }
            }
            LowerBound::Prune
        },
        Cmp::Greater => {
            proof {
                assert forall|k: Seq<u8>| #[trigger] is_prefix(q, k) implies !lex_lt(k, l) by {
                    assert(k.take(depth as int) =~= l.take(depth as int)) by {
                        assert(k.take(depth as int) =~= k.take(q.len() as int).take(depth as int));
                    }
                    assert(k.subrange(depth as int, depth + cn) =~= pp@) by {
                        assert forall|j: int| 0 <= j < cn implies k[depth + j] == pp@[j] by {
                            assert(k.take(q.len() as int)[depth + j] == q[depth + j]);
                        }
                    }
                    lemma_lex_lt_within(lp@, pp@, l, k, depth as int);
                    lemma_lex_asym(l, k);
                }
            }
            LowerBound::Free
        },
        Cmp::Equal => {
            if cn < prefix.len() || lo_avail == prefix.len() {
                proof {
                    assert(is_prefix(l, q)) by {
                        assert forall|j: int| 0 <= j < l.len() implies q[j] == l[j] by {
                            if j < depth {
                                assert(l.take(depth as int)[j] == path[j]);
                            } else {
                                assert(lp@[j - depth] == l[j]);
                                assert(pp@[j - depth] == prefix@[j - depth]);
                            }
                        }
                        assert(q.take(l.len() as int) =~= l);
                    }
                    assert forall|k: Seq<u8>| #[trigger] is_prefix(q, k) implies !lex_lt(k, l) by {
                        lemma_prefix_trans(l, q, k);
                        lemma_lex_prefix(l, k);
                    }
                }
                LowerBound::Free
            } else {
                proof {
                    assert(l.take(q.len() as int) =~= q) by {
                        assert forall|j: int| 0 <= j < q.len() implies l[j] == q[j] by {
                            if j < depth {
                                assert(l.take(depth as int)[j] == path[j]);
                            } else {
                                assert(lp@[j - depth] == l[j]);
                                assert(pp@[j - depth] == prefix@[j - depth]);
                            }
                        }
                    }
                }
                LowerBound::Follow(lo_bytes)
            }
        },
    }
}

/// Compares the prefix of a node reached by `path` with the upper bound.
fn upper_bound<'a>(prefix: &[u8], depth: usize, hi: Option<&'a [u8]>, Ghost(path): Ghost<Seq<u8>>) -> (r: UpperBound<'a>)
    requires
        path.len() == depth,
        hi matches Some(h) ==> h@.len() >= depth && h@.take(depth as int) == path,
    ensures
        r is Prune ==> hi is Some && all_above(path + prefix@, hi.unwrap()@),
        r is Free ==> hi is None || none_above(path + prefix@, hi.unwrap()@),
        r matches UpperBound::Follow(h) ==> hi == Some(h) && h@.len() > (path + prefix@).len() && is_prefix(path + prefix@, h@),
        r matches UpperBound::OwnOnly(h) ==> hi == Some(h) && is_prefix(h@, path + prefix@),
{
    let ghost q = path + prefix@;
    let hi_bytes = match hi {
        Some(h) => h,
        None => {
            return UpperBound::Free;
        },
    };
    let ghost h = hi_bytes@;
    let hi_avail = hi_bytes.len().saturating_sub(depth);
    if hi_avail == 0 {
        proof {
            assert(h =~= path);
            assert(q.take(path.len() as int) =~= path);
        }
        return UpperBound::OwnOnly(hi_bytes);
    }
    if prefix.len() == 0 {
        proof {
            assert(q =~= path);
        }
        return UpperBound::Follow(hi_bytes);
    }
    let cn = if prefix.len() < hi_avail {
        prefix.len()
    } else {
        hi_avail
    };
    let pp = &prefix[0..cn];
    let hp = &hi_bytes[depth..depth + cn];
    match compare_bytes(pp, hp) {
        Cmp::Greater => {
            proof {
                assert forall|k: Seq<u8>| #[trigger] is_prefix(q, k) implies lex_lt(h, k) by {
                    assert(k.take(depth as int) =~= h.take(depth as int)) by {
                        assert(k.take(depth as int) =~= k.take(q.len() as int).take(depth as int));
                    }
                    assert(k.subrange(depth as int, depth + cn) =~= pp@) by {
                        assert forall|j: int| 0 <= j < cn implies k[depth + j] == pp@[j] by {
                            assert(k.take(q.len() as int)[depth + j] == q[depth + j]);
                        }
                    }
                    lemma_lex_lt_within(hp@, pp@, h, k, depth as int);
                }
            }
            UpperBound::Prune
        },
        Cmp::Less => {
            proof {
                assert forall|k: Seq<u8>| #[trigger] is_prefix(q, k) implies !lex_lt(h, k) by {
                    assert(k.take(depth as int) =~= h.take(depth as int)) by {
                        assert(k.take(depth as int) =~= k.take(q.len() as int).take(depth as int));
                    }
                    assert(k.subrange(depth as int, depth + cn) =~= pp@) by {
                        assert forall|j: int| 0 <= j < cn implies k[depth + j] == pp@[j] by {
                            assert(k.take(q.len() as int)[depth + j] == q[depth + j]);
                        }
                    }
                    lemma_lex_lt_within(pp@, hp@, k, h, depth as int);
                    lemma_lex_asym(k, h);
                }
            }
            UpperBound::Free
        },
        Cmp::Equal => {
            proof {
                assert forall|j: int| 0 <= j < depth + cn implies h[j] == q[j] by {
                    if j < depth {
                        assert(h.take(depth as int)[j] == path[j]);
                    } else {
                        assert(hp@[j - depth] == h[j]);
                        assert(pp@[j - depth] == prefix@[j - depth]);
                    }
                }
            }
            if cn < prefix.len() {
                proof {
                    assert(q.take(h.len() as int) =~= h);
                    assert forall|k: Seq<u8>| #[trigger] is_prefix(q, k) implies lex_lt(h, k) by {
                        lemma_prefix_trans(h, q, k);
                        lemma_lex_prefix(h, k);
                    }
                }
                UpperBound::Prune
            } else if hi_avail == prefix.len() {
                proof {
                    assert(h =~= q);
                    assert(q.take(h.len() as int) =~= h);
                }
                UpperBound::OwnOnly(hi_bytes)
            } else {
                proof {
                    assert(h.take(q.len() as int) =~= q);
                }
                UpperBound::Follow(hi_bytes)
            }
        },
    }
}

// ---------------------------------------------------------------------------
// Range frames
// ---------------------------------------------------------------------------

/// A subtree waiting on the range stack, with the bounds still in force for it.
pub struct RangeFrame<'a, V> {
    pub node: &'a Node<V>,
    pub depth: usize,
    pub lo: Option<&'a [u8]>,
    pub hi: Option<&'a [u8]>,
    pub path: Ghost<Seq<u8>>,
}

/// The frame's subtree is well formed under its path, whose length is its depth, and each
/// bound still in force starts with that path.
pub open spec fn frame_ok<'a, V>(f: RangeFrame<'a, V>) -> bool {
    &&& wf(*f.node, f.path@)
    &&& f.path@.len() == f.depth
    &&& (f.lo matches Some(l) ==> l@.len() >= f.depth && l@.take(f.depth as int) == f.path@)
    &&& (f.hi matches Some(h) ==> h@.len() >= f.depth && h@.take(f.depth as int) == f.path@)
}

/// The items a frame still contributes: its subtree's items within its bounds.
pub open spec fn frame_items<'a, V>(f: RangeFrame<'a, V>) -> Seq<(Seq<u8>, V)> {
    select(items(*f.node), opt_view(f.lo), opt_view(f.hi))
}

/// Every frame on a range stack is consistent.
pub open spec fn ranges_ok<'a, V>(s: Seq<RangeFrame<'a, V>>) -> bool {
    forall|i: int| 0 <= i < s.len() ==> frame_ok(#[trigger] s[i])
}

/// The items still to come from a range stack, top of the stack first.
pub open spec fn range_items<'a, V>(s: Seq<RangeFrame<'a, V>>) -> Seq<(Seq<u8>, V)>
    decreases s.len(),
{
    if s.len() == 0 {
        Seq::empty()
    } else {
        frame_items(s.last()) + range_items(s.drop_last())
    }
}

/// Number of nodes in the subtrees on a range stack.
pub open spec fn range_size<'a, V>(s: Seq<RangeFrame<'a, V>>) -> nat
    decreases s.len(),
{
    if s.len() == 0 {
        0
    } else {
        size(*s.last().node) + range_size(s.drop_last())
    }
}

proof fn lemma_ranges_push<'a, V>(s: Seq<RangeFrame<'a, V>>, f: RangeFrame<'a, V>)
    requires
        ranges_ok(s),
        frame_ok(f),
    ensures
        ranges_ok(s.push(f)),
        range_items(s.push(f)) == frame_items(f) + range_items(s),
        range_size(s.push(f)) == size(*f.node) + range_size(s),
{
    assert(s.push(f).drop_last() =~= s);
    assert forall|i: int| 0 <= i < s.push(f).len() implies frame_ok(#[trigger] s.push(f)[i]) by {
        if i < s.len() {
            assert(s.push(f)[i] == s[i]);
        }
    }
}

/// What the bounds of an inner node's frame say about the byte after its full path.
pub open spec fn child_bounds(
    q: Seq<u8>,
    lo_byte: i16,
    hi_byte: i16,
    lo_on: bool,
    lo: Option<&[u8]>,
    hi_on: bool,
    hi: Option<&[u8]>,
) -> bool {
    &&& lo_on == lo is Some
    &&& hi_on == hi is Some
    &&& (lo matches Some(l) ==> l@.len() > q.len() && is_prefix(q, l@) && lo_byte == l@[q.len() as int] as i16)
    &&& (lo is None ==> lo_byte == -1)
    &&& (hi matches Some(h) ==> h@.len() > q.len() && is_prefix(q, h@) && hi_byte == h@[q.len() as int] as i16)
    &&& (hi is None ==> hi_byte == 256)
}

/// `f` is a frame for a child of inner node `node` (reached by `path`) whose byte lies
/// between the bound bytes, and it keeps a bound only if the child sits on that bound's byte.
pub open spec fn child_frame<'a, V>(node: Node<V>, path: Seq<u8>, lo_byte: i16, hi_byte: i16, f: RangeFrame<'a, V>) -> bool {
    let q = child_path(node, path);
    let c = f.path@.last();
    &&& f.path@.len() == q.len() + 1
    &&& f.path@ == q.push(c)
    &&& lo_byte <= c <= hi_byte
    &&& child(node, c) == Some(*f.node)
    &&& (f.lo is Some ==> c == lo_byte)
    &&& (f.hi is Some ==> c == hi_byte)
}

/// Going from stack `s1` to `s2` only pushed frames for children of `node` within the bounds.
pub open spec fn pushes_within<'a, V>(
    node: Node<V>,
    path: Seq<u8>,
    lo_byte: i16,
    hi_byte: i16,
    s1: Seq<RangeFrame<'a, V>>,
    s2: Seq<RangeFrame<'a, V>>,
) -> bool {
    &&& s1.len() <= s2.len()
    &&& s2.take(s1.len() as int) == s1
    &&& forall|i: int| s1.len() <= i < s2.len() ==> child_frame(node, path, lo_byte, hi_byte, #[trigger] s2[i])
}

proof fn lemma_pushes_within_trans<'a, V>(
    node: Node<V>,
    path: Seq<u8>,
    lo_byte: i16,
    hi_byte: i16,
    s1: Seq<RangeFrame<'a, V>>,
    s2: Seq<RangeFrame<'a, V>>,
    s3: Seq<RangeFrame<'a, V>>,
)
    requires
        pushes_within(node, path, lo_byte, hi_byte, s1, s2),
        pushes_within(node, path, lo_byte, hi_byte, s2, s3),
    ensures
        pushes_within(node, path, lo_byte, hi_byte, s1, s3),
{
    assert(s3.take(s1.len() as int) =~= s3.take(s2.len() as int).take(s1.len() as int));
    assert forall|i: int| s1.len() <= i < s3.len() implies child_frame(node, path, lo_byte, hi_byte, #[trigger] s3[i]) by {
        if i < s2.len() {
            assert(s3[i] == s3.take(s2.len() as int)[i]);
        }
    }
}

/// Pushes the frame for child `c` under `byte` if the byte is within the bounds; only the
/// child on a bound's own byte keeps that bound.
fn push_range_child<'a, V>(
    node: &'a Node<V>,
    byte: u8,
    c: &'a Node<V>,
    nd: usize,
    lo_byte: i16,
    hi_byte: i16,
    lo_on: bool,
    lo: Option<&'a [u8]>,
    hi_on: bool,
    hi: Option<&'a [u8]>,
    stack: &mut Vec<RangeFrame<'a, V>>,
    Ghost(path): Ghost<Seq<u8>>,
)
    requires
        wf(*node, path),
        !(*node is Leaf),
        child(*node, byte) == Some(*c),
        nd == child_path(*node, path).len(),
        child_bounds(child_path(*node, path), lo_byte, hi_byte, lo_on, lo, hi_on, hi),
        ranges_ok(old(stack)@),
    ensures
        ranges_ok(final(stack)@),
        range_items(final(stack)@) == select(items(*c), opt_view(lo), opt_view(hi)) + range_items(old(stack)@),
        range_size(final(stack)@) <= size(*c) + range_size(old(stack)@),
        pushes_within(*node, path, lo_byte, hi_byte, old(stack)@, final(stack)@),
{
    let ghost q = child_path(*node, path);
    let ghost qb = q.push(byte);
    proof {
        lemma_wf_child(*node, path, byte);
        lemma_child_path_bound(*node, path, byte);
        lemma_items_listing(*c, qb);
        lemma_entries_extend(*c, qb);
        // every key below the child runs through `byte` after the full path
        assert forall|i: int| 0 <= i < items(*c).len() implies {
            let k = #[trigger] items(*c)[i].0;
            k.len() > q.len() && k.take(q.len() as int) =~= q && k[q.len() as int] == byte
        } by {
            let k = items(*c)[i].0;
            assert(entries(*c).contains_key(k));
            assert(is_prefix(qb, k));
            assert(k.take(q.len() as int) =~= k.take(qb.len() as int).take(q.len() as int));
            assert(k.take(qb.len() as int)[q.len() as int] == qb[q.len() as int]);
        }
    }
    let ghost ci = items(*c);
    let b = byte as i16;
    if b < lo_byte || b > hi_byte {
        proof {
            assert forall|i: int| 0 <= i < ci.len() implies !in_bounds(#[trigger] ci[i].0, opt_view(lo), opt_view(hi)) by {
                let k = ci[i].0;
                if b < lo_byte {
                    let l = lo.unwrap()@;
                    assert(l.take(q.len() as int) =~= q);
                    lemma_lex_by_byte(k, l, q.len() as int);
                } else {
                    let h = hi.unwrap()@;
                    assert(h.take(q.len() as int) =~= q);
                    lemma_lex_by_byte(k, h, q.len() as int);
                }
            }
            lemma_select_none(ci, opt_view(lo), opt_view(hi));
            assert(stack@.take(stack@.len() as int) =~= stack@);
        }
        return;
    }
    let child_lo = if lo_on && b == lo_byte {
        lo
    } else {
        None
    };
    let child_hi = if hi_on && b == hi_byte {
        hi
    } else {
        None
    };
    proof {
        assert forall|i: int| 0 <= i < ci.len() implies in_bounds(#[trigger] ci[i].0, opt_view(lo), opt_view(hi))
            == in_bounds(ci[i].0, opt_view(child_lo), opt_view(child_hi)) by {
            let k = ci[i].0;
            if lo_on && b != lo_byte {
                let l = lo.unwrap()@;
                assert(l.take(q.len() as int) =~= q);
                lemma_lex_by_byte(k, l, q.len() as int);
                lemma_lex_asym(k, l);
            }
            if hi_on && b != hi_byte {
                let h = hi.unwrap()@;
                assert(h.take(q.len() as int) =~= q);
                lemma_lex_by_byte(k, h, q.len() as int);
                lemma_lex_asym(k, h);
            }
        }
        lemma_select_congruent(ci, opt_view(lo), opt_view(hi), opt_view(child_lo), opt_view(child_hi));
        if lo_on && b == lo_byte {
            let l = lo.unwrap()@;
            assert(l.take(qb.len() as int) =~= qb) by {
                assert(l.take(q.len() as int) =~= q);
            }
        }
        if hi_on && b == hi_byte {
            let h = hi.unwrap()@;
            assert(h.take(qb.len() as int) =~= qb) by {
                assert(h.take(q.len() as int) =~= q);
            }
        }
    }
    let f = RangeFrame { node: c, depth: nd + 1, lo: child_lo, hi: child_hi, path: Ghost(qb) };
    proof {
        lemma_ranges_push(stack@, f);
        assert(stack@.push(f).take(stack@.len() as int) =~= stack@);
        assert(qb.last() == byte);
        assert(child_frame(*node, path, lo_byte, hi_byte, f));
    }
    stack.push(f);
}

/// Pushes the children held in parallel sorted arrays that lie within the bounds, largest
/// byte first.
fn push_range_sorted_rev<'a, V>(
    node: &'a Node<V>,
    keys: &'a Vec<u8>,
    children: &'a Vec<Box<Node<V>>>,
    nd: usize,
    lo_byte: i16,
    hi_byte: i16,
    lo_on: bool,
    lo: Option<&'a [u8]>,
    hi_on: bool,
    hi: Option<&'a [u8]>,
    stack: &mut Vec<RangeFrame<'a, V>>,
    Ghost(path): Ghost<Seq<u8>>,
)
    requires
        wf(*node, path),
        !(*node is Leaf),
        sorted_keys(keys@),
        keys@.len() == children@.len(),
        forall|c: u8| #[trigger] child(*node, c) == sorted_child(keys@, children@, c),
        nd == child_path(*node, path).len(),
        child_bounds(child_path(*node, path), lo_byte, hi_byte, lo_on, lo, hi_on, hi),
        ranges_ok(old(stack)@),
    ensures
        ranges_ok(final(stack)@),
        range_items(final(stack)@) == select(items_from(*node, 0), opt_view(lo), opt_view(hi)) + range_items(old(stack)@),
        range_size(final(stack)@) <= size_from(*node, 0) + range_size(old(stack)@),
        pushes_within(*node, path, lo_byte, hi_byte, old(stack)@, final(stack)@),
{
    let ghost orig = stack@;
    let ghost lv = opt_view(lo);
    let ghost hv = opt_view(hi);
    let cnt = keys.len();
    let mut i = cnt;
    proof {
        assert(items_from(*node, 256) =~= Seq::<(Seq<u8>, V)>::empty());
        assert(select(Seq::<(Seq<u8>, V)>::empty(), lv, hv) =~= Seq::<(Seq<u8>, V)>::empty());
        assert(range_items(orig) =~= Seq::<(Seq<u8>, V)>::empty() + range_items(orig));
        assert(orig.take(orig.len() as int) =~= orig);
    }
    while i > 0
        invariant
            wf(*node, path),
            !(*node is Leaf),
            sorted_keys(keys@),
            keys@.len() == children@.len(),
            cnt == keys@.len(),
            forall|c: u8| #[trigger] child(*node, c) == sorted_child(keys@, children@, c),
            nd == child_path(*node, path).len(),
            child_bounds(child_path(*node, path), lo_byte, hi_byte, lo_on, lo, hi_on, hi),
            lv == opt_view(lo),
            hv == opt_view(hi),
            i <= cnt,
            ranges_ok(stack@),
            range_items(stack@) == select(items_from(*node, if i == cnt { 256 } else { keys@[i as int] as int }), lv, hv) + range_items(orig),
            range_size(stack@) <= size_from(*node, if i == cnt { 256 } else { keys@[i as int] as int }) + range_size(orig),
            pushes_within(*node, path, lo_byte, hi_byte, orig, stack@),
        decreases i,
    {
        let ghost hb: int = if i == cnt { 256 } else { keys@[i as int] as int };
        let ghost before = stack@;
        i = i - 1;
        let k = keys[i];
        proof {
            lemma_sorted_index_of(keys@, i as int);
            assert forall|c: u8| k < c < hb implies #[trigger] child(*node, c) is None by {
                if keys@.contains(c) {
                    let j = keys@.index_of(c);
                    if j <= i {
                        if j < i {
                            assert(keys@[j] < keys@[i as int]);
                        }
                    } else {
                        if j > i + 1 {
                            assert(keys@[i + 1] < keys@[j]);
                        }
                    }
                }
            }
            lemma_from_gap(*node, k as int + 1, hb);
            assert(child(*node, k) == Some(*children@[i as int]));
            lemma_select_concat(items(*children@[i as int]), items_from(*node, k as int + 1), lv, hv);
        }
        let ghost before_push = stack@;
        push_range_child(node, k, &*children[i], nd, lo_byte, hi_byte, lo_on, lo, hi_on, hi, stack, Ghost(path));
        proof {
            lemma_pushes_within_trans(*node, path, lo_byte, hi_byte, orig, before_push, stack@);
            assert(range_items(stack@) =~= select(items_from(*node, k as int), lv, hv) + range_items(orig));
        }
    }
    proof {
        let lb: int = if cnt == 0 { 256 } else { keys@[0] as int };
        assert forall|c: u8| 0 <= c < lb implies #[trigger] child(*node, c) is None by {
            if keys@.contains(c) {
                let j = keys@.index_of(c);
                if j > 0 {
                    assert(keys@[0] < keys@[j]);
                }
            }
        }
        lemma_from_gap(*node, 0, lb);
    }
}

/// Pushes the children of any kind that lie within the bounds by scanning every byte,
/// largest first.
fn push_range_indexed_rev<'a, V>(
    node: &'a Node<V>,
    nd: usize,
    lo_byte: i16,
    hi_byte: i16,
    lo_on: bool,
    lo: Option<&'a [u8]>,
    hi_on: bool,
    hi: Option<&'a [u8]>,
    stack: &mut Vec<RangeFrame<'a, V>>,
    Ghost(path): Ghost<Seq<u8>>,
)
    requires
        wf(*node, path),
        !(*node is Leaf),
        nd == child_path(*node, path).len(),
        child_bounds(child_path(*node, path), lo_byte, hi_byte, lo_on, lo, hi_on, hi),
        ranges_ok(old(stack)@),
    ensures
        ranges_ok(final(stack)@),
        range_items(final(stack)@) == select(items_from(*node, 0), opt_view(lo), opt_view(hi)) + range_items(old(stack)@),
        range_size(final(stack)@) <= size_from(*node, 0) + range_size(old(stack)@),
        pushes_within(*node, path, lo_byte, hi_byte, old(stack)@, final(stack)@),
{
    let ghost orig = stack@;
    let ghost lv = opt_view(lo);
    let ghost hv = opt_view(hi);
    let mut b: usize = 256;
    proof {
        assert(items_from(*node, 256) =~= Seq::<(Seq<u8>, V)>::empty());
        assert(select(Seq::<(Seq<u8>, V)>::empty(), lv, hv) =~= Seq::<(Seq<u8>, V)>::empty());
        assert(range_items(orig) =~= Seq::<(Seq<u8>, V)>::empty() + range_items(orig));
        assert(orig.take(orig.len() as int) =~= orig);
    }
    while b > 0
        invariant
            wf(*node, path),
            !(*node is Leaf),
            nd == child_path(*node, path).len(),
            child_bounds(child_path(*node, path), lo_byte, hi_byte, lo_on, lo, hi_on, hi),
            lv == opt_view(lo),
            hv == opt_view(hi),
            b <= 256,
            ranges_ok(stack@),
            range_items(stack@) == select(items_from(*node, b as int), lv, hv) + range_items(orig),
            range_size(stack@) <= size_from(*node, b as int) + range_size(orig),
            pushes_within(*node, path, lo_byte, hi_byte, orig, stack@),
        decreases b,
    {
        b = b - 1;
        match inner_find(node, b as u8) {
            Some(c) => {
                proof {
                    lemma_select_concat(items(*c), items_from(*node, b + 1), lv, hv);
                }
                let ghost before_push = stack@;
                push_range_child(node, b as u8, c, nd, lo_byte, hi_byte, lo_on, lo, hi_on, hi, stack, Ghost(path));
                proof {
                    lemma_pushes_within_trans(*node, path, lo_byte, hi_byte, orig, before_push, stack@);
                    assert(range_items(stack@) =~= select(items_from(*node, b as int), lv, hv) + range_items(orig));
                }
            },
            None => {},
        }
    }
}

/// Pushes the children of an inner node that lie within the bounds, so that the smallest
/// byte ends on top; a child keeps a bound only if it sits on that bound's own byte.
fn push_range_children_rev<'a, V>(
    node: &'a Node<V>,
    nd: usize,
    lo_byte: i16,
    hi_byte: i16,
    lo_on: bool,
    lo: Option<&'a [u8]>,
    hi_on: bool,
    hi: Option<&'a [u8]>,
    stack: &mut Vec<RangeFrame<'a, V>>,
    Ghost(path): Ghost<Seq<u8>>,
)
    requires
        wf(*node, path),
        !(*node is Leaf),
        nd == child_path(*node, path).len(),
        child_bounds(child_path(*node, path), lo_byte, hi_byte, lo_on, lo, hi_on, hi),
        ranges_ok(old(stack)@),
    ensures
        ranges_ok(final(stack)@),
        range_items(final(stack)@) == select(items_from(*node, 0), opt_view(lo), opt_view(hi)) + range_items(old(stack)@),
        range_size(final(stack)@) <= size_from(*node, 0) + range_size(old(stack)@),
        pushes_within(*node, path, lo_byte, hi_byte, old(stack)@, final(stack)@),
{
    match node {
        Node::N4(n) => push_range_sorted_rev(node, &n.keys, &n.children, nd, lo_byte, hi_byte, lo_on, lo, hi_on, hi, stack, Ghost(path)),
        Node::N16(n) => push_range_sorted_rev(node, &n.keys, &n.children, nd, lo_byte, hi_byte, lo_on, lo, hi_on, hi, stack, Ghost(path)),
        _ => push_range_indexed_rev(node, nd, lo_byte, hi_byte, lo_on, lo, hi_on, hi, stack, Ghost(path)),
    }
}

/// In-order iterator over a map's entries whose keys lie within optional inclusive bounds.
pub struct RangeIter<'a, V> {
    stack: Vec<RangeFrame<'a, V>>,
}

impl<'a, V> RangeIter<'a, V> {
    #[verifier::type_invariant]
    spec fn inv(self) -> bool {
        ranges_ok(self.stack@)
    }

    /// The entries this iterator has yet to yield, in order.
    pub closed spec fn remaining(&self) -> Seq<(Seq<u8>, V)> {
        range_items(self.stack@)
    }

    /// An iterator over the entries of the subtree `root` with keys between `lo` and `hi`,
    /// both included.
    pub(crate) fn new(root: Option<&'a Node<V>>, lo: Option<&'a [u8]>, hi: Option<&'a [u8]>) -> (r: Self)
        requires
            root matches Some(n) ==> wf(*n, Seq::empty()),
        ensures
            r.remaining() == match root {
                Some(n) => select(items(*n), opt_view(lo), opt_view(hi)),
                None => Seq::empty(),
            },
    {
        let mut stack: Vec<RangeFrame<'a, V>> = Vec::new();
        match root {
            Some(n) => {
                let f = RangeFrame { node: n, depth: 0, lo, hi, path: Ghost(Seq::empty()) };
                proof {
                    assert(lo matches Some(l) ==> l@.take(0) =~= Seq::<u8>::empty());
                    assert(hi matches Some(h) ==> h@.take(0) =~= Seq::<u8>::empty());
                    lemma_ranges_push(stack@, f);
                    assert(range_items(stack@.push(f)) =~= frame_items(f));
                }
                stack.push(f);
            },
            None => {},
        }
        RangeIter { stack }
    }

    /// Yields the next entry within the bounds in key order, if any.
    pub fn next(&mut self) -> (r: Option<(&'a [u8], &'a V)>)
        ensures
            old(self).remaining().len() == 0 ==> r is None && final(self).remaining() == old(self).remaining(),
            old(self).remaining().len() > 0 ==> {
                &&& r matches Some(kv)
                &&& (kv.0@, *kv.1) == old(self).remaining()[0]
                &&& final(self).remaining() == old(self).remaining().drop_first()
            },
    {
        proof {
            use_type_invariant(&*self);
        }
        let mut this = RangeIter { stack: Vec::new() };
        std::mem::swap(self, &mut this);
        proof {
            use_type_invariant(&this);
        }
        assert(this == *old(self));
        let RangeIter { mut stack } = this;
        let ghost rem = range_items(stack@);
        assert(rem == old(self).remaining());
        loop
            invariant
                ranges_ok(stack@),
                range_items(stack@) == rem,
                rem == old(self).remaining(),
            decreases range_size(stack@),
        {
            let ghost before = stack@;
            let frame = match stack.pop() {
                Some(f) => f,
                None => {
                    proof {
                        assert(rem.len() == 0);
                    }
                    *self = RangeIter { stack };
                    return None;
                },
            };
            proof {
                assert(stack@ == before.drop_last());
                assert(frame == before.last());
                assert(rem == frame_items(frame) + range_items(stack@));
                assert(ranges_ok(stack@)) by {
                    assert forall|i: int| 0 <= i < stack@.len() implies frame_ok(#[trigger] stack@[i]) by {
                        assert(stack@[i] == before[i]);
                    }
                }
                assert(frame_ok(before[before.len() - 1]));
            }
            let node = frame.node;
            let depth = frame.depth;
            let ghost path = frame.path@;
            let ghost lv0 = opt_view(frame.lo);
            let ghost hv0 = opt_view(frame.hi);
            let ghost rest = range_items(stack@);
            match node {
                Node::Leaf(leaf) => {
                    let kb = leaf.key.as_slice();
                    proof {
                        assert(items(*node) =~= seq![(leaf.key@, leaf.value)]);
                        lemma_select_single((leaf.key@, leaf.value), lv0, hv0);
                    }
                    if key_in_bounds(kb, frame.lo, frame.hi) {
                        proof {
                            assert(frame_items(frame) =~= seq![(leaf.key@, leaf.value)]);
                            assert(rem.drop_first() =~= rest);
                        }
                        *self = RangeIter { stack };
                        return Some((kb, &leaf.value));
                    }
                    proof {
                        assert(frame_items(frame) =~= Seq::<(Seq<u8>, V)>::empty());
                        assert(rem =~= rest);
                    }
                    continue;
                },
                _ => {},
            }
            let prefix = inner_prefix(node);
            let plen = prefix.len();
            let ghost q = child_path(*node, path);
            let ghost all = items(*node);
            proof {
                lemma_items_extend_inner(*node, path);
                assert(q == path + prefix@);
            }
            let nd = depth + plen;
            let mut lo = frame.lo;
            let mut hi = frame.hi;
            let lo_on = match lower_bound(prefix, depth, lo, Ghost(path)) {
                LowerBound::Prune => {
                    proof {
                        assert forall|i: int| 0 <= i < all.len() implies !in_bounds(#[trigger] all[i].0, lv0, hv0) by {
                            assert(is_prefix(q, all[i].0));
                        }
                        lemma_select_none(all, lv0, hv0);
                        assert(rem =~= rest);
                    }
                    continue;
                },
                LowerBound::Free => {
                    lo = None;
                    false
                },
                LowerBound::Follow(lo_bytes) => {
                    lo = Some(lo_bytes);
                    true
                },
            };
            proof {
                assert forall|i: int| 0 <= i < all.len() implies in_bounds(#[trigger] all[i].0, lv0, hv0)
                    == in_bounds(all[i].0, opt_view(lo), hv0) by {
                    assert(is_prefix(q, all[i].0));
                }
                lemma_select_congruent(all, lv0, hv0, opt_view(lo), hv0);
            }
            let hi_on = match upper_bound(prefix, depth, hi, Ghost(path)) {
                UpperBound::Prune => {
                    proof {
                        assert forall|i: int| 0 <= i < all.len() implies !in_bounds(#[trigger] all[i].0, opt_view(lo), hv0) by {
                            assert(is_prefix(q, all[i].0));
                            lemma_lex_asym(hv0.unwrap(), all[i].0);
                        }
                        lemma_select_none(all, opt_view(lo), hv0);
                        assert(rem =~= rest);
                    }
                    continue;
                },
                UpperBound::Free => {
                    hi = None;
                    false
                },
                UpperBound::Follow(hi_bytes) => {
                    hi = Some(hi_bytes);
                    true
                },
                UpperBound::OwnOnly(hi_bytes) => {
                    let ghost vi = value_items(hdr(*node));
                    let ghost fr = items_from(*node, 0);
                    proof {
                        let h = hi_bytes@;
                        assert(all == vi + fr);
                        lemma_items_from_listing(*node, path, 0);
                        assert forall|i: int| 0 <= i < fr.len() implies !in_bounds(#[trigger] fr[i].0, opt_view(lo), hv0) by {
                            assert(all[vi.len() + i] == fr[i]);
                            let k = fr[i].0;
                            assert(is_prefix(q, k));
                            assert(k.len() > q.len());
                            lemma_prefix_trans(h, q, k);
                            lemma_lex_prefix(h, k);
                            lemma_lex_asym(h, k);
                        }
                        lemma_select_none(fr, opt_view(lo), hv0);
                        lemma_select_concat(vi, fr, opt_view(lo), hv0);
                        assert(select(vi, opt_view(lo), hv0) + Seq::<(Seq<u8>, V)>::empty() =~= select(vi, opt_view(lo), hv0));
                        if hdr(*node).value is Some {
                            let kv = hdr(*node).value.unwrap();
                            assert(vi =~= seq![(kv.0@, kv.1)]);
                            lemma_select_single((kv.0@, kv.1), opt_view(lo), hv0);
                        }
                    }
                    match inner_value_in_lex_range(node, lo, Some(hi_bytes)) {
                        Some(kv) => {
                            proof {
                                assert(rem.drop_first() =~= rest);
                            }
                            *self = RangeIter { stack };
                            return Some(kv);
                        },
                        None => {
                            proof {
                                assert(rem =~= rest);
                            }
                            continue;
                        },
                    }
                },
            };
            proof {
                assert forall|i: int| 0 <= i < all.len() implies in_bounds(#[trigger] all[i].0, opt_view(lo), hv0)
                    == in_bounds(all[i].0, opt_view(lo), opt_view(hi)) by {
                    assert(is_prefix(q, all[i].0));
                }
                lemma_select_congruent(all, opt_view(lo), hv0, opt_view(lo), opt_view(hi));
            }
            let lo_byte: i16 = match lo {
                Some(l) => l[nd] as i16,
                None => -1,
            };
            let hi_byte: i16 = match hi {
                Some(h) => h[nd] as i16,
                None => 256,
            };
            push_range_children_rev(node, nd, lo_byte, hi_byte, lo_on, lo, hi_on, hi, &mut stack, Ghost(path));
            let ghost vi = value_items(hdr(*node));
            let ghost fr = items_from(*node, 0);
            proof {
                lemma_select_concat(vi, fr, opt_view(lo), opt_view(hi));
                if hdr(*node).value is Some {
                    let kv = hdr(*node).value.unwrap();
                    assert(vi =~= seq![(kv.0@, kv.1)]);
                    lemma_select_single((kv.0@, kv.1), opt_view(lo), opt_view(hi));
                }
            }
            match inner_value_in_lex_range(node, lo, hi) {
                Some(kv) => {
                    proof {
                        assert(rem.drop_first() =~= range_items(stack@));
                    }
                    *self = RangeIter { stack };
                    return Some(kv);
                },
                None => {
                    proof {
                        assert(range_items(stack@) =~= rem);
                    }
                },
            }
        }
    }
}

} // verus!
