//! Node representations: leaves and the four adaptive inner-node kinds.
use vstd::prelude::*;
use crate::prefix::Prefix;

verus! {

/// Marks an unused byte in a `Node48` index.
pub const EMPTY_SLOT: u8 = 0xFF;

/// A stored key with its value; the key is kept whole so that lookups can verify it.
pub struct Leaf<V> {
    pub key: Vec<u8>,
    pub value: V,
}

/// A value stored on an inner node: the full key and its value.
pub type InnerValue<V> = Option<(Vec<u8>, V)>;

/// What every inner node carries besides its children.
pub struct NodeHeader<V> {
    pub prefix: Prefix,
    pub value: InnerValue<V>,
    pub count: u16,
}

/// Up to 4 children, keys sorted, searched linearly.
pub struct Node4<V> {
    pub header: NodeHeader<V>,
    pub keys: Vec<u8>,
    pub children: Vec<Box<Node<V>>>,
}

/// Up to 16 children, keys sorted, searched by binary search.
pub struct Node16<V> {
    pub header: NodeHeader<V>,
    pub keys: Vec<u8>,
    pub children: Vec<Box<Node<V>>>,
}

/// Up to 48 children: a 256-entry byte index into 48 slots.
pub struct Node48<V> {
    pub header: NodeHeader<V>,
    pub index: Vec<u8>,
    pub slots: Vec<Option<Box<Node<V>>>>,
}

/// Up to 256 children, indexed directly by byte.
pub struct Node256<V> {
    pub header: NodeHeader<V>,
    pub children: Vec<Option<Box<Node<V>>>>,
}

/// A tree node: a leaf or one of the inner-node kinds.
pub enum Node<V> {
    Leaf(Leaf<V>),
    N4(Node4<V>),
    N16(Node16<V>),
    N48(Node48<V>),
    N256(Node256<V>),
}

// ---------------------------------------------------------------------------
// Counting
// ---------------------------------------------------------------------------

/// Number of `true` entries.
pub open spec fn count_true(s: Seq<bool>) -> nat
    decreases s.len(),
{
    if s.len() == 0 {
        0
    } else {
        count_true(s.drop_last()) + (if s.last() {
            1nat
        } else {
            0nat
        })
    }
}

/// Which bytes of a `Node48` index are in use.
pub open spec fn used(index: Seq<u8>) -> Seq<bool> {
    index.map_values(|x: u8| x != EMPTY_SLOT)
}

/// Which slots hold a child.
pub open spec fn occupied<V>(slots: Seq<Option<Box<Node<V>>>>) -> Seq<bool> {
    slots.map_values(|o: Option<Box<Node<V>>>| o is Some)
}

/// Counting a prefix one element longer adds that element's count.
pub proof fn lemma_count_true_take(s: Seq<bool>, i: int)
    requires
        0 <= i < s.len(),
    ensures
        count_true(s.take(i + 1)) == count_true(s.take(i)) + (if s[i] {
            1nat
        } else {
            0nat
        }),
{
    assert(s.take(i + 1).drop_last() =~= s.take(i));
}

/// How the count changes when one element is replaced.
pub proof fn lemma_count_true_update(s: Seq<bool>, i: int, x: bool)
    requires
        0 <= i < s.len(),
    ensures
        count_true(s.update(i, x)) + (if s[i] {
            1nat
        } else {
            0nat
        }) == count_true(s) + (if x {
            1nat
        } else {
            0nat
        }),
    decreases s.len(),
{
    if i == s.len() - 1 {
        assert(s.update(i, x).drop_last() =~= s.drop_last());
    } else {
        assert(s.update(i, x).drop_last() =~= s.drop_last().update(i, x));
        lemma_count_true_update(s.drop_last(), i, x);
    }
}

/// A count never exceeds the length.
pub proof fn lemma_count_true_le(s: Seq<bool>)
    ensures
        count_true(s) <= s.len(),
    decreases s.len(),
{
    if s.len() > 0 {
        lemma_count_true_le(s.drop_last());
    }
}

/// Fewer `true`s than entries means some entry is `false`.
pub proof fn lemma_count_true_has_false(s: Seq<bool>)
    requires
        count_true(s) < s.len(),
    ensures
        exists|i: int| 0 <= i < s.len() && !s[i],
    decreases s.len(),
{
    if s.last() {
        lemma_count_true_has_false(s.drop_last());
        let i = choose|i: int| 0 <= i < s.drop_last().len() && !s.drop_last()[i];
        assert(!s[i]);
    } else {
        assert(!s[s.len() - 1]);
    }
}

/// No `true`s means every entry is `false`.
pub proof fn lemma_count_true_zero(s: Seq<bool>)
    requires
        count_true(s) == 0,
    ensures
        forall|i: int| 0 <= i < s.len() ==> !s[i],
    decreases s.len(),
{
    if s.len() > 0 {
        lemma_count_true_zero(s.drop_last());
        assert forall|i: int| 0 <= i < s.len() implies !s[i] by {
            if i < s.len() - 1 {
                assert(s.drop_last()[i] == s[i]);
            }
        }
    }
}

/// Every entry `false` means no `true`s.
pub proof fn lemma_count_true_all_false(s: Seq<bool>)
    requires
        forall|i: int| 0 <= i < s.len() ==> !s[i],
    ensures
        count_true(s) == 0,
    decreases s.len(),
{
    if s.len() > 0 {
        lemma_count_true_all_false(s.drop_last());
    }
}

/// Counting over a prefix never exceeds the total count.
pub proof fn lemma_count_true_take_le(s: Seq<bool>, i: int)
    requires
        0 <= i <= s.len(),
    ensures
        count_true(s.take(i)) <= count_true(s),
    decreases s.len() - i,
{
    if i == s.len() {
        assert(s.take(i) =~= s);
    } else {
        lemma_count_true_take(s, i);
        lemma_count_true_take_le(s, i + 1);
    }
}

// ---------------------------------------------------------------------------
// Per-kind shape and children
// ---------------------------------------------------------------------------

/// Keys strictly increasing.
pub open spec fn sorted_keys(keys: Seq<u8>) -> bool {
    forall|i: int, j: int| 0 <= i < j < keys.len() ==> keys[i] < keys[j]
}

/// Shape of a node whose children sit in parallel sorted arrays.
pub open spec fn sorted_shape<V>(
    h: NodeHeader<V>,
    keys: Seq<u8>,
    children: Seq<Box<Node<V>>>,
    cap: nat,
) -> bool {
    &&& keys.len() == children.len()
    &&& keys.len() == h.count
    &&& h.count <= cap
    &&& sorted_keys(keys)
    &&& h.prefix.wf()
}

/// The child under byte `b` in parallel sorted arrays.
pub open spec fn sorted_child<V>(keys: Seq<u8>, children: Seq<Box<Node<V>>>, b: u8) -> Option<
    Node<V>,
> {
    if keys.contains(b) && keys.index_of(b) < children.len() {
        Some(*children[keys.index_of(b)])
    } else {
        None
    }
}

/// In sorted keys, the position found for a key is its own position.
pub proof fn lemma_sorted_index_of(keys: Seq<u8>, i: int)
    requires
        sorted_keys(keys),
        0 <= i < keys.len(),
    ensures
        keys.contains(keys[i]),
        keys.index_of(keys[i]) == i,
{
    assert(keys.contains(keys[i]));
    let j = keys.index_of(keys[i]);
    assert(keys[j] == keys[i]);
    if j < i {
        assert(keys[j] < keys[i]);
    } else if j > i {
        assert(keys[i] < keys[j]);
    }
}

impl<V> Node4<V> {
    /// The node's layout is valid.
    pub open spec fn shape(&self) -> bool {
        sorted_shape(self.header, self.keys@, self.children@, 4)
    }

    /// The child under byte `b`, if any.
    pub open spec fn child(&self, b: u8) -> Option<Node<V>> {
        sorted_child(self.keys@, self.children@, b)
    }
}

impl<V> Node16<V> {
    /// The node's layout is valid.
    pub open spec fn shape(&self) -> bool {
        sorted_shape(self.header, self.keys@, self.children@, 16)
    }

    /// The child under byte `b`, if any.
    pub open spec fn child(&self, b: u8) -> Option<Node<V>> {
        sorted_child(self.keys@, self.children@, b)
    }
}

impl<V> Node48<V> {
    /// The node's layout is valid.
    pub open spec fn shape(&self) -> bool {
        &&& self.index@.len() == 256
        &&& self.slots@.len() == 48
        &&& self.header.count <= 48
        &&& self.header.prefix.wf()
        &&& forall|b: int|
            0 <= b < 256 && #[trigger] self.index@[b] != EMPTY_SLOT ==> {
                &&& self.index@[b] < 48
                &&& self.slots@[self.index@[b] as int] is Some
            }
        &&& forall|b1: int, b2: int|
            0 <= b1 < 256 && 0 <= b2 < 256 && #[trigger] self.index@[b1] != EMPTY_SLOT
                && self.index@[b1] == #[trigger] self.index@[b2] ==> b1 == b2
        &&& self.header.count == count_true(used(self.index@))
        &&& self.header.count == count_true(occupied(self.slots@))
    }

    /// The child under byte `b`, if any.
    pub open spec fn child(&self, b: u8) -> Option<Node<V>> {
        if self.index@[b as int] != EMPTY_SLOT && (self.index@[b as int] as int) < self.slots@.len()
            && self.slots@[self.index@[b as int] as int] is Some {
            Some(*self.slots@[self.index@[b as int] as int].unwrap())
        } else {
            None
        }
    }
}

impl<V> Node256<V> {
    /// The node's layout is valid.
    pub open spec fn shape(&self) -> bool {
        &&& self.children@.len() == 256
        &&& self.header.count == count_true(occupied(self.children@))
        &&& self.header.prefix.wf()
    }

    /// The child under byte `b`, if any.
    pub open spec fn child(&self, b: u8) -> Option<Node<V>> {
        if (b as int) < self.children@.len() && self.children@[b as int] is Some {
            Some(*self.children@[b as int].unwrap())
        } else {
            None
        }
    }
}

/// The node a reference points to, if any.
pub open spec fn deref_opt<V>(r: Option<&Node<V>>) -> Option<Node<V>> {
    match r {
        Some(c) => Some(*c),
        None => None,
    }
}

// ---------------------------------------------------------------------------
// Node4
// ---------------------------------------------------------------------------

impl<V> Node4<V> {
    /// An empty node with no prefix and no entry of its own.
    pub fn new() -> (r: Self)
        ensures
            r.shape(),
            r.header.count == 0,
            r.header.value is None,
            r.header.prefix@ =~= Seq::<u8>::empty(),
            forall|b: u8| r.child(b) is None,
    {
        Node4 {
            header: NodeHeader { prefix: Prefix::empty(), value: None, count: 0 },
            keys: Vec::new(),
            children: Vec::new(),
        }
    }

    /// The child under byte `b`, if any.
    pub fn find_child(&self, b: u8) -> (r: Option<&Node<V>>)
        requires
            self.shape(),
        ensures
            deref_opt(r) == self.child(b),
    {
        let cnt = self.header.count as usize;
        let mut i: usize = 0;
        while i < cnt
            invariant
                self.shape(),
                cnt == self.keys@.len(),
                i <= cnt,
                forall|j: int| 0 <= j < i ==> self.keys@[j] != b,
            decreases cnt - i,
        {
            if self.keys[i] == b {
                proof {
                    lemma_sorted_index_of(self.keys@, i as int);
                }
                return Some(&*self.children[i]);
            }
            i += 1;
        }
        None
    }

    /// Adds `child` under byte `b`, which must be free; the node must have room.
    pub fn add_child(&mut self, b: u8, child: Box<Node<V>>)
        requires
            old(self).shape(),
            old(self).child(b) is None,
            old(self).header.count < 4,
        ensures
            final(self).shape(),
            final(self).header.count == old(self).header.count + 1,
            final(self).header.prefix == old(self).header.prefix,
            final(self).header.value == old(self).header.value,
            final(self).child(b) == Some(*child),
            forall|c: u8| c != b ==> final(self).child(c) == old(self).child(c),
    {
        let pos = sorted_insert_pos(&self.keys, b);
        insert_sorted(&mut self.keys, &mut self.children, pos, b, child);
        self.header.count = self.header.count + 1;
    }

    /// Puts `c` in place of the child under byte `b`, which must exist, and returns that child.
    pub fn replace_child(&mut self, b: u8, c: Node<V>) -> (r: Node<V>)
        requires
            old(self).shape(),
            old(self).child(b) is Some,
        ensures
            final(self).shape(),
            final(self).header == old(self).header,
            final(self).keys == old(self).keys,
            r == old(self).child(b).unwrap(),
            final(self).child(b) == Some(c),
            forall|x: u8| x != b ==> final(self).child(x) == old(self).child(x),
    {
        let i = sorted_search(&self.keys, b).unwrap();
        proof {
            lemma_sorted_index_of(self.keys@, i as int);
        }
        let mut c = c;
        let slot = &mut self.children[i];
        std::mem::swap(&mut **slot, &mut c);
        c
    }

    /// Detaches and returns the child under byte `b`, if any.
    pub fn remove_child(&mut self, b: u8) -> (r: Option<Box<Node<V>>>)
        requires
            old(self).shape(),
        ensures
            final(self).shape(),
            r is Some <==> old(self).child(b) is Some,
            r is Some ==> *r.unwrap() == old(self).child(b).unwrap(),
            final(self).header.count == old(self).header.count - (if r is Some {
                1int
            } else {
                0int
            }),
            final(self).header.prefix == old(self).header.prefix,
            final(self).header.value == old(self).header.value,
            final(self).child(b) is None,
            forall|c: u8| c != b ==> final(self).child(c) == old(self).child(c),
            r is None ==> *final(self) == *old(self),
    {
        let cnt = self.header.count as usize;
        let mut i: usize = 0;
        while i < cnt
            invariant
                self == old(self),
                self.shape(),
                cnt == self.keys@.len(),
                i <= cnt,
                forall|j: int| 0 <= j < i ==> self.keys@[j] != b,
            decreases cnt - i,
        {
            if self.keys[i] == b {
                let c = remove_sorted(&mut self.keys, &mut self.children, i, Ghost(b));
                self.header.count = self.header.count - 1;
                return Some(c);
            }
            i += 1;
        }
        None
    }

    /// The children in increasing byte order.
    pub fn get_children(&self) -> (r: Vec<(u8, &Node<V>)>)
        requires
            self.shape(),
        ensures
            r@.len() == self.header.count,
            listing_sorted(r@),
            forall|i: int| 0 <= i < r@.len() ==> self.child(#[trigger] r@[i].0) == Some(*r@[i].1),
            forall|c: u8| #[trigger] self.child(c) is Some ==> exists|i: int| 0 <= i < r@.len() && r@[i].0 == c,
    {
        sorted_children_listing(&self.keys, &self.children)
    }

    /// The same children and header in a `Node16`.
    pub fn grow(self) -> (r: Node16<V>)
        requires
            self.shape(),
        ensures
            r.shape(),
            r.header.count == self.header.count,
            r.header.prefix == self.header.prefix,
            r.header.value == self.header.value,
            forall|c: u8| r.child(c) == self.child(c),
    {
        let mut old = self;
        let mut new = Node16::<V>::new();
        old.header.move_to(&mut new.header);
        new.header.count = old.header.count;
        Node16 { header: new.header, keys: old.keys, children: old.children }
    }
}

// ---------------------------------------------------------------------------
// Node16
// ---------------------------------------------------------------------------

/// Index of `b` among sorted keys, by binary search.
fn sorted_search(keys: &Vec<u8>, b: u8) -> (r: Option<usize>)
    requires
        sorted_keys(keys@),
    ensures
        r is Some <==> keys@.contains(b),
        r matches Some(i) ==> i < keys@.len() && keys@[i as int] == b,
{
    let mut lo: usize = 0;
    let mut hi: usize = keys.len();
    while lo < hi
        invariant
            sorted_keys(keys@),
            lo <= hi <= keys@.len(),
            forall|j: int| 0 <= j < lo ==> keys@[j] < b,
            forall|j: int| hi <= j < keys@.len() ==> keys@[j] > b,
        decreases hi - lo,
    {
        let mid = lo + (hi - lo) / 2;
        if keys[mid] == b {
            return Some(mid);
        } else if keys[mid] < b {
            lo = mid + 1;
        } else {
            hi = mid;
        }
    }
    proof {
        if keys@.contains(b) {
            let j = keys@.index_of(b);
            assert(keys@[j] == b);
        }
    }
    None
}

impl<V> Node16<V> {
    /// An empty node with no prefix and no entry of its own.
    pub fn new() -> (r: Self)
        ensures
            r.shape(),
            r.header.count == 0,
            r.header.value is None,
            r.header.prefix@ =~= Seq::<u8>::empty(),
            forall|b: u8| r.child(b) is None,
    {
        Node16 {
            header: NodeHeader { prefix: Prefix::empty(), value: None, count: 0 },
            keys: Vec::new(),
            children: Vec::new(),
        }
    }

    /// The child under byte `b`, if any.
    pub fn find_child(&self, b: u8) -> (r: Option<&Node<V>>)
        requires
            self.shape(),
        ensures
            deref_opt(r) == self.child(b),
    {
        match sorted_search(&self.keys, b) {
            Some(i) => {
                proof {
                    lemma_sorted_index_of(self.keys@, i as int);
                }
                Some(&*self.children[i])
            },
            None => None,
        }
    }

    /// Adds `child` under byte `b`, which must be free; the node must have room.
    pub fn add_child(&mut self, b: u8, child: Box<Node<V>>)
        requires
            old(self).shape(),
            old(self).child(b) is None,
            old(self).header.count < 16,
        ensures
            final(self).shape(),
            final(self).header.count == old(self).header.count + 1,
            final(self).header.prefix == old(self).header.prefix,
            final(self).header.value == old(self).header.value,
            final(self).child(b) == Some(*child),
            forall|c: u8| c != b ==> final(self).child(c) == old(self).child(c),
    {
        let pos = sorted_insert_pos(&self.keys, b);
        insert_sorted(&mut self.keys, &mut self.children, pos, b, child);
        self.header.count = self.header.count + 1;
    }

    /// Puts `c` in place of the child under byte `b`, which must exist, and returns that child.
    pub fn replace_child(&mut self, b: u8, c: Node<V>) -> (r: Node<V>)
        requires
            old(self).shape(),
            old(self).child(b) is Some,
        ensures
            final(self).shape(),
            final(self).header == old(self).header,
            final(self).keys == old(self).keys,
            r == old(self).child(b).unwrap(),
            final(self).child(b) == Some(c),
            forall|x: u8| x != b ==> final(self).child(x) == old(self).child(x),
    {
        let i = sorted_search(&self.keys, b).unwrap();
        proof {
            lemma_sorted_index_of(self.keys@, i as int);
        }
        let mut c = c;
        let slot = &mut self.children[i];
        std::mem::swap(&mut **slot, &mut c);
        c
    }

    /// Detaches and returns the child under byte `b`, if any.
    pub fn remove_child(&mut self, b: u8) -> (r: Option<Box<Node<V>>>)
        requires
            old(self).shape(),
        ensures
            final(self).shape(),
            r is Some <==> old(self).child(b) is Some,
            r is Some ==> *r.unwrap() == old(self).child(b).unwrap(),
            final(self).header.count == old(self).header.count - (if r is Some {
                1int
            } else {
                0int
            }),
            final(self).header.prefix == old(self).header.prefix,
            final(self).header.value == old(self).header.value,
            final(self).child(b) is None,
            forall|c: u8| c != b ==> final(self).child(c) == old(self).child(c),
            r is None ==> *final(self) == *old(self),
    {
        match sorted_search(&self.keys, b) {
            Some(pos) => {
                let c = remove_sorted(&mut self.keys, &mut self.children, pos, Ghost(b));
                self.header.count = self.header.count - 1;
                Some(c)
            },
            None => None,
        }
    }

    /// The children in increasing byte order.
    pub fn get_children(&self) -> (r: Vec<(u8, &Node<V>)>)
        requires
            self.shape(),
        ensures
            r@.len() == self.header.count,
            listing_sorted(r@),
            forall|i: int| 0 <= i < r@.len() ==> self.child(#[trigger] r@[i].0) == Some(*r@[i].1),
            forall|c: u8| #[trigger] self.child(c) is Some ==> exists|i: int| 0 <= i < r@.len() && r@[i].0 == c,
    {
        sorted_children_listing(&self.keys, &self.children)
    }

    /// The same children and header in a `Node4`; needs at most 4 children.
    pub fn shrink(self) -> (r: Node4<V>)
        requires
            self.shape(),
            self.header.count <= 4,
        ensures
            r.shape(),
            r.header.count == self.header.count,
            r.header.prefix == self.header.prefix,
            r.header.value == self.header.value,
            forall|c: u8| r.child(c) == self.child(c),
    {
        let mut old = self;
        let mut new = Node4::<V>::new();
        old.header.move_to(&mut new.header);
        new.header.count = old.header.count;
        Node4 { header: new.header, keys: old.keys, children: old.children }
    }
}

impl<V> NodeHeader<V> {
    /// Moves the prefix and value to `dst`, leaving this header empty of them.
    pub fn move_to(&mut self, dst: &mut NodeHeader<V>)
        ensures
            final(dst).prefix == old(self).prefix,
            final(dst).value == old(self).value,
            final(dst).count == old(dst).count,
            final(self).count == old(self).count,
            final(self).value is None,
            final(self).prefix@ == Seq::<u8>::empty(),
    {
        let mut p = Prefix::empty();
        std::mem::swap(&mut p, &mut self.prefix);
        dst.prefix = p;
        dst.value = self.value.take();
    }
}

// ---------------------------------------------------------------------------
// Parallel sorted arrays (Node4, Node16)
// ---------------------------------------------------------------------------

/// Position of the first key greater than `b`, or the number of keys.
fn sorted_insert_pos(keys: &Vec<u8>, b: u8) -> (pos: usize)
    requires
        sorted_keys(keys@),
    ensures
        pos <= keys@.len(),
        forall|j: int| 0 <= j < pos ==> keys@[j] <= b,
        forall|j: int| pos <= j < keys@.len() ==> keys@[j] > b,
{
    let mut i: usize = 0;
    while i < keys.len()
        invariant
            sorted_keys(keys@),
            i <= keys@.len(),
            forall|j: int| 0 <= j < i ==> keys@[j] <= b,
        decreases keys@.len() - i,
    {
        if keys[i] > b {
            return i;
        }
        i += 1;
    }
    i
}

/// Inserts `(b, child)` at `pos`, keeping keys sorted.
fn insert_sorted<V>(
    keys: &mut Vec<u8>,
    children: &mut Vec<Box<Node<V>>>,
    pos: usize,
    b: u8,
    child: Box<Node<V>>,
)
    requires
        sorted_keys(old(keys)@),
        old(keys)@.len() == old(children)@.len(),
        !old(keys)@.contains(b),
        pos <= old(keys)@.len(),
        forall|j: int| 0 <= j < pos ==> old(keys)@[j] <= b,
        forall|j: int| pos <= j < old(keys)@.len() ==> old(keys)@[j] > b,
    ensures
        final(keys)@ == old(keys)@.insert(pos as int, b),
        final(children)@ == old(children)@.insert(pos as int, child),
        sorted_keys(final(keys)@),
        sorted_child(final(keys)@, final(children)@, b) == Some(*child),
        forall|c: u8|
            c != b ==> sorted_child(final(keys)@, final(children)@, c) == sorted_child(
                old(keys)@,
                old(children)@,
                c,
            ),
{
    let ghost ok = keys@;
    let ghost oc = children@;
    keys.insert(pos, b);
    children.insert(pos, child);
    let ghost nk = keys@;
    let ghost nc = children@;
    proof {
        assert forall|j: int| 0 <= j < pos implies ok[j] < b by {
            assert(ok[j] <= b);
            if ok[j] == b {
                assert(ok.contains(b));
            }
        }
        assert(sorted_keys(nk)) by {
            assert forall|i: int, j: int| 0 <= i < j < nk.len() implies nk[i] < nk[j] by {
                if j < pos {
                    assert(nk[i] == ok[i] && nk[j] == ok[j]);
                } else if j == pos {
                    assert(nk[i] == ok[i]);
                } else if i < pos {
                    assert(nk[i] == ok[i] && nk[j] == ok[j - 1]);
                    assert(ok[j - 1] > b);
                } else if i == pos {
                    assert(nk[j] == ok[j - 1]);
                } else {
                    assert(nk[i] == ok[i - 1] && nk[j] == ok[j - 1]);
                }
            }
        }
        lemma_sorted_index_of(nk, pos as int);
        assert(nk[pos as int] == b);
        assert forall|c: u8| c != b implies sorted_child(nk, nc, c) == sorted_child(ok, oc, c) by {
            if ok.contains(c) {
                let i = ok.index_of(c);
                lemma_sorted_index_of(ok, i);
                if i < pos {
                    assert(nk[i] == c);
                    lemma_sorted_index_of(nk, i);
                } else {
                    assert(nk[i + 1] == c);
                    lemma_sorted_index_of(nk, i + 1);
                }
            } else {
                if nk.contains(c) {
                    let i = nk.index_of(c);
                    if i < pos {
                        assert(ok[i] == c);
                    } else if i > pos {
                        assert(ok[i - 1] == c);
                    }
                }
            }
        }
    }
}

/// Removes the entry at `pos` from parallel sorted arrays.
fn remove_sorted<V>(keys: &mut Vec<u8>, children: &mut Vec<Box<Node<V>>>, pos: usize, Ghost(b): Ghost<u8>) -> (r: Box<Node<V>>)
    requires
        sorted_keys(old(keys)@),
        old(keys)@.len() == old(children)@.len(),
        pos < old(keys)@.len(),
        old(keys)@[pos as int] == b,
    ensures
        final(keys)@ == old(keys)@.remove(pos as int),
        final(children)@ == old(children)@.remove(pos as int),
        sorted_child(old(keys)@, old(children)@, b) == Some(*r),
        sorted_keys(final(keys)@),
        sorted_child(final(keys)@, final(children)@, b) is None,
        forall|c: u8|
            c != b ==> sorted_child(final(keys)@, final(children)@, c) == sorted_child(
                old(keys)@,
                old(children)@,
                c,
            ),
{
    let ghost ok = keys@;
    let ghost oc = children@;
    keys.remove(pos);
    let r = children.remove(pos);
    let ghost nk = keys@;
    let ghost nc = children@;
    proof {
        lemma_sorted_index_of(ok, pos as int);
        assert(sorted_keys(nk)) by {
            assert forall|i: int, j: int| 0 <= i < j < nk.len() implies nk[i] < nk[j] by {
                if j < pos {
                    assert(nk[i] == ok[i] && nk[j] == ok[j]);
                } else if i < pos {
                    assert(nk[i] == ok[i] && nk[j] == ok[j + 1]);
                } else {
                    assert(nk[i] == ok[i + 1] && nk[j] == ok[j + 1]);
                }
            }
        }
        if nk.contains(b) {
            let i = nk.index_of(b);
            if i < pos {
                assert(ok[i] == b);
                assert(ok[i] < ok[pos as int]);
            } else {
                assert(ok[i + 1] == b);
                assert(ok[pos as int] < ok[i + 1]);
            }
        }
        assert forall|c: u8| c != b implies sorted_child(nk, nc, c) == sorted_child(ok, oc, c) by {
            if ok.contains(c) {
                let i = ok.index_of(c);
                lemma_sorted_index_of(ok, i);
                if i < pos {
                    assert(nk[i] == c);
                    lemma_sorted_index_of(nk, i);
                } else {
                    assert(i != pos);
                    assert(nk[i - 1] == c);
                    lemma_sorted_index_of(nk, i - 1);
                }
            } else {
                if nk.contains(c) {
                    let i = nk.index_of(c);
                    if i < pos {
                        assert(ok[i] == c);
                    } else {
                        assert(ok[i + 1] == c);
                    }
                }
            }
        }
    }
    r
}

/// Bytes strictly increasing along a children listing.
pub open spec fn listing_sorted<V>(r: Seq<(u8, &Node<V>)>) -> bool {
    forall|i: int, j: int| 0 <= i < j < r.len() ==> r[i].0 < r[j].0
}

fn sorted_children_listing<'a, V>(keys: &'a Vec<u8>, children: &'a Vec<Box<Node<V>>>) -> (r: Vec<(u8, &'a Node<V>)>)
    requires
        sorted_keys(keys@),
        keys@.len() == children@.len(),
    ensures
        r@.len() == keys@.len(),
        listing_sorted(r@),
        forall|i: int| 0 <= i < r@.len() ==> sorted_child(keys@, children@, #[trigger] r@[i].0) == Some(*r@[i].1),
        forall|c: u8| #[trigger] sorted_child(keys@, children@, c) is Some ==> exists|i: int| 0 <= i < r@.len() && r@[i].0 == c,
{
    let mut r: Vec<(u8, &'a Node<V>)> = Vec::new();
    let mut i: usize = 0;
    while i < keys.len()
        invariant
            sorted_keys(keys@),
            keys@.len() == children@.len(),
            i <= keys@.len(),
            r@.len() == i,
            forall|j: int| 0 <= j < i ==> r@[j].0 == keys@[j] && *r@[j].1 == *children@[j],
        decreases keys@.len() - i,
    {
        let c: &'a Node<V> = &*children[i];
        let ghost r0 = r@;
        r.push((keys[i], c));
        assert(r@ == r0.push((keys@[i as int], c)));
        assert forall|j: int| 0 <= j < i + 1 implies r@[j].0 == keys@[j] && *r@[j].1 == *children@[j] by {
            if j < i {
                assert(r@[j] == r0[j]);
            }
        }
        i += 1;
    }
    proof {
        assert forall|x: int, y: int| 0 <= x < y < r@.len() implies r@[x].0 < r@[y].0 by {
            assert(r@[x].0 == keys@[x] && r@[y].0 == keys@[y]);
        }
        assert forall|j: int| 0 <= j < r@.len() implies sorted_child(keys@, children@, #[trigger] r@[j].0) == Some(*r@[j].1) by {
            lemma_sorted_index_of(keys@, j);
        }
        assert forall|c: u8| #[trigger] sorted_child(keys@, children@, c) is Some implies exists|j: int| 0 <= j < r@.len() && r@[j].0 == c by {
            let j = keys@.index_of(c);
            assert(r@[j].0 == c);
        }
    }
    r
}

} // verus!

verus! {

// ---------------------------------------------------------------------------
// Node48
// ---------------------------------------------------------------------------

/// A `Node48` index with every byte unused.
fn empty_index() -> (r: Vec<u8>)
    ensures
        r@.len() == 256,
        forall|b: int| 0 <= b < 256 ==> r@[b] == EMPTY_SLOT,
        count_true(used(r@)) == 0,
{
    let mut r: Vec<u8> = Vec::new();
    let mut i: usize = 0;
    while i < 256
        invariant
            i <= 256,
            r@.len() == i,
            forall|b: int| 0 <= b < i ==> r@[b] == EMPTY_SLOT,
        decreases 256 - i,
    {
        r.push(EMPTY_SLOT);
        i += 1;
    }
    proof {
        lemma_count_true_all_false(used(r@));
    }
    r
}

/// `n` empty child slots.
fn empty_slots<V>(n: usize) -> (r: Vec<Option<Box<Node<V>>>>)
    ensures
        r@.len() == n,
        forall|j: int| 0 <= j < n ==> r@[j] is None,
        count_true(occupied(r@)) == 0,
{
    let mut r: Vec<Option<Box<Node<V>>>> = Vec::new();
    let mut i: usize = 0;
    while i < n
        invariant
            i <= n,
            r@.len() == i,
            forall|j: int| 0 <= j < i ==> r@[j] is None,
        decreases n - i,
    {
        r.push(None);
        i += 1;
    }
    proof {
        lemma_count_true_all_false(occupied(r@));
    }
    r
}

/// Takes the child out of slot `i`, leaving it empty.
fn take_slot<V>(slots: &mut Vec<Option<Box<Node<V>>>>, i: usize) -> (r: Option<Box<Node<V>>>)
    requires
        i < old(slots)@.len(),
    ensures
        r == old(slots)@[i as int],
        final(slots)@ == old(slots)@.update(i as int, None),
{
    slots[i].take()
}

impl<V> Node48<V> {
    /// An empty node with no prefix and no entry of its own.
    pub fn new() -> (r: Self)
        ensures
            r.shape(),
            r.header.count == 0,
            r.header.value is None,
            r.header.prefix@ =~= Seq::<u8>::empty(),
            forall|b: u8| r.child(b) is None,
            forall|b: int| 0 <= b < 256 ==> r.index@[b] == EMPTY_SLOT,
            forall|j: int| 0 <= j < 48 ==> r.slots@[j] is None,
    {
        Node48 {
            header: NodeHeader { prefix: Prefix::empty(), value: None, count: 0 },
            index: empty_index(),
            slots: empty_slots(48),
        }
    }

    /// The child under byte `b`, if any.
    pub fn find_child(&self, b: u8) -> (r: Option<&Node<V>>)
        requires
            self.shape(),
        ensures
            deref_opt(r) == self.child(b),
    {
        let idx = self.index[b as usize];
        if idx == EMPTY_SLOT {
            None
        } else {
            match &self.slots[idx as usize] {
                Some(c) => Some(&**c),
                None => None,
            }
        }
    }

    /// Adds `child` under byte `b`, which must be free; the node must have room.
    pub fn add_child(&mut self, b: u8, child: Box<Node<V>>)
        requires
            old(self).shape(),
            old(self).child(b) is None,
            old(self).header.count < 48,
        ensures
            final(self).shape(),
            final(self).header.count == old(self).header.count + 1,
            final(self).header.prefix == old(self).header.prefix,
            final(self).header.value == old(self).header.value,
            final(self).child(b) == Some(*child),
            forall|c: u8| c != b ==> final(self).child(c) == old(self).child(c),
    {
        let ghost oi = self.index@;
        let ghost os = self.slots@;
        proof {
            lemma_count_true_has_false(occupied(os));
        }
        let mut j: usize = 0;
        while j < 48 && self.slots[j].is_some()
            invariant
                self == old(self),
                self.shape(),
                j <= 48,
                exists|k: int| 0 <= k < 48 && !occupied(os)[k],
                forall|k: int| 0 <= k < j ==> self.slots@[k] is Some,
            decreases 48 - j,
        {
            j += 1;
        }
        assert(j < 48) by {
            if j >= 48 {
                let k = choose|k: int| 0 <= k < 48 && !occupied(os)[k];
                assert(os[k] is Some);
            }
        }
        self.index[b as usize] = j as u8;
        self.slots[j] = Some(child);
        self.header.count = self.header.count + 1;
        proof {
            let ni = self.index@;
            let ns = self.slots@;
            assert(ni == oi.update(b as int, j as u8));
            assert(ns == os.update(j as int, Some(child)));
            assert forall|c: int| 0 <= c < 256 && oi[c] != EMPTY_SLOT implies oi[c] != j as u8 by {
                assert(os[oi[c] as int] is Some);
            }
            assert(used(ni) =~= used(oi).update(b as int, true));
            assert(occupied(ns) =~= occupied(os).update(j as int, true));
            lemma_count_true_update(used(oi), b as int, true);
            lemma_count_true_update(occupied(os), j as int, true);
            assert forall|c: u8| c != b implies self.child(c) == old(self).child(c) by {
                assert(ni[c as int] == oi[c as int]);
            }
        }
    }

    /// Puts `c` in place of the child under byte `b`, which must exist, and returns that
    /// child; the child stays in its slot.
    pub fn replace_child(&mut self, b: u8, c: Node<V>) -> (r: Node<V>)
        requires
            old(self).shape(),
            old(self).child(b) is Some,
        ensures
            final(self).shape(),
            final(self).header == old(self).header,
            final(self).index == old(self).index,
            r == old(self).child(b).unwrap(),
            final(self).child(b) == Some(c),
            forall|x: u8| x != b ==> final(self).child(x) == old(self).child(x),
    {
        let ghost os = self.slots@;
        let idx = self.index[b as usize];
        let mut c = c;
        let slot = &mut self.slots[idx as usize];
        match slot {
            Some(bx) => std::mem::swap(&mut **bx, &mut c),
            None => {},
        }
        proof {
            assert(occupied(self.slots@) =~= occupied(os));
            assert forall|x: u8| x != b implies self.child(x) == old(self).child(x) by {
                if self.index@[x as int] != EMPTY_SLOT {
                    assert(self.index@[x as int] != idx);
                }
            }
        }
        c
    }

    /// Detaches and returns the child under byte `b`, if any.
    pub fn remove_child(&mut self, b: u8) -> (r: Option<Box<Node<V>>>)
        requires
            old(self).shape(),
        ensures
            final(self).shape(),
            r is Some <==> old(self).child(b) is Some,
            r is Some ==> *r.unwrap() == old(self).child(b).unwrap(),
            final(self).header.count == old(self).header.count - (if r is Some {
                1int
            } else {
                0int
            }),
            final(self).header.prefix == old(self).header.prefix,
            final(self).header.value == old(self).header.value,
            final(self).child(b) is None,
            forall|c: u8| c != b ==> final(self).child(c) == old(self).child(c),
            r is None ==> *final(self) == *old(self),
    {
        let ghost oi = self.index@;
        let ghost os = self.slots@;
        let idx = self.index[b as usize];
        if idx != EMPTY_SLOT {
            let c = take_slot(&mut self.slots, idx as usize);
            self.index[b as usize] = EMPTY_SLOT;
            proof {
                let ni = self.index@;
                let ns = self.slots@;
                assert(used(ni) =~= used(oi).update(b as int, false));
                assert(occupied(ns) =~= occupied(os).update(idx as int, false));
                lemma_count_true_update(used(oi), b as int, false);
                lemma_count_true_update(occupied(os), idx as int, false);
                lemma_count_true_le(used(oi));
                assert forall|x: int| 0 <= x < 256 && ni[x] != EMPTY_SLOT implies ni[x] != idx by {
                    assert(oi[x] == ni[x]);
                }
                assert forall|x: u8| x != b implies self.child(x) == old(self).child(x) by {
                    assert(ni[x as int] == oi[x as int]);
                }
            }
            self.header.count = self.header.count - 1;
            c
        } else {
            None
        }
    }

    /// The children in increasing byte order.
    pub fn get_children(&self) -> (r: Vec<(u8, &Node<V>)>)
        requires
            self.shape(),
        ensures
            r@.len() == self.header.count,
            listing_sorted(r@),
            forall|i: int| 0 <= i < r@.len() ==> self.child(#[trigger] r@[i].0) == Some(*r@[i].1),
            forall|c: u8| #[trigger] self.child(c) is Some ==> exists|i: int| 0 <= i < r@.len() && r@[i].0 == c,
    {
        let mut r: Vec<(u8, &Node<V>)> = Vec::new();
        let mut b: usize = 0;
        while b < 256
            invariant
                self.shape(),
                b <= 256,
                r@.len() == count_true(used(self.index@).take(b as int)),
                forall|i: int, j: int| 0 <= i < j < r@.len() ==> r@[i].0 < r@[j].0,
                forall|i: int| 0 <= i < r@.len() ==> r@[i].0 < b,
                forall|i: int| 0 <= i < r@.len() ==> self.child(#[trigger] r@[i].0) == Some(*r@[i].1),
                forall|c: u8| c < b && #[trigger] self.child(c) is Some ==> exists|i: int| 0 <= i < r@.len() && r@[i].0 == c,
            decreases 256 - b,
        {
            proof {
                lemma_count_true_take(used(self.index@), b as int);
            }
            let idx = self.index[b];
            if idx != EMPTY_SLOT {
                match &self.slots[idx as usize] {
                    Some(c) => {
                        let ghost r0 = r@;
                        let n: &Node<V> = &**c;
                        r.push((b as u8, n));
                        proof {
                            assert(r@ == r0.push((b as u8, n)));
                            assert forall|i: int| 0 <= i < r@.len() implies self.child(#[trigger] r@[i].0) == Some(*r@[i].1) by {
                                if i < r0.len() {
                                    assert(r@[i] == r0[i]);
                                }
                            }
                            assert forall|c: u8| c < b + 1 && #[trigger] self.child(c) is Some implies exists|i: int| 0 <= i < r@.len() && r@[i].0 == c by {
                                if c < b {
                                    let i = choose|i: int| 0 <= i < r0.len() && r0[i].0 == c;
                                    assert(r@[i] == r0[i]);
                                } else {
                                    assert(r@[r0.len() as int].0 == c);
                                }
                            }
                        }
                    },
                    None => {},
                }
            }
            b += 1;
        }
        proof {
            assert(used(self.index@).take(256) =~= used(self.index@));
        }
        r
    }

    /// The same children and header in a `Node256`.
    pub fn grow(self) -> (r: Node256<V>)
        requires
            self.shape(),
        ensures
            r.shape(),
            r.header.count == self.header.count,
            r.header.prefix == self.header.prefix,
            r.header.value == self.header.value,
            forall|c: u8| r.child(c) == self.child(c),
    {
        let ghost orig = self;
        let mut old = self;
        let mut new = Node256::<V>::new();
        old.header.move_to(&mut new.header);
        let ghost oi = old.index@;
        let ghost os = old.slots@;
        let mut cnt: u16 = 0;
        let mut b: usize = 0;
        while b < 256
            invariant
                orig.shape(),
                oi == orig.index@,
                os == orig.slots@,
                old.index@ == oi,
                old.slots@.len() == 48,
                new.children@.len() == 256,
                b <= 256,
                cnt == count_true(used(oi).take(b as int)),
                cnt == count_true(occupied(new.children@)),
                new.header.prefix == orig.header.prefix,
                new.header.value == orig.header.value,
                forall|c: int| b <= c < 256 && oi[c] != EMPTY_SLOT ==> old.slots@[oi[c] as int] == os[oi[c] as int],
                forall|c: int| 0 <= c < b ==> new.children@[c] == (if oi[c] != EMPTY_SLOT { os[oi[c] as int] } else { None }),
                forall|c: int| b <= c < 256 ==> new.children@[c] is None,
            decreases 256 - b,
        {
            proof {
                lemma_count_true_take(used(oi), b as int);
                lemma_count_true_le(used(oi).take(b as int));
            }
            let idx = old.index[b];
            if idx != EMPTY_SLOT {
                let ghost nc = new.children@;
                let c = take_slot(&mut old.slots, idx as usize);
                new.children[b] = c;
                proof {
                    assert(new.children@ == nc.update(b as int, c));
                    assert(occupied(new.children@) =~= occupied(nc).update(b as int, true));
                    lemma_count_true_update(occupied(nc), b as int, true);
                    assert forall|x: int| b + 1 <= x < 256 && oi[x] != EMPTY_SLOT implies old.slots@[oi[x] as int] == os[oi[x] as int] by {
                        assert(oi[x] != oi[b as int]);
                    }
                }
                cnt = cnt + 1;
            }
            b += 1;
        }
        proof {
            assert(used(oi).take(256) =~= used(oi));
        }
        new.header.count = cnt;
        new
    }

    /// The same children and header in a `Node16`; needs at most 16 children.
    pub fn shrink(self) -> (r: Node16<V>)
        requires
            self.shape(),
            self.header.count <= 16,
        ensures
            r.shape(),
            r.header.count == self.header.count,
            r.header.prefix == self.header.prefix,
            r.header.value == self.header.value,
            forall|c: u8| r.child(c) == self.child(c),
    {
        let ghost orig = self;
        let mut old = self;
        let mut new = Node16::<V>::new();
        old.header.move_to(&mut new.header);
        let ghost oi = old.index@;
        let ghost os = old.slots@;
        let mut b: usize = 0;
        while b < 256
            invariant
                orig.shape(),
                orig.header.count <= 16,
                oi == orig.index@,
                os == orig.slots@,
                old.index@ == oi,
                old.slots@.len() == 48,
                b <= 256,
                new.keys@.len() == new.children@.len(),
                new.keys@.len() == count_true(used(oi).take(b as int)),
                sorted_keys(new.keys@),
                new.header.prefix == orig.header.prefix,
                new.header.value == orig.header.value,
                new.header.count == 0,
                forall|i: int| 0 <= i < new.keys@.len() ==> new.keys@[i] < b,
                forall|i: int| 0 <= i < new.keys@.len() ==> oi[#[trigger] new.keys@[i] as int] != EMPTY_SLOT
                    && os[oi[new.keys@[i] as int] as int] == Some(new.children@[i]),
                forall|c: int| 0 <= c < b && oi[c] != EMPTY_SLOT ==> new.keys@.contains(c as u8),
                forall|c: int| b <= c < 256 && oi[c] != EMPTY_SLOT ==> old.slots@[oi[c] as int] == os[oi[c] as int],
            decreases 256 - b,
        {
            proof {
                lemma_count_true_take(used(oi), b as int);
                lemma_count_true_take_le(used(oi), b as int + 1);
            }
            let idx = old.index[b];
            if idx != EMPTY_SLOT {
                let ghost k0 = new.keys@;
                let ghost c0 = new.children@;
                let c = take_slot(&mut old.slots, idx as usize);
                let c = c.unwrap();
                new.keys.push(b as u8);
                new.children.push(c);
                proof {
                    assert(new.keys@ == k0.push(b as u8));
                    assert(new.children@ == c0.push(c));
                    assert forall|i: int| 0 <= i < new.keys@.len() implies oi[#[trigger] new.keys@[i] as int] != EMPTY_SLOT
                        && os[oi[new.keys@[i] as int] as int] == Some(new.children@[i]) by {
                        if i < k0.len() {
                            assert(new.keys@[i] == k0[i]);
                            assert(new.children@[i] == c0[i]);
                        }
                    }
                    assert forall|x: int| 0 <= x < b + 1 && oi[x] != EMPTY_SLOT implies new.keys@.contains(x as u8) by {
                        if x < b {
                            let i = k0.index_of(x as u8);
                            assert(new.keys@[i] == x as u8);
                        } else {
                            assert(new.keys@[k0.len() as int] == x as u8);
                        }
                    }
                    assert forall|x: int| b + 1 <= x < 256 && oi[x] != EMPTY_SLOT implies old.slots@[oi[x] as int] == os[oi[x] as int] by {
                        assert(oi[x] != oi[b as int]);
                    }
                }
            }
            b += 1;
        }
        proof {
            assert(used(oi).take(256) =~= used(oi));
            assert forall|c: u8| sorted_child(new.keys@, new.children@, c) == orig.child(c) by {
                if oi[c as int] != EMPTY_SLOT {
                    assert(new.keys@.contains(c));
                    let i = new.keys@.index_of(c);
                    assert(new.keys@[i] == c);
                } else if new.keys@.contains(c) {
                    let i = new.keys@.index_of(c);
                    assert(new.keys@[i] == c);
                }
            }
        }
        new.header.count = new.keys.len() as u16;
        new
    }
}

// ---------------------------------------------------------------------------
// Node256
// ---------------------------------------------------------------------------

impl<V> Node256<V> {
    /// An empty node with no prefix and no entry of its own.
    pub fn new() -> (r: Self)
        ensures
            r.shape(),
            r.header.count == 0,
            r.header.value is None,
            r.header.prefix@ =~= Seq::<u8>::empty(),
            forall|b: u8| r.child(b) is None,
            forall|b: int| 0 <= b < 256 ==> r.children@[b] is None,
    {
        Node256 {
            header: NodeHeader { prefix: Prefix::empty(), value: None, count: 0 },
            children: empty_slots(256),
        }
    }

    /// The child under byte `b`, if any.
    pub fn find_child(&self, b: u8) -> (r: Option<&Node<V>>)
        requires
            self.shape(),
        ensures
            deref_opt(r) == self.child(b),
    {
        match &self.children[b as usize] {
            Some(c) => Some(&**c),
            None => None,
        }
    }

    /// Adds `child` under byte `b`, which must be free; the node must have room.
    pub fn add_child(&mut self, b: u8, child: Box<Node<V>>)
        requires
            old(self).shape(),
            old(self).child(b) is None,
        ensures
            final(self).shape(),
            final(self).header.count == old(self).header.count + 1,
            final(self).header.prefix == old(self).header.prefix,
            final(self).header.value == old(self).header.value,
            final(self).child(b) == Some(*child),
            forall|c: u8| c != b ==> final(self).child(c) == old(self).child(c),
    {
        let ghost oc = self.children@;
        proof {
            assert(occupied(oc).update(b as int, true) =~= occupied(oc.update(b as int, Some(child))));
            lemma_count_true_update(occupied(oc), b as int, true);
            lemma_count_true_le(occupied(oc.update(b as int, Some(child))));
        }
        self.children[b as usize] = Some(child);
        self.header.count = self.header.count + 1;
    }

    /// Puts `c` in place of the child under byte `b`, which must exist, and returns that child.
    pub fn replace_child(&mut self, b: u8, c: Node<V>) -> (r: Node<V>)
        requires
            old(self).shape(),
            old(self).child(b) is Some,
        ensures
            final(self).shape(),
            final(self).header == old(self).header,
            r == old(self).child(b).unwrap(),
            final(self).child(b) == Some(c),
            forall|x: u8| x != b ==> final(self).child(x) == old(self).child(x),
    {
        let ghost oc = self.children@;
        let mut c = c;
        let slot = &mut self.children[b as usize];
        match slot {
            Some(bx) => std::mem::swap(&mut **bx, &mut c),
            None => {},
        }
        proof {
            assert(occupied(self.children@) =~= occupied(oc));
        }
        c
    }

    /// Detaches and returns the child under byte `b`, if any.
    pub fn remove_child(&mut self, b: u8) -> (r: Option<Box<Node<V>>>)
        requires
            old(self).shape(),
        ensures
            final(self).shape(),
            r is Some <==> old(self).child(b) is Some,
            r is Some ==> *r.unwrap() == old(self).child(b).unwrap(),
            final(self).header.count == old(self).header.count - (if r is Some {
                1int
            } else {
                0int
            }),
            final(self).header.prefix == old(self).header.prefix,
            final(self).header.value == old(self).header.value,
            final(self).child(b) is None,
            forall|c: u8| c != b ==> final(self).child(c) == old(self).child(c),
            r is None ==> *final(self) == *old(self),
    {
        let ghost oc = self.children@;
        if self.children[b as usize].is_some() {
            let c = take_slot(&mut self.children, b as usize);
            proof {
                assert(occupied(self.children@) =~= occupied(oc).update(b as int, false));
                lemma_count_true_update(occupied(oc), b as int, false);
            }
            self.header.count = self.header.count - 1;
            c
        } else {
            None
        }
    }

    /// The children in increasing byte order.
    pub fn get_children(&self) -> (r: Vec<(u8, &Node<V>)>)
        requires
            self.shape(),
        ensures
            r@.len() == self.header.count,
            listing_sorted(r@),
            forall|i: int| 0 <= i < r@.len() ==> self.child(#[trigger] r@[i].0) == Some(*r@[i].1),
            forall|c: u8| #[trigger] self.child(c) is Some ==> exists|i: int| 0 <= i < r@.len() && r@[i].0 == c,
    {
        let mut r: Vec<(u8, &Node<V>)> = Vec::new();
        let mut b: usize = 0;
        while b < 256
            invariant
                self.shape(),
                b <= 256,
                r@.len() == count_true(occupied(self.children@).take(b as int)),
                forall|i: int, j: int| 0 <= i < j < r@.len() ==> r@[i].0 < r@[j].0,
                forall|i: int| 0 <= i < r@.len() ==> r@[i].0 < b,
                forall|i: int| 0 <= i < r@.len() ==> self.child(#[trigger] r@[i].0) == Some(*r@[i].1),
                forall|c: u8| c < b && #[trigger] self.child(c) is Some ==> exists|i: int| 0 <= i < r@.len() && r@[i].0 == c,
            decreases 256 - b,
        {
            proof {
                lemma_count_true_take(occupied(self.children@), b as int);
            }
            match &self.children[b] {
                Some(c) => {
                    let ghost r0 = r@;
                    let n: &Node<V> = &**c;
                    r.push((b as u8, n));
                    proof {
                        assert(r@ == r0.push((b as u8, n)));
                        assert forall|i: int| 0 <= i < r@.len() implies self.child(#[trigger] r@[i].0) == Some(*r@[i].1) by {
                            if i < r0.len() {
                                assert(r@[i] == r0[i]);
                            }
                        }
                        assert forall|c: u8| c < b + 1 && #[trigger] self.child(c) is Some implies exists|i: int| 0 <= i < r@.len() && r@[i].0 == c by {
                            if c < b {
                                let i = choose|i: int| 0 <= i < r0.len() && r0[i].0 == c;
                                assert(r@[i] == r0[i]);
                            } else {
                                assert(r@[r0.len() as int].0 == c);
                            }
                        }
                    }
                },
                None => {},
            }
            b += 1;
        }
        proof {
            assert(occupied(self.children@).take(256) =~= occupied(self.children@));
        }
        r
    }

    /// The same children and header in a `Node48`; needs at most 48 children.
    pub fn shrink(self) -> (r: Node48<V>)
        requires
            self.shape(),
            self.header.count <= 48,
        ensures
            r.shape(),
            r.header.count == self.header.count,
            r.header.prefix == self.header.prefix,
            r.header.value == self.header.value,
            forall|c: u8| r.child(c) == self.child(c),
    {
        let ghost orig = self;
        let mut old = self;
        let mut new = Node48::<V>::new();
        old.header.move_to(&mut new.header);
        let ghost oc = old.children@;
        let mut slot: u8 = 0;
        let mut b: usize = 0;
        while b < 256
            invariant
                orig.shape(),
                orig.header.count <= 48,
                oc == orig.children@,
                old.children@.len() == 256,
                new.index@.len() == 256,
                new.slots@.len() == 48,
                b <= 256,
                slot == count_true(occupied(oc).take(b as int)),
                slot <= 48,
                slot == count_true(used(new.index@)),
                slot == count_true(occupied(new.slots@)),
                new.header.prefix == orig.header.prefix,
                new.header.value == orig.header.value,
                forall|c: int| b <= c < 256 ==> old.children@[c] == oc[c],
                forall|c: int| b <= c < 256 ==> new.index@[c] == EMPTY_SLOT,
                forall|c: int| 0 <= c < b ==> (new.index@[c] == EMPTY_SLOT <==> oc[c] is None),
                forall|c: int| 0 <= c < b && oc[c] is Some ==> new.index@[c] < slot && new.slots@[new.index@[c] as int] == oc[c],
                forall|c1: int, c2: int| 0 <= c1 < c2 < b && oc[c1] is Some && oc[c2] is Some ==> new.index@[c1] < new.index@[c2],
                forall|j: int| 0 <= j < 48 ==> (new.slots@[j] is Some <==> j < slot),
            decreases 256 - b,
        {
            proof {
                lemma_count_true_take(occupied(oc), b as int);
                lemma_count_true_take_le(occupied(oc), b as int + 1);
            }
            if old.children[b].is_some() {
                let ghost ni = new.index@;
                let ghost ns = new.slots@;
                let c = take_slot(&mut old.children, b);
                new.index[b] = slot;
                new.slots[slot as usize] = c;
                proof {
                    assert(used(new.index@) =~= used(ni).update(b as int, true));
                    lemma_count_true_update(used(ni), b as int, true);
                    assert(occupied(new.slots@) =~= occupied(ns).update(slot as int, true));
                    lemma_count_true_update(occupied(ns), slot as int, true);
                }
                slot = slot + 1;
            }
            b += 1;
        }
        proof {
            assert(occupied(oc).take(256) =~= occupied(oc));
            let ni = new.index@;
            assert forall|c: int| 0 <= c < 256 && #[trigger] ni[c] != EMPTY_SLOT implies ni[c] < 48 && new.slots@[ni[c] as int] is Some by {}
            assert forall|c1: int, c2: int| 0 <= c1 < 256 && 0 <= c2 < 256 && #[trigger] ni[c1] != EMPTY_SLOT
                && ni[c1] == #[trigger] ni[c2] implies c1 == c2 by {
                if c1 < c2 {
                    assert(ni[c1] < ni[c2]);
                } else if c2 < c1 {
                    assert(ni[c2] < ni[c1]);
                }
            }
            assert forall|c: u8| new.child(c) == orig.child(c) by {}
        }
        new.header.count = slot as u16;
        new
    }
}

impl<V> Node16<V> {
    /// The same children and header in a `Node48`.
    pub fn grow(self) -> (r: Node48<V>)
        requires
            self.shape(),
        ensures
            r.shape(),
            r.header.count == self.header.count,
            r.header.prefix == self.header.prefix,
            r.header.value == self.header.value,
            forall|c: u8| r.child(c) == self.child(c),
    {
        let ghost orig = self;
        let mut old = self;
        let mut new = Node48::<V>::new();
        old.header.move_to(&mut new.header);
        let ghost ok = old.keys@;
        let ghost oc = old.children@;
        let cnt = old.keys.len();
        while old.keys.len() > 0
            invariant
                orig.shape(),
                ok == orig.keys@,
                oc == orig.children@,
                cnt == ok.len(),
                cnt <= 16,
                old.keys@.len() == old.children@.len(),
                old.keys@.len() <= cnt,
                old.keys@ == ok.take(old.keys@.len() as int),
                old.children@ == oc.take(old.keys@.len() as int),
                new.index@.len() == 256,
                new.slots@.len() == 48,
                new.header.prefix == orig.header.prefix,
                new.header.value == orig.header.value,
                cnt - old.keys@.len() == count_true(used(new.index@)),
                cnt - old.keys@.len() == count_true(occupied(new.slots@)),
                forall|j: int| old.keys@.len() <= j < cnt ==> new.index@[#[trigger] ok[j] as int] == j as u8,
                forall|j: int| old.keys@.len() <= j < cnt ==> new.slots@[j] == Some(#[trigger] oc[j]),
                forall|j: int| 0 <= j < 48 && (j < old.keys@.len() || j >= cnt) ==> new.slots@[j] is None,
                forall|c: int| 0 <= c < 256 && new.index@[c] != EMPTY_SLOT ==> exists|j: int| old.keys@.len() <= j < cnt && ok[j] == c,
            decreases old.keys@.len(),
        {
            let i = old.keys.len() - 1;
            let ghost ni = new.index@;
            let ghost ns = new.slots@;
            let b = old.keys.pop().unwrap();
            let c = old.children.pop().unwrap();
            proof {
                assert(b == ok[i as int]);
                assert(c == oc[i as int]);
                assert(old.keys@ =~= ok.take(i as int));
                assert(old.children@ =~= oc.take(i as int));
                assert(ni[b as int] == EMPTY_SLOT) by {
                    if ni[b as int] != EMPTY_SLOT {
                        let j = choose|j: int| i + 1 <= j < cnt && ok[j] == b;
                        assert(ok[i as int] < ok[j]);
                    }
                }
            }
            new.index[b as usize] = i as u8;
            new.slots[i] = Some(c);
            proof {
                assert(used(new.index@) =~= used(ni).update(b as int, true));
                lemma_count_true_update(used(ni), b as int, true);
                assert(occupied(new.slots@) =~= occupied(ns).update(i as int, true));
                lemma_count_true_update(occupied(ns), i as int, true);
                assert(new.index@ == ni.update(b as int, i as u8));
                assert(new.slots@ == ns.update(i as int, Some(c)));
                assert forall|j: int| i <= j < cnt implies new.index@[#[trigger] ok[j] as int] == j as u8 by {
                    if j > i {
                        assert(ok[i as int] < ok[j]);
                        assert(ni[ok[j] as int] == j as u8);
                    }
                }
                assert forall|j: int| i <= j < cnt implies new.slots@[j] == Some(#[trigger] oc[j]) by {
                    if j > i {
                        assert(ns[j] == Some(oc[j]));
                    }
                }
                assert forall|x: int| 0 <= x < 256 && new.index@[x] != EMPTY_SLOT implies exists|j: int| i <= j < cnt && ok[j] == x by {
                    if x == b as int {
                        assert(ok[i as int] == x);
                    } else {
                        let j = choose|j: int| i + 1 <= j < cnt && ok[j] == x;
                        assert(ok[j] == x);
                    }
                }
            }
        }
        proof {
            let ni = new.index@;
            assert forall|x: int| 0 <= x < 256 && #[trigger] ni[x] != EMPTY_SLOT implies ni[x] < 48 && new.slots@[ni[x] as int] is Some by {
                let j = choose|j: int| 0 <= j < cnt && ok[j] == x;
                assert(ni[ok[j] as int] == j as u8);
                assert(new.slots@[j] == Some(oc[j]));
            }
            assert forall|c1: int, c2: int| 0 <= c1 < 256 && 0 <= c2 < 256 && #[trigger] ni[c1] != EMPTY_SLOT
                && ni[c1] == #[trigger] ni[c2] implies c1 == c2 by {
                let j1 = choose|j: int| 0 <= j < cnt && ok[j] == c1;
                let j2 = choose|j: int| 0 <= j < cnt && ok[j] == c2;
                assert(ni[ok[j1] as int] == j1 as u8);
                assert(ni[ok[j2] as int] == j2 as u8);
                if j1 < j2 {
                    assert(ok[j1] < ok[j2]);
                } else if j2 < j1 {
                    assert(ok[j2] < ok[j1]);
                }
            }
            assert forall|c: u8| new.child(c) == orig.child(c) by {
                if ni[c as int] != EMPTY_SLOT {
                    let j = choose|j: int| 0 <= j < cnt && ok[j] == c;
                    lemma_sorted_index_of(ok, j);
                } else if ok.contains(c) {
                    let j = ok.index_of(c);
                    assert(ni[ok[j] as int] == j as u8);
                }
            }
        }
        new.header.count = cnt as u16;
        new
    }
}

} // verus!

verus! {

// ---------------------------------------------------------------------------
// Leaf
// ---------------------------------------------------------------------------

impl<V> Leaf<V> {
    /// A boxed leaf node holding a copy of `key` and `value`.
    pub fn new_ptr(key: &[u8], value: V) -> (r: Box<Node<V>>)
        ensures
            *r == Node::Leaf(Leaf { key: r->Leaf_0.key, value }),
            r->Leaf_0.key@ == key@,
    {
        Box::new(Node::Leaf(Leaf { key: vstd::slice::slice_to_vec(key), value }))
    }

    /// Whether this leaf's key is exactly `key`.
    pub fn matches(&self, key: &[u8]) -> (r: bool)
        ensures
            r == (self.key@ == key@),
    {
        crate::lex::bytes_eq(self.key.as_slice(), key)
    }

    /// The value, if this leaf's key is `key`.
    pub fn get_value(&self, key: &[u8]) -> (r: Option<&V>)
        ensures
            r is Some <==> self.key@ == key@,
            r matches Some(v) ==> *v == self.value,
    {
        if self.matches(key) {
            Some(&self.value)
        } else {
            None
        }
    }
}

} // verus!
