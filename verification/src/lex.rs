//! Byte-string prefixes and lexicographic order, as used by `&[u8]`'s `Ord`.
use vstd::prelude::*;

verus! {

/// `a` is a (not necessarily proper) prefix of `b`.
pub open spec fn is_prefix(a: Seq<u8>, b: Seq<u8>) -> bool {
    a.len() <= b.len() && b.take(a.len() as int) =~= a
}

/// `a` and `b` agree on their first `i` bytes and differ at byte `i`.
pub open spec fn first_diff(a: Seq<u8>, b: Seq<u8>, i: int) -> bool {
    &&& 0 <= i < a.len()
    &&& i < b.len()
    &&& a[i] != b[i]
    &&& forall|j: int| 0 <= j < i ==> a[j] == b[j]
}

/// Strict lexicographic order on byte strings: `a` is a proper prefix of `b`,
/// or at the first byte where they differ, `a`'s byte is smaller.
pub open spec fn lex_lt(a: Seq<u8>, b: Seq<u8>) -> bool {
    ||| (a.len() < b.len() && is_prefix(a, b))
    ||| exists|i: int| #[trigger] first_diff(a, b, i) && a[i] < b[i]
}

/// Non-strict lexicographic order.
pub open spec fn lex_le(a: Seq<u8>, b: Seq<u8>) -> bool {
    !lex_lt(b, a)
}

/// `k` lies between the optional inclusive bounds `lo` and `hi`.
pub open spec fn in_bounds(k: Seq<u8>, lo: Option<Seq<u8>>, hi: Option<Seq<u8>>) -> bool {
    &&& (lo matches Some(l) ==> lex_le(l, k))
    &&& (hi matches Some(h) ==> lex_le(k, h))
}

/// The view of an optional byte slice.
pub open spec fn opt_view(o: Option<&[u8]>) -> Option<Seq<u8>> {
    match o {
        Some(s) => Some(s@),
        None => None,
    }
}

/// Being a prefix is transitive.
pub proof fn lemma_prefix_trans(a: Seq<u8>, b: Seq<u8>, c: Seq<u8>)
    requires
        is_prefix(a, b),
        is_prefix(b, c),
    ensures
        is_prefix(a, c),
{
    assert(c.take(a.len() as int) =~= c.take(b.len() as int).take(a.len() as int));
}

/// Two byte strings that first differ at `i` are ordered by their bytes at `i`.
pub proof fn lemma_lex_diverge(a: Seq<u8>, b: Seq<u8>, i: int)
    requires
        first_diff(a, b, i),
    ensures
        lex_lt(a, b) <==> a[i] < b[i],
        lex_lt(b, a) <==> b[i] < a[i],
{
    assert(!is_prefix(a, b)) by {
        if is_prefix(a, b) {
            assert(b.take(a.len() as int)[i] == a[i]);
        }
    }
    assert(!is_prefix(b, a)) by {
        if is_prefix(b, a) {
            assert(a.take(b.len() as int)[i] == b[i]);
        }
    }
    assert forall|j: int| #[trigger] first_diff(a, b, j) implies j == i by {
        if j < i {
            assert(a[j] == b[j]);
        } else if j > i {
            assert(a[i] == b[i]);
        }
    }
    assert forall|j: int| #[trigger] first_diff(b, a, j) implies j == i by {
        if j < i {
            assert(a[j] == b[j]);
        } else if j > i {
            assert(a[i] == b[i]);
        }
    }
    if a[i] < b[i] {
        assert(first_diff(a, b, i));
    }
    if b[i] < a[i] {
        assert(first_diff(b, a, i));
    }
}

/// A prefix is never greater than its extensions, and a proper prefix is smaller.
pub proof fn lemma_lex_prefix(a: Seq<u8>, b: Seq<u8>)
    requires
        is_prefix(a, b),
    ensures
        !lex_lt(b, a),
        a.len() < b.len() ==> lex_lt(a, b),
{
    assert forall|i: int| !(#[trigger] first_diff(b, a, i)) by {
        if first_diff(b, a, i) {
            assert(b.take(a.len() as int)[i] == b[i]);
        }
    }
}

/// Byte strings that agree up to `i` are ordered by their byte at `i`, whatever follows.
pub proof fn lemma_lex_by_byte(a: Seq<u8>, b: Seq<u8>, i: int)
    requires
        0 <= i < a.len(),
        i < b.len(),
        a.take(i) =~= b.take(i),
        a[i] != b[i],
    ensures
        lex_lt(a, b) <==> a[i] < b[i],
        lex_lt(b, a) <==> b[i] < a[i],
{
    assert forall|j: int| 0 <= j < i implies a[j] == b[j] by {
        assert(a.take(i)[j] == b.take(i)[j]);
    }
    lemma_lex_diverge(a, b, i);
}

/// If equal-length `a < b` sit at the same offset in `x` and `y`, after a shared start,
/// then `x < y`.
pub proof fn lemma_lex_lt_within(a: Seq<u8>, b: Seq<u8>, x: Seq<u8>, y: Seq<u8>, off: int)
    requires
        a.len() == b.len(),
        lex_lt(a, b),
        0 <= off,
        x.len() >= off + a.len(),
        y.len() >= off + b.len(),
        x.take(off) =~= y.take(off),
        x.subrange(off, off + a.len()) =~= a,
        y.subrange(off, off + b.len()) =~= b,
    ensures
        lex_lt(x, y),
{
    let i = choose|i: int| #[trigger] first_diff(a, b, i) && a[i] < b[i];
    assert(x[off + i] == a[i]);
    assert(y[off + i] == b[i]);
    assert(x.take(off + i) =~= y.take(off + i)) by {
        assert forall|j: int| 0 <= j < off + i implies x[j] == y[j] by {
            if j < off {
                assert(x.take(off)[j] == y.take(off)[j]);
            } else {
                assert(x[j] == a[j - off]);
                assert(y[j] == b[j - off]);
            }
        }
    }
    lemma_lex_by_byte(x, y, off + i);
}

/// `lex_lt` is irreflexive and asymmetric.
pub proof fn lemma_lex_asym(a: Seq<u8>, b: Seq<u8>)
    ensures
        !(lex_lt(a, b) && lex_lt(b, a)),
        !lex_lt(a, a),
{
    lemma_lex_prefix(a, a);
    if lex_lt(a, b) && lex_lt(b, a) {
        if is_prefix(a, b) {
            lemma_lex_prefix(a, b);
        } else if is_prefix(b, a) {
            lemma_lex_prefix(b, a);
        } else {
            let i = choose|i: int| #[trigger] first_diff(a, b, i) && a[i] < b[i];
            lemma_lex_diverge(a, b, i);
        }
    }
}

/// `lex_lt` is total on distinct byte strings.
pub proof fn lemma_lex_total(a: Seq<u8>, b: Seq<u8>)
    ensures
        a =~= b || lex_lt(a, b) || lex_lt(b, a),
{
    let n = if a.len() < b.len() {
        a.len()
    } else {
        b.len()
    };
    if forall|j: int| 0 <= j < n ==> a[j] == b[j] {
        if a.len() <= b.len() {
            assert(b.take(a.len() as int) =~= a);
            lemma_lex_prefix(a, b);
        } else {
            assert(a.take(b.len() as int) =~= b);
            lemma_lex_prefix(b, a);
        }
    } else {
        let k = choose|j: int| 0 <= j < n && a[j] != b[j];
        lemma_first_diff_exists(a, b, k);
        let i = choose|i: int| first_diff(a, b, i);
        lemma_lex_diverge(a, b, i);
    }
}

/// If two byte strings differ somewhere below both lengths, they have a first difference.
pub proof fn lemma_first_diff_exists(a: Seq<u8>, b: Seq<u8>, k: int)
    requires
        0 <= k < a.len(),
        k < b.len(),
        a[k] != b[k],
    ensures
        exists|i: int| first_diff(a, b, i),
    decreases k,
{
    if forall|j: int| 0 <= j < k ==> a[j] == b[j] {
        assert(first_diff(a, b, k));
    } else {
        let j = choose|j: int| 0 <= j < k && a[j] != b[j];
        lemma_first_diff_exists(a, b, j);
    }
}

/// `lex_lt` is transitive.
pub proof fn lemma_lex_trans(a: Seq<u8>, b: Seq<u8>, c: Seq<u8>)
    requires
        lex_lt(a, b),
        lex_lt(b, c),
    ensures
        lex_lt(a, c),
{
    lemma_lex_key(a, b);
    lemma_lex_key(b, c);
    let p = lex_key(a, b);
    let q = lex_key(b, c);
    let m = if p <= q {
        p
    } else {
        q
    };
    assert forall|j: int| 0 <= j < m implies a[j] == c[j] by {
        assert(a[j] == b[j]);
        assert(b[j] == c[j]);
    }
    if m == a.len() {
        // a ends at m while agreeing with c below m, and c is longer
        assert(m < c.len());
        assert(c.take(a.len() as int) =~= a);
    } else {
        assert(m < c.len());
        if p < q {
            assert(a[m] < b[m]);
            assert(b[m] == c[m]);
        } else if q < p {
            assert(a[m] == b[m]);
            assert(b[m] < c[m]);
        } else {
            assert(a[m] < b[m]);
            assert(b[m] < c[m]);
        }
        assert(first_diff(a, c, m));
    }
}

/// The position that decides `lex_lt(a, b)`: the first difference, or the end of `a`.
spec fn lex_key(a: Seq<u8>, b: Seq<u8>) -> int {
    if is_prefix(a, b) {
        a.len() as int
    } else {
        choose|i: int| first_diff(a, b, i)
    }
}

proof fn lemma_lex_key(a: Seq<u8>, b: Seq<u8>)
    requires
        lex_lt(a, b),
    ensures
        0 <= lex_key(a, b) <= a.len(),
        lex_key(a, b) < b.len(),
        forall|j: int| 0 <= j < lex_key(a, b) ==> a[j] == b[j],
        lex_key(a, b) < a.len() ==> a[lex_key(a, b)] < b[lex_key(a, b)],
{
    if is_prefix(a, b) {
        assert forall|j: int| 0 <= j < a.len() implies a[j] == b[j] by {
            assert(b.take(a.len() as int)[j] == b[j]);
        }
        lemma_lex_asym(a, b);
        if a.len() == b.len() {
            assert(a =~= b);
        }
    } else {
        let i = choose|i: int| #[trigger] first_diff(a, b, i) && a[i] < b[i];
        lemma_lex_diverge(a, b, i);
        let k = lex_key(a, b);
        assert(first_diff(a, b, k));
        assert(k == i) by {
            if k < i {
                assert(a[k] == b[k]);
            } else if k > i {
                assert(a[i] == b[i]);
            }
        }
    }
}

/// The outcome of a three-way comparison.
pub enum Cmp {
    Less,
    Equal,
    Greater,
}

/// Compares `a` and `b` lexicographically, as `<[u8] as Ord>::cmp` does.
pub fn compare_bytes(a: &[u8], b: &[u8]) -> (r: Cmp)
    ensures
        r is Less <==> lex_lt(a@, b@),
        r is Equal <==> a@ =~= b@,
        r is Greater <==> lex_lt(b@, a@),
{
    let n = if a.len() < b.len() {
        a.len()
    } else {
        b.len()
    };
    let mut i: usize = 0;
    while i < n
        invariant
            n <= a.len(),
            n <= b.len(),
            n == a.len() || n == b.len(),
            i <= n,
            forall|j: int| 0 <= j < i ==> a@[j] == b@[j],
        decreases n - i,
    {
        if a[i] != b[i] {
            proof {
                lemma_lex_diverge(a@, b@, i as int);
                lemma_lex_asym(a@, b@);
            }
            if a[i] < b[i] {
                return Cmp::Less;
            } else {
                return Cmp::Greater;
            }
        }
        i += 1;
    }
    proof {
        lemma_lex_asym(a@, b@);
        if a.len() <= b.len() {
            assert(b@.take(a@.len() as int) =~= a@);
            lemma_lex_prefix(a@, b@);
        } else {
            assert(a@.take(b@.len() as int) =~= b@);
            lemma_lex_prefix(b@, a@);
        }
    }
    if a.len() < b.len() {
        Cmp::Less
    } else if a.len() == b.len() {
        Cmp::Equal
    } else {
        Cmp::Greater
    }
}

/// Whether two byte strings are equal.
pub fn bytes_eq(a: &[u8], b: &[u8]) -> (r: bool)
    ensures
        r == (a@ == b@),
{
    match compare_bytes(a, b) {
        Cmp::Equal => true,
        _ => {
            proof {
                lemma_lex_asym(a@, b@);
            }
            false
        },
    }
}

/// Whether `k` lies within the optional inclusive bounds.
pub fn key_in_bounds(k: &[u8], lo: Option<&[u8]>, hi: Option<&[u8]>) -> (r: bool)
    ensures
        r == in_bounds(k@, opt_view(lo), opt_view(hi)),
{
    let lo_ok = match lo {
        Some(l) => match compare_bytes(k, l) {
            Cmp::Less => false,
            _ => true,
        },
        None => true,
    };
    let hi_ok = match hi {
        Some(h) => match compare_bytes(k, h) {
            Cmp::Greater => false,
            _ => true,
        },
        None => true,
    };
    lo_ok && hi_ok
}

/// Index of the first byte where `a[a_off..]` and `b[b_off..]` differ, or the length of
/// the shorter of the two suffixes if one is a prefix of the other.
pub fn prefix_mismatch(a: &[u8], a_off: usize, b: &[u8], b_off: usize) -> (r: usize)
    requires
        a_off <= a.len(),
        b_off <= b.len(),
    ensures
        r <= a.len() - a_off,
        r <= b.len() - b_off,
        a@.subrange(a_off as int, a_off + r) =~= b@.subrange(b_off as int, b_off + r),
        r < a.len() - a_off && r < b.len() - b_off ==> a@[a_off + r] != b@[b_off + r],
{
    let n = if a.len() - a_off < b.len() - b_off {
        a.len() - a_off
    } else {
        b.len() - b_off
    };
    let mut i: usize = 0;
    while i < n
        invariant
            n <= a.len() - a_off,
            n <= b.len() - b_off,
            n == a.len() - a_off || n == b.len() - b_off,
            i <= n,
            a@.subrange(a_off as int, a_off + i) =~= b@.subrange(b_off as int, b_off + i),
        decreases n - i,
    {
        if a[a_off + i] != b[b_off + i] {
            return i;
        }
        assert(a@.subrange(a_off as int, a_off + i + 1) =~= a@.subrange(a_off as int, a_off + i).push(a@[a_off + i]));
        assert(b@.subrange(b_off as int, b_off + i + 1) =~= b@.subrange(b_off as int, b_off + i).push(b@[b_off + i]));
        i += 1;
    }
    n
}

} // verus!
