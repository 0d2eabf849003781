//! The lexicographic order of keys.
use vstd::prelude::*;

verus! {

/// `a` comes before `b` in lexicographic order.
pub open spec fn key_lt(a: Seq<u8>, b: Seq<u8>) -> bool
    decreases a.len(),
{
    if b.len() == 0 {
        false
    } else if a.len() == 0 {
        true
    } else if a[0] == b[0] {
        key_lt(a.skip(1), b.skip(1))
    } else {
        a[0] < b[0]
    }
}

/// `a` is `b` or comes before it.
pub open spec fn key_le(a: Seq<u8>, b: Seq<u8>) -> bool {
    a == b || key_lt(a, b)
}

/// No key comes before itself.
pub proof fn lemma_key_irreflexive(a: Seq<u8>)
    ensures
        !key_lt(a, a),
    decreases a.len(),
{
    if a.len() > 0 {
        lemma_key_irreflexive(a.skip(1));
    }
}

/// The order is transitive.
pub proof fn lemma_key_transitive(a: Seq<u8>, b: Seq<u8>, c: Seq<u8>)
    requires
        key_lt(a, b),
        key_lt(b, c),
    ensures
        key_lt(a, c),
    decreases a.len(),
{
    if a.len() > 0 && a[0] == b[0] && b[0] == c[0] {
        lemma_key_transitive(a.skip(1), b.skip(1), c.skip(1));
    }
}

/// Two keys that are not ordered either way are the same key.
pub proof fn lemma_key_total(a: Seq<u8>, b: Seq<u8>)
    ensures
        key_lt(a, b) || key_lt(b, a) || a == b,
    decreases a.len(),
{
    if a.len() > 0 && b.len() > 0 && a[0] == b[0] {
        lemma_key_total(a.skip(1), b.skip(1));
        if a.skip(1) == b.skip(1) {
            assert(a =~= seq![a[0]] + a.skip(1));
            assert(b =~= seq![b[0]] + b.skip(1));
        }
    } else if a.len() == 0 && b.len() == 0 {
        assert(a =~= b);
    }
}

/// The first place where two keys differ, or the end of the shorter one.
proof fn lemma_common(a: Seq<u8>, b: Seq<u8>) -> (i: int)
    ensures
        0 <= i <= a.len(),
        i <= b.len(),
        a.take(i) == b.take(i),
        i < a.len() && i < b.len() ==> a[i] != b[i],
        key_lt(a, b) == (if i < a.len() && i < b.len() {
            a[i] < b[i]
        } else {
            i < b.len()
        }),
    decreases a.len(),
{
    if a.len() == 0 || b.len() == 0 || a[0] != b[0] {
        assert(a.take(0) =~= b.take(0));
        0
    } else {
        let j = lemma_common(a.skip(1), b.skip(1));
        assert(a.take(j + 1) =~= seq![a[0]] + a.skip(1).take(j));
        assert(b.take(j + 1) =~= seq![b[0]] + b.skip(1).take(j));
        j + 1
    }
}

/// Keys are in the lexicographic order of their bytes, as numbers: one comes before another
/// exactly when they agree up to some place, where either the first one ends and the other
/// does not, or the first one has the smaller byte.
pub proof fn law_key_order(a: Seq<u8>, b: Seq<u8>)
    ensures
        key_lt(a, b) <==> exists|i: int|
            0 <= i <= a.len() && i < b.len() && #[trigger] a.take(i) == b.take(i) && (i == a.len()
                || (a[i] as int) < (b[i] as int)),
{
    let i = lemma_common(a, b);
    assert(a.take(i) == b.take(i));
    if exists|j: int|
        0 <= j <= a.len() && j < b.len() && #[trigger] a.take(j) == b.take(j) && (j == a.len()
            || (a[j] as int) < (b[j] as int)) {
        let j = choose|j: int|
            0 <= j <= a.len() && j < b.len() && #[trigger] a.take(j) == b.take(j) && (j == a.len()
                || (a[j] as int) < (b[j] as int));
        if j > i {
            assert(a.take(j)[i] == b.take(j)[i]);
        } else if j < i {
            assert(a.take(i)[j] == b.take(i)[j]);
        }
    }
}

/// A key is at or before another exactly when the other does not come before it.
pub proof fn law_key_le(a: Seq<u8>, b: Seq<u8>)
    ensures
        key_le(a, b) <==> !key_lt(b, a),
{
    lemma_key_total(a, b);
    lemma_key_irreflexive(a);
    if key_lt(a, b) && key_lt(b, a) {
        lemma_key_transitive(a, b, a);
    }
}

/// What comparing two keys finds.
#[derive(Clone, Copy, Debug, PartialEq, Eq, Structural)]
pub enum KeyOrder {
    Less,
    Equal,
    Greater,
}

/// Compares two keys byte by byte.
pub fn compare_keys(a: &[u8], b: &[u8]) -> (r: KeyOrder)
    ensures
        r == KeyOrder::Less <==> key_lt(a@, b@),
        r == KeyOrder::Equal <==> a@ == b@,
        r == KeyOrder::Greater <==> key_lt(b@, a@),
{
    let mut i: usize = 0;
    proof {
        assert(a@.skip(0) =~= a@);
        assert(b@.skip(0) =~= b@);
        lemma_key_irreflexive(a@);
        lemma_key_irreflexive(b@);
        if key_lt(a@, b@) && key_lt(b@, a@) {
            lemma_key_transitive(a@, b@, a@);
        }
    }
    while i < a.len() && i < b.len()
        invariant
            i <= a@.len(),
            i <= b@.len(),
            a@.take(i as int) == b@.take(i as int),
            key_lt(a@, b@) == key_lt(a@.skip(i as int), b@.skip(i as int)),
            key_lt(b@, a@) == key_lt(b@.skip(i as int), a@.skip(i as int)),
            !(key_lt(a@, b@) && key_lt(b@, a@)),
            a@ == b@ ==> !key_lt(a@, b@) && !key_lt(b@, a@),
        decreases a@.len() - i,
    {
        let x: u8 = a[i];
        let y: u8 = b[i];
        proof {
            assert(a@.skip(i as int).skip(1) =~= a@.skip(i + 1));
            assert(b@.skip(i as int).skip(1) =~= b@.skip(i + 1));
            assert(a@.take(i + 1) =~= a@.take(i as int).push(a@[i as int]));
            assert(b@.take(i + 1) =~= b@.take(i as int).push(b@[i as int]));
        }
        if x < y {
            return KeyOrder::Less;
        }
        if y < x {
            return KeyOrder::Greater;
        }
        i = i + 1;
    }
    if i < b.len() {
        KeyOrder::Less
    } else if i < a.len() {
        KeyOrder::Greater
    } else {
        proof {
            assert(a@.take(i as int) =~= a@);
            assert(b@.take(i as int) =~= b@);
        }
        KeyOrder::Equal
    }
}

} // verus!
