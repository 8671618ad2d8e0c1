//! Key extraction and raw byte ordering.
use std::cmp::Ordering;
use vstd::prelude::*;

verus! {

/// The byte that ends a record's key: a comma.
pub const DELIMITER: u8 = 0x2c;

/// Length of the key of `r`: the number of bytes before the first delimiter,
/// or the whole record when it holds none.
pub open spec fn key_end(r: Seq<u8>) -> nat
    decreases r.len(),
{
    if r.len() == 0 || r[0] == DELIMITER {
        0
    } else {
        1 + key_end(r.drop_first())
    }
}

/// The key of record `r`.
pub open spec fn key_of(r: Seq<u8>) -> Seq<u8> {
    r.subrange(0, key_end(r) as int)
}

/// Strict lexicographic order on raw bytes; a proper prefix comes first.
pub open spec fn lex_lt(a: Seq<u8>, b: Seq<u8>) -> bool
    decreases a.len(),
{
    if b.len() == 0 {
        false
    } else if a.len() == 0 {
        true
    } else if a[0] != b[0] {
        a[0] < b[0]
    } else {
        lex_lt(a.drop_first(), b.drop_first())
    }
}

/// Three-way comparison under `lex_lt`.
pub open spec fn lex_cmp(a: Seq<u8>, b: Seq<u8>) -> Ordering {
    if a == b {
        Ordering::Equal
    } else if lex_lt(a, b) {
        Ordering::Less
    } else {
        Ordering::Greater
    }
}

proof fn lemma_key_end_is(r: Seq<u8>, e: int)
    requires
        0 <= e <= r.len(),
        forall|i: int| 0 <= i < e ==> r[i] != DELIMITER,
        e < r.len() ==> r[e] == DELIMITER,
    ensures
        key_end(r) == e,
    decreases r.len(),
{
    if r.len() > 0 && r[0] != DELIMITER {
        let t = r.drop_first();
        assert forall|i: int| 0 <= i < e - 1 implies t[i] != DELIMITER by {
            assert(t[i] == r[i + 1]);
        }
        lemma_key_end_is(t, e - 1);
    }
}

/// `lex_lt` is irreflexive and never holds in both directions.
pub proof fn lemma_lex_lt_asymmetric(a: Seq<u8>, b: Seq<u8>)
    ensures
        !lex_lt(a, a),
        lex_lt(a, b) ==> !lex_lt(b, a),
    decreases a.len(),
{
    if a.len() > 0 {
        lemma_lex_lt_asymmetric(a.drop_first(), a.drop_first());
        if b.len() > 0 {
            lemma_lex_lt_asymmetric(a.drop_first(), b.drop_first());
        }
    }
}

/// Two different byte strings are ordered one way or the other.
pub proof fn lemma_lex_lt_total(a: Seq<u8>, b: Seq<u8>)
    ensures
        a != b ==> lex_lt(a, b) || lex_lt(b, a),
    decreases a.len(),
{
    if a.len() > 0 && b.len() > 0 && a[0] == b[0] {
        lemma_lex_lt_total(a.drop_first(), b.drop_first());
        if a.drop_first() == b.drop_first() {
            assert(a =~= seq![a[0]] + a.drop_first());
            assert(b =~= seq![b[0]] + b.drop_first());
        }
    } else if a.len() == 0 && b.len() == 0 {
        assert(a =~= b);
    }
}

/// `lex_lt` is transitive.
pub proof fn lemma_lex_lt_transitive(a: Seq<u8>, b: Seq<u8>, c: Seq<u8>)
    requires
        lex_lt(a, b),
        lex_lt(b, c),
    ensures
        lex_lt(a, c),
    decreases a.len(),
{
    if a.len() > 0 && a[0] == b[0] && b[0] == c[0] {
        lemma_lex_lt_transitive(a.drop_first(), b.drop_first(), c.drop_first());
    }
}

/// After a common prefix of length `i`, the order is decided by the rest.
proof fn lemma_lex_lt_skip(a: Seq<u8>, b: Seq<u8>, i: int)
    requires
        0 <= i <= a.len(),
        i <= b.len(),
        a.subrange(0, i) == b.subrange(0, i),
    ensures
        lex_lt(a, b) == lex_lt(a.subrange(i, a.len() as int), b.subrange(i, b.len() as int)),
    decreases i,
{
    if i > 0 {
        assert(a[0] == a.subrange(0, i)[0]);
        assert(b[0] == b.subrange(0, i)[0]);
        let a1 = a.drop_first();
        let b1 = b.drop_first();
        assert(a1.subrange(0, i - 1) =~= a.subrange(0, i).drop_first());
        assert(b1.subrange(0, i - 1) =~= b.subrange(0, i).drop_first());
        lemma_lex_lt_skip(a1, b1, i - 1);
        assert(a1.subrange(i - 1, a1.len() as int) =~= a.subrange(i, a.len() as int));
        assert(b1.subrange(i - 1, b1.len() as int) =~= b.subrange(i, b.len() as int));
    } else {
        assert(a.subrange(0, a.len() as int) =~= a);
        assert(b.subrange(0, b.len() as int) =~= b);
    }
}

/// Number of bytes in the key of `record`.
pub fn key_len(record: &[u8]) -> (n: usize)
    ensures
        n == key_end(record@),
        n <= record@.len(),
{
    let mut i: usize = 0;
    while i < record.len() && record[i] != DELIMITER
        invariant
            i <= record@.len(),
            forall|j: int| 0 <= j < i ==> record@[j] != DELIMITER,
        decreases record@.len() - i,
    {
        i = i + 1;
    }
    proof {
        lemma_key_end_is(record@, i as int);
    }
    i
}

/// Compares the first `la` bytes of `a` with the first `lb` bytes of `b`.
pub fn compare_prefixes(a: &[u8], la: usize, b: &[u8], lb: usize) -> (r: Ordering)
    requires
        la <= a@.len(),
        lb <= b@.len(),
    ensures
        r == lex_cmp(a@.subrange(0, la as int), b@.subrange(0, lb as int)),
{
    let ghost x = a@.subrange(0, la as int);
    let ghost y = b@.subrange(0, lb as int);
    let mut i: usize = 0;
    while i < la && i < lb && a[i] == b[i]
        invariant
            i <= la <= a@.len(),
            i <= lb <= b@.len(),
            x == a@.subrange(0, la as int),
            y == b@.subrange(0, lb as int),
            x.subrange(0, i as int) =~= y.subrange(0, i as int),
        decreases la - i,
    {
        assert(x.subrange(0, i + 1) =~= y.subrange(0, i + 1)) by {
            assert(x.subrange(0, i + 1) =~= x.subrange(0, i as int).push(x[i as int]));
            assert(y.subrange(0, i + 1) =~= y.subrange(0, i as int).push(y[i as int]));
        }
        i = i + 1;
    }
    proof {
        lemma_lex_lt_skip(x, y, i as int);
        lemma_lex_lt_asymmetric(x, y);
        lemma_lex_lt_total(x, y);
    }
    if i == la && i == lb {
        assert(x =~= x.subrange(0, i as int));
        assert(y =~= y.subrange(0, i as int));
        Ordering::Equal
    } else if i == la {
        assert(x != y);
        Ordering::Less
    } else if i == lb {
        assert(x != y);
        assert(!lex_lt(x, y));
        Ordering::Greater
    } else if a[i] < b[i] {
        assert(x[i as int] != y[i as int]);
        Ordering::Less
    } else {
        assert(x[i as int] != y[i as int]);
        Ordering::Greater
    }
}

/// Compares the keys of two records in raw byte order.
pub fn compare_keys(a: &[u8], b: &[u8]) -> (r: Ordering)
    ensures
        r == lex_cmp(key_of(a@), key_of(b@)),
{
    let la = key_len(a);
    let lb = key_len(b);
    compare_prefixes(a, la, b, lb)
}

/// Whether two records are byte-for-byte identical.
pub fn same_bytes(a: &[u8], b: &[u8]) -> (r: bool)
    ensures
        r == (a@ == b@),
{
    if a.len() != b.len() {
        return false;
    }
    let mut i: usize = 0;
    while i < a.len()
        invariant
            a@.len() == b@.len(),
            i <= a@.len(),
            forall|j: int| 0 <= j < i ==> a@[j] == b@[j],
        decreases a@.len() - i,
    {
        if a[i] != b[i] {
            return false;
        }
        i = i + 1;
    }
    assert(a@ =~= b@);
    true
}

} // verus!
