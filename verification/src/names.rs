//! The order of property and component names.
//!
//! Names are ordered as strings are: lexicographically by the bytes of their
//! UTF-8 encoding. The order is a strict total order, which is what makes a
//! listing sorted by name unique.

use vstd::prelude::*;
use vstd::string::*;
use vstd::utf8::*;

verus! {

/// Whether byte sequence `a` comes before `b`, looking only at the bytes from
/// index `i` on.
pub open spec fn bytes_lt_from(a: Seq<u8>, b: Seq<u8>, i: int) -> bool
    decreases a.len() - i,
{
    if i < 0 || i >= b.len() {
        false
    } else if i >= a.len() {
        true
    } else if a[i] != b[i] {
        a[i] < b[i]
    } else {
        bytes_lt_from(a, b, i + 1)
    }
}

/// Lexicographic order on byte sequences: a proper prefix comes first, and
/// otherwise the first differing byte decides.
pub open spec fn bytes_lt(a: Seq<u8>, b: Seq<u8>) -> bool {
    bytes_lt_from(a, b, 0)
}

/// The order of names: the lexicographic order of their UTF-8 encodings.
pub open spec fn name_lt(a: Seq<char>, b: Seq<char>) -> bool {
    bytes_lt(encode_utf8(a), encode_utf8(b))
}

/// Whether the names in `names` are strictly increasing.
pub open spec fn strictly_sorted(names: Seq<Seq<char>>) -> bool {
    forall|i: int, j: int| 0 <= i < j < names.len() ==> name_lt(names[i], names[j])
}

proof fn lemma_bytes_irreflexive_from(a: Seq<u8>, i: int)
    requires
        0 <= i,
    ensures
        !bytes_lt_from(a, a, i),
    decreases a.len() - i,
{
    if i < a.len() {
        lemma_bytes_irreflexive_from(a, i + 1);
    }
}

proof fn lemma_bytes_transitive_from(a: Seq<u8>, b: Seq<u8>, c: Seq<u8>, i: int)
    requires
        0 <= i,
        bytes_lt_from(a, b, i),
        bytes_lt_from(b, c, i),
    ensures
        bytes_lt_from(a, c, i),
    decreases a.len() - i,
{
    if i < a.len() && a[i] == b[i] && b[i] == c[i] {
        lemma_bytes_transitive_from(a, b, c, i + 1);
    }
}

proof fn lemma_bytes_total_from(a: Seq<u8>, b: Seq<u8>, i: int)
    requires
        0 <= i <= a.len(),
        i <= b.len(),
        forall|j: int| 0 <= j < i ==> a[j] == b[j],
        !bytes_lt_from(a, b, i),
        !bytes_lt_from(b, a, i),
    ensures
        a =~= b,
    decreases a.len() - i,
{
    if i < a.len() && i < b.len() {
        lemma_bytes_total_from(a, b, i + 1);
    }
}

/// No name comes before itself.
pub proof fn lemma_name_lt_irreflexive(a: Seq<char>)
    ensures
        !name_lt(a, a),
{
    lemma_bytes_irreflexive_from(encode_utf8(a), 0);
}

/// The order of names is transitive.
pub proof fn lemma_name_lt_transitive(a: Seq<char>, b: Seq<char>, c: Seq<char>)
    requires
        name_lt(a, b),
        name_lt(b, c),
    ensures
        name_lt(a, c),
{
    lemma_bytes_transitive_from(encode_utf8(a), encode_utf8(b), encode_utf8(c), 0);
}

/// No two names come before each other.
pub proof fn lemma_name_lt_asymmetric(a: Seq<char>, b: Seq<char>)
    requires
        name_lt(a, b),
    ensures
        !name_lt(b, a),
{
    if name_lt(b, a) {
        lemma_name_lt_transitive(a, b, a);
        lemma_name_lt_irreflexive(a);
    }
}

/// Of two different names one comes before the other.
pub proof fn lemma_name_lt_total(a: Seq<char>, b: Seq<char>)
    requires
        !name_lt(a, b),
        !name_lt(b, a),
    ensures
        a == b,
{
    lemma_bytes_total_from(encode_utf8(a), encode_utf8(b), 0);
    encode_utf8_decode_utf8(a);
    encode_utf8_decode_utf8(b);
}

/// In a strictly increasing sequence of names no name occurs twice.
pub proof fn lemma_strictly_sorted_distinct(names: Seq<Seq<char>>, i: int, j: int)
    requires
        strictly_sorted(names),
        0 <= i < names.len(),
        0 <= j < names.len(),
        names[i] == names[j],
    ensures
        i == j,
{
    lemma_name_lt_irreflexive(names[i]);
}

/// Two strictly increasing sequences that hold the same names are equal.
pub proof fn lemma_strictly_sorted_unique(a: Seq<Seq<char>>, b: Seq<Seq<char>>)
    requires
        strictly_sorted(a),
        strictly_sorted(b),
        forall|k: Seq<char>| a.contains(k) <==> b.contains(k),
    ensures
        a == b,
    decreases a.len(),
{
    if a.len() == 0 {
        if b.len() > 0 {
            assert(b.contains(b[0]));
        }
        assert(a =~= b);
    } else if b.len() == 0 {
        assert(a.contains(a[0]));
    } else {
        // The least name of either sequence is its first.
        assert(a.contains(a[0]));
        assert(b.contains(b[0]));
        let ia = choose|i: int| 0 <= i < b.len() && b[i] == a[0];
        let ib = choose|i: int| 0 <= i < a.len() && a[i] == b[0];
        if ia > 0 && ib > 0 {
            lemma_name_lt_asymmetric(b[0], b[ia]);
        }
        if ia > 0 && ib == 0 {
            lemma_name_lt_irreflexive(b[0]);
        }
        if ia == 0 && ib > 0 {
            lemma_name_lt_irreflexive(a[0]);
        }
        assert(a[0] == b[0]);
        let ta = a.drop_first();
        let tb = b.drop_first();
        assert forall|k: Seq<char>| ta.contains(k) <==> tb.contains(k) by {
            if ta.contains(k) {
                let i = choose|i: int| 0 <= i < ta.len() && ta[i] == k;
                assert(a[i + 1] == k);
                assert(a.contains(k));
                let j = choose|j: int| 0 <= j < b.len() && b[j] == k;
                if j == 0 {
                    lemma_name_lt_irreflexive(a[0]);
                }
                assert(tb[j - 1] == k);
            }
            if tb.contains(k) {
                let i = choose|i: int| 0 <= i < tb.len() && tb[i] == k;
                assert(b[i + 1] == k);
                assert(b.contains(k));
                let j = choose|j: int| 0 <= j < a.len() && a[j] == k;
                if j == 0 {
                    lemma_name_lt_irreflexive(b[0]);
                }
                assert(ta[j - 1] == k);
            }
        }
        assert(strictly_sorted(ta)) by {
            assert forall|i: int, j: int| 0 <= i < j < ta.len() implies name_lt(ta[i], ta[j]) by {
                assert(name_lt(a[i + 1], a[j + 1]));
            }
        }
        assert(strictly_sorted(tb)) by {
            assert forall|i: int, j: int| 0 <= i < j < tb.len() implies name_lt(tb[i], tb[j]) by {
                assert(name_lt(b[i + 1], b[j + 1]));
            }
        }
        lemma_strictly_sorted_unique(ta, tb);
        assert(a =~= seq![a[0]] + ta);
        assert(b =~= seq![b[0]] + tb);
    }
}

/// Whether name `a` comes before name `b`.
pub fn name_less(a: &str, b: &str) -> (less: bool)
    ensures
        less == name_lt(a@, b@),
{
    let x = a.as_bytes();
    let y = b.as_bytes();
    let mut i: usize = 0;
    while i < x.len() && i < y.len()
        invariant
            i <= x.len(),
            i <= y.len(),
            x@ == encode_utf8(a@),
            y@ == encode_utf8(b@),
            bytes_lt(x@, y@) == bytes_lt_from(x@, y@, i as int),
        decreases x.len() - i,
    {
        if x[i] != y[i] {
            return x[i] < y[i];
        }
        i += 1;
    }
    i < y.len()
}

/// Whether two names are the same.
pub fn name_equal(a: &str, b: &str) -> (same: bool)
    ensures
        same == (a@ == b@),
{
    let x = a.as_bytes();
    let y = b.as_bytes();
    proof {
        encode_utf8_decode_utf8(a@);
        encode_utf8_decode_utf8(b@);
    }
    if x.len() != y.len() {
        return false;
    }
    let mut i: usize = 0;
    while i < x.len()
        invariant
            i <= x.len(),
            x.len() == y.len(),
            x@ == encode_utf8(a@),
            y@ == encode_utf8(b@),
            forall|j: int| 0 <= j < i ==> x@[j] == y@[j],
        decreases x.len() - i,
    {
        if x[i] != y[i] {
            return false;
        }
        i += 1;
    }
    assert(x@ =~= y@);
    true
}

/// Whether `name` begins with `prefix`.
pub fn starts_with(name: &str, prefix: &str) -> (begins: bool)
    ensures
        begins == prefix@.is_prefix_of(name@),
{
    let n = prefix.unicode_len();
    if name.unicode_len() < n {
        return false;
    }
    let mut i: usize = 0;
    while i < n
        invariant
            i <= n,
            n == prefix@.len(),
            n <= name@.len(),
            forall|j: int| 0 <= j < i ==> name@[j] == prefix@[j],
        decreases n - i,
    {
        if name.get_char(i) != prefix.get_char(i) {
            assert(name@.subrange(0, n as int)[i as int] != prefix@[i as int]);
            return false;
        }
        i += 1;
    }
    assert(prefix@ =~= name@.subrange(0, n as int));
    true
}

} // verus!
