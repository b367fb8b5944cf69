//! Ordering and comparison of names.
//!
//! Names are ordered by the bytes of their UTF-8 encoding, which is the order
//! of their code points and depends on no locale.

use vstd::prelude::*;
use vstd::utf8::*;
use vstd::string::*;

verus! {

/// Lexicographic order of two byte sequences that agree on their first `i` bytes:
/// the first differing byte decides, and a proper prefix comes first.
pub open spec fn bytes_less_from(a: Seq<u8>, b: Seq<u8>, i: int) -> bool
    decreases a.len() - i,
{
    if i < 0 || i >= b.len() {
        false
    } else if i >= a.len() {
        true
    } else if a[i] != b[i] {
        a[i] < b[i]
    } else {
        bytes_less_from(a, b, i + 1)
    }
}

/// `a` comes strictly before `b` in lexicographic byte order.
pub open spec fn bytes_less(a: Seq<u8>, b: Seq<u8>) -> bool {
    bytes_less_from(a, b, 0)
}

/// The name `a` comes strictly before the name `b`.
pub open spec fn name_less(a: Seq<char>, b: Seq<char>) -> bool {
    bytes_less(encode_utf8(a), encode_utf8(b))
}

proof fn lemma_bytes_less_from_irreflexive(a: Seq<u8>, i: int)
    ensures
        !bytes_less_from(a, a, i),
    decreases a.len() - i,
{
    if 0 <= i < a.len() {
        lemma_bytes_less_from_irreflexive(a, i + 1);
    }
}

proof fn lemma_bytes_less_from_transitive(a: Seq<u8>, b: Seq<u8>, c: Seq<u8>, i: int)
    requires
        bytes_less_from(a, b, i),
        bytes_less_from(b, c, i),
    ensures
        bytes_less_from(a, c, i),
    decreases a.len() - i,
{
    if i < a.len() && a[i] == b[i] && b[i] == c[i] {
        lemma_bytes_less_from_transitive(a, b, c, i + 1);
    }
}

proof fn lemma_bytes_less_from_connected(a: Seq<u8>, b: Seq<u8>, i: int)
    requires
        0 <= i <= a.len(),
        i <= b.len(),
        a.subrange(0, i) == b.subrange(0, i),
    ensures
        bytes_less_from(a, b, i) || bytes_less_from(b, a, i) || a == b,
    decreases a.len() - i,
{
    if i == a.len() || i == b.len() {
        if a.len() == b.len() {
            assert(a.subrange(0, i) == a);
            assert(b.subrange(0, i) == b);
        }
    } else if a[i] == b[i] {
        assert(a.subrange(0, i + 1) == a.subrange(0, i).push(a[i]));
        assert(b.subrange(0, i + 1) == b.subrange(0, i).push(b[i]));
        lemma_bytes_less_from_connected(a, b, i + 1);
    }
}

/// No byte sequence comes before itself.
pub proof fn lemma_bytes_less_irreflexive(a: Seq<u8>)
    ensures
        !bytes_less(a, a),
{
    lemma_bytes_less_from_irreflexive(a, 0);
}

/// The byte order is transitive.
pub proof fn lemma_bytes_less_transitive(a: Seq<u8>, b: Seq<u8>, c: Seq<u8>)
    requires
        bytes_less(a, b),
        bytes_less(b, c),
    ensures
        bytes_less(a, c),
{
    lemma_bytes_less_from_transitive(a, b, c, 0);
}

/// Of two different byte sequences one comes before the other.
pub proof fn lemma_bytes_less_connected(a: Seq<u8>, b: Seq<u8>)
    ensures
        bytes_less(a, b) || bytes_less(b, a) || a == b,
{
    assert(a.subrange(0, 0) == b.subrange(0, 0));
    lemma_bytes_less_from_connected(a, b, 0);
}

/// Two names with the same encoding are the same name.
pub proof fn lemma_encoding_injective(a: Seq<char>, b: Seq<char>)
    requires
        encode_utf8(a) == encode_utf8(b),
    ensures
        a == b,
{
    encode_utf8_decode_utf8(a);
    encode_utf8_decode_utf8(b);
}

/// The name order is a strict total order: no name comes before itself, of two
/// different names exactly one comes first, and the order is transitive.
pub proof fn lemma_name_less_strict_total(a: Seq<char>, b: Seq<char>, c: Seq<char>)
    ensures
        !name_less(a, a),
        a != b ==> (name_less(a, b) || name_less(b, a)),
        !(name_less(a, b) && name_less(b, a)),
        name_less(a, b) && name_less(b, c) ==> name_less(a, c),
{
    let ea = encode_utf8(a);
    let eb = encode_utf8(b);
    let ec = encode_utf8(c);
    lemma_bytes_less_irreflexive(ea);
    lemma_bytes_less_connected(ea, eb);
    if ea == eb {
        lemma_encoding_injective(a, b);
    }
    if bytes_less(ea, eb) && bytes_less(eb, ea) {
        lemma_bytes_less_transitive(ea, eb, ea);
    }
    if bytes_less(ea, eb) && bytes_less(eb, ec) {
        lemma_bytes_less_transitive(ea, eb, ec);
    }
}

/// Whether the name `a` comes strictly before the name `b`.
pub fn name_before(a: &str, b: &str) -> (r: bool)
    ensures
        r == name_less(a@, b@),
{
    let x = a.as_bytes();
    let y = b.as_bytes();
    let mut i: usize = 0;
    while i < x.len() && i < y.len()
        invariant
            i <= x@.len(),
            i <= y@.len(),
            x@ == encode_utf8(a@),
            y@ == encode_utf8(b@),
            bytes_less(x@, y@) == bytes_less_from(x@, y@, i as int),
        decreases x@.len() - i,
    {
        if x[i] != y[i] {
            return x[i] < y[i];
        }
        assert(bytes_less_from(x@, y@, i as int) == bytes_less_from(x@, y@, i + 1));
        i += 1;
    }
    i < y.len()
}

/// Whether two strings hold the same text.
pub fn same_text(a: &str, b: &str) -> (r: bool)
    ensures
        r == (a@ == b@),
{
    let x = a.as_bytes();
    let y = b.as_bytes();
    if x.len() != y.len() {
        return false;
    }
    let mut i: usize = 0;
    while i < x.len()
        invariant
            i <= x@.len(),
            x@.len() == y@.len(),
            x@ == encode_utf8(a@),
            y@ == encode_utf8(b@),
            x@.subrange(0, i as int) == y@.subrange(0, i as int),
        decreases x@.len() - i,
    {
        if x[i] != y[i] {
            return false;
        }
        assert(x@.subrange(0, i + 1) == x@.subrange(0, i as int).push(x@[i as int]));
        assert(y@.subrange(0, i + 1) == y@.subrange(0, i as int).push(y@[i as int]));
        i += 1;
    }
    proof {
        assert(x@ == x@.subrange(0, i as int));
        assert(y@ == y@.subrange(0, i as int));
        lemma_encoding_injective(a@, b@);
    }
    true
}

/// Whether the text begins with the character `c`.
pub fn starts_with_char(s: &str, c: char) -> (r: bool)
    ensures
        r == (s@.len() > 0 && s@[0] == c),
{
    !s.is_empty() && s.get_char(0) == c
}

} // verus!
