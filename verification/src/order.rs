//! The order of strings by their UTF-8 bytes, which is how `String` and
//! `str` compare.

use vstd::prelude::*;
use vstd::utf8::*;

verus! {

/// Lexicographic order on byte sequences: a proper prefix comes first.
pub open spec fn byte_lt(a: Seq<u8>, b: Seq<u8>) -> bool
    decreases a.len(),
{
    if b.len() == 0 {
        false
    } else if a.len() == 0 {
        true
    } else if a[0] != b[0] {
        a[0] < b[0]
    } else {
        byte_lt(a.drop_first(), b.drop_first())
    }
}

/// The order of two texts as `String`'s `Ord` compares them.
pub open spec fn text_lt(a: Seq<char>, b: Seq<char>) -> bool {
    byte_lt(encode_utf8(a), encode_utf8(b))
}

/// Nothing comes before itself, and of two different sequences exactly one
/// comes first.
pub proof fn lemma_byte_lt_total(a: Seq<u8>, b: Seq<u8>)
    ensures
        !byte_lt(a, a),
        !(byte_lt(a, b) && byte_lt(b, a)),
        a != b ==> byte_lt(a, b) || byte_lt(b, a),
    decreases a.len(),
{
    if a.len() > 0 && b.len() > 0 {
        lemma_byte_lt_total(a.drop_first(), b.drop_first());
        lemma_byte_lt_total(a.drop_first(), a.drop_first());
        if a != b && a[0] == b[0] {
            assert(a.drop_first() != b.drop_first()) by {
                if a.drop_first() == b.drop_first() {
                    assert(a == seq![a[0]] + a.drop_first());
                    assert(b == seq![b[0]] + b.drop_first());
                }
            }
        }
    } else if a.len() > 0 {
        lemma_byte_lt_total(a.drop_first(), a.drop_first());
    } else if b.len() == 0 {
        assert(a == b);
    }
}

/// The order is transitive.
pub proof fn lemma_byte_lt_transitive(a: Seq<u8>, b: Seq<u8>, c: Seq<u8>)
    requires
        byte_lt(a, b),
        byte_lt(b, c),
    ensures
        byte_lt(a, c),
    decreases a.len(),
{
    if a.len() > 0 && b.len() > 0 && c.len() > 0 && a[0] == b[0] && b[0] == c[0] {
        lemma_byte_lt_transitive(a.drop_first(), b.drop_first(), c.drop_first());
    }
}

/// Different texts have different encodings.
pub proof fn lemma_encode_injective(a: Seq<char>, b: Seq<char>)
    ensures
        encode_utf8(a) == encode_utf8(b) ==> a == b,
{
    encode_utf8_decode_utf8(a);
    encode_utf8_decode_utf8(b);
}

/// `text_lt` is a strict total order on texts.
pub proof fn lemma_text_lt_total(a: Seq<char>, b: Seq<char>)
    ensures
        !text_lt(a, a),
        !(text_lt(a, b) && text_lt(b, a)),
        a != b ==> text_lt(a, b) || text_lt(b, a),
{
    lemma_encode_injective(a, b);
    lemma_byte_lt_total(encode_utf8(a), encode_utf8(b));
}

pub proof fn lemma_text_lt_transitive(a: Seq<char>, b: Seq<char>, c: Seq<char>)
    requires
        text_lt(a, b),
        text_lt(b, c),
    ensures
        text_lt(a, c),
{
    lemma_byte_lt_transitive(encode_utf8(a), encode_utf8(b), encode_utf8(c));
}

proof fn lemma_byte_lt_skip(a: Seq<u8>, b: Seq<u8>, i: int)
    requires
        0 <= i < a.len(),
        i < b.len(),
        a[i] == b[i],
    ensures
        byte_lt(a.skip(i), b.skip(i)) == byte_lt(a.skip(i + 1), b.skip(i + 1)),
{
    assert(a.skip(i).drop_first() == a.skip(i + 1));
    assert(b.skip(i).drop_first() == b.skip(i + 1));
}

/// Whether `a` sorts before `b` (as `a < b` on strings).
pub fn text_less(a: &str, b: &str) -> (res: bool)
    ensures
        res == text_lt(a@, b@),
{
    let x = a.as_bytes();
    let y = b.as_bytes();
    let mut i: usize = 0;
    assert(x@.skip(0) == x@);
    assert(y@.skip(0) == y@);
    while i < x.len() && i < y.len()
        invariant
            x@ == encode_utf8(a@),
            y@ == encode_utf8(b@),
            i <= x@.len(),
            i <= y@.len(),
            byte_lt(x@, y@) == byte_lt(x@.skip(i as int), y@.skip(i as int)),
        decreases x@.len() - i,
    {
        if x[i] != y[i] {
            return x[i] < y[i];
        }
        proof {
            lemma_byte_lt_skip(x@, y@, i as int);
        }
        i = i + 1;
    }
    x.len() - i < y.len() - i
}

} // verus!
