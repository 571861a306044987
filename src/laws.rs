//! Properties that relate several operations of `Str`.
use vstd::prelude::*;
use vstd::std_specs::cmp::PartialEqSpec;
use vstd::string::*;
use vstd::utf8::*;

use crate::fast_str::Str;

verus! {

/// The UTF-8 encoding of joined text is the join of the two encodings.
proof fn lemma_encode_utf8_concat(a: Seq<char>, b: Seq<char>)
    ensures
        encode_utf8(a + b) == encode_utf8(a) + encode_utf8(b),
    decreases a.len(),
{
    if a.len() == 0 {
        assert(a + b =~= b);
        assert(encode_utf8(a) + encode_utf8(b) =~= encode_utf8(b));
    } else {
        lemma_encode_utf8_concat(a.drop_first(), b);
        assert((a + b).drop_first() =~= a.drop_first() + b);
        assert((a + b)[0] == a[0]);
        assert(encode_utf8(a + b) =~= encode_utf8(a) + encode_utf8(b));
    }
}

/// When the encoding of `p` is a byte prefix of the encoding of `s`, `p` is a
/// prefix of `s`: UTF-8 never splits a character across that boundary.
proof fn lemma_encode_utf8_prefix(p: Seq<char>, s: Seq<char>)
    requires
        encode_utf8(p).is_prefix_of(encode_utf8(s)),
    ensures
        p.is_prefix_of(s),
    decreases p.len(),
{
    if p.len() == 0 {
        assert(p =~= s.subrange(0, 0));
    } else {
        let ep = encode_utf8(p);
        let es = encode_utf8(s);
        encode_utf8_first_scalar(p);
        assert(ep.len() > 0);
        assert(es.len() > 0);
        if s.len() == 0 {
            assert(false);
        }
        encode_utf8_first_scalar(s);
        assert(ep[0] == es[0]);
        if ep.len() > 1 {
            assert(ep[1] == es[1]);
        }
        if ep.len() > 2 {
            assert(ep[2] == es[2]);
        }
        if ep.len() > 3 {
            assert(ep[3] == es[3]);
        }
        assert(decode_first_scalar(ep) == decode_first_scalar(es));
        assert(length_of_first_scalar(ep) == length_of_first_scalar(es));
        char_u32_cast(p[0], p[0] as u32);
        char_u32_cast(s[0], s[0] as u32);
        assert(p[0] == s[0]);
        let w = encode_scalar(p[0] as u32).len() as int;
        assert(encode_utf8(p.drop_first()) =~= ep.subrange(w, ep.len() as int));
        assert(encode_utf8(s.drop_first()) =~= es.subrange(w, es.len() as int));
        assert(encode_utf8(p.drop_first()) =~= encode_utf8(s.drop_first()).subrange(
            0,
            encode_utf8(p.drop_first()).len() as int,
        ));
        lemma_encode_utf8_prefix(p.drop_first(), s.drop_first());
        assert forall|i: int| 0 < i < p.len() implies p[i] == s[i] by {
            assert(p[i] == p.drop_first()[i - 1]);
            assert(s[i] == s.drop_first()[i - 1]);
        }
        assert(p =~= s.subrange(0, p.len() as int));
    }
}

/// A value built from text holds as many bytes as the text's UTF-8
/// encoding, and those bytes are valid UTF-8 that decode back to exactly the
/// text, so rendering the value reproduces it.
pub proof fn lemma_from_text_round_trip(s: &str, v: Str)
    requires
        v@ == s.spec_bytes(),
    ensures
        v@.len() == s.spec_bytes().len(),
        valid_utf8(v@),
        decode_utf8(v@) == s@,
{
    encode_utf8_valid_utf8(s@);
    encode_utf8_decode_utf8(s@);
}

/// Values built from the same text are equal, and values built from
/// different texts are not.
pub proof fn lemma_from_text_eq(s: &str, t: &str, a: Str, b: Str)
    requires
        a@ == s.spec_bytes(),
        b@ == t.spec_bytes(),
    ensures
        a.eq_spec(&b) <==> s@ == t@,
{
    encode_utf8_decode_utf8(s@);
    encode_utf8_decode_utf8(t@);
}

/// Every value starts with itself, and of two different contents of the
/// same length neither starts with the other.
pub proof fn lemma_starts_with_self(a: Str, b: Str)
    ensures
        a@.is_prefix_of(a@),
        b@.len() == a@.len() && b@ != a@ ==> !b@.is_prefix_of(a@),
{
    assert(a@ =~= a@.subrange(0, a@.len() as int));
    if b@.len() == a@.len() && b@.is_prefix_of(a@) {
        assert(b@ =~= a@);
    }
}

/// A value built from text starts with a value built from other text
/// exactly when the other text is a prefix of the first.
pub proof fn lemma_from_text_prefix(s: &str, p: &str, a: Str, b: Str)
    requires
        a@ == s.spec_bytes(),
        b@ == p.spec_bytes(),
    ensures
        b@.is_prefix_of(a@) <==> p@.is_prefix_of(s@),
{
    if p@.is_prefix_of(s@) {
        let rest = s@.subrange(p@.len() as int, s@.len() as int);
        assert(s@ =~= p@ + rest);
        lemma_encode_utf8_concat(p@, rest);
        assert(a@.subrange(0, b@.len() as int) =~= b@);
    }
    if b@.is_prefix_of(a@) {
        lemma_encode_utf8_prefix(p@, s@);
    }
}

/// The empty content is a prefix of every content, and no non-empty content
/// is a prefix of the empty one.
pub proof fn lemma_empty_prefix(e: Str, v: Str)
    requires
        e@.len() == 0,
    ensures
        e@.is_prefix_of(v@),
        v@.len() > 0 ==> !v@.is_prefix_of(e@),
{
    assert(v@.subrange(0, 0) =~= e@);
}

/// A value built from text has the text's byte length and, at every
/// position below it, the text's byte there; every position from that
/// length on is past the content, where `get` reports `OutOfBounds`.
pub proof fn lemma_from_text_index(s: &str, v: Str, i: int)
    requires
        v@ == s.spec_bytes(),
    ensures
        0 <= i < s.spec_bytes().len() ==> v@[i] == s.spec_bytes()[i],
        i >= v@.len() <==> i >= s.spec_bytes().len(),
{
}

} // verus!
