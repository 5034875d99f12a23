//! Slicing a string by character positions in constant time, given the byte offsets that
//! those positions start at in its UTF-8 encoding.
use vstd::prelude::*;
use vstd::utf8::{
    char_is_scalar, encode_scalar, encode_utf8, encode_utf8_decode_utf8, encode_utf8_first_scalar,
    encode_utf8_valid_utf8, is_char_boundary, pop_first_scalar,
};
use vstd::string::StringSliceAdditionalSpecFns;

verus! {

/// The number of bytes that `c` takes in UTF-8.
pub fn utf8_width(c: char) -> (r: usize)
    ensures
        r == encode_scalar(c as u32).len(),
        1 <= r <= 4,
{
    proof {
        char_is_scalar(c);
    }
    let v = c as u32;
    if v <= 0x7F {
        1
    } else if v <= 0x7FF {
        2
    } else if v <= 0xFFFF {
        3
    } else {
        4
    }
}

/// The encoding of two texts one after the other is the two encodings one after the other.
pub proof fn lemma_encode_concat(a: Seq<char>, b: Seq<char>)
    ensures
        encode_utf8(a + b) == encode_utf8(a) + encode_utf8(b),
    decreases a.len(),
{
    if a.len() == 0 {
        assert(a + b =~= b);
        assert(encode_utf8(a) =~= Seq::<u8>::empty());
        assert(encode_utf8(a) + encode_utf8(b) =~= encode_utf8(b));
    } else {
        assert((a + b).drop_first() =~= a.drop_first() + b);
        lemma_encode_concat(a.drop_first(), b);
        assert((a + b)[0] == a[0]);
        assert(encode_utf8(a + b) =~= encode_scalar(a[0] as u32) + (encode_utf8(a.drop_first())
            + encode_utf8(b)));
    }
}

/// The end of the encoding of a prefix is a character boundary of the encoding of the
/// whole text.
pub proof fn lemma_prefix_boundary(a: Seq<char>, b: Seq<char>)
    ensures
        is_char_boundary(encode_utf8(a + b), encode_utf8(a).len() as int),
    decreases a.len(),
{
    broadcast use encode_utf8_valid_utf8;

    lemma_encode_concat(a, b);
    if a.len() > 0 {
        let bytes = encode_utf8(a + b);
        assert((a + b)[0] == a[0]);
        encode_utf8_first_scalar(a + b);
        char_is_scalar(a[0]);
        assert(encode_utf8(a) == encode_scalar(a[0] as u32) + encode_utf8(a.drop_first()));
        assert((a + b).drop_first() =~= a.drop_first() + b);
        assert(pop_first_scalar(bytes) =~= encode_utf8(a.drop_first() + b));
        lemma_prefix_boundary(a.drop_first(), b);
    }
}

/// Two texts with the same encoding are the same text.
pub proof fn lemma_encode_injective(x: Seq<char>, y: Seq<char>)
    requires
        encode_utf8(x) == encode_utf8(y),
    ensures
        x == y,
{
    encode_utf8_decode_utf8(x);
    encode_utf8_decode_utf8(y);
}

/// The byte length of the first `i + 1` characters of `s`, from that of the first `i`.
pub proof fn lemma_encode_take_step(s: Seq<char>, i: int)
    requires
        0 <= i < s.len(),
    ensures
        encode_utf8(s.take(i + 1)).len() == encode_utf8(s.take(i)).len() + encode_scalar(
            s[i] as u32,
        ).len(),
{
    assert(s.take(i + 1) =~= s.take(i) + seq![s[i]]);
    lemma_encode_concat(s.take(i), seq![s[i]]);
    assert(seq![s[i]].drop_first() =~= Seq::<char>::empty());
    assert(encode_utf8(seq![s[i]]) =~= encode_scalar(s[i] as u32) + encode_utf8(
        Seq::<char>::empty(),
    ));
}

/// A prefix takes no more bytes than the whole text.
pub proof fn lemma_encode_take_bound(s: Seq<char>, i: int)
    requires
        0 <= i <= s.len(),
    ensures
        encode_utf8(s.take(i)).len() <= encode_utf8(s).len(),
{
    assert(s =~= s.take(i) + s.skip(i));
    lemma_encode_concat(s.take(i), s.skip(i));
}

/// The characters `from..to` of `s`, where `from_byte` and `to_byte` are the byte
/// offsets at which they start and end.
pub fn slice_chars<'a>(s: &'a str, from: usize, to: usize, from_byte: usize, to_byte: usize) -> (r:
    &'a str)
    requires
        from <= to <= s@.len(),
        from_byte == encode_utf8(s@.take(from as int)).len(),
        to_byte == encode_utf8(s@.take(to as int)).len(),
    ensures
        r@ == s@.subrange(from as int, to as int),
{
    let ghost head = s@.take(from as int);
    let ghost rest = s@.skip(from as int);
    let ghost mid = s@.subrange(from as int, to as int);
    proof {
        assert(s@ =~= head + rest);
        lemma_prefix_boundary(head, rest);
        lemma_encode_concat(head, rest);
        assert(s@.take(to as int) =~= head + mid);
        lemma_encode_concat(head, mid);
    }
    let (_, tail) = s.split_at(from_byte);
    proof {
        assert(tail.spec_bytes() =~= encode_utf8(rest));
        lemma_encode_injective(tail@, rest);
        assert(rest =~= mid + rest.skip(to - from));
        lemma_prefix_boundary(mid, rest.skip(to - from));
        lemma_encode_concat(mid, rest.skip(to - from));
    }
    let (r, _) = tail.split_at(to_byte - from_byte);
    proof {
        assert(r.spec_bytes() =~= encode_utf8(mid));
        lemma_encode_injective(r@, mid);
    }
    r
}

} // verus!
