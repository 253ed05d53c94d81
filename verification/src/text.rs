use vstd::prelude::*;
use vstd::utf8::*;

use crate::obj::key_lt;
use crate::util::byte_absent;

verus! {

/// Decodes `bytes` as UTF-8, or `None` when they are not valid UTF-8.
///
/// Relies on `String::from_utf8`: it returns `Ok` exactly on valid UTF-8
/// input, and then the string's characters are the decoded scalar values.
#[verifier::external_body]
pub(crate) fn string_from_utf8(bytes: Vec<u8>) -> (r: Option<String>)
    ensures
        match r {
            Some(s) => valid_utf8(bytes@) && s@ == decode_utf8(bytes@),
            None => !valid_utf8(bytes@),
        },
{
    String::from_utf8(bytes).ok()
}

/// Appends the UTF-8 encoding of the single character `c` to `out`.
pub(crate) fn push_char_utf8(out: &mut Vec<u8>, c: char)
    ensures
        final(out)@ == old(out)@ + encode_scalar(c as u32),
{
    let u = c as u32;
    proof {
        char_is_scalar(c);
    }
    if u <= 0x7F {
        out.push((u & 0x7F) as u8);
    } else if u <= 0x7FF {
        out.push(0xC0 | ((u >> 6) & 0x1F) as u8);
        out.push(0x80 | (u & 0x3F) as u8);
    } else if u <= 0xFFFF {
        out.push(0xE0 | ((u >> 12) & 0x0F) as u8);
        out.push(0x80 | ((u >> 6) & 0x3F) as u8);
        out.push(0x80 | (u & 0x3F) as u8);
    } else {
        out.push(0xF0 | ((u >> 18) & 0x7) as u8);
        out.push(0x80 | ((u >> 12) & 0x3F) as u8);
        out.push(0x80 | ((u >> 6) & 0x3F) as u8);
        out.push(0x80 | (u & 0x3F) as u8);
    }
    proof {
        assert(out@ =~= old(out)@ + encode_scalar(c as u32));
    }
}

/// UTF-8 encoding distributes over appending one character.
pub proof fn lemma_encode_utf8_push(s: Seq<char>, c: char)
    ensures
        encode_utf8(s.push(c)) == encode_utf8(s) + encode_scalar(c as u32),
    decreases s.len(),
{
    if s.len() == 0 {
        assert(s.push(c).drop_first() =~= Seq::<char>::empty());
        assert(s.push(c)[0] == c);
        assert(encode_utf8(s.push(c)) == encode_scalar(s.push(c)[0] as u32) + encode_utf8(
            s.push(c).drop_first(),
        ));
        assert(encode_utf8(Seq::<char>::empty()) == Seq::<u8>::empty());
        assert(encode_utf8(s.push(c)) =~= encode_utf8(s) + encode_scalar(c as u32));
    } else {
        let t = s.drop_first();
        assert(s.push(c).drop_first() =~= t.push(c));
        lemma_encode_utf8_push(t, c);
        assert(s.push(c).len() > 0);
        assert(s.push(c)[0] == s[0]);
        assert(encode_utf8(s.push(c)) == encode_scalar(s[0] as u32) + encode_utf8(t.push(c)));
        assert(encode_utf8(s.push(c)) == encode_scalar(s[0] as u32) + (encode_utf8(t)
            + encode_scalar(c as u32)));
        assert(encode_utf8(s) == encode_scalar(s[0] as u32) + encode_utf8(t));
        assert(encode_utf8(s.push(c)) =~= encode_utf8(s) + encode_scalar(c as u32));
    }
}

/// UTF-8 encoding distributes over concatenation.
pub proof fn lemma_encode_utf8_concat(a: Seq<char>, b: Seq<char>)
    ensures
        encode_utf8(a + b) == encode_utf8(a) + encode_utf8(b),
    decreases b.len(),
{
    if b.len() == 0 {
        assert(a + b =~= a);
        assert(encode_utf8(b) == Seq::<u8>::empty());
        assert(encode_utf8(a + b) =~= encode_utf8(a) + encode_utf8(b));
    } else {
        lemma_encode_utf8_push(a, b[0]);
        lemma_encode_utf8_concat(a.push(b[0]), b.drop_first());
        assert(a + b =~= a.push(b[0]) + b.drop_first());
        assert(encode_utf8(a + b) =~= encode_utf8(a) + encode_utf8(b));
    }
}

/// The UTF-8 encoding of a single character.
pub proof fn lemma_encode_utf8_one(c: char)
    ensures
        encode_utf8(seq![c]) == encode_scalar(c as u32),
{
    assert(seq![c].drop_first() =~= Seq::<char>::empty());
    assert(seq![c][0] == c);
    assert(encode_utf8(seq![c]) == encode_scalar(c as u32) + encode_utf8(Seq::<char>::empty()));
    assert(encode_utf8(Seq::<char>::empty()) == Seq::<u8>::empty());
    assert(encode_utf8(seq![c]) =~= encode_scalar(c as u32));
}

/// The UTF-8 encoding of a pair of characters.
pub proof fn lemma_encode_utf8_two(c1: char, c2: char)
    ensures
        encode_utf8(seq![c1, c2]) == encode_scalar(c1 as u32) + encode_scalar(c2 as u32),
{
    assert(seq![c1, c2].drop_first() =~= seq![c2]);
    lemma_encode_utf8_one(c2);
    assert(encode_utf8(seq![c1, c2]) =~= encode_scalar(c1 as u32) + encode_scalar(c2 as u32));
}

/// The character `c` occurs nowhere in `s`.
pub open spec fn char_absent(s: Seq<char>, c: char) -> bool {
    forall|i: int| 0 <= i < s.len() ==> s[i] != c
}

/// The UTF-8 encoding of one character other than the ASCII character `d`
/// never contains `d`'s byte: an ASCII character encodes to its own single
/// byte, and every byte of a longer encoding is at least `0x80`.
pub proof fn lemma_encode_scalar_ascii_absent(c: char, d: char)
    requires
        (d as u32) < 0x80,
        c != d,
    ensures
        1 <= encode_scalar(c as u32).len() <= 4,
        byte_absent(encode_scalar(c as u32), (d as u32) as u8),
{
    char_is_scalar(c);
    let u = c as u32;
    let w = d as u32;
    if has_width_1_encoding(u) {
        if (u & 0x7F) as u8 == w as u8 {
            assert(u == w) by (bit_vector)
                requires
                    u <= 0x7F,
                    w < 0x80,
                    (u & 0x7F) as u8 == w as u8,
            ;
            char_u32_cast(c, u);
            char_u32_cast(d, w);
        }
    } else {
        assert((0xC0 | ((u >> 6) & 0x1F) as u8) >= 0x80) by (bit_vector);
        assert((0xE0 | ((u >> 12) & 0x0F) as u8) >= 0x80) by (bit_vector);
        assert((0xF0 | ((u >> 18) & 0x7) as u8) >= 0x80) by (bit_vector);
        assert((0x80 | (u & 0x3F) as u8) >= 0x80) by (bit_vector);
        assert((0x80 | ((u >> 6) & 0x3F) as u8) >= 0x80) by (bit_vector);
        assert((0x80 | ((u >> 12) & 0x3F) as u8) >= 0x80) by (bit_vector);
    }
}

/// A byte below `0x80` occurs in the UTF-8 encoding of a character sequence
/// exactly where the corresponding ASCII character occurs in the sequence;
/// in particular it is absent from the encoding of a sequence that avoids it.
pub proof fn lemma_encode_utf8_ascii_absent(s: Seq<char>, d: char)
    requires
        (d as u32) < 0x80,
        char_absent(s, d),
    ensures
        byte_absent(encode_utf8(s), (d as u32) as u8),
    decreases s.len(),
{
    let b = (d as u32) as u8;
    if s.len() > 0 {
        lemma_encode_scalar_ascii_absent(s[0], d);
        assert(char_absent(s.drop_first(), d));
        lemma_encode_utf8_ascii_absent(s.drop_first(), d);
        let h = encode_scalar(s[0] as u32);
        let t = encode_utf8(s.drop_first());
        assert(encode_utf8(s) == h + t);
        assert(forall|i: int|
            0 <= i < h.len() + t.len() ==> (h + t)[i] == (if i < h.len() {
                h[i]
            } else {
                t[i - h.len()]
            }));
    }
}

/// A non-empty character sequence has a non-empty UTF-8 encoding whose first
/// byte is the first byte of its first character's encoding.
pub proof fn lemma_encode_utf8_first(s: Seq<char>)
    requires
        s.len() > 0,
    ensures
        encode_utf8(s).len() > 0,
        encode_utf8(s)[0] == encode_scalar(s[0] as u32)[0],
{
    char_is_scalar(s[0]);
    let h = encode_scalar(s[0] as u32);
    assert(1 <= h.len() <= 4);
    assert(encode_utf8(s) == h + encode_utf8(s.drop_first()));
    assert((h + encode_utf8(s.drop_first()))[0] == h[0]);
}

/// Appends the bytes of `bytes` to `out`.
pub(crate) fn push_bytes(out: &mut Vec<u8>, bytes: &[u8])
    ensures
        final(out)@ == old(out)@ + bytes@,
{
    let n = bytes.len();
    let mut i: usize = 0;
    while i < n
        invariant
            0 <= i <= n,
            n == bytes@.len(),
            out@ == old(out)@ + bytes@.take(i as int),
        decreases n - i,
    {
        out.push(bytes[i]);
        proof {
            assert(old(out)@ + bytes@.take(i + 1 as int) =~= (old(out)@ + bytes@.take(
                i as int,
            )).push(bytes@[i as int]));
        }
        i += 1;
    }
    proof {
        assert(bytes@.take(n as int) =~= bytes@);
    }
}

/// Appends the UTF-8 bytes of the string `s` to `out`.
pub(crate) fn push_str_bytes(out: &mut Vec<u8>, s: &str)
    ensures
        final(out)@ == old(out)@ + encode_utf8(s@),
{
    push_bytes(out, s.as_bytes());
}

/// Compares two strings in the strict lexicographic order [`key_lt`].
pub(crate) fn str_lex_lt(a: &str, b: &str) -> (r: bool)
    ensures
        r == key_lt(a@, b@),
{
    let la = a.unicode_len();
    let lb = b.unicode_len();
    let mut i: usize = 0;
    proof {
        assert(a@.skip(0) =~= a@);
        assert(b@.skip(0) =~= b@);
    }
    loop
        invariant
            0 <= i <= la,
            0 <= i <= lb,
            la == a@.len(),
            lb == b@.len(),
            key_lt(a@, b@) == key_lt(a@.skip(i as int), b@.skip(i as int)),
        decreases la - i,
    {
        if i == lb {
            proof {
                assert(!key_lt(a@.skip(i as int), b@.skip(i as int)));
            }
            return false;
        }
        if i == la {
            proof {
                assert(key_lt(a@.skip(i as int), b@.skip(i as int)));
            }
            return true;
        }
        let ca = a.get_char(i);
        let cb = b.get_char(i);
        proof {
            assert(a@.skip(i as int)[0] == a@[i as int]);
            assert(b@.skip(i as int)[0] == b@[i as int]);
        }
        if (ca as u32) < (cb as u32) {
            return true;
        }
        if ca as u32 != cb as u32 {
            proof {
                char_u32_cast(ca, ca as u32);
                char_u32_cast(cb, cb as u32);
                assert(!key_lt(a@.skip(i as int), b@.skip(i as int)));
            }
            return false;
        }
        proof {
            char_u32_cast(ca, ca as u32);
            char_u32_cast(cb, cb as u32);
            assert(ca == cb);
            assert(a@.skip(i as int).drop_first() =~= a@.skip(i + 1 as int));
            assert(b@.skip(i as int).drop_first() =~= b@.skip(i + 1 as int));
        }
        i += 1;
    }
}

} // verus!
