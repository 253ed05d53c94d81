use vstd::prelude::*;
use vstd::slice::slice_subrange;

verus! {

/// The byte `@`, which introduces the tag part of a line.
pub const AT: u8 = 64;

/// The byte for a space, the separator between the parts of a line.
pub const SPACE: u8 = 32;

/// The byte `:`, which introduces the source and the trailing argument.
pub const COLON: u8 = 58;

/// The byte `;`, the separator between tags.
pub const SEMICOLON: u8 = 59;

/// The byte `=`, the separator between a tag key and its value.
pub const EQUALS: u8 = 61;

/// The prefix of `s` up to (exclusive of) the first occurrence of `sep`, or
/// all of `s` if `sep` does not occur.
pub open spec fn word_of(s: Seq<u8>, sep: u8) -> Seq<u8>
    decreases s.len(),
{
    if s.len() == 0 {
        Seq::empty()
    } else if s[0] == sep {
        Seq::empty()
    } else {
        seq![s[0]] + word_of(s.drop_first(), sep)
    }
}

/// What remains of `s` after the word and the separator that ends it, or the
/// empty sequence if `sep` does not occur.
pub open spec fn rest_of(s: Seq<u8>, sep: u8) -> Seq<u8>
    decreases s.len(),
{
    if s.len() == 0 {
        Seq::empty()
    } else if s[0] == sep {
        s.drop_first()
    } else {
        rest_of(s.drop_first(), sep)
    }
}

/// Taking a word off a non-empty sequence always consumes at least one byte.
pub proof fn lemma_rest_of_shrinks(s: Seq<u8>, sep: u8)
    requires
        s.len() > 0,
    ensures
        rest_of(s, sep).len() < s.len(),
    decreases s.len(),
{
    if s[0] != sep {
        if s.len() > 1 {
            lemma_rest_of_shrinks(s.drop_first(), sep);
        } else {
            assert(rest_of(s.drop_first(), sep) =~= Seq::<u8>::empty());
        }
    }
}

/// Characterises `word_of` and `rest_of` by the position `i` of the first
/// separator (`i == s.len()` when there is none).
pub proof fn lemma_word_rest_at(s: Seq<u8>, sep: u8, i: int)
    requires
        0 <= i <= s.len(),
        forall|j: int| 0 <= j < i ==> s[j] != sep,
        i < s.len() ==> s[i] == sep,
    ensures
        word_of(s, sep) == s.subrange(0, i),
        i < s.len() ==> rest_of(s, sep) == s.subrange(i + 1, s.len() as int),
        i == s.len() ==> rest_of(s, sep) == Seq::<u8>::empty(),
    decreases s.len(),
{
    if s.len() == 0 {
        assert(word_of(s, sep) =~= s.subrange(0, i));
        assert(rest_of(s, sep) =~= Seq::<u8>::empty());
    } else if i == 0 {
        assert(word_of(s, sep) =~= s.subrange(0, 0));
        if i < s.len() {
            assert(rest_of(s, sep) =~= s.subrange(1, s.len() as int));
        }
    } else {
        let t = s.drop_first();
        assert(forall|j: int| 0 <= j < i - 1 ==> t[j] != sep);
        lemma_word_rest_at(t, sep, i - 1);
        assert(word_of(s, sep) =~= s.subrange(0, i)) by {
            assert(t.subrange(0, i - 1) =~= s.subrange(1, i));
            assert(word_of(s, sep) == seq![s[0]] + t.subrange(0, i - 1));
        }
        if i < s.len() {
            assert(rest_of(s, sep) =~= s.subrange(i + 1, s.len() as int)) by {
                assert(t.subrange(i, t.len() as int) =~= s.subrange(i + 1, s.len() as int));
            }
        }
    }
}

/// The byte `b` occurs nowhere in `s`.
pub open spec fn byte_absent(s: Seq<u8>, b: u8) -> bool {
    forall|i: int| 0 <= i < s.len() ==> s[i] != b
}

/// Splitting a sequence whose prefix is free of the separator: the word is
/// that prefix, and the rest is everything after the separator.
pub proof fn lemma_word_of_concat(a: Seq<u8>, b: Seq<u8>, sep: u8)
    requires
        byte_absent(a, sep),
    ensures
        word_of(a + seq![sep] + b, sep) == a,
        rest_of(a + seq![sep] + b, sep) == b,
{
    let s = a + seq![sep] + b;
    assert(forall|j: int| 0 <= j < a.len() ==> s[j] == a[j]);
    assert(s[a.len() as int] == sep);
    lemma_word_rest_at(s, sep, a.len() as int);
    assert(s.subrange(0, a.len() as int) =~= a);
    assert(s.subrange(a.len() as int + 1, s.len() as int) =~= b);
}

/// Splitting a sequence free of the separator: the word is the whole
/// sequence and nothing remains.
pub proof fn lemma_word_of_all(a: Seq<u8>, sep: u8)
    requires
        byte_absent(a, sep),
    ensures
        word_of(a, sep) == a,
        rest_of(a, sep) == Seq::<u8>::empty(),
{
    lemma_word_rest_at(a, sep, a.len() as int);
    assert(a.subrange(0, a.len() as int) =~= a);
}

/// Splits `line` at the first occurrence of `sep`: the word before it, and the
/// remainder after it. If `sep` does not occur, the word is all of `line` and
/// the remainder is empty. Never fails; the word never contains `sep`.
pub fn take_word<'a>(line: &'a [u8], sep: u8) -> (r: (&'a [u8], &'a [u8]))
    ensures
        r.0@ == word_of(line@, sep),
        r.1@ == rest_of(line@, sep),
{
    let n = line.len();
    let mut i: usize = 0;
    while i < n && line[i] != sep
        invariant
            0 <= i <= n,
            n == line@.len(),
            forall|j: int| 0 <= j < i ==> line@[j] != sep,
        decreases n - i,
    {
        i += 1;
    }
    proof {
        lemma_word_rest_at(line@, sep, i as int);
    }
    let word = slice_subrange(line, 0, i);
    let rest = if i < n {
        slice_subrange(line, i + 1, n)
    } else {
        slice_subrange(line, n, n)
    };
    (word, rest)
}

} // verus!
