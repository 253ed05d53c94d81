//! The formatter: from a structured [`Line`] back to its wire byte form.
//!
//! [`format_bytes`] is the complete mathematical description of the bytes
//! that [`Line::format`] returns and that [`Line::write_to`] hands to its
//! sink; it is the exact reverse of the tokeniser's grammar.

use vstd::prelude::*;
use vstd::utf8::*;

use crate::obj::Line;
use crate::obj::LineModel;
use crate::obj::TagsModel;
use crate::text::lemma_encode_utf8_concat;
use crate::text::lemma_encode_utf8_one;
use crate::text::lemma_encode_utf8_two;
use crate::text::push_bytes;
use crate::text::push_char_utf8;
use crate::text::push_str_bytes;
use crate::util::AT;
use crate::util::COLON;
use crate::util::EQUALS;
use crate::util::SEMICOLON;
use crate::util::SPACE;

verus! {

/// The escaped spelling of one tag-value character: `;` becomes `\:`, a
/// space `\s`, a backslash `\\`, a carriage return `\r`, a line feed `\n`,
/// and every other character stands for itself.
pub open spec fn escape_char(c: char) -> Seq<char> {
    if c == ';' {
        seq!['\\', ':']
    } else if c == ' ' {
        seq!['\\', 's']
    } else if c == '\\' {
        seq!['\\', '\\']
    } else if c == '\r' {
        seq!['\\', 'r']
    } else if c == '\n' {
        seq!['\\', 'n']
    } else {
        seq![c]
    }
}

/// Escapes a whole tag value, character by character.
pub open spec fn escape(s: Seq<char>) -> Seq<char>
    decreases s.len(),
{
    if s.len() == 0 {
        Seq::empty()
    } else {
        escape_char(s[0]) + escape(s.drop_first())
    }
}

/// The wire bytes of one tag: the key, and `=` plus the escaped value when
/// there is a value.
pub open spec fn tag_pair_bytes(p: (Seq<char>, Option<Seq<char>>)) -> Seq<u8> {
    match p.1 {
        None => encode_utf8(p.0),
        Some(v) => encode_utf8(p.0) + seq![EQUALS] + encode_utf8(escape(v)),
    }
}

/// The wire bytes of a tag sequence: the tags in order, separated by `;`.
pub open spec fn tags_bytes(ts: TagsModel) -> Seq<u8>
    decreases ts.len(),
{
    if ts.len() == 0 {
        Seq::empty()
    } else if ts.len() == 1 {
        tag_pair_bytes(ts[0])
    } else {
        tag_pair_bytes(ts[0]) + seq![SEMICOLON] + tags_bytes(ts.drop_first())
    }
}

/// The wire bytes of the non-final arguments: a space before each.
pub open spec fn plain_args_bytes(args: Seq<Seq<u8>>) -> Seq<u8>
    decreases args.len(),
{
    if args.len() == 0 {
        Seq::empty()
    } else {
        seq![SPACE] + args[0] + plain_args_bytes(args.drop_first())
    }
}

/// The wire bytes of the argument list: every argument but the last after a
/// space, and the last after a space and a `:`, verbatim and unescaped.
pub open spec fn args_bytes(args: Seq<Seq<u8>>) -> Seq<u8> {
    if args.len() == 0 {
        Seq::empty()
    } else {
        plain_args_bytes(args.drop_last()) + seq![SPACE, COLON] + args.last()
    }
}

/// The complete mathematical description of formatting: the bytes that
/// [`Line::format`] returns for a line.
pub open spec fn format_bytes(v: LineModel) -> Seq<u8> {
    (match v.tags {
        Some(ts) => seq![AT] + tags_bytes(ts) + seq![SPACE],
        None => Seq::empty(),
    }) + (match v.source {
        Some(src) => seq![COLON] + src + seq![SPACE],
        None => Seq::empty(),
    }) + encode_utf8(v.command) + args_bytes(v.arguments)
}

/// Escaping distributes over appending one character.
pub proof fn lemma_escape_push(s: Seq<char>, c: char)
    ensures
        escape(s.push(c)) == escape(s) + escape_char(c),
    decreases s.len(),
{
    if s.len() == 0 {
        assert(s.push(c).drop_first() =~= Seq::<char>::empty());
        assert(s.push(c)[0] == c);
        assert(escape(s.push(c)) == escape_char(c) + escape(Seq::<char>::empty()));
        assert(escape(Seq::<char>::empty()) == Seq::<char>::empty());
        assert(escape(s.push(c)) =~= escape(s) + escape_char(c));
    } else {
        assert(s.push(c).drop_first() =~= s.drop_first().push(c));
        lemma_escape_push(s.drop_first(), c);
        assert(s.push(c)[0] == s[0]);
        assert(escape(s.push(c)) =~= escape(s) + escape_char(c));
    }
}

/// Tag bytes distribute over appending one tag, with its `;` separator.
pub proof fn lemma_tags_bytes_push(ts: TagsModel, p: (Seq<char>, Option<Seq<char>>))
    ensures
        tags_bytes(ts.push(p)) == if ts.len() == 0 {
            tag_pair_bytes(p)
        } else {
            tags_bytes(ts) + seq![SEMICOLON] + tag_pair_bytes(p)
        },
    decreases ts.len(),
{
    if ts.len() == 0 {
        assert(ts.push(p)[0] == p);
    } else if ts.len() == 1 {
        assert(ts.push(p).drop_first() =~= seq![p]);
        assert(ts.push(p)[0] == ts[0]);
        assert(tags_bytes(ts.push(p)) == tag_pair_bytes(ts[0]) + seq![SEMICOLON] + tags_bytes(
            seq![p],
        ));
        assert(tags_bytes(seq![p]) == tag_pair_bytes(p));
        assert(tags_bytes(ts.push(p)) =~= tags_bytes(ts) + seq![SEMICOLON] + tag_pair_bytes(p));
    } else {
        assert(ts.push(p).drop_first() =~= ts.drop_first().push(p));
        lemma_tags_bytes_push(ts.drop_first(), p);
        assert(ts.push(p)[0] == ts[0]);
        assert(tags_bytes(ts.push(p)) =~= tags_bytes(ts) + seq![SEMICOLON] + tag_pair_bytes(p));
    }
}

/// Non-final argument bytes distribute over appending one argument.
pub proof fn lemma_plain_args_push(args: Seq<Seq<u8>>, a: Seq<u8>)
    ensures
        plain_args_bytes(args.push(a)) == plain_args_bytes(args) + seq![SPACE] + a,
    decreases args.len(),
{
    if args.len() == 0 {
        assert(args.push(a).drop_first() =~= Seq::<Seq<u8>>::empty());
        assert(args.push(a)[0] == a);
        assert(plain_args_bytes(args.push(a)) == seq![SPACE] + a + plain_args_bytes(Seq::<
            Seq<u8>,
        >::empty()));
        assert(plain_args_bytes(Seq::<Seq<u8>>::empty()) == Seq::<u8>::empty());
        assert(plain_args_bytes(args.push(a)) =~= plain_args_bytes(args) + seq![SPACE] + a);
    } else {
        assert(args.push(a).drop_first() =~= args.drop_first().push(a));
        lemma_plain_args_push(args.drop_first(), a);
        assert(args.push(a)[0] == args[0]);
        assert(plain_args_bytes(args.push(a)) =~= plain_args_bytes(args) + seq![SPACE] + a);
    }
}

/// Appends the escaped wire form of the tag value `input` to `output`; the
/// executable counterpart of [`escape`].
fn tag_encode(input: &str, output: &mut Vec<u8>)
    ensures
        final(output)@ == old(output)@ + encode_utf8(escape(input@)),
{
    let n = input.unicode_len();
    let mut i: usize = 0;
    proof {
        assert(input@.take(0) =~= Seq::<char>::empty());
    }
    while i < n
        invariant
            0 <= i <= n,
            n == input@.len(),
            output@ == old(output)@ + encode_utf8(escape(input@.take(i as int))),
        decreases n - i,
    {
        let ghost pre = output@;
        let c = input.get_char(i);
        if c == ';' {
            push_char_utf8(output, '\\');
            push_char_utf8(output, ':');
            proof {
                lemma_encode_utf8_two('\\', ':');
            }
        } else if c == ' ' {
            push_char_utf8(output, '\\');
            push_char_utf8(output, 's');
            proof {
                lemma_encode_utf8_two('\\', 's');
            }
        } else if c == '\\' {
            push_char_utf8(output, '\\');
            push_char_utf8(output, '\\');
            proof {
                lemma_encode_utf8_two('\\', '\\');
            }
        } else if c == '\r' {
            push_char_utf8(output, '\\');
            push_char_utf8(output, 'r');
            proof {
                lemma_encode_utf8_two('\\', 'r');
            }
        } else if c == '\n' {
            push_char_utf8(output, '\\');
            push_char_utf8(output, 'n');
            proof {
                lemma_encode_utf8_two('\\', 'n');
            }
        } else {
            push_char_utf8(output, c);
            proof {
                lemma_encode_utf8_one(c);
            }
        }
        proof {
            assert(output@ =~= pre + encode_utf8(escape_char(c)));
            lemma_escape_push(input@.take(i as int), c);
            assert(input@.take(i + 1 as int) =~= input@.take(i as int).push(c));
            lemma_encode_utf8_concat(escape(input@.take(i as int)), escape_char(c));
            assert(output@ =~= old(output)@ + encode_utf8(escape(input@.take(i + 1 as int))));
        }
        i += 1;
    }
    proof {
        assert(input@.take(n as int) =~= input@);
    }
}

#[verifier::external_type_specification]
#[verifier::external_body]
pub struct ExIoError(std::io::Error);

/// Hands `bytes` to the sink in one call.
///
/// Relies on `std::io::Write::write_all`: it writes the entire buffer to the
/// sink, or returns the first error the sink reports. The sink is opaque to
/// the verifier, so nothing is stated about it.
#[verifier::external_body]
fn write_all_bytes<W: std::io::Write + ?Sized>(output: &mut W, bytes: &[u8]) -> Result<
    (),
    std::io::Error,
> {
    output.write_all(bytes)
}

impl Line {
    /// Formats `self` into a byte string by RFC 1459 / IRCv3 protocol rules:
    /// exactly the bytes of the wire model [`format_bytes`]. The returned
    /// byte string is NOT suffixed with a CRLF.
    pub fn format(&self) -> (r: Vec<u8>)
        requires
            self.wf(),
        ensures
            r@ == format_bytes(self@),
    {
        let mut out: Vec<u8> = Vec::new();
        if let Some(tags) = &self.tags {
            out.push(AT);
            let n = tags.len();
            let ghost tv = tags.deep_view();
            let mut i: usize = 0;
            while i < n
                invariant
                    0 <= i <= n,
                    n == tags.len(),
                    tv == tags.deep_view(),
                    out@ == seq![AT] + tags_bytes(tv.take(i as int)),
                decreases n - i,
            {
                let ghost out0 = out@;
                if i > 0 {
                    out.push(SEMICOLON);
                }
                let pair = &tags[i];
                push_str_bytes(&mut out, pair.0.as_str());
                match &pair.1 {
                    Some(v) => {
                        out.push(EQUALS);
                        tag_encode(v.as_str(), &mut out);
                    },
                    None => {},
                }
                proof {
                    assert(tv[i as int] == (pair.0@, pair.1.deep_view()));
                    assert(out@ =~= out0 + (if i > 0 {
                        seq![SEMICOLON]
                    } else {
                        Seq::<u8>::empty()
                    }) + tag_pair_bytes(tv[i as int]));
                    lemma_tags_bytes_push(tv.take(i as int), tv[i as int]);
                    assert(tv.take(i + 1 as int) =~= tv.take(i as int).push(tv[i as int]));
                    if i == 0 {
                        assert(tv.take(0) =~= Seq::<(Seq<char>, Option<Seq<char>>)>::empty());
                    }
                    assert(out@ =~= seq![AT] + tags_bytes(tv.take(i + 1 as int)));
                }
                i += 1;
            }
            out.push(SPACE);
            proof {
                assert(tv.take(n as int) =~= tv);
                assert(out@ =~= seq![AT] + tags_bytes(tv) + seq![SPACE]);
            }
        }
        let ghost tags_part = out@;
        proof {
            assert(tags_part == (match self@.tags {
                Some(ts) => seq![AT] + tags_bytes(ts) + seq![SPACE],
                None => Seq::<u8>::empty(),
            }));
        }
        if let Some(src) = &self.source {
            out.push(COLON);
            push_bytes(&mut out, src.as_slice());
            out.push(SPACE);
            proof {
                assert(src.deep_view() =~= src@);
                assert(out@ =~= tags_part + (seq![COLON] + src.deep_view() + seq![SPACE]));
            }
        }
        let ghost source_part = (match self@.source {
            Some(s) => seq![COLON] + s + seq![SPACE],
            None => Seq::<u8>::empty(),
        });
        proof {
            assert(out@ =~= tags_part + source_part);
        }
        push_str_bytes(&mut out, self.command.as_str());
        let ghost head = tags_part + source_part + encode_utf8(self@.command);
        proof {
            assert(out@ =~= head);
        }
        let n = self.arguments.len();
        if n > 0 {
            let ghost av = self.arguments.deep_view();
            let mut i: usize = 0;
            proof {
                assert(av.take(0) =~= Seq::<Seq<u8>>::empty());
            }
            while i < n - 1
                invariant
                    0 <= i <= n - 1,
                    1 <= n == self.arguments.len(),
                    av == self.arguments.deep_view(),
                    head == tags_part + source_part + encode_utf8(self@.command),
                    out@ == head + plain_args_bytes(av.take(i as int)),
                decreases n - 1 - i,
            {
                out.push(SPACE);
                push_bytes(&mut out, self.arguments[i].as_slice());
                proof {
                    assert(av[i as int] =~= self.arguments@[i as int]@);
                    lemma_plain_args_push(av.take(i as int), av[i as int]);
                    assert(av.take(i + 1 as int) =~= av.take(i as int).push(av[i as int]));
                    assert(out@ =~= head + plain_args_bytes(av.take(i + 1 as int)));
                }
                i += 1;
            }
            out.push(SPACE);
            out.push(COLON);
            push_bytes(&mut out, self.arguments[n - 1].as_slice());
            proof {
                assert(av[n - 1] =~= self.arguments@[n - 1]@);
                assert(av.take(n - 1 as int) =~= av.drop_last());
                assert(out@ =~= head + args_bytes(av));
            }
        }
        proof {
            if n == 0 {
                assert(args_bytes(self@.arguments) == Seq::<u8>::empty());
            }
            assert(out@ =~= format_bytes(self@));
        }
        out
    }

    /// Writes `self` to `output` as a formatted byte string by RFC 1459 /
    /// IRCv3 protocol rules: the bytes of the wire model [`format_bytes`],
    /// handed to the sink in one call. Does NOT write a CRLF nor flush the
    /// stream; a failure of the sink is returned unchanged.
    pub fn write_to<W: std::io::Write + ?Sized>(&self, output: &mut W) -> Result<
        (),
        std::io::Error,
    >
        requires
            self.wf(),
    {
        let bytes = self.format();
        write_all_bytes(output, bytes.as_slice())
    }
}

} // verus!
