//! The laws the codec obeys, stated and proved against the wire models
//! [`format_bytes`] and [`spec_tokenise`]: escaping and unescaping of tag
//! values are inverse, a trailing argument is taken verbatim, and tokenising
//! a formatted line gives the line back.

use vstd::prelude::*;
use vstd::utf8::decode_utf8;
use vstd::utf8::encode_utf8;
use vstd::utf8::encode_utf8_decode_utf8;
use vstd::utf8::encode_utf8_valid_utf8;

use crate::format::args_bytes;
use crate::format::escape;
use crate::format::escape_char;
use crate::format::format_bytes;
use crate::format::plain_args_bytes;
use crate::format::tag_pair_bytes;
use crate::format::tags_bytes;
use crate::obj::key_lt;
use crate::obj::tags_sorted;
use crate::obj::LineModel;
use crate::obj::TagsModel;
use crate::text::char_absent;
use crate::text::lemma_encode_utf8_ascii_absent;
use crate::text::lemma_encode_utf8_first;
use crate::text::lemma_encode_utf8_one;
use crate::text::lemma_encode_scalar_ascii_absent;
use crate::tokenise::after_source_part;
use crate::tokenise::after_tag_part;
use crate::tokenise::has_source_part;
use crate::tokenise::has_tag_part;
use crate::tokenise::parse_args;
use crate::tokenise::parse_tags;
use crate::tokenise::spec_tokenise;
use crate::tokenise::source_bytes;
use crate::tokenise::tag_has_no_value;
use crate::tokenise::tag_list_bytes;
use crate::tokenise::tags_insert;
use crate::tokenise::lemma_tags_insert_at;
use crate::tokenise::tokenise_rest;
use crate::tokenise::unescape;
use crate::tokenise::unescape_char;
use crate::tokenise::Error;
use crate::util::byte_absent;
use crate::util::lemma_word_of_all;
use crate::util::lemma_word_of_concat;
use crate::util::rest_of;
use crate::util::word_of;
use crate::util::AT;
use crate::util::COLON;
use crate::util::EQUALS;
use crate::util::SEMICOLON;
use crate::util::SPACE;

verus! {

/// Unescaping undoes escaping: for every text value, whatever mixture of
/// `;`, spaces, backslashes, carriage returns, line feeds and ordinary
/// characters it holds, `unescape(escape(s))` is `s` again.
pub proof fn lemma_unescape_escape(s: Seq<char>)
    ensures
        unescape(escape(s)) == s,
    decreases s.len(),
{
    if s.len() == 0 {
    } else {
        let c = s[0];
        let e = escape_char(c);
        let t = s.drop_first();
        lemma_unescape_escape(t);
        assert(escape(s) == e + escape(t));
        if c == ';' || c == ' ' || c == '\\' || c == '\r' || c == '\n' {
            assert(e.len() == 2 && e[0] == '\\');
            assert(unescape_char(e[1]) == c);
            assert(escape(s)[0] == '\\');
            assert(escape(s).len() >= 2);
            assert(escape(s)[1] == e[1]);
            assert(escape(s).skip(2) =~= escape(t));
            assert(unescape(escape(s)) == seq![unescape_char(escape(s)[1])] + unescape(
                escape(s).skip(2),
            ));
            assert(unescape(escape(s)) =~= s);
        } else {
            assert(e == seq![c]);
            assert(escape(s)[0] == c && c != '\\');
            assert(escape(s).skip(1) =~= escape(t));
            assert(unescape(escape(s)) == seq![c] + unescape(escape(s).skip(1)));
            assert(unescape(escape(s)) =~= s);
        }
    }
}

/// A non-empty value has a non-empty escaped form, and only the value `=`
/// escapes to `=`.
proof fn lemma_escape_shape(v: Seq<char>)
    requires
        v.len() > 0,
        v != seq!['='],
    ensures
        escape(v).len() > 0,
        escape(v) != seq!['='],
{
    let e = escape_char(v[0]);
    assert(escape(v) == e + escape(v.drop_first()));
    if escape(v) =~= seq!['='] {
        assert(e.len() >= 1);
        assert(e[0] == escape(v)[0]);
        assert(e[0] == '=');
        assert(v[0] != ';' && v[0] != ' ' && v[0] != '\\' && v[0] != '\r' && v[0] != '\n') by {
            if v[0] == ';' || v[0] == ' ' || v[0] == '\\' || v[0] == '\r' || v[0] == '\n' {
                assert(e[0] == '\\');
            }
        }
        assert(e == seq![v[0]]);
        assert(v[0] == '=');
        if v.len() > 1 {
            assert(escape(v.drop_first()).len() > 0) by {
                let t = v.drop_first();
                assert(escape(t) == escape_char(t[0]) + escape(t.drop_first()));
                assert(escape_char(t[0]).len() >= 1);
            }
            assert(escape(v).len() >= 2);
        }
        assert(v =~= seq!['=']);
    }
}

/// The escaped form of a value contains neither a space nor a `;`.
proof fn lemma_escape_absent(v: Seq<char>)
    ensures
        char_absent(escape(v), ' '),
        char_absent(escape(v), ';'),
    decreases v.len(),
{
    if v.len() > 0 {
        let e = escape_char(v[0]);
        lemma_escape_absent(v.drop_first());
        assert(escape(v) == e + escape(v.drop_first()));
        assert(char_absent(e, ' ') && char_absent(e, ';')) by {
            if v[0] == ';' || v[0] == ' ' || v[0] == '\\' || v[0] == '\r' || v[0] == '\n' {
                assert(e.len() == 2);
                assert(e[0] == '\\' && (e[1] == ':' || e[1] == 's' || e[1] == '\\' || e[1] == 'r'
                    || e[1] == 'n'));
            } else {
                assert(e == seq![v[0]]);
            }
        }
        assert(forall|i: int|
            0 <= i < escape(v).len() ==> escape(v)[i] == (if i < e.len() {
                e[i]
            } else {
                escape(v.drop_first())[i - e.len()]
            }));
    }
}

/// A tag key and an optional value that format to a wire tag that tokenising
/// reads back unchanged: a non-empty key free of the delimiters, and a value
/// that is neither empty nor the one-character value `=` (both of which the
/// wire form cannot tell apart from "no value").
pub open spec fn tag_wire_safe(p: (Seq<char>, Option<Seq<char>>)) -> bool {
    &&& p.0.len() > 0
    &&& char_absent(p.0, ' ')
    &&& char_absent(p.0, ';')
    &&& char_absent(p.0, '=')
    &&& match p.1 {
        Some(v) => v.len() > 0 && v != seq!['='],
        None => true,
    }
}

/// The wire bytes of a safe tag contain neither a space nor a `;`.
proof fn lemma_tag_pair_safe(p: (Seq<char>, Option<Seq<char>>))
    requires
        tag_wire_safe(p),
    ensures
        byte_absent(tag_pair_bytes(p), SPACE),
        byte_absent(tag_pair_bytes(p), SEMICOLON),
{
    lemma_encode_utf8_ascii_absent(p.0, ' ');
    lemma_encode_utf8_ascii_absent(p.0, ';');
    match p.1 {
        None => {},
        Some(v) => {
            lemma_escape_absent(v);
            lemma_encode_utf8_ascii_absent(escape(v), ' ');
            lemma_encode_utf8_ascii_absent(escape(v), ';');
            let kb = encode_utf8(p.0);
            let vb = encode_utf8(escape(v));
            let pb = kb + seq![EQUALS] + vb;
            assert(forall|i: int|
                0 <= i < pb.len() ==> pb[i] == (if i < kb.len() {
                    kb[i]
                } else if i == kb.len() {
                    EQUALS
                } else {
                    vb[i - kb.len() - 1]
                }));
        },
    }
}

/// The wire bytes of a sequence of safe tags contain no space.
proof fn lemma_tags_bytes_space_absent(ts: TagsModel)
    requires
        forall|i: int| 0 <= i < ts.len() ==> tag_wire_safe(#[trigger] ts[i]),
    ensures
        byte_absent(tags_bytes(ts), SPACE),
    decreases ts.len(),
{
    if ts.len() == 0 {
    } else if ts.len() == 1 {
        lemma_tag_pair_safe(ts[0]);
    } else {
        lemma_tag_pair_safe(ts[0]);
        assert(forall|i: int|
            0 <= i < ts.drop_first().len() ==> tag_wire_safe(#[trigger] ts.drop_first()[i]));
        lemma_tags_bytes_space_absent(ts.drop_first());
        let pb = tag_pair_bytes(ts[0]);
        let rb = tags_bytes(ts.drop_first());
        let tb = pb + seq![SEMICOLON] + rb;
        assert(forall|i: int|
            0 <= i < tb.len() ==> tb[i] == (if i < pb.len() {
                pb[i]
            } else if i == pb.len() {
                SEMICOLON
            } else {
                rb[i - pb.len() - 1]
            }));
    }
}

/// Inserting a key above every key of a sorted sequence appends the pair.
proof fn lemma_tags_insert_append(acc: TagsModel, k: Seq<char>, v: Option<Seq<char>>)
    requires
        forall|j: int| 0 <= j < acc.len() ==> key_lt(#[trigger] acc[j].0, k),
    ensures
        tags_insert(acc, k, v) == acc.push((k, v)),
{
    lemma_tags_insert_at(acc, k, v, acc.len() as int);
    assert(acc.insert(acc.len() as int, (k, v)) =~= acc.push((k, v)));
}

/// Parsing the wire bytes of a sorted sequence of safe tags, starting from
/// an accumulator that is below all of them, appends exactly those tags.
proof fn lemma_parse_tags_format(ts: TagsModel, acc: TagsModel)
    requires
        tags_sorted(acc + ts),
        forall|i: int| 0 <= i < ts.len() ==> tag_wire_safe(#[trigger] ts[i]),
    ensures
        parse_tags(tags_bytes(ts), acc) == Ok::<TagsModel, Error>(acc + ts),
    decreases ts.len(),
{
    if ts.len() == 0 {
        assert(acc + ts =~= acc);
    } else {
        let p = ts[0];
        let pb = tag_pair_bytes(p);
        lemma_tag_pair_safe(p);
        let rest_ts = ts.drop_first();
        let token = pb;
        let rest = if ts.len() == 1 {
            lemma_word_of_all(pb, SEMICOLON);
            Seq::<u8>::empty()
        } else {
            lemma_word_of_concat(pb, tags_bytes(rest_ts), SEMICOLON);
            tags_bytes(rest_ts)
        };
        assert(word_of(tags_bytes(ts), SEMICOLON) == token);
        assert(rest_of(tags_bytes(ts), SEMICOLON) == rest);
        assert(tags_bytes(ts).len() > 0) by {
            if ts.len() == 1 {
                lemma_encode_utf8_first(p.0);
                match p.1 {
                    None => {},
                    Some(v) => {
                        assert(pb.len() >= encode_utf8(p.0).len());
                    },
                }
            }
        }
        // The key is the word of the token up to `=`.
        lemma_encode_utf8_ascii_absent(p.0, '=');
        let kb = encode_utf8(p.0);
        broadcast use encode_utf8_valid_utf8, encode_utf8_decode_utf8;
        let inserted = match p.1 {
            None => {
                lemma_word_of_all(kb, EQUALS);
                assert(tag_has_no_value(rest_of(token, EQUALS)));
                tags_insert(acc, decode_utf8(kb), None)
            },
            Some(v) => {
                let vb = encode_utf8(escape(v));
                assert(token =~= kb + seq![EQUALS] + vb);
                lemma_word_of_concat(kb, vb, EQUALS);
                lemma_escape_shape(v);
                assert(!tag_has_no_value(vb)) by {
                    lemma_encode_utf8_first(escape(v));
                    if vb == seq![EQUALS] {
                        lemma_encode_utf8_one('=');
                        let w = '=' as u32;
                        assert(w == 61);
                        assert(w & 0x7F == w) by (bit_vector)
                            requires
                                w < 0x80,
                        ;
                        assert(encode_utf8(seq!['=']) =~= seq![EQUALS]);
                        assert(decode_utf8(encode_utf8(escape(v))) == escape(v));
                        assert(decode_utf8(encode_utf8(seq!['='])) == seq!['=']);
                        assert(escape(v) == seq!['=']);
                    }
                }
                lemma_unescape_escape(v);
                assert(unescape(decode_utf8(vb)) == v);
                tags_insert(acc, decode_utf8(kb), Some(v))
            },
        };
        assert(decode_utf8(kb) == p.0);
        assert forall|j: int| 0 <= j < acc.len() implies key_lt(#[trigger] acc[j].0, p.0) by {
            assert((acc + ts)[j] == acc[j]);
            assert((acc + ts)[acc.len() as int] == p);
            assert(key_lt((acc + ts)[j].0, (acc + ts)[acc.len() as int].0));
        }
        lemma_tags_insert_append(acc, p.0, p.1);
        assert(inserted == acc.push(p)) by {
            assert(p == (p.0, p.1));
        }
        assert(acc.push(p) + rest_ts =~= acc + ts);
        if ts.len() == 1 {
            assert(parse_tags(rest, inserted) == Ok::<TagsModel, Error>(inserted));
            assert(acc.push(p) =~= acc + ts);
        } else {
            assert(forall|i: int|
                0 <= i < rest_ts.len() ==> tag_wire_safe(#[trigger] rest_ts[i]));
            lemma_parse_tags_format(rest_ts, acc.push(p));
        }
    }
}

/// A non-final argument that the wire form keeps: free of spaces, and not
/// starting with the `:` that introduces a trailing argument.
pub open spec fn arg_wire_safe(a: Seq<u8>) -> bool {
    byte_absent(a, SPACE) && (a.len() > 0 ==> a[0] != COLON)
}

/// Parsing a head token followed by the wire bytes of an argument list gives
/// back the head and the arguments, in order.
proof fn lemma_parse_args_format(head: Seq<u8>, args: Seq<Seq<u8>>, acc: Seq<Seq<u8>>)
    requires
        byte_absent(head, SPACE),
        head.len() > 0 ==> head[0] != COLON,
        args.len() == 0 ==> head.len() > 0,
        forall|i: int| 0 <= i < args.len() - 1 ==> arg_wire_safe(#[trigger] args[i]),
    ensures
        parse_args(head + args_bytes(args), acc) == acc.push(head) + args,
    decreases args.len(),
{
    if args.len() == 0 {
        assert(head + args_bytes(args) =~= head);
        lemma_word_of_all(head, SPACE);
        assert(parse_args(head, acc) == parse_args(Seq::<u8>::empty(), acc.push(head)));
        assert(acc.push(head) + args =~= acc.push(head));
    } else if args.len() == 1 {
        let last = args.last();
        assert(args_bytes(args) =~= seq![SPACE, COLON] + last) by {
            assert(args.drop_last() =~= Seq::<Seq<u8>>::empty());
        }
        let s = head + args_bytes(args);
        assert(s =~= head + seq![SPACE] + (seq![COLON] + last));
        lemma_word_of_concat(head, seq![COLON] + last, SPACE);
        assert(s.len() > 0 && s[0] != COLON) by {
            if head.len() > 0 {
                assert(s[0] == head[0]);
            } else {
                assert(s[0] == SPACE);
            }
        }
        let rest = seq![COLON] + last;
        assert(parse_args(s, acc) == parse_args(rest, acc.push(head)));
        assert(rest[0] == COLON);
        assert(rest.skip(1) =~= last);
        assert(parse_args(rest, acc.push(head)) == acc.push(head).push(last));
        assert(acc.push(head).push(last) =~= acc.push(head) + args);
    } else {
        let front_head = args[0];
        let rest_args = args.drop_first();
        assert(args_bytes(rest_args) =~= plain_args_bytes(rest_args.drop_last()) + seq![
            SPACE,
            COLON,
        ] + rest_args.last());
        assert(args.drop_last().len() > 0);
        assert(args.drop_last()[0] == front_head);
        assert(plain_args_bytes(args.drop_last()) == seq![SPACE] + front_head + plain_args_bytes(
            args.drop_last().drop_first(),
        ));
        assert(args.drop_last().drop_first() =~= rest_args.drop_last());
        let s = head + args_bytes(args);
        assert(s =~= head + seq![SPACE] + (front_head + args_bytes(rest_args)));
        lemma_word_of_concat(head, front_head + args_bytes(rest_args), SPACE);
        assert(s.len() > 0 && s[0] != COLON) by {
            if head.len() > 0 {
                assert(s[0] == head[0]);
            } else {
                assert(s[0] == SPACE);
            }
        }
        assert(parse_args(s, acc) == parse_args(
            front_head + args_bytes(rest_args),
            acc.push(head),
        ));
        assert(arg_wire_safe(front_head));
        assert(forall|i: int|
            0 <= i < rest_args.len() - 1 ==> arg_wire_safe(#[trigger] rest_args[i]));
        lemma_parse_args_format(front_head, rest_args, acc.push(head));
        assert(acc.push(head).push(front_head) + rest_args =~= acc.push(head) + args);
    }
}

/// A line that formatting can carry to the wire and back unchanged: tags
/// sorted and wire-safe, a source without spaces, a non-empty command that
/// contains no space and does not begin with `:` (nor with `@` when it is
/// the first token of the line), and space-free non-final arguments that do
/// not begin with `:`.
pub open spec fn round_trippable(v: LineModel) -> bool {
    &&& v.wf()
    &&& match v.tags {
        Some(ts) => forall|i: int| 0 <= i < ts.len() ==> tag_wire_safe(#[trigger] ts[i]),
        None => true,
    }
    &&& match v.source {
        Some(src) => byte_absent(src, SPACE),
        None => true,
    }
    &&& v.command.len() > 0
    &&& char_absent(v.command, ' ')
    &&& v.command[0] != ':'
    &&& ((v.tags is None && v.source is None) ==> v.command[0] != '@')
    &&& forall|i: int| 0 <= i < v.arguments.len() - 1 ==> arg_wire_safe(#[trigger] v.arguments[i])
}

/// Round-trip: tokenising the formatted wire bytes of any round-trippable
/// line yields exactly that line back — tags, source, command and arguments
/// all equal.
pub proof fn lemma_tokenise_format_round_trip(v: LineModel)
    requires
        round_trippable(v),
    ensures
        spec_tokenise(format_bytes(v)) == Ok::<LineModel, Error>(v),
{
    broadcast use encode_utf8_valid_utf8, encode_utf8_decode_utf8;

    let bytes = format_bytes(v);
    let cb = encode_utf8(v.command);
    lemma_encode_utf8_first(v.command);
    lemma_encode_utf8_ascii_absent(v.command, ' ');
    lemma_encode_scalar_ascii_absent(v.command[0], ':');
    let spart = match v.source {
        Some(src) => seq![COLON] + src + seq![SPACE],
        None => Seq::<u8>::empty(),
    };
    let tail1 = spart + cb + args_bytes(v.arguments);

    // The command and argument stage.
    lemma_parse_args_format(cb, v.arguments, Seq::<Seq<u8>>::empty());
    let parsed_args = Seq::<Seq<u8>>::empty().push(cb) + v.arguments;
    assert(parsed_args.len() > 0);
    assert(parsed_args[0] == cb);
    assert(parsed_args.skip(1) =~= v.arguments);
    assert(decode_utf8(cb) == v.command);

    // The source stage: `tail1` starts with the source part when there is one.
    assert(after_source_part(tail1) == cb + args_bytes(v.arguments) && (match v.source {
        Some(src) => has_source_part(tail1) && source_bytes(tail1) == src,
        None => !has_source_part(tail1),
    })) by {
        match v.source {
            Some(src) => {
                assert(tail1 =~= (seq![COLON] + src) + seq![SPACE] + (cb + args_bytes(
                    v.arguments,
                )));
                assert(byte_absent(seq![COLON] + src, SPACE));
                lemma_word_of_concat(seq![COLON] + src, cb + args_bytes(v.arguments), SPACE);
                assert(tail1[0] == COLON);
                assert((seq![COLON] + src).skip(1) =~= src);
            },
            None => {
                assert(tail1 =~= cb + args_bytes(v.arguments));
                assert(tail1[0] == cb[0]);
                assert(cb[0] != COLON) by {
                    assert((':' as u32) as u8 == COLON);
                }
            },
        }
    }
    assert(tokenise_rest(v.tags, tail1) == Ok::<LineModel, Error>(v));

    // The tag stage.
    match v.tags {
        Some(ts) => {
            let a = seq![AT] + tags_bytes(ts);
            assert(bytes =~= a + seq![SPACE] + tail1);
            lemma_tags_bytes_space_absent(ts);
            assert(byte_absent(a, SPACE));
            lemma_word_of_concat(a, tail1, SPACE);
            assert(bytes[0] == AT);
            assert(has_tag_part(bytes));
            assert(tag_list_bytes(bytes) =~= tags_bytes(ts));
            assert(after_tag_part(bytes) == tail1);
            assert(tags_sorted(Seq::<(Seq<char>, Option<Seq<char>>)>::empty() + ts)) by {
                assert(Seq::<(Seq<char>, Option<Seq<char>>)>::empty() + ts =~= ts);
            }
            lemma_parse_tags_format(ts, Seq::<(Seq<char>, Option<Seq<char>>)>::empty());
            assert(Seq::<(Seq<char>, Option<Seq<char>>)>::empty() + ts =~= ts);
            assert(parse_tags(tag_list_bytes(bytes), Seq::empty()) == Ok::<TagsModel, Error>(ts));
        },
        None => {
            assert(bytes =~= tail1);
            assert(!has_tag_part(bytes)) by {
                match v.source {
                    Some(src) => {
                        assert(bytes[0] == COLON);
                    },
                    None => {
                        assert(bytes[0] == cb[0]);
                        lemma_encode_scalar_ascii_absent(v.command[0], '@');
                        assert(('@' as u32) as u8 == AT);
                    },
                }
            }
        },
    }
}

/// Trailing-argument preservation: when the bytes left of a line begin with
/// `:`, everything after that `:` becomes the one final argument, verbatim —
/// spaces included, with no further splitting.
pub proof fn lemma_trailing_argument(s: Seq<u8>, acc: Seq<Seq<u8>>)
    requires
        s.len() > 0,
        s[0] == COLON,
    ensures
        parse_args(s, acc) == acc.push(s.skip(1)),
{
}

} // verus!
