//! The tokeniser: from one line of wire bytes to a structured [`Line`].
//!
//! The wire grammar is modelled by the spec functions of this module;
//! [`spec_tokenise`] is the complete mathematical description of what
//! [`Line::tokenise`] returns for every input.

use vstd::prelude::*;
use vstd::slice::slice_subrange;
use vstd::slice::slice_to_vec;
use vstd::utf8::*;

use crate::obj::key_lt;
use crate::obj::lemma_key_lt_asym;
use crate::obj::lemma_key_lt_trans;
use crate::obj::lemma_key_lt_trichotomy;
use crate::obj::tags_sorted;
use crate::obj::Line;
use crate::obj::LineModel;
use crate::obj::TagsModel;
use crate::text::push_char_utf8;
use crate::text::str_lex_lt;
use crate::text::string_from_utf8;
use crate::text::lemma_encode_utf8_push;
use crate::util::lemma_rest_of_shrinks;
use crate::util::rest_of;
use crate::util::take_word;
use crate::util::word_of;
use crate::util::AT;
use crate::util::COLON;
use crate::util::EQUALS;
use crate::util::SEMICOLON;
use crate::util::SPACE;

verus! {

/// The ways tokenising a byte line can fail.
#[derive(Debug, Clone, Copy, PartialEq, Eq, Structural)]
pub enum Error {
    /// Reserved for a wholly empty input; [`Line::tokenise`] reports a
    /// missing command for it instead, so this variant is never produced.
    Empty,
    /// A line is invalid if it has no `COMMAND` (e.g. `PRIVMSG`).
    MissingCommand,
    /// Commands must be UTF-8 encoded.
    CommandDecode,
    /// Message tag keys must be UTF-8 encoded.
    TagKeyDecode,
    /// Message tag values must be UTF-8 encoded.
    TagValueDecode,
}

/// The character that an escape sequence `\c` in a tag value stands for.
pub open spec fn unescape_char(c: char) -> char {
    if c == ':' {
        ';'
    } else if c == 's' {
        ' '
    } else if c == 'r' {
        '\r'
    } else if c == 'n' {
        '\n'
    } else {
        c
    }
}

/// Undoes tag-value escaping: `\:` is `;`, `\s` a space, `\r` a carriage
/// return, `\n` a line feed, `\` before any other character is dropped, and a
/// trailing lone `\` is dropped.
pub open spec fn unescape(s: Seq<char>) -> Seq<char>
    decreases s.len(),
{
    if s.len() == 0 {
        Seq::empty()
    } else if s[0] == '\\' {
        if s.len() == 1 {
            Seq::empty()
        } else {
            seq![unescape_char(s[1])] + unescape(s.skip(2))
        }
    } else {
        seq![s[0]] + unescape(s.skip(1))
    }
}

/// Inserts a pair into a key-sorted tag sequence: before the first key not
/// below `k`, replacing that key's pair when it is `k` itself, so that a
/// repeated key keeps only its latest value.
pub open spec fn tags_insert(ts: TagsModel, k: Seq<char>, v: Option<Seq<char>>) -> TagsModel
    decreases ts.len(),
{
    if ts.len() == 0 {
        seq![(k, v)]
    } else if key_lt(k, ts[0].0) {
        seq![(k, v)] + ts
    } else if k == ts[0].0 {
        seq![(k, v)] + ts.drop_first()
    } else {
        seq![ts[0]] + tags_insert(ts.drop_first(), k, v)
    }
}

/// Characterises [`tags_insert`] by the position `p` of the first key not
/// below `k`: the pair replaces that entry when the keys are equal, and is
/// inserted just before it otherwise.
pub proof fn lemma_tags_insert_at(ts: TagsModel, k: Seq<char>, v: Option<Seq<char>>, p: int)
    requires
        0 <= p <= ts.len(),
        forall|j: int| 0 <= j < p ==> key_lt(#[trigger] ts[j].0, k),
        p < ts.len() ==> !key_lt(ts[p].0, k),
    ensures
        p < ts.len() && ts[p].0 == k ==> tags_insert(ts, k, v) == ts.update(p, (k, v)),
        (p == ts.len() || ts[p].0 != k) ==> tags_insert(ts, k, v) == ts.insert(p, (k, v)),
    decreases ts.len(),
{
    if ts.len() == 0 {
        assert(tags_insert(ts, k, v) =~= ts.insert(0, (k, v)));
    } else if p == 0 {
        if ts[0].0 == k {
            lemma_key_lt_trichotomy(k, ts[0].0);
            if key_lt(k, ts[0].0) {
                lemma_key_lt_asym(k, ts[0].0);
            }
            assert(!key_lt(k, ts[0].0));
            assert(tags_insert(ts, k, v) =~= ts.update(0, (k, v)));
        } else {
            lemma_key_lt_trichotomy(k, ts[0].0);
            assert(key_lt(k, ts[0].0));
            assert(tags_insert(ts, k, v) =~= ts.insert(0, (k, v)));
        }
    } else {
        assert(key_lt(ts[0].0, k));
        lemma_key_lt_asym(ts[0].0, k);
        assert(ts[0].0 != k) by {
            if ts[0].0 == k {
                assert(key_lt(k, k));
            }
        }
        let t = ts.drop_first();
        assert(forall|j: int| 0 <= j < p - 1 ==> key_lt(#[trigger] t[j].0, k));
        lemma_tags_insert_at(t, k, v, p - 1);
        if p < ts.len() && ts[p].0 == k {
            assert(t[p - 1].0 == k);
            assert(tags_insert(ts, k, v) =~= ts.update(p, (k, v))) by {
                assert(tags_insert(ts, k, v) == seq![ts[0]] + t.update(p - 1, (k, v)));
            }
        } else {
            assert(tags_insert(ts, k, v) =~= ts.insert(p, (k, v))) by {
                assert(tags_insert(ts, k, v) == seq![ts[0]] + t.insert(p - 1, (k, v)));
            }
        }
    }
}

/// Inserting into a sorted tag sequence keeps it sorted, and adds no pair
/// other than the inserted one.
pub proof fn lemma_tags_insert_sorted(ts: TagsModel, k: Seq<char>, v: Option<Seq<char>>)
    requires
        tags_sorted(ts),
    ensures
        tags_sorted(tags_insert(ts, k, v)),
        forall|i: int|
            0 <= i < tags_insert(ts, k, v).len() ==> (#[trigger] tags_insert(ts, k, v)[i] == (k, v)
                || ts.contains(tags_insert(ts, k, v)[i])),
    decreases ts.len(),
{
    let r = tags_insert(ts, k, v);
    if ts.len() == 0 {
    } else if key_lt(k, ts[0].0) {
        assert forall|i: int, j: int| 0 <= i < j < r.len() implies key_lt(r[i].0, r[j].0) by {
            if i == 0 {
                if j > 1 {
                    lemma_key_lt_trans(k, ts[0].0, ts[j - 1].0);
                }
            }
        }
        assert(forall|i: int| 0 <= i < r.len() ==> (#[trigger] r[i] == (k, v) || ts.contains(r[i])));
    } else if k == ts[0].0 {
        assert forall|i: int, j: int| 0 <= i < j < r.len() implies key_lt(r[i].0, r[j].0) by {
            if i == 0 {
                assert(r[j] == ts[j]);
                assert(key_lt(ts[0].0, ts[j].0));
            }
        }
        assert(forall|i: int| 0 <= i < r.len() ==> (#[trigger] r[i] == (k, v) || ts.contains(r[i])));
    } else {
        let t = ts.drop_first();
        assert(tags_sorted(t)) by {
            assert(forall|i: int, j: int|
                0 <= i < j < t.len() ==> t[i] == ts[i + 1] && t[j] == ts[j + 1]);
        }
        lemma_tags_insert_sorted(t, k, v);
        lemma_key_lt_trichotomy(k, ts[0].0);
        assert(key_lt(ts[0].0, k));
        let rt = tags_insert(t, k, v);
        assert(r == seq![ts[0]] + rt);
        assert forall|i: int, j: int| 0 <= i < j < r.len() implies key_lt(r[i].0, r[j].0) by {
            if i == 0 {
                assert(r[j] == rt[j - 1]);
                if rt[j - 1] == (k, v) {
                    assert(key_lt(ts[0].0, k));
                } else {
                    assert(t.contains(rt[j - 1]));
                    let w = choose|w: int| 0 <= w < t.len() && t[w] == rt[j - 1];
                    assert(key_lt(ts[0].0, ts[w + 1].0));
                }
            } else {
                assert(r[i] == rt[i - 1] && r[j] == rt[j - 1]);
            }
        }
        assert forall|i: int| 0 <= i < r.len() implies (#[trigger] r[i] == (k, v) || ts.contains(
            r[i],
        )) by {
            if i == 0 {
                assert(ts[0] == r[0]);
                assert(ts.contains(r[0]));
            } else {
                assert(r[i] == rt[i - 1]);
                if rt[i - 1] != (k, v) {
                    assert(t.contains(rt[i - 1]));
                    let w = choose|w: int| 0 <= w < t.len() && t[w] == rt[i - 1];
                    assert(ts[w + 1] == t[w]);
                    assert(ts.contains(r[i]));
                }
            }
        }
    }
}

/// A successful tag-list parse that starts from a sorted accumulator yields a
/// sorted tag sequence.
pub proof fn lemma_parse_tags_sorted(s: Seq<u8>, acc: TagsModel)
    requires
        tags_sorted(acc),
    ensures
        parse_tags(s, acc) matches Ok(r) ==> tags_sorted(r),
    decreases s.len(),
{
    if s.len() > 0 {
        lemma_rest_of_shrinks(s, SEMICOLON);
        let token = word_of(s, SEMICOLON);
        let rest = rest_of(s, SEMICOLON);
        let key_b = word_of(token, EQUALS);
        let val_b = rest_of(token, EQUALS);
        if valid_utf8(key_b) {
            if tag_has_no_value(val_b) {
                lemma_tags_insert_sorted(acc, decode_utf8(key_b), None);
                lemma_parse_tags_sorted(rest, tags_insert(acc, decode_utf8(key_b), None));
            } else if valid_utf8(val_b) {
                let v = Some(unescape(decode_utf8(val_b)));
                lemma_tags_insert_sorted(acc, decode_utf8(key_b), v);
                lemma_parse_tags_sorted(rest, tags_insert(acc, decode_utf8(key_b), v));
            }
        }
    }
}

/// A tag token's raw value bytes denote "no value" when they are empty or a
/// single `=`; any other bytes must decode as text and are then unescaped.
pub open spec fn tag_has_no_value(val: Seq<u8>) -> bool {
    val.len() == 0 || val == seq![EQUALS]
}

/// Walks the tag list `s` (tokens separated by `;`, each `key[=value]`),
/// inserting each decoded pair into `acc`; the first undecodable key or value
/// fails the whole parse.
pub open spec fn parse_tags(s: Seq<u8>, acc: TagsModel) -> Result<TagsModel, Error>
    decreases s.len(),
    via parse_tags_decreases
{
    if s.len() == 0 {
        Ok(acc)
    } else {
        let token = word_of(s, SEMICOLON);
        let rest = rest_of(s, SEMICOLON);
        let key_b = word_of(token, EQUALS);
        let val_b = rest_of(token, EQUALS);
        if !valid_utf8(key_b) {
            Err(Error::TagKeyDecode)
        } else if tag_has_no_value(val_b) {
            parse_tags(rest, tags_insert(acc, decode_utf8(key_b), None))
        } else if !valid_utf8(val_b) {
            Err(Error::TagValueDecode)
        } else {
            parse_tags(
                rest,
                tags_insert(acc, decode_utf8(key_b), Some(unescape(decode_utf8(val_b)))),
            )
        }
    }
}

#[via_fn]
proof fn parse_tags_decreases(s: Seq<u8>, acc: TagsModel) {
    if s.len() > 0 {
        lemma_rest_of_shrinks(s, SEMICOLON);
    }
}

/// Splits the remainder of a line into argument tokens: a token whose first
/// byte is `:` is the final argument and takes the whole rest of the line
/// verbatim; any other token ends at the next space.
pub open spec fn parse_args(s: Seq<u8>, acc: Seq<Seq<u8>>) -> Seq<Seq<u8>>
    decreases s.len(),
    via parse_args_decreases
{
    if s.len() == 0 {
        acc
    } else if s[0] == COLON {
        acc.push(s.skip(1))
    } else {
        parse_args(rest_of(s, SPACE), acc.push(word_of(s, SPACE)))
    }
}

#[via_fn]
proof fn parse_args_decreases(s: Seq<u8>, acc: Seq<Seq<u8>>) {
    if s.len() > 0 && s[0] != COLON {
        lemma_rest_of_shrinks(s, SPACE);
    }
}

/// The line starts with a tag part when its first byte is `@`.
pub open spec fn has_tag_part(input: Seq<u8>) -> bool {
    input.len() > 0 && input[0] == AT
}

/// The tag list: the first space-delimited word, without its leading `@`.
pub open spec fn tag_list_bytes(input: Seq<u8>) -> Seq<u8> {
    word_of(input, SPACE).skip(1)
}

/// What follows the tag part (all of the line when there is none).
pub open spec fn after_tag_part(input: Seq<u8>) -> Seq<u8> {
    if has_tag_part(input) {
        rest_of(input, SPACE)
    } else {
        input
    }
}

/// After tags, the line has a source part when its first byte is `:`.
pub open spec fn has_source_part(s: Seq<u8>) -> bool {
    s.len() > 0 && s[0] == COLON
}

/// The source: the first space-delimited word, without its leading `:`.
pub open spec fn source_bytes(s: Seq<u8>) -> Seq<u8> {
    word_of(s, SPACE).skip(1)
}

/// What follows the source part (all of `s` when there is none).
pub open spec fn after_source_part(s: Seq<u8>) -> Seq<u8> {
    if has_source_part(s) {
        rest_of(s, SPACE)
    } else {
        s
    }
}

/// Tokenising after the tag part: source, then command and arguments. The
/// first argument token is the command and must decode as text; a line with
/// no token at all has no command.
pub open spec fn tokenise_rest(tags: Option<TagsModel>, s: Seq<u8>) -> Result<LineModel, Error> {
    let source = if has_source_part(s) {
        Some(source_bytes(s))
    } else {
        None
    };
    let args = parse_args(after_source_part(s), Seq::empty());
    if args.len() == 0 {
        Err(Error::MissingCommand)
    } else if !valid_utf8(args[0]) {
        Err(Error::CommandDecode)
    } else {
        Ok(
            LineModel {
                tags,
                source,
                command: decode_utf8(args[0]),
                arguments: args.skip(1),
            },
        )
    }
}

/// Undoes tag-value escaping on a decoded value; the executable counterpart
/// of [`unescape`].
fn tag_decode(input: &str) -> (r: String)
    ensures
        r@ == unescape(input@),
{
    let n = input.unicode_len();
    let mut out_bytes: Vec<u8> = Vec::new();
    let ghost mut done: Seq<char> = Seq::empty();
    let mut i: usize = 0;
    proof {
        assert(input@.skip(0) =~= input@);
    }
    while i < n
        invariant
            0 <= i <= n,
            n == input@.len(),
            out_bytes@ == encode_utf8(done),
            unescape(input@) == done + unescape(input@.skip(i as int)),
        decreases n - i,
    {
        let c = input.get_char(i);
        let ghost suffix = input@.skip(i as int);
        proof {
            assert(suffix[0] == input@[i as int]);
        }
        if c == '\\' {
            if i + 1 < n {
                let c2 = input.get_char(i + 1);
                let rc = if c2 == ':' {
                    ';'
                } else if c2 == 's' {
                    ' '
                } else if c2 == 'r' {
                    '\r'
                } else if c2 == 'n' {
                    '\n'
                } else {
                    c2
                };
                proof {
                    assert(suffix[1] == input@[i + 1]);
                    assert(rc == unescape_char(suffix[1]));
                    assert(suffix.skip(2) =~= input@.skip(i + 2));
                    assert(unescape(suffix) == seq![rc] + unescape(input@.skip(i + 2)));
                    lemma_encode_utf8_push(done, rc);
                    assert(done + unescape(suffix) =~= done.push(rc) + unescape(
                        input@.skip(i + 2),
                    ));
                }
                push_char_utf8(&mut out_bytes, rc);
                proof {
                    done = done.push(rc);
                    assert(out_bytes@ =~= encode_utf8(done));
                }
                i += 2;
            } else {
                proof {
                    assert(suffix.len() == 1);
                    assert(unescape(suffix) =~= Seq::<char>::empty());
                    assert(input@.skip(i + 1).len() == 0);
                    assert(unescape(input@.skip(i + 1)) =~= Seq::<char>::empty());
                    assert(done + unescape(suffix) =~= done + unescape(input@.skip(i + 1)));
                }
                i += 1;
            }
        } else {
            proof {
                assert(suffix.skip(1) =~= input@.skip(i + 1));
                assert(unescape(suffix) == seq![c] + unescape(input@.skip(i + 1)));
                lemma_encode_utf8_push(done, c);
                assert(done + unescape(suffix) =~= done.push(c) + unescape(input@.skip(i + 1)));
            }
            push_char_utf8(&mut out_bytes, c);
            proof {
                done = done.push(c);
                assert(out_bytes@ =~= encode_utf8(done));
            }
            i += 1;
        }
    }
    proof {
        assert(input@.skip(n as int).len() == 0);
        assert(unescape(input@.skip(n as int)) =~= Seq::<char>::empty());
        assert(unescape(input@) =~= done);
        encode_utf8_valid_utf8(done);
        encode_utf8_decode_utf8(done);
    }
    match string_from_utf8(out_bytes) {
        Some(s) => s,
        None => vstd::pervasive::unreached(),
    }
}

/// Inserts a pair into the key-sorted tag container; the executable
/// counterpart of [`tags_insert`].
fn tags_insert_exec(tags: &mut Vec<(String, Option<String>)>, key: String, value: Option<String>)
    ensures
        final(tags).deep_view() == tags_insert(old(tags).deep_view(), key@, value.deep_view()),
{
    let n = tags.len();
    let ghost dv = tags.deep_view();
    let mut i: usize = 0;
    while i < n && str_lex_lt(tags[i].0.as_str(), key.as_str())
        invariant
            0 <= i <= n,
            n == tags.len(),
            tags.deep_view() == dv,
            dv == old(tags).deep_view(),
            forall|j: int| 0 <= j < i ==> key_lt(#[trigger] dv[j].0, key@),
        decreases n - i,
    {
        proof {
            assert(dv[i as int].0 == tags@[i as int].0@);
        }
        i += 1;
    }
    proof {
        if i < n {
            assert(dv[i as int].0 == tags@[i as int].0@);
        }
        lemma_tags_insert_at(dv, key@, value.deep_view(), i as int);
    }
    if i < n && tags[i].0 == key {
        proof {
            assert(dv[i as int].0 == key@);
        }
        let _ = tags.remove(i);
        tags.insert(i, (key, value));
        proof {
            assert(tags.deep_view() =~= dv.update(i as int, (key@, value.deep_view())));
        }
    } else {
        proof {
            if i < n {
                assert(dv[i as int].0 != key@);
            }
        }
        tags.insert(i, (key, value));
        proof {
            assert(tags.deep_view() =~= dv.insert(i as int, (key@, value.deep_view())));
        }
    }
}

/// The complete mathematical description of tokenising: what
/// [`Line::tokenise`] returns for every byte sequence.
pub open spec fn spec_tokenise(input: Seq<u8>) -> Result<LineModel, Error> {
    if has_tag_part(input) {
        match parse_tags(tag_list_bytes(input), Seq::empty()) {
            Err(e) => Err(e),
            Ok(ts) => tokenise_rest(Some(ts), after_tag_part(input)),
        }
    } else {
        tokenise_rest(None, input)
    }
}

impl Line {
    /// Tokenises one line of wire bytes by RFC 1459 / IRCv3 protocol rules.
    ///
    /// Expects a byte string that does NOT contain a trailing CRLF. Returns
    /// exactly the line that the wire-grammar model [`spec_tokenise`]
    /// describes, with its tags sorted by key, or the error it describes.
    pub fn tokenise(line: &[u8]) -> (r: Result<Line, Error>)
        ensures
            (match (spec_tokenise(line@), r) {
                (Ok(v), Ok(l)) => l@ == v && l.wf(),
                (Err(e), Err(e2)) => e == e2,
                _ => false,
            }),
    {
        let mut rest: &[u8] = line;
        let tags = if rest.len() > 0 && rest[0] == AT {
            proof {
                assert(has_tag_part(line@));
                assert(word_of(line@, SPACE) == seq![line@[0]] + word_of(
                    line@.drop_first(),
                    SPACE,
                ));
            }
            let (word, r2) = take_word(rest, SPACE);
            rest = r2;
            let tag_list: &[u8] = slice_subrange(word, 1, word.len());
            proof {
                assert(tag_list@ =~= tag_list_bytes(line@));
            }
            let ghost tl0 = tag_list@;
            let mut tag_bytes: &[u8] = tag_list;
            let mut tags_vec: Vec<(String, Option<String>)> = Vec::new();
            proof {
                assert(tags_vec.deep_view() =~= Seq::<(Seq<char>, Option<Seq<char>>)>::empty());
            }
            while tag_bytes.len() > 0
                invariant
                    has_tag_part(line@),
                    tl0 == tag_list_bytes(line@),
                    parse_tags(tag_bytes@, tags_vec.deep_view()) == parse_tags(tl0, Seq::empty()),
                decreases tag_bytes@.len(),
            {
                let ghost s0 = tag_bytes@;
                let ghost acc0 = tags_vec.deep_view();
                let (token, r3) = take_word(tag_bytes, SEMICOLON);
                tag_bytes = r3;
                let (key_b, val_b) = take_word(token, EQUALS);
                let key = match string_from_utf8(slice_to_vec(key_b)) {
                    Some(k) => k,
                    None => {
                        proof {
                            assert(parse_tags(s0, acc0) == Err::<TagsModel, Error>(
                                Error::TagKeyDecode,
                            ));
                        }
                        return Err(Error::TagKeyDecode);
                    },
                };
                let no_value = val_b.len() == 0 || (val_b.len() == 1 && val_b[0] == EQUALS);
                proof {
                    if no_value && val_b@.len() != 0 {
                        assert(val_b@ =~= seq![EQUALS]);
                    }
                    if !no_value && val_b@ == seq![EQUALS] {
                        assert(val_b@.len() == 1 && val_b@[0] == EQUALS);
                    }
                    assert(no_value == tag_has_no_value(val_b@));
                }
                let value = if no_value {
                    None
                } else {
                    match string_from_utf8(slice_to_vec(val_b)) {
                        Some(v) => Some(tag_decode(v.as_str())),
                        None => {
                            proof {
                                assert(parse_tags(s0, acc0) == Err::<TagsModel, Error>(
                                    Error::TagValueDecode,
                                ));
                            }
                            return Err(Error::TagValueDecode);
                        },
                    }
                };
                proof {
                    assert(value.deep_view() == (if tag_has_no_value(val_b@) {
                        None
                    } else {
                        Some(unescape(decode_utf8(val_b@)))
                    }));
                }
                tags_insert_exec(&mut tags_vec, key, value);
                proof {
                    lemma_rest_of_shrinks(s0, SEMICOLON);
                    assert(parse_tags(tag_bytes@, tags_vec.deep_view()) == parse_tags(s0, acc0));
                }
            }
            proof {
                assert(parse_tags(tl0, Seq::empty()) == Ok::<TagsModel, Error>(
                    tags_vec.deep_view(),
                ));
                lemma_parse_tags_sorted(tl0, Seq::empty());
                assert(tags_sorted(tags_vec.deep_view()));
            }
            Some(tags_vec)
        } else {
            None
        };
        let ghost gtags = tags.deep_view();
        let ghost rest1 = rest@;
        proof {
            assert(rest1 == after_tag_part(line@));
            assert(spec_tokenise(line@) == tokenise_rest(gtags, rest1));
            assert(match gtags {
                Some(ts) => tags_sorted(ts),
                None => true,
            });
        }
        let source = if rest.len() > 0 && rest[0] == COLON {
            proof {
                assert(word_of(rest1, SPACE) == seq![rest1[0]] + word_of(
                    rest1.drop_first(),
                    SPACE,
                ));
            }
            let (word, r2) = take_word(rest, SPACE);
            rest = r2;
            let src = slice_to_vec(slice_subrange(word, 1, word.len()));
            proof {
                assert(src@ =~= source_bytes(rest1));
            }
            Some(src)
        } else {
            None
        };
        let ghost gsource = source.deep_view();
        let ghost rest2 = rest@;
        proof {
            assert(rest2 == after_source_part(rest1));
            assert(gsource == (if has_source_part(rest1) {
                Some(source_bytes(rest1))
            } else {
                None
            }));
        }
        let mut args: Vec<Vec<u8>> = Vec::new();
        proof {
            assert(args.deep_view() =~= Seq::<Seq<u8>>::empty());
        }
        while rest.len() > 0
            invariant
                parse_args(rest@, args.deep_view()) == parse_args(rest2, Seq::empty()),
            decreases rest@.len(),
        {
            let ghost s0 = rest@;
            let ghost acc0 = args.deep_view();
            if rest[0] == COLON {
                let arg = slice_to_vec(slice_subrange(rest, 1, rest.len()));
                args.push(arg);
                rest = slice_subrange(rest, 0, 0);
                proof {
                    assert(args.deep_view() =~~= acc0.push(s0.skip(1)));
                    assert(parse_args(rest@, args.deep_view()) == args.deep_view());
                }
            } else {
                let (w, r2) = take_word(rest, SPACE);
                let argv = slice_to_vec(w);
                args.push(argv);
                rest = r2;
                proof {
                    lemma_rest_of_shrinks(s0, SPACE);
                    assert(args.deep_view() =~~= acc0.push(word_of(s0, SPACE)));
                }
            }
        }
        let ghost spec_args = parse_args(rest2, Seq::empty());
        proof {
            assert(parse_args(rest@, args.deep_view()) == args.deep_view());
            assert(args.deep_view() == spec_args);
        }
        if args.len() == 0 {
            proof {
                assert(spec_tokenise(line@) == Err::<LineModel, Error>(Error::MissingCommand));
            }
            return Err(Error::MissingCommand);
        }
        let command_bytes = args.remove(0);
        proof {
            assert(command_bytes.deep_view() =~= command_bytes@);
            assert(command_bytes@ == spec_args[0]);
            assert(args.deep_view() =~~= spec_args.skip(1));
        }
        let command = match string_from_utf8(command_bytes) {
            Some(c) => c,
            None => {
                proof {
                    assert(spec_tokenise(line@) == Err::<LineModel, Error>(Error::CommandDecode));
                }
                return Err(Error::CommandDecode);
            },
        };
        let result = Line { tags, source, command, arguments: args };
        proof {
            assert(result@ == (match spec_tokenise(line@) {
                Ok(v) => v,
                Err(e) => arbitrary(),
            }));
        }
        Ok(result)
    }
}

} // verus!
