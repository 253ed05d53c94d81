use vstd::prelude::*;

verus! {

/// A struct representing all the constituent pieces of an RFC 1459 / IRCv3
/// protocol line:
///
/// `@tagkey=tagvalue :source COMMAND arg1 arg2 :arg3 with space`
pub struct Line {
    /// Message tags of an IRC line, `None` if no message tags were present.
    ///
    /// Keys and values are `String` because they are promised to be UTF-8
    /// encoded. The pairs are kept sorted by key, each key at most once, so
    /// that formatting is deterministic; [`Line::wf`] states that invariant
    /// and [`Line::tokenise`] guarantees it.
    pub tags: Option<Vec<(String, Option<String>)>>,
    /// The `:source` of an IRC line, or `None` if no source is present.
    /// Raw bytes, as the source may be unpredictably encoded.
    pub source: Option<Vec<u8>>,
    /// The `COMMAND` of an IRC line (e.g. `PRIVMSG`), promised to be UTF-8.
    pub command: String,
    /// The arguments of an IRC line, in order. Raw bytes, as they may be
    /// unpredictably encoded. Only the last argument may contain spaces.
    pub arguments: Vec<Vec<u8>>,
}

/// The mathematical image of a [`Line`]: tag keys, tag values and the command
/// as character sequences, the source and the arguments as byte sequences.
pub struct LineModel {
    pub tags: Option<Seq<(Seq<char>, Option<Seq<char>>)>>,
    pub source: Option<Seq<u8>>,
    pub command: Seq<char>,
    pub arguments: Seq<Seq<u8>>,
}

impl View for Line {
    type V = LineModel;

    open spec fn view(&self) -> LineModel {
        LineModel {
            tags: self.tags.deep_view(),
            source: self.source.deep_view(),
            command: self.command@,
            arguments: self.arguments.deep_view(),
        }
    }
}

/// Strict lexicographic order on tag keys, by Unicode scalar value.
pub open spec fn key_lt(a: Seq<char>, b: Seq<char>) -> bool
    decreases a.len(),
{
    &&& b.len() > 0
    &&& {
        ||| a.len() == 0
        ||| (a[0] as u32) < (b[0] as u32)
        ||| (a[0] == b[0] && key_lt(a.drop_first(), b.drop_first()))
    }
}

/// The mathematical image of the tag container: key/value pairs in order.
pub type TagsModel = Seq<(Seq<char>, Option<Seq<char>>)>;

/// The tag pairs are strictly increasing by key: sorted, with no duplicates.
pub open spec fn tags_sorted(ts: TagsModel) -> bool {
    forall|i: int, j: int| 0 <= i < j < ts.len() ==> key_lt(ts[i].0, ts[j].0)
}

/// [`key_lt`] is total: any two keys are ordered or equal.
pub proof fn lemma_key_lt_trichotomy(a: Seq<char>, b: Seq<char>)
    ensures
        key_lt(a, b) || a == b || key_lt(b, a),
    decreases a.len(),
{
    if a.len() == 0 && b.len() == 0 {
        assert(a =~= b);
    } else if a.len() > 0 && b.len() > 0 {
        if a[0] == b[0] {
            lemma_key_lt_trichotomy(a.drop_first(), b.drop_first());
            if a.drop_first() == b.drop_first() {
                assert(a =~= seq![a[0]] + a.drop_first());
                assert(b =~= seq![b[0]] + b.drop_first());
            }
        } else {
            vstd::utf8::char_u32_cast(a[0], a[0] as u32);
            vstd::utf8::char_u32_cast(b[0], b[0] as u32);
            assert((a[0] as u32) < (b[0] as u32) || (b[0] as u32) < (a[0] as u32));
        }
    }
}

/// [`key_lt`] is asymmetric, hence also irreflexive.
pub proof fn lemma_key_lt_asym(a: Seq<char>, b: Seq<char>)
    requires
        key_lt(a, b),
    ensures
        !key_lt(b, a),
    decreases a.len(),
{
    if a.len() > 0 {
        if (a[0] as u32) < (b[0] as u32) {
            vstd::utf8::char_u32_cast(a[0], a[0] as u32);
            vstd::utf8::char_u32_cast(b[0], b[0] as u32);
        } else {
            lemma_key_lt_asym(a.drop_first(), b.drop_first());
        }
    }
}

/// [`key_lt`] is transitive.
pub proof fn lemma_key_lt_trans(a: Seq<char>, b: Seq<char>, c: Seq<char>)
    requires
        key_lt(a, b),
        key_lt(b, c),
    ensures
        key_lt(a, c),
    decreases a.len(),
{
    if a.len() > 0 {
        if a[0] == b[0] && b[0] == c[0] {
            lemma_key_lt_trans(a.drop_first(), b.drop_first(), c.drop_first());
        }
    }
}

impl LineModel {
    /// Well-formedness: if tags are present, they are sorted by key with no
    /// duplicate keys, so formatting the line is deterministic.
    pub open spec fn wf(&self) -> bool {
        match self.tags {
            Some(ts) => tags_sorted(ts),
            None => true,
        }
    }
}

impl Line {
    /// Well-formedness of the tag container; see [`LineModel::wf`].
    pub open spec fn wf(&self) -> bool {
        self@.wf()
    }
}

} // verus!
