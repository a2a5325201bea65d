use vstd::prelude::*;

verus! {

/// A machine-written comment of an entry, by the prefix of its line.
#[derive(Debug, Clone, PartialEq, Eq)]
pub enum AutoComments {
    /// The body of a `#. ` line: a note extracted from the source code.
    ExtractedComments(String),
    /// The body of a `#, ` line, such as `fuzzy` or `c-format`.
    Flag(String),
    /// The body of a `#| ` line: the previous string of a fuzzy match.
    Other(String),
}

/// The mathematical value of an [`AutoComments`].
pub enum CommentView {
    Extracted(Seq<char>),
    Flag(Seq<char>),
    Other(Seq<char>),
}

impl View for AutoComments {
    type V = CommentView;

    open spec fn view(&self) -> CommentView {
        match self {
            AutoComments::ExtractedComments(s) => CommentView::Extracted(s@),
            AutoComments::Flag(s) => CommentView::Flag(s@),
            AutoComments::Other(s) => CommentView::Other(s@),
        }
    }
}

/// One translation unit of a catalog.
///
/// `msgstr` pairs each plural index with its translation; index 0 is the
/// singular form. The pairs are read as a map from index to text: the last
/// pair of an index is its translation, and the writer renders them sorted by
/// index. Entries that the reader makes hold each index once, in increasing
/// order.
#[derive(Debug, Clone, PartialEq, Eq)]
pub struct Po {
    pub translator_comments: String,
    pub auto_comments: Vec<AutoComments>,
    pub reference: String,
    pub msgctxt: String,
    pub msgid: String,
    pub msgstr: Vec<(usize, String)>,
}

/// The mathematical value of a [`Po`].
pub struct PoView {
    pub translator_comments: Seq<char>,
    pub auto_comments: Seq<CommentView>,
    pub reference: Seq<char>,
    pub msgctxt: Seq<char>,
    pub msgid: Seq<char>,
    pub msgstr: Seq<(usize, Seq<char>)>,
}

pub open spec fn comments_view(cs: Seq<AutoComments>) -> Seq<CommentView> {
    cs.map_values(|c: AutoComments| c@)
}

pub open spec fn plurals_view(ms: Seq<(usize, String)>) -> Seq<(usize, Seq<char>)> {
    ms.map_values(|p: (usize, String)| (p.0, p.1@))
}

impl View for Po {
    type V = PoView;

    open spec fn view(&self) -> PoView {
        PoView {
            translator_comments: self.translator_comments@,
            auto_comments: comments_view(self.auto_comments@),
            reference: self.reference@,
            msgctxt: self.msgctxt@,
            msgid: self.msgid@,
            msgstr: plurals_view(self.msgstr@),
        }
    }
}

pub open spec fn entries_view(es: Seq<Po>) -> Seq<PoView> {
    es.map_values(|e: Po| e@)
}

/// The plural indices of `m` increase strictly from first to last.
pub open spec fn keys_increasing(m: Seq<(usize, Seq<char>)>) -> bool {
    forall|i: int, j: int| 0 <= i < j < m.len() ==> m[i].0 < m[j].0
}

impl PoView {
    /// The entry that parsing starts from: every field empty.
    pub open spec fn empty() -> PoView {
        PoView {
            translator_comments: Seq::empty(),
            auto_comments: Seq::empty(),
            reference: Seq::empty(),
            msgctxt: Seq::empty(),
            msgid: Seq::empty(),
            msgstr: Seq::empty(),
        }
    }
}

} // verus!
