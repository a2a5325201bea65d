use vstd::prelude::*;
use crate::model::{AutoComments, CommentView, Po, PoView, entries_view};
use crate::reader::{pairs_view, set_plural, set_plural_exec};
use crate::text::{chars_of, decimal, push_decimal, string_from};

verus! {

/// `v` with each newline written as the end of one quoted line and the start
/// of the next: `"` newline `"`.
pub open spec fn escape_newlines(v: Seq<char>) -> Seq<char>
    decreases v.len(),
{
    if v.len() == 0 {
        v
    } else if v.last() == '\n' {
        escape_newlines(v.drop_last()) + seq!['"', '\n', '"']
    } else {
        escape_newlines(v.drop_last()).push(v.last())
    }
}

/// A keyword with its quoted value: `kw "v"`, a value with newlines going on
/// in bare quoted lines.
pub open spec fn field_lines(kw: Seq<char>, v: Seq<char>) -> Seq<char> {
    kw + seq![' ', '"'] + escape_newlines(v) + seq!['"', '\n']
}

/// A comment line: its prefix, its body and a newline.
pub open spec fn comment_line(prefix: Seq<char>, body: Seq<char>) -> Seq<char> {
    prefix + body + seq!['\n']
}

pub open spec fn render_comment(c: CommentView) -> Seq<char> {
    match c {
        CommentView::Extracted(b) => comment_line(seq!['#', '.', ' '], b),
        CommentView::Flag(b) => comment_line(seq!['#', ',', ' '], b),
        CommentView::Other(b) => comment_line(seq!['#', '|', ' '], b),
    }
}

pub open spec fn render_comments(cs: Seq<CommentView>) -> Seq<char>
    decreases cs.len(),
{
    if cs.len() == 0 {
        Seq::empty()
    } else {
        render_comments(cs.drop_last()) + render_comment(cs.last())
    }
}

/// The keyword of the translation of plural index `k`: `msgstr[k]`.
pub open spec fn plural_keyword(k: usize) -> Seq<char> {
    seq!['m', 's', 'g', 's', 't', 'r', '['] + decimal(k as nat) + seq![']']
}

pub open spec fn render_plurals(m: Seq<(usize, Seq<char>)>) -> Seq<char>
    decreases m.len(),
{
    if m.len() == 0 {
        Seq::empty()
    } else {
        render_plurals(m.drop_last()) + field_lines(plural_keyword(m.last().0), m.last().1)
    }
}

/// The translations of `m` read as a map from index to text: sorted by
/// index, with only the last pair of each index.
pub open spec fn plural_order(m: Seq<(usize, Seq<char>)>) -> Seq<(usize, Seq<char>)>
    decreases m.len(),
{
    if m.len() == 0 {
        Seq::empty()
    } else {
        set_plural(plural_order(m.drop_last()), m.last().0, m.last().1)
    }
}

/// The translations, given in index order: none, one bare `msgstr` line for a single one whatever
/// its index, or one `msgstr[k]` line for each, in the order given.
pub open spec fn render_msgstr(m: Seq<(usize, Seq<char>)>) -> Seq<char> {
    if m.len() == 0 {
        Seq::empty()
    } else if m.len() == 1 {
        field_lines(seq!['m', 's', 'g', 's', 't', 'r'], m[0].1)
    } else {
        render_plurals(m)
    }
}

/// The comment lines of an entry. The translator comment is written on one
/// `# ` line as it stands.
pub open spec fn render_head(po: PoView) -> Seq<char> {
    (if po.translator_comments.len() == 0 {
        Seq::empty()
    } else {
        comment_line(seq!['#', ' '], po.translator_comments)
    }) + render_comments(po.auto_comments) + (if po.reference.len() == 0 {
        Seq::empty()
    } else {
        comment_line(seq!['#', ':', ' '], po.reference)
    })
}

/// The context, msgid and translation lines of an entry.
pub open spec fn render_body(po: PoView) -> Seq<char> {
    (if po.msgctxt.len() == 0 {
        Seq::empty()
    } else {
        field_lines(seq!['m', 's', 'g', 'c', 't', 'x', 't'], po.msgctxt)
    }) + (if po.msgid.len() == 0 {
        Seq::empty()
    } else {
        field_lines(seq!['m', 's', 'g', 'i', 'd'], po.msgid)
    }) + render_msgstr(plural_order(po.msgstr))
}

/// The text of one entry, followed by a blank line. Empty fields are left out.
pub open spec fn render_entry(po: PoView) -> Seq<char> {
    render_head(po) + render_body(po) + seq!['\n']
}

/// The text of the entries `es`, one after another.
pub open spec fn render_all(es: Seq<PoView>) -> Seq<char>
    decreases es.len(),
{
    if es.len() == 0 {
        Seq::empty()
    } else {
        render_all(es.drop_last()) + render_entry(es.last())
    }
}

fn push_all(out: &mut Vec<char>, s: &[char])
    ensures
        final(out)@ == old(out)@ + s@,
{
    let ghost start = out@;
    let mut i: usize = 0;
    while i < s.len()
        invariant
            i <= s.len(),
            out@ == start + s@.subrange(0, i as int),
        decreases s.len() - i,
    {
        out.push(s[i]);
        i = i + 1;
        assert(out@ =~= start + s@.subrange(0, i as int));
    }
    assert(s@.subrange(0, i as int) =~= s@);
}

fn push_escaped(out: &mut Vec<char>, v: &Vec<char>)
    ensures
        final(out)@ == old(out)@ + escape_newlines(v@),
{
    let ghost start = out@;
    let mut i: usize = 0;
    while i < v.len()
        invariant
            i <= v.len(),
            out@ == start + escape_newlines(v@.subrange(0, i as int)),
        decreases v.len() - i,
    {
        assert(v@.subrange(0, i + 1).drop_last() =~= v@.subrange(0, i as int));
        if v[i] == '\n' {
            out.push('"');
            out.push('\n');
            out.push('"');
        } else {
            out.push(v[i]);
        }
        i = i + 1;
        assert(out@ =~= start + escape_newlines(v@.subrange(0, i as int)));
    }
    assert(v@.subrange(0, i as int) =~= v@);
}

fn push_field(out: &mut Vec<char>, kw: &[char], v: &Vec<char>)
    ensures
        final(out)@ == old(out)@ + field_lines(kw@, v@),
{
    let ghost start = out@;
    push_all(out, kw);
    out.push(' ');
    out.push('"');
    push_escaped(out, v);
    out.push('"');
    out.push('\n');
    assert(out@ =~= start + field_lines(kw@, v@));
}

fn push_comment_line(out: &mut Vec<char>, prefix: &[char], body: &Vec<char>)
    ensures
        final(out)@ == old(out)@ + comment_line(prefix@, body@),
{
    let ghost start = out@;
    push_all(out, prefix);
    push_all(out, body.as_slice());
    out.push('\n');
    assert(out@ =~= start + comment_line(prefix@, body@));
}

fn push_auto_comment(out: &mut Vec<char>, c: &AutoComments)
    ensures
        final(out)@ == old(out)@ + render_comment(c@),
{
    let p_extracted: [char; 3] = ['#', '.', ' '];
    let p_flag: [char; 3] = ['#', ',', ' '];
    let p_other: [char; 3] = ['#', '|', ' '];
    assert(p_extracted@ =~= seq!['#', '.', ' ']);
    assert(p_flag@ =~= seq!['#', ',', ' ']);
    assert(p_other@ =~= seq!['#', '|', ' ']);
    match c {
        AutoComments::ExtractedComments(b) => push_comment_line(out, p_extracted.as_slice(), &chars_of(b.as_str())),
        AutoComments::Flag(b) => push_comment_line(out, p_flag.as_slice(), &chars_of(b.as_str())),
        AutoComments::Other(b) => push_comment_line(out, p_other.as_slice(), &chars_of(b.as_str())),
    }
}

/// The translations of `m` as a map: sorted by index, one per index, the
/// last pair of an index winning.
fn ordered_plurals(m: &Vec<(usize, String)>) -> (r: Vec<(usize, Vec<char>)>)
    ensures
        pairs_view(r@) == plural_order(crate::model::plurals_view(m@)),
{
    let ghost mv = crate::model::plurals_view(m@);
    let mut r: Vec<(usize, Vec<char>)> = Vec::new();
    let mut i: usize = 0;
    assert(pairs_view(r@) =~= Seq::<(usize, Seq<char>)>::empty());
    assert(mv.subrange(0, 0) =~= Seq::<(usize, Seq<char>)>::empty());
    while i < m.len()
        invariant
            i <= m.len(),
            mv == crate::model::plurals_view(m@),
            pairs_view(r@) == plural_order(mv.subrange(0, i as int)),
        decreases m.len() - i,
    {
        assert(mv.subrange(0, i + 1).drop_last() =~= mv.subrange(0, i as int));
        assert(mv.subrange(0, i + 1).last() == mv[i as int]);
        set_plural_exec(&mut r, m[i].0, chars_of(m[i].1.as_str()));
        i = i + 1;
    }
    assert(mv.subrange(0, i as int) =~= mv);
    r
}

fn push_msgstr(out: &mut Vec<char>, m: &Vec<(usize, String)>)
    ensures
        final(out)@ == old(out)@ + render_msgstr(plural_order(crate::model::plurals_view(m@))),
{
    let o = ordered_plurals(m);
    let ghost mv = pairs_view(o@);
    if o.len() == 0 {
        assert(out@ =~= out@ + render_msgstr(mv));
        return;
    }
    if o.len() == 1 {
        let kw: [char; 6] = ['m', 's', 'g', 's', 't', 'r'];
        assert(kw@ =~= seq!['m', 's', 'g', 's', 't', 'r']);
        assert(mv[0].1 == o@[0].1@);
        push_field(out, kw.as_slice(), &o[0].1);
        return;
    }
    let ghost start = out@;
    let mut i: usize = 0;
    while i < o.len()
        invariant
            i <= o.len(),
            mv == pairs_view(o@),
            out@ == start + render_plurals(mv.subrange(0, i as int)),
        decreases o.len() - i,
    {
        assert(mv.subrange(0, i + 1).drop_last() =~= mv.subrange(0, i as int));
        assert(mv[i as int] == (o@[i as int].0, o@[i as int].1@));
        let mut kw: Vec<char> = Vec::new();
        kw.push('m');
        kw.push('s');
        kw.push('g');
        kw.push('s');
        kw.push('t');
        kw.push('r');
        kw.push('[');
        push_decimal(&mut kw, o[i].0);
        kw.push(']');
        assert(kw@ =~= plural_keyword(o@[i as int].0));
        push_field(out, kw.as_slice(), &o[i].1);
        i = i + 1;
        assert(out@ =~= start + render_plurals(mv.subrange(0, i as int)));
    }
    assert(mv.subrange(0, i as int) =~= mv);
}

fn push_head(out: &mut Vec<char>, po: &Po)
    ensures
        final(out)@ == old(out)@ + render_head(po@),
{
    let ghost start = out@;
    let ghost v = po@;
    let tc = chars_of(po.translator_comments.as_str());
    if tc.len() > 0 {
        let p: [char; 2] = ['#', ' '];
        assert(p@ =~= seq!['#', ' ']);
        push_comment_line(out, p.as_slice(), &tc);
    }
    let ghost s1 = out@;
    let ghost cv = v.auto_comments;
    assert(cv.subrange(0, 0) =~= Seq::<CommentView>::empty());
    assert(s1 + Seq::<char>::empty() =~= s1);
    let mut i: usize = 0;
    while i < po.auto_comments.len()
        invariant
            i <= po.auto_comments.len(),
            cv == crate::model::comments_view(po.auto_comments@),
            out@ == s1 + render_comments(cv.subrange(0, i as int)),
        decreases po.auto_comments.len() - i,
    {
        assert(cv.subrange(0, i + 1).drop_last() =~= cv.subrange(0, i as int));
        push_auto_comment(out, &po.auto_comments[i]);
        i = i + 1;
        assert(out@ =~= s1 + render_comments(cv.subrange(0, i as int)));
    }
    assert(cv.subrange(0, i as int) =~= cv);
    let rf = chars_of(po.reference.as_str());
    if rf.len() > 0 {
        let p: [char; 3] = ['#', ':', ' '];
        assert(p@ =~= seq!['#', ':', ' ']);
        push_comment_line(out, p.as_slice(), &rf);
    }
    assert(out@ =~= start + render_head(v));
}

fn push_body(out: &mut Vec<char>, po: &Po)
    ensures
        final(out)@ == old(out)@ + render_body(po@),
{
    let ghost start = out@;
    let ghost v = po@;
    let cx = chars_of(po.msgctxt.as_str());
    if cx.len() > 0 {
        let kw: [char; 7] = ['m', 's', 'g', 'c', 't', 'x', 't'];
        assert(kw@ =~= seq!['m', 's', 'g', 'c', 't', 'x', 't']);
        push_field(out, kw.as_slice(), &cx);
    }
    let id = chars_of(po.msgid.as_str());
    if id.len() > 0 {
        let kw: [char; 5] = ['m', 's', 'g', 'i', 'd'];
        assert(kw@ =~= seq!['m', 's', 'g', 'i', 'd']);
        push_field(out, kw.as_slice(), &id);
    }
    push_msgstr(out, &po.msgstr);
    assert(out@ =~= start + render_body(v));
}

fn push_entry(out: &mut Vec<char>, po: &Po)
    ensures
        final(out)@ == old(out)@ + render_entry(po@),
{
    let ghost start = out@;
    push_head(out, po);
    push_body(out, po);
    out.push('\n');
    assert(out@ =~= start + render_entry(po@));
}

/// Renders entries as catalog text: each entry's comments, context, msgid and
/// translations, followed by a blank line.
pub fn langs_to_string(langs: &[Po]) -> (r: String)
    ensures
        r@ == render_all(entries_view(langs@)),
{
    let ghost es = entries_view(langs@);
    let mut out: Vec<char> = Vec::new();
    let mut i: usize = 0;
    assert(es.subrange(0, 0) =~= Seq::<PoView>::empty());
    while i < langs.len()
        invariant
            i <= langs.len(),
            es == entries_view(langs@),
            out@ == render_all(es.subrange(0, i as int)),
        decreases langs.len() - i,
    {
        assert(es.subrange(0, i + 1).drop_last() =~= es.subrange(0, i as int));
        push_entry(&mut out, &langs[i]);
        i = i + 1;
    }
    assert(es.subrange(0, i as int) =~= es);
    string_from(out.as_slice())
}

} // verus!
