use vstd::prelude::*;
use crate::laws::{
    lemma_comment_line_read_back, lemma_decimal_digits, lemma_field_line,
    lemma_msgctxt_line_read_back, lemma_msgid_line_read_back, lemma_msgstr_line_read_back,
    lemma_plural_line_read_back, lemma_quote_round_trip, newline_free, quote_free,
};
use crate::model::{CommentView, PoView, keys_increasing};
use crate::reader::{
    Continuation, extend_plural, group_scan, groups_of, is_comment, lines_of, lines_scan,
    parse_entry, parse_groups, parse_line, parse_scan, parse_text, set_plural, strip_cr,
};
use crate::text::{decimal, starts_with, unquote};
use crate::writer::{
    comment_line, escape_newlines, field_lines, plural_keyword, render_all, render_comment,
    plural_order, render_comments, render_entry, render_msgstr, render_plurals,
};

verus! {

/// The lines `ls`, each followed by a newline.
pub open spec fn line_join(ls: Seq<Seq<char>>) -> Seq<char>
    decreases ls.len(),
{
    if ls.len() == 0 {
        Seq::empty()
    } else {
        line_join(ls.drop_last()) + ls.last().push('\n')
    }
}

/// A line that reads back as itself: not empty, without newline, and not
/// ending in a carriage return.
pub open spec fn plain_line(l: Seq<char>) -> bool {
    l.len() > 0 && newline_free(l) && l.last() != '\r'
}

proof fn lemma_scan_append(a: Seq<char>, b: Seq<char>)
    requires
        lines_scan(a).1.len() == 0,
    ensures
        lines_scan(a + b) == (lines_scan(a).0 + lines_scan(b).0, lines_scan(b).1),
    decreases b.len(),
{
    if b.len() == 0 {
        assert(a + b =~= a);
        assert(lines_scan(a).0 + Seq::<Seq<char>>::empty() =~= lines_scan(a).0);
        assert(lines_scan(a).1 =~= Seq::<char>::empty());
    } else {
        lemma_scan_append(a, b.drop_last());
        assert((a + b).drop_last() =~= a + b.drop_last());
        assert((a + b).last() == b.last());
        let (bl, bc) = lines_scan(b.drop_last());
        let l = strip_cr(bc);
        if l.len() > 0 {
            assert(lines_scan(a).0 + bl.push(l) =~= (lines_scan(a).0 + bl).push(l));
        }
    }
}

proof fn lemma_scan_newline_free(l: Seq<char>)
    requires
        newline_free(l),
    ensures
        lines_scan(l) == (Seq::<Seq<char>>::empty(), l),
    decreases l.len(),
{
    if l.len() == 0 {
        assert(l =~= Seq::<char>::empty());
    } else {
        lemma_scan_newline_free(l.drop_last());
        assert(l.drop_last().push(l.last()) =~= l);
    }
}

proof fn lemma_scan_join(ls: Seq<Seq<char>>)
    requires
        forall|i: int| 0 <= i < ls.len() ==> plain_line(#[trigger] ls[i]),
    ensures
        lines_scan(line_join(ls)) == (ls, Seq::<char>::empty()),
    decreases ls.len(),
{
    if ls.len() == 0 {
        assert(ls =~= Seq::<Seq<char>>::empty());
    } else {
        let p = ls.drop_last();
        let l = ls.last();
        assert(plain_line(ls[ls.len() - 1]));
        lemma_scan_join(p);
        lemma_scan_newline_free(l);
        assert(l.push('\n').drop_last() =~= l);
        assert(lines_scan(l.push('\n')) == (seq![l], Seq::<char>::empty()));
        lemma_scan_append(line_join(p), l.push('\n'));
        assert(p + seq![l] =~= ls);
    }
}

/// Reading the lines of `ls`, each followed by a newline, and then of `rest`
/// gives `ls` and then the lines of `rest`.
pub proof fn lemma_lines_of_join(ls: Seq<Seq<char>>, rest: Seq<char>)
    requires
        forall|i: int| 0 <= i < ls.len() ==> plain_line(#[trigger] ls[i]),
    ensures
        lines_scan(line_join(ls) + rest) == (ls + lines_scan(rest).0, lines_scan(rest).1),
        lines_of(line_join(ls) + rest) == ls + lines_of(rest),
{
    lemma_scan_join(ls);
    lemma_scan_append(line_join(ls), rest);
    let (rl, rc) = lines_scan(rest);
    if rc.len() > 0 {
        assert(ls + rl.push(rc) =~= (ls + rl).push(rc));
    }
}

/// A blank line adds no line.
pub proof fn lemma_lines_blank(rest: Seq<char>)
    ensures
        lines_scan(seq!['\n'] + rest) == lines_scan(rest),
{
    let nl = seq!['\n'];
    assert(nl.drop_last() =~= Seq::<char>::empty());
    assert(nl.last() == '\n');
    assert(lines_scan(Seq::<char>::empty()) == (Seq::<Seq<char>>::empty(), Seq::<char>::empty()));
    assert(strip_cr(Seq::<char>::empty()) =~= Seq::<char>::empty());
    assert(lines_scan(nl) == (Seq::<Seq<char>>::empty(), Seq::<char>::empty()));
    lemma_scan_append(nl, rest);
    assert(Seq::<Seq<char>>::empty() + lines_scan(rest).0 =~= lines_scan(rest).0);
}

/// `v` cut at its newlines: one more piece than it has newlines.
pub open spec fn segments(v: Seq<char>) -> Seq<Seq<char>>
    decreases v.len(),
{
    if v.len() == 0 {
        seq![Seq::empty()]
    } else if v.last() == '\n' {
        segments(v.drop_last()).push(Seq::empty())
    } else {
        let s = segments(v.drop_last());
        s.update(s.len() - 1, s.last().push(v.last()))
    }
}

/// The pieces `segs` put back together, a newline between two.
pub open spec fn join_nl(segs: Seq<Seq<char>>) -> Seq<char>
    decreases segs.len(),
{
    if segs.len() <= 1 {
        if segs.len() == 1 { segs[0] } else { Seq::empty() }
    } else {
        join_nl(segs.drop_last()) + seq!['\n'] + segs.last()
    }
}

/// The pieces `segs` put back together, a closing quote, newline and opening
/// quote between two.
pub open spec fn join_q(segs: Seq<Seq<char>>) -> Seq<char>
    decreases segs.len(),
{
    if segs.len() <= 1 {
        if segs.len() == 1 { segs[0] } else { Seq::empty() }
    } else {
        join_q(segs.drop_last()) + seq!['"', '\n', '"'] + segs.last()
    }
}

pub open spec fn quoted(s: Seq<char>) -> Seq<char> {
    seq!['"'] + s + seq!['"']
}

/// The lines of a field whose value is cut into `segs`: the keyword with the
/// first piece, then one quoted line for each further piece.
pub open spec fn field_list_segs(kw: Seq<char>, segs: Seq<Seq<char>>) -> Seq<Seq<char>>
    decreases segs.len(),
{
    if segs.len() <= 1 {
        seq![kw + seq![' '] + quoted(segs[0])]
    } else {
        field_list_segs(kw, segs.drop_last()).push(quoted(segs.last()))
    }
}

pub open spec fn field_list(kw: Seq<char>, v: Seq<char>) -> Seq<Seq<char>> {
    field_list_segs(kw, segments(v))
}

proof fn lemma_segments(v: Seq<char>)
    ensures
        segments(v).len() >= 1,
        segments(v).len() == 1 ==> newline_free(v),
        join_nl(segments(v)) == v,
        join_q(segments(v)) == escape_newlines(v),
        forall|i: int| 0 <= i < segments(v).len() ==> newline_free(#[trigger] segments(v)[i]),
        quote_free(v) ==> forall|i: int| 0 <= i < segments(v).len() ==> quote_free(#[trigger] segments(v)[i]),
    decreases v.len(),
{
    if v.len() == 0 {
        assert(join_nl(segments(v)) =~= v);
        assert(escape_newlines(v) =~= v);
    } else {
        let w = v.drop_last();
        let c = v.last();
        lemma_segments(w);
        let s = segments(w);
        assert(w.push(c) =~= v);
        if quote_free(v) {
            assert(quote_free(w)) by {
                assert forall|i: int| 0 <= i < w.len() implies w[i] != '"' by {
                    assert(w[i] == v[i]);
                }
            }
        }
        if c == '\n' {
            let t = s.push(Seq::<char>::empty());
            assert(t.drop_last() =~= s);
            assert(join_nl(t) =~= w.push('\n'));
            assert(join_q(t) =~= escape_newlines(w) + seq!['"', '\n', '"']);
            assert forall|i: int| 0 <= i < t.len() implies newline_free(#[trigger] t[i]) by {
                if i < s.len() {
                    assert(t[i] == s[i]);
                }
            }
        } else {
            let t = s.update(s.len() - 1, s.last().push(c));
            if s.len() == 1 {
                assert(join_nl(t) =~= join_nl(s).push(c));
                assert(join_q(t) =~= join_q(s).push(c));
                assert(newline_free(v)) by {
                    assert forall|i: int| 0 <= i < v.len() implies v[i] != '\n' by {
                        if i < w.len() {
                            assert(v[i] == w[i]);
                        }
                    }
                }
            } else {
                assert(t.drop_last() =~= s.drop_last());
                assert(join_nl(t) =~= join_nl(s).push(c));
                assert(join_q(t) =~= join_q(s).push(c));
            }
            assert forall|i: int| 0 <= i < t.len() implies newline_free(#[trigger] t[i]) by {
                if i < s.len() - 1 {
                    assert(t[i] == s[i]);
                } else {
                    assert(newline_free(s[s.len() - 1]));
                    assert forall|j: int| 0 <= j < t[i].len() implies t[i][j] != '\n' by {
                        if j < s.last().len() {
                            assert(t[i][j] == s.last()[j]);
                        }
                    }
                }
            }
            if quote_free(v) {
                assert forall|i: int| 0 <= i < t.len() implies quote_free(#[trigger] t[i]) by {
                    if i < s.len() - 1 {
                        assert(t[i] == s[i]);
                    } else {
                        assert(quote_free(s[s.len() - 1]));
                        assert(c != '"');
                        assert forall|j: int| 0 <= j < t[i].len() implies t[i][j] != '"' by {
                            if j < s.last().len() {
                                assert(t[i][j] == s.last()[j]);
                            }
                        }
                    }
                }
            }
        }
    }
}

proof fn lemma_field_list_join(kw: Seq<char>, segs: Seq<Seq<char>>)
    requires
        segs.len() >= 1,
    ensures
        line_join(field_list_segs(kw, segs)) == kw + seq![' ', '"'] + join_q(segs) + seq!['"', '\n'],
    decreases segs.len(),
{
    let fl = field_list_segs(kw, segs);
    if segs.len() == 1 {
        assert(fl.drop_last() =~= Seq::<Seq<char>>::empty());
        assert(line_join(Seq::<Seq<char>>::empty()) == Seq::<char>::empty());
        assert(fl.last() == kw + seq![' '] + quoted(segs[0]));
        assert(join_q(segs) == segs[0]);
        assert(line_join(fl) == Seq::<char>::empty() + fl.last().push('\n'));
        assert(line_join(fl) =~= kw + seq![' ', '"'] + join_q(segs) + seq!['"', '\n']);
    } else {
        lemma_field_list_join(kw, segs.drop_last());
        assert(fl.drop_last() =~= field_list_segs(kw, segs.drop_last()));
        assert(line_join(fl) =~= kw + seq![' ', '"'] + join_q(segs) + seq!['"', '\n']);
    }
}

/// The text of a field is its lines, each followed by a newline.
pub proof fn lemma_field_text(kw: Seq<char>, v: Seq<char>)
    ensures
        field_lines(kw, v) == line_join(field_list(kw, v)),
{
    lemma_segments(v);
    lemma_field_list_join(kw, segments(v));
    assert(field_lines(kw, v) =~= kw + seq![' ', '"'] + join_q(segments(v)) + seq!['"', '\n']);
}

proof fn lemma_field_list_shape(kw: Seq<char>, segs: Seq<Seq<char>>)
    requires
        segs.len() >= 1,
        kw.len() > 0,
        kw[0] != '#',
        forall|i: int| 0 <= i < segs.len() ==> newline_free(#[trigger] segs[i]),
        newline_free(kw),
    ensures
        field_list_segs(kw, segs).len() == segs.len(),
        forall|i: int| 0 <= i < segs.len() ==> plain_line(#[trigger] field_list_segs(kw, segs)[i])
            && !crate::reader::is_comment(field_list_segs(kw, segs)[i]),
    decreases segs.len(),
{
    let fl = field_list_segs(kw, segs);
    if segs.len() == 1 {
        let l = kw + seq![' '] + quoted(segs[0]);
        assert(newline_free(segs[0]));
        assert(l[0] == kw[0]);
        assert(newline_free(l)) by {
            assert forall|j: int| 0 <= j < l.len() implies l[j] != '\n' by {
                if j < kw.len() {
                    assert(l[j] == kw[j]);
                } else if j > kw.len() + 1 && j < l.len() - 1 {
                    assert(l[j] == segs[0][j - kw.len() - 2]);
                }
            }
        }
    } else {
        lemma_field_list_shape(kw, segs.drop_last());
        let l = quoted(segs.last());
        assert(newline_free(segs[segs.len() - 1]));
        assert(newline_free(l)) by {
            assert forall|j: int| 0 <= j < l.len() implies l[j] != '\n' by {
                if 0 < j < l.len() - 1 {
                    assert(l[j] == segs.last()[j - 1]);
                }
            }
        }
        assert forall|i: int| 0 <= i < segs.len() implies plain_line(#[trigger] fl[i]) && !crate::reader::is_comment(fl[i]) by {
            if i < segs.len() - 1 {
                assert(fl[i] == field_list_segs(kw, segs.drop_last())[i]);
            }
        }
    }
}

/// The lines of a field are lines that read back as themselves, none of them a
/// comment line.
pub proof fn lemma_field_lines_plain(kw: Seq<char>, v: Seq<char>)
    requires
        kw.len() > 0,
        kw[0] != '#',
        newline_free(kw),
    ensures
        field_list(kw, v).len() >= 1,
        forall|i: int| 0 <= i < field_list(kw, v).len() ==> plain_line(#[trigger] field_list(kw, v)[i])
            && !crate::reader::is_comment(field_list(kw, v)[i]),
{
    lemma_segments(v);
    lemma_field_list_shape(kw, segments(v));
}

/// Interprets the lines `ls` in order, from the outcome `s` of the lines before.
pub open spec fn scan_from(
    s: Result<(PoView, Continuation), Seq<char>>,
    ls: Seq<Seq<char>>,
) -> Result<(PoView, Continuation), Seq<char>>
    decreases ls.len(),
{
    if ls.len() == 0 {
        s
    } else {
        match scan_from(s, ls.drop_last()) {
            Err(l) => Err(l),
            Ok((po, st)) => parse_line(po, st, ls.last()),
        }
    }
}

proof fn lemma_parse_scan_from(g: Seq<Seq<char>>)
    ensures
        parse_scan(g) == scan_from(Ok((PoView::empty(), Continuation::Nothing)), g),
    decreases g.len(),
{
    if g.len() > 0 {
        lemma_parse_scan_from(g.drop_last());
    }
}

proof fn lemma_scan_from_append(
    s: Result<(PoView, Continuation), Seq<char>>,
    a: Seq<Seq<char>>,
    b: Seq<Seq<char>>,
)
    ensures
        scan_from(s, a + b) == scan_from(scan_from(s, a), b),
    decreases b.len(),
{
    if b.len() == 0 {
        assert(a + b =~= a);
    } else {
        lemma_scan_from_append(s, a, b.drop_last());
        assert((a + b).drop_last() =~= a + b.drop_last());
        assert((a + b).last() == b.last());
    }
}

proof fn lemma_scan_one(s: Result<(PoView, Continuation), Seq<char>>, l: Seq<char>)
    ensures
        scan_from(s, seq![l]) == match s {
            Err(e) => Err(e),
            Ok((po, st)) => parse_line(po, st, l),
        },
{
    assert(seq![l].drop_last() =~= Seq::<Seq<char>>::empty());
    assert(seq![l].last() == l);
    assert(scan_from(s, Seq::<Seq<char>>::empty()) == s);
}

/// A quoted line, read as a line of an entry, continues the field being read.
proof fn lemma_continuation_read(po: PoView, st: Continuation, s: Seq<char>)
    requires
        quote_free(s),
        newline_free(s),
    ensures
        unquote(quoted(s)) == s,
        parse_line(po, st, quoted(s)) == match st {
            Continuation::Msgid => Ok::<(PoView, Continuation), Seq<char>>(
                (PoView { msgid: po.msgid.push('\n') + s, ..po }, st),
            ),
            Continuation::Msgstr(k) => Ok((
                PoView { msgstr: extend_plural(po.msgstr, k, seq!['\n'] + s), ..po },
                st,
            )),
            Continuation::Nothing => Ok((po, st)),
        },
{
    lemma_quote_round_trip(Seq::empty(), s);
    let l = quoted(s);
    assert(l[0] == '"');
    assert(!starts_with(l, seq!['#', '.', ' '])) by { assert(l[0] != seq!['#', '.', ' '][0]); }
    assert(!starts_with(l, seq!['#', ':', ' '])) by { assert(l[0] != seq!['#', ':', ' '][0]); }
    assert(!starts_with(l, seq!['#', ',', ' '])) by { assert(l[0] != seq!['#', ',', ' '][0]); }
    assert(!starts_with(l, seq!['#', '|', ' '])) by { assert(l[0] != seq!['#', '|', ' '][0]); }
    assert(!starts_with(l, seq!['m', 's', 'g', 'c', 't', 'x', 't', ' '])) by {
        assert(l[0] != seq!['m', 's', 'g', 'c', 't', 'x', 't', ' '][0]);
    }
    assert(!starts_with(l, seq!['m', 's', 'g', 'i', 'd', ' '])) by {
        assert(l[0] != seq!['m', 's', 'g', 'i', 'd', ' '][0]);
    }
    assert(!starts_with(l, seq!['m', 's', 'g', 's', 't', 'r', '['])) by {
        assert(l[0] != seq!['m', 's', 'g', 's', 't', 'r', '['][0]);
    }
    assert(!starts_with(l, seq!['m', 's', 'g', 's', 't', 'r'])) by {
        assert(l[0] != seq!['m', 's', 'g', 's', 't', 'r'][0]);
    }
}

pub open spec fn segs_plain(segs: Seq<Seq<char>>) -> bool {
    forall|i: int| 0 <= i < segs.len() ==> quote_free(#[trigger] segs[i]) && newline_free(segs[i])
}

proof fn lemma_msgid_lines_read(po: PoView, st: Continuation, segs: Seq<Seq<char>>)
    requires
        segs.len() >= 1,
        segs_plain(segs),
    ensures
        scan_from(Ok((po, st)), field_list_segs(seq!['m', 's', 'g', 'i', 'd'], segs))
            == Ok::<(PoView, Continuation), Seq<char>>((PoView { msgid: join_nl(segs), ..po }, Continuation::Msgid)),
    decreases segs.len(),
{
    let kw = seq!['m', 's', 'g', 'i', 'd'];
    assert(quote_free(segs[0]) && newline_free(segs[0]));
    if segs.len() == 1 {
        lemma_field_line(kw, segs[0]);
        lemma_msgid_line_read_back(po, st, segs[0]);
        lemma_scan_one(Ok((po, st)), kw + seq![' '] + quoted(segs[0]));
    } else {
        let p = segs.drop_last();
        assert forall|i: int| 0 <= i < p.len() implies quote_free(#[trigger] p[i]) && newline_free(p[i]) by {
            assert(p[i] == segs[i]);
        }
        lemma_msgid_lines_read(po, st, p);
        let last = segs.last();
        assert(quote_free(segs[segs.len() - 1]) && newline_free(segs[segs.len() - 1]));
        let po1 = PoView { msgid: join_nl(p), ..po };
        lemma_continuation_read(po1, Continuation::Msgid, last);
        assert(field_list_segs(kw, segs).drop_last() =~= field_list_segs(kw, p));
        assert(join_nl(p).push('\n') + last =~= join_nl(segs));
    }
}

proof fn lemma_set_plural_last(m: Seq<(usize, Seq<char>)>, k: usize, v: Seq<char>)
    requires
        forall|i: int| 0 <= i < m.len() ==> (#[trigger] m[i]).0 < k,
    ensures
        set_plural(m, k, v) == m.push((k, v)),
    decreases m.len(),
{
    if m.len() == 0 {
        assert(seq![(k, v)] =~= m.push((k, v)));
    } else {
        let t = m.drop_first();
        assert(m[0].0 < k);
        assert forall|i: int| 0 <= i < t.len() implies (#[trigger] t[i]).0 < k by {
            assert(t[i] == m[i + 1]);
        }
        lemma_set_plural_last(t, k, v);
        assert(seq![m[0]] + t.push((k, v)) =~= m.push((k, v)));
    }
}

proof fn lemma_extend_plural_last(m: Seq<(usize, Seq<char>)>, k: usize, x: Seq<char>, y: Seq<char>)
    requires
        forall|i: int| 0 <= i < m.len() ==> (#[trigger] m[i]).0 < k,
    ensures
        extend_plural(m.push((k, x)), k, y) == m.push((k, x + y)),
{
    let r = extend_plural(m.push((k, x)), k, y);
    assert forall|i: int| 0 <= i < m.len() implies r[i] == m[i] by {
        assert(m.push((k, x))[i] == m[i]);
        assert(m[i].0 < k);
    }
    assert(r =~= m.push((k, x + y)));
}

/// The lines of the translation of index `k`, written after translations of
/// lower indices, read back as that translation added at the end. `bare`
/// picks the keyword `msgstr` of a lone translation over `msgstr[k]`.
proof fn lemma_msgstr_lines_read(po: PoView, st: Continuation, k: usize, segs: Seq<Seq<char>>, bare: bool)
    requires
        segs.len() >= 1,
        segs_plain(segs),
        forall|i: int| 0 <= i < po.msgstr.len() ==> (#[trigger] po.msgstr[i]).0 < k,
        bare ==> k == 0,
    ensures
        scan_from(
            Ok((po, st)),
            field_list_segs(if bare { seq!['m', 's', 'g', 's', 't', 'r'] } else { plural_keyword(k) }, segs),
        ) == Ok::<(PoView, Continuation), Seq<char>>(
            (PoView { msgstr: po.msgstr.push((k, join_nl(segs))), ..po }, Continuation::Msgstr(k)),
        ),
    decreases segs.len(),
{
    let kw = if bare { seq!['m', 's', 'g', 's', 't', 'r'] } else { plural_keyword(k) };
    assert(quote_free(segs[0]) && newline_free(segs[0]));
    if segs.len() == 1 {
        lemma_field_line(kw, segs[0]);
        if bare {
            lemma_msgstr_line_read_back(po, st, segs[0]);
        } else {
            lemma_plural_line_read_back(po, st, k, segs[0]);
        }
        lemma_set_plural_last(po.msgstr, k, segs[0]);
        lemma_scan_one(Ok((po, st)), kw + seq![' '] + quoted(segs[0]));
    } else {
        let p = segs.drop_last();
        assert forall|i: int| 0 <= i < p.len() implies quote_free(#[trigger] p[i]) && newline_free(p[i]) by {
            assert(p[i] == segs[i]);
        }
        lemma_msgstr_lines_read(po, st, k, p, bare);
        let last = segs.last();
        assert(quote_free(segs[segs.len() - 1]) && newline_free(segs[segs.len() - 1]));
        let po1 = PoView { msgstr: po.msgstr.push((k, join_nl(p))), ..po };
        lemma_continuation_read(po1, Continuation::Msgstr(k), last);
        lemma_extend_plural_last(po.msgstr, k, join_nl(p), seq!['\n'] + last);
        assert(field_list_segs(kw, segs).drop_last() =~= field_list_segs(kw, p));
        assert(join_nl(p) + (seq!['\n'] + last) =~= join_nl(segs));
    }
}

proof fn lemma_segments_one(v: Seq<char>)
    requires
        newline_free(v),
    ensures
        segments(v) == seq![v],
    decreases v.len(),
{
    if v.len() == 0 {
        assert(v =~= Seq::<char>::empty());
    } else {
        let w = v.drop_last();
        assert(newline_free(w)) by {
            assert forall|i: int| 0 <= i < w.len() implies w[i] != '\n' by {
                assert(w[i] == v[i]);
            }
        }
        lemma_segments_one(w);
        assert(v.last() != '\n') by { assert(v[v.len() - 1] != '\n'); }
        assert(w.push(v.last()) =~= v);
        let sw = segments(w);
        assert(sw.last() == w);
        assert(sw.update(0, w.push(v.last())) =~= seq![v]);
    }
}

proof fn lemma_line_join_append(a: Seq<Seq<char>>, b: Seq<Seq<char>>)
    ensures
        line_join(a + b) == line_join(a) + line_join(b),
    decreases b.len(),
{
    if b.len() == 0 {
        assert(a + b =~= a);
        assert(line_join(a) + line_join(b) =~= line_join(a));
    } else {
        lemma_line_join_append(a, b.drop_last());
        assert((a + b).drop_last() =~= a + b.drop_last());
        assert((a + b).last() == b.last());
        assert(line_join(a) + line_join(b.drop_last()) + b.last().push('\n')
            =~= line_join(a) + (line_join(b.drop_last()) + b.last().push('\n')));
    }
}

proof fn lemma_line_join_one(l: Seq<char>)
    ensures
        line_join(seq![l]) == l.push('\n'),
{
    assert(seq![l].drop_last() =~= Seq::<Seq<char>>::empty());
    assert(line_join(Seq::<Seq<char>>::empty()) + l.push('\n') =~= l.push('\n'));
}

/// The body of a machine comment.
pub open spec fn comment_body(c: CommentView) -> Seq<char> {
    match c {
        CommentView::Extracted(b) => b,
        CommentView::Flag(b) => b,
        CommentView::Other(b) => b,
    }
}

/// A comment body that stays on its line and keeps its last character there.
pub open spec fn plain_body(b: Seq<char>) -> bool {
    newline_free(b) && (b.len() > 0 ==> b.last() != '\r')
}

pub open spec fn comment_lines(cs: Seq<CommentView>) -> Seq<Seq<char>>
    decreases cs.len(),
{
    if cs.len() == 0 {
        Seq::empty()
    } else {
        comment_lines(cs.drop_last()).push(render_comment(cs.last()).drop_last())
    }
}

pub open spec fn reference_lines(r: Seq<char>) -> Seq<Seq<char>> {
    if r.len() == 0 {
        Seq::empty()
    } else {
        seq![seq!['#', ':', ' '] + r]
    }
}

pub open spec fn plural_lines(m: Seq<(usize, Seq<char>)>) -> Seq<Seq<char>>
    decreases m.len(),
{
    if m.len() == 0 {
        Seq::empty()
    } else {
        plural_lines(m.drop_last()) + field_list(plural_keyword(m.last().0), m.last().1)
    }
}

pub open spec fn msgstr_lines(m: Seq<(usize, Seq<char>)>) -> Seq<Seq<char>> {
    if m.len() == 0 {
        Seq::empty()
    } else if m.len() == 1 {
        field_list(seq!['m', 's', 'g', 's', 't', 'r'], m[0].1)
    } else {
        plural_lines(m)
    }
}

/// The comment lines of an entry without translator comment.
pub open spec fn head_lines(po: PoView) -> Seq<Seq<char>> {
    comment_lines(po.auto_comments) + reference_lines(po.reference)
}

/// The context, msgid and translation lines of an entry with a msgid.
pub open spec fn body_lines(po: PoView) -> Seq<Seq<char>> {
    (if po.msgctxt.len() == 0 {
        Seq::empty()
    } else {
        field_list(seq!['m', 's', 'g', 'c', 't', 'x', 't'], po.msgctxt)
    }) + field_list(seq!['m', 's', 'g', 'i', 'd'], po.msgid) + msgstr_lines(po.msgstr)
}

pub open spec fn entry_lines(po: PoView) -> Seq<Seq<char>> {
    head_lines(po) + body_lines(po)
}

/// An entry that the writer renders into lines that read back as that entry:
/// no translator comment, comments that stay on their line, a one-line context
/// and a msgid, translations in increasing index order, no value with a
/// double quote, and a lone translation only under index 0.
pub open spec fn writable(po: PoView) -> bool {
    &&& po.translator_comments.len() == 0
    &&& forall|i: int| 0 <= i < po.auto_comments.len() ==> plain_body(comment_body(#[trigger] po.auto_comments[i]))
    &&& plain_body(po.reference)
    &&& quote_free(po.msgctxt) && newline_free(po.msgctxt)
    &&& po.msgid.len() > 0 && quote_free(po.msgid)
    &&& keys_increasing(po.msgstr)
    &&& forall|i: int| 0 <= i < po.msgstr.len() ==> quote_free(#[trigger] po.msgstr[i].1)
    &&& po.msgstr.len() == 1 ==> po.msgstr[0].0 == 0
}

proof fn lemma_comments_text(cs: Seq<CommentView>)
    ensures
        render_comments(cs) == line_join(comment_lines(cs)),
        comment_lines(cs).len() == cs.len(),
    decreases cs.len(),
{
    if cs.len() > 0 {
        lemma_comments_text(cs.drop_last());
        let c = cs.last();
        let r = render_comment(c);
        assert(r.drop_last().push('\n') =~= r);
        assert(comment_lines(cs).drop_last() =~= comment_lines(cs.drop_last()));
    }
}

proof fn lemma_plurals_text(m: Seq<(usize, Seq<char>)>)
    ensures
        render_plurals(m) == line_join(plural_lines(m)),
    decreases m.len(),
{
    if m.len() > 0 {
        lemma_plurals_text(m.drop_last());
        lemma_field_text(plural_keyword(m.last().0), m.last().1);
        lemma_line_join_append(plural_lines(m.drop_last()), field_list(plural_keyword(m.last().0), m.last().1));
    }
}

/// Translations already in increasing index order are their own map order.
pub proof fn lemma_plural_order_sorted(m: Seq<(usize, Seq<char>)>)
    requires
        keys_increasing(m),
    ensures
        plural_order(m) == m,
    decreases m.len(),
{
    if m.len() > 0 {
        let p = m.drop_last();
        assert(keys_increasing(p)) by {
            assert forall|i: int, j: int| 0 <= i < j < p.len() implies p[i].0 < p[j].0 by {
                assert(p[i] == m[i] && p[j] == m[j]);
            }
        }
        lemma_plural_order_sorted(p);
        assert forall|i: int| 0 <= i < p.len() implies (#[trigger] p[i]).0 < m.last().0 by {
            assert(p[i] == m[i]);
        }
        lemma_set_plural_last(p, m.last().0, m.last().1);
        assert(p.push(m.last()) =~= m);
    }
}

/// The text of an entry without translator comment is its lines, each
/// followed by a newline, and then a blank line.
pub proof fn lemma_entry_text(po: PoView)
    requires
        po.translator_comments.len() == 0,
        po.msgid.len() > 0,
        keys_increasing(po.msgstr),
    ensures
        render_entry(po) == line_join(entry_lines(po)) + seq!['\n'],
{
    lemma_plural_order_sorted(po.msgstr);
    lemma_comments_text(po.auto_comments);
    let rl = reference_lines(po.reference);
    if po.reference.len() > 0 {
        lemma_line_join_one(seq!['#', ':', ' '] + po.reference);
        assert(comment_line(seq!['#', ':', ' '], po.reference) =~= (seq!['#', ':', ' '] + po.reference).push('\n'));
    } else {
        assert(line_join(rl) =~= Seq::<char>::empty());
    }
    lemma_line_join_append(comment_lines(po.auto_comments), rl);
    let cl = if po.msgctxt.len() == 0 {
        Seq::<Seq<char>>::empty()
    } else {
        field_list(seq!['m', 's', 'g', 'c', 't', 'x', 't'], po.msgctxt)
    };
    if po.msgctxt.len() > 0 {
        lemma_field_text(seq!['m', 's', 'g', 'c', 't', 'x', 't'], po.msgctxt);
    } else {
        assert(line_join(cl) =~= Seq::<char>::empty());
    }
    let il = field_list(seq!['m', 's', 'g', 'i', 'd'], po.msgid);
    lemma_field_text(seq!['m', 's', 'g', 'i', 'd'], po.msgid);
    let ml = msgstr_lines(po.msgstr);
    if po.msgstr.len() == 0 {
        assert(line_join(ml) =~= Seq::<char>::empty());
        assert(render_msgstr(po.msgstr) =~= Seq::<char>::empty());
    } else if po.msgstr.len() == 1 {
        lemma_field_text(seq!['m', 's', 'g', 's', 't', 'r'], po.msgstr[0].1);
    } else {
        lemma_plurals_text(po.msgstr);
    }
    lemma_line_join_append(cl, il);
    lemma_line_join_append(cl + il, ml);
    lemma_line_join_append(head_lines(po), body_lines(po));
    assert(render_entry(po) =~= line_join(entry_lines(po)) + seq!['\n']);
}

pub open spec fn comment_run(ls: Seq<Seq<char>>) -> bool {
    forall|i: int| 0 <= i < ls.len() ==> plain_line(#[trigger] ls[i]) && crate::reader::is_comment(ls[i])
}

pub open spec fn body_run(ls: Seq<Seq<char>>) -> bool {
    forall|i: int| 0 <= i < ls.len() ==> plain_line(#[trigger] ls[i]) && !crate::reader::is_comment(ls[i])
}

proof fn lemma_runs_append(a: Seq<Seq<char>>, b: Seq<Seq<char>>)
    ensures
        comment_run(a) && comment_run(b) ==> comment_run(a + b),
        body_run(a) && body_run(b) ==> body_run(a + b),
{
    if comment_run(a) && comment_run(b) {
        assert forall|i: int| 0 <= i < (a + b).len() implies plain_line(#[trigger] (a + b)[i]) && crate::reader::is_comment((a + b)[i]) by {
            if i < a.len() {
                assert((a + b)[i] == a[i]);
            } else {
                assert((a + b)[i] == b[i - a.len()]);
            }
        }
    }
    if body_run(a) && body_run(b) {
        assert forall|i: int| 0 <= i < (a + b).len() implies plain_line(#[trigger] (a + b)[i]) && !crate::reader::is_comment((a + b)[i]) by {
            if i < a.len() {
                assert((a + b)[i] == a[i]);
            } else {
                assert((a + b)[i] == b[i - a.len()]);
            }
        }
    }
}

proof fn lemma_prefixed_plain(p: Seq<char>, b: Seq<char>)
    requires
        p.len() == 3,
        p[0] == '#',
        p[2] == ' ',
        p[1] != '\n',
        plain_body(b),
    ensures
        plain_line(p + b),
        crate::reader::is_comment(p + b),
{
    let l = p + b;
    assert(l[0] == '#');
    assert forall|j: int| 0 <= j < l.len() implies l[j] != '\n' by {
        if j >= 3 {
            assert(l[j] == b[j - 3]);
        }
    }
    if b.len() > 0 {
        assert(l.last() == b.last());
    } else {
        assert(l.last() == ' ');
    }
}

proof fn lemma_comment_lines_run(cs: Seq<CommentView>)
    requires
        forall|i: int| 0 <= i < cs.len() ==> plain_body(comment_body(#[trigger] cs[i])),
    ensures
        comment_run(comment_lines(cs)),
    decreases cs.len(),
{
    if cs.len() > 0 {
        let p = cs.drop_last();
        assert forall|i: int| 0 <= i < p.len() implies plain_body(comment_body(#[trigger] p[i])) by {
            assert(p[i] == cs[i]);
        }
        lemma_comment_lines_run(p);
        let c = cs.last();
        assert(plain_body(comment_body(cs[cs.len() - 1])));
        let l = render_comment(c).drop_last();
        match c {
            CommentView::Extracted(b) => {
                assert(l =~= seq!['#', '.', ' '] + b);
                lemma_prefixed_plain(seq!['#', '.', ' '], b);
            },
            CommentView::Flag(b) => {
                assert(l =~= seq!['#', ',', ' '] + b);
                lemma_prefixed_plain(seq!['#', ',', ' '], b);
            },
            CommentView::Other(b) => {
                assert(l =~= seq!['#', '|', ' '] + b);
                lemma_prefixed_plain(seq!['#', '|', ' '], b);
            },
        }
        lemma_runs_append(comment_lines(p), seq![l]);
        assert(comment_lines(p) + seq![l] =~= comment_lines(cs));
    }
}

proof fn lemma_field_run(kw: Seq<char>, v: Seq<char>)
    requires
        kw.len() > 0,
        kw[0] == 'm',
        newline_free(kw),
    ensures
        body_run(field_list(kw, v)),
        field_list(kw, v).len() >= 1,
{
    lemma_field_lines_plain(kw, v);
}

proof fn lemma_plural_keyword_shape(k: usize)
    ensures
        plural_keyword(k).len() > 0,
        plural_keyword(k)[0] == 'm',
        newline_free(plural_keyword(k)),
{
    lemma_decimal_digits(k as nat);
    let d = decimal(k as nat);
    let kw = plural_keyword(k);
    assert forall|j: int| 0 <= j < kw.len() implies kw[j] != '\n' by {
        if 7 <= j < 7 + d.len() {
            assert(kw[j] == d[j - 7]);
            assert(crate::text::is_digit(d[j - 7]));
        }
    }
}

proof fn lemma_plural_lines_run(m: Seq<(usize, Seq<char>)>)
    ensures
        body_run(plural_lines(m)),
    decreases m.len(),
{
    if m.len() > 0 {
        lemma_plural_lines_run(m.drop_last());
        lemma_plural_keyword_shape(m.last().0);
        lemma_field_run(plural_keyword(m.last().0), m.last().1);
        lemma_runs_append(plural_lines(m.drop_last()), field_list(plural_keyword(m.last().0), m.last().1));
    }
}

/// The head lines of a writable entry are comment lines and its body lines,
/// of which there is at least one, are not; all read back as themselves.
pub proof fn lemma_entry_lines_shape(po: PoView)
    requires
        writable(po),
    ensures
        comment_run(head_lines(po)),
        body_run(body_lines(po)),
        body_lines(po).len() > 0,
{
    lemma_comment_lines_run(po.auto_comments);
    let rl = reference_lines(po.reference);
    if po.reference.len() > 0 {
        lemma_prefixed_plain(seq!['#', ':', ' '], po.reference);
        assert(comment_run(rl)) by {
            assert forall|i: int| 0 <= i < rl.len() implies plain_line(#[trigger] rl[i]) && crate::reader::is_comment(rl[i]) by {
                assert(rl[i] == seq!['#', ':', ' '] + po.reference);
            }
        }
    }
    lemma_runs_append(comment_lines(po.auto_comments), rl);
    let ctx_kw = seq!['m', 's', 'g', 'c', 't', 'x', 't'];
    let id_kw = seq!['m', 's', 'g', 'i', 'd'];
    let str_kw = seq!['m', 's', 'g', 's', 't', 'r'];
    assert(newline_free(ctx_kw)) by {
        assert forall|j: int| 0 <= j < ctx_kw.len() implies ctx_kw[j] != '\n' by {}
    }
    assert(newline_free(id_kw)) by {
        assert forall|j: int| 0 <= j < id_kw.len() implies id_kw[j] != '\n' by {}
    }
    assert(newline_free(str_kw)) by {
        assert forall|j: int| 0 <= j < str_kw.len() implies str_kw[j] != '\n' by {}
    }
    let cl = if po.msgctxt.len() == 0 { Seq::<Seq<char>>::empty() } else { field_list(ctx_kw, po.msgctxt) };
    lemma_field_run(ctx_kw, po.msgctxt);
    lemma_field_run(id_kw, po.msgid);
    lemma_field_run(str_kw, if po.msgstr.len() > 0 { po.msgstr[0].1 } else { Seq::empty() });
    lemma_plural_lines_run(po.msgstr);
    let il = field_list(id_kw, po.msgid);
    let ml = msgstr_lines(po.msgstr);
    assert(body_run(cl));
    assert(body_run(ml));
    lemma_runs_append(cl, il);
    lemma_runs_append(cl + il, ml);
    assert(body_lines(po) == cl + il + ml);
}

proof fn lemma_comment_lines_read(p: PoView, cs: Seq<CommentView>)
    ensures
        scan_from(Ok((p, Continuation::Nothing)), comment_lines(cs))
            == Ok::<(PoView, Continuation), Seq<char>>(
            (PoView { auto_comments: p.auto_comments + cs, ..p }, Continuation::Nothing),
        ),
    decreases cs.len(),
{
    if cs.len() == 0 {
        assert(p.auto_comments + cs =~= p.auto_comments);
    } else {
        let q = cs.drop_last();
        lemma_comment_lines_read(p, q);
        let pa = PoView { auto_comments: p.auto_comments + q, ..p };
        lemma_comment_line_read_back(pa, Continuation::Nothing, cs.last());
        assert(comment_lines(cs).drop_last() =~= comment_lines(q));
        assert((p.auto_comments + q).push(cs.last()) =~= p.auto_comments + cs);
    }
}

proof fn lemma_reference_read(p: PoView, st: Continuation, r: Seq<char>)
    requires
        p.reference.len() == 0,
    ensures
        parse_line(p, st, seq!['#', ':', ' '] + r)
            == Ok::<(PoView, Continuation), Seq<char>>((PoView { reference: r, ..p }, Continuation::Nothing)),
{
    let l = seq!['#', ':', ' '] + r;
    assert(l.subrange(0, 3) =~= seq!['#', ':', ' ']);
    assert(crate::text::after(l, 3) =~= r);
    assert(!starts_with(l, seq!['#', '.', ' '])) by { assert(l[1] != seq!['#', '.', ' '][1]); }
}

proof fn lemma_plural_lines_read(p: PoView, st: Continuation, m: Seq<(usize, Seq<char>)>)
    requires
        m.len() >= 1,
        p.msgstr.len() == 0,
        keys_increasing(m),
        forall|i: int| 0 <= i < m.len() ==> quote_free(#[trigger] m[i].1),
    ensures
        scan_from(Ok((p, st)), plural_lines(m))
            == Ok::<(PoView, Continuation), Seq<char>>((PoView { msgstr: m, ..p }, Continuation::Msgstr(m.last().0))),
    decreases m.len(),
{
    let k = m.last().0;
    let v = m.last().1;
    assert(quote_free(m[m.len() - 1].1));
    lemma_segments(v);
    let f = field_list(plural_keyword(k), v);
    if m.len() == 1 {
        assert(m.drop_last().len() == 0);
        assert(plural_lines(m.drop_last()) =~= Seq::<Seq<char>>::empty());
        assert(plural_lines(m) =~= Seq::<Seq<char>>::empty() + f);
        assert(Seq::<Seq<char>>::empty() + f =~= f);
        lemma_msgstr_lines_read(p, st, k, segments(v), false);
        assert(p.msgstr.push((k, v)) =~= m);
    } else {
        let q = m.drop_last();
        assert forall|i: int| 0 <= i < q.len() implies quote_free(#[trigger] q[i].1) by {
            assert(q[i] == m[i]);
        }
        lemma_plural_lines_read(p, st, q);
        lemma_scan_from_append(Ok((p, st)), plural_lines(q), f);
        let pa = PoView { msgstr: q, ..p };
        assert forall|i: int| 0 <= i < q.len() implies (#[trigger] q[i]).0 < k by {
            assert(q[i] == m[i]);
        }
        lemma_msgstr_lines_read(pa, Continuation::Msgstr(q.last().0), k, segments(v), false);
        assert(q.push((k, v)) =~= m);
    }
}

proof fn lemma_msgstr_read(p: PoView, st: Continuation, m: Seq<(usize, Seq<char>)>)
    requires
        p.msgstr.len() == 0,
        keys_increasing(m),
        forall|i: int| 0 <= i < m.len() ==> quote_free(#[trigger] m[i].1),
        m.len() == 1 ==> m[0].0 == 0,
    ensures
        scan_from(Ok((p, st)), msgstr_lines(m)) is Ok,
        scan_from(Ok((p, st)), msgstr_lines(m))->Ok_0.0 == (PoView { msgstr: m, ..p }),
{
    if m.len() == 0 {
        assert(m =~= p.msgstr);
        assert(PoView { msgstr: m, ..p } == p);
    } else if m.len() == 1 {
        let v = m[0].1;
        assert(quote_free(m[0].1));
        lemma_segments(v);
        lemma_msgstr_lines_read(p, st, 0, segments(v), true);
        assert(p.msgstr.push((0usize, v)) =~= m);
    } else {
        lemma_plural_lines_read(p, st, m);
    }
}

/// The lines of a writable entry read back as that entry.
pub proof fn lemma_entry_read(po: PoView)
    requires
        writable(po),
    ensures
        parse_entry(entry_lines(po)) == Ok::<PoView, Seq<char>>(po),
{
    let init = Ok::<(PoView, Continuation), Seq<char>>((PoView::empty(), Continuation::Nothing));
    lemma_parse_scan_from(entry_lines(po));
    let cm = comment_lines(po.auto_comments);
    let rl = reference_lines(po.reference);
    let ctx_kw = seq!['m', 's', 'g', 'c', 't', 'x', 't'];
    let id_kw = seq!['m', 's', 'g', 'i', 'd'];
    let cl = if po.msgctxt.len() == 0 { Seq::<Seq<char>>::empty() } else { field_list(ctx_kw, po.msgctxt) };
    let il = field_list(id_kw, po.msgid);
    let ml = msgstr_lines(po.msgstr);
    assert(entry_lines(po) == cm + rl + (cl + il + ml));
    lemma_scan_from_append(init, cm + rl, cl + il + ml);
    lemma_scan_from_append(init, cm, rl);
    // comments
    lemma_comment_lines_read(PoView::empty(), po.auto_comments);
    let pa = PoView { auto_comments: Seq::<CommentView>::empty() + po.auto_comments, ..PoView::empty() };
    assert(Seq::<CommentView>::empty() + po.auto_comments =~= po.auto_comments);
    let s1 = Ok::<(PoView, Continuation), Seq<char>>((pa, Continuation::Nothing));
    // reference
    let pb = PoView { reference: po.reference, ..pa };
    if po.reference.len() > 0 {
        lemma_reference_read(pa, Continuation::Nothing, po.reference);
        lemma_scan_one(s1, seq!['#', ':', ' '] + po.reference);
    } else {
        assert(pa.reference =~= po.reference);
        assert(pb == pa);
    }
    let s2 = Ok::<(PoView, Continuation), Seq<char>>((pb, Continuation::Nothing));
    assert(scan_from(init, cm + rl) == s2);
    // context
    lemma_scan_from_append(s2, cl + il, ml);
    lemma_scan_from_append(s2, cl, il);
    let pc = PoView { msgctxt: po.msgctxt, ..pb };
    if po.msgctxt.len() > 0 {
        lemma_segments_one(po.msgctxt);
        lemma_field_line(ctx_kw, po.msgctxt);
        assert(field_list(ctx_kw, po.msgctxt) == seq![ctx_kw + seq![' '] + quoted(po.msgctxt)]);
        lemma_msgctxt_line_read_back(pb, Continuation::Nothing, po.msgctxt);
        lemma_scan_one(s2, ctx_kw + seq![' '] + quoted(po.msgctxt));
    } else {
        assert(pb.msgctxt =~= po.msgctxt);
        assert(pc == pb);
    }
    let s3 = Ok::<(PoView, Continuation), Seq<char>>((pc, Continuation::Nothing));
    assert(scan_from(s2, cl) == s3);
    // msgid
    lemma_segments(po.msgid);
    lemma_msgid_lines_read(pc, Continuation::Nothing, segments(po.msgid));
    let pd = PoView { msgid: po.msgid, ..pc };
    let s4 = Ok::<(PoView, Continuation), Seq<char>>((pd, Continuation::Msgid));
    assert(scan_from(s3, il) == s4);
    // translations
    lemma_msgstr_read(pd, Continuation::Msgid, po.msgstr);
    let pe = PoView { msgstr: po.msgstr, ..pd };
    assert(pe.translator_comments =~= po.translator_comments);
    assert(pe == po);
}

/// The lines of the entries `es`, one after another.
pub open spec fn flat(es: Seq<PoView>) -> Seq<Seq<char>>
    decreases es.len(),
{
    if es.len() == 0 {
        Seq::empty()
    } else {
        flat(es.drop_last()) + entry_lines(es.last())
    }
}

pub open spec fn lines_per_entry(es: Seq<PoView>) -> Seq<Seq<Seq<char>>> {
    es.map_values(|e: PoView| entry_lines(e))
}

proof fn lemma_entry_all_plain(po: PoView)
    requires
        writable(po),
    ensures
        forall|i: int| 0 <= i < entry_lines(po).len() ==> plain_line(#[trigger] entry_lines(po)[i]),
{
    lemma_entry_lines_shape(po);
    let h = head_lines(po);
    let b = body_lines(po);
    assert forall|i: int| 0 <= i < (h + b).len() implies plain_line(#[trigger] (h + b)[i]) by {
        if i < h.len() {
            assert((h + b)[i] == h[i]);
        } else {
            assert((h + b)[i] == b[i - h.len()]);
        }
    }
}

proof fn lemma_render_all_lines(es: Seq<PoView>)
    requires
        forall|i: int| 0 <= i < es.len() ==> writable(#[trigger] es[i]),
    ensures
        lines_scan(render_all(es)) == (flat(es), Seq::<char>::empty()),
    decreases es.len(),
{
    if es.len() == 0 {
        assert(render_all(es) =~= Seq::<char>::empty());
    } else {
        let p = es.drop_last();
        assert forall|i: int| 0 <= i < p.len() implies writable(#[trigger] p[i]) by {
            assert(p[i] == es[i]);
        }
        lemma_render_all_lines(p);
        let e = es.last();
        assert(writable(es[es.len() - 1]));
        lemma_entry_text(e);
        lemma_entry_all_plain(e);
        let l = entry_lines(e);
        lemma_lines_blank(Seq::<char>::empty());
        assert(seq!['\n'] + Seq::<char>::empty() =~= seq!['\n']);
        lemma_lines_of_join(l, seq!['\n']);
        assert(l + Seq::<Seq<char>>::empty() =~= l);
        lemma_scan_append(render_all(p), line_join(l) + seq!['\n']);
    }
}

pub open spec fn group_step(s: (Seq<Seq<Seq<char>>>, Seq<Seq<char>>, bool), l: Seq<char>) -> (Seq<Seq<Seq<char>>>, Seq<Seq<char>>, bool) {
    let (gs, cur, in_body) = s;
    if is_comment(l) && in_body {
        (gs.push(cur), seq![l], false)
    } else if !is_comment(l) {
        (gs, cur.push(l), true)
    } else {
        (gs, cur.push(l), in_body)
    }
}

pub open spec fn group_from(s: (Seq<Seq<Seq<char>>>, Seq<Seq<char>>, bool), ls: Seq<Seq<char>>) -> (Seq<Seq<Seq<char>>>, Seq<Seq<char>>, bool)
    decreases ls.len(),
{
    if ls.len() == 0 {
        s
    } else {
        group_step(group_from(s, ls.drop_last()), ls.last())
    }
}

proof fn lemma_group_scan_from(ls: Seq<Seq<char>>)
    ensures
        group_scan(ls) == group_from((Seq::empty(), Seq::empty(), false), ls),
    decreases ls.len(),
{
    if ls.len() > 0 {
        lemma_group_scan_from(ls.drop_last());
    }
}

proof fn lemma_group_from_append(s: (Seq<Seq<Seq<char>>>, Seq<Seq<char>>, bool), a: Seq<Seq<char>>, b: Seq<Seq<char>>)
    ensures
        group_from(s, a + b) == group_from(group_from(s, a), b),
    decreases b.len(),
{
    if b.len() == 0 {
        assert(a + b =~= a);
    } else {
        lemma_group_from_append(s, a, b.drop_last());
        assert((a + b).drop_last() =~= a + b.drop_last());
        assert((a + b).last() == b.last());
    }
}

proof fn lemma_group_comments(gs: Seq<Seq<Seq<char>>>, cur: Seq<Seq<char>>, ls: Seq<Seq<char>>)
    requires
        comment_run(ls),
    ensures
        group_from((gs, cur, false), ls) == (gs, cur + ls, false),
    decreases ls.len(),
{
    if ls.len() == 0 {
        assert(cur + ls =~= cur);
    } else {
        let p = ls.drop_last();
        assert(comment_run(p)) by {
            assert forall|i: int| 0 <= i < p.len() implies plain_line(#[trigger] p[i]) && is_comment(p[i]) by {
                assert(p[i] == ls[i]);
            }
        }
        lemma_group_comments(gs, cur, p);
        assert(is_comment(ls[ls.len() - 1]));
        assert((cur + p).push(ls.last()) =~= cur + ls);
    }
}

proof fn lemma_group_body(gs: Seq<Seq<Seq<char>>>, cur: Seq<Seq<char>>, b: bool, ls: Seq<Seq<char>>)
    requires
        body_run(ls),
        ls.len() > 0,
    ensures
        group_from((gs, cur, b), ls) == (gs, cur + ls, true),
    decreases ls.len(),
{
    let p = ls.drop_last();
    assert(!is_comment(ls[ls.len() - 1]));
    if p.len() == 0 {
        assert(group_from((gs, cur, b), p) == (gs, cur, b));
        assert(cur.push(ls.last()) =~= cur + ls);
    } else {
        assert(body_run(p)) by {
            assert forall|i: int| 0 <= i < p.len() implies plain_line(#[trigger] p[i]) && !is_comment(p[i]) by {
                assert(p[i] == ls[i]);
            }
        }
        lemma_group_body(gs, cur, b, p);
        assert((cur + p).push(ls.last()) =~= cur + ls);
    }
}

pub open spec fn starts_new_group(po: PoView) -> bool {
    po.auto_comments.len() > 0 || po.reference.len() > 0
}

proof fn lemma_grouping_entries(es: Seq<PoView>)
    requires
        es.len() > 0,
        forall|i: int| 0 <= i < es.len() ==> writable(#[trigger] es[i]),
        forall|i: int| 0 < i < es.len() ==> starts_new_group(#[trigger] es[i]),
    ensures
        group_scan(flat(es)) == (lines_per_entry(es.drop_last()), entry_lines(es.last()), true),
    decreases es.len(),
{
    let init = (Seq::<Seq<Seq<char>>>::empty(), Seq::<Seq<char>>::empty(), false);
    let e = es.last();
    assert(writable(es[es.len() - 1]));
    lemma_entry_lines_shape(e);
    let h = head_lines(e);
    let b = body_lines(e);
    lemma_group_scan_from(flat(es));
    let p = es.drop_last();
    assert(flat(es) == flat(p) + (h + b));
    if p.len() == 0 {
        assert(flat(p) =~= Seq::<Seq<char>>::empty());
        assert(flat(p) + (h + b) =~= h + b);
        lemma_group_from_append(init, h, b);
        lemma_group_comments(Seq::empty(), Seq::empty(), h);
        assert(Seq::<Seq<char>>::empty() + h =~= h);
        lemma_group_body(Seq::empty(), h, false, b);
        assert(lines_per_entry(p) =~= Seq::<Seq<Seq<char>>>::empty());
    } else {
        assert forall|i: int| 0 <= i < p.len() implies writable(#[trigger] p[i]) by {
            assert(p[i] == es[i]);
        }
        assert forall|i: int| 0 < i < p.len() implies starts_new_group(#[trigger] p[i]) by {
            assert(p[i] == es[i]);
        }
        lemma_grouping_entries(p);
        lemma_group_scan_from(flat(p));
        let gs = lines_per_entry(p.drop_last());
        let cur = entry_lines(p.last());
        assert(starts_new_group(es[es.len() - 1]));
        lemma_comments_text(e.auto_comments);
        assert(h.len() > 0);
        let h0 = seq![h[0]];
        let hr = h.drop_first();
        assert(h0 + hr =~= h);
        lemma_group_from_append(init, flat(p), h + b);
        lemma_group_from_append((gs, cur, true), h, b);
        lemma_group_from_append((gs, cur, true), h0, hr);
        assert(is_comment(h[0]));
        assert(h0.drop_last() =~= Seq::<Seq<char>>::empty());
        assert(group_from((gs, cur, true), h0.drop_last()) == (gs, cur, true));
        assert(h0.last() == h[0]);
        assert(group_from((gs, cur, true), h0) == (gs.push(cur), seq![h[0]], false));
        assert(comment_run(hr)) by {
            assert forall|i: int| 0 <= i < hr.len() implies plain_line(#[trigger] hr[i]) && is_comment(hr[i]) by {
                assert(hr[i] == h[i + 1]);
            }
        }
        lemma_group_comments(gs.push(cur), seq![h[0]], hr);
        lemma_group_body(gs.push(cur), h, false, b);
        assert(lines_per_entry(p.drop_last()).push(entry_lines(p.last())) =~= lines_per_entry(p));
    }
}

proof fn lemma_parse_entries(es: Seq<PoView>)
    requires
        forall|i: int| 0 <= i < es.len() ==> writable(#[trigger] es[i]),
    ensures
        parse_groups(lines_per_entry(es)) == Ok::<Seq<PoView>, Seq<char>>(es),
    decreases es.len(),
{
    if es.len() == 0 {
        assert(lines_per_entry(es) =~= Seq::<Seq<Seq<char>>>::empty());
        assert(es =~= Seq::<PoView>::empty());
    } else {
        let p = es.drop_last();
        assert forall|i: int| 0 <= i < p.len() implies writable(#[trigger] p[i]) by {
            assert(p[i] == es[i]);
        }
        lemma_parse_entries(p);
        assert(lines_per_entry(es).len() == es.len());
        assert(lines_per_entry(es).len() > 0);
        assert(lines_per_entry(es).drop_last() =~= lines_per_entry(p));
        assert(writable(es[es.len() - 1]));
        lemma_entry_read(es.last());
        assert(lines_per_entry(es).last() == entry_lines(es.last()));
        assert(es.last().msgid.len() > 0);
        assert(p.push(es.last()) =~= es);
    }
}

/// Writing entries and reading the text back gives the same entries, where
/// each entry is writable and each entry but the first has a machine comment
/// or a reference, so that its comment lines open a group of their own.
pub proof fn lemma_write_then_read(es: Seq<PoView>)
    requires
        forall|i: int| 0 <= i < es.len() ==> writable(#[trigger] es[i]),
        forall|i: int| 0 < i < es.len() ==> starts_new_group(#[trigger] es[i]),
    ensures
        parse_text(render_all(es)) == Ok::<Seq<PoView>, Seq<char>>(es),
{
    lemma_render_all_lines(es);
    assert(lines_of(render_all(es)) == flat(es));
    if es.len() == 0 {
        assert(flat(es) =~= Seq::<Seq<char>>::empty());
        let g = groups_of(flat(es));
        assert(g =~= seq![Seq::<Seq<char>>::empty()]);
        lemma_parse_scan_from(Seq::<Seq<char>>::empty());
        assert(g.drop_last() =~= Seq::<Seq<Seq<char>>>::empty());
        assert(parse_entry(g.last()) == Ok::<PoView, Seq<char>>(PoView::empty()));
        assert(parse_groups(g.drop_last()) == Ok::<Seq<PoView>, Seq<char>>(Seq::empty()));
        assert(parse_groups(g) == Ok::<Seq<PoView>, Seq<char>>(Seq::empty()));
        assert(es =~= Seq::<PoView>::empty());
    } else {
        lemma_grouping_entries(es);
        assert(groups_of(flat(es)) =~= lines_per_entry(es));
        lemma_parse_entries(es);
    }
}

pub open spec fn all_newline_free(ls: Seq<Seq<char>>) -> bool {
    forall|i: int| 0 <= i < ls.len() ==> newline_free(#[trigger] ls[i])
}

proof fn lemma_lines_newline_free(t: Seq<char>)
    ensures
        all_newline_free(lines_scan(t).0),
        newline_free(lines_scan(t).1),
        all_newline_free(lines_of(t)),
    decreases t.len(),
{
    if t.len() > 0 {
        lemma_lines_newline_free(t.drop_last());
        let (ls, cur) = lines_scan(t.drop_last());
        let c = strip_cr(cur);
        assert(newline_free(c)) by {
            assert forall|j: int| 0 <= j < c.len() implies c[j] != '\n' by {
                assert(c[j] == cur[j]);
            }
        }
        if t.last() != '\n' {
            let n = cur.push(t.last());
            assert forall|j: int| 0 <= j < n.len() implies n[j] != '\n' by {
                if j < cur.len() {
                    assert(n[j] == cur[j]);
                }
            }
        }
        if c.len() > 0 {
            assert forall|i: int| 0 <= i < ls.push(c).len() implies newline_free(#[trigger] ls.push(c)[i]) by {
                if i < ls.len() {
                    assert(ls.push(c)[i] == ls[i]);
                }
            }
        }
    }
    let (ls, cur) = lines_scan(t);
    if cur.len() > 0 {
        assert forall|i: int| 0 <= i < ls.push(cur).len() implies newline_free(#[trigger] ls.push(cur)[i]) by {
            if i < ls.len() {
                assert(ls.push(cur)[i] == ls[i]);
            }
        }
    }
}

proof fn lemma_groups_newline_free(ls: Seq<Seq<char>>)
    requires
        all_newline_free(ls),
    ensures
        forall|g: int| 0 <= g < group_scan(ls).0.len() ==> all_newline_free(#[trigger] group_scan(ls).0[g]),
        all_newline_free(group_scan(ls).1),
        forall|g: int| 0 <= g < groups_of(ls).len() ==> all_newline_free(#[trigger] groups_of(ls)[g]),
    decreases ls.len(),
{
    if ls.len() > 0 {
        let p = ls.drop_last();
        assert forall|i: int| 0 <= i < p.len() implies newline_free(#[trigger] p[i]) by {
            assert(p[i] == ls[i]);
        }
        lemma_groups_newline_free(p);
        let (gs, cur, b) = group_scan(p);
        let l = ls.last();
        assert(newline_free(ls[ls.len() - 1]));
        let c2 = cur.push(l);
        assert forall|i: int| 0 <= i < c2.len() implies newline_free(#[trigger] c2[i]) by {
            if i < cur.len() {
                assert(c2[i] == cur[i]);
            }
        }
        assert forall|i: int| 0 <= i < seq![l].len() implies newline_free(#[trigger] seq![l][i]) by {}
        let g2 = gs.push(cur);
        assert forall|g: int| 0 <= g < g2.len() implies all_newline_free(#[trigger] g2[g]) by {
            if g < gs.len() {
                assert(g2[g] == gs[g]);
            }
        }
    }
    let (gs, cur, b) = group_scan(ls);
    let all = gs.push(cur);
    assert forall|g: int| 0 <= g < all.len() implies all_newline_free(#[trigger] all[g]) by {
        if g < gs.len() {
            assert(all[g] == gs[g]);
        }
    }
}

/// What every entry read from text satisfies.
pub open spec fn read_shape(po: PoView) -> bool {
    &&& po.translator_comments.len() == 0
    &&& forall|i: int| 0 <= i < po.auto_comments.len() ==> newline_free(comment_body(#[trigger] po.auto_comments[i]))
    &&& newline_free(po.reference)
    &&& quote_free(po.msgctxt) && newline_free(po.msgctxt)
    &&& quote_free(po.msgid)
    &&& keys_increasing(po.msgstr)
    &&& forall|i: int| 0 <= i < po.msgstr.len() ==> quote_free(#[trigger] po.msgstr[i].1)
}

proof fn lemma_unquote_shape(s: Seq<char>)
    ensures
        quote_free(unquote(s)),
        newline_free(s) ==> newline_free(unquote(s)),
    decreases s.len(),
{
    if s.len() > 0 {
        let w = s.drop_last();
        lemma_unquote_shape(w);
        if newline_free(s) {
            assert(newline_free(w)) by {
                assert forall|i: int| 0 <= i < w.len() implies w[i] != '\n' by {
                    assert(w[i] == s[i]);
                }
            }
            assert(s[s.len() - 1] != '\n');
        }
        let u = unquote(w);
        if s.last() != '"' {
            assert forall|i: int| 0 <= i < u.push(s.last()).len() implies u.push(s.last())[i] != '"' by {
                if i < u.len() {
                    assert(u.push(s.last())[i] == u[i]);
                }
            }
            if newline_free(s) {
                assert forall|i: int| 0 <= i < u.push(s.last()).len() implies u.push(s.last())[i] != '\n' by {
                    if i < u.len() {
                        assert(u.push(s.last())[i] == u[i]);
                    }
                }
            }
        }
    }
}

proof fn lemma_after_newline_free(l: Seq<char>, n: int)
    requires
        newline_free(l),
        0 <= n <= l.len(),
    ensures
        newline_free(crate::text::after(l, n)),
{
    let a = crate::text::after(l, n);
    assert forall|i: int| 0 <= i < a.len() implies a[i] != '\n' by {
        assert(a[i] == l[i + n]);
    }
}

proof fn lemma_set_plural_shape(m: Seq<(usize, Seq<char>)>, k: usize, v: Seq<char>)
    requires
        keys_increasing(m),
        forall|i: int| 0 <= i < m.len() ==> quote_free(#[trigger] m[i].1),
        quote_free(v),
    ensures
        keys_increasing(set_plural(m, k, v)),
        forall|i: int| 0 <= i < set_plural(m, k, v).len() ==> quote_free(#[trigger] set_plural(m, k, v)[i].1),
        forall|i: int| 0 <= i < set_plural(m, k, v).len() ==> (#[trigger] set_plural(m, k, v)[i]).0 == k
            || exists|j: int| 0 <= j < m.len() && m[j].0 == set_plural(m, k, v)[i].0,
    decreases m.len(),
{
    let r = set_plural(m, k, v);
    if m.len() == 0 {
    } else if m[0].0 == k {
        assert forall|i: int| 0 <= i < r.len() implies (#[trigger] r[i]).0 == k || exists|j: int| 0 <= j < m.len() && m[j].0 == r[i].0 by {
            if i > 0 {
                assert(r[i] == m[i]);
            }
        }
        assert forall|i: int, j: int| 0 <= i < j < r.len() implies r[i].0 < r[j].0 by {
            assert(r[j] == m[j]);
            if i > 0 {
                assert(r[i] == m[i]);
            }
        }
        assert forall|i: int| 0 <= i < r.len() implies quote_free(#[trigger] r[i].1) by {
            if i > 0 {
                assert(r[i] == m[i]);
            }
        }
    } else if k < m[0].0 {
        assert forall|i: int| 0 <= i < r.len() implies (#[trigger] r[i]).0 == k || exists|j: int| 0 <= j < m.len() && m[j].0 == r[i].0 by {
            if i > 0 {
                assert(r[i] == m[i - 1]);
            }
        }
        assert forall|i: int, j: int| 0 <= i < j < r.len() implies r[i].0 < r[j].0 by {
            assert(r[j] == m[j - 1]);
            if i > 0 {
                assert(r[i] == m[i - 1]);
            }
        }
        assert forall|i: int| 0 <= i < r.len() implies quote_free(#[trigger] r[i].1) by {
            if i > 0 {
                assert(r[i] == m[i - 1]);
            }
        }
    } else {
        let t = m.drop_first();
        assert(keys_increasing(t)) by {
            assert forall|i: int, j: int| 0 <= i < j < t.len() implies t[i].0 < t[j].0 by {
                assert(t[i] == m[i + 1] && t[j] == m[j + 1]);
            }
        }
        assert forall|i: int| 0 <= i < t.len() implies quote_free(#[trigger] t[i].1) by {
            assert(t[i] == m[i + 1]);
        }
        lemma_set_plural_shape(t, k, v);
        let rt = set_plural(t, k, v);
        assert(r == seq![m[0]] + rt);
        assert forall|i: int| 0 <= i < r.len() implies (#[trigger] r[i]).0 == k || exists|j: int| 0 <= j < m.len() && m[j].0 == r[i].0 by {
            if i == 0 {
                assert(m[0].0 == r[0].0);
            } else {
                assert(r[i] == rt[i - 1]);
                if rt[i - 1].0 != k {
                    let j = choose|j: int| 0 <= j < t.len() && t[j].0 == rt[i - 1].0;
                    assert(m[j + 1] == t[j]);
                }
            }
        }
        assert forall|i: int| 0 <= i < r.len() implies quote_free(#[trigger] r[i].1) by {
            if i > 0 {
                assert(r[i] == rt[i - 1]);
            }
        }
        assert forall|i: int, j: int| 0 <= i < j < r.len() implies r[i].0 < r[j].0 by {
            assert(r[j] == rt[j - 1]);
            if i > 0 {
                assert(r[i] == rt[i - 1]);
            } else {
                assert(r[0] == m[0]);
                if rt[j - 1].0 != k {
                    let q = choose|q: int| 0 <= q < t.len() && t[q].0 == rt[j - 1].0;
                    assert(t[q] == m[q + 1]);
                }
            }
        }
    }
}

proof fn lemma_quote_free_concat(a: Seq<char>, b: Seq<char>)
    requires
        quote_free(a),
        quote_free(b),
    ensures
        quote_free(a + b),
{
    assert forall|i: int| 0 <= i < (a + b).len() implies (a + b)[i] != '"' by {
        if i < a.len() {
            assert((a + b)[i] == a[i]);
        } else {
            assert((a + b)[i] == b[i - a.len()]);
        }
    }
}

proof fn lemma_newline_free_concat(a: Seq<char>, b: Seq<char>)
    requires
        newline_free(a),
        newline_free(b),
    ensures
        newline_free(a + b),
{
    assert forall|i: int| 0 <= i < (a + b).len() implies (a + b)[i] != '\n' by {
        if i < a.len() {
            assert((a + b)[i] == a[i]);
        } else {
            assert((a + b)[i] == b[i - a.len()]);
        }
    }
}

proof fn lemma_parse_line_shape(po: PoView, st: Continuation, l: Seq<char>)
    requires
        read_shape(po),
        newline_free(l),
    ensures
        parse_line(po, st, l) is Ok ==> read_shape(parse_line(po, st, l)->Ok_0.0),
{
    if starts_with(l, seq!['#', '.', ' ']) || starts_with(l, seq!['#', ',', ' ']) || starts_with(l, seq!['#', '|', ' ']) {
        lemma_after_newline_free(l, 3);
        let q = parse_line(po, st, l)->Ok_0.0;
        assert forall|i: int| 0 <= i < q.auto_comments.len() implies newline_free(comment_body(#[trigger] q.auto_comments[i])) by {
            if i < po.auto_comments.len() {
                assert(q.auto_comments[i] == po.auto_comments[i]);
            }
        }
    } else if starts_with(l, seq!['#', ':', ' ']) {
        lemma_after_newline_free(l, 3);
        assert(newline_free(seq![' ']));
        lemma_newline_free_concat(po.reference, seq![' ']);
        assert(po.reference.push(' ') =~= po.reference + seq![' ']);
        lemma_newline_free_concat(po.reference.push(' '), crate::text::after(l, 3));
    } else if starts_with(l, seq!['m', 's', 'g', 'c', 't', 'x', 't', ' ']) {
        lemma_after_newline_free(l, 8);
        lemma_unquote_shape(crate::text::after(l, 8));
    } else if starts_with(l, seq!['m', 's', 'g', 'i', 'd', ' ']) {
        lemma_unquote_shape(crate::text::after(l, 6));
    } else if starts_with(l, seq!['m', 's', 'g', 's', 't', 'r', '[']) {
        let e = crate::reader::bracket_end(l, 7);
        if e < l.len() {
            if let Some(k) = crate::text::index_of(l.subrange(7, e)) {
                let vs = crate::reader::value_start(l, e + 1);
                lemma_unquote_shape(crate::text::after(l, vs));
                lemma_set_plural_shape(po.msgstr, k, unquote(crate::text::after(l, vs)));
            }
        }
    } else if starts_with(l, seq!['m', 's', 'g', 's', 't', 'r']) {
        let vs = crate::reader::value_start(l, 6);
        lemma_unquote_shape(crate::text::after(l, vs));
        lemma_set_plural_shape(po.msgstr, 0, unquote(crate::text::after(l, vs)));
    } else {
        lemma_unquote_shape(l);
        assert(quote_free(seq!['\n']));
        match st {
            Continuation::Msgid => {
                lemma_quote_free_concat(po.msgid, seq!['\n']);
                assert(po.msgid.push('\n') =~= po.msgid + seq!['\n']);
                lemma_quote_free_concat(po.msgid.push('\n'), unquote(l));
            },
            Continuation::Msgstr(k) => {
                let add = seq!['\n'] + unquote(l);
                lemma_quote_free_concat(seq!['\n'], unquote(l));
                let m2 = extend_plural(po.msgstr, k, add);
                assert forall|i: int| 0 <= i < m2.len() implies quote_free(#[trigger] m2[i].1) by {
                    if po.msgstr[i].0 == k {
                        lemma_quote_free_concat(po.msgstr[i].1, add);
                    }
                }
                assert(keys_increasing(m2)) by {
                    assert forall|i: int, j: int| 0 <= i < j < m2.len() implies m2[i].0 < m2[j].0 by {
                        assert(m2[i].0 == po.msgstr[i].0 && m2[j].0 == po.msgstr[j].0);
                    }
                }
            },
            Continuation::Nothing => {},
        }
    }
}

proof fn lemma_scan_shape(g: Seq<Seq<char>>)
    requires
        all_newline_free(g),
    ensures
        parse_scan(g) is Ok ==> read_shape(parse_scan(g)->Ok_0.0),
    decreases g.len(),
{
    if g.len() == 0 {
        let e = PoView::empty();
        assert(keys_increasing(e.msgstr));
    } else {
        let p = g.drop_last();
        assert forall|i: int| 0 <= i < p.len() implies newline_free(#[trigger] p[i]) by {
            assert(p[i] == g[i]);
        }
        lemma_scan_shape(p);
        assert(newline_free(g[g.len() - 1]));
        if let Ok((po, st)) = parse_scan(p) {
            lemma_parse_line_shape(po, st, g.last());
        }
    }
}

proof fn lemma_groups_shape(gs: Seq<Seq<Seq<char>>>)
    requires
        forall|g: int| 0 <= g < gs.len() ==> all_newline_free(#[trigger] gs[g]),
    ensures
        parse_groups(gs) is Ok ==> forall|i: int| 0 <= i < parse_groups(gs)->Ok_0.len()
            ==> read_shape(#[trigger] parse_groups(gs)->Ok_0[i]) && parse_groups(gs)->Ok_0[i].msgid.len() > 0,
    decreases gs.len(),
{
    if gs.len() > 0 {
        let p = gs.drop_last();
        assert forall|g: int| 0 <= g < p.len() implies all_newline_free(#[trigger] p[g]) by {
            assert(p[g] == gs[g]);
        }
        lemma_groups_shape(p);
        assert(all_newline_free(gs[gs.len() - 1]));
        lemma_scan_shape(gs.last());
    }
}

/// What an entry needs beyond what reading gives it for its text to read back
/// the same: no comment or reference that ends in a carriage return, and a
/// lone translation only under index 0.
pub open spec fn keeps_on_write(po: PoView) -> bool {
    &&& forall|i: int| 0 <= i < po.auto_comments.len() ==> {
        let b = comment_body(#[trigger] po.auto_comments[i]);
        b.len() > 0 ==> b.last() != '\r'
    }
    &&& po.reference.len() > 0 ==> po.reference.last() != '\r'
    &&& po.msgstr.len() == 1 ==> po.msgstr[0].0 == 0
}

/// Writing the entries read from a text and reading them again gives the same
/// entries, provided each keeps on write (`keeps_on_write`) and each entry but
/// the first has a machine comment or a reference to open its group.
pub proof fn lemma_round_trip(t: Seq<char>)
    requires
        parse_text(t) is Ok,
        forall|i: int| 0 <= i < parse_text(t)->Ok_0.len() ==> keeps_on_write(#[trigger] parse_text(t)->Ok_0[i]),
        forall|i: int| 0 < i < parse_text(t)->Ok_0.len() ==> starts_new_group(#[trigger] parse_text(t)->Ok_0[i]),
    ensures
        parse_text(render_all(parse_text(t)->Ok_0)) == parse_text(t),
{
    let es = parse_text(t)->Ok_0;
    lemma_lines_newline_free(t);
    lemma_groups_newline_free(lines_of(t));
    lemma_groups_shape(groups_of(lines_of(t)));
    assert forall|i: int| 0 <= i < es.len() implies writable(#[trigger] es[i]) by {
        assert(read_shape(es[i]) && keeps_on_write(es[i]));
    }
    lemma_write_then_read(es);
}

} // verus!
