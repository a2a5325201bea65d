use vstd::prelude::*;
use crate::model::{CommentView, PoView};
use crate::reader::{
    bracket_end, value_start, Continuation, group_scan, groups_of, is_comment, parse_groups, parse_line, parse_text,
    with_comment, with_plural,
};
use crate::text::{
    after, all_digits, decimal, digit_char, digit_value, digits_value, index_of, starts_with,
    unquote, unsigned_digits,
};
use crate::model::keys_increasing;
use crate::reader::set_plural;
use crate::writer::{
    escape_newlines, field_lines, plural_keyword, plural_order, render_comment, render_entry,
};

verus! {

proof fn lemma_groups_keep_nonempty_msgids(gs: Seq<Seq<Seq<char>>>)
    ensures
        parse_groups(gs) matches Ok(es) ==> forall|i: int| 0 <= i < es.len() ==> #[trigger] es[i].msgid.len() > 0,
    decreases gs.len(),
{
    if gs.len() > 0 {
        lemma_groups_keep_nonempty_msgids(gs.drop_last());
    }
}

/// Every entry that reading a catalog yields has a non-empty msgid: a group
/// whose msgid comes out empty is left out, whatever the text.
pub proof fn lemma_read_entries_have_msgid(t: Seq<char>)
    ensures
        parse_text(t) matches Ok(es) ==> forall|i: int| 0 <= i < es.len() ==> #[trigger] es[i].msgid.len() > 0,
{
    lemma_groups_keep_nonempty_msgids(groups_of(crate::reader::lines_of(t)));
}

pub open spec fn quote_free(s: Seq<char>) -> bool {
    forall|i: int| 0 <= i < s.len() ==> s[i] != '"'
}

pub open spec fn newline_free(s: Seq<char>) -> bool {
    forall|i: int| 0 <= i < s.len() ==> s[i] != '\n'
}

/// Taking the quotes out of a value that holds none leaves it as it is.
pub proof fn lemma_unquote_quote_free(s: Seq<char>)
    requires
        quote_free(s),
    ensures
        unquote(s) == s,
    decreases s.len(),
{
    if s.len() > 0 {
        lemma_unquote_quote_free(s.drop_last());
        assert(s.drop_last().push(s.last()) =~= s);
    }
}

proof fn lemma_unquote_append(a: Seq<char>, b: Seq<char>)
    ensures
        unquote(a + b) == unquote(a) + unquote(b),
    decreases b.len(),
{
    if b.len() == 0 {
        assert(a + b =~= a);
        assert(unquote(a) + unquote(b) =~= unquote(a));
    } else {
        lemma_unquote_append(a, b.drop_last());
        assert((a + b).drop_last() =~= a + b.drop_last());
        assert((a + b).last() == b.last());
        if b.last() == '"' {
        } else {
            assert(unquote(a) + unquote(b.drop_last()).push(b.last())
                =~= (unquote(a) + unquote(b.drop_last())).push(b.last()));
        }
    }
}

proof fn lemma_escape_newline_free(v: Seq<char>)
    requires
        newline_free(v),
    ensures
        escape_newlines(v) == v,
    decreases v.len(),
{
    if v.len() > 0 {
        lemma_escape_newline_free(v.drop_last());
        assert(v.drop_last().push(v.last()) =~= v);
    }
}

/// A one-line value without quotes is written between exactly one pair of
/// quotes, and taking the quotes out of that quoted text gives the value back.
pub proof fn lemma_quote_round_trip(kw: Seq<char>, v: Seq<char>)
    requires
        quote_free(v),
        newline_free(v),
    ensures
        field_lines(kw, v) == kw + seq![' '] + (seq!['"'] + v + seq!['"']) + seq!['\n'],
        unquote(seq!['"'] + v + seq!['"']) == v,
{
    lemma_escape_newline_free(v);
    assert(field_lines(kw, v) =~= kw + seq![' '] + (seq!['"'] + v + seq!['"']) + seq!['\n']);
    lemma_unquote_append(seq!['"'] + v, seq!['"']);
    lemma_unquote_append(seq!['"'], v);
    lemma_unquote_quote_free(v);
    let q = seq!['"'];
    assert(q.len() == 1 && q.last() == '"');
    assert(q.drop_last() =~= Seq::<char>::empty());
    assert(unquote(q.drop_last()) =~= Seq::<char>::empty());
    assert(unquote(q) =~= Seq::<char>::empty());
    assert(Seq::<char>::empty() + v + Seq::<char>::empty() =~= v);
}

/// The groups `gs` put back one after another.
pub open spec fn flatten(gs: Seq<Seq<Seq<char>>>) -> Seq<Seq<char>>
    decreases gs.len(),
{
    if gs.len() == 0 {
        Seq::empty()
    } else {
        flatten(gs.drop_last()) + gs.last()
    }
}

/// In `g` no comment line comes after a body line.
pub open spec fn comments_first(g: Seq<Seq<char>>) -> bool {
    forall|i: int, j: int| 0 <= i < j < g.len() && !is_comment(#[trigger] g[i]) ==> !is_comment(#[trigger] g[j])
}

/// `g` holds a line that is no comment.
pub open spec fn has_body(g: Seq<Seq<char>>) -> bool {
    exists|i: int| 0 <= i < g.len() && !is_comment(#[trigger] g[i])
}

pub open spec fn scan_inv(ls: Seq<Seq<char>>) -> bool {
    let (gs, cur, in_body) = group_scan(ls);
    &&& flatten(gs) + cur == ls
    &&& forall|g: int| 0 <= g < gs.len() ==> comments_first(#[trigger] gs[g]) && has_body(gs[g])
    &&& forall|g: int| 0 < g < gs.len() ==> (#[trigger] gs[g]).len() > 0 && is_comment(gs[g][0])
    &&& comments_first(cur)
    &&& in_body == has_body(cur)
    &&& gs.len() > 0 ==> cur.len() > 0 && is_comment(cur[0])
}

proof fn lemma_scan_inv(ls: Seq<Seq<char>>)
    ensures
        scan_inv(ls),
    decreases ls.len(),
{
    if ls.len() == 0 {
        assert(flatten(Seq::<Seq<Seq<char>>>::empty()) + Seq::<Seq<char>>::empty() =~= ls);
    } else {
        let prev = ls.drop_last();
        lemma_scan_inv(prev);
        let (gs, cur, in_body) = group_scan(prev);
        let l = ls.last();
        assert(prev.push(l) =~= ls);
        if is_comment(l) && in_body {
            let gs2 = gs.push(cur);
            assert(gs2.drop_last() =~= gs);
            assert(flatten(gs2) == flatten(gs) + cur);
            assert(flatten(gs2) + seq![l] =~= ls);
            assert forall|g: int| 0 <= g < gs2.len() implies comments_first(#[trigger] gs2[g]) && has_body(gs2[g]) by {
                if g < gs.len() {
                    assert(gs2[g] == gs[g]);
                }
            }
            assert forall|g: int| 0 < g < gs2.len() implies (#[trigger] gs2[g]).len() > 0 && is_comment(gs2[g][0]) by {
                if g < gs.len() {
                    assert(gs2[g] == gs[g]);
                }
            }
            let c1 = seq![l];
            assert(!has_body(c1)) by {
                assert forall|i: int| 0 <= i < c1.len() implies is_comment(c1[i]) by {
                    assert(c1[i] == l);
                }
            }
        } else {
            let cur2 = cur.push(l);
            assert(flatten(gs) + cur2 =~= ls);
            if !is_comment(l) {
                assert(!is_comment(cur2[cur.len() as int]));
                assert(has_body(cur2));
                assert forall|i: int, j: int| 0 <= i < j < cur2.len() && !is_comment(#[trigger] cur2[i]) implies !is_comment(#[trigger] cur2[j]) by {
                    if j < cur.len() {
                        assert(cur2[i] == cur[i] && cur2[j] == cur[j]);
                    }
                }
            } else {
                assert(!has_body(cur));
                assert forall|i: int, j: int| 0 <= i < j < cur2.len() && !is_comment(#[trigger] cur2[i]) implies !is_comment(#[trigger] cur2[j]) by {
                    assert(cur2[i] == cur[i]);
                    assert(!(0 <= i < cur.len() && !is_comment(cur[i])));
                }
                assert(!has_body(cur2)) by {
                    assert forall|i: int| 0 <= i < cur2.len() implies is_comment(#[trigger] cur2[i]) by {
                        if i < cur.len() {
                            assert(cur2[i] == cur[i]);
                            assert(!(0 <= i < cur.len() && !is_comment(cur[i])));
                        }
                    }
                }
            }
            if gs.len() > 0 {
                assert(cur2[0] == cur[0]);
            }
        }
    }
}

/// Grouping splits the lines without losing, adding or moving any: put back
/// together the groups give the lines. Within a group the comment lines come
/// first; each group but the first begins with a comment line, and each group
/// but the last holds a body line. So the boundaries are fixed by the lines.
pub proof fn lemma_grouping_boundaries(ls: Seq<Seq<char>>)
    ensures
        flatten(groups_of(ls)) == ls,
        forall|g: int| 0 <= g < groups_of(ls).len() ==> comments_first(#[trigger] groups_of(ls)[g]),
        forall|g: int| 0 < g < groups_of(ls).len() ==> (#[trigger] groups_of(ls)[g]).len() > 0 && is_comment(groups_of(ls)[g][0]),
        forall|g: int| 0 <= g < groups_of(ls).len() - 1 ==> has_body(#[trigger] groups_of(ls)[g]),
{
    lemma_scan_inv(ls);
    let (gs, cur, in_body) = group_scan(ls);
    let all = gs.push(cur);
    assert(all.drop_last() =~= gs);
    assert forall|g: int| 0 <= g < all.len() implies comments_first(#[trigger] all[g]) by {
        if g < gs.len() {
            assert(all[g] == gs[g]);
        }
    }
    assert forall|g: int| 0 < g < all.len() implies (#[trigger] all[g]).len() > 0 && is_comment(all[g][0]) by {
        if g < gs.len() {
            assert(all[g] == gs[g]);
        }
    }
    assert forall|g: int| 0 <= g < all.len() - 1 implies has_body(#[trigger] all[g]) by {
        assert(all[g] == gs[g]);
    }
}

pub proof fn lemma_decimal_digits(n: nat)
    ensures
        decimal(n).len() > 0,
        all_digits(decimal(n)),
        decimal(n)[0] != '+',
        digits_value(decimal(n)) == n,
    decreases n,
{
    let c = digit_char(n);
    assert(digit_value(c) == n % 10);
    if n >= 10 {
        lemma_decimal_digits(n / 10);
        let d = decimal(n / 10);
        assert(decimal(n).drop_last() =~= d);
        assert(decimal(n).last() == c);
        assert(decimal(n)[0] == d[0]);
        assert(digits_value(decimal(n)) == 10 * (n / 10) + n % 10);
        assert(10 * (n / 10) + n % 10 == n);
        assert forall|i: int| 0 <= i < decimal(n).len() implies crate::text::is_digit(#[trigger] decimal(n)[i]) by {
            if i < d.len() {
                assert(decimal(n)[i] == d[i]);
            }
        }
    } else {
        assert(decimal(n).drop_last() =~= Seq::<char>::empty());
        assert(decimal(n).last() == c);
        assert(digits_value(Seq::<char>::empty()) == 0);
        assert(digits_value(decimal(n)) == n % 10);
    }
}

/// A plural index written in decimal reads back as the same index.
pub proof fn lemma_index_read_back(k: usize)
    ensures
        index_of(decimal(k as nat)) == Some(k),
{
    lemma_decimal_digits(k as nat);
    assert(unsigned_digits(decimal(k as nat)) == decimal(k as nat));
}

/// A written comment line, read as a line of an entry, adds that same comment
/// to the entry's machine comments.
pub proof fn lemma_comment_line_read_back(po: PoView, st: Continuation, c: CommentView)
    ensures
        parse_line(po, st, render_comment(c).drop_last()) == Ok::<(PoView, Continuation), Seq<char>>(
            (with_comment(po, c), Continuation::Nothing),
        ),
{
    let l = render_comment(c).drop_last();
    match c {
        CommentView::Extracted(b) => {
            assert(l =~= seq!['#', '.', ' '] + b);
            assert(l.subrange(0, 3) =~= seq!['#', '.', ' ']);
            assert(after(l, 3) =~= b);
        },
        CommentView::Flag(b) => {
            assert(l =~= seq!['#', ',', ' '] + b);
            assert(l.subrange(0, 3) =~= seq!['#', ',', ' ']);
            assert(after(l, 3) =~= b);
            assert(!starts_with(l, seq!['#', '.', ' '])) by {
                assert(l[1] != seq!['#', '.', ' '][1]);
            }
            assert(!starts_with(l, seq!['#', ':', ' '])) by {
                assert(l[1] != seq!['#', ':', ' '][1]);
            }
        },
        CommentView::Other(b) => {
            assert(l =~= seq!['#', '|', ' '] + b);
            assert(l.subrange(0, 3) =~= seq!['#', '|', ' ']);
            assert(after(l, 3) =~= b);
            assert(!starts_with(l, seq!['#', '.', ' '])) by {
                assert(l[1] != seq!['#', '.', ' '][1]);
            }
            assert(!starts_with(l, seq!['#', ':', ' '])) by {
                assert(l[1] != seq!['#', ':', ' '][1]);
            }
            assert(!starts_with(l, seq!['#', ',', ' '])) by {
                assert(l[1] != seq!['#', ',', ' '][1]);
            }
        },
    }
}

/// The line of a one-line field, and the value that reading it gives back.
pub proof fn lemma_field_line(kw: Seq<char>, v: Seq<char>)
    requires
        quote_free(v),
        newline_free(v),
    ensures
        field_lines(kw, v).drop_last() == kw + seq![' '] + (seq!['"'] + v + seq!['"']),
        unquote(after(field_lines(kw, v).drop_last(), (kw.len() + 1) as int)) == v,
{
    lemma_quote_round_trip(kw, v);
    let l = field_lines(kw, v).drop_last();
    assert(l =~= kw + seq![' '] + (seq!['"'] + v + seq!['"']));
    assert(after(l, (kw.len() + 1) as int) =~= seq!['"'] + v + seq!['"']);
}

proof fn lemma_bracket_end_at(l: Seq<char>, from: int, e: int)
    requires
        0 <= from <= e < l.len(),
        l[e] == ']',
        forall|j: int| from <= j < e ==> l[j] != ']',
    ensures
        bracket_end(l, from) == e,
    decreases e - from,
{
    if from < e {
        lemma_bracket_end_at(l, from + 1, e);
    }
}

/// A written one-line `msgid` line, read as a line of an entry, sets the msgid
/// to the value written and continues the msgid.
pub proof fn lemma_msgid_line_read_back(po: PoView, st: Continuation, v: Seq<char>)
    requires
        quote_free(v),
        newline_free(v),
    ensures
        parse_line(po, st, field_lines(seq!['m', 's', 'g', 'i', 'd'], v).drop_last())
            == Ok::<(PoView, Continuation), Seq<char>>((PoView { msgid: v, ..po }, Continuation::Msgid)),
{
    let kw = seq!['m', 's', 'g', 'i', 'd'];
    lemma_field_line(kw, v);
    let l = field_lines(kw, v).drop_last();
    assert(l.subrange(0, 6) =~= seq!['m', 's', 'g', 'i', 'd', ' ']);
    assert(!starts_with(l, seq!['#', '.', ' '])) by { assert(l[0] == 'm'); }
    assert(!starts_with(l, seq!['#', ':', ' '])) by { assert(l[0] == 'm'); }
    assert(!starts_with(l, seq!['#', ',', ' '])) by { assert(l[0] == 'm'); }
    assert(!starts_with(l, seq!['#', '|', ' '])) by { assert(l[0] == 'm'); }
    assert(!starts_with(l, seq!['m', 's', 'g', 'c', 't', 'x', 't', ' '])) by {
        assert(l[3] != seq!['m', 's', 'g', 'c', 't', 'x', 't', ' '][3]);
    }
}

/// A written one-line `msgctxt` line, read as a line of an entry, sets the
/// context to the value written.
pub proof fn lemma_msgctxt_line_read_back(po: PoView, st: Continuation, v: Seq<char>)
    requires
        quote_free(v),
        newline_free(v),
    ensures
        parse_line(po, st, field_lines(seq!['m', 's', 'g', 'c', 't', 'x', 't'], v).drop_last())
            == Ok::<(PoView, Continuation), Seq<char>>((PoView { msgctxt: v, ..po }, Continuation::Nothing)),
{
    let kw = seq!['m', 's', 'g', 'c', 't', 'x', 't'];
    lemma_field_line(kw, v);
    let l = field_lines(kw, v).drop_last();
    assert(l.subrange(0, 8) =~= seq!['m', 's', 'g', 'c', 't', 'x', 't', ' ']);
    assert(!starts_with(l, seq!['#', '.', ' '])) by { assert(l[0] == 'm'); }
    assert(!starts_with(l, seq!['#', ':', ' '])) by { assert(l[0] == 'm'); }
    assert(!starts_with(l, seq!['#', ',', ' '])) by { assert(l[0] == 'm'); }
    assert(!starts_with(l, seq!['#', '|', ' '])) by { assert(l[0] == 'm'); }
}

/// A written one-line bare `msgstr` line, read as a line of an entry, sets the
/// translation of index 0 to the value written.
pub proof fn lemma_msgstr_line_read_back(po: PoView, st: Continuation, v: Seq<char>)
    requires
        quote_free(v),
        newline_free(v),
    ensures
        parse_line(po, st, field_lines(seq!['m', 's', 'g', 's', 't', 'r'], v).drop_last())
            == Ok::<(PoView, Continuation), Seq<char>>((with_plural(po, 0, v), Continuation::Msgstr(0))),
{
    let kw = seq!['m', 's', 'g', 's', 't', 'r'];
    lemma_field_line(kw, v);
    let l = field_lines(kw, v).drop_last();
    assert(l.subrange(0, 6) =~= kw);
    assert(value_start(l, 6) == 7);
    assert(!starts_with(l, seq!['#', '.', ' '])) by { assert(l[0] == 'm'); }
    assert(!starts_with(l, seq!['#', ':', ' '])) by { assert(l[0] == 'm'); }
    assert(!starts_with(l, seq!['#', ',', ' '])) by { assert(l[0] == 'm'); }
    assert(!starts_with(l, seq!['#', '|', ' '])) by { assert(l[0] == 'm'); }
    assert(!starts_with(l, seq!['m', 's', 'g', 'c', 't', 'x', 't', ' '])) by {
        assert(l[3] != seq!['m', 's', 'g', 'c', 't', 'x', 't', ' '][3]);
    }
    assert(!starts_with(l, seq!['m', 's', 'g', 'i', 'd', ' '])) by {
        assert(l[3] != seq!['m', 's', 'g', 'i', 'd', ' '][3]);
    }
    assert(!starts_with(l, seq!['m', 's', 'g', 's', 't', 'r', '['])) by {
        assert(l[6] != seq!['m', 's', 'g', 's', 't', 'r', '['][6]);
    }
}

/// A written one-line `msgstr[k]` line, read as a line of an entry, sets the
/// translation of index `k` to the value written.
pub proof fn lemma_plural_line_read_back(po: PoView, st: Continuation, k: usize, v: Seq<char>)
    requires
        quote_free(v),
        newline_free(v),
    ensures
        parse_line(po, st, field_lines(plural_keyword(k), v).drop_last())
            == Ok::<(PoView, Continuation), Seq<char>>((with_plural(po, k, v), Continuation::Msgstr(k))),
{
    let kw = plural_keyword(k);
    let d = decimal(k as nat);
    lemma_field_line(kw, v);
    lemma_decimal_digits(k as nat);
    lemma_index_read_back(k);
    let l = field_lines(kw, v).drop_last();
    let e: int = 7 + d.len() as int;
    assert(l.subrange(0, 7) =~= seq!['m', 's', 'g', 's', 't', 'r', '[']);
    assert(l.subrange(7, e) =~= d);
    assert(l[e] == ']');
    assert forall|j: int| 7 <= j < e implies l[j] != ']' by {
        assert(l[j] == d[j - 7]);
        assert(crate::text::is_digit(d[j - 7]));
    }
    lemma_bracket_end_at(l, 7, e);
    assert(l[e + 1] == ' ');
    assert(value_start(l, e + 1) == e + 2);
    assert(kw.len() + 1 == e + 2);
    assert(!starts_with(l, seq!['#', '.', ' '])) by { assert(l[0] == 'm'); }
    assert(!starts_with(l, seq!['#', ':', ' '])) by { assert(l[0] == 'm'); }
    assert(!starts_with(l, seq!['#', ',', ' '])) by { assert(l[0] == 'm'); }
    assert(!starts_with(l, seq!['#', '|', ' '])) by { assert(l[0] == 'm'); }
    assert(!starts_with(l, seq!['m', 's', 'g', 'c', 't', 'x', 't', ' '])) by {
        assert(l[3] != seq!['m', 's', 'g', 'c', 't', 'x', 't', ' '][3]);
    }
    assert(!starts_with(l, seq!['m', 's', 'g', 'i', 'd', ' '])) by {
        assert(l[3] != seq!['m', 's', 'g', 'i', 'd', ' '][3]);
    }
}

/// The translation of index `k` in `m` read as a map: the text of the last
/// pair with that index.
pub open spec fn plural_lookup(m: Seq<(usize, Seq<char>)>, k: usize) -> Option<Seq<char>>
    decreases m.len(),
{
    if m.len() == 0 {
        None
    } else if m.last().0 == k {
        Some(m.last().1)
    } else {
        plural_lookup(m.drop_last(), k)
    }
}

proof fn lemma_set_plural_sorted(m: Seq<(usize, Seq<char>)>, k: usize, v: Seq<char>)
    requires
        keys_increasing(m),
    ensures
        keys_increasing(set_plural(m, k, v)),
        forall|p: (usize, Seq<char>)| #[trigger] set_plural(m, k, v).contains(p)
            <==> (p == (k, v) || (p.0 != k && m.contains(p))),
    decreases m.len(),
{
    let r = set_plural(m, k, v);
    if m.len() == 0 {
        assert forall|p: (usize, Seq<char>)| #[trigger] r.contains(p) <==> (p == (k, v) || (p.0 != k && m.contains(p))) by {
            if r.contains(p) {
                assert(r[0] == (k, v));
            }
            if p == (k, v) {
                assert(r[0] == p);
            }
        }
    } else if m[0].0 == k {
        assert forall|i: int, j: int| 0 <= i < j < r.len() implies r[i].0 < r[j].0 by {
            assert(r[j] == m[j]);
            if i > 0 {
                assert(r[i] == m[i]);
            }
        }
        assert forall|p: (usize, Seq<char>)| #[trigger] r.contains(p) <==> (p == (k, v) || (p.0 != k && m.contains(p))) by {
            if r.contains(p) {
                let i = choose|i: int| 0 <= i < r.len() && r[i] == p;
                if i > 0 {
                    assert(r[i] == m[i]);
                    assert(m[0].0 < m[i].0);
                }
            }
            if p == (k, v) {
                assert(r[0] == p);
            }
            if p.0 != k && m.contains(p) {
                let i = choose|i: int| 0 <= i < m.len() && m[i] == p;
                assert(i > 0);
                assert(r[i] == m[i]);
            }
        }
    } else if k < m[0].0 {
        assert forall|i: int, j: int| 0 <= i < j < r.len() implies r[i].0 < r[j].0 by {
            assert(r[j] == m[j - 1]);
            if i > 0 {
                assert(r[i] == m[i - 1]);
            } else if j - 1 > 0 {
                assert(m[0].0 < m[j - 1].0);
            }
        }
        assert forall|p: (usize, Seq<char>)| #[trigger] r.contains(p) <==> (p == (k, v) || (p.0 != k && m.contains(p))) by {
            if r.contains(p) {
                let i = choose|i: int| 0 <= i < r.len() && r[i] == p;
                if i > 0 {
                    assert(r[i] == m[i - 1]);
                    if i - 1 > 0 {
                        assert(m[0].0 < m[i - 1].0);
                    }
                }
            }
            if p == (k, v) {
                assert(r[0] == p);
            }
            if p.0 != k && m.contains(p) {
                let i = choose|i: int| 0 <= i < m.len() && m[i] == p;
                assert(r[i + 1] == m[i]);
            }
        }
    } else {
        let t = m.drop_first();
        assert(keys_increasing(t)) by {
            assert forall|i: int, j: int| 0 <= i < j < t.len() implies t[i].0 < t[j].0 by {
                assert(t[i] == m[i + 1] && t[j] == m[j + 1]);
            }
        }
        lemma_set_plural_sorted(t, k, v);
        let rt = set_plural(t, k, v);
        assert(r == seq![m[0]] + rt);
        assert forall|i: int, j: int| 0 <= i < j < r.len() implies r[i].0 < r[j].0 by {
            assert(r[j] == rt[j - 1]);
            if i > 0 {
                assert(r[i] == rt[i - 1]);
            } else {
                assert(r[0] == m[0]);
                assert(rt.contains(rt[j - 1]));
                if rt[j - 1] != (k, v) {
                    let q = choose|q: int| 0 <= q < t.len() && t[q] == rt[j - 1];
                    assert(t[q] == m[q + 1]);
                }
            }
        }
        assert forall|p: (usize, Seq<char>)| #[trigger] r.contains(p) <==> (p == (k, v) || (p.0 != k && m.contains(p))) by {
            if r.contains(p) {
                let i = choose|i: int| 0 <= i < r.len() && r[i] == p;
                if i > 0 {
                    assert(r[i] == rt[i - 1]);
                    assert(rt.contains(p));
                    if p != (k, v) {
                        let q = choose|q: int| 0 <= q < t.len() && t[q] == p;
                        assert(m[q + 1] == p);
                    }
                } else {
                    assert(m[0] == p);
                }
            }
            if p == (k, v) {
                assert(rt.contains(p));
                let i = choose|i: int| 0 <= i < rt.len() && rt[i] == p;
                assert(r[i + 1] == p);
            }
            if p.0 != k && m.contains(p) {
                let i = choose|i: int| 0 <= i < m.len() && m[i] == p;
                if i == 0 {
                    assert(r[0] == p);
                } else {
                    assert(t[i - 1] == p);
                    assert(rt.contains(p));
                    let q = choose|q: int| 0 <= q < rt.len() && rt[q] == p;
                    assert(r[q + 1] == p);
                }
            }
        }
    }
}

/// The translations are written in strictly increasing index order, and the
/// pairs written are exactly, for each index given, the text of its last pair.
pub proof fn lemma_plurals_written_as_map(m: Seq<(usize, Seq<char>)>)
    ensures
        keys_increasing(plural_order(m)),
        forall|p: (usize, Seq<char>)| #[trigger] plural_order(m).contains(p)
            <==> plural_lookup(m, p.0) == Some(p.1),
    decreases m.len(),
{
    if m.len() > 0 {
        lemma_plurals_written_as_map(m.drop_last());
        lemma_set_plural_sorted(plural_order(m.drop_last()), m.last().0, m.last().1);
    }
}

proof fn lemma_sorted_same_pairs(a: Seq<(usize, Seq<char>)>, b: Seq<(usize, Seq<char>)>)
    requires
        keys_increasing(a),
        keys_increasing(b),
        forall|p: (usize, Seq<char>)| a.contains(p) <==> b.contains(p),
    ensures
        a == b,
    decreases a.len() + b.len(),
{
    if a.len() == 0 || b.len() == 0 {
        if a.len() > 0 {
            assert(a.contains(a[0]));
        }
        if b.len() > 0 {
            assert(b.contains(b[0]));
        }
        assert(a =~= b);
    } else {
        assert(a.contains(a[0]) && b.contains(b[0]));
        let i = choose|i: int| 0 <= i < b.len() && b[i] == a[0];
        let j = choose|j: int| 0 <= j < a.len() && a[j] == b[0];
        if i > 0 {
            assert(b[0].0 < b[i].0);
            if j > 0 {
                assert(a[0].0 < a[j].0);
            }
        }
        assert(i == 0) by {
            if i > 0 {
                assert(b[0].0 < a[0].0);
                assert(a[0].0 <= a[j].0);
            }
        }
        let ta = a.drop_first();
        let tb = b.drop_first();
        assert(keys_increasing(ta)) by {
            assert forall|x: int, y: int| 0 <= x < y < ta.len() implies ta[x].0 < ta[y].0 by {
                assert(ta[x] == a[x + 1] && ta[y] == a[y + 1]);
            }
        }
        assert(keys_increasing(tb)) by {
            assert forall|x: int, y: int| 0 <= x < y < tb.len() implies tb[x].0 < tb[y].0 by {
                assert(tb[x] == b[x + 1] && tb[y] == b[y + 1]);
            }
        }
        assert forall|p: (usize, Seq<char>)| ta.contains(p) <==> tb.contains(p) by {
            if ta.contains(p) {
                let x = choose|x: int| 0 <= x < ta.len() && ta[x] == p;
                assert(a[x + 1] == p);
                assert(a.contains(p));
                assert(b.contains(p));
                let y = choose|y: int| 0 <= y < b.len() && b[y] == p;
                assert(a[0].0 < a[x + 1].0);
                assert(y != 0);
                assert(tb[y - 1] == p);
            }
            if tb.contains(p) {
                let x = choose|x: int| 0 <= x < tb.len() && tb[x] == p;
                assert(b[x + 1] == p);
                assert(b.contains(p));
                assert(a.contains(p));
                let y = choose|y: int| 0 <= y < a.len() && a[y] == p;
                assert(b[0].0 < b[x + 1].0);
                assert(y != 0);
                assert(ta[y - 1] == p);
            }
        }
        lemma_sorted_same_pairs(ta, tb);
        assert(a =~= seq![a[0]] + ta);
        assert(b =~= seq![b[0]] + tb);
    }
}

/// Two entries that differ only in how their translations are listed, and
/// agree on them read as maps from index to text, are written the same.
pub proof fn lemma_same_map_same_text(a: PoView, b: PoView)
    requires
        a.translator_comments == b.translator_comments,
        a.auto_comments == b.auto_comments,
        a.reference == b.reference,
        a.msgctxt == b.msgctxt,
        a.msgid == b.msgid,
        forall|k: usize| plural_lookup(a.msgstr, k) == plural_lookup(b.msgstr, k),
    ensures
        render_entry(a) == render_entry(b),
{
    lemma_plurals_written_as_map(a.msgstr);
    lemma_plurals_written_as_map(b.msgstr);
    let oa = plural_order(a.msgstr);
    let ob = plural_order(b.msgstr);
    assert forall|p: (usize, Seq<char>)| oa.contains(p) <==> ob.contains(p) by {
        assert(oa.contains(p) <==> plural_lookup(a.msgstr, p.0) == Some(p.1));
        assert(ob.contains(p) <==> plural_lookup(b.msgstr, p.0) == Some(p.1));
    }
    lemma_sorted_same_pairs(oa, ob);
}

} // verus!
