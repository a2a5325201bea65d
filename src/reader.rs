use vstd::prelude::*;
use crate::error::Error;
use crate::model::{AutoComments, CommentView, Po, PoView, entries_view};
use crate::text::{
    after, chars_of, index_of, parse_index, starts_with, starts_with_exec, string_from, unquote,
    unquote_from,
};

verus! {

// ---------------------------------------------------------------------------
// Lines

/// `l` without one trailing carriage return.
pub open spec fn strip_cr(l: Seq<char>) -> Seq<char> {
    if l.len() > 0 && l.last() == '\r' {
        l.drop_last()
    } else {
        l
    }
}

/// `ls` with `l` added, unless `l` is empty.
pub open spec fn push_line(ls: Seq<Seq<char>>, l: Seq<char>) -> Seq<Seq<char>> {
    if l.len() == 0 {
        ls
    } else {
        ls.push(l)
    }
}

/// The non-empty lines that end with a newline in `t`, and the text after the
/// last newline. A line ending `\r\n` loses the `\r`.
pub open spec fn lines_scan(t: Seq<char>) -> (Seq<Seq<char>>, Seq<char>)
    decreases t.len(),
{
    if t.len() == 0 {
        (Seq::empty(), Seq::empty())
    } else {
        let (ls, cur) = lines_scan(t.drop_last());
        if t.last() == '\n' {
            (push_line(ls, strip_cr(cur)), Seq::empty())
        } else {
            (ls, cur.push(t.last()))
        }
    }
}

/// The non-empty lines of `t`, in order.
pub open spec fn lines_of(t: Seq<char>) -> Seq<Seq<char>> {
    push_line(lines_scan(t).0, lines_scan(t).1)
}

// ---------------------------------------------------------------------------
// Grouping

pub open spec fn is_comment(l: Seq<char>) -> bool {
    l.len() > 0 && l[0] == '#'
}

/// The finished groups, the open group, and whether the open group has
/// reached its body (a line that is no comment).
pub open spec fn group_scan(ls: Seq<Seq<char>>) -> (Seq<Seq<Seq<char>>>, Seq<Seq<char>>, bool)
    decreases ls.len(),
{
    if ls.len() == 0 {
        (Seq::empty(), Seq::empty(), false)
    } else {
        let (gs, cur, in_body) = group_scan(ls.drop_last());
        let l = ls.last();
        if is_comment(l) && in_body {
            (gs.push(cur), seq![l], false)
        } else if !is_comment(l) {
            (gs, cur.push(l), true)
        } else {
            (gs, cur.push(l), in_body)
        }
    }
}

/// The lines `ls` split into one group per entry: a comment line that follows
/// a body line begins a new group. The last group is kept even when empty.
pub open spec fn groups_of(ls: Seq<Seq<char>>) -> Seq<Seq<Seq<char>>> {
    group_scan(ls).0.push(group_scan(ls).1)
}

// ---------------------------------------------------------------------------
// Entries

/// Which field a line that holds only a string continues.
#[derive(Clone, Copy, Debug, PartialEq, Eq)]
pub enum Continuation {
    Nothing,
    Msgid,
    Msgstr(usize),
}

/// `m` with the translation of index `k` set to `v`, the indices kept in order.
pub open spec fn set_plural(m: Seq<(usize, Seq<char>)>, k: usize, v: Seq<char>) -> Seq<(usize, Seq<char>)>
    decreases m.len(),
{
    if m.len() == 0 {
        seq![(k, v)]
    } else if m[0].0 == k {
        seq![(k, v)] + m.drop_first()
    } else if k < m[0].0 {
        seq![(k, v)] + m
    } else {
        seq![m[0]] + set_plural(m.drop_first(), k, v)
    }
}

/// `m` with `s` added to the end of the translation of index `k`.
pub open spec fn extend_plural(m: Seq<(usize, Seq<char>)>, k: usize, s: Seq<char>) -> Seq<(usize, Seq<char>)> {
    Seq::new(m.len(), |j: int| if m[j].0 == k { (k, m[j].1 + s) } else { m[j] })
}

/// The first index at or after `from` that holds `]`, or the length of `l`.
pub open spec fn bracket_end(l: Seq<char>, from: int) -> int
    decreases l.len() - from,
{
    if from < 0 || from >= l.len() {
        l.len() as int
    } else if l[from] == ']' {
        from
    } else {
        bracket_end(l, from + 1)
    }
}

/// Where the value of a keyword line starts, given where the keyword ends:
/// one space after the keyword is skipped.
pub open spec fn value_start(l: Seq<char>, at: int) -> int {
    if at < l.len() && l[at] == ' ' {
        at + 1
    } else {
        at
    }
}

pub open spec fn with_comment(po: PoView, c: CommentView) -> PoView {
    PoView { auto_comments: po.auto_comments.push(c), ..po }
}

pub open spec fn with_plural(po: PoView, k: usize, v: Seq<char>) -> PoView {
    PoView { msgstr: set_plural(po.msgstr, k, v), ..po }
}

/// Interprets one line of a group. `Err` carries a `msgstr[` line whose index
/// has no closing bracket or is no number.
pub open spec fn parse_line(po: PoView, st: Continuation, l: Seq<char>) -> Result<(PoView, Continuation), Seq<char>> {
    if starts_with(l, seq!['#', '.', ' ']) {
        Ok((with_comment(po, CommentView::Extracted(after(l, 3))), Continuation::Nothing))
    } else if starts_with(l, seq!['#', ':', ' ']) {
        let r = if po.reference.len() == 0 {
            after(l, 3)
        } else {
            po.reference.push(' ') + after(l, 3)
        };
        Ok((PoView { reference: r, ..po }, Continuation::Nothing))
    } else if starts_with(l, seq!['#', ',', ' ']) {
        Ok((with_comment(po, CommentView::Flag(after(l, 3))), Continuation::Nothing))
    } else if starts_with(l, seq!['#', '|', ' ']) {
        Ok((with_comment(po, CommentView::Other(after(l, 3))), Continuation::Nothing))
    } else if starts_with(l, seq!['m', 's', 'g', 'c', 't', 'x', 't', ' ']) {
        Ok((PoView { msgctxt: unquote(after(l, 8)), ..po }, Continuation::Nothing))
    } else if starts_with(l, seq!['m', 's', 'g', 'i', 'd', ' ']) {
        Ok((PoView { msgid: unquote(after(l, 6)), ..po }, Continuation::Msgid))
    } else if starts_with(l, seq!['m', 's', 'g', 's', 't', 'r', '[']) {
        let e = bracket_end(l, 7);
        if e >= l.len() {
            Err(l)
        } else {
            match index_of(l.subrange(7, e)) {
                None => Err(l),
                Some(k) => Ok((
                    with_plural(po, k, unquote(after(l, value_start(l, e + 1)))),
                    Continuation::Msgstr(k),
                )),
            }
        }
    } else if starts_with(l, seq!['m', 's', 'g', 's', 't', 'r']) {
        Ok((with_plural(po, 0, unquote(after(l, value_start(l, 6)))), Continuation::Msgstr(0)))
    } else {
        match st {
            Continuation::Msgid => Ok((
                PoView { msgid: po.msgid.push('\n') + unquote(l), ..po },
                st,
            )),
            Continuation::Msgstr(k) => Ok((
                PoView { msgstr: extend_plural(po.msgstr, k, seq!['\n'] + unquote(l)), ..po },
                st,
            )),
            Continuation::Nothing => Ok((po, st)),
        }
    }
}

/// Interprets the lines of a group in order, from an empty entry.
pub open spec fn parse_scan(g: Seq<Seq<char>>) -> Result<(PoView, Continuation), Seq<char>>
    decreases g.len(),
{
    if g.len() == 0 {
        Ok((PoView::empty(), Continuation::Nothing))
    } else {
        match parse_scan(g.drop_last()) {
            Err(l) => Err(l),
            Ok((po, st)) => parse_line(po, st, g.last()),
        }
    }
}

/// The entry that group `g` describes, or its first malformed line.
pub open spec fn parse_entry(g: Seq<Seq<char>>) -> Result<PoView, Seq<char>> {
    match parse_scan(g) {
        Err(l) => Err(l),
        Ok((po, _)) => Ok(po),
    }
}

/// The entries of the groups `gs` in order, leaving out those with an empty
/// msgid; or the first malformed line.
pub open spec fn parse_groups(gs: Seq<Seq<Seq<char>>>) -> Result<Seq<PoView>, Seq<char>>
    decreases gs.len(),
{
    if gs.len() == 0 {
        Ok(Seq::empty())
    } else {
        match parse_groups(gs.drop_last()) {
            Err(l) => Err(l),
            Ok(es) => match parse_entry(gs.last()) {
                Err(l) => Err(l),
                Ok(po) => Ok(if po.msgid.len() == 0 { es } else { es.push(po) }),
            },
        }
    }
}

/// The entries of the catalog text `t`, or its first malformed line.
pub open spec fn parse_text(t: Seq<char>) -> Result<Seq<PoView>, Seq<char>> {
    parse_groups(groups_of(lines_of(t)))
}

// ---------------------------------------------------------------------------
// Executable reader

pub open spec fn lines_view(ls: Seq<Vec<char>>) -> Seq<Seq<char>> {
    ls.map_values(|l: Vec<char>| l@)
}

pub open spec fn groups_view(gs: Seq<Vec<Vec<char>>>) -> Seq<Seq<Seq<char>>> {
    gs.map_values(|g: Vec<Vec<char>>| lines_view(g@))
}

/// Splits `t` at its newlines, dropping the `\r` of each `\r\n` and every
/// empty line.
pub fn split_lines(t: &Vec<char>) -> (r: Vec<Vec<char>>)
    ensures
        lines_view(r@) == lines_of(t@),
{
    let mut ls: Vec<Vec<char>> = Vec::new();
    let mut cur: Vec<char> = Vec::new();
    let mut i: usize = 0;
    while i < t.len()
        invariant
            i <= t.len(),
            (lines_view(ls@), cur@) == lines_scan(t@.subrange(0, i as int)),
        decreases t.len() - i,
    {
        assert(t@.subrange(0, i + 1).drop_last() =~= t@.subrange(0, i as int));
        if t[i] == '\n' {
            let ghost before = cur@;
            if cur.len() > 0 && cur[cur.len() - 1] == '\r' {
                cur.pop();
            }
            assert(cur@ =~= strip_cr(before));
            if cur.len() > 0 {
                let ghost old_ls = ls@;
                ls.push(cur);
                assert(lines_view(ls@) =~= lines_view(old_ls).push(strip_cr(before)));
            }
            cur = Vec::new();
        } else {
            cur.push(t[i]);
        }
        i = i + 1;
    }
    assert(t@.subrange(0, i as int) =~= t@);
    if cur.len() > 0 {
        let ghost old_ls = ls@;
        let ghost c = cur@;
        ls.push(cur);
        assert(lines_view(ls@) =~= lines_view(old_ls).push(c));
    }
    ls
}

pub fn is_comment_line(l: &Vec<char>) -> (r: bool)
    ensures
        r == is_comment(l@),
{
    l.len() > 0 && l[0] == '#'
}

/// Splits the lines `ls` into one group per entry.
pub fn group_lines(ls: Vec<Vec<char>>) -> (r: Vec<Vec<Vec<char>>>)
    ensures
        groups_view(r@) == groups_of(lines_view(ls@)),
{
    let ghost all = lines_view(ls@);
    let mut ls = ls;
    let mut gs: Vec<Vec<Vec<char>>> = Vec::new();
    let mut cur: Vec<Vec<char>> = Vec::new();
    let mut in_body = false;
    let mut i: usize = 0;
    while i < ls.len()
        invariant
            i <= ls.len(),
            all.len() == ls.len(),
            forall|j: int| i <= j < ls.len() ==> ls@[j]@ == #[trigger] all[j],
            (groups_view(gs@), lines_view(cur@), in_body) == group_scan(all.subrange(0, i as int)),
        decreases ls.len() - i,
    {
        assert(all.subrange(0, i + 1).drop_last() =~= all.subrange(0, i as int));
        let mut l: Vec<char> = Vec::new();
        ls.set_and_swap(i, &mut l);
        assert(l@ == all[i as int]);
        let c = is_comment_line(&l);
        if c && in_body {
            let ghost old_gs = gs@;
            let ghost old_cur = lines_view(cur@);
            let mut fresh: Vec<Vec<char>> = Vec::new();
            fresh.push(l);
            std::mem::swap(&mut cur, &mut fresh);
            gs.push(fresh);
            assert(groups_view(gs@) =~= groups_view(old_gs).push(old_cur));
            assert(lines_view(cur@) =~= seq![all[i as int]]);
            in_body = false;
        } else {
            let ghost old_cur = cur@;
            cur.push(l);
            assert(lines_view(cur@) =~= lines_view(old_cur).push(all[i as int]));
            if !c {
                in_body = true;
            }
        }
        i = i + 1;
    }
    assert(all.subrange(0, i as int) =~= all);
    let ghost old_gs = gs@;
    let ghost old_cur = lines_view(cur@);
    gs.push(cur);
    assert(groups_view(gs@) =~= groups_view(old_gs).push(old_cur));
    gs
}

pub open spec fn pairs_view(m: Seq<(usize, Vec<char>)>) -> Seq<(usize, Seq<char>)> {
    m.map_values(|p: (usize, Vec<char>)| (p.0, p.1@))
}

proof fn lemma_set_plural_skip(m: Seq<(usize, Seq<char>)>, k: usize, v: Seq<char>, i: int)
    requires
        0 <= i <= m.len(),
        forall|j: int| 0 <= j < i ==> m[j].0 < k,
    ensures
        set_plural(m, k, v) == m.subrange(0, i) + set_plural(m.subrange(i, m.len() as int), k, v),
    decreases i,
{
    if i == 0 {
        assert(m.subrange(0, 0) + m.subrange(0, m.len() as int) =~= m);
        assert(m.subrange(0, m.len() as int) =~= m);
        assert(m.subrange(0, 0) + set_plural(m, k, v) =~= set_plural(m, k, v));
    } else {
        let t = m.drop_first();
        lemma_set_plural_skip(t, k, v, i - 1);
        assert(t.subrange(i - 1, t.len() as int) =~= m.subrange(i, m.len() as int));
        assert(seq![m[0]] + t.subrange(0, i - 1) =~= m.subrange(0, i));
        assert(seq![m[0]] + (t.subrange(0, i - 1) + set_plural(m.subrange(i, m.len() as int), k, v))
            =~= m.subrange(0, i) + set_plural(m.subrange(i, m.len() as int), k, v));
    }
}

/// Sets the translation of index `k` to `v`, keeping the indices in order.
pub fn set_plural_exec(m: &mut Vec<(usize, Vec<char>)>, k: usize, v: Vec<char>)
    ensures
        pairs_view(final(m)@) == set_plural(pairs_view(old(m)@), k, v@),
{
    let ghost pm = pairs_view(m@);
    let mut i: usize = 0;
    while i < m.len() && m[i].0 < k
        invariant
            i <= m.len(),
            pm == pairs_view(m@),
            forall|j: int| 0 <= j < i ==> pm[j].0 < k,
        decreases m.len() - i,
    {
        i = i + 1;
    }
    proof {
        lemma_set_plural_skip(pm, k, v@, i as int);
    }
    let ghost tail = pm.subrange(i as int, pm.len() as int);
    if i < m.len() && m[i].0 == k {
        m.set(i, (k, v));
        assert(pairs_view(m@) =~= pm.subrange(0, i as int) + (seq![(k, v@)] + tail.drop_first()));
    } else {
        m.insert(i, (k, v));
        assert(pairs_view(m@) =~= pm.subrange(0, i as int) + (seq![(k, v@)] + tail));
    }
}

/// Adds `s` to the end of the translation of index `k`.
pub fn extend_plural_exec(m: &mut Vec<(usize, Vec<char>)>, k: usize, s: &Vec<char>)
    ensures
        pairs_view(final(m)@) == extend_plural(pairs_view(old(m)@), k, s@),
{
    let ghost pm = pairs_view(m@);
    let ghost want = extend_plural(pm, k, s@);
    let mut j: usize = 0;
    while j < m.len()
        invariant
            j <= m.len(),
            m.len() == pm.len(),
            want.len() == pm.len(),
            want == extend_plural(pm, k, s@),
            forall|x: int| 0 <= x < j ==> #[trigger] pairs_view(m@)[x] == want[x],
            forall|x: int| j <= x < m.len() ==> #[trigger] pairs_view(m@)[x] == pm[x],
        decreases m.len() - j,
    {
        let ghost before = pairs_view(m@);
        if m[j].0 == k {
            let mut e: (usize, Vec<char>) = (k, Vec::new());
            m.set_and_swap(j, &mut e);
            assert(before[j as int] == pm[j as int]);
            assert(e.1@ == pm[j as int].1);
            let mut val = e.1;
            let mut add = s.clone();
            assert(add@ =~= s@);
            val.append(&mut add);
            m.set(j, (k, val));
            assert(pairs_view(m@) =~= before.update(j as int, want[j as int]));
        } else {
            assert(before[j as int] == want[j as int]);
        }
        j = j + 1;
    }
    assert(pairs_view(m@) =~= want);
}

/// An entry while its group is being read.
pub struct Draft {
    pub auto_comments: Vec<AutoComments>,
    pub reference: Vec<char>,
    pub msgctxt: Vec<char>,
    pub msgid: Vec<char>,
    pub msgstr: Vec<(usize, Vec<char>)>,
}

impl View for Draft {
    type V = PoView;

    open spec fn view(&self) -> PoView {
        PoView {
            translator_comments: Seq::empty(),
            auto_comments: crate::model::comments_view(self.auto_comments@),
            reference: self.reference@,
            msgctxt: self.msgctxt@,
            msgid: self.msgid@,
            msgstr: pairs_view(self.msgstr@),
        }
    }
}

/// The characters of `l` from index `n` on.
pub fn copy_from(l: &Vec<char>, n: usize) -> (r: Vec<char>)
    requires
        n <= l.len(),
    ensures
        r@ == after(l@, n as int),
{
    let mut out: Vec<char> = Vec::new();
    let mut i: usize = n;
    while i < l.len()
        invariant
            n <= i <= l.len(),
            out@ == l@.subrange(n as int, i as int),
        decreases l.len() - i,
    {
        out.push(l[i]);
        i = i + 1;
        assert(out@ =~= l@.subrange(n as int, i as int));
    }
    out
}

/// The first index at or after `from` that holds `]`, or the length of `l`.
pub fn find_bracket(l: &Vec<char>, from: usize) -> (r: usize)
    requires
        from <= l.len(),
    ensures
        r as int == bracket_end(l@, from as int),
        from <= r <= l.len(),
{
    let mut i: usize = from;
    while i < l.len() && l[i] != ']'
        invariant
            from <= i <= l.len(),
            bracket_end(l@, from as int) == bracket_end(l@, i as int),
        decreases l.len() - i,
    {
        i = i + 1;
    }
    i
}

fn push_comment(d: &mut Draft, c: AutoComments)
    ensures
        final(d)@ == with_comment(old(d)@, c@),
{
    let ghost before = d.auto_comments@;
    d.auto_comments.push(c);
    assert(crate::model::comments_view(d.auto_comments@) =~= crate::model::comments_view(before).push(c@));
}

/// Interprets line `l` of a group into `d`, given which field a bare string
/// line continues; returns what the next line continues.
pub fn parse_line_exec(d: &mut Draft, st: Continuation, l: &Vec<char>) -> (r: Result<Continuation, ()>)
    ensures
        match parse_line(old(d)@, st, l@) {
            Ok((po, next)) => r == Ok::<Continuation, ()>(next) && final(d)@ == po,
            Err(_) => r is Err,
        },
{
    let p_extracted: [char; 3] = ['#', '.', ' '];
    let p_reference: [char; 3] = ['#', ':', ' '];
    let p_flag: [char; 3] = ['#', ',', ' '];
    let p_other: [char; 3] = ['#', '|', ' '];
    let p_msgctxt: [char; 8] = ['m', 's', 'g', 'c', 't', 'x', 't', ' '];
    let p_msgid: [char; 6] = ['m', 's', 'g', 'i', 'd', ' '];
    let p_plural: [char; 7] = ['m', 's', 'g', 's', 't', 'r', '['];
    let p_msgstr: [char; 6] = ['m', 's', 'g', 's', 't', 'r'];
    assert(p_extracted@ =~= seq!['#', '.', ' ']);
    assert(p_reference@ =~= seq!['#', ':', ' ']);
    assert(p_flag@ =~= seq!['#', ',', ' ']);
    assert(p_other@ =~= seq!['#', '|', ' ']);
    assert(p_msgctxt@ =~= seq!['m', 's', 'g', 'c', 't', 'x', 't', ' ']);
    assert(p_msgid@ =~= seq!['m', 's', 'g', 'i', 'd', ' ']);
    assert(p_plural@ =~= seq!['m', 's', 'g', 's', 't', 'r', '[']);
    assert(p_msgstr@ =~= seq!['m', 's', 'g', 's', 't', 'r']);
    let ls = l.as_slice();
    if starts_with_exec(ls, p_extracted.as_slice()) {
        let body = copy_from(l, 3);
        push_comment(d, AutoComments::ExtractedComments(string_from(body.as_slice())));
        Ok(Continuation::Nothing)
    } else if starts_with_exec(ls, p_reference.as_slice()) {
        let mut body = copy_from(l, 3);
        if d.reference.len() == 0 {
            d.reference = body;
        } else {
            d.reference.push(' ');
            d.reference.append(&mut body);
        }
        Ok(Continuation::Nothing)
    } else if starts_with_exec(ls, p_flag.as_slice()) {
        let body = copy_from(l, 3);
        push_comment(d, AutoComments::Flag(string_from(body.as_slice())));
        Ok(Continuation::Nothing)
    } else if starts_with_exec(ls, p_other.as_slice()) {
        let body = copy_from(l, 3);
        push_comment(d, AutoComments::Other(string_from(body.as_slice())));
        Ok(Continuation::Nothing)
    } else if starts_with_exec(ls, p_msgctxt.as_slice()) {
        d.msgctxt = unquote_from(ls, 8);
        Ok(Continuation::Nothing)
    } else if starts_with_exec(ls, p_msgid.as_slice()) {
        d.msgid = unquote_from(ls, 6);
        Ok(Continuation::Msgid)
    } else if starts_with_exec(ls, p_plural.as_slice()) {
        let e = find_bracket(l, 7);
        if e >= l.len() {
            return Err(());
        }
        match parse_index(ls, 7, e) {
            None => Err(()),
            Some(k) => {
                let mut start: usize = e + 1;
                if start < l.len() && l[start] == ' ' {
                    start = start + 1;
                }
                set_plural_exec(&mut d.msgstr, k, unquote_from(ls, start));
                Ok(Continuation::Msgstr(k))
            },
        }
    } else if starts_with_exec(ls, p_msgstr.as_slice()) {
        let mut start: usize = 6;
        if start < l.len() && l[start] == ' ' {
            start = start + 1;
        }
        set_plural_exec(&mut d.msgstr, 0, unquote_from(ls, start));
        Ok(Continuation::Msgstr(0))
    } else {
        assert(after(l@, 0) =~= l@);
        match st {
            Continuation::Msgid => {
                let mut u = unquote_from(ls, 0);
                d.msgid.push('\n');
                d.msgid.append(&mut u);
                Ok(st)
            },
            Continuation::Msgstr(k) => {
                let mut t: Vec<char> = Vec::new();
                t.push('\n');
                let mut u = unquote_from(ls, 0);
                t.append(&mut u);
                assert(t@ =~= seq!['\n'] + unquote(l@));
                extend_plural_exec(&mut d.msgstr, k, &t);
                Ok(st)
            },
            Continuation::Nothing => Ok(st),
        }
    }
}

/// Interprets the lines of one group; `Err` holds its first malformed line.
pub fn parse_group(g: &Vec<Vec<char>>) -> (r: Result<Draft, Vec<char>>)
    ensures
        match parse_entry(lines_view(g@)) {
            Ok(po) => r matches Ok(d) && d@ == po,
            Err(l) => r matches Err(e) && e@ == l,
        },
{
    let ghost gv = lines_view(g@);
    let mut d = Draft {
        auto_comments: Vec::new(),
        reference: Vec::new(),
        msgctxt: Vec::new(),
        msgid: Vec::new(),
        msgstr: Vec::new(),
    };
    assert(d@.auto_comments =~= Seq::<CommentView>::empty());
    assert(d@.msgstr =~= Seq::<(usize, Seq<char>)>::empty());
    assert(d@ == PoView::empty());
    let mut st = Continuation::Nothing;
    let mut i: usize = 0;
    while i < g.len()
        invariant
            i <= g.len(),
            gv == lines_view(g@),
            parse_scan(gv.subrange(0, i as int)) == Ok::<(PoView, Continuation), Seq<char>>((d@, st)),
        decreases g.len() - i,
    {
        assert(gv.subrange(0, i + 1).drop_last() =~= gv.subrange(0, i as int));
        assert(gv.subrange(0, i + 1).last() == g@[i as int]@);
        match parse_line_exec(&mut d, st, &g[i]) {
            Err(_) => {
                assert(gv.subrange(0, g.len() as int) =~= gv);
                proof {
                    lemma_scan_err_sticks(gv, i as int + 1);
                }
                return Err(copy_from(&g[i], 0));
            },
            Ok(next) => {
                st = next;
            },
        }
        i = i + 1;
    }
    assert(gv.subrange(0, i as int) =~= gv);
    Ok(d)
}

/// Once a prefix of a group fails, the whole group fails on the same line.
proof fn lemma_scan_err_sticks(g: Seq<Seq<char>>, n: int)
    requires
        0 <= n <= g.len(),
        parse_scan(g.subrange(0, n)) is Err,
    ensures
        parse_scan(g) == parse_scan(g.subrange(0, n)),
    decreases g.len() - n,
{
    if n == g.len() {
        assert(g.subrange(0, n) =~= g);
    } else {
        assert(g.subrange(0, n + 1).drop_last() =~= g.subrange(0, n));
        lemma_scan_err_sticks(g, n + 1);
    }
}

/// Once a prefix of the groups fails, the whole catalog fails on the same line.
proof fn lemma_groups_err_sticks(gs: Seq<Seq<Seq<char>>>, n: int)
    requires
        0 <= n <= gs.len(),
        parse_groups(gs.subrange(0, n)) is Err,
    ensures
        parse_groups(gs) == parse_groups(gs.subrange(0, n)),
    decreases gs.len() - n,
{
    if n == gs.len() {
        assert(gs.subrange(0, n) =~= gs);
    } else {
        assert(gs.subrange(0, n + 1).drop_last() =~= gs.subrange(0, n));
        lemma_groups_err_sticks(gs, n + 1);
    }
}

/// The entry that a finished draft describes.
fn finish(d: Draft) -> (r: Po)
    ensures
        r@ == d@,
{
    let mut msgstr: Vec<(usize, String)> = Vec::new();
    let mut i: usize = 0;
    while i < d.msgstr.len()
        invariant
            i <= d.msgstr.len(),
            crate::model::plurals_view(msgstr@) == pairs_view(d.msgstr@).subrange(0, i as int),
        decreases d.msgstr.len() - i,
    {
        let ghost before = msgstr@;
        let p = &d.msgstr[i];
        let v = string_from(p.1.as_slice());
        msgstr.push((p.0, v));
        assert(crate::model::plurals_view(msgstr@) =~= crate::model::plurals_view(before).push(pairs_view(d.msgstr@)[i as int]));
        i = i + 1;
        assert(crate::model::plurals_view(msgstr@) =~= pairs_view(d.msgstr@).subrange(0, i as int));
    }
    assert(pairs_view(d.msgstr@).subrange(0, i as int) =~= pairs_view(d.msgstr@));
    let r = Po {
        translator_comments: String::new(),
        auto_comments: d.auto_comments,
        reference: string_from(d.reference.as_slice()),
        msgctxt: string_from(d.msgctxt.as_slice()),
        msgid: string_from(d.msgid.as_slice()),
        msgstr,
    };
    assert(r@.translator_comments =~= Seq::<char>::empty());
    r
}

/// Reads the entries of a catalog from its text.
///
/// Entries come in the order of the text; an entry whose msgid is empty is left
/// out. A `msgstr[..]` line whose index lacks its closing bracket, or is no
/// number that fits in `usize`, fails the whole read, and the error holds the
/// first such line.
pub fn parse_po(text: &str) -> (r: Result<Vec<Po>, Error>)
    ensures
        match parse_text(text@) {
            Ok(es) => r matches Ok(v) && entries_view(v@) == es,
            Err(l) => r matches Err(Error::MalformedEntry { line }) && line@ == l,
        },
{
    let t = chars_of(text);
    let ls = split_lines(&t);
    let gs = group_lines(ls);
    let ghost gv = groups_view(gs@);
    let mut out: Vec<Po> = Vec::new();
    assert(entries_view(out@) =~= Seq::<PoView>::empty());
    assert(gv.subrange(0, 0) =~= Seq::<Seq<Seq<char>>>::empty());
    let mut i: usize = 0;
    while i < gs.len()
        invariant
            i <= gs.len(),
            gv == groups_view(gs@),
            gv == groups_of(lines_of(text@)),
            parse_groups(gv.subrange(0, i as int)) == Ok::<Seq<PoView>, Seq<char>>(entries_view(out@)),
        decreases gs.len() - i,
    {
        assert(gv.subrange(0, i + 1).drop_last() =~= gv.subrange(0, i as int));
        assert(gv.subrange(0, i + 1).last() == lines_view(gs@[i as int]@));
        match parse_group(&gs[i]) {
            Err(l) => {
                proof {
                    lemma_groups_err_sticks(gv, i as int + 1);
                }
                return Err(Error::MalformedEntry { line: string_from(l.as_slice()) });
            },
            Ok(d) => {
                if d.msgid.len() > 0 {
                    let ghost before = out@;
                    out.push(finish(d));
                    assert(entries_view(out@) =~= entries_view(before).push(d@));
                }
            },
        }
        i = i + 1;
    }
    assert(gv.subrange(0, i as int) =~= gv);
    Ok(out)
}

} // verus!
