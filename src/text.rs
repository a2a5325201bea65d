use vstd::prelude::*;
use vstd::std_specs::iter::IteratorSpec;

verus! {

/// The characters of `s` in order.
pub(crate) fn chars_of(s: &str) -> (r: Vec<char>)
    ensures
        r@ == s@,
{
    broadcast use vstd::string::axiom_spec_iter, vstd::string::next_postcondition;
    let mut chars = s.chars();
    let mut r: Vec<char> = Vec::new();
    loop
        invariant
            r@ + chars.remaining() == s@,
            chars.decrease() is Some,
        ensures
            r@ == s@,
        decreases chars.decrease()->0,
    {
        match chars.next() {
            Some(c) => {
                r.push(c);
            },
            None => {
                assert(chars.remaining().len() == 0);
                assert(r@ + chars.remaining() =~= r@);
                break;
            },
        }
    }
    r
}

/// Relies on collecting a slice of characters into a `String`: the same characters.
#[verifier::external_body]
pub(crate) fn string_from(cs: &[char]) -> (r: String)
    ensures
        r@ == cs@,
{
    cs.iter().collect()
}

/// `line` begins with `p`.
pub open spec fn starts_with(line: Seq<char>, p: Seq<char>) -> bool {
    p.len() <= line.len() && line.subrange(0, p.len() as int) == p
}

/// `line` with its first `n` characters taken off.
pub open spec fn after(line: Seq<char>, n: int) -> Seq<char> {
    line.subrange(n, line.len() as int)
}

/// `s` with every double quote taken out.
pub open spec fn unquote(s: Seq<char>) -> Seq<char>
    decreases s.len(),
{
    if s.len() == 0 {
        s
    } else if s.last() == '"' {
        unquote(s.drop_last())
    } else {
        unquote(s.drop_last()).push(s.last())
    }
}

pub fn starts_with_exec(line: &[char], p: &[char]) -> (r: bool)
    ensures
        r == starts_with(line@, p@),
{
    if p.len() > line.len() {
        return false;
    }
    let mut i: usize = 0;
    while i < p.len()
        invariant
            p.len() <= line.len(),
            i <= p.len(),
            forall|j: int| 0 <= j < i ==> line@[j] == p@[j],
        decreases p.len() - i,
    {
        if line[i] != p[i] {
            return false;
        }
        i = i + 1;
    }
    assert(line@.subrange(0, p@.len() as int) =~= p@);
    true
}

/// The characters of `s` from index `start` on, with the double quotes taken out.
pub fn unquote_from(s: &[char], start: usize) -> (r: Vec<char>)
    requires
        start <= s.len(),
    ensures
        r@ == unquote(after(s@, start as int)),
{
    let mut out: Vec<char> = Vec::new();
    let mut i: usize = start;
    while i < s.len()
        invariant
            start <= i <= s.len(),
            out@ == unquote(s@.subrange(start as int, i as int)),
        decreases s.len() - i,
    {
        assert(s@.subrange(start as int, i + 1).drop_last() =~= s@.subrange(start as int, i as int));
        if s[i] != '"' {
            out.push(s[i]);
        }
        i = i + 1;
    }
    out
}

pub open spec fn is_digit(c: char) -> bool {
    '0' <= c <= '9'
}

pub open spec fn digit_value(c: char) -> nat {
    (c as nat - '0' as nat) as nat
}

pub open spec fn all_digits(s: Seq<char>) -> bool {
    forall|i: int| 0 <= i < s.len() ==> is_digit(#[trigger] s[i])
}

/// The number that the decimal digits `s` write.
pub open spec fn digits_value(s: Seq<char>) -> nat
    decreases s.len(),
{
    if s.len() == 0 {
        0
    } else {
        10 * digits_value(s.drop_last()) + digit_value(s.last())
    }
}

/// The decimal digits of `s`, after one optional `+`.
pub open spec fn unsigned_digits(s: Seq<char>) -> Seq<char> {
    if s.len() > 0 && s[0] == '+' {
        s.drop_first()
    } else {
        s
    }
}

/// The plural index that `s` writes: one or more decimal digits, after an
/// optional `+`, of a value that fits in `usize`.
pub open spec fn index_of(s: Seq<char>) -> Option<usize> {
    let d = unsigned_digits(s);
    if d.len() > 0 && all_digits(d) && digits_value(d) <= usize::MAX {
        Some(digits_value(d) as usize)
    } else {
        None
    }
}

proof fn lemma_digits_value_grows(s: Seq<char>, j: int)
    requires
        0 <= j <= s.len(),
    ensures
        digits_value(s.subrange(0, j)) <= digits_value(s),
    decreases s.len() - j,
{
    if j < s.len() {
        lemma_digits_value_grows(s, j + 1);
        assert(s.subrange(0, j + 1).drop_last() =~= s.subrange(0, j));
    } else {
        assert(s.subrange(0, j) =~= s);
    }
}

/// Reads the plural index written in `s[lo..hi]`.
pub fn parse_index(s: &[char], lo: usize, hi: usize) -> (r: Option<usize>)
    requires
        lo <= hi <= s.len(),
    ensures
        r == index_of(s@.subrange(lo as int, hi as int)),
{
    let ghost w = s@.subrange(lo as int, hi as int);
    let mut start: usize = lo;
    if lo < hi && s[lo] == '+' {
        start = lo + 1;
    }
    let ghost d = s@.subrange(start as int, hi as int);
    assert(d =~= unsigned_digits(w));
    if start == hi {
        return None;
    }
    let mut acc: usize = 0;
    let mut i: usize = start;
    while i < hi
        invariant
            lo <= start <= i <= hi <= s.len(),
            d == s@.subrange(start as int, hi as int),
            d == unsigned_digits(w),
            w == s@.subrange(lo as int, hi as int),
            forall|j: int| start <= j < i ==> is_digit(s@[j]),
            acc as nat == digits_value(s@.subrange(start as int, i as int)),
        decreases hi - i,
    {
        let c = s[i];
        if !('0' <= c && c <= '9') {
            assert(!is_digit(d[i - start]));
            return None;
        }
        let dv: usize = (c as u32 - '0' as u32) as usize;
        assert(dv as nat == digit_value(c));
        assert(s@.subrange(start as int, i + 1).drop_last() =~= s@.subrange(start as int, i as int));
        if acc > (usize::MAX - dv) / 10 {
            proof {
                assert(d.subrange(0, i + 1 - start) =~= s@.subrange(start as int, i + 1));
                lemma_digits_value_grows(d, i + 1 - start);
                assert(acc * 10 + dv > usize::MAX) by (nonlinear_arith)
                    requires
                        acc > (usize::MAX - dv) / 10,
                        dv <= 9,
                ;
            }
            return None;
        }
        acc = acc * 10 + dv;
        i = i + 1;
    }
    assert(s@.subrange(start as int, i as int) =~= d);
    Some(acc)
}

pub open spec fn digit_char(n: nat) -> char {
    ('0' as nat + n % 10) as char
}

/// The decimal digits of `n`, without leading zeros.
pub open spec fn decimal(n: nat) -> Seq<char>
    decreases n,
{
    if n < 10 {
        seq![digit_char(n)]
    } else {
        decimal(n / 10).push(digit_char(n))
    }
}

/// Appends the decimal digits of `n` to `out`.
pub fn push_decimal(out: &mut Vec<char>, n: usize)
    ensures
        final(out)@ == old(out)@ + decimal(n as nat),
    decreases n,
{
    if n >= 10 {
        push_decimal(out, n / 10);
    }
    let c: char = ('0' as u8 + (n % 10) as u8) as char;
    out.push(c);
    proof {
        assert(c == digit_char(n as nat));
    }
}

} // verus!
