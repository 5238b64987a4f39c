//! Small operations on text that the navigator and the command plan share.

use crate::path::strings_view;
use vstd::prelude::*;
use vstd::string::*;

verus! {

/// The characters of a text.
pub fn chars_of(s: &str) -> (out: Vec<char>)
    ensures
        out@ == s@,
{
    let mut out: Vec<char> = Vec::new();
    for c in it: s.chars()
        invariant
            out@ == it.seq().take(it.index() as int),
            it.seq() == s@,
    {
        out.push(c);
    }
    out
}

/// Whether `s` ends with the text `pat`.
pub open spec fn ends_with(s: Seq<char>, pat: Seq<char>) -> bool {
    pat.len() <= s.len() && s.skip(s.len() - pat.len()) == pat
}

/// The text `s` without the repetitions of `pat` at its end.
pub open spec fn trimmed_end(s: Seq<char>, pat: Seq<char>) -> Seq<char>
    decreases s.len(),
{
    if pat.len() > 0 && ends_with(s, pat) {
        trimmed_end(s.take(s.len() - pat.len()), pat)
    } else {
        s
    }
}

/// The texts `lines` one after the other, with `sep` between each two.
pub open spec fn joined(lines: Seq<Seq<char>>, sep: Seq<char>) -> Seq<char>
    decreases lines.len(),
{
    if lines.len() == 0 {
        Seq::empty()
    } else if lines.len() == 1 {
        lines[0]
    } else {
        joined(lines.drop_last(), sep) + sep + lines.last()
    }
}

/// The character that stands for the digit `d`.
pub open spec fn digit_char(d: nat) -> char {
    if d == 0 {
        '0'
    } else if d == 1 {
        '1'
    } else if d == 2 {
        '2'
    } else if d == 3 {
        '3'
    } else if d == 4 {
        '4'
    } else if d == 5 {
        '5'
    } else if d == 6 {
        '6'
    } else if d == 7 {
        '7'
    } else if d == 8 {
        '8'
    } else {
        '9'
    }
}

/// The number `n` written in decimal digits, without leading zeros.
pub open spec fn decimal(n: nat) -> Seq<char>
    decreases n,
{
    if n < 10 {
        seq![digit_char(n)]
    } else {
        decimal(n / 10).push(digit_char(n % 10))
    }
}

/// Whether the characters of `cs` before `end` end with `pat`.
fn ends_with_at(cs: &Vec<char>, end: usize, pat: &Vec<char>) -> (r: bool)
    requires
        end <= cs.len(),
    ensures
        r == ends_with(cs@.take(end as int), pat@),
{
    let m: usize = pat.len();
    if m > end {
        return false;
    }
    let ghost s = cs@.take(end as int);
    let ghost tail = s.skip(end - m);
    let mut i: usize = 0;
    while i < m
        invariant
            i <= m <= end <= cs.len(),
            m == pat.len(),
            s == cs@.take(end as int),
            tail == s.skip(end - m),
            forall|j: int| 0 <= j < i ==> tail[j] == pat@[j],
        decreases m - i,
    {
        assert(tail[i as int] == cs@[end - m + i]);
        if cs[end - m + i] != pat[i] {
            assert(tail[i as int] != pat@[i as int]);
            return false;
        }
        i = i + 1;
    }
    assert(tail =~= pat@);
    true
}

/// The text `s` without the repetitions of `pat` at its end.
pub fn trim_end(s: &str, pat: &str) -> (out: String)
    ensures
        out@ == trimmed_end(s@, pat@),
{
    let cs = chars_of(s);
    let ps = chars_of(pat);
    let mut end: usize = cs.len();
    assert(cs@.take(end as int) =~= s@);
    if ps.len() > 0 {
        while ends_with_at(&cs, end, &ps)
            invariant
                end <= cs.len(),
                cs@ == s@,
                ps@ == pat@,
                ps.len() > 0,
                trimmed_end(s@, pat@) == trimmed_end(cs@.take(end as int), pat@),
            decreases end,
        {
            assert(cs@.take(end as int).take(end - ps.len()) =~= cs@.take(end - ps.len()));
            end = end - ps.len();
        }
    }
    let out = s.substring_char(0, end).to_owned();
    assert(s@.subrange(0, end as int) =~= cs@.take(end as int));
    out
}

/// The texts `lines` one after the other, with `sep` between each two.
pub fn join_lines(lines: &Vec<String>, sep: &str) -> (out: String)
    ensures
        out@ == joined(strings_view(lines@), sep@),
{
    let mut out: String = String::new();
    let ghost ls = strings_view(lines@);
    let mut i: usize = 0;
    assert(ls.take(0) =~= Seq::<Seq<char>>::empty());
    while i < lines.len()
        invariant
            i <= lines.len(),
            ls == strings_view(lines@),
            out@ == joined(ls.take(i as int), sep@),
        decreases lines.len() - i,
    {
        let ghost taken = ls.take(i + 1);
        assert(taken.drop_last() =~= ls.take(i as int));
        assert(taken.last() == lines@[i as int]@);
        if i > 0 {
            out.append(sep);
        } else {
            assert(taken =~= seq![lines@[0]@]);
            assert(out@ =~= Seq::<char>::empty());
        }
        out.append(lines[i].as_str());
        assert(out@ =~= joined(taken, sep@));
        i = i + 1;
    }
    assert(ls.take(lines.len() as int) =~= ls);
    out
}

/// The text of one decimal digit.
fn digit_text(d: u8) -> (out: &'static str)
    requires
        d < 10,
    ensures
        out@ == seq![digit_char(d as nat)],
{
    proof {
        reveal_strlit("0");
        reveal_strlit("1");
        reveal_strlit("2");
        reveal_strlit("3");
        reveal_strlit("4");
        reveal_strlit("5");
        reveal_strlit("6");
        reveal_strlit("7");
        reveal_strlit("8");
        reveal_strlit("9");
    }
    let out: &'static str = if d == 0 {
        "0"
    } else if d == 1 {
        "1"
    } else if d == 2 {
        "2"
    } else if d == 3 {
        "3"
    } else if d == 4 {
        "4"
    } else if d == 5 {
        "5"
    } else if d == 6 {
        "6"
    } else if d == 7 {
        "7"
    } else if d == 8 {
        "8"
    } else {
        "9"
    };
    assert(out@ =~= seq![digit_char(d as nat)]);
    out
}

/// Writes `n` in decimal digits.
pub fn decimal_text(n: u8) -> (out: String)
    ensures
        out@ == decimal(n as nat),
{
    let mut out: String = String::new();
    if n >= 100 {
        out.append(digit_text(n / 100));
        out.append(digit_text(n / 10 % 10));
        out.append(digit_text(n % 10));
        proof {
            let k = n as nat;
            assert(k / 10 / 10 == k / 100);
            assert(decimal(k / 100) =~= seq![digit_char(k / 100)]);
            assert(decimal(k / 10) =~= decimal(k / 100).push(digit_char(k / 10 % 10)));
            assert(out@ =~= decimal(k));
        }
    } else if n >= 10 {
        out.append(digit_text(n / 10));
        out.append(digit_text(n % 10));
        proof {
            let k = n as nat;
            assert(decimal(k / 10) =~= seq![digit_char(k / 10)]);
            assert(out@ =~= decimal(k));
        }
    } else {
        out.append(digit_text(n));
        assert(out@ =~= decimal(n as nat));
    }
    out
}

} // verus!
