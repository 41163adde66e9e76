//! The text side of FIXED and DOLLAR: thousands separators, signs and the
//! dollar form of an already rounded and formatted number.
use vstd::prelude::*;

use crate::strings::{chars_of, string_of};
use crate::text::extend_chars;
use crate::textutil::{pieces_view, slice_chars, split, split_chars};

verus! {

/// The digits of `d` with a comma before every group of three counted from
/// the right.
pub open spec fn thousands(d: Seq<char>) -> Seq<char>
    decreases d.len(),
{
    if d.len() <= 3 {
        d
    } else {
        thousands(d.take(d.len() - 3)) + seq![','] + d.skip(d.len() - 3)
    }
}

/// The ASCII digits among the first `n` characters of `s`, in order.
pub open spec fn ascii_digits(s: Seq<char>, n: int) -> Seq<char>
    decreases n,
{
    if n <= 0 {
        seq![]
    } else if '0' <= s[n - 1] <= '9' {
        ascii_digits(s, n - 1).push(s[n - 1])
    } else {
        ascii_digits(s, n - 1)
    }
}

/// The integer part of a formatted number with thousands separators, the
/// sign kept, and its fraction (if any) after a point.
pub open spec fn with_commas(formatted: Seq<char>) -> Seq<char> {
    let parts = split(formatted, seq!['.']);
    let ip = parts[0];
    let grouped = thousands(ascii_digits(ip, ip.len() as int));
    let signed = if ip.len() > 0 && ip[0] == '-' {
        seq!['-'] + grouped
    } else {
        grouped
    };
    if parts.len() > 1 {
        signed + seq!['.'] + parts[1]
    } else {
        signed
    }
}

/// The dollar form of a formatted amount: `$` and the amount with thousands
/// separators, in parentheses when the number is negative.
pub open spec fn dollar_form(formatted: Seq<char>, negative: bool) -> Seq<char> {
    let parts = split(formatted, seq!['.']);
    let ip = parts[0];
    let grouped = thousands(ascii_digits(ip, ip.len() as int));
    let amount = if parts.len() > 1 {
        grouped + seq!['.'] + parts[1]
    } else {
        grouped
    };
    if negative {
        seq!['(', '$'] + amount + seq![')']
    } else {
        seq!['$'] + amount
    }
}

fn thousands_exec(d: &Vec<char>) -> (r: Vec<char>)
    ensures
        r@ == thousands(d@),
    decreases d.len(),
{
    if d.len() <= 3 {
        return slice_chars(d, 0, d.len());
    }
    let head = slice_chars(d, 0, d.len() - 3);
    let mut out = thousands_exec(&head);
    out.push(',');
    let tail = slice_chars(d, d.len() - 3, d.len());
    extend_chars(&mut out, &tail);
    proof {
        assert(d@.subrange(0, d.len() as int) =~= d@);
        assert(d@.take(d.len() - 3) =~= head@);
    }
    out
}

fn digits_of(s: &Vec<char>) -> (r: Vec<char>)
    ensures
        r@ == ascii_digits(s@, s.len() as int),
{
    let mut out: Vec<char> = Vec::new();
    let mut i: usize = 0;
    while i < s.len()
        invariant
            i <= s.len(),
            out@ == ascii_digits(s@, i as int),
        decreases s.len() - i,
    {
        if '0' <= s[i] && s[i] <= '9' {
            out.push(s[i]);
        }
        i += 1;
    }
    out
}

proof fn lemma_split_nonempty(s: Seq<char>)
    ensures
        split(s, seq!['.']).len() > 0,
{
    crate::textutil::lemma_find_from(s, seq!['.'], 0);
}

fn grouped_parts(formatted: &str) -> (r: (Vec<char>, Vec<char>, Option<Vec<char>>))
    ensures
        ({
            let parts = split(formatted@, seq!['.']);
            &&& r.0@ == parts[0]
            &&& r.1@ == thousands(ascii_digits(parts[0], parts[0].len() as int))
            &&& match r.2 {
                Some(f) => parts.len() > 1 && f@ == parts[1],
                None => parts.len() <= 1,
            }
        }),
{
    let f = chars_of(formatted);
    let mut point: Vec<char> = Vec::new();
    point.push('.');
    assert(point@ =~= seq!['.']);
    let parts = split_chars(&f, &point);
    proof {
        lemma_split_nonempty(f@);
        assert(pieces_view(parts@).len() == parts.len());
    }
    let ip = slice_chars(&parts[0], 0, parts[0].len());
    assert(parts@[0]@.subrange(0, parts@[0]@.len() as int) =~= parts@[0]@);
    let grouped = thousands_exec(&digits_of(&ip));
    let fraction = if parts.len() > 1 {
        let fr = slice_chars(&parts[1], 0, parts[1].len());
        assert(parts@[1]@.subrange(0, parts@[1]@.len() as int) =~= parts@[1]@);
        Some(fr)
    } else {
        None
    };
    (ip, grouped, fraction)
}

/// FIXED's thousands separators on a formatted number (see `with_commas`).
pub fn fixed_with_commas(formatted: &str) -> (r: String)
    ensures
        r@ == with_commas(formatted@),
{
    let (ip, grouped, fraction) = grouped_parts(formatted);
    let mut out: Vec<char> = Vec::new();
    if ip.len() > 0 && ip[0] == '-' {
        out.push('-');
    }
    extend_chars(&mut out, &grouped);
    match fraction {
        Some(fr) => {
            out.push('.');
            extend_chars(&mut out, &fr);
        },
        None => {},
    }
    let ghost parts = split(formatted@, seq!['.']);
    assert(out@ =~= with_commas(formatted@));
    string_of(&out)
}

/// DOLLAR's text for a formatted amount (see `dollar_form`).
pub fn dollar_text(formatted: &str, negative: bool) -> (r: String)
    ensures
        r@ == dollar_form(formatted@, negative),
{
    let (_ip, grouped, fraction) = grouped_parts(formatted);
    let mut out: Vec<char> = Vec::new();
    if negative {
        out.push('(');
    }
    out.push('$');
    extend_chars(&mut out, &grouped);
    match fraction {
        Some(fr) => {
            out.push('.');
            extend_chars(&mut out, &fr);
        },
        None => {},
    }
    if negative {
        out.push(')');
    }
    assert(out@ =~= dollar_form(formatted@, negative));
    string_of(&out)
}

} // verus!
