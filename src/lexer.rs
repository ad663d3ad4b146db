use vstd::prelude::*;
use crate::utils::{decimal_digit, is_digit, is_separator, separator};

verus! {

/// The characters `start..end` of the input that make up one number.
#[derive(Debug, Copy, Clone, PartialEq, Eq, Structural)]
pub struct Span {
    pub start: usize,
    pub end: usize,
}

/// The first position at or after `pos` that does not hold a separator.
pub open spec fn skip_end(s: Seq<char>, pos: int) -> int
    decreases s.len() - pos,
{
    if 0 <= pos < s.len() && separator(s[pos]) {
        skip_end(s, pos + 1)
    } else {
        pos
    }
}

/// The end of the digits and the single decimal point that extend a number
/// from `i` on, where `seen_point` tells whether its point came already.
pub open spec fn body_end(s: Seq<char>, i: int, seen_point: bool) -> int
    decreases s.len() - i,
{
    if 0 <= i < s.len() && (decimal_digit(s[i]) || (s[i] == '.' && !seen_point)) {
        body_end(s, i + 1, seen_point || s[i] == '.')
    } else {
        i
    }
}

/// The end of the number text that starts at `p`: an optional leading sign,
/// then digits with at most one decimal point.
pub open spec fn token_end(s: Seq<char>, p: int) -> int {
    if 0 <= p < s.len() && (s[p] == '+' || s[p] == '-') {
        body_end(s, p + 1, false)
    } else {
        body_end(s, p, false)
    }
}

pub open spec fn has_digit(s: Seq<char>, a: int, b: int) -> bool {
    exists|i: int| a <= i < b && decimal_digit(#[trigger] s[i])
}

/// The number that follows `pos` after any separators; there is none where
/// its text holds no digit.
pub open spec fn number_at(s: Seq<char>, pos: int) -> Option<Span> {
    let p = skip_end(s, pos);
    let e = token_end(s, p);
    if has_digit(s, p, e) {
        Some(Span { start: p as usize, end: e as usize })
    } else {
        None
    }
}

pub proof fn lemma_skip_end_bounds(s: Seq<char>, pos: int)
    requires
        0 <= pos <= s.len(),
    ensures
        pos <= skip_end(s, pos) <= s.len(),
        forall|i: int| pos <= i < skip_end(s, pos) ==> separator(#[trigger] s[i]),
        skip_end(s, pos) < s.len() ==> !separator(s[skip_end(s, pos)]),
    decreases s.len() - pos,
{
    if pos < s.len() && separator(s[pos]) {
        lemma_skip_end_bounds(s, pos + 1);
    }
}

pub proof fn lemma_body_end_bounds(s: Seq<char>, i: int, seen_point: bool)
    requires
        0 <= i <= s.len(),
    ensures
        i <= body_end(s, i, seen_point) <= s.len(),
    decreases s.len() - i,
{
    if 0 <= i < s.len() && (decimal_digit(s[i]) || (s[i] == '.' && !seen_point)) {
        lemma_body_end_bounds(s, i + 1, seen_point || s[i] == '.');
    }
}

/// A number read from text always lies within the text and is not empty.
pub proof fn lemma_number_at_bounds(s: Seq<char>, pos: int)
    requires
        0 <= pos <= s.len() <= usize::MAX,
    ensures
        number_at(s, pos) matches Some(sp) ==> pos <= sp.start < sp.end <= s.len(),
{
    lemma_skip_end_bounds(s, pos);
    let p = skip_end(s, pos);
    if 0 <= p < s.len() && (s[p] == '+' || s[p] == '-') {
        lemma_body_end_bounds(s, p + 1, false);
    } else {
        lemma_body_end_bounds(s, p, false);
    }
    if has_digit(s, p, token_end(s, p)) {
        let i = choose|i: int| p <= i < token_end(s, p) && decimal_digit(#[trigger] s[i]);
        assert(p < token_end(s, p));
    }
}

/// Skips the separators from `pos` on.
pub fn skip_separators(s: &Vec<char>, pos: usize) -> (r: usize)
    requires
        pos <= s.len(),
    ensures
        r == skip_end(s@, pos as int),
        pos <= r <= s.len(),
{
    proof {
        lemma_skip_end_bounds(s@, pos as int);
    }
    let mut i: usize = pos;
    while i < s.len() && is_separator(s[i])
        invariant
            pos <= i <= s.len(),
            skip_end(s@, pos as int) == skip_end(s@, i as int),
        decreases s.len() - i,
    {
        i = i + 1;
    }
    i
}

/// Reads the number that follows `pos` after any separators, if one does.
pub fn scan_number(s: &Vec<char>, pos: usize) -> (r: Option<Span>)
    requires
        pos <= s.len(),
    ensures
        r == number_at(s@, pos as int),
        r matches Some(sp) ==> pos <= sp.start < sp.end <= s.len(),
{
    proof {
        lemma_number_at_bounds(s@, pos as int);
    }
    let p = skip_separators(s, pos);
    let mut i: usize = p;
    if i < s.len() && (s[i] == '+' || s[i] == '-') {
        i = i + 1;
    }
    let body = i;
    let mut seen_point = false;
    let mut digit = false;
    while i < s.len() && (is_digit(s[i]) || (s[i] == '.' && !seen_point))
        invariant
            p <= body <= i <= s.len(),
            token_end(s@, p as int) == body_end(s@, i as int, seen_point),
            digit == has_digit(s@, p as int, i as int),
            body == p || (body == p + 1 && !decimal_digit(s@[p as int])),
        decreases s.len() - i,
    {
        if is_digit(s[i]) {
            digit = true;
        } else {
            seen_point = true;
        }
        i = i + 1;
        proof {
            if !digit {
                assert forall|j: int| p <= j < i implies !decimal_digit(#[trigger] s@[j]) by {
                    if j < i - 1 {
                        assert(!has_digit(s@, p as int, (i - 1) as int));
                    }
                }
            }
        }
    }
    if digit {
        Some(Span { start: p, end: i })
    } else {
        None
    }
}

pub open spec fn nonzero_digit(c: char) -> bool {
    '1' <= c && c <= '9'
}

/// The number text `a..b` has the value zero: no digit in it is other than `0`.
pub open spec fn zero_text(s: Seq<char>, a: int, b: int) -> bool {
    forall|i: int| a <= i < b ==> !nonzero_digit(#[trigger] s[i])
}

/// The number text `a..b` has the value one: it has no minus sign, and its one
/// digit other than `0` is a `1` that ends the part before the decimal point.
pub open spec fn one_text(s: Seq<char>, a: int, b: int) -> bool {
    &&& s[a] != '-'
    &&& exists|k: int|
        #![trigger s[k]]
        a <= k < b && s[k] == '1' && (forall|i: int|
            a <= i < b && i != k ==> !nonzero_digit(#[trigger] s[i])) && (forall|i: int|
            a <= i < k ==> #[trigger] s[i] != '.') && (k + 1 == b || s[k + 1] == '.')
}

/// The value of an arc flag written as a number: `false` for zero, `true`
/// for one, and none for any other value.
pub open spec fn flag_of(s: Seq<char>, sp: Span) -> Option<bool> {
    if zero_text(s, sp.start as int, sp.end as int) {
        Some(false)
    } else if one_text(s, sp.start as int, sp.end as int) {
        Some(true)
    } else {
        None
    }
}

fn is_nonzero_digit(c: char) -> (r: bool)
    ensures
        r == nonzero_digit(c),
{
    '1' <= c && c <= '9'
}

/// Reads an arc flag from the text of a number.
pub fn flag_value(s: &Vec<char>, sp: Span) -> (r: Option<bool>)
    requires
        sp.start < sp.end <= s.len(),
    ensures
        r == flag_of(s@, sp),
{
    let a = sp.start;
    let b = sp.end;
    let mut k: usize = a;
    let mut point = false;
    while k < b && !is_nonzero_digit(s[k])
        invariant
            a <= k <= b <= s.len(),
            forall|i: int| a <= i < k ==> !nonzero_digit(#[trigger] s@[i]),
            point == (exists|i: int| a <= i < k && #[trigger] s@[i] == '.'),
        decreases b - k,
    {
        if s[k] == '.' {
            point = true;
        }
        k = k + 1;
    }
    if k == b {
        return Some(false);
    }
    assert(!zero_text(s@, a as int, b as int)) by {
        assert(nonzero_digit(s@[k as int]));
    }
    let mut j: usize = k + 1;
    while j < b && !is_nonzero_digit(s[j])
        invariant
            k < j <= b <= s.len(),
            forall|i: int| k < i < j ==> !nonzero_digit(#[trigger] s@[i]),
        decreases b - j,
    {
        j = j + 1;
    }
    let one = s[a] != '-' && s[k] == '1' && !point && (k + 1 == b || s[k + 1] == '.') && j == b;
    proof {
        let t = s@;
        if one {
            assert(forall|i: int| a <= i < b && i != k ==> !nonzero_digit(#[trigger] t[i]));
            assert(forall|i: int| a <= i < k ==> #[trigger] t[i] != '.');
            assert(t[k as int] == '1');
            assert(one_text(t, a as int, b as int));
        } else if one_text(t, a as int, b as int) {
            let w = choose|w: int|
                #![trigger t[w]]
                a <= w < b && t[w] == '1' && (forall|i: int|
                    a <= i < b && i != w ==> !nonzero_digit(#[trigger] t[i])) && (forall|i: int|
                    a <= i < w ==> #[trigger] t[i] != '.') && (w + 1 == b || t[w + 1] == '.');
            assert(nonzero_digit(t[w]));
            assert(w == k);
            if point {
                let i = choose|i: int| a <= i < k && #[trigger] t[i] == '.';
                assert(t[i] != '.');
            }
            if j < b {
                assert(nonzero_digit(t[j as int]));
            }
        }
    }
    if one {
        Some(true)
    } else {
        None
    }
}

} // verus!
