//! Equations written as text: `A + B -> C + D` (or `=>`), each side a list of
//! formulas separated by `+`.
use vstd::prelude::*;

use crate::balance::{balance, balance_rows, AtomBalance};
use crate::err::StoikError;
use crate::formula::molecule::parsed;
use crate::formula::tokenstream::{chars_of, is_digit, is_space, run_end, space_char, CharClass};
use crate::formula::Molecule;

verus! {

/// The first arrow (`->` or `=>`) of `s` at or after `i`.
pub open spec fn arrow_from(s: Seq<char>, i: int) -> Option<int>
    decreases s.len() - i,
{
    if i < 0 || i + 1 >= s.len() {
        None
    } else if (s[i] == '-' || s[i] == '=') && s[i + 1] == '>' {
        Some(i)
    } else {
        arrow_from(s, i + 1)
    }
}

/// The first `+` of `s` at or after `i` and before `end`, else `end`.
pub open spec fn plus_at(s: Seq<char>, i: int, end: int) -> int
    decreases end - i,
{
    if i < 0 || i >= end {
        end
    } else if s[i] == '+' {
        i
    } else {
        plus_at(s, i + 1, end)
    }
}

/// The start of `s[a..end]` without its leading whitespace.
pub open spec fn trim_lo(s: Seq<char>, a: int, end: int) -> int
    decreases end - a,
{
    if 0 <= a < end && space_char(s[a]) {
        trim_lo(s, a + 1, end)
    } else {
        a
    }
}

/// The end of `s[lo..b]` without its trailing whitespace.
pub open spec fn trim_hi(s: Seq<char>, lo: int, b: int) -> int
    decreases b - lo,
{
    if lo < b && space_char(s[b - 1]) {
        trim_hi(s, lo, b - 1)
    } else {
        b
    }
}

/// `s[a..b]` without leading or trailing whitespace.
pub open spec fn trimmed(s: Seq<char>, a: int, b: int) -> Seq<char> {
    let lo = trim_lo(s, a, b);
    s.subrange(lo, trim_hi(s, lo, b))
}

/// The trimmed pieces of `s[p..end]` between the `+` signs.
pub open spec fn terms(s: Seq<char>, p: int, end: int) -> Seq<Seq<char>>
    decreases end - p + 1,
{
    if p < 0 || p > end {
        Seq::empty()
    } else {
        let k = plus_at(s, p, end);
        if p <= k < end {
            seq![trimmed(s, p, k)] + terms(s, k + 1, end)
        } else {
            seq![trimmed(s, p, end)]
        }
    }
}

pub open spec fn strings_view(v: Seq<String>) -> Seq<Seq<char>> {
    v.map_values(|s: String| s@)
}

/// The trimmed text of `chars[a..b]`, as a string.
fn trimmed_piece(text: &str, chars: &Vec<char>, a: usize, b: usize) -> (r: String)
    requires
        chars@ == text@,
        a <= b <= chars.len(),
    ensures
        r@ == trimmed(text@, a as int, b as int),
{
    let ghost s = text@;
    let mut lo = a;
    while lo < b && is_space(chars[lo])
        invariant
            chars@ == s,
            a <= lo <= b <= s.len(),
            trim_lo(s, a as int, b as int) == trim_lo(s, lo as int, b as int),
        decreases b - lo,
    {
        lo = lo + 1;
    }
    let mut hi = b;
    while hi > lo && is_space(chars[hi - 1])
        invariant
            chars@ == s,
            lo <= hi <= b <= s.len(),
            lo == trim_lo(s, a as int, b as int),
            trim_hi(s, lo as int, b as int) == trim_hi(s, lo as int, hi as int),
        decreases hi - lo,
    {
        hi = hi - 1;
    }
    String::from_str(text.substring_char(lo, hi))
}

/// The terms of `text[start..end]`, split at each `+` and trimmed.
fn split_terms(text: &str, chars: &Vec<char>, start: usize, end: usize) -> (r: Vec<String>)
    requires
        chars@ == text@,
        start <= end <= chars.len(),
    ensures
        strings_view(r@) == terms(text@, start as int, end as int),
{
    let ghost s = text@;
    let mut out: Vec<String> = Vec::new();
    let mut p = start;
    loop
        invariant_except_break
            strings_view(out@) + terms(s, p as int, end as int) == terms(s, start as int, end as int),
        invariant
            chars@ == s,
            s == text@,
            start <= p <= end <= s.len(),
        ensures
            strings_view(out@) == terms(s, start as int, end as int),
        decreases end - p,
    {
        let mut k = p;
        while k < end && chars[k] != '+'
            invariant
                chars@ == s,
                p <= k <= end <= s.len(),
                plus_at(s, p as int, end as int) == plus_at(s, k as int, end as int),
            decreases end - k,
        {
            k = k + 1;
        }
        let piece = trimmed_piece(text, chars, p, k);
        let ghost before = strings_view(out@);
        out.push(piece);
        proof {
            assert(strings_view(out@) =~= before.push(trimmed(s, p as int, k as int)));
        }
        if k < end {
            proof {
                assert(strings_view(out@) + terms(s, k + 1, end as int) =~= before + terms(
                    s,
                    p as int,
                    end as int,
                ));
            }
            p = k + 1;
        } else {
            proof {
                assert(strings_view(out@) =~= before + terms(s, p as int, end as int));
            }
            break ;
        }
    }
    out
}

/// Splits an equation at its first arrow (`->` or `=>`) into the formulas of
/// its two sides; `None` where it has no arrow.
pub fn split_equation(text: &str) -> (r: Option<(Vec<String>, Vec<String>)>)
    ensures
        match arrow_from(text@, 0) {
            None => r is None,
            Some(i) => r matches Some((lhs, rhs)) && strings_view(lhs@) == terms(text@, 0, i)
                && strings_view(rhs@) == terms(text@, i + 2, text@.len() as int),
        },
{
    let ghost s = text@;
    let chars = chars_of(text);
    let n = chars.len();
    let mut i: usize = 0;
    while i < n && !(i + 1 < n && (chars[i] == '-' || chars[i] == '=') && chars[i + 1] == '>')
        invariant
            chars@ == s,
            n == s.len(),
            i <= n,
            arrow_from(s, 0) == arrow_from(s, i as int),
        decreases n - i,
    {
        i = i + 1;
    }
    if i >= n {
        return None;
    }
    let lhs = split_terms(text, &chars, 0, i);
    let rhs = split_terms(text, &chars, i + 2, n);
    Some((lhs, rhs))
}

/// Reading the formula `f` succeeds.
pub open spec fn readable(f: Seq<char>) -> bool {
    exists|m: Molecule| parsed(f, Ok(m))
}

/// Reads each formula of one side, stopping at the first that fails, with
/// its index.
pub fn parse_terms(formulas: &Vec<String>) -> (r: Result<Vec<Molecule>, (usize, StoikError)>)
    ensures
        match r {
            Ok(ms) => ms.len() == formulas.len() && forall|k: int|
                0 <= k < ms.len() ==> parsed(#[trigger] formulas@[k]@, Ok(ms@[k])),
            Err((k, e)) => k < formulas.len() && parsed(formulas@[k as int]@, Err(e)) && forall|
                j: int,
            |
                0 <= j < k ==> #[trigger] readable(formulas@[j]@),
        },
{
    let mut out: Vec<Molecule> = Vec::new();
    let n = formulas.len();
    let mut k: usize = 0;
    while k < n
        invariant
            n == formulas.len(),
            k <= n,
            out.len() == k,
            forall|j: int| 0 <= j < k ==> parsed(#[trigger] formulas@[j]@, Ok(out@[j])),
        decreases n - k,
    {
        match Molecule::from_formula(formulas[k].as_str()) {
            Ok(m) => {
                out.push(m);
            },
            Err(e) => {
                assert(formulas[k as int]@ == formulas@[k as int]@);
                assert(parsed(formulas@[k as int]@, Err(e)));
                assert forall|j: int| 0 <= j < k implies #[trigger] readable(formulas@[j]@) by {
                    assert(parsed(formulas@[j]@, Ok(out@[j])));
                }
                return Err((k, e));
            },
        }
        k = k + 1;
    }
    Ok(out)
}

/// The subscript form of a decimal digit; any other character as it is.
pub open spec fn subscript(c: char) -> char {
    if c == '0' {
        '\u{2080}'
    } else if c == '1' {
        '\u{2081}'
    } else if c == '2' {
        '\u{2082}'
    } else if c == '3' {
        '\u{2083}'
    } else if c == '4' {
        '\u{2084}'
    } else if c == '5' {
        '\u{2085}'
    } else if c == '6' {
        '\u{2086}'
    } else if c == '7' {
        '\u{2087}'
    } else if c == '8' {
        '\u{2088}'
    } else if c == '9' {
        '\u{2089}'
    } else {
        c
    }
}

/// A formula for display: trimmed, its leading digits (the mole count) as
/// they are, and every later digit as a subscript.
pub open spec fn subscripted(s: Seq<char>) -> Seq<char> {
    let t = trimmed(s, 0, s.len() as int);
    let k = run_end(t, 0, CharClass::Digit);
    t.subrange(0, k) + t.subrange(k, t.len() as int).map_values(|c: char| subscript(c))
}

fn append_subscript(out: &mut String, c: char)
    requires
        is_digit(c),
    ensures
        final(out)@ == old(out)@ + seq![subscript(c)],
{
    proof {
        reveal_strlit("\u{2080}");
        reveal_strlit("\u{2081}");
        reveal_strlit("\u{2082}");
        reveal_strlit("\u{2083}");
        reveal_strlit("\u{2084}");
        reveal_strlit("\u{2085}");
        reveal_strlit("\u{2086}");
        reveal_strlit("\u{2087}");
        reveal_strlit("\u{2088}");
        reveal_strlit("\u{2089}");
    }
    let s = if c == '0' {
        "\u{2080}"
    } else if c == '1' {
        "\u{2081}"
    } else if c == '2' {
        "\u{2082}"
    } else if c == '3' {
        "\u{2083}"
    } else if c == '4' {
        "\u{2084}"
    } else if c == '5' {
        "\u{2085}"
    } else if c == '6' {
        "\u{2086}"
    } else if c == '7' {
        "\u{2087}"
    } else if c == '8' {
        "\u{2088}"
    } else {
        "\u{2089}"
    };
    assert(s@ =~= seq![subscript(c)]);
    out.append(s);
}

/// Writes a formula for display, with the digits after the mole count as
/// subscripts: `2H2O` becomes `2H\u{2082}O`.
pub fn format_formula(formula: &str) -> (r: String)
    ensures
        r@ == subscripted(formula@),
{
    let all = chars_of(formula);
    let trimmed_text = trimmed_piece(formula, &all, 0, all.len());
    let ghost t = trimmed_text@;
    let chars = chars_of(trimmed_text.as_str());
    let n = chars.len();
    let mut k: usize = 0;
    while k < n && '0' <= chars[k] && chars[k] <= '9'
        invariant
            chars@ == t,
            n == t.len(),
            k <= n,
            run_end(t, 0, CharClass::Digit) == run_end(t, k as int, CharClass::Digit),
        decreases n - k,
    {
        k = k + 1;
    }
    let mut out = String::from_str(trimmed_text.as_str().substring_char(0, k));
    let mut i = k;
    while i < n
        invariant
            chars@ == t,
            n == t.len(),
            k <= i <= n,
            trimmed_text@ == t,
            k == run_end(t, 0, CharClass::Digit),
            out@ == t.subrange(0, k as int) + t.subrange(k as int, i as int).map_values(
                |c: char| subscript(c),
            ),
        decreases n - i,
    {
        let c = chars[i];
        if '0' <= c && c <= '9' {
            append_subscript(&mut out, c);
        } else {
            out.append(trimmed_text.as_str().substring_char(i, i + 1));
            assert(subscript(c) == c);
        }
        assert(t.subrange(k as int, i + 1).map_values(|c: char| subscript(c)) =~= t.subrange(
            k as int,
            i as int,
        ).map_values(|c: char| subscript(c)).push(subscript(t[i as int])));
        i = i + 1;
    }
    assert(out@ =~= subscripted(formula@));
    out
}

/// Why an equation could not be checked.
#[derive(Debug)]
pub enum EquationError {
    /// The text has no arrow between reactants and products
    NoArrow,
    /// A formula of the equation, and why it could not be read
    Formula(String, StoikError),
}

/// The molecules `ms` are what reading the formulas `fs` gives.
pub open spec fn read_all(fs: Seq<Seq<char>>, ms: Seq<Molecule>) -> bool {
    &&& ms.len() == fs.len()
    &&& forall|k: int| 0 <= k < ms.len() ==> parsed(#[trigger] fs[k], Ok(ms[k]))
}

/// The formula at `k` of `fs` is the first that cannot be read, and reading it
/// gives `e`.
pub open spec fn first_failure(fs: Seq<Seq<char>>, k: int, e: StoikError) -> bool {
    &&& 0 <= k < fs.len()
    &&& parsed(fs[k], Err(e))
    &&& forall|j: int| 0 <= j < k ==> #[trigger] readable(fs[j])
}

/// A formula of `lhs`, or of `rhs` where every formula of `lhs` can be read,
/// is the first that cannot be read, with text `f` and error `e`.
pub open spec fn failed_at(lhs: Seq<Seq<char>>, rhs: Seq<Seq<char>>, f: Seq<char>, e: StoikError) -> bool {
    ||| exists|k: int| first_failure(lhs, k, e) && f == lhs[k]
    ||| (forall|j: int| 0 <= j < lhs.len() ==> #[trigger] readable(lhs[j])) && exists|k: int|
        first_failure(rhs, k, e) && f == rhs[k]
}

/// What checking the equation `text` returns.
pub open spec fn checked(text: Seq<char>, r: Result<Vec<AtomBalance>, EquationError>) -> bool {
    match arrow_from(text, 0) {
        None => r matches Err(EquationError::NoArrow),
        Some(i) => {
            let lhs = terms(text, 0, i);
            let rhs = terms(text, i + 2, text.len() as int);
            match r {
                Ok(rows) => exists|ml: Seq<Molecule>, mr: Seq<Molecule>|
                    read_all(lhs, ml) && read_all(rhs, mr) && balance_rows(rows@, ml, mr),
                Err(EquationError::Formula(f, e)) => failed_at(lhs, rhs, f@, e),
                Err(EquationError::NoArrow) => false,
            }
        },
    }
}

/// Checks an equation written as text: splits it at its arrow, reads every
/// formula, reactants first, and compares the atom totals of the two sides.
pub fn check_equation(text: &str) -> (r: Result<Vec<AtomBalance>, EquationError>)
    ensures
        checked(text@, r),
{
    match split_equation(text) {
        None => Err(EquationError::NoArrow),
        Some((lhs, rhs)) => {
            let left = match parse_terms(&lhs) {
                Ok(ms) => ms,
                Err((k, e)) => {
                    let ghost fs = strings_view(lhs@);
                    assert(fs[k as int] == lhs@[k as int]@);
                    assert(first_failure(fs, k as int, e));
                    let f = lhs[k].clone();
                    assert(failed_at(fs, strings_view(rhs@), f@, e));
                    return Err(EquationError::Formula(f, e));
                },
            };
            let right = match parse_terms(&rhs) {
                Ok(ms) => ms,
                Err((k, e)) => {
                    let ghost fs = strings_view(rhs@);
                    assert(fs[k as int] == rhs@[k as int]@);
                    assert(first_failure(fs, k as int, e));
                    proof {
                        let ls = strings_view(lhs@);
                        assert forall|j: int| 0 <= j < ls.len() implies #[trigger] readable(ls[j]) by {
                            assert(parsed(lhs@[j]@, Ok(left@[j])));
                        }
                    }
                    let f = rhs[k].clone();
                    assert(failed_at(strings_view(lhs@), fs, f@, e));
                    return Err(EquationError::Formula(f, e));
                },
            };
            proof {
                assert forall|k: int| 0 <= k < left.len() implies #[trigger] left@[k].wf() by {
                    assert(parsed(lhs@[k]@, Ok(left@[k])));
                }
                assert forall|k: int| 0 <= k < right.len() implies #[trigger] right@[k].wf() by {
                    assert(parsed(rhs@[k]@, Ok(right@[k])));
                }
            }
            let rows = balance(&left, &right);
            proof {
                let ls = strings_view(lhs@);
                let rs = strings_view(rhs@);
                assert forall|k: int| 0 <= k < left.len() implies parsed(#[trigger] ls[k], Ok(left@[k])) by {
                    assert(parsed(lhs@[k]@, Ok(left@[k])));
                }
                assert forall|k: int| 0 <= k < right.len() implies parsed(#[trigger] rs[k], Ok(right@[k])) by {
                    assert(parsed(rhs@[k]@, Ok(right@[k])));
                }
                assert(read_all(ls, left@) && read_all(rs, right@) && balance_rows(rows@, left@, right@));
                assert(exists|ml: Seq<Molecule>, mr: Seq<Molecule>|
                    read_all(ls, ml) && read_all(rs, mr) && balance_rows(rows@, ml, mr));
                let i = arrow_from(text@, 0)->Some_0;
                assert(arrow_from(text@, 0) == Some(i));
                assert(ls == terms(text@, 0, i));
                assert(rs == terms(text@, i + 2, text@.len() as int));
                let r: Result<Vec<AtomBalance>, EquationError> = Ok(rows);
                assert(r matches Ok(rr) && rr@ == rows@);
                assert(checked(text@, r));
            }
            Ok(rows)
        },
    }
}

} // verus!
