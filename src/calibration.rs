use vstd::prelude::*;

use crate::spelling::{is_spelling_table, spelling_table, word};
use crate::text::chars_of;

verus! {

/// Why a calibration value could not be read.
#[derive(Debug, Clone, Copy, PartialEq, Eq)]
pub enum CalibrationError {
    /// The line holds no digit, neither written as a character nor spelled out.
    NoDigitFound,
}

/// `c` is one of the characters `'0'` to `'9'`.
pub open spec fn is_digit_char(c: char) -> bool {
    48 <= (c as u32) <= 57
}

/// The value of the digit character `c`.
pub open spec fn digit_value(c: char) -> u8 {
    ((c as u32) - 48) as u8
}

/// The character that writes the digit `d`.
pub open spec fn digit_char(d: u8) -> char {
    ((d + 48) as u8) as char
}

/// The characters `w` stand in `s` from position `i` on.
pub open spec fn occurs_at(s: Seq<char>, i: int, w: Seq<char>) -> bool {
    &&& 0 <= i
    &&& i + w.len() <= s.len()
    &&& s.subrange(i, i + w.len()) == w
}

/// The first digit, from `d` up to nine, whose spelling starts at position `i` of `s`.
pub open spec fn spelled_from(s: Seq<char>, i: int, d: u8) -> Option<u8>
    decreases 10 - d,
{
    if d >= 10 {
        None
    } else if occurs_at(s, i, word(d as nat)) {
        Some(d)
    } else {
        spelled_from(s, i, (d + 1) as u8)
    }
}

/// The digit whose token (a digit character or a spelling) starts at position `i` of `s`.
pub open spec fn digit_at(s: Seq<char>, i: int) -> Option<u8> {
    if 0 <= i < s.len() && is_digit_char(s[i]) {
        Some(digit_value(s[i]))
    } else {
        spelled_from(s, i, 0)
    }
}

/// The digit of the leftmost token of `s` that starts at `i` or later.
pub open spec fn first_digit_from(s: Seq<char>, i: int) -> Option<u8>
    decreases s.len() - i,
{
    if i < 0 || i >= s.len() {
        None
    } else if digit_at(s, i) is Some {
        digit_at(s, i)
    } else {
        first_digit_from(s, i + 1)
    }
}

/// The digit of the rightmost token of `s` that starts before `n`.
pub open spec fn last_digit_before(s: Seq<char>, n: int) -> Option<u8>
    decreases n,
{
    if n <= 0 || n > s.len() {
        None
    } else if digit_at(s, n - 1) is Some {
        digit_at(s, n - 1)
    } else {
        last_digit_before(s, n - 1)
    }
}

/// The digit of the leftmost token of `s`.
pub open spec fn first_digit(s: Seq<char>) -> Option<u8> {
    first_digit_from(s, 0)
}

/// The digit of the rightmost token of `s`.
pub open spec fn last_digit(s: Seq<char>) -> Option<u8> {
    last_digit_before(s, s.len() as int)
}

/// The calibration value of the line `s`: its first digit followed by its last digit,
/// read as a two-digit number; `None` where `s` holds no token.
pub open spec fn line_value(s: Seq<char>) -> Option<nat> {
    match (first_digit(s), last_digit(s)) {
        (Some(a), Some(b)) => Some((10 * a + b) as nat),
        _ => None,
    }
}

/// Whether the word `w` stands in `s` from position `i` on.
fn matches_at(s: &Vec<char>, i: usize, w: &Vec<char>) -> (r: bool)
    ensures
        r == occurs_at(s@, i as int, w@),
{
    if w.len() > s.len() || i > s.len() - w.len() {
        return false;
    }
    let n = s.len();
    let mut k: usize = 0;
    while k < w.len()
        invariant
            k <= w@.len(),
            n == s@.len(),
            i + w@.len() <= s@.len(),
            forall|j: int| 0 <= j < k ==> s@[i + j] == w@[j],
        decreases w.len() - k,
    {
        if s[i + k] != w[k] {
            assert(s@.subrange(i as int, i + w@.len())[k as int] != w@[k as int]);
            return false;
        }
        k = k + 1;
    }
    assert(s@.subrange(i as int, i + w@.len()) =~= w@);
    true
}

/// The digit whose token starts at position `i` of `s`, if any.
fn token_at(s: &Vec<char>, i: usize, table: &Vec<Vec<char>>) -> (r: Option<u8>)
    requires
        i < s@.len(),
        is_spelling_table(table@),
    ensures
        r == digit_at(s@, i as int),
{
    let c = s[i];
    if 48 <= (c as u32) && (c as u32) <= 57 {
        return Some(((c as u32) - 48) as u8);
    }
    let mut d: u8 = 0;
    while d < 10
        invariant
            d <= 10,
            i < s@.len(),
            is_spelling_table(table@),
            spelled_from(s@, i as int, 0) == spelled_from(s@, i as int, d),
        decreases 10 - d,
    {
        if matches_at(s, i, &table[d as usize]) {
            return Some(d);
        }
        d = d + 1;
    }
    None
}

/// The digit of the leftmost token of `s`.
fn leftmost_digit(s: &Vec<char>, table: &Vec<Vec<char>>) -> (r: Option<u8>)
    requires
        is_spelling_table(table@),
    ensures
        r == first_digit(s@),
{
    let mut i: usize = 0;
    while i < s.len()
        invariant
            i <= s@.len(),
            is_spelling_table(table@),
            first_digit(s@) == first_digit_from(s@, i as int),
        decreases s.len() - i,
    {
        let t = token_at(s, i, table);
        if t.is_some() {
            return t;
        }
        i = i + 1;
    }
    None
}

/// The digit of the rightmost token of `s`.
fn rightmost_digit(s: &Vec<char>, table: &Vec<Vec<char>>) -> (r: Option<u8>)
    requires
        is_spelling_table(table@),
    ensures
        r == last_digit(s@),
{
    let mut n: usize = s.len();
    while n > 0
        invariant
            n <= s@.len(),
            is_spelling_table(table@),
            last_digit(s@) == last_digit_before(s@, n as int),
        decreases n,
    {
        let t = token_at(s, n - 1, table);
        if t.is_some() {
            return t;
        }
        n = n - 1;
    }
    None
}

/// Every token stands for a digit from zero to nine.
pub proof fn lemma_token_is_digit(s: Seq<char>, i: int)
    ensures
        digit_at(s, i) matches Some(d) ==> d <= 9,
{
    lemma_spelled_is_digit(s, i, 0);
}

proof fn lemma_spelled_is_digit(s: Seq<char>, i: int, d: u8)
    ensures
        spelled_from(s, i, d) matches Some(e) ==> e <= 9,
    decreases 10 - d,
{
    if d < 10 && !occurs_at(s, i, word(d as nat)) {
        lemma_spelled_is_digit(s, i, (d + 1) as u8);
    }
}

/// The first digit of `s` from `i` on stands for a digit from zero to nine.
proof fn lemma_first_is_digit(s: Seq<char>, i: int)
    ensures
        first_digit_from(s, i) matches Some(d) ==> d <= 9,
    decreases s.len() - i,
{
    lemma_token_is_digit(s, i);
    if 0 <= i < s.len() && digit_at(s, i) is None {
        lemma_first_is_digit(s, i + 1);
    }
}

/// The last digit of `s` before `n` stands for a digit from zero to nine.
proof fn lemma_last_is_digit(s: Seq<char>, n: int)
    ensures
        last_digit_before(s, n) matches Some(d) ==> d <= 9,
    decreases n,
{
    lemma_token_is_digit(s, n - 1);
    if 0 < n <= s.len() && digit_at(s, n - 1) is None {
        lemma_last_is_digit(s, n - 1);
    }
}

/// Finds the first (`start`) or the last digit token of `line` and gives it as a
/// digit character; `None` where the line holds no token.
pub fn find_digit(line: &str, start: bool) -> (r: Option<char>)
    ensures
        ({
            let found = if start {
                first_digit(line@)
            } else {
                last_digit(line@)
            };
            match found {
                Some(d) => r == Some(digit_char(d)),
                None => r is None,
            }
        }),
{
    let s = chars_of(line);
    let table = spelling_table();
    let found = if start {
        leftmost_digit(&s, &table)
    } else {
        rightmost_digit(&s, &table)
    };
    proof {
        lemma_first_is_digit(line@, 0);
        lemma_last_is_digit(line@, line@.len() as int);
    }
    match found {
        Some(d) => Some((d + 48) as char),
        None => None,
    }
}

/// The calibration value of `line`: its first digit token followed by its last,
/// read as a two-digit number.
pub fn parse_line(line: &str) -> (r: Result<u32, CalibrationError>)
    ensures
        match line_value(line@) {
            Some(v) => r == Ok::<u32, CalibrationError>(v as u32),
            None => r == Err::<u32, CalibrationError>(CalibrationError::NoDigitFound),
        },
        r matches Ok(v) ==> v <= 99,
{
    proof {
        lemma_line_value_bound(line@);
    }
    let s = chars_of(line);
    let table = spelling_table();
    let first = leftmost_digit(&s, &table);
    let last = rightmost_digit(&s, &table);
    match (first, last) {
        (Some(a), Some(b)) => Ok(10 * (a as u32) + (b as u32)),
        _ => Err(CalibrationError::NoDigitFound),
    }
}

/// A calibration value has two decimal digits at most.
pub proof fn lemma_line_value_bound(s: Seq<char>)
    ensures
        line_value(s) matches Some(v) ==> v <= 99,
{
    lemma_first_is_digit(s, 0);
    lemma_last_is_digit(s, s.len() as int);
}

/// The characters of each line.
pub open spec fn texts(lines: Seq<String>) -> Seq<Seq<char>> {
    lines.map_values(|l: String| l@)
}

/// The sum of the calibration values of `lines`; `None` where one of them holds no token.
pub open spec fn total_of(lines: Seq<Seq<char>>) -> Option<nat>
    decreases lines.len(),
{
    if lines.len() == 0 {
        Some(0)
    } else {
        match (total_of(lines.drop_last()), line_value(lines.last())) {
            (Some(t), Some(v)) => Some(t + v),
            _ => None,
        }
    }
}

/// The sum of the calibration values of `lines`, taken in order; fails where a
/// line holds no digit token.
pub fn calibration_total(lines: &Vec<String>) -> (r: Result<u128, CalibrationError>)
    ensures
        match total_of(texts(lines@)) {
            Some(t) => r == Ok::<u128, CalibrationError>(t as u128),
            None => r == Err::<u128, CalibrationError>(CalibrationError::NoDigitFound),
        },
{
    let ghost all = texts(lines@);
    let mut sum: u128 = 0;
    let mut k: usize = 0;
    while k < lines.len()
        invariant
            k <= lines@.len(),
            all == texts(lines@),
            total_of(all.take(k as int)) == Some(sum as nat),
            sum <= 99 * k,
        decreases lines.len() - k,
    {
        let v = parse_line(lines[k].as_str());
        proof {
            lemma_line_value_bound(all[k as int]);
            assert(all.take(k + 1).drop_last() =~= all.take(k as int));
        }
        match v {
            Ok(v) => {
                sum = sum + v as u128;
            },
            Err(e) => {
                proof {
                    lemma_no_total_after_failure(all, k + 1);
                }
                return Err(e);
            },
        }
        k = k + 1;
    }
    assert(all.take(lines@.len() as int) =~= all);
    Ok(sum)
}

/// Once a line without a token is met, no longer prefix has a total.
proof fn lemma_no_total_after_failure(lines: Seq<Seq<char>>, n: int)
    requires
        0 < n <= lines.len(),
        total_of(lines.take(n)) is None,
    ensures
        total_of(lines) is None,
    decreases lines.len() - n,
{
    if n < lines.len() {
        assert(lines.take(n + 1).drop_last() =~= lines.take(n));
        lemma_no_total_after_failure(lines, n + 1);
    } else {
        assert(lines.take(n) =~= lines);
    }
}

} // verus!
