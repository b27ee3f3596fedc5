use vstd::prelude::*;

use crate::calibration::{
    digit_at, digit_value, first_digit, first_digit_from, is_digit_char, last_digit,
    last_digit_before, line_value, occurs_at, spelled_from,
};
use crate::spelling::word;

verus! {

/// A token at `i` with none from `j` up to it is the first token from `j` on.
proof fn lemma_first_from(s: Seq<char>, i: int, j: int)
    requires
        0 <= j <= i < s.len(),
        digit_at(s, i) is Some,
        forall|m: int| j <= m < i ==> (#[trigger] digit_at(s, m)) is None,
    ensures
        first_digit_from(s, j) == digit_at(s, i),
    decreases i - j,
{
    if j < i {
        assert(digit_at(s, j) is None);
        lemma_first_from(s, i, j + 1);
    }
}

/// A token at `k` with none after it up to `n` is the last token before `n`.
proof fn lemma_last_before(s: Seq<char>, k: int, n: int)
    requires
        0 <= k < n <= s.len(),
        digit_at(s, k) is Some,
        forall|m: int| k < m < n ==> (#[trigger] digit_at(s, m)) is None,
    ensures
        last_digit_before(s, n) == digit_at(s, k),
    decreases n - k,
{
    if k < n - 1 {
        assert(digit_at(s, n - 1) is None);
        lemma_last_before(s, k, n - 1);
    }
}

/// A token at `i` with none before it gives the first digit.
pub proof fn lemma_first_at(s: Seq<char>, i: int)
    requires
        0 <= i < s.len(),
        digit_at(s, i) is Some,
        forall|j: int| 0 <= j < i ==> (#[trigger] digit_at(s, j)) is None,
    ensures
        first_digit(s) == digit_at(s, i),
{
    lemma_first_from(s, i, 0);
}

/// A token at `k` with none after it gives the last digit.
pub proof fn lemma_last_at(s: Seq<char>, k: int)
    requires
        0 <= k < s.len(),
        digit_at(s, k) is Some,
        forall|j: int| k < j < s.len() ==> (#[trigger] digit_at(s, j)) is None,
    ensures
        last_digit(s) == digit_at(s, k),
{
    lemma_last_before(s, k, s.len() as int);
}

/// Where no spelling starts at `i`, only a digit character there is a token.
proof fn lemma_unspelled(s: Seq<char>, i: int, d: u8)
    requires
        forall|e: nat| e <= 9 ==> !#[trigger] occurs_at(s, i, word(e)),
    ensures
        spelled_from(s, i, d) is None,
    decreases 10 - d,
{
    if d < 10 {
        assert(!occurs_at(s, i, word(d as nat)));
        lemma_unspelled(s, i, (d + 1) as u8);
    }
}

/// Holds of every line whose tokens are all digit characters: its calibration value
/// joins the first and the last digit character that a plain scan finds.
pub proof fn law_literal_digits(s: Seq<char>, i: int, k: int)
    requires
        0 <= i <= k < s.len(),
        is_digit_char(s[i]),
        is_digit_char(s[k]),
        forall|j: int| 0 <= j < i ==> !is_digit_char(#[trigger] s[j]),
        forall|j: int| k < j < s.len() ==> !is_digit_char(#[trigger] s[j]),
        forall|j: int, e: nat| e <= 9 ==> !#[trigger] occurs_at(s, j, word(e)),
    ensures
        line_value(s) == Some((10 * digit_value(s[i]) + digit_value(s[k])) as nat),
{
    assert forall|j: int| 0 <= j < i || k < j < s.len() implies (#[trigger] digit_at(s, j)) is None by {
        lemma_unspelled(s, j, 0);
    }
    lemma_first_at(s, i);
    lemma_last_at(s, k);
}

/// A line with exactly one token takes that token's digit twice.
pub proof fn law_single_token(s: Seq<char>, i: int)
    requires
        0 <= i < s.len(),
        digit_at(s, i) is Some,
        forall|j: int| 0 <= j < s.len() && j != i ==> (#[trigger] digit_at(s, j)) is None,
    ensures
        first_digit(s) == last_digit(s),
        line_value(s) == Some((11 * digit_at(s, i)->0) as nat),
{
    lemma_first_at(s, i);
    lemma_last_at(s, i);
}

/// The characters of an occurrence, one by one.
proof fn lemma_occurs_chars(s: Seq<char>, i: int, w: Seq<char>)
    requires
        occurs_at(s, i, w),
    ensures
        forall|j: int| 0 <= j < w.len() ==> #[trigger] s[i + j] == w[j],
{
    assert forall|j: int| 0 <= j < w.len() implies #[trigger] s[i + j] == w[j] by {
        assert(s.subrange(i, i + w.len())[j] == s[i + j]);
    }
}

/// The spelling of `d` at `i`, with none of the spellings from `e` up to `d` there,
/// is what the search from `e` finds.
proof fn lemma_spelled_finds(s: Seq<char>, i: int, e: u8, d: u8)
    requires
        e <= d <= 9,
        occurs_at(s, i, word(d as nat)),
        forall|f: nat| e <= f < d ==> !#[trigger] occurs_at(s, i, word(f)),
    ensures
        spelled_from(s, i, e) == Some(d),
    decreases d - e,
{
    if e < d {
        assert(!occurs_at(s, i, word(e as nat)));
        lemma_spelled_finds(s, i, (e + 1) as u8, d);
    }
}

/// Every occurrence of a spelling is found as a token, whatever stands around it:
/// no two spellings start alike.
pub proof fn lemma_word_detected(s: Seq<char>, i: int, d: u8)
    requires
        d <= 9,
        occurs_at(s, i, word(d as nat)),
    ensures
        digit_at(s, i) == Some(d),
{
    let w = word(d as nat);
    lemma_occurs_chars(s, i, w);
    assert(s[i + 0] == w[0]);
    assert(s[i + 1] == w[1]);
    assert forall|f: nat| f <= 9 && f != d implies !#[trigger] occurs_at(s, i, word(f)) by {
        if occurs_at(s, i, word(f)) {
            lemma_occurs_chars(s, i, word(f));
            assert(s[i + 0] == word(f)[0]);
            assert(s[i + 1] == word(f)[1]);
        }
    }
    lemma_spelled_finds(s, i, 0, d);
}

/// No token starts inside a spelling that ends the line: no spelling holds a digit
/// character, nor another spelling past its first letter.
proof fn lemma_nothing_after_word(s: Seq<char>, k: int, b: u8)
    requires
        b <= 9,
        occurs_at(s, k, word(b as nat)),
        k + word(b as nat).len() == s.len(),
    ensures
        forall|j: int| k < j < s.len() ==> (#[trigger] digit_at(s, j)) is None,
{
    let w = word(b as nat);
    lemma_occurs_chars(s, k, w);
    assert forall|j: int| k < j < s.len() implies (#[trigger] digit_at(s, j)) is None by {
        assert(s[k + (j - k)] == w[j - k]);
        assert forall|e: nat| e <= 9 implies !#[trigger] occurs_at(s, j, word(e)) by {
            if occurs_at(s, j, word(e)) {
                lemma_occurs_chars(s, j, word(e));
                assert(s[j + 0] == word(e)[0]);
                assert(s[j + 1] == word(e)[1]);
                assert(s[k + (j + 1 - k)] == w[j + 1 - k]);
            }
        }
        lemma_unspelled(s, j, 0);
    }
}

/// Two spellings that share a letter where they meet ("eightwo", "twone", "oneight")
/// are both found: the line's calibration value joins the two digits.
pub proof fn law_overlapping_words(a: u8, b: u8)
    requires
        a <= 9,
        b <= 9,
        word(a as nat).last() == word(b as nat)[0],
    ensures
        line_value(word(a as nat) + word(b as nat).drop_first()) == Some((10 * a + b) as nat),
{
    let wa = word(a as nat);
    let wb = word(b as nat);
    let s = wa + wb.drop_first();
    let k = wa.len() - 1;
    assert(s.subrange(0, wa.len() as int) =~= wa);
    assert(s.subrange(k, k + wb.len()) =~= wb);
    lemma_word_detected(s, 0, a);
    lemma_word_detected(s, k, b);
    lemma_first_at(s, 0);
    lemma_nothing_after_word(s, k, b);
    lemma_last_at(s, k);
}

} // verus!
