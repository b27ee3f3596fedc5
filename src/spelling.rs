use vstd::prelude::*;

verus! {

/// The English spelling of the digit `d`, for `d` in `0..=9`.
pub open spec fn word(d: nat) -> Seq<char> {
    if d == 0 {
        seq!['z', 'e', 'r', 'o']
    } else if d == 1 {
        seq!['o', 'n', 'e']
    } else if d == 2 {
        seq!['t', 'w', 'o']
    } else if d == 3 {
        seq!['t', 'h', 'r', 'e', 'e']
    } else if d == 4 {
        seq!['f', 'o', 'u', 'r']
    } else if d == 5 {
        seq!['f', 'i', 'v', 'e']
    } else if d == 6 {
        seq!['s', 'i', 'x']
    } else if d == 7 {
        seq!['s', 'e', 'v', 'e', 'n']
    } else if d == 8 {
        seq!['e', 'i', 'g', 'h', 't']
    } else {
        seq!['n', 'i', 'n', 'e']
    }
}

/// The spelling of digit `d` as a vector of characters.
pub fn spelling(d: u8) -> (r: Vec<char>)
    requires
        d <= 9,
    ensures
        r@ == word(d as nat),
{
    if d == 0 {
        vec!['z', 'e', 'r', 'o']
    } else if d == 1 {
        vec!['o', 'n', 'e']
    } else if d == 2 {
        vec!['t', 'w', 'o']
    } else if d == 3 {
        vec!['t', 'h', 'r', 'e', 'e']
    } else if d == 4 {
        vec!['f', 'o', 'u', 'r']
    } else if d == 5 {
        vec!['f', 'i', 'v', 'e']
    } else if d == 6 {
        vec!['s', 'i', 'x']
    } else if d == 7 {
        vec!['s', 'e', 'v', 'e', 'n']
    } else if d == 8 {
        vec!['e', 'i', 'g', 'h', 't']
    } else {
        vec!['n', 'i', 'n', 'e']
    }
}

/// `table` holds the spelling of each digit, indexed by the digit.
pub open spec fn is_spelling_table(table: Seq<Vec<char>>) -> bool {
    &&& table.len() == 10
    &&& forall|d: int| 0 <= d < 10 ==> (#[trigger] table[d])@ == word(d as nat)
}

/// The spellings of all ten digits, built once for a search.
pub fn spelling_table() -> (r: Vec<Vec<char>>)
    ensures
        is_spelling_table(r@),
{
    let mut table: Vec<Vec<char>> = Vec::new();
    let mut d: u8 = 0;
    while d < 10
        invariant
            d <= 10,
            table@.len() == d,
            forall|e: int| 0 <= e < d ==> (#[trigger] table@[e])@ == word(e as nat),
        decreases 10 - d,
    {
        table.push(spelling(d));
        d = d + 1;
    }
    table
}

} // verus!
