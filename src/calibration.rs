//! Calibration lines: each line hides a two-digit number made of its first
//! and last digit, written as a numeral or spelled out.
use vstd::prelude::*;
use vstd::string::StringSliceAdditionalSpecFns;

use crate::text::{
    chars_of, digit_value, is_digit, is_word, lines_of, split_lines,
    string_of_range,
};

verus! {

/// A digit found in a line: where it starts and its value.
#[derive(Debug, Clone, Copy, PartialEq, Eq, Structural)]
pub struct Digit {
    pub index: usize,
    pub value: i32,
}

/// The `k`-th digit word: the numerals `1` to `9`, then `one` to `nine`.
pub open spec fn digit_word(k: int) -> Seq<char> {
    if k == 0 {
        seq!['1']
    } else if k == 1 {
        seq!['2']
    } else if k == 2 {
        seq!['3']
    } else if k == 3 {
        seq!['4']
    } else if k == 4 {
        seq!['5']
    } else if k == 5 {
        seq!['6']
    } else if k == 6 {
        seq!['7']
    } else if k == 7 {
        seq!['8']
    } else if k == 8 {
        seq!['9']
    } else if k == 9 {
        seq!['o', 'n', 'e']
    } else if k == 10 {
        seq!['t', 'w', 'o']
    } else if k == 11 {
        seq!['t', 'h', 'r', 'e', 'e']
    } else if k == 12 {
        seq!['f', 'o', 'u', 'r']
    } else if k == 13 {
        seq!['f', 'i', 'v', 'e']
    } else if k == 14 {
        seq!['s', 'i', 'x']
    } else if k == 15 {
        seq!['s', 'e', 'v', 'e', 'n']
    } else if k == 16 {
        seq!['e', 'i', 'g', 'h', 't']
    } else {
        seq!['n', 'i', 'n', 'e']
    }
}

/// The value of a digit word, and 0 for any other text.
pub open spec fn word_value(w: Seq<char>) -> i32 {
    if exists|k: int| 0 <= k < 18 && digit_word(k) == w {
        ((choose|k: int| 0 <= k < 18 && digit_word(k) == w) % 9 + 1) as i32
    } else {
        0
    }
}

fn word_of(k: usize) -> (r: &'static str)
    requires
        k < 18,
    ensures
        r@ == digit_word(k as int),
        0 < r@.len() <= 5,
        forall|i: int| 0 <= i < r@.len() ==> #[trigger] r@[i] != '\n' && plain_char(r@[i]),
{
    proof {
        reveal_strlit("1");
        reveal_strlit("2");
        reveal_strlit("3");
        reveal_strlit("4");
        reveal_strlit("5");
        reveal_strlit("6");
        reveal_strlit("7");
        reveal_strlit("8");
        reveal_strlit("9");
        reveal_strlit("one");
        reveal_strlit("two");
        reveal_strlit("three");
        reveal_strlit("four");
        reveal_strlit("five");
        reveal_strlit("six");
        reveal_strlit("seven");
        reveal_strlit("eight");
        reveal_strlit("nine");
    }
    let r = match k {
        0 => "1",
        1 => "2",
        2 => "3",
        3 => "4",
        4 => "5",
        5 => "6",
        6 => "7",
        7 => "8",
        8 => "9",
        9 => "one",
        10 => "two",
        11 => "three",
        12 => "four",
        13 => "five",
        14 => "six",
        15 => "seven",
        16 => "eight",
        _ => "nine",
    };
    assert(r@ =~= digit_word(k as int));
    r
}

/// A lower-case ASCII letter or a decimal digit: a character that a regular
/// expression matches as itself.
pub open spec fn plain_char(c: char) -> bool {
    ('a' <= c && c <= 'z') || ('0' <= c && c <= '9')
}

/// Whether the ASCII text `p` stands in the bytes `h` at offset `i`.
pub open spec fn occurs_at(p: Seq<char>, h: Seq<u8>, i: int) -> bool {
    0 <= i && i + p.len() <= h.len() && forall|j: int|
        0 <= j < p.len() ==> h[i + j] == (p[j] as u32) as u8
}

/// The offsets of the leftmost non-overlapping occurrences of `p` in `h`,
/// scanning from offset `i`: after an occurrence the scan resumes at its end.
pub open spec fn occurrences_from(p: Seq<char>, h: Seq<u8>, i: int) -> Seq<int>
    decreases h.len() - i,
{
    if p.len() == 0 || i < 0 || i + p.len() > h.len() {
        Seq::<int>::empty()
    } else if occurs_at(p, h, i) {
        seq![i] + occurrences_from(p, h, i + p.len())
    } else {
        occurrences_from(p, h, i + 1)
    }
}

/// Relies on `regex::Regex::new` and `regex::Regex::find_iter`: a pattern
/// of lower-case letters and digits matches only itself, and `find_iter`
/// yields the successive non-overlapping leftmost matches, whose `start` is
/// a byte offset into the haystack.
#[verifier::external_body]
fn literal_match_starts(pattern: &str, haystack: &str) -> (r: Vec<usize>)
    requires
        0 < pattern@.len() <= 100,
        forall|i: int| 0 <= i < pattern@.len() ==> plain_char(#[trigger] pattern@[i]),
    ensures
        r@.map_values(|s: usize| s as int) == occurrences_from(pattern@, haystack.spec_bytes(), 0),
{
    match regex::Regex::new(pattern) {
        Ok(re) => re.find_iter(haystack).map(|m| m.start()).collect(),
        Err(_) => Vec::new(),
    }
}

/// The digits of a line with bytes `h`: every occurrence of the first digit
/// word, then of the second, and so on through the eighteen words.
pub open spec fn digits_through(h: Seq<u8>, k: int) -> Seq<Digit>
    decreases k,
{
    if k <= 0 {
        Seq::<Digit>::empty()
    } else {
        digits_through(h, k - 1) + occurrences_from(digit_word(k - 1), h, 0).map_values(
            |s: int| Digit { index: s as usize, value: ((k - 1) % 9 + 1) as i32 },
        )
    }
}

impl Digit {
    /// The digit that the word `value` names, found at `index`.
    pub fn new(index: usize, value: &str) -> (r: Digit)
        ensures
            r.index == index,
            r.value == word_value(value@),
    {
        let cs = chars_of(value);
        let mut k: usize = 0;
        while k < 18
            invariant
                k <= 18,
                cs@ == value@,
                forall|j: int| 0 <= j < k ==> digit_word(j) != cs@,
            decreases 18 - k,
        {
            let w = chars_of(word_of(k));
            if is_word(&cs, w.as_slice()) {
                proof {
                    let c = choose|j: int| 0 <= j < 18 && digit_word(j) == value@;
                    lemma_digit_words_distinct(c, k as int);
                }
                return Digit { index, value: (k % 9 + 1) as i32 };
            }
            k += 1;
        }
        Digit { index, value: 0 }
    }

    /// Every digit of `line`, grouped by word in the order `1`..`9`,
    /// `one`..`nine`, each group in order of position.
    pub fn extract_all(line: &str) -> (r: Vec<Digit>)
        ensures
            r@ == digits_through(line.spec_bytes(), 18),
    {
        let mut digits: Vec<Digit> = Vec::new();
        let mut k: usize = 0;
        while k < 18
            invariant
                k <= 18,
                digits@ == digits_through(line.spec_bytes(), k as int),
            decreases 18 - k,
        {
            let word = word_of(k);
            let starts = literal_match_starts(word, line);
            let ghost occ = occurrences_from(digit_word(k as int), line.spec_bytes(), 0);
            let ghost before = digits@;
            let mut j: usize = 0;
            while j < starts.len()
                invariant
                    j <= starts@.len(),
                    k < 18,
                    starts@.map_values(|s: usize| s as int) == occ,
                    digits@ == before + occ.take(j as int).map_values(
                        |s: int| Digit { index: s as usize, value: (k % 9 + 1) as i32 },
                    ),
                decreases starts@.len() - j,
            {
                assert(occ[j as int] == starts@[j as int] as int);
                digits.push(Digit { index: starts[j], value: (k % 9 + 1) as i32 });
                assert(occ.take(j + 1).map_values(
                    |s: int| Digit { index: s as usize, value: (k % 9 + 1) as i32 },
                ) =~= occ.take(j as int).map_values(
                    |s: int| Digit { index: s as usize, value: (k % 9 + 1) as i32 },
                ).push(Digit { index: starts@[j as int], value: (k % 9 + 1) as i32 }));
                j += 1;
            }
            assert(occ.take(starts@.len() as int) =~= occ);
            k += 1;
        }
        digits
    }
}

proof fn lemma_digit_words_distinct(a: int, b: int)
    requires
        0 <= a < 18,
        0 <= b < 18,
        digit_word(a) == digit_word(b),
    ensures
        a == b,
{
    let wa = digit_word(a);
    let wb = digit_word(b);
    assert(wa.len() == wb.len());
    assert(wa[0] == wb[0]);
    if wa.len() >= 2 {
        assert(wa[1] == wb[1]);
    }
    if wa.len() >= 3 {
        assert(wa[2] == wb[2]);
    }
}

/// The position of the first digit with the smallest index.
pub open spec fn first_pos(ds: Seq<Digit>) -> int
    decreases ds.len(),
{
    if ds.len() <= 1 {
        0
    } else {
        let p = first_pos(ds.drop_last());
        if ds.last().index < ds[p].index {
            ds.len() - 1
        } else {
            p
        }
    }
}

/// The position of the last digit with the largest index.
pub open spec fn last_pos(ds: Seq<Digit>) -> int
    decreases ds.len(),
{
    if ds.len() <= 1 {
        0
    } else {
        let p = last_pos(ds.drop_last());
        if ds.last().index >= ds[p].index {
            ds.len() - 1
        } else {
            p
        }
    }
}

proof fn lemma_pos_in_range(ds: Seq<Digit>)
    requires
        ds.len() > 0,
    ensures
        0 <= first_pos(ds) < ds.len(),
        0 <= last_pos(ds) < ds.len(),
    decreases ds.len(),
{
    if ds.len() > 1 {
        lemma_pos_in_range(ds.drop_last());
    }
}

/// The number of a line from its digits: the leftmost digit as tens and the
/// rightmost as ones; 0 when there is no digit.
pub open spec fn outer_number(ds: Seq<Digit>) -> int {
    if ds.len() == 0 {
        0
    } else {
        ds[first_pos(ds)].value * 10 + ds[last_pos(ds)].value
    }
}

/// Combines the leftmost and rightmost digit (see `outer_number`).
pub fn combine_outer_digits(digits: &Vec<Digit>) -> (r: i32)
    requires
        i32::MIN <= outer_number(digits@) <= i32::MAX,
    ensures
        r == outer_number(digits@),
{
    if digits.len() == 0 {
        return 0;
    }
    let mut f: usize = 0;
    let mut l: usize = 0;
    let mut i: usize = 1;
    proof {
        assert(digits@.take(1).drop_last() =~= Seq::<Digit>::empty());
    }
    while i < digits.len()
        invariant
            1 <= i <= digits@.len(),
            f == first_pos(digits@.take(i as int)),
            l == last_pos(digits@.take(i as int)),
            f < i && l < i,
        decreases digits@.len() - i,
    {
        proof {
            assert(digits@.take(i + 1).drop_last() =~= digits@.take(i as int));
            assert(digits@.take(i as int)[f as int] == digits@[f as int]);
            assert(digits@.take(i as int)[l as int] == digits@[l as int]);
        }
        if digits[i].index < digits[f].index {
            f = i;
        }
        if digits[i].index >= digits[l].index {
            l = i;
        }
        i += 1;
    }
    assert(digits@.take(digits@.len() as int) =~= digits@);
    let a = digits[f].value as i64;
    let b = digits[l].value as i64;
    (a * 10 + b) as i32
}

/// The total of `xs` with each partial sum checked against `i32`.
pub open spec fn checked_total(xs: Seq<int>) -> Option<i32>
    decreases xs.len(),
{
    if xs.len() == 0 {
        Some(0)
    } else {
        match checked_total(xs.drop_last()) {
            None => None,
            Some(t) => if i32::MIN <= t + xs.last() <= i32::MAX {
                Some((t + xs.last()) as i32)
            } else {
                None
            },
        }
    }
}

proof fn lemma_checked_total_prefix_none(xs: Seq<int>, j: int)
    requires
        0 <= j <= xs.len(),
        checked_total(xs.take(j)) is None,
    ensures
        checked_total(xs) is None,
    decreases xs.len(),
{
    if j < xs.len() {
        assert(xs.drop_last().take(j) =~= xs.take(j));
        lemma_checked_total_prefix_none(xs.drop_last(), j);
    } else {
        assert(xs.take(j) =~= xs);
    }
}

proof fn lemma_digit_values(h: Seq<u8>, k: int)
    ensures
        forall|i: int|
            0 <= i < digits_through(h, k).len() ==> 1 <= #[trigger] digits_through(h, k)[i].value
                <= 9,
    decreases k,
{
    if k > 0 {
        lemma_digit_values(h, k - 1);
        let a = digits_through(h, k - 1);
        let b = occurrences_from(digit_word(k - 1), h, 0).map_values(
            |s: int| Digit { index: s as usize, value: ((k - 1) % 9 + 1) as i32 },
        );
        assert forall|i: int| 0 <= i < (a + b).len() implies 1 <= #[trigger] (a + b)[i].value
            <= 9 by {
            if i >= a.len() {
                assert((a + b)[i] == b[i - a.len()]);
            }
        }
    }
}

/// The number that the line `l` hides, digit words included.
pub open spec fn line_number(l: Seq<char>) -> int {
    outer_number(digits_through(vstd::utf8::encode_utf8(l), 18))
}

/// The sum of the numbers of all lines of `t`; `None` when a partial sum
/// leaves `i32`.
pub open spec fn digit_lines_total(t: Seq<char>) -> Option<i32> {
    checked_total(lines_of(t).map_values(|l: Seq<char>| line_number(l)))
}

/// Sums the numbers of the lines of `input`, spelled-out digits included.
pub fn sum_digit_lines(input: &str) -> (r: Option<i32>)
    ensures
        r == digit_lines_total(input@),
{
    let cs = chars_of(input);
    let ls = split_lines(&cs);
    let ghost vals = lines_of(input@).map_values(|l: Seq<char>| line_number(l));
    let mut total: i32 = 0;
    let mut i: usize = 0;
    proof {
        assert(vals.take(0) =~= Seq::<int>::empty());
    }
    while i < ls.len()
        invariant
            i <= ls@.len(),
            ls@.len() == lines_of(input@).len(),
            forall|k: int| 0 <= k < ls@.len() ==> #[trigger] ls@[k]@ == lines_of(input@)[k],
            vals == lines_of(input@).map_values(|l: Seq<char>| line_number(l)),
            checked_total(vals.take(i as int)) == Some(total),
        decreases ls@.len() - i,
    {
        let line = string_of_range(&ls[i], 0, ls[i].len());
        assert(line@ =~= ls@[i as int]@);
        let ls_i = line.as_str();
        let digits = Digit::extract_all(ls_i);
        proof {
            lemma_digit_values(ls_i.spec_bytes(), 18);
            if digits@.len() > 0 {
                lemma_pos_in_range(digits@);
                assert(1 <= digits@[first_pos(digits@)].value <= 9);
                assert(1 <= digits@[last_pos(digits@)].value <= 9);
            }
        }
        let n = combine_outer_digits(&digits);
        assert(vals.take(i + 1).drop_last() =~= vals.take(i as int));
        assert(vals.take(i + 1).last() == n as int);
        match total.checked_add(n) {
            Some(t) => {
                total = t;
            },
            None => {
                proof {
                    lemma_checked_total_prefix_none(vals, i + 1);
                }
                return None;
            },
        }
        i += 1;
    }
    assert(vals.take(ls@.len() as int) =~= vals);
    Some(total)
}

/// Whether `std` counts `c` as numeric: one of Unicode's number categories.
pub uninterp spec fn unicode_numeric(c: char) -> bool;

/// Relies on `char::is_numeric`: true for the characters of Unicode's number
/// categories, among them the ASCII digits.
#[verifier::external_body]
fn is_numeric(c: char) -> (r: bool)
    ensures
        r == unicode_numeric(c),
        c <= '\x7f' ==> (r <==> ('0' <= c && c <= '9')),
{
    c.is_numeric()
}

/// What `to_digit(10)` gives for `c`, with 0 in place of no digit.
pub open spec fn decimal_digit_or_zero(c: char) -> int {
    if is_digit(c) {
        digit_value(c)
    } else {
        0
    }
}

/// The first and last numeric characters' digits, given which characters
/// of `cs` are numeric.
pub open spec fn outer_numerals(cs: Seq<char>, numeric: Seq<bool>) -> Option<(int, int)>
    decreases cs.len(),
{
    if cs.len() == 0 {
        None
    } else {
        let acc = outer_numerals(cs.drop_last(), numeric);
        if numeric[cs.len() - 1] {
            let n = decimal_digit_or_zero(cs.last());
            match acc {
                Some(p) => Some((p.0, n)),
                None => Some((n, n)),
            }
        } else {
            acc
        }
    }
}

/// The two-digit number of the outer numerals, or 0 without one.
pub open spec fn embedded_number(cs: Seq<char>, numeric: Seq<bool>) -> int {
    match outer_numerals(cs, numeric) {
        Some(p) => p.0 * 10 + p.1,
        None => 0,
    }
}

/// The number made of the first and last numeric character of `cs`, where
/// `numeric[i]` tells whether `cs[i]` is numeric.
pub fn number_from_numerals(cs: &Vec<char>, numeric: &Vec<bool>) -> (r: i32)
    requires
        cs@.len() == numeric@.len(),
    ensures
        r == embedded_number(cs@, numeric@),
{
    let mut tens: i32 = 0;
    let mut ones: i32 = 0;
    let mut seen = false;
    let mut i: usize = 0;
    proof {
        assert(cs@.take(0) =~= Seq::<char>::empty());
    }
    while i < cs.len()
        invariant
            i <= cs@.len(),
            cs@.len() == numeric@.len(),
            seen == outer_numerals(cs@.take(i as int), numeric@) is Some,
            seen ==> outer_numerals(cs@.take(i as int), numeric@) == Some::<(int, int)>(
                (tens as int, ones as int),
            ),
            0 <= tens <= 9,
            0 <= ones <= 9,
        decreases cs@.len() - i,
    {
        assert(cs@.take(i + 1).drop_last() =~= cs@.take(i as int));
        assert(cs@.take(i + 1).last() == cs@[i as int]);
        if numeric[i] {
            let c = cs[i];
            let n: i32 = if '0' <= c && c <= '9' {
                (c as u32 - '0' as u32) as i32
            } else {
                0
            };
            if seen {
                ones = n;
            } else {
                tens = n;
                ones = n;
                seen = true;
            }
        }
        i += 1;
    }
    assert(cs@.take(cs@.len() as int) =~= cs@);
    if seen {
        tens * 10 + ones
    } else {
        0
    }
}

/// The numeric flags of the characters of `cs`.
pub open spec fn numeric_flags(cs: Seq<char>) -> Seq<bool> {
    cs.map_values(|c: char| unicode_numeric(c))
}

/// The number made of the first and last numeric character of `line`.
pub fn find_embedded_number(line: &str) -> (r: i32)
    ensures
        r == embedded_number(line@, numeric_flags(line@)),
        (forall|i: int| 0 <= i < line@.len() ==> #[trigger] line@[i] <= '\x7f') ==> r
            == embedded_number(line@, line@.map_values(|c: char| is_digit(c))),
{
    let cs = chars_of(line);
    let flags = numerals_of(&cs);
    proof {
        if forall|i: int| 0 <= i < line@.len() ==> #[trigger] line@[i] <= '\x7f' {
            assert(flags@ =~= line@.map_values(|c: char| is_digit(c)));
        }
    }
    number_from_numerals(&cs, &flags)
}

fn numerals_of(cs: &Vec<char>) -> (r: Vec<bool>)
    ensures
        r@ == numeric_flags(cs@),
        forall|i: int| 0 <= i < cs@.len() && cs@[i] <= '\x7f' ==> (#[trigger] r@[i] <==> is_digit(cs@[i])),
{
    let mut flags: Vec<bool> = Vec::new();
    let mut i: usize = 0;
    while i < cs.len()
        invariant
            i <= cs@.len(),
            flags@ == numeric_flags(cs@.take(i as int)),
            forall|k: int| 0 <= k < i && cs@[k] <= '\x7f' ==> (#[trigger] flags@[k] <==> is_digit(cs@[k])),
        decreases cs@.len() - i,
    {
        flags.push(is_numeric(cs[i]));
        assert(numeric_flags(cs@.take(i + 1)) =~= numeric_flags(cs@.take(i as int)).push(
            unicode_numeric(cs@[i as int]),
        ));
        i += 1;
    }
    assert(cs@.take(cs@.len() as int) =~= cs@);
    flags
}

/// The sum of the numbers made of each line's outer numerals; `None` when a
/// partial sum leaves `i32`.
pub open spec fn numeral_lines_total(t: Seq<char>) -> Option<i32> {
    checked_total(
        lines_of(t).map_values(|l: Seq<char>| embedded_number(l, numeric_flags(l))),
    )
}

/// Sums, over the lines of `s`, the numbers of their outer numerals.
pub fn sum_lines(s: &str) -> (r: Option<i32>)
    ensures
        r == numeral_lines_total(s@),
{
    let cs = chars_of(s);
    let ls = split_lines(&cs);
    let ghost vals = lines_of(s@).map_values(|l: Seq<char>| embedded_number(l, numeric_flags(l)));
    let mut total: i32 = 0;
    let mut i: usize = 0;
    proof {
        assert(vals.take(0) =~= Seq::<int>::empty());
    }
    while i < ls.len()
        invariant
            i <= ls@.len(),
            ls@.len() == lines_of(s@).len(),
            forall|k: int| 0 <= k < ls@.len() ==> #[trigger] ls@[k]@ == lines_of(s@)[k],
            vals == lines_of(s@).map_values(|l: Seq<char>| embedded_number(l, numeric_flags(l))),
            checked_total(vals.take(i as int)) == Some(total),
        decreases ls@.len() - i,
    {
        let flags = numerals_of(&ls[i]);
        let n = number_from_numerals(&ls[i], &flags);
        assert(vals.take(i + 1).drop_last() =~= vals.take(i as int));
        assert(vals.take(i + 1).last() == n as int);
        match total.checked_add(n) {
            Some(t) => {
                total = t;
            },
            None => {
                proof {
                    lemma_checked_total_prefix_none(vals, i + 1);
                }
                return None;
            },
        }
        i += 1;
    }
    assert(vals.take(ls@.len() as int) =~= vals);
    Some(total)
}

} // verus!
