//! Character-level helpers shared by the parsers: splitting text into lines
//! and whitespace-separated tokens, and reading decimal numbers.
use vstd::prelude::*;
use vstd::std_specs::iter::IteratorSpec;

verus! {

broadcast use vstd::string::axiom_spec_iter, vstd::string::next_postcondition;

/// Copies the characters of `s` into a vector.
pub fn chars_of(s: &str) -> (r: Vec<char>)
    ensures
        r@ == s@,
{
    let mut out: Vec<char> = Vec::new();
    let mut it = s.chars();
    loop
        invariant
            it.obeys_prophetic_iter_laws(),
            it.decrease() is Some,
            out@ + it.remaining() == s@,
        ensures
            out@ == s@,
        decreases it.decrease()->0,
    {
        match it.next() {
            Some(c) => {
                out.push(c);
            },
            None => {
                assert(out@ =~= out@ + it.remaining());
                break;
            },
        }
    }
    out
}

/// The lines of `t`, split at each `'\n'`; carriage returns are dropped.
/// There is always at least one (possibly empty) line.
pub open spec fn lines_of(t: Seq<char>) -> Seq<Seq<char>>
    decreases t.len(),
{
    if t.len() == 0 {
        seq![Seq::<char>::empty()]
    } else {
        let prev = lines_of(t.drop_last());
        let c = t.last();
        if c == '\r' {
            prev
        } else if c == '\n' {
            prev.push(Seq::<char>::empty())
        } else {
            prev.update(prev.len() - 1, prev.last().push(c))
        }
    }
}

pub proof fn lemma_lines_of_nonempty(t: Seq<char>)
    ensures
        lines_of(t).len() >= 1,
    decreases t.len(),
{
    if t.len() > 0 {
        lemma_lines_of_nonempty(t.drop_last());
    }
}

/// Splits `t` into its lines (see `lines_of`).
pub fn split_lines(t: &Vec<char>) -> (r: Vec<Vec<char>>)
    ensures
        r@.len() == lines_of(t@).len(),
        forall|k: int| 0 <= k < r@.len() ==> #[trigger] r@[k]@ == lines_of(t@)[k],
{
    let mut lines: Vec<Vec<char>> = Vec::new();
    let mut cur: Vec<char> = Vec::new();
    let mut i: usize = 0;
    proof {
        assert(t@.take(0) =~= Seq::<char>::empty());
    }
    while i < t.len()
        invariant
            i <= t@.len(),
            lines_of(t@.take(i as int)).len() == lines@.len() + 1,
            forall|k: int|
                0 <= k < lines@.len() ==> #[trigger] lines@[k]@ == lines_of(t@.take(i as int))[k],
            cur@ == lines_of(t@.take(i as int)).last(),
        decreases t@.len() - i,
    {
        let c = t[i];
        proof {
            assert(t@.take(i + 1).drop_last() =~= t@.take(i as int));
            lemma_lines_of_nonempty(t@.take(i as int));
        }
        if c == '\r' {
        } else if c == '\n' {
            lines.push(cur);
            cur = Vec::new();
            proof {
                assert(cur@ =~= Seq::<char>::empty());
            }
        } else {
            cur.push(c);
        }
        i += 1;
    }
    proof {
        assert(t@.take(t@.len() as int) =~= t@);
    }
    lines.push(cur);
    lines
}

/// The pieces of `t` between the separators `sep`; there is always at
/// least one (possibly empty) piece.
pub open spec fn pieces_of(t: Seq<char>, sep: char) -> Seq<Seq<char>>
    decreases t.len(),
{
    if t.len() == 0 {
        seq![Seq::<char>::empty()]
    } else {
        let prev = pieces_of(t.drop_last(), sep);
        if t.last() == sep {
            prev.push(Seq::<char>::empty())
        } else {
            prev.update(prev.len() - 1, prev.last().push(t.last()))
        }
    }
}

pub proof fn lemma_pieces_of_nonempty(t: Seq<char>, sep: char)
    ensures
        pieces_of(t, sep).len() >= 1,
    decreases t.len(),
{
    if t.len() > 0 {
        lemma_pieces_of_nonempty(t.drop_last(), sep);
    }
}

/// Splits `t` at each `sep` (see `pieces_of`).
pub fn split_at_char(t: &Vec<char>, sep: char) -> (r: Vec<Vec<char>>)
    ensures
        r@.len() == pieces_of(t@, sep).len(),
        forall|k: int| 0 <= k < r@.len() ==> #[trigger] r@[k]@ == pieces_of(t@, sep)[k],
{
    let mut parts: Vec<Vec<char>> = Vec::new();
    let mut cur: Vec<char> = Vec::new();
    let mut i: usize = 0;
    proof {
        assert(t@.take(0) =~= Seq::<char>::empty());
    }
    while i < t.len()
        invariant
            i <= t@.len(),
            pieces_of(t@.take(i as int), sep).len() == parts@.len() + 1,
            forall|k: int|
                0 <= k < parts@.len() ==> #[trigger] parts@[k]@ == pieces_of(t@.take(i as int), sep)[k],
            cur@ == pieces_of(t@.take(i as int), sep).last(),
        decreases t@.len() - i,
    {
        let c = t[i];
        proof {
            assert(t@.take(i + 1).drop_last() =~= t@.take(i as int));
            lemma_pieces_of_nonempty(t@.take(i as int), sep);
        }
        if c == sep {
            parts.push(cur);
            cur = Vec::new();
            proof {
                assert(cur@ =~= Seq::<char>::empty());
            }
        } else {
            cur.push(c);
        }
        i += 1;
    }
    proof {
        assert(t@.take(t@.len() as int) =~= t@);
    }
    parts.push(cur);
    parts
}

/// ASCII whitespace, as `char::is_ascii_whitespace` counts it.
pub open spec fn is_space(c: char) -> bool {
    c == ' ' || c == '\t' || c == '\n' || c == '\r' || c == '\x0C'
}

/// The maximal runs of non-whitespace characters of `t`, in order.
pub open spec fn tokens_of(t: Seq<char>) -> Seq<Seq<char>>
    decreases t.len(),
{
    if t.len() == 0 {
        Seq::<Seq<char>>::empty()
    } else {
        let prev = tokens_of(t.drop_last());
        let c = t.last();
        if is_space(c) {
            prev
        } else if t.len() >= 2 && !is_space(t[t.len() - 2]) {
            prev.update(prev.len() - 1, prev.last().push(c))
        } else {
            prev.push(seq![c])
        }
    }
}

/// Splits `t` at ASCII whitespace (see `tokens_of`).
pub fn split_tokens(t: &Vec<char>) -> (r: Vec<Vec<char>>)
    ensures
        r@.len() == tokens_of(t@).len(),
        forall|k: int| 0 <= k < r@.len() ==> #[trigger] r@[k]@ == tokens_of(t@)[k],
{
    let mut toks: Vec<Vec<char>> = Vec::new();
    let mut cur: Vec<char> = Vec::new();
    let mut in_tok = false;
    let mut i: usize = 0;
    proof {
        assert(t@.take(0) =~= Seq::<char>::empty());
    }
    while i < t.len()
        invariant
            i <= t@.len(),
            in_tok == (i > 0 && !is_space(t@[i - 1])),
            in_tok ==> tokens_of(t@.take(i as int)).len() == toks@.len() + 1
                && cur@ == tokens_of(t@.take(i as int)).last(),
            !in_tok ==> tokens_of(t@.take(i as int)).len() == toks@.len() && cur@.len() == 0,
            forall|k: int|
                0 <= k < toks@.len() ==> #[trigger] toks@[k]@ == tokens_of(t@.take(i as int))[k],
        decreases t@.len() - i,
    {
        let c = t[i];
        proof {
            assert(t@.take(i + 1).drop_last() =~= t@.take(i as int));
        }
        if c == ' ' || c == '\t' || c == '\n' || c == '\r' || c == '\x0C' {
            if in_tok {
                toks.push(cur);
                cur = Vec::new();
                in_tok = false;
            }
        } else {
            if !in_tok {
                proof {
                    assert(cur@.push(c) =~= seq![c]);
                }
            }
            cur.push(c);
            in_tok = true;
        }
        i += 1;
    }
    proof {
        assert(t@.take(t@.len() as int) =~= t@);
    }
    if in_tok {
        toks.push(cur);
    }
    toks
}

pub open spec fn is_digit(c: char) -> bool {
    '0' <= c && c <= '9'
}

pub open spec fn digit_value(c: char) -> int {
    (c as u32) as int - ('0' as u32) as int
}

/// A non-empty run of decimal digits.
pub open spec fn is_numeral(t: Seq<char>) -> bool {
    t.len() > 0 && forall|i: int| 0 <= i < t.len() ==> is_digit(#[trigger] t[i])
}

/// The value of a run of decimal digits, most significant first.
pub open spec fn numeral_value(t: Seq<char>) -> int
    decreases t.len(),
{
    if t.len() == 0 {
        0
    } else {
        numeral_value(t.drop_last()) * 10 + digit_value(t.last())
    }
}

/// The digits of a number token: what follows one leading `+`, if any.
pub open spec fn unsigned_digits(t: Seq<char>) -> Seq<char> {
    if t.len() > 0 && t[0] == '+' {
        t.skip(1)
    } else {
        t
    }
}

/// What reading the digits `t` as a `u64` gives: its value when `t` is a
/// numeral that fits.
pub open spec fn read_digits(t: Seq<char>) -> Option<u64> {
    if is_numeral(t) && numeral_value(t) <= u64::MAX {
        Some(numeral_value(t) as u64)
    } else {
        None
    }
}

/// What reading `t` as a `u64` gives: an optional `+`, then a numeral that
/// fits.
pub open spec fn read_u64(t: Seq<char>) -> Option<u64> {
    read_digits(unsigned_digits(t))
}

proof fn lemma_numeral_nonneg(t: Seq<char>)
    requires
        forall|i: int| 0 <= i < t.len() ==> is_digit(#[trigger] t[i]),
    ensures
        numeral_value(t) >= 0,
    decreases t.len(),
{
    if t.len() > 0 {
        lemma_numeral_nonneg(t.drop_last());
    }
}

proof fn lemma_numeral_prefix_le(t: Seq<char>, j: int)
    requires
        forall|i: int| 0 <= i < t.len() ==> is_digit(#[trigger] t[i]),
        0 <= j <= t.len(),
    ensures
        numeral_value(t.take(j)) <= numeral_value(t),
    decreases t.len(),
{
    if j == t.len() {
        assert(t.take(j) =~= t);
    } else {
        assert(t.take(j) =~= t.drop_last().take(j));
        lemma_numeral_prefix_le(t.drop_last(), j);
        lemma_numeral_nonneg(t.drop_last());
    }
}

/// Reads `t` as a decimal `u64` (see `read_u64`).
pub fn parse_u64(t: &Vec<char>) -> (r: Option<u64>)
    ensures
        r == read_u64(t@),
{
    if t.len() > 0 && t[0] == '+' {
        let mut digits = t.clone();
        assert(digits@ =~= t@);
        let rest = digits.split_off(1);
        assert(rest@ =~= t@.skip(1));
        parse_digits(&rest)
    } else {
        parse_digits(t)
    }
}

fn parse_digits(t: &Vec<char>) -> (r: Option<u64>)
    ensures
        r == read_digits(t@),
{
    if t.len() == 0 {
        return None;
    }
    let mut acc: u64 = 0;
    let mut i: usize = 0;
    proof {
        assert(t@.take(0) =~= Seq::<char>::empty());
    }
    while i < t.len()
        invariant
            i <= t@.len(),
            t@.len() > 0,
            forall|k: int| 0 <= k < i ==> is_digit(#[trigger] t@[k]),
            acc == numeral_value(t@.take(i as int)),
        decreases t@.len() - i,
    {
        let c = t[i];
        if !('0' <= c && c <= '9') {
            return None;
        }
        let d = (c as u32 - '0' as u32) as u64;
        proof {
            assert(t@.take(i + 1).drop_last() =~= t@.take(i as int));
        }
        match acc.checked_mul(10) {
            Some(m) => match m.checked_add(d) {
                Some(n) => {
                    acc = n;
                },
                None => {
                    proof {
                        if is_numeral(t@) {
                            lemma_numeral_prefix_le(t@, i + 1);
                        }
                    }
                    return None;
                },
            },
            None => {
                proof {
                    if is_numeral(t@) {
                        lemma_numeral_prefix_le(t@, i + 1);
                    }
                }
                return None;
            },
        }
        i += 1;
    }
    proof {
        assert(t@.take(t@.len() as int) =~= t@);
    }
    Some(acc)
}

/// The views of a sequence of character vectors.
pub open spec fn views(v: Seq<Vec<char>>) -> Seq<Seq<char>> {
    v.map_values(|l: Vec<char>| l@)
}

/// Relies on `String::push`, which appends one character at the end.
#[verifier::external_body]
pub(crate) fn push_char(s: &mut String, c: char)
    ensures
        final(s)@ == old(s)@.push(c),
{
    s.push(c)
}

/// A string holding the characters `cs[lo..hi]`.
pub fn string_of_range(cs: &Vec<char>, lo: usize, hi: usize) -> (r: String)
    requires
        lo <= hi <= cs@.len(),
    ensures
        r@ == cs@.subrange(lo as int, hi as int),
{
    let mut r = String::new();
    let mut i: usize = lo;
    while i < hi
        invariant
            lo <= i <= hi,
            hi <= cs@.len(),
            r@ == cs@.subrange(lo as int, i as int),
        decreases hi - i,
    {
        push_char(&mut r, cs[i]);
        proof {
            assert(cs@.subrange(lo as int, i + 1) =~= cs@.subrange(lo as int, i as int).push(
                cs@[i as int],
            ));
        }
        i += 1;
    }
    r
}

/// The index of the first `c` in `l` at or after `i`, or -1 when there is none.
pub open spec fn find_char_from(l: Seq<char>, c: char, i: int) -> int
    decreases l.len() - i,
{
    if i < 0 || i >= l.len() {
        -1
    } else if l[i] == c {
        i
    } else {
        find_char_from(l, c, i + 1)
    }
}

/// Finds the first `c` in `l` (see `find_char_from`).
pub fn find_char(l: &Vec<char>, c: char) -> (r: Option<usize>)
    ensures
        match r {
            Some(i) => find_char_from(l@, c, 0) == i && i < l@.len(),
            None => find_char_from(l@, c, 0) == -1,
        },
{
    let mut i: usize = 0;
    while i < l.len()
        invariant
            i <= l@.len(),
            find_char_from(l@, c, 0) == find_char_from(l@, c, i as int),
        decreases l@.len() - i,
    {
        if l[i] == c {
            return Some(i);
        }
        i += 1;
    }
    None
}

/// Whether `t` spells the word `w`.
pub fn is_word(t: &Vec<char>, w: &[char]) -> (r: bool)
    ensures
        r == (t@ == w@),
{
    if t.len() != w.len() {
        return false;
    }
    let mut i: usize = 0;
    while i < t.len()
        invariant
            i <= t@.len(),
            t@.len() == w@.len(),
            forall|k: int| 0 <= k < i ==> t@[k] == w@[k],
        decreases t@.len() - i,
    {
        if t[i] != w[i] {
            return false;
        }
        i += 1;
    }
    assert(t@ =~= w@);
    true
}

} // verus!
