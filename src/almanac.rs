//! The almanac: a list of seeds and an ordered sequence of mapping tables,
//! each of which sends a number through the first of its ranges that holds
//! it, or leaves it as it is.
use vstd::prelude::*;

use crate::text::{
    chars_of, find_char, find_char_from, is_space, lines_of, parse_u64, read_u64, split_lines,
    split_tokens, string_of_range, tokens_of, views,
};

verus! {

/// Why a text is not an almanac, or why it has no lowest location.
#[derive(Debug, Clone, Copy, PartialEq, Eq, Structural)]
pub enum ParseError {
    /// The seed line is missing or has no colon (`token` is `None`), or
    /// the token numbered `token` after the colon (from 0) is not a number.
    MalformedSeeds { token: Option<usize> },
    /// The header of table `table` (counted from 0 in the document) lacks
    /// the `-to-` separator, or the table's section is empty.
    MalformedHeader { table: usize },
    /// Line `row` of table `table` is not three numbers whose ranges fit in
    /// a `u64`; the header is row 0.
    MalformedMapping { table: usize, row: usize },
    /// The text has no section, or there are no seeds to reduce.
    EmptyInput,
}

/// The half-open interval `[start, end)`.
#[derive(Debug, Clone, Copy, PartialEq, Eq, Structural)]
pub struct Interval {
    pub start: u64,
    pub end: u64,
}

impl Interval {
    pub open spec fn wf(self) -> bool {
        self.start <= self.end
    }

    pub open spec fn holds(self, n: int) -> bool {
        self.start <= n < self.end
    }

    pub open spec fn width(self) -> int {
        self.end - self.start
    }
}

/// One range rule: the source interval is sent, offset by offset, onto the
/// destination interval of the same width.
#[derive(Debug, Clone, Copy, PartialEq, Eq, Structural)]
pub struct Mapping {
    pub dest: Interval,
    pub src: Interval,
}

impl Mapping {
    pub open spec fn wf(self) -> bool {
        self.dest.wf() && self.src.wf() && self.dest.width() == self.src.width()
    }

    /// The mapping with `len` values from `src` onto `dst`.
    pub open spec fn spec_new(dst: u64, src: u64, len: u64) -> Mapping {
        Mapping {
            dest: Interval { start: dst, end: (dst + len) as u64 },
            src: Interval { start: src, end: (src + len) as u64 },
        }
    }

    /// Where `n` lands, if the source interval holds it.
    pub open spec fn spec_map(self, n: u64) -> Option<u64> {
        if self.src.holds(n as int) {
            Some((self.dest.start + (n - self.src.start)) as u64)
        } else {
            None
        }
    }

    pub fn new(dst: u64, src: u64, len: u64) -> (r: Mapping)
        requires
            dst + len <= u64::MAX,
            src + len <= u64::MAX,
        ensures
            r == Mapping::spec_new(dst, src, len),
            r.wf(),
    {
        Mapping { dest: Interval { start: dst, end: dst + len }, src: Interval { start: src, end: src + len } }
    }

    pub fn map(&self, n: u64) -> (r: Option<u64>)
        requires
            self.wf(),
        ensures
            r == self.spec_map(n),
    {
        if self.src.start <= n && n < self.src.end {
            let offset = n - self.src.start;
            Some(self.dest.start + offset)
        } else {
            None
        }
    }

    /// Reads a mapping from a line `dest src len` (see `mapping_of_line`).
    /// The line read on its own counts as row 0 of table 0.
    pub fn from_str(s: &str) -> (r: Result<Mapping, ParseError>)
        ensures
            r == (match mapping_of_line(s@) {
                Some(m) => Ok(m),
                None => Err(ParseError::MalformedMapping { table: 0, row: 0 }),
            }),
    {
        let cs = chars_of(s);
        match parse_mapping_line(&cs) {
            Some(m) => Ok(m),
            None => Err(ParseError::MalformedMapping { table: 0, row: 0 }),
        }
    }
}

/// The mapping that a line `dest src len` describes: exactly three
/// whitespace-separated numbers, with both ranges ending within `u64`.
pub open spec fn mapping_of_line(l: Seq<char>) -> Option<Mapping> {
    let ts = tokens_of(l);
    if ts.len() == 3 && read_u64(ts[0]) is Some && read_u64(ts[1]) is Some && read_u64(
        ts[2],
    ) is Some {
        let d = read_u64(ts[0])->Some_0;
        let s = read_u64(ts[1])->Some_0;
        let n = read_u64(ts[2])->Some_0;
        if d + n <= u64::MAX && s + n <= u64::MAX {
            Some(Mapping::spec_new(d, s, n))
        } else {
            None
        }
    } else {
        None
    }
}

fn parse_mapping_line(l: &Vec<char>) -> (r: Option<Mapping>)
    ensures
        r == mapping_of_line(l@),
        r is Some ==> r->Some_0.wf(),
{
    let ts = split_tokens(l);
    if ts.len() != 3 {
        return None;
    }
    let d = match parse_u64(&ts[0]) {
        Some(v) => v,
        None => {
            return None;
        },
    };
    let s = match parse_u64(&ts[1]) {
        Some(v) => v,
        None => {
            return None;
        },
    };
    let n = match parse_u64(&ts[2]) {
        Some(v) => v,
        None => {
            return None;
        },
    };
    if d > u64::MAX - n || s > u64::MAX - n {
        return None;
    }
    Some(Mapping::new(d, s, n))
}

/// What a table does to `n` from its `i`-th mapping on: the first mapping
/// whose source holds `n` sends it; when none does, `n` passes unchanged.
pub open spec fn resolve_from(ms: Seq<Mapping>, i: int, n: u64) -> u64
    decreases ms.len() - i,
{
    if 0 <= i < ms.len() {
        match ms[i].spec_map(n) {
            Some(r) => r,
            None => resolve_from(ms, i + 1, n),
        }
    } else {
        n
    }
}

/// A stage of the almanac: its two category labels and its range rules in
/// the order they were declared.
#[derive(Debug, PartialEq)]
pub struct MappingTable {
    pub from_label: String,
    pub to_label: String,
    pub mappings: Vec<Mapping>,
}

/// A table as plain values: source label, destination label, mappings.
pub type TableView = (Seq<char>, Seq<char>, Seq<Mapping>);

impl View for MappingTable {
    type V = TableView;

    open spec fn view(&self) -> TableView {
        (self.from_label@, self.to_label@, self.mappings@)
    }
}

pub open spec fn all_wf(ms: Seq<Mapping>) -> bool {
    forall|i: int| 0 <= i < ms.len() ==> #[trigger] ms[i].wf()
}

impl MappingTable {
    pub open spec fn wf(&self) -> bool {
        all_wf(self.mappings@)
    }

    pub open spec fn spec_map(&self, n: u64) -> u64 {
        resolve_from(self.mappings@, 0, n)
    }

    /// Sends `n` through the first mapping that holds it, else returns `n`.
    pub fn map(&self, n: u64) -> (r: u64)
        requires
            self.wf(),
        ensures
            r == self.spec_map(n),
    {
        let mut i: usize = 0;
        while i < self.mappings.len()
            invariant
                i <= self.mappings@.len(),
                self.wf(),
                resolve_from(self.mappings@, 0, n) == resolve_from(self.mappings@, i as int, n),
            decreases self.mappings@.len() - i,
        {
            if let Some(res) = self.mappings[i].map(n) {
                return res;
            }
            i += 1;
        }
        n
    }

    /// Reads a table from its text: a header `<from>-to-<to> map:` and one
    /// line per mapping (see `table_of_lines`). Errors name it table 0.
    pub fn from_str(s: &str) -> (r: Result<MappingTable, ParseError>)
        ensures
            table_result(r) == table_of_lines(lines_of(s@), 0),
            r is Ok ==> r->Ok_0.wf(),
    {
        let cs = chars_of(s);
        let ls = split_lines(&cs);
        proof {
            assert(views(ls@) =~= lines_of(cs@));
        }
        table_from_lines(&ls, 0)
    }
}

pub open spec fn table_result(r: Result<MappingTable, ParseError>) -> Result<TableView, ParseError> {
    match r {
        Ok(t) => Ok(t@),
        Err(e) => Err(e),
    }
}

/// Whether `-to-` starts at index `i` of `l`.
pub open spec fn separator_at(l: Seq<char>, i: int) -> bool {
    0 <= i && i + 4 <= l.len() && l[i] == '-' && l[i + 1] == 't' && l[i + 2] == 'o' && l[i + 3]
        == '-'
}

/// The first index at or after `i` where `-to-` starts in `l`, or -1.
pub open spec fn find_separator_from(l: Seq<char>, i: int) -> int
    decreases l.len() - i,
{
    if i < 0 || i + 4 > l.len() {
        -1
    } else if separator_at(l, i) {
        i
    } else {
        find_separator_from(l, i + 1)
    }
}

/// The end of the word that starts at index `i` of `l`: the first
/// whitespace at or after `i`, or the end of `l`.
pub open spec fn word_end(l: Seq<char>, i: int) -> int
    decreases l.len() - i,
{
    if i < 0 || i >= l.len() {
        l.len() as int
    } else if is_space(l[i]) {
        i
    } else {
        word_end(l, i + 1)
    }
}

/// The labels of a header: what stands before the first `-to-`, and the word
/// right after it.
pub open spec fn header_labels(h: Seq<char>) -> Option<(Seq<char>, Seq<char>)> {
    let p = find_separator_from(h, 0);
    if p < 0 {
        None
    } else {
        Some((h.take(p), h.subrange(p + 4, word_end(h, p + 4))))
    }
}

/// The mappings of a table's body: empty lines are passed over, each other
/// line must be a mapping.
pub open spec fn body_mappings(ls: Seq<Seq<char>>) -> Option<Seq<Mapping>>
    decreases ls.len(),
{
    if ls.len() == 0 {
        Some(Seq::<Mapping>::empty())
    } else if ls[0].len() == 0 {
        body_mappings(ls.drop_first())
    } else {
        match mapping_of_line(ls[0]) {
            None => None,
            Some(m) => match body_mappings(ls.drop_first()) {
                None => None,
                Some(rest) => Some(seq![m] + rest),
            },
        }
    }
}

/// The position in `ls` of the first non-empty line that is not a mapping
/// (the length of `ls` when there is none).
pub open spec fn first_bad_row(ls: Seq<Seq<char>>) -> int
    decreases ls.len(),
{
    if ls.len() == 0 {
        0
    } else if ls[0].len() != 0 && mapping_of_line(ls[0]) is None {
        0
    } else {
        1 + first_bad_row(ls.drop_first())
    }
}

/// The table numbered `t` that the lines `ls` describe: the header is
/// checked first, then the body, whose first bad line is reported.
pub open spec fn table_of_lines(ls: Seq<Seq<char>>, t: usize) -> Result<TableView, ParseError> {
    if ls.len() == 0 {
        Err(ParseError::MalformedHeader { table: t })
    } else {
        match header_labels(ls[0]) {
            None => Err(ParseError::MalformedHeader { table: t }),
            Some(labels) => match body_mappings(ls.drop_first()) {
                None => Err(
                    ParseError::MalformedMapping {
                        table: t,
                        row: (1 + first_bad_row(ls.drop_first())) as usize,
                    },
                ),
                Some(ms) => Ok((labels.0, labels.1, ms)),
            },
        }
    }
}

pub open spec fn prefix_some(p: Seq<Mapping>, rest: Option<Seq<Mapping>>) -> Option<Seq<Mapping>> {
    match rest {
        Some(r) => Some(p + r),
        None => None,
    }
}

fn find_separator(h: &Vec<char>) -> (r: Option<usize>)
    ensures
        match r {
            Some(p) => find_separator_from(h@, 0) == p && p + 4 <= h@.len(),
            None => find_separator_from(h@, 0) == -1,
        },
{
    let mut p: usize = 0;
    while p < h.len() && h.len() - p >= 4
        invariant
            p <= h@.len(),
            find_separator_from(h@, 0) == find_separator_from(h@, p as int),
        decreases h@.len() - p,
    {
        if h[p] == '-' && h[p + 1] == 't' && h[p + 2] == 'o' && h[p + 3] == '-' {
            return Some(p);
        }
        p += 1;
    }
    None
}

fn find_word_end(h: &Vec<char>, i: usize) -> (r: usize)
    requires
        i <= h@.len(),
    ensures
        r == word_end(h@, i as int),
        i <= r <= h@.len(),
{
    let mut e: usize = i;
    while e < h.len()
        invariant
            i <= e <= h@.len(),
            word_end(h@, i as int) == word_end(h@, e as int),
        decreases h@.len() - e,
    {
        let c = h[e];
        if c == ' ' || c == '\t' || c == '\n' || c == '\r' || c == '\x0C' {
            return e;
        }
        e += 1;
    }
    e
}

fn table_from_lines(ls: &Vec<Vec<char>>, t: usize) -> (r: Result<MappingTable, ParseError>)
    ensures
        table_result(r) == table_of_lines(views(ls@), t),
        r is Ok ==> r->Ok_0.wf(),
{
    let ghost lv = views(ls@);
    if ls.len() == 0 {
        return Err(ParseError::MalformedHeader { table: t });
    }
    let h = &ls[0];
    assert(h@ == lv[0]);
    let p = match find_separator(h) {
        Some(p) => p,
        None => {
            return Err(ParseError::MalformedHeader { table: t });
        },
    };
    let hl = h.len();
    let e = find_word_end(h, p + 4);
    let from_label = string_of_range(h, 0, p);
    let to_label = string_of_range(h, p + 4, e);
    assert(from_label@ =~= h@.take(p as int));
    let mut mappings: Vec<Mapping> = Vec::new();
    let mut i: usize = 1;
    proof {
        assert(lv.skip(1) =~= lv.drop_first());
        assert(mappings@ + Seq::<Mapping>::empty() =~= mappings@);
    }
    while i < ls.len()
        invariant
            1 <= i <= ls@.len(),
            lv == views(ls@),
            header_labels(lv[0]) == Some((from_label@, to_label@)),
            body_mappings(lv.drop_first()) == prefix_some(mappings@, body_mappings(lv.skip(i as int))),
            first_bad_row(lv.drop_first()) == i - 1 + first_bad_row(lv.skip(i as int)),
            all_wf(mappings@),
        decreases ls@.len() - i,
    {
        let l = &ls[i];
        assert(lv.skip(i as int).drop_first() =~= lv.skip(i + 1));
        assert(lv.skip(i as int)[0] == l@);
        if l.len() != 0 {
            match parse_mapping_line(l) {
                Some(m) => {
                    proof {
                        let rest = body_mappings(lv.skip(i + 1));
                        if rest is Some {
                            assert(mappings@.push(m) + rest->Some_0 =~= mappings@ + (seq![m] + rest->Some_0));
                        }
                    }
                    mappings.push(m);
                },
                None => {
                    assert(body_mappings(lv.skip(i as int)) is None);
                    assert(first_bad_row(lv.skip(i as int)) == 0);
                    return Err(ParseError::MalformedMapping { table: t, row: i });
                },
            }
        }
        i += 1;
    }
    proof {
        assert(lv.skip(ls@.len() as int) =~= Seq::<Seq<char>>::empty());
        assert(mappings@ + Seq::<Mapping>::empty() =~= mappings@);
    }
    Ok(MappingTable { from_label, to_label, mappings })
}

/// The blocks of lines between the empty lines of `ls`: each empty line
/// ends a block, so two empty lines in a row enclose an empty block.
pub open spec fn blocks_of(ls: Seq<Seq<char>>) -> Seq<Seq<Seq<char>>>
    decreases ls.len(),
{
    if ls.len() == 0 {
        seq![Seq::<Seq<char>>::empty()]
    } else {
        let prev = blocks_of(ls.drop_last());
        if ls.last().len() == 0 {
            prev.push(Seq::<Seq<char>>::empty())
        } else {
            prev.update(prev.len() - 1, prev.last().push(ls.last()))
        }
    }
}

proof fn lemma_blocks_of_nonempty(ls: Seq<Seq<char>>)
    ensures
        blocks_of(ls).len() >= 1,
    decreases ls.len(),
{
    if ls.len() > 0 {
        lemma_blocks_of_nonempty(ls.drop_last());
    }
}

/// `bs` without its trailing empty blocks.
pub open spec fn drop_trailing_empty(bs: Seq<Seq<Seq<char>>>) -> Seq<Seq<Seq<char>>>
    decreases bs.len(),
{
    if bs.len() > 0 && bs.last().len() == 0 {
        drop_trailing_empty(bs.drop_last())
    } else {
        bs
    }
}

/// The sections of a document: the blocks between empty lines, where
/// empty blocks at the end (trailing blank lines) are dropped.
pub open spec fn sections_of(ls: Seq<Seq<char>>) -> Seq<Seq<Seq<char>>> {
    drop_trailing_empty(blocks_of(ls))
}

fn split_sections(ls: &Vec<Vec<char>>) -> (r: Vec<Vec<Vec<char>>>)
    ensures
        r@.len() == sections_of(views(ls@)).len(),
        forall|k: int|
            0 <= k < r@.len() ==> #[trigger] views(r@[k]@) == sections_of(views(ls@))[k],
{
    let ghost lv = views(ls@);
    let mut secs: Vec<Vec<Vec<char>>> = Vec::new();
    let mut cur: Vec<Vec<char>> = Vec::new();
    let mut i: usize = 0;
    proof {
        assert(lv.take(0) =~= Seq::<Seq<char>>::empty());
        assert(views(cur@) =~= Seq::<Seq<char>>::empty());
    }
    while i < ls.len()
        invariant
            i <= ls@.len(),
            lv == views(ls@),
            blocks_of(lv.take(i as int)).len() == secs@.len() + 1,
            views(cur@) == blocks_of(lv.take(i as int)).last(),
            forall|k: int|
                0 <= k < secs@.len() ==> #[trigger] views(secs@[k]@) == blocks_of(
                    lv.take(i as int),
                )[k],
        decreases ls@.len() - i,
    {
        proof {
            assert(lv.take(i + 1).drop_last() =~= lv.take(i as int));
            lemma_blocks_of_nonempty(lv.take(i as int));
        }
        if ls[i].len() == 0 {
            secs.push(cur);
            cur = Vec::new();
            proof {
                assert(views(cur@) =~= Seq::<Seq<char>>::empty());
            }
        } else {
            let l = ls[i].clone();
            assert(l@ =~= lv[i as int]);
            let ghost before = views(cur@);
            cur.push(l);
            proof {
                assert(views(cur@) =~= before.push(lv[i as int]));
            }
        }
        i += 1;
    }
    proof {
        assert(lv.take(ls@.len() as int) =~= lv);
    }
    secs.push(cur);
    let ghost bs = blocks_of(lv);
    assert(secs@.len() == bs.len());
    assert(bs.take(bs.len() as int) =~= bs);
    while secs.len() > 0 && secs[secs.len() - 1].len() == 0
        invariant
            secs@.len() <= bs.len(),
            drop_trailing_empty(bs) == drop_trailing_empty(bs.take(secs@.len() as int)),
            forall|k: int| 0 <= k < secs@.len() ==> #[trigger] views(secs@[k]@) == bs[k],
        decreases secs@.len(),
    {
        let ghost n = secs@.len() as int;
        assert(bs.take(n).last() == bs[n - 1]);
        assert(views(secs@[n - 1]@).len() == 0);
        assert(bs.take(n).drop_last() =~= bs.take(n - 1));
        secs.pop();
    }
    proof {
        let n = secs@.len() as int;
        assert(bs.take(n).len() == 0 || bs.take(n).last().len() != 0) by {
            if n > 0 {
                assert(bs.take(n).last() == views(secs@[n - 1]@));
            }
        }
        assert(drop_trailing_empty(bs.take(n)) == bs.take(n));
    }
    secs
}

/// Reads each token as a number; `None` when one is not a `u64` numeral.
pub open spec fn numbers_of(ts: Seq<Seq<char>>) -> Option<Seq<u64>>
    decreases ts.len(),
{
    if ts.len() == 0 {
        Some(Seq::<u64>::empty())
    } else {
        match read_u64(ts[0]) {
            None => None,
            Some(v) => match numbers_of(ts.drop_first()) {
                None => None,
                Some(rest) => Some(seq![v] + rest),
            },
        }
    }
}

/// The position in `ts` of the first token that is not a `u64` numeral
/// (the length of `ts` when there is none).
pub open spec fn first_bad_number(ts: Seq<Seq<char>>) -> int
    decreases ts.len(),
{
    if ts.len() == 0 || read_u64(ts[0]) is None {
        0
    } else {
        1 + first_bad_number(ts.drop_first())
    }
}

/// The error for a seed line `l` that does not read (see `seeds_of_line`).
pub open spec fn seed_error(l: Seq<char>) -> ParseError {
    let p = find_char_from(l, ':', 0);
    if p < 0 {
        ParseError::MalformedSeeds { token: None }
    } else {
        ParseError::MalformedSeeds {
            token: Some(first_bad_number(tokens_of(l.skip(p + 1))) as usize),
        }
    }
}

/// The seeds of a line `<label>: n1 n2 ...`: every token after the first
/// colon must be a number.
pub open spec fn seeds_of_line(l: Seq<char>) -> Option<Seq<u64>> {
    let p = find_char_from(l, ':', 0);
    if p < 0 {
        None
    } else {
        numbers_of(tokens_of(l.skip(p + 1)))
    }
}

fn parse_seed_line(l: &Vec<char>) -> (r: Result<Vec<u64>, ParseError>)
    ensures
        match r {
            Ok(v) => seeds_of_line(l@) == Some(v@),
            Err(e) => seeds_of_line(l@) is None && e == seed_error(l@),
        },
{
    let p = match find_char(l, ':') {
        Some(p) => p,
        None => {
            return Err(ParseError::MalformedSeeds { token: None });
        },
    };
    let mut rest = l.clone();
    assert(rest@ =~= l@);
    let tail = rest.split_off(p + 1);
    assert(tail@ =~= l@.skip(p + 1));
    let ts = split_tokens(&tail);
    let ghost tv = views(ts@);
    assert(tv =~= tokens_of(tail@));
    let mut out: Vec<u64> = Vec::new();
    let mut i: usize = 0;
    proof {
        assert(tv.skip(0) =~= tv);
        assert(out@ + Seq::<u64>::empty() =~= out@);
    }
    while i < ts.len()
        invariant
            i <= ts@.len(),
            tv == views(ts@),
            seeds_of_line(l@) == numbers_of(tv),
            seed_error(l@) == (ParseError::MalformedSeeds { token: Some(first_bad_number(tv) as usize) }),
            first_bad_number(tv) == i + first_bad_number(tv.skip(i as int)),
            numbers_of(tv) == (match numbers_of(tv.skip(i as int)) {
                Some(rest) => Some(out@ + rest),
                None => None,
            }),
        decreases ts@.len() - i,
    {
        assert(tv.skip(i as int).drop_first() =~= tv.skip(i + 1));
        assert(tv.skip(i as int)[0] == ts@[i as int]@);
        match parse_u64(&ts[i]) {
            Some(v) => {
                proof {
                    let rest = numbers_of(tv.skip(i + 1));
                    if rest is Some {
                        assert(out@.push(v) + rest->Some_0 =~= out@ + (seq![v] + rest->Some_0));
                    }
                }
                out.push(v);
            },
            None => {
                assert(first_bad_number(tv.skip(i as int)) == 0);
                return Err(ParseError::MalformedSeeds { token: Some(i) });
            },
        }
        i += 1;
    }
    proof {
        assert(tv.skip(ts@.len() as int) =~= Seq::<Seq<char>>::empty());
        assert(out@ + Seq::<u64>::empty() =~= out@);
    }
    Ok(out)
}

/// The numbers to push through the tables, in order.
#[derive(Debug, PartialEq)]
pub struct Seeds(pub Vec<u64>);

impl Seeds {
    /// Reads the seeds from the first line of `s` (see `seeds_of_line`).
    pub fn from_str(s: &str) -> (r: Result<Seeds, ParseError>)
        ensures
            match r {
                Ok(sd) => seeds_of_line(lines_of(s@)[0]) == Some(sd.0@),
                Err(e) => seeds_of_line(lines_of(s@)[0]) is None && e == seed_error(lines_of(s@)[0]),
            },
    {
        let cs = chars_of(s);
        let ls = split_lines(&cs);
        proof {
            crate::text::lemma_lines_of_nonempty(cs@);
        }
        match parse_seed_line(&ls[0]) {
            Ok(v) => Ok(Seeds(v)),
            Err(e) => Err(e),
        }
    }
}

/// The tables that the sections `secs` describe, numbered from `first`, or
/// the first error.
pub open spec fn tables_of(secs: Seq<Seq<Seq<char>>>, first: int) -> Result<
    Seq<TableView>,
    ParseError,
>
    decreases secs.len(),
{
    if secs.len() == 0 {
        Ok(Seq::<TableView>::empty())
    } else {
        match table_of_lines(secs[0], first as usize) {
            Err(e) => Err(e),
            Ok(t) => match tables_of(secs.drop_first(), first + 1) {
                Err(e) => Err(e),
                Ok(rest) => Ok(seq![t] + rest),
            },
        }
    }
}

/// An almanac as plain values: its seeds and its tables.
pub type AlmanacView = (Seq<u64>, Seq<TableView>);

/// The almanac that text `t` describes. The first section's first line holds
/// the seeds (an empty first section has none to read); each later section
/// is a table (an empty one has no header). Errors come in text order.
pub open spec fn almanac_of(t: Seq<char>) -> Result<AlmanacView, ParseError> {
    let secs = sections_of(lines_of(t));
    if secs.len() == 0 {
        Err(ParseError::EmptyInput)
    } else {
        if secs[0].len() == 0 {
            Err(ParseError::MalformedSeeds { token: None })
        } else {
            match seeds_of_line(secs[0][0]) {
                None => Err(seed_error(secs[0][0])),
                Some(seeds) => match tables_of(secs.drop_first(), 0) {
                    Err(e) => Err(e),
                    Ok(ts) => Ok((seeds, ts)),
                },
            }
        }
    }
}

/// The value `v` reaches through the tables `ts`, applied first to last.
pub open spec fn fold_tables(ts: Seq<MappingTable>, v: u64) -> u64
    decreases ts.len(),
{
    if ts.len() == 0 {
        v
    } else {
        ts.last().spec_map(fold_tables(ts.drop_last(), v))
    }
}

/// The parsed document: seeds and the stages they go through.
#[derive(Debug, PartialEq)]
pub struct Almanac {
    pub seeds: Seeds,
    pub mapping_tables: Vec<MappingTable>,
}

impl View for Almanac {
    type V = AlmanacView;

    open spec fn view(&self) -> AlmanacView {
        (self.seeds.0@, self.mapping_tables@.map_values(|t: MappingTable| t@))
    }
}

pub open spec fn almanac_result(r: Result<Almanac, ParseError>) -> Result<AlmanacView, ParseError> {
    match r {
        Ok(a) => Ok(a@),
        Err(e) => Err(e),
    }
}

impl Almanac {
    pub open spec fn wf(&self) -> bool {
        forall|i: int| 0 <= i < self.mapping_tables@.len() ==> #[trigger] self.mapping_tables@[i].wf()
    }

    /// Where seed `k` ends up after every table.
    pub open spec fn location(&self, k: int) -> u64 {
        fold_tables(self.mapping_tables@, self.seeds.0@[k])
    }

    /// Parses a whole almanac (see `almanac_of`).
    pub fn from_str(s: &str) -> (r: Result<Almanac, ParseError>)
        ensures
            almanac_result(r) == almanac_of(s@),
            r is Ok ==> r->Ok_0.wf(),
    {
        let cs = chars_of(s);
        let ls = split_lines(&cs);
        proof {
            assert(views(ls@) =~= lines_of(cs@));
        }
        let secs = split_sections(&ls);
        let ghost sv = sections_of(lines_of(s@));
        if secs.len() == 0 {
            return Err(ParseError::EmptyInput);
        }
        assert(views(secs@[0]@) == sv[0]);
        if secs[0].len() == 0 {
            return Err(ParseError::MalformedSeeds { token: None });
        }
        assert(secs@[0]@[0]@ == sv[0][0]);
        let seeds = match parse_seed_line(&secs[0][0]) {
            Ok(v) => v,
            Err(e) => {
                return Err(e);
            },
        };
        let mut tables: Vec<MappingTable> = Vec::new();
        let ghost rest_secs = sv.drop_first();
        let mut i: usize = 1;
        proof {
            assert(sv.skip(1) =~= rest_secs);
            assert(tables@.map_values(|t: MappingTable| t@) + Seq::<TableView>::empty() =~= Seq::<TableView>::empty());
        }
        while i < secs.len()
            invariant
                1 <= i <= secs@.len(),
                sv == sections_of(lines_of(s@)),
                sv.len() > 0,
                sv[0].len() > 0,
                seeds_of_line(sv[0][0]) == Some(seeds@),
                secs@.len() == sv.len(),
                rest_secs == sv.drop_first(),
                forall|k: int| 0 <= k < secs@.len() ==> #[trigger] views(secs@[k]@) == sv[k],
                tables_of(rest_secs, 0) == (match tables_of(sv.skip(i as int), i - 1) {
                    Ok(rest) => Ok(tables@.map_values(|t: MappingTable| t@) + rest),
                    Err(e) => Err(e),
                }),
                forall|k: int| 0 <= k < tables@.len() ==> #[trigger] tables@[k].wf(),
            decreases secs@.len() - i,
        {
            assert(sv.skip(i as int).drop_first() =~= sv.skip(i + 1));
            assert(sv.skip(i as int)[0] == views(secs@[i as int]@));
            match table_from_lines(&secs[i], i - 1) {
                Ok(t) => {
                    proof {
                        let rest = tables_of(sv.skip(i + 1), i as int);
                        if rest is Ok {
                            assert(tables@.push(t).map_values(|t: MappingTable| t@) + rest->Ok_0
                                =~= tables@.map_values(|t: MappingTable| t@) + (seq![t@] + rest->Ok_0));
                        }
                    }
                    tables.push(t);
                },
                Err(e) => {
                    return Err(e);
                },
            }
            i += 1;
        }
        proof {
            assert(sv.skip(secs@.len() as int) =~= Seq::<Seq<Seq<char>>>::empty());
            assert(tables@.map_values(|t: MappingTable| t@) + Seq::<TableView>::empty()
                =~= tables@.map_values(|t: MappingTable| t@));
        }
        Ok(Almanac { seeds: Seeds(seeds), mapping_tables: tables })
    }

    /// Pushes every seed through all tables in order; one location per seed.
    pub fn get_mapped_seeds(&self) -> (r: Vec<u64>)
        requires
            self.wf(),
        ensures
            r@.len() == self.seeds.0@.len(),
            forall|k: int| 0 <= k < r@.len() ==> #[trigger] r@[k] == self.location(k),
    {
        let mut out: Vec<u64> = Vec::new();
        let mut k: usize = 0;
        while k < self.seeds.0.len()
            invariant
                self.wf(),
                k <= self.seeds.0@.len(),
                out@.len() == k,
                forall|j: int| 0 <= j < k ==> #[trigger] out@[j] == self.location(j),
            decreases self.seeds.0@.len() - k,
        {
            let seed = self.seeds.0[k];
            let mut v = seed;
            let mut i: usize = 0;
            proof {
                assert(self.mapping_tables@.take(0) =~= Seq::<MappingTable>::empty());
            }
            while i < self.mapping_tables.len()
                invariant
                    self.wf(),
                    i <= self.mapping_tables@.len(),
                    v == fold_tables(self.mapping_tables@.take(i as int), seed),
                decreases self.mapping_tables@.len() - i,
            {
                proof {
                    assert(self.mapping_tables@.take(i + 1).drop_last() =~= self.mapping_tables@.take(i as int));
                }
                v = self.mapping_tables[i].map(v);
                i += 1;
            }
            proof {
                assert(self.mapping_tables@.take(self.mapping_tables@.len() as int) =~= self.mapping_tables@);
            }
            out.push(v);
            k += 1;
        }
        out
    }

    /// The lowest location over all seeds; `EmptyInput` when there are none.
    pub fn lowest_location(&self) -> (r: Result<u64, ParseError>)
        requires
            self.wf(),
        ensures
            self.seeds.0@.len() == 0 <==> r == Err::<u64, ParseError>(ParseError::EmptyInput),
            self.seeds.0@.len() > 0 ==> r is Ok,
            self.seeds.0@.len() == 1 ==> r == Ok::<u64, ParseError>(self.location(0)),
            r is Ok ==> (exists|k: int| 0 <= k < self.seeds.0@.len() && r->Ok_0 == self.location(k))
                && forall|k: int| 0 <= k < self.seeds.0@.len() ==> r->Ok_0 <= #[trigger] self.location(k),
    {
        let locs = self.get_mapped_seeds();
        if locs.len() == 0 {
            return Err(ParseError::EmptyInput);
        }
        let mut m = locs[0];
        let mut i: usize = 1;
        while i < locs.len()
            invariant
                1 <= i <= locs@.len(),
                locs@.len() == self.seeds.0@.len(),
                forall|k: int| 0 <= k < locs@.len() ==> #[trigger] locs@[k] == self.location(k),
                exists|k: int| 0 <= k < i && m == locs@[k],
                forall|k: int| 0 <= k < i ==> m <= #[trigger] locs@[k],
            decreases locs@.len() - i,
        {
            if locs[i] < m {
                m = locs[i];
            }
            i += 1;
        }
        assert(locs@[0] == self.location(0));
        proof {
            let w = choose|k: int| 0 <= k < i && m == locs@[k];
            assert(m == self.location(w));
            assert forall|k: int| 0 <= k < self.seeds.0@.len() implies m <= #[trigger] self.location(
                k,
            ) by {
                assert(m <= locs@[k]);
            }
        }
        Ok(m)
    }
}

/// A mapping built from `(dst, src, len)` with `len > 0` is exact at its
/// edges: the first and last source values land on the first and last
/// destination values, and the values just outside the source are unmatched.
pub proof fn lemma_mapping_edges(dst: u64, src: u64, len: u64)
    requires
        len > 0,
        dst + len <= u64::MAX,
        src + len <= u64::MAX,
    ensures
        Mapping::spec_new(dst, src, len).spec_map(src) == Some(dst),
        Mapping::spec_new(dst, src, len).spec_map((src + len - 1) as u64) == Some(
            (dst + len - 1) as u64,
        ),
        src > 0 ==> Mapping::spec_new(dst, src, len).spec_map((src - 1) as u64) is None,
        Mapping::spec_new(dst, src, len).spec_map((src + len) as u64) is None,
{
}

proof fn lemma_resolve_from_unmatched(ms: Seq<Mapping>, i: int, n: u64)
    requires
        0 <= i,
        forall|j: int| 0 <= j < ms.len() ==> !(#[trigger] ms[j]).src.holds(n as int),
    ensures
        resolve_from(ms, i, n) == n,
    decreases ms.len() - i,
{
    if i < ms.len() {
        assert(!ms[i].src.holds(n as int));
        lemma_resolve_from_unmatched(ms, i + 1, n);
    }
}

/// A value that no source range of a table holds passes through unchanged.
pub proof fn lemma_unmatched_passes_through(t: &MappingTable, n: u64)
    requires
        forall|j: int|
            0 <= j < t.mappings@.len() ==> !(#[trigger] t.mappings@[j]).src.holds(n as int),
    ensures
        t.spec_map(n) == n,
{
    lemma_resolve_from_unmatched(t.mappings@, 0, n);
}

/// Running through the tables `first + second` is running through `first`,
/// then through `second`: the tables compose left to right.
pub proof fn lemma_fold_tables_append(first: Seq<MappingTable>, second: Seq<MappingTable>, v: u64)
    ensures
        fold_tables(first + second, v) == fold_tables(second, fold_tables(first, v)),
    decreases second.len(),
{
    if second.len() == 0 {
        assert(first + second =~= first);
    } else {
        assert((first + second).drop_last() =~= first + second.drop_last());
        lemma_fold_tables_append(first, second.drop_last(), v);
    }
}

} // verus!
