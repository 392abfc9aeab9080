//! The engine schematic: a grid of digits, symbols and dots. Numbers next
//! to a symbol, diagonals included, are part numbers.
use vstd::prelude::*;

use crate::text::{chars_of, digit_value, is_digit, lines_of, split_lines, string_of_range};

verus! {

/// A cell of the grid: its line and its position in the line.
#[derive(Debug, Clone, Copy, PartialEq, Eq, Hash, Structural)]
pub struct Location {
    pub line: usize,
    pub index: usize,
}

/// A number of the grid and the cell of its first counted digit.
#[derive(Debug, Clone, Copy, PartialEq, Eq, Structural)]
pub struct Number {
    pub number: u32,
    pub location: Location,
}

/// A grid that holds a number too large for `u32`.
#[derive(Debug, Clone, Copy, PartialEq, Eq, Structural)]
pub struct ParseSchematicError;

/// The number of decimal digits of `n`.
pub open spec fn decimal_len(n: nat) -> nat
    decreases n,
{
    if n < 10 {
        1
    } else {
        1 + decimal_len(n / 10)
    }
}

pub open spec fn pow10(k: nat) -> nat
    decreases k,
{
    if k == 0 {
        1
    } else {
        10 * pow10((k - 1) as nat)
    }
}

proof fn lemma_decimal_len_bound(n: nat, k: nat)
    requires
        k >= 1,
        n < pow10(k),
    ensures
        decimal_len(n) <= k,
    decreases k,
{
    if n >= 10 {
        assert(k >= 2) by {
            if k == 1 {
                assert(pow10(1) == 10 * pow10(0));
            }
        }
        assert(n / 10 < pow10((k - 1) as nat));
        lemma_decimal_len_bound(n / 10, (k - 1) as nat);
    }
}

fn decimal_len_exec(n: u32) -> (r: usize)
    ensures
        r == decimal_len(n as nat),
        1 <= r <= 10,
{
    proof {
        reveal_with_fuel(pow10, 11);
        lemma_decimal_len_bound(n as nat, 10);
    }
    let mut m = n;
    let mut k: usize = 1;
    while m >= 10
        invariant
            1 <= k,
            k + decimal_len(m as nat) - 1 == decimal_len(n as nat),
            decimal_len(n as nat) <= 10,
        decreases m,
    {
        m = m / 10;
        k += 1;
    }
    k
}

impl Location {
    pub fn new(line: usize, index: usize) -> (r: Location)
        ensures
            r == (Location { line, index }),
    {
        Location { line, index }
    }
}

/// The cells `index` for `index` in `from..=to` of line `line`.
pub open spec fn row_cells(line: int, from: int, to: int) -> Seq<Location> {
    Seq::new(
        (if to >= from {
            to - from + 1
        } else {
            0
        }) as nat,
        |k: int| Location { line: line as usize, index: (from + k) as usize },
    )
}

/// The cells around a number, as the row above (when there is one), the
/// cells just before and after it, and the row below, each left to right;
/// cells before the first column are left out.
pub open spec fn adjacent_cells(n: Number) -> Seq<Location> {
    let line = n.location.line as int;
    let a = n.location.index - 1;
    let b = n.location.index + decimal_len(n.number as nat);
    let lo = if a >= 0 {
        a
    } else {
        0
    };
    let above = if line >= 1 {
        row_cells(line - 1, lo, b)
    } else {
        Seq::<Location>::empty()
    };
    let before = if a >= 0 {
        seq![Location { line: line as usize, index: a as usize }]
    } else {
        Seq::<Location>::empty()
    };
    above + before + seq![Location { line: line as usize, index: b as usize }] + row_cells(
        line + 1,
        lo,
        b,
    )
}

/// Locations that leave room for the cells around them.
pub open spec fn roomy(l: Location) -> bool {
    l.line + 1 <= usize::MAX && l.index + 11 <= usize::MAX
}

fn push_row(out: &mut Vec<Location>, line: usize, from: usize, to: usize)
    requires
        from <= to,
    ensures
        final(out)@ == old(out)@ + row_cells(line as int, from as int, to as int),
{
    let ghost start = out@;
    let mut i: usize = from;
    assert(row_cells(line as int, from as int, from - 1) =~= Seq::<Location>::empty());
    assert(start + Seq::<Location>::empty() =~= start);
    loop
        invariant_except_break
            from <= i <= to,
            out@ == start + row_cells(line as int, from as int, i - 1),
        ensures
            out@ == start + row_cells(line as int, from as int, to as int),
        decreases to - i,
    {
        out.push(Location { line, index: i });
        assert(out@ =~= start + row_cells(line as int, from as int, i as int));
        if i == to {
            break;
        }
        i += 1;
    }
}

impl Number {
    pub fn new(number: u32, line: usize, index: usize) -> (r: Number)
        ensures
            r == (Number { number, location: Location { line, index } }),
    {
        Number { number, location: Location::new(line, index) }
    }

    /// The cells around the number (see `adjacent_cells`).
    pub fn get_adjacent_locations(&self) -> (r: Vec<Location>)
        requires
            roomy(self.location),
        ensures
            r@ == adjacent_cells(*self),
    {
        let line = self.location.line;
        let index = self.location.index;
        let b = index + decimal_len_exec(self.number);
        let lo = if index >= 1 {
            index - 1
        } else {
            0
        };
        let mut out: Vec<Location> = Vec::new();
        if line >= 1 {
            push_row(&mut out, line - 1, lo, b);
        }
        if index >= 1 {
            out.push(Location { line, index: index - 1 });
        }
        out.push(Location { line, index: b });
        push_row(&mut out, line + 1, lo, b);
        assert(out@ =~= adjacent_cells(*self));
        out
    }
}

/// A symbol of the grid and its cell.
pub type SymbolView = (Location, Seq<char>);

/// Scanning a line: the numbers and symbols found so far, and the value of
/// the digits read since the last number ended.
pub type ScanState = (Seq<Number>, Seq<SymbolView>, u32);

/// The state after scanning the characters `l` of line `li`; `None` once a
/// number no longer fits in `u32`. A run of digits whose value is 0 is not
/// a number.
pub open spec fn scan(l: Seq<char>, li: usize) -> Option<ScanState>
    decreases l.len(),
{
    if l.len() == 0 {
        Some((Seq::<Number>::empty(), Seq::<SymbolView>::empty(), 0u32))
    } else {
        match scan(l.drop_last(), li) {
            None => None,
            Some(st) => {
                let c = l.last();
                let i = l.len() - 1;
                if is_digit(c) {
                    let v = st.2 * 10 + digit_value(c);
                    if v > u32::MAX {
                        None
                    } else {
                        Some((st.0, st.1, v as u32))
                    }
                } else {
                    let ns = if st.2 != 0 {
                        st.0.push(number_ending_at(st.2, li, i))
                    } else {
                        st.0
                    };
                    let ss = if c != '.' {
                        st.1.push((Location { line: li, index: i as usize }, seq![c]))
                    } else {
                        st.1
                    };
                    Some((ns, ss, 0u32))
                }
            },
        }
    }
}

/// The number `v` whose digits end just before position `end` of line `li`.
pub open spec fn number_ending_at(v: u32, li: usize, end: int) -> Number {
    let d = decimal_len(v as nat);
    Number {
        number: v,
        location: Location {
            line: li,
            index: (if end >= d {
                end - d
            } else {
                0
            }) as usize,
        },
    }
}

/// The numbers and symbols of line `l`, numbered `li`.
pub open spec fn line_items(l: Seq<char>, li: usize) -> Option<(Seq<Number>, Seq<SymbolView>)> {
    match scan(l, li) {
        None => None,
        Some(st) => Some(
            (
                if st.2 != 0 {
                    st.0.push(number_ending_at(st.2, li, l.len() as int))
                } else {
                    st.0
                },
                st.1,
            ),
        ),
    }
}

/// The numbers and symbols of the lines `ls`, line by line.
pub open spec fn grid_items(ls: Seq<Seq<char>>) -> Option<(Seq<Number>, Seq<SymbolView>)>
    decreases ls.len(),
{
    if ls.len() == 0 {
        Some((Seq::<Number>::empty(), Seq::<SymbolView>::empty()))
    } else {
        match (grid_items(ls.drop_last()), line_items(ls.last(), (ls.len() - 1) as usize)) {
            (Some(g), Some(l)) => Some((g.0 + l.0, g.1 + l.1)),
            _ => None,
        }
    }
}

/// Whether cell `a` comes before cell `b` in reading order.
pub open spec fn reads_before(a: Location, b: Location) -> bool {
    a.line < b.line || (a.line == b.line && a.index < b.index)
}

/// Whether the symbols of `ss` stand in strict reading order.
pub open spec fn in_reading_order(ss: Seq<SymbolView>) -> bool {
    forall|i: int, j: int| 0 <= i < j < ss.len() ==> reads_before(#[trigger] ss[i].0, #[trigger] ss[j].0)
}

proof fn lemma_scan_symbols_ordered(l: Seq<char>, li: usize)
    requires
        scan(l, li) is Some,
        l.len() <= usize::MAX,
    ensures
        in_reading_order(scan(l, li)->Some_0.1),
        forall|k: int|
            0 <= k < scan(l, li)->Some_0.1.len() ==> (#[trigger] scan(l, li)->Some_0.1[k]).0.line
                == li && scan(l, li)->Some_0.1[k].0.index < l.len(),
    decreases l.len(),
{
    if l.len() > 0 {
        lemma_scan_symbols_ordered(l.drop_last(), li);
        let prev = scan(l.drop_last(), li)->Some_0.1;
        let cur = scan(l, li)->Some_0.1;
        if cur != prev {
            let loc = Location { line: li, index: (l.len() - 1) as usize };
            assert(cur == prev.push((loc, seq![l.last()])));
            assert forall|i: int, j: int| 0 <= i < j < cur.len() implies reads_before(
                #[trigger] cur[i].0,
                #[trigger] cur[j].0,
            ) by {
                assert(cur[i] == prev[i]);
                if j < prev.len() {
                    assert(cur[j] == prev[j]);
                }
            }
            assert forall|k: int| 0 <= k < cur.len() implies (#[trigger] cur[k]).0.line == li
                && cur[k].0.index < l.len() by {
                if k < prev.len() {
                    assert(cur[k] == prev[k]);
                }
            }
        }
    }
}

proof fn lemma_append_line_symbols(a: Seq<SymbolView>, l: Seq<char>, li: usize)
    requires
        in_reading_order(a),
        forall|k: int| 0 <= k < a.len() ==> (#[trigger] a[k]).0.line < li,
        line_items(l, li) is Some,
        l.len() <= usize::MAX,
    ensures
        in_reading_order(a + line_items(l, li)->Some_0.1),
        forall|k: int|
            0 <= k < (a + line_items(l, li)->Some_0.1).len() ==> (#[trigger] (a + line_items(
                l,
                li,
            )->Some_0.1)[k]).0.line <= li,
{
    lemma_scan_symbols_ordered(l, li);
    let b = line_items(l, li)->Some_0.1;
    assert(b == scan(l, li)->Some_0.1);
    let c = a + b;
    assert forall|i: int, j: int| 0 <= i < j < c.len() implies reads_before(
        #[trigger] c[i].0,
        #[trigger] c[j].0,
    ) by {
        if j < a.len() {
            assert(c[i] == a[i] && c[j] == a[j]);
        } else if i >= a.len() {
            assert(c[i] == b[i - a.len()] && c[j] == b[j - a.len()]);
        } else {
            assert(c[i] == a[i] && c[j] == b[j - a.len()]);
        }
    }
    assert forall|k: int| 0 <= k < c.len() implies (#[trigger] c[k]).0.line <= li by {
        if k < a.len() {
            assert(c[k] == a[k]);
        } else {
            assert(c[k] == b[k - a.len()]);
        }
    }
}

/// The parsed grid: its numbers and its symbols, in reading order.
#[derive(Debug, PartialEq)]
pub struct Schematic {
    pub numbers: Vec<Number>,
    pub symbols: Vec<(Location, String)>,
}

pub open spec fn symbols_view(ss: Seq<(Location, String)>) -> Seq<SymbolView> {
    ss.map_values(|s: (Location, String)| (s.0, s.1@))
}

proof fn lemma_scan_prefix_none(l: Seq<char>, li: usize, j: int)
    requires
        0 <= j <= l.len(),
        scan(l.take(j), li) is None,
    ensures
        scan(l, li) is None,
    decreases l.len(),
{
    if j < l.len() {
        assert(l.drop_last().take(j) =~= l.take(j));
        lemma_scan_prefix_none(l.drop_last(), li, j);
    } else {
        assert(l.take(j) =~= l);
    }
}

fn scan_line(
    l: &Vec<char>,
    li: usize,
    numbers: &mut Vec<Number>,
    symbols: &mut Vec<(Location, String)>,
) -> (ok: bool)
    ensures
        ok == line_items(l@, li) is Some,
        ok ==> final(numbers)@ == old(numbers)@ + line_items(l@, li)->Some_0.0 && symbols_view(
            final(symbols)@,
        ) == symbols_view(old(symbols)@) + line_items(l@, li)->Some_0.1,
{
    let ghost n0 = numbers@;
    let ghost s0 = symbols_view(symbols@);
    let mut num: u32 = 0;
    let mut i: usize = 0;
    proof {
        assert(l@.take(0) =~= Seq::<char>::empty());
        assert(n0 + Seq::<Number>::empty() =~= n0);
        assert(s0 + Seq::<SymbolView>::empty() =~= s0);
    }
    while i < l.len()
        invariant
            i <= l@.len(),
            scan(l@.take(i as int), li) is Some,
            numbers@ == n0 + scan(l@.take(i as int), li)->Some_0.0,
            symbols_view(symbols@) == s0 + scan(l@.take(i as int), li)->Some_0.1,
            num == scan(l@.take(i as int), li)->Some_0.2,
        decreases l@.len() - i,
    {
        let c = l[i];
        assert(l@.take(i + 1).drop_last() =~= l@.take(i as int));
        assert(l@.take(i + 1).last() == c);
        let ghost st = scan(l@.take(i as int), li)->Some_0;
        if '0' <= c && c <= '9' {
            let d = (c as u32 - '0' as u32);
            match num.checked_mul(10) {
                Some(m) => match m.checked_add(d) {
                    Some(v) => {
                        num = v;
                    },
                    None => {
                        proof {
                            lemma_scan_prefix_none(l@, li, i + 1);
                        }
                        return false;
                    },
                },
                None => {
                    proof {
                        lemma_scan_prefix_none(l@, li, i + 1);
                    }
                    return false;
                },
            }
        } else {
            if num != 0 {
                let d = decimal_len_exec(num);
                let idx = if i >= d {
                    i - d
                } else {
                    0
                };
                numbers.push(Number { number: num, location: Location { line: li, index: idx } });
                assert(numbers@ =~= n0 + st.0.push(number_ending_at(st.2, li, i as int)));
                num = 0;
            }
            if c != '.' {
                let sym = string_of_range(l, i, i + 1);
                let ghost before = symbols@;
                symbols.push((Location { line: li, index: i }, sym));
                assert(sym@ =~= seq![c]);
                assert(symbols_view(symbols@) =~= symbols_view(before).push(
                    (Location { line: li, index: i }, seq![c]),
                ));
                assert(symbols_view(symbols@) =~= s0 + st.1.push(
                    (Location { line: li, index: i }, seq![c]),
                ));
            }
        }
        i += 1;
    }
    assert(l@.take(l@.len() as int) =~= l@);
    if num != 0 {
        let d = decimal_len_exec(num);
        let n = l.len();
        let idx = if n >= d {
            n - d
        } else {
            0
        };
        let ghost st = scan(l@, li)->Some_0;
        numbers.push(Number { number: num, location: Location { line: li, index: idx } });
        assert(numbers@ =~= n0 + st.0.push(number_ending_at(st.2, li, l@.len() as int)));
    }
    true
}

proof fn lemma_grid_prefix_none(ls: Seq<Seq<char>>, j: int)
    requires
        0 <= j <= ls.len(),
        grid_items(ls.take(j)) is None,
    ensures
        grid_items(ls) is None,
    decreases ls.len(),
{
    if j < ls.len() {
        assert(ls.drop_last().take(j) =~= ls.take(j));
        lemma_grid_prefix_none(ls.drop_last(), j);
    } else {
        assert(ls.take(j) =~= ls);
    }
}

/// Whether a symbol stands in a cell around `n`.
pub open spec fn is_part(n: Number, syms: Seq<SymbolView>) -> bool {
    exists|j: int, k: int|
        0 <= j < adjacent_cells(n).len() && 0 <= k < syms.len() && #[trigger] adjacent_cells(n)[j]
            == #[trigger] syms[k].0
}

/// The values of the numbers of `ns` that are part numbers, in order.
pub open spec fn part_values(ns: Seq<Number>, syms: Seq<SymbolView>) -> Seq<u32>
    decreases ns.len(),
{
    if ns.len() == 0 {
        Seq::<u32>::empty()
    } else if is_part(ns.last(), syms) {
        part_values(ns.drop_last(), syms).push(ns.last().number)
    } else {
        part_values(ns.drop_last(), syms)
    }
}

/// The sum of `xs`.
pub open spec fn sum_u32s(xs: Seq<u32>) -> int
    decreases xs.len(),
{
    if xs.len() == 0 {
        0
    } else {
        sum_u32s(xs.drop_last()) + xs.last()
    }
}

proof fn lemma_sum_prefix_le(xs: Seq<u32>, j: int)
    requires
        0 <= j <= xs.len(),
    ensures
        sum_u32s(xs.take(j)) <= sum_u32s(xs),
    decreases xs.len(),
{
    if j < xs.len() {
        assert(xs.drop_last().take(j) =~= xs.take(j));
        lemma_sum_prefix_le(xs.drop_last(), j);
    } else {
        assert(xs.take(j) =~= xs);
    }
}

impl Schematic {
    /// No two symbols share a cell.
    pub open spec fn symbols_unique(&self) -> bool {
        forall|i: int, j: int|
            0 <= i < j < self.symbols@.len() ==> #[trigger] self.symbols@[i].0
                != #[trigger] self.symbols@[j].0
    }

    pub open spec fn wf(&self) -> bool {
        &&& forall|i: int|
            0 <= i < self.numbers@.len() ==> roomy(#[trigger] self.numbers@[i].location)
        &&& self.symbols_unique()
    }

    /// Reads the grid (see `grid_items`).
    pub fn from_str(s: &str) -> (r: Result<Schematic, ParseSchematicError>)
        ensures
            r is Ok <==> grid_items(lines_of(s@)) is Some,
            r matches Ok(sc) ==> grid_items(lines_of(s@)) == Some(
                (sc.numbers@, symbols_view(sc.symbols@)),
            ),
            r matches Ok(sc) ==> sc.symbols_unique(),
    {
        let cs = chars_of(s);
        let ls = split_lines(&cs);
        let ghost lv = lines_of(s@);
        let mut numbers: Vec<Number> = Vec::new();
        let mut symbols: Vec<(Location, String)> = Vec::new();
        let mut li: usize = 0;
        proof {
            assert(lv.take(0) =~= Seq::<Seq<char>>::empty());
            assert(symbols_view(symbols@) =~= Seq::<SymbolView>::empty());
        }
        while li < ls.len()
            invariant
                li <= ls@.len(),
                lv == lines_of(s@),
                lv.len() == ls@.len(),
                forall|k: int| 0 <= k < ls@.len() ==> #[trigger] ls@[k]@ == lv[k],
                grid_items(lv.take(li as int)) == Some((numbers@, symbols_view(symbols@))),
                in_reading_order(symbols_view(symbols@)),
                forall|k: int|
                    0 <= k < symbols@.len() ==> (#[trigger] symbols_view(symbols@)[k]).0.line < li,
            decreases ls@.len() - li,
        {
            assert(lv.take(li + 1).drop_last() =~= lv.take(li as int));
            assert(lv.take(li + 1).last() == ls@[li as int]@);
            let line_len = ls[li].len();
            let ghost before = symbols_view(symbols@);
            if !scan_line(&ls[li], li, &mut numbers, &mut symbols) {
                proof {
                    lemma_grid_prefix_none(lv, li + 1);
                }
                return Err(ParseSchematicError);
            }
            proof {
                lemma_append_line_symbols(before, ls@[li as int]@, li);
                let after = symbols_view(symbols@);
                assert forall|k: int| 0 <= k < symbols@.len() implies (#[trigger] symbols_view(
                    symbols@,
                )[k]).0.line < li + 1 by {
                    assert(after[k] == (before + line_items(ls@[li as int]@, li)->Some_0.1)[k]);
                }
            }
            li += 1;
        }
        assert(lv.take(ls@.len() as int) =~= lv);
        proof {
            let sv = symbols_view(symbols@);
            assert forall|i: int, j: int| 0 <= i < j < symbols@.len() implies #[trigger] symbols@[i].0
                != #[trigger] symbols@[j].0 by {
                assert(sv[i].0 == symbols@[i].0);
                assert(sv[j].0 == symbols@[j].0);
            }
        }
        Ok(Schematic { numbers, symbols })
    }

    /// The values of the numbers next to a symbol, in reading order.
    pub fn find_part_numbers(self) -> (r: Vec<u32>)
        requires
            self.wf(),
        ensures
            r@ == part_values(self.numbers@, symbols_view(self.symbols@)),
    {
        let ghost sv = symbols_view(self.symbols@);
        let mut out: Vec<u32> = Vec::new();
        let mut i: usize = 0;
        proof {
            assert(self.numbers@.take(0) =~= Seq::<Number>::empty());
        }
        while i < self.numbers.len()
            invariant
                i <= self.numbers@.len(),
                self.wf(),
                sv == symbols_view(self.symbols@),
                out@ == part_values(self.numbers@.take(i as int), sv),
            decreases self.numbers@.len() - i,
        {
            let n = &self.numbers[i];
            assert(self.numbers@.take(i + 1).drop_last() =~= self.numbers@.take(i as int));
            assert(self.numbers@.take(i + 1).last() == *n);
            let cells = n.get_adjacent_locations();
            let mut found = false;
            let mut j: usize = 0;
            while j < cells.len()
                invariant
                    j <= cells@.len(),
                    cells@ == adjacent_cells(*n),
                    sv == symbols_view(self.symbols@),
                    found ==> is_part(*n, sv),
                    !found ==> forall|a: int, k: int|
                        0 <= a < j && 0 <= k < sv.len() ==> #[trigger] adjacent_cells(*n)[a]
                            != #[trigger] sv[k].0,
                ensures
                    found ==> is_part(*n, sv),
                    !found ==> forall|a: int, k: int|
                        0 <= a < cells@.len() && 0 <= k < sv.len() ==> #[trigger] adjacent_cells(
                            *n,
                        )[a] != #[trigger] sv[k].0,
                decreases cells@.len() - j,
            {
                let mut k: usize = 0;
                while k < self.symbols.len()
                    invariant
                        k <= self.symbols@.len(),
                        j < cells@.len(),
                        cells@ == adjacent_cells(*n),
                        sv == symbols_view(self.symbols@),
                        found ==> is_part(*n, sv),
                        !found ==> forall|a: int, b: int|
                            0 <= a < j && 0 <= b < sv.len() ==> #[trigger] adjacent_cells(*n)[a]
                                != #[trigger] sv[b].0,
                        !found ==> forall|b: int|
                            0 <= b < k ==> adjacent_cells(*n)[j as int] != #[trigger] sv[b].0,
                    decreases self.symbols@.len() - k,
                {
                    assert(sv[k as int].0 == self.symbols@[k as int].0);
                    if cells[j] == self.symbols[k].0 {
                        assert(adjacent_cells(*n)[j as int] == sv[k as int].0);
                        found = true;
                    }
                    k += 1;
                }
                if found {
                    break;
                }
                j += 1;
            }
            if found {
                out.push(n.number);
            } else {
                assert(!is_part(*n, sv));
            }
            i += 1;
        }
        assert(self.numbers@.take(self.numbers@.len() as int) =~= self.numbers@);
        out
    }
}

/// Whether every number leaves room for the cells around it.
pub open spec fn all_roomy(ns: Seq<Number>) -> bool {
    forall|i: int| 0 <= i < ns.len() ==> roomy(#[trigger] ns[i].location)
}

/// The sum of the part numbers of the grid `input`: an error when the grid
/// does not read, when a number sits where its surrounding cells would leave
/// `usize`, or when the sum leaves `u32`.
pub open spec fn part_sum(input: Seq<char>) -> Option<u32> {
    match grid_items(lines_of(input)) {
        None => None,
        Some(g) => {
            let total = sum_u32s(part_values(g.0, g.1));
            if all_roomy(g.0) && total <= u32::MAX {
                Some(total as u32)
            } else {
                None
            }
        },
    }
}

/// The sum of the part numbers of `input` (see `part_sum`).
pub fn part_1(input: &str) -> (r: Result<u32, ParseSchematicError>)
    ensures
        r is Ok <==> part_sum(input@) is Some,
        r matches Ok(v) ==> part_sum(input@) == Some(v),
{
    let schm = Schematic::from_str(input)?;
    let ghost g = grid_items(lines_of(input@))->Some_0;
    let mut i: usize = 0;
    while i < schm.numbers.len()
        invariant
            i <= schm.numbers@.len(),
            g == grid_items(lines_of(input@))->Some_0,
            grid_items(lines_of(input@)) is Some,
            g.0 == schm.numbers@,
            forall|k: int| 0 <= k < i ==> roomy(#[trigger] schm.numbers@[k].location),
        decreases schm.numbers@.len() - i,
    {
        let l = schm.numbers[i].location;
        if l.line == usize::MAX || l.index > usize::MAX - 11 {
            assert(!roomy(g.0[i as int].location));
            return Err(ParseSchematicError);
        }
        i += 1;
    }
    assert(all_roomy(g.0));
    let parts = schm.find_part_numbers();
    assert(parts@ == part_values(g.0, g.1));
    let mut total: u32 = 0;
    let mut i: usize = 0;
    proof {
        assert(parts@.take(0) =~= Seq::<u32>::empty());
    }
    while i < parts.len()
        invariant
            i <= parts@.len(),
            g == grid_items(lines_of(input@))->Some_0,
            grid_items(lines_of(input@)) is Some,
            all_roomy(g.0),
            parts@ == part_values(g.0, g.1),
            total == sum_u32s(parts@.take(i as int)),
        decreases parts@.len() - i,
    {
        assert(parts@.take(i + 1).drop_last() =~= parts@.take(i as int));
        if total > 0xffff_ffff - parts[i] {
            proof {
                lemma_sum_prefix_le(parts@, i + 1);
            }
            return Err(ParseSchematicError);
        }
        total = total + parts[i];
        i += 1;
    }
    assert(parts@.take(parts@.len() as int) =~= parts@);
    Ok(total)
}

} // verus!
