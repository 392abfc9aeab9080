//! The canonical text of a mapping table, and the proof that reading it
//! back gives the same table.
use vstd::prelude::*;
use vstd::string::StringExecFns;

use crate::almanac::{
    all_wf, body_mappings, find_separator_from, header_labels, mapping_of_line, resolve_from,
    separator_at, table_of_lines, word_end, Mapping, MappingTable,
};
use crate::text::{
    push_char, digit_value, is_numeral, is_space, lines_of, numeral_value, read_u64, tokens_of,
};

verus! {

pub open spec fn digit_char(d: nat) -> char {
    if d == 0 {
        '0'
    } else if d == 1 {
        '1'
    } else if d == 2 {
        '2'
    } else if d == 3 {
        '3'
    } else if d == 4 {
        '4'
    } else if d == 5 {
        '5'
    } else if d == 6 {
        '6'
    } else if d == 7 {
        '7'
    } else if d == 8 {
        '8'
    } else {
        '9'
    }
}

/// The decimal numeral of `n`, without leading zeros.
pub open spec fn decimal(n: nat) -> Seq<char>
    decreases n,
{
    if n < 10 {
        seq![digit_char(n)]
    } else {
        decimal(n / 10).push(digit_char(n % 10))
    }
}

/// The line `dest src len` of a mapping.
pub open spec fn mapping_text(m: Mapping) -> Seq<char> {
    decimal(m.dest.start as nat) + seq![' '] + decimal(m.src.start as nat) + seq![' '] + decimal(
        (m.src.end - m.src.start) as nat,
    )
}

/// The header line `<from>-to-<to> map:`.
pub open spec fn header_text(from: Seq<char>, to: Seq<char>) -> Seq<char> {
    from + seq!['-', 't', 'o', '-'] + to + seq![' ', 'm', 'a', 'p', ':']
}

/// The canonical text of a table: its header, then one line per mapping.
pub open spec fn table_text(from: Seq<char>, to: Seq<char>, ms: Seq<Mapping>) -> Seq<char>
    decreases ms.len(),
{
    if ms.len() == 0 {
        header_text(from, to)
    } else {
        table_text(from, to, ms.drop_last()) + seq!['\n'] + mapping_text(ms.last())
    }
}

/// Characters that may stand in a line.
pub open spec fn inline(t: Seq<char>) -> bool {
    forall|i: int| 0 <= i < t.len() ==> #[trigger] t[i] != '\n' && t[i] != '\r'
}

/// A source label that the header grammar reads back: no dash, no line break.
pub open spec fn source_label_ok(from: Seq<char>) -> bool {
    inline(from) && forall|i: int| 0 <= i < from.len() ==> #[trigger] from[i] != '-'
}

/// A destination label that the header grammar reads back: no whitespace.
pub open spec fn dest_label_ok(to: Seq<char>) -> bool {
    forall|i: int| 0 <= i < to.len() ==> !is_space(#[trigger] to[i])
}

proof fn lemma_decimal(n: nat)
    ensures
        is_numeral(decimal(n)),
        numeral_value(decimal(n)) == n,
        inline(decimal(n)),
        forall|i: int| 0 <= i < decimal(n).len() ==> !is_space(#[trigger] decimal(n)[i]),
    decreases n,
{
    if n >= 10 {
        lemma_decimal(n / 10);
        let d = decimal(n);
        assert(d.drop_last() =~= decimal(n / 10));
        let r = n % 10;
        assert(r < 10);
        assert(digit_value(digit_char(r)) == r);
        assert((n / 10) * 10 + r == n);
        assert(d.last() == digit_char(r));
        assert(numeral_value(d) == numeral_value(d.drop_last()) * 10 + digit_value(d.last()));
        assert(numeral_value(d.drop_last()) == n / 10);
        assert(numeral_value(d) == n);
    } else {
        let d = decimal(n);
        assert(d.drop_last() =~= Seq::<char>::empty());
        assert(numeral_value(d.drop_last()) == 0);
        assert(d.last() == digit_char(n));
        assert(digit_value(digit_char(n)) == n);
        assert(numeral_value(decimal(n)) == n);
    }
}

proof fn lemma_lines_append_inline(x: Seq<char>, y: Seq<char>)
    requires
        inline(y),
    ensures
        lines_of(x + y) == lines_of(x).update(
            lines_of(x).len() - 1,
            lines_of(x).last() + y,
        ),
    decreases y.len(),
{
    crate::text::lemma_lines_of_nonempty(x);
    if y.len() == 0 {
        assert(x + y =~= x);
        assert(lines_of(x).last() + y =~= lines_of(x).last());
        assert(lines_of(x).update(lines_of(x).len() - 1, lines_of(x).last()) =~= lines_of(x));
    } else {
        assert((x + y).drop_last() =~= x + y.drop_last());
        lemma_lines_append_inline(x, y.drop_last());
        assert((x + y).last() == y.last());
        assert(lines_of(x).last() + y.drop_last() + seq![y.last()] =~= lines_of(x).last() + y);
        assert((lines_of(x).last() + y.drop_last()).push(y.last()) =~= lines_of(x).last() + y);
        assert(lines_of(x + y) =~= lines_of(x).update(lines_of(x).len() - 1, lines_of(x).last() + y));
    }
}

proof fn lemma_lines_new_line(x: Seq<char>, y: Seq<char>)
    requires
        inline(y),
    ensures
        lines_of(x + seq!['\n'] + y) == lines_of(x).push(y),
{
    let xn = x + seq!['\n'];
    assert(xn.drop_last() =~= x);
    assert(lines_of(xn) == lines_of(x).push(Seq::<char>::empty()));
    lemma_lines_append_inline(xn, y);
    assert(Seq::<char>::empty() + y =~= y);
    assert(lines_of(xn).update(lines_of(xn).len() - 1, lines_of(xn).last() + y) =~= lines_of(
        x,
    ).push(y));
}

proof fn lemma_tokens_word(x: Seq<char>, y: Seq<char>)
    requires
        y.len() > 0,
        forall|i: int| 0 <= i < y.len() ==> !is_space(#[trigger] y[i]),
        x.len() == 0 || is_space(x.last()),
    ensures
        tokens_of(x + y) == tokens_of(x).push(y),
    decreases y.len(),
{
    assert((x + y).drop_last() =~= x + y.drop_last());
    assert((x + y).last() == y.last());
    if y.len() == 1 {
        assert(x + y.drop_last() =~= x);
        assert(seq![y.last()] =~= y);
    } else {
        lemma_tokens_word(x, y.drop_last());
        assert((x + y)[(x + y).len() - 2] == y[y.len() - 2]);
        assert(y.drop_last().push(y.last()) =~= y);
    }
}

proof fn lemma_tokens_space(x: Seq<char>)
    ensures
        tokens_of(x + seq![' ']) == tokens_of(x),
{
    assert((x + seq![' ']).drop_last() =~= x);
}

proof fn lemma_mapping_line(m: Mapping)
    requires
        m.wf(),
    ensures
        mapping_of_line(mapping_text(m)) == Some(m),
        mapping_text(m).len() > 0,
        inline(mapping_text(m)),
{
    let a = decimal(m.dest.start as nat);
    let b = decimal(m.src.start as nat);
    let c = decimal((m.src.end - m.src.start) as nat);
    lemma_decimal(m.dest.start as nat);
    lemma_decimal(m.src.start as nat);
    lemma_decimal((m.src.end - m.src.start) as nat);
    let sp = seq![' '];
    assert(Seq::<char>::empty() + a =~= a);
    lemma_tokens_word(Seq::<char>::empty(), a);
    lemma_tokens_space(a);
    lemma_tokens_word(a + sp, b);
    lemma_tokens_space(a + sp + b);
    lemma_tokens_word(a + sp + b + sp, c);
    let ts = tokens_of(mapping_text(m));
    assert(ts =~= seq![a, b, c]);
    assert(read_u64(a) == Some(m.dest.start));
    assert(read_u64(b) == Some(m.src.start));
    assert(read_u64(c) == Some((m.src.end - m.src.start) as u64));
    assert(Mapping::spec_new(m.dest.start, m.src.start, (m.src.end - m.src.start) as u64) == m);
    assert forall|i: int| 0 <= i < mapping_text(m).len() implies #[trigger] mapping_text(m)[i]
        != '\n' && mapping_text(m)[i] != '\r' by {
        let t = mapping_text(m);
        if i < a.len() {
            assert(t[i] == a[i]);
        } else if i == a.len() {
        } else if i < a.len() + 1 + b.len() {
            assert(t[i] == b[i - a.len() - 1]);
        } else if i == a.len() + 1 + b.len() {
        } else {
            assert(t[i] == c[i - a.len() - 2 - b.len()]);
        }
    }
}

proof fn lemma_find_separator(from: Seq<char>, rest: Seq<char>, i: int)
    requires
        source_label_ok(from),
        0 <= i <= from.len(),
        rest.len() >= 4,
        rest[0] == '-' && rest[1] == 't' && rest[2] == 'o' && rest[3] == '-',
    ensures
        find_separator_from(from + rest, i) == from.len(),
    decreases from.len() - i,
{
    let h = from + rest;
    if i < from.len() {
        assert(h[i] == from[i]);
        assert(!separator_at(h, i));
        lemma_find_separator(from, rest, i + 1);
    } else {
        assert(separator_at(h, i));
    }
}

proof fn lemma_word_end(h: Seq<char>, start: int, i: int, n: int)
    requires
        0 <= start <= i <= start + n,
        start + n < h.len(),
        is_space(h[start + n]),
        forall|k: int| start <= k < start + n ==> !is_space(#[trigger] h[k]),
    ensures
        word_end(h, i) == start + n,
    decreases start + n - i,
{
    if i < start + n {
        lemma_word_end(h, start, i + 1, n);
    }
}

proof fn lemma_header(from: Seq<char>, to: Seq<char>)
    requires
        source_label_ok(from),
        dest_label_ok(to),
    ensures
        header_labels(header_text(from, to)) == Some((from, to)),
{
    let h = header_text(from, to);
    let sep = seq!['-', 't', 'o', '-'];
    let tail = seq![' ', 'm', 'a', 'p', ':'];
    assert(h =~= from + (sep + to + tail));
    lemma_find_separator(from, sep + to + tail, 0);
    let p = from.len() as int;
    assert forall|k: int| p + 4 <= k < p + 4 + to.len() implies !is_space(#[trigger] h[k]) by {
        assert(h[k] == to[k - p - 4]);
    }
    assert(h[p + 4 + to.len()] == ' ');
    lemma_word_end(h, p + 4, p + 4, to.len() as int);
    assert(h.take(p) =~= from);
    assert(h.subrange(p + 4, p + 4 + to.len()) =~= to);
}

proof fn lemma_body_push(bs: Seq<Seq<char>>, ms: Seq<Mapping>, l: Seq<char>, m: Mapping)
    requires
        body_mappings(bs) == Some(ms),
        l.len() > 0,
        mapping_of_line(l) == Some(m),
    ensures
        body_mappings(bs.push(l)) == Some(ms.push(m)),
    decreases bs.len(),
{
    if bs.len() == 0 {
        assert(bs.push(l).drop_first() =~= Seq::<Seq<char>>::empty());
        assert(body_mappings(Seq::<Seq<char>>::empty()) == Some(Seq::<Mapping>::empty()));
        assert(ms == Seq::<Mapping>::empty());
        assert(bs.push(l)[0] == l);
        assert(seq![m] + Seq::<Mapping>::empty() =~= ms.push(m));
    } else {
        assert(bs.push(l).drop_first() =~= bs.drop_first().push(l));
        assert(bs.push(l)[0] == bs[0]);
        if bs[0].len() == 0 {
            lemma_body_push(bs.drop_first(), ms, l, m);
        } else {
            let m0 = mapping_of_line(bs[0])->Some_0;
            let rest = body_mappings(bs.drop_first())->Some_0;
            lemma_body_push(bs.drop_first(), rest, l, m);
            assert(seq![m0] + rest.push(m) =~= (seq![m0] + rest).push(m));
        }
    }
}

proof fn lemma_table_lines(from: Seq<char>, to: Seq<char>, ms: Seq<Mapping>)
    requires
        inline(from),
        inline(to),
        all_wf(ms),
    ensures
        lines_of(table_text(from, to, ms)).len() == ms.len() + 1,
        lines_of(table_text(from, to, ms))[0] == header_text(from, to),
        body_mappings(lines_of(table_text(from, to, ms)).drop_first()) == Some(ms),
    decreases ms.len(),
{
    if ms.len() == 0 {
        let h = header_text(from, to);
        assert forall|i: int| 0 <= i < h.len() implies #[trigger] h[i] != '\n' && h[i] != '\r' by {
            if i < from.len() {
                assert(h[i] == from[i]);
            } else if from.len() + 4 <= i < from.len() + 4 + to.len() {
                assert(h[i] == to[i - from.len() - 4]);
            }
        }
        lemma_lines_append_inline(Seq::<char>::empty(), h);
        assert(Seq::<char>::empty() + h =~= h);
        assert(Seq::<char>::empty() + h =~= h);
        assert(lines_of(h) =~= seq![h]);
        assert(lines_of(h).drop_first() =~= Seq::<Seq<char>>::empty());
    } else {
        let prev = table_text(from, to, ms.drop_last());
        assert(all_wf(ms.drop_last())) by {
            assert forall|i: int| 0 <= i < ms.drop_last().len() implies #[trigger] ms.drop_last()[i].wf() by {
                assert(ms.drop_last()[i] == ms[i]);
            }
        }
        lemma_table_lines(from, to, ms.drop_last());
        assert(ms[ms.len() - 1].wf());
        lemma_mapping_line(ms.last());
        lemma_lines_new_line(prev, mapping_text(ms.last()));
        let pl = lines_of(prev);
        assert(pl.push(mapping_text(ms.last())).drop_first() =~= pl.drop_first().push(
            mapping_text(ms.last()),
        ));
        lemma_body_push(pl.drop_first(), ms.drop_last(), mapping_text(ms.last()), ms.last());
        assert(ms.drop_last().push(ms.last()) =~= ms);
    }
}

/// Reading back the canonical text of a table gives the same labels and the
/// same mappings, so the table read back sends every value where the
/// mappings do.
pub proof fn lemma_table_text_round_trip(from: Seq<char>, to: Seq<char>, ms: Seq<Mapping>, v: u64)
    requires
        source_label_ok(from),
        dest_label_ok(to),
        all_wf(ms),
    ensures
        table_of_lines(lines_of(table_text(from, to, ms)), 0) == Ok::<_, crate::almanac::ParseError>(
            (from, to, ms),
        ),
        resolve_from(table_of_lines(lines_of(table_text(from, to, ms)), 0)->Ok_0.2, 0, v)
            == resolve_from(ms, 0, v),
{
    assert(inline(to)) by {
        assert forall|i: int| 0 <= i < to.len() implies #[trigger] to[i] != '\n' && to[i] != '\r' by {
            assert(!is_space(to[i]));
        }
    }
    lemma_table_lines(from, to, ms);
    lemma_header(from, to);
}

proof fn lemma_separator_found(h: Seq<char>, i: int, k: int)
    requires
        0 <= i <= k,
        separator_at(h, k),
    ensures
        i <= find_separator_from(h, i) <= k,
    decreases k - i,
{
    if i < k && !separator_at(h, i) {
        lemma_separator_found(h, i + 1, k);
    }
}

/// Reading back the canonical text of a table gives back its mappings
/// whatever its labels, as long as they hold no line break; so the table
/// read back sends every value where the mappings do.
pub proof fn lemma_table_text_resolution(from: Seq<char>, to: Seq<char>, ms: Seq<Mapping>, v: u64)
    requires
        inline(from),
        inline(to),
        all_wf(ms),
    ensures
        table_of_lines(lines_of(table_text(from, to, ms)), 0) is Ok,
        table_of_lines(lines_of(table_text(from, to, ms)), 0)->Ok_0.2 == ms,
        resolve_from(table_of_lines(lines_of(table_text(from, to, ms)), 0)->Ok_0.2, 0, v)
            == resolve_from(ms, 0, v),
{
    lemma_table_lines(from, to, ms);
    let h = header_text(from, to);
    assert(separator_at(h, from.len() as int));
    lemma_separator_found(h, 0, from.len() as int);
}

fn digit_char_exec(d: u64) -> (c: char)
    requires
        d < 10,
    ensures
        c == digit_char(d as nat),
{
    if d == 0 {
        '0'
    } else if d == 1 {
        '1'
    } else if d == 2 {
        '2'
    } else if d == 3 {
        '3'
    } else if d == 4 {
        '4'
    } else if d == 5 {
        '5'
    } else if d == 6 {
        '6'
    } else if d == 7 {
        '7'
    } else if d == 8 {
        '8'
    } else {
        '9'
    }
}

fn push_decimal(s: &mut String, n: u64)
    ensures
        final(s)@ == old(s)@ + decimal(n as nat),
    decreases n,
{
    if n >= 10 {
        push_decimal(s, n / 10);
    }
    push_char(s, digit_char_exec(n % 10));
    proof {
        if n >= 10 {
            assert(old(s)@ + decimal((n / 10) as nat) + seq![digit_char((n % 10) as nat)] =~= old(
                s,
            )@ + decimal(n as nat));
        } else {
            assert(old(s)@.push(digit_char(n as nat)) =~= old(s)@ + decimal(n as nat));
        }
    }
}

impl MappingTable {
    /// The canonical text of the table (see `table_text`).
    pub fn to_text(&self) -> (r: String)
        requires
            self.wf(),
        ensures
            r@ == table_text(self.from_label@, self.to_label@, self.mappings@),
    {
        proof {
            reveal_strlit("-to-");
            reveal_strlit(" map:");
        }
        let mut s = String::new();
        s.append(self.from_label.as_str());
        s.append("-to-");
        s.append(self.to_label.as_str());
        s.append(" map:");
        assert(s@ =~= header_text(self.from_label@, self.to_label@));
        let mut i: usize = 0;
        while i < self.mappings.len()
            invariant
                i <= self.mappings@.len(),
                self.wf(),
                s@ == table_text(self.from_label@, self.to_label@, self.mappings@.take(i as int)),
            decreases self.mappings@.len() - i,
        {
            let m = self.mappings[i];
            assert(self.mappings@[i as int].wf());
            let ghost before = s@;
            push_char(&mut s, '\n');
            push_decimal(&mut s, m.dest.start);
            push_char(&mut s, ' ');
            push_decimal(&mut s, m.src.start);
            push_char(&mut s, ' ');
            push_decimal(&mut s, m.src.end - m.src.start);
            proof {
                let ms = self.mappings@.take(i + 1);
                assert(ms.drop_last() =~= self.mappings@.take(i as int));
                assert(ms.last() == m);
                assert(s@ =~= before + seq!['\n'] + mapping_text(m));
            }
            i += 1;
        }
        assert(self.mappings@.take(self.mappings@.len() as int) =~= self.mappings@);
        s
    }
}

} // verus!
