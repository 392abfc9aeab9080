//! Scratchcards: each card lists winning numbers and the numbers it holds;
//! matches score points, or win copies of the cards that follow.
use vstd::prelude::*;

use crate::text::{chars_of, find_char, find_char_from, parse_u64, read_u64, split_tokens, tokens_of};

verus! {

/// A card line that does not read as `Card <id>: <winning> | <held>`.
#[derive(Debug, Clone, Copy, PartialEq, Eq, Structural)]
pub struct ParseCardError;

/// A number printed on a card, with its position in its list.
#[derive(Debug, Clone, Copy, PartialEq, Eq, Structural)]
pub struct CardNumber {
    pub number: u32,
    pub index: usize,
}

/// What reading `t` as a `u32` gives.
pub open spec fn read_u32(t: Seq<char>) -> Option<u32> {
    match read_u64(t) {
        Some(v) => if v <= u32::MAX {
            Some(v as u32)
        } else {
            None
        },
        None => None,
    }
}

/// Reads each token as a `u32`; `None` when one is not such a number.
pub open spec fn u32s_of(ts: Seq<Seq<char>>) -> Option<Seq<u32>>
    decreases ts.len(),
{
    if ts.len() == 0 {
        Some(Seq::<u32>::empty())
    } else {
        match (u32s_of(ts.drop_last()), read_u32(ts.last())) {
            (Some(init), Some(v)) => Some(init.push(v)),
            _ => None,
        }
    }
}

fn parse_u32(t: &Vec<char>) -> (r: Option<u32>)
    ensures
        r == read_u32(t@),
{
    match parse_u64(t) {
        Some(v) => if v <= 0xffff_ffff {
            Some(v as u32)
        } else {
            None
        },
        None => None,
    }
}

/// Whether `cs` holds the numbers `ns`, each at its own position.
pub open spec fn numbered(cs: Seq<CardNumber>, ns: Seq<u32>) -> bool {
    cs.len() == ns.len() && forall|i: int|
        0 <= i < cs.len() ==> (#[trigger] cs[i]).number == ns[i] && cs[i].index == i
}

impl CardNumber {
    pub fn new(number: u32, index: usize) -> (r: CardNumber)
        ensures
            r == (CardNumber { number, index }),
    {
        CardNumber { number, index }
    }

    /// Reads a whitespace-separated list of numbers, numbering them from 0.
    pub fn vec_from_str(s: &str) -> (r: Result<Vec<CardNumber>, ParseCardError>)
        ensures
            r is Ok <==> u32s_of(tokens_of(s@)) is Some,
            r is Ok ==> numbered(r->Ok_0@, u32s_of(tokens_of(s@))->Some_0),
    {
        let cs = chars_of(s);
        card_numbers_of(&cs)
    }
}

fn card_numbers_of(cs: &Vec<char>) -> (r: Result<Vec<CardNumber>, ParseCardError>)
    ensures
        r is Ok <==> u32s_of(tokens_of(cs@)) is Some,
        r is Ok ==> numbered(r->Ok_0@, u32s_of(tokens_of(cs@))->Some_0),
{
    let ts = split_tokens(cs);
    let ghost tv = tokens_of(cs@);
    let mut out: Vec<CardNumber> = Vec::new();
    let mut i: usize = 0;
    proof {
        assert(tv.take(0) =~= Seq::<Seq<char>>::empty());
    }
    while i < ts.len()
        invariant
            i <= ts@.len(),
            tv == tokens_of(cs@),
            tv.len() == ts@.len(),
            forall|k: int| 0 <= k < ts@.len() ==> #[trigger] ts@[k]@ == tv[k],
            u32s_of(tv.take(i as int)) is Some,
            out@.len() == i,
            numbered(out@, u32s_of(tv.take(i as int))->Some_0),
        decreases ts@.len() - i,
    {
        assert(tv.take(i + 1).drop_last() =~= tv.take(i as int));
        assert(tv.take(i + 1).last() == ts@[i as int]@);
        match parse_u32(&ts[i]) {
            Some(v) => {
                let ghost prev = u32s_of(tv.take(i as int))->Some_0;
                let ghost old_out = out@;
                out.push(CardNumber { number: v, index: i });
                assert(u32s_of(tv.take(i + 1)) == Some(prev.push(v)));
                assert forall|k: int| 0 <= k < out@.len() implies (#[trigger] out@[k]).number
                    == prev.push(v)[k] && out@[k].index == k by {
                    if k < i {
                        assert(out@[k] == old_out[k]);
                    }
                }
            },
            None => {
                proof {
                    assert(read_u32(tv.take(i + 1).last()) is None);
                    assert(u32s_of(tv.take(i + 1)) is None);
                    lemma_u32s_of_prefix_none(tv, i + 1);
                }
                return Err(ParseCardError);
            },
        }
        i += 1;
    }
    assert(tv.take(ts@.len() as int) =~= tv);
    Ok(out)
}

proof fn lemma_u32s_of_prefix_none(ts: Seq<Seq<char>>, j: int)
    requires
        0 <= j <= ts.len(),
        u32s_of(ts.take(j)) is None,
    ensures
        u32s_of(ts) is None,
    decreases ts.len(),
{
    if j < ts.len() {
        assert(ts.drop_last().take(j) =~= ts.take(j));
        lemma_u32s_of_prefix_none(ts.drop_last(), j);
    } else {
        assert(ts.take(j) =~= ts);
    }
}

/// A scratchcard: its id, the winning numbers and the numbers it holds.
#[derive(Debug, PartialEq)]
pub struct Card {
    pub number: u32,
    pub winning_numbers: Vec<CardNumber>,
    pub card_numbers: Vec<CardNumber>,
}

/// Whether `n` is among the winning numbers `w`.
pub open spec fn wins(w: Seq<CardNumber>, n: u32) -> bool {
    exists|i: int| 0 <= i < w.len() && (#[trigger] w[i]).number == n
}

/// The held numbers that are winning numbers, in the order they are held.
pub open spec fn matches_of(w: Seq<CardNumber>, held: Seq<CardNumber>) -> Seq<u32>
    decreases held.len(),
{
    if held.len() == 0 {
        Seq::<u32>::empty()
    } else if wins(w, held.last().number) {
        matches_of(w, held.drop_last()).push(held.last().number)
    } else {
        matches_of(w, held.drop_last())
    }
}

/// `2` to the power `e`.
pub open spec fn two_to(e: nat) -> nat
    decreases e,
{
    if e == 0 {
        1
    } else {
        2 * two_to((e - 1) as nat)
    }
}

proof fn lemma_two_to_monotone(a: nat, b: nat)
    requires
        a <= b,
    ensures
        two_to(a) <= two_to(b),
    decreases b,
{
    if a < b {
        lemma_two_to_monotone(a, (b - 1) as nat);
    }
}

/// The card line `Card <id>: <winning> | <held>`, as its id and two lists.
pub open spec fn card_of_line(l: Seq<char>) -> Option<(u32, Seq<u32>, Seq<u32>)> {
    let p = find_char_from(l, ':', 0);
    if p < 0 {
        None
    } else {
        let title = tokens_of(l.take(p));
        let nums = l.skip(p + 1);
        let b = find_char_from(nums, '|', 0);
        if title.len() != 2 || read_u32(title[1]) is None || b < 0 {
            None
        } else {
            match (u32s_of(tokens_of(nums.take(b))), u32s_of(tokens_of(nums.skip(b + 1)))) {
                (Some(w), Some(h)) => Some((read_u32(title[1])->Some_0, w, h)),
                _ => None,
            }
        }
    }
}

impl Card {
    pub open spec fn spec_matches(&self) -> Seq<u32> {
        matches_of(self.winning_numbers@, self.card_numbers@)
    }

    /// Reads a card line (see `card_of_line`).
    pub fn from_str(s: &str) -> (r: Result<Card, ParseCardError>)
        ensures
            r is Ok <==> card_of_line(s@) is Some,
            r is Ok ==> ({
                let (id, w, h) = card_of_line(s@)->Some_0;
                &&& r->Ok_0.number == id
                &&& numbered(r->Ok_0.winning_numbers@, w)
                &&& numbered(r->Ok_0.card_numbers@, h)
            }),
    {
        let cs = chars_of(s);
        let p = match find_char(&cs, ':') {
            Some(p) => p,
            None => {
                return Err(ParseCardError);
            },
        };
        let mut title = cs.clone();
        assert(title@ =~= cs@);
        let mut nums = title.split_off(p + 1);
        title.truncate(p);
        assert(title@ =~= cs@.take(p as int));
        assert(nums@ =~= cs@.skip(p + 1));
        let tt = split_tokens(&title);
        let b = match find_char(&nums, '|') {
            Some(b) => b,
            None => {
                return Err(ParseCardError);
            },
        };
        if tt.len() != 2 {
            return Err(ParseCardError);
        }
        let id = match parse_u32(&tt[1]) {
            Some(id) => id,
            None => {
                return Err(ParseCardError);
            },
        };
        let ghost nv = nums@;
        let held = nums.split_off(b + 1);
        nums.truncate(b);
        assert(nums@ =~= nv.take(b as int));
        assert(held@ =~= nv.skip(b + 1));
        assert(tt@[1]@ == tokens_of(cs@.take(p as int))[1]);
        let winning_numbers = match card_numbers_of(&nums) {
            Ok(v) => v,
            Err(_) => {
                return Err(ParseCardError);
            },
        };
        let card_numbers = match card_numbers_of(&held) {
            Ok(v) => v,
            Err(_) => {
                return Err(ParseCardError);
            },
        };
        Ok(Card { number: id, winning_numbers, card_numbers })
    }

    /// The held numbers that win, in the order they are held.
    pub fn get_matching_numbers(&self) -> (r: Vec<u32>)
        ensures
            r@ == self.spec_matches(),
    {
        let w = &self.winning_numbers;
        let held = &self.card_numbers;
        let mut out: Vec<u32> = Vec::new();
        let mut i: usize = 0;
        proof {
            assert(held@.take(0) =~= Seq::<CardNumber>::empty());
        }
        while i < held.len()
            invariant
                i <= held@.len(),
                w@ == self.winning_numbers@,
                held@ == self.card_numbers@,
                out@ == matches_of(w@, held@.take(i as int)),
            decreases held@.len() - i,
        {
            let n = held[i].number;
            assert(held@.take(i + 1).drop_last() =~= held@.take(i as int));
            let mut j: usize = 0;
            let mut found = false;
            while j < w.len()
                invariant
                    j <= w@.len(),
                    found == (exists|k: int| 0 <= k < j && (#[trigger] w@[k]).number == n),
                decreases w@.len() - j,
            {
                if w[j].number == n {
                    found = true;
                }
                j += 1;
            }
            if found {
                out.push(n);
            }
            i += 1;
        }
        assert(held@.take(held@.len() as int) =~= held@);
        out
    }

    /// The card's score: no points without a match, else one point doubled
    /// for each match after the first.
    pub fn get_points(&self) -> (r: u32)
        requires
            self.spec_matches().len() <= 32,
        ensures
            r == (if self.spec_matches().len() > 0 {
                two_to((self.spec_matches().len() - 1) as nat)
            } else {
                0
            }),
    {
        let n = self.get_matching_numbers().len();
        if n == 0 {
            return 0;
        }
        let mut p: u32 = 1;
        let mut j: usize = 0;
        while j < n - 1
            invariant
                1 <= n <= 32,
                j <= n - 1,
                p == two_to(j as nat),
            decreases n - 1 - j,
        {
            proof {
                lemma_two_to_monotone((j + 1) as nat, 31);
                reveal_with_fuel(two_to, 32);
                assert(two_to(31) == 0x8000_0000);
            }
            p = p * 2;
            j += 1;
        }
        p
    }
}

/// The position of the first entry for card `k` in `st` at or after `i`, or -1.
pub open spec fn entry_from(st: Seq<(u32, u32)>, k: u32, i: int) -> int
    decreases st.len() - i,
{
    if i < 0 || i >= st.len() {
        -1
    } else if st[i].0 == k {
        i
    } else {
        entry_from(st, k, i + 1)
    }
}

/// How many copies of card `k` the tally `st` holds; a card not yet in it
/// counts once.
pub open spec fn copies_in(st: Seq<(u32, u32)>, k: u32) -> u32 {
    let i = entry_from(st, k, 0);
    if i < 0 {
        1
    } else {
        st[i].1
    }
}

/// The tally `st` with card `k` set to `v` copies: its entry is replaced, or
/// a new entry is added at the end.
pub open spec fn with_copies(st: Seq<(u32, u32)>, k: u32, v: u32) -> Seq<(u32, u32)> {
    let i = entry_from(st, k, 0);
    if i < 0 {
        st.push((k, v))
    } else {
        st.update(i, (k, v))
    }
}

/// The tally after `add` more copies of each of the `n` cards from `first`
/// on; `None` when a card id or a count leaves `u32`.
pub open spec fn add_copies(st: Seq<(u32, u32)>, first: int, n: nat, add: u32) -> Option<
    Seq<(u32, u32)>,
>
    decreases n,
{
    if n == 0 {
        Some(st)
    } else {
        match add_copies(st, first, (n - 1) as nat, add) {
            None => None,
            Some(s) => {
                let k = first + n - 1;
                if k > u32::MAX || copies_in(s, k as u32) + add > u32::MAX {
                    None
                } else {
                    Some(with_copies(s, k as u32, (copies_in(s, k as u32) + add) as u32))
                }
            },
        }
    }
}

/// The tally before any card is played: one copy of each card.
pub open spec fn initial_tally(cards: Seq<Card>) -> Seq<(u32, u32)>
    decreases cards.len(),
{
    if cards.len() == 0 {
        Seq::<(u32, u32)>::empty()
    } else {
        with_copies(initial_tally(cards.drop_last()), cards.last().number, 1)
    }
}

/// The tally after playing `cards` in order from `st`: each card wins, for
/// each of its copies, one copy of each of the next cards by id, as many
/// as it has matches.
pub open spec fn play(st: Seq<(u32, u32)>, cards: Seq<Card>) -> Option<Seq<(u32, u32)>>
    decreases cards.len(),
{
    if cards.len() == 0 {
        Some(st)
    } else {
        match play(st, cards.drop_last()) {
            None => None,
            Some(s) => {
                let c = cards.last();
                add_copies(s, c.number + 1, c.spec_matches().len(), copies_in(s, c.number))
            },
        }
    }
}

pub open spec fn total_copies(st: Seq<(u32, u32)>) -> int
    decreases st.len(),
{
    if st.len() == 0 {
        0
    } else {
        total_copies(st.drop_last()) + st.last().1
    }
}

/// The number of cards held at the end; `None` when it, or a count on the
/// way, does not fit in `u32`.
pub open spec fn won_cards(cards: Seq<Card>) -> Option<u32> {
    match play(initial_tally(cards), cards) {
        None => None,
        Some(st) => if total_copies(st) <= u32::MAX {
            Some(total_copies(st) as u32)
        } else {
            None
        },
    }
}

fn find_entry(st: &Vec<(u32, u32)>, k: u32) -> (r: Option<usize>)
    ensures
        match r {
            Some(i) => entry_from(st@, k, 0) == i && i < st@.len(),
            None => entry_from(st@, k, 0) == -1,
        },
{
    let mut i: usize = 0;
    while i < st.len()
        invariant
            i <= st@.len(),
            entry_from(st@, k, 0) == entry_from(st@, k, i as int),
        decreases st@.len() - i,
    {
        if st[i].0 == k {
            return Some(i);
        }
        i += 1;
    }
    None
}

fn get_copies(st: &Vec<(u32, u32)>, k: u32) -> (r: u32)
    ensures
        r == copies_in(st@, k),
{
    match find_entry(st, k) {
        Some(i) => st[i].1,
        None => 1,
    }
}

fn set_copies(st: &mut Vec<(u32, u32)>, k: u32, v: u32)
    ensures
        final(st)@ == with_copies(old(st)@, k, v),
{
    match find_entry(st, k) {
        Some(i) => {
            st.set(i, (k, v));
        },
        None => {
            st.push((k, v));
        },
    }
}

/// Plays the cards in order and counts the cards held at the end (see
/// `won_cards`).
pub fn calculate_won_cards(cards: Vec<Card>) -> (r: Option<u32>)
    ensures
        r == won_cards(cards@),
{
    let mut st: Vec<(u32, u32)> = Vec::new();
    let mut i: usize = 0;
    proof {
        assert(cards@.take(0) =~= Seq::<Card>::empty());
    }
    while i < cards.len()
        invariant
            i <= cards@.len(),
            st@ == initial_tally(cards@.take(i as int)),
        decreases cards@.len() - i,
    {
        assert(cards@.take(i + 1).drop_last() =~= cards@.take(i as int));
        set_copies(&mut st, cards[i].number, 1);
        i += 1;
    }
    assert(cards@.take(cards@.len() as int) =~= cards@);
    let ghost init = st@;
    let mut i: usize = 0;
    while i < cards.len()
        invariant
            i <= cards@.len(),
            init == initial_tally(cards@),
            play(init, cards@.take(i as int)) == Some(st@),
        decreases cards@.len() - i,
    {
        assert(cards@.take(i + 1).drop_last() =~= cards@.take(i as int));
        let card = &cards[i];
        let won = card.get_matching_numbers().len();
        let cur = get_copies(&st, card.number);
        let ghost base = st@;
        let first: u64 = card.number as u64 + 1;
        let mut j: usize = 0;
        while j < won
            invariant
                j <= won,
                i < cards@.len(),
                *card == cards@[i as int],
                init == initial_tally(cards@),
                play(init, cards@.take(i as int)) == Some(base),
                cards@.take(i + 1).drop_last() == cards@.take(i as int),
                won == card.spec_matches().len(),
                cur == copies_in(base, card.number),
                first == card.number + 1,
                add_copies(base, first as int, j as nat, cur) == Some(st@),
            decreases won - j,
        {
            let k: u64 = first + j as u64;
            if k > 0xffff_ffff {
                proof {
                    lemma_add_copies_fails(base, first as int, (j + 1) as nat, won as nat, cur);
                    assert(play(init, cards@.take(i + 1)) is None);
                    lemma_play_prefix_none(init, cards@, i + 1);
                }
                return None;
            }
            let c = get_copies(&st, k as u32);
            if c > 0xffff_ffff - cur {
                proof {
                    lemma_add_copies_fails(base, first as int, (j + 1) as nat, won as nat, cur);
                    assert(play(init, cards@.take(i + 1)) is None);
                    lemma_play_prefix_none(init, cards@, i + 1);
                }
                return None;
            }
            set_copies(&mut st, k as u32, c + cur);
            j += 1;
        }
        i += 1;
        proof {
            assert(cards@.take(i as int).last() == *card);
        }
    }
    assert(cards@.take(cards@.len() as int) =~= cards@);
    let mut total: u32 = 0;
    let mut i: usize = 0;
    proof {
        assert(st@.take(0) =~= Seq::<(u32, u32)>::empty());
    }
    while i < st.len()
        invariant
            i <= st@.len(),
            play(initial_tally(cards@), cards@) == Some(st@),
            total == total_copies(st@.take(i as int)),
        decreases st@.len() - i,
    {
        assert(st@.take(i + 1).drop_last() =~= st@.take(i as int));
        if total > 0xffff_ffff - st[i].1 {
            proof {
                lemma_total_prefix_le(st@, i + 1);
            }
            return None;
        }
        total = total + st[i].1;
        i += 1;
    }
    assert(st@.take(st@.len() as int) =~= st@);
    Some(total)
}

proof fn lemma_play_prefix_none(st: Seq<(u32, u32)>, cards: Seq<Card>, j: int)
    requires
        0 <= j <= cards.len(),
        play(st, cards.take(j)) is None,
    ensures
        play(st, cards) is None,
    decreases cards.len(),
{
    if j < cards.len() {
        assert(cards.drop_last().take(j) =~= cards.take(j));
        lemma_play_prefix_none(st, cards.drop_last(), j);
    } else {
        assert(cards.take(j) =~= cards);
    }
}

proof fn lemma_add_copies_fails(st: Seq<(u32, u32)>, first: int, j: nat, n: nat, add: u32)
    requires
        j <= n,
        add_copies(st, first, j, add) is None,
    ensures
        add_copies(st, first, n, add) is None,
    decreases n,
{
    if j < n {
        lemma_add_copies_fails(st, first, j, (n - 1) as nat, add);
    }
}

proof fn lemma_total_prefix_le(st: Seq<(u32, u32)>, j: int)
    requires
        0 <= j <= st.len(),
    ensures
        total_copies(st.take(j)) <= total_copies(st),
    decreases st.len(),
{
    if j < st.len() {
        assert(st.drop_last().take(j) =~= st.take(j));
        lemma_total_prefix_le(st.drop_last(), j);
    } else {
        assert(st.take(j) =~= st);
    }
}

} // verus!
