//! The cube game: a bag holds red, green and blue cubes, and each game is a
//! list of handfuls drawn from it.
use vstd::prelude::*;

use crate::scratchcard::read_u32;
use crate::text::{
    is_space,
    chars_of, find_char, find_char_from, lemma_lines_of_nonempty,
    is_word, lines_of, parse_u64, pieces_of, split_at_char, split_lines, split_tokens, tokens_of,
};

verus! {

/// How many cubes of each colour.
#[derive(Debug, Clone, Copy, Default, PartialEq, Eq, Structural)]
pub struct CubeSet {
    pub red: u32,
    pub green: u32,
    pub blue: u32,
}

/// A text that is not a game line.
#[derive(Debug, Clone, Copy, PartialEq, Eq, Structural)]
pub struct ParseGameErr;

pub open spec fn no_cubes() -> CubeSet {
    CubeSet { red: 0, green: 0, blue: 0 }
}

/// One entry `<count> <colour>` applied to `set`: the colour's count is set.
pub open spec fn apply_entry(set: CubeSet, e: Seq<char>) -> Option<CubeSet> {
    let ts = tokens_of(e);
    if ts.len() != 2 || read_u32(ts[0]) is None {
        None
    } else {
        let n = read_u32(ts[0])->Some_0;
        if ts[1] == seq!['r', 'e', 'd'] {
            Some(CubeSet { red: n, ..set })
        } else if ts[1] == seq!['g', 'r', 'e', 'e', 'n'] {
            Some(CubeSet { green: n, ..set })
        } else if ts[1] == seq!['b', 'l', 'u', 'e'] {
            Some(CubeSet { blue: n, ..set })
        } else {
            None
        }
    }
}

/// The handful that the entries `es` describe, applied first to last.
pub open spec fn handful_of(es: Seq<Seq<char>>) -> Option<CubeSet>
    decreases es.len(),
{
    if es.len() == 0 {
        Some(no_cubes())
    } else {
        match handful_of(es.drop_last()) {
            None => None,
            Some(set) => apply_entry(set, es.last()),
        }
    }
}

proof fn lemma_handful_prefix_none(es: Seq<Seq<char>>, j: int)
    requires
        0 <= j <= es.len(),
        handful_of(es.take(j)) is None,
    ensures
        handful_of(es) is None,
    decreases es.len(),
{
    if j < es.len() {
        assert(es.drop_last().take(j) =~= es.take(j));
        lemma_handful_prefix_none(es.drop_last(), j);
    } else {
        assert(es.take(j) =~= es);
    }
}

fn apply_entry_exec(set: CubeSet, e: &Vec<char>) -> (r: Option<CubeSet>)
    ensures
        r == apply_entry(set, e@),
{
    let ts = split_tokens(e);
    if ts.len() != 2 {
        return None;
    }
    let n = match parse_u64(&ts[0]) {
        Some(v) => if v <= 0xffff_ffff {
            v as u32
        } else {
            return None;
        },
        None => {
            return None;
        },
    };
    let red = ['r', 'e', 'd'];
    let green = ['g', 'r', 'e', 'e', 'n'];
    let blue = ['b', 'l', 'u', 'e'];
    assert(red@ == seq!['r', 'e', 'd']);
    assert(green@ == seq!['g', 'r', 'e', 'e', 'n']);
    assert(blue@ == seq!['b', 'l', 'u', 'e']);
    if is_word(&ts[1], &red) {
        Some(CubeSet { red: n, ..set })
    } else if is_word(&ts[1], &green) {
        Some(CubeSet { green: n, ..set })
    } else if is_word(&ts[1], &blue) {
        Some(CubeSet { blue: n, ..set })
    } else {
        None
    }
}

fn handful_from(t: &Vec<char>) -> (r: Option<CubeSet>)
    ensures
        r == handful_of(pieces_of(t@, ',')),
{
    let es = split_at_char(t, ',');
    let ghost ev = pieces_of(t@, ',');
    let mut set = CubeSet { red: 0, green: 0, blue: 0 };
    let mut i: usize = 0;
    proof {
        assert(ev.take(0) =~= Seq::<Seq<char>>::empty());
    }
    while i < es.len()
        invariant
            i <= es@.len(),
            ev == pieces_of(t@, ','),
            ev.len() == es@.len(),
            forall|k: int| 0 <= k < es@.len() ==> #[trigger] es@[k]@ == ev[k],
            handful_of(ev.take(i as int)) == Some(set),
        decreases es@.len() - i,
    {
        assert(ev.take(i + 1).drop_last() =~= ev.take(i as int));
        assert(ev.take(i + 1).last() == es@[i as int]@);
        match apply_entry_exec(set, &es[i]) {
            Some(s) => {
                set = s;
            },
            None => {
                proof {
                    lemma_handful_prefix_none(ev, i + 1);
                }
                return None;
            },
        }
        i += 1;
    }
    assert(ev.take(es@.len() as int) =~= ev);
    Some(set)
}

impl CubeSet {
    /// Reads a handful such as `3 blue, 4 red` (see `handful_of`).
    pub fn from_str(s: &str) -> (r: Result<CubeSet, ParseGameErr>)
        ensures
            r == (match handful_of(pieces_of(s@, ',')) {
                Some(set) => Ok(set),
                None => Err(ParseGameErr),
            }),
    {
        let cs = chars_of(s);
        match handful_from(&cs) {
            Some(set) => Ok(set),
            None => Err(ParseGameErr),
        }
    }

    pub open spec fn spec_power(self) -> int {
        self.red * self.green * self.blue
    }

    /// The product of the three counts.
    pub fn get_power(&self) -> (r: u32)
        requires
            self.spec_power() <= u32::MAX,
        ensures
            r == self.spec_power(),
    {
        let r = self.red as u64;
        let g = self.green as u64;
        assert(r * g <= 0xffff_fffe_0000_0001) by (nonlinear_arith)
            requires
                r <= 0xffff_ffff,
                g <= 0xffff_ffff,
        ;
        let rg = r * g;
        if rg == 0 || self.blue == 0 {
            assert(self.spec_power() == 0) by (nonlinear_arith)
                requires
                    rg == self.red * self.green,
                    rg == 0 || self.blue == 0,
            ;
            return 0;
        }
        assert(rg <= u32::MAX) by (nonlinear_arith)
            requires
                rg == self.red * self.green,
                rg * self.blue <= u32::MAX,
                self.blue >= 1,
        ;
        (rg as u32) * self.blue
    }

    /// Whether `set` draws no more of any colour than `bag` holds.
    pub open spec fn fits_in(self, bag: CubeSet) -> bool {
        self.red <= bag.red && self.green <= bag.green && self.blue <= bag.blue
    }
}

/// A game: its id and the handfuls drawn.
#[derive(Debug, Default, PartialEq)]
pub struct Game {
    pub id: u32,
    pub sets: Vec<CubeSet>,
}

/// The handfuls that the pieces `ps` describe; `None` when one is not a handful.
pub open spec fn handfuls_of(ps: Seq<Seq<char>>) -> Option<Seq<CubeSet>>
    decreases ps.len(),
{
    if ps.len() == 0 {
        Some(Seq::<CubeSet>::empty())
    } else {
        match (handfuls_of(ps.drop_last()), handful_of(pieces_of(ps.last(), ','))) {
            (Some(init), Some(h)) => Some(init.push(h)),
            _ => None,
        }
    }
}

proof fn lemma_handfuls_prefix_none(ps: Seq<Seq<char>>, j: int)
    requires
        0 <= j <= ps.len(),
        handfuls_of(ps.take(j)) is None,
    ensures
        handfuls_of(ps) is None,
    decreases ps.len(),
{
    if j < ps.len() {
        assert(ps.drop_last().take(j) =~= ps.take(j));
        lemma_handfuls_prefix_none(ps.drop_last(), j);
    } else {
        assert(ps.take(j) =~= ps);
    }
}

/// The first index at or after `i` that does not hold whitespace, or the
/// length of `t`.
pub open spec fn space_run_end(t: Seq<char>, i: int) -> int
    decreases t.len() - i,
{
    if i < 0 || i >= t.len() {
        t.len() as int
    } else if is_space(t[i]) {
        space_run_end(t, i + 1)
    } else {
        i
    }
}

/// The game line `Game <id>: <handful>; <handful>; ...`, as id and handfuls.
/// Leading whitespace is passed over; `Game ` must then stand right before
/// the id, which runs up to the colon.
pub open spec fn game_of_line(l: Seq<char>) -> Option<(u32, Seq<CubeSet>)> {
    let p = find_char_from(l, ':', 0);
    if p < 0 {
        None
    } else {
        let t = l.take(p);
        let j = space_run_end(t, 0);
        if j + 5 > t.len() || t.subrange(j, j + 5) != seq!['G', 'a', 'm', 'e', ' '] || read_u32(
            t.skip(j + 5),
        ) is None {
            None
        } else {
            match handfuls_of(pieces_of(l.skip(p + 1), ';')) {
                Some(hs) => Some((read_u32(t.skip(j + 5))->Some_0, hs)),
                None => None,
            }
        }
    }
}

fn skip_spaces(t: &Vec<char>) -> (r: usize)
    ensures
        r == space_run_end(t@, 0),
        r <= t@.len(),
{
    let mut j: usize = 0;
    while j < t.len()
        invariant
            j <= t@.len(),
            space_run_end(t@, 0) == space_run_end(t@, j as int),
        decreases t@.len() - j,
    {
        let c = t[j];
        if !(c == ' ' || c == '\t' || c == '\n' || c == '\r' || c == '\x0C') {
            return j;
        }
        j += 1;
    }
    j
}

fn game_from_line(cs: &Vec<char>) -> (r: Result<Game, ParseGameErr>)
    ensures
        match r {
            Ok(g) => game_of_line(cs@) == Some((g.id, g.sets@)),
            Err(_) => game_of_line(cs@) is None,
        },
{
    let p = match find_char(cs, ':') {
        Some(p) => p,
        None => {
            return Err(ParseGameErr);
        },
    };
    let mut title = cs.clone();
    assert(title@ =~= cs@);
    let rest = title.split_off(p + 1);
    title.truncate(p);
    assert(title@ =~= cs@.take(p as int));
    assert(rest@ =~= cs@.skip(p + 1));
    let j = skip_spaces(&title);
    if title.len() - j < 5 {
        return Err(ParseGameErr);
    }
    if !(title[j] == 'G' && title[j + 1] == 'a' && title[j + 2] == 'm' && title[j + 3] == 'e'
        && title[j + 4] == ' ') {
        proof {
            if title@.subrange(j as int, j + 5) == seq!['G', 'a', 'm', 'e', ' '] {
                assert(title@.subrange(j as int, j + 5)[0] == title@[j as int]);
                assert(title@.subrange(j as int, j + 5)[1] == title@[j + 1]);
                assert(title@.subrange(j as int, j + 5)[2] == title@[j + 2]);
                assert(title@.subrange(j as int, j + 5)[3] == title@[j + 3]);
                assert(title@.subrange(j as int, j + 5)[4] == title@[j + 4]);
            }
        }
        return Err(ParseGameErr);
    }
    assert(title@.subrange(j as int, j + 5) =~= seq!['G', 'a', 'm', 'e', ' ']);
    let ghost tv = title@;
    let idv = title.split_off(j + 5);
    assert(idv@ =~= tv.skip(j + 5));
    let id = match parse_u64(&idv) {
        Some(v) => if v <= 0xffff_ffff {
            v as u32
        } else {
            return Err(ParseGameErr);
        },
        None => {
            return Err(ParseGameErr);
        },
    };
    let ps = split_at_char(&rest, ';');
    let ghost pv = pieces_of(rest@, ';');
    let mut sets: Vec<CubeSet> = Vec::new();
    let mut i: usize = 0;
    proof {
        assert(pv.take(0) =~= Seq::<Seq<char>>::empty());
    }
    assert(game_of_line(cs@) == (match handfuls_of(pv) {
        Some(hs) => Some((id, hs)),
        None => None,
    }));
    while i < ps.len()
        invariant
            i <= ps@.len(),
            pv == pieces_of(rest@, ';'),
            game_of_line(cs@) == (match handfuls_of(pv) {
                Some(hs) => Some((id, hs)),
                None => None,
            }),
            pv.len() == ps@.len(),
            forall|k: int| 0 <= k < ps@.len() ==> #[trigger] ps@[k]@ == pv[k],
            handfuls_of(pv.take(i as int)) == Some(sets@),
        decreases ps@.len() - i,
    {
        assert(pv.take(i + 1).drop_last() =~= pv.take(i as int));
        assert(pv.take(i + 1).last() == ps@[i as int]@);
        match handful_from(&ps[i]) {
            Some(h) => {
                sets.push(h);
            },
            None => {
                proof {
                    lemma_handfuls_prefix_none(pv, i + 1);
                }
                return Err(ParseGameErr);
            },
        }
        i += 1;
    }
    assert(pv.take(ps@.len() as int) =~= pv);
    Ok(Game { id, sets })
}

/// The games of a text, one per line; `None` when a line is not a game.
pub open spec fn games_of(ls: Seq<Seq<char>>) -> Option<Seq<(u32, Seq<CubeSet>)>>
    decreases ls.len(),
{
    if ls.len() == 0 {
        Some(Seq::<(u32, Seq<CubeSet>)>::empty())
    } else {
        match (games_of(ls.drop_last()), game_of_line(ls.last())) {
            (Some(init), Some(g)) => Some(init.push(g)),
            _ => None,
        }
    }
}

proof fn lemma_games_prefix_none(ls: Seq<Seq<char>>, j: int)
    requires
        0 <= j <= ls.len(),
        games_of(ls.take(j)) is None,
    ensures
        games_of(ls) is None,
    decreases ls.len(),
{
    if j < ls.len() {
        assert(ls.drop_last().take(j) =~= ls.take(j));
        lemma_games_prefix_none(ls.drop_last(), j);
    } else {
        assert(ls.take(j) =~= ls);
    }
}

/// The lines of `t` that hold something: a final empty line is not a game.
pub open spec fn game_lines(t: Seq<char>) -> Seq<Seq<char>> {
    let ls = lines_of(t);
    if ls.last().len() == 0 {
        ls.drop_last()
    } else {
        ls
    }
}

pub open spec fn game_view(g: Game) -> (u32, Seq<CubeSet>) {
    (g.id, g.sets@)
}

/// The sum of the ids of `gs`.
pub open spec fn id_sum(gs: Seq<&Game>) -> int
    decreases gs.len(),
{
    if gs.len() == 0 {
        0
    } else {
        id_sum(gs.drop_last()) + gs.last().id
    }
}

proof fn lemma_id_sum_prefix_le(gs: Seq<&Game>, j: int)
    requires
        0 <= j <= gs.len(),
    ensures
        id_sum(gs.take(j)) <= id_sum(gs),
    decreases gs.len(),
{
    if j < gs.len() {
        assert(gs.drop_last().take(j) =~= gs.take(j));
        lemma_id_sum_prefix_le(gs.drop_last(), j);
    } else {
        assert(gs.take(j) =~= gs);
    }
}

impl Game {
    pub open spec fn spec_viable(&self, bag: CubeSet) -> bool {
        forall|i: int| 0 <= i < self.sets@.len() ==> (#[trigger] self.sets@[i]).fits_in(bag)
    }

    /// Reads a game line (see `game_of_line`).
    pub fn from_str(s: &str) -> (r: Result<Game, ParseGameErr>)
        ensures
            match r {
                Ok(g) => game_of_line(s@) == Some((g.id, g.sets@)),
                Err(_) => game_of_line(s@) is None,
            },
    {
        let cs = chars_of(s);
        game_from_line(&cs)
    }

    /// Whether no handful of the game draws more of a colour than `set` holds.
    pub fn is_viable_with_set(&self, set: &CubeSet) -> (r: bool)
        ensures
            r == self.spec_viable(*set),
    {
        let mut i: usize = 0;
        while i < self.sets.len()
            invariant
                i <= self.sets@.len(),
                forall|k: int| 0 <= k < i ==> (#[trigger] self.sets@[k]).fits_in(*set),
            decreases self.sets@.len() - i,
        {
            let s = &self.sets[i];
            if !(s.red <= set.red && s.green <= set.green && s.blue <= set.blue) {
                return false;
            }
            i += 1;
        }
        true
    }

    /// Reads one game per line (see `games_of` and `game_lines`).
    pub fn parse_all(s: &str) -> (r: Result<Vec<Game>, ParseGameErr>)
        ensures
            match r {
                Ok(gs) => games_of(game_lines(s@)) == Some(gs@.map_values(|g: Game| game_view(g))),
                Err(_) => games_of(game_lines(s@)) is None,
            },
    {
        let cs = chars_of(s);
        let mut ls = split_lines(&cs);
        proof {
            lemma_lines_of_nonempty(cs@);
        }
        let ghost all = lines_of(cs@);
        if ls[ls.len() - 1].len() == 0 {
            ls.pop();
        }
        let ghost lv = game_lines(s@);
        assert(lv.len() == ls@.len());
        let mut games: Vec<Game> = Vec::new();
        let mut i: usize = 0;
        proof {
            assert(lv.take(0) =~= Seq::<Seq<char>>::empty());
            assert(games@.map_values(|g: Game| game_view(g)) =~= Seq::<(u32, Seq<CubeSet>)>::empty());
        }
        while i < ls.len()
            invariant
                i <= ls@.len(),
                lv == game_lines(s@),
                lv.len() == ls@.len(),
                forall|k: int| 0 <= k < ls@.len() ==> #[trigger] ls@[k]@ == lv[k],
                games_of(lv.take(i as int)) == Some(games@.map_values(|g: Game| game_view(g))),
            decreases ls@.len() - i,
        {
            assert(lv.take(i + 1).drop_last() =~= lv.take(i as int));
            assert(lv.take(i + 1).last() == ls@[i as int]@);
            match game_from_line(&ls[i]) {
                Ok(g) => {
                    let ghost before = games@;
                    games.push(g);
                    assert(games@.map_values(|g: Game| game_view(g)) =~= before.map_values(
                        |g: Game| game_view(g),
                    ).push(game_view(g)));
                },
                Err(e) => {
                    proof {
                        lemma_games_prefix_none(lv, i + 1);
                    }
                    return Err(e);
                },
            }
            i += 1;
        }
        assert(lv.take(ls@.len() as int) =~= lv);
        Ok(games)
    }

    /// The sum of the ids of `games`.
    pub fn sum_ids(games: &Vec<&Game>) -> (r: u32)
        requires
            id_sum(games@) <= u32::MAX,
        ensures
            r == id_sum(games@),
    {
        let mut total: u32 = 0;
        let mut i: usize = 0;
        proof {
            assert(games@.take(0) =~= Seq::<&Game>::empty());
        }
        while i < games.len()
            invariant
                i <= games@.len(),
                id_sum(games@) <= u32::MAX,
                total == id_sum(games@.take(i as int)),
            decreases games@.len() - i,
        {
            assert(games@.take(i + 1).drop_last() =~= games@.take(i as int));
            proof {
                lemma_id_sum_prefix_le(games@, i + 1);
            }
            total = total + games[i].id;
            i += 1;
        }
        assert(games@.take(games@.len() as int) =~= games@);
        total
    }

    /// The fewest cubes of each colour that the game could have been played
    /// with: the largest count of each colour over its handfuls.
    pub fn find_min_set(&self) -> (r: CubeSet)
        ensures
            forall|i: int| 0 <= i < self.sets@.len() ==> (#[trigger] self.sets@[i]).fits_in(r),
            r.red == 0 || exists|i: int| 0 <= i < self.sets@.len() && self.sets@[i].red == r.red,
            r.green == 0 || exists|i: int|
                0 <= i < self.sets@.len() && self.sets@[i].green == r.green,
            r.blue == 0 || exists|i: int| 0 <= i < self.sets@.len() && self.sets@[i].blue == r.blue,
    {
        let mut set = CubeSet { red: 0, green: 0, blue: 0 };
        let mut i: usize = 0;
        while i < self.sets.len()
            invariant
                i <= self.sets@.len(),
                forall|k: int| 0 <= k < i ==> (#[trigger] self.sets@[k]).fits_in(set),
                set.red == 0 || exists|k: int| 0 <= k < i && self.sets@[k].red == set.red,
                set.green == 0 || exists|k: int| 0 <= k < i && self.sets@[k].green == set.green,
                set.blue == 0 || exists|k: int| 0 <= k < i && self.sets@[k].blue == set.blue,
            decreases self.sets@.len() - i,
        {
            let s = self.sets[i];
            if s.red > set.red {
                set.red = s.red;
            }
            if s.green > set.green {
                set.green = s.green;
            }
            if s.blue > set.blue {
                set.blue = s.blue;
            }
            i += 1;
        }
        set
    }

    /// The games that `set` could have been drawn from, in order.
    pub fn find_viable_for_set<'a>(games: &'a Vec<Game>, set: &CubeSet) -> (r: Vec<&'a Game>)
        ensures
            r@ == games@.filter(|g: Game| g.spec_viable(*set)).map_values(|g: Game| &g),
    {
        let mut out: Vec<&'a Game> = Vec::new();
        let mut i: usize = 0;
        proof {
            assert(games@.take(0) =~= Seq::<Game>::empty());
        }
        while i < games.len()
            invariant
                i <= games@.len(),
                out@ == games@.take(i as int).filter(|g: Game| g.spec_viable(*set)).map_values(
                    |g: Game| &g,
                ),
            decreases games@.len() - i,
        {
            let g = &games[i];
            proof {
                let f = |g: Game| g.spec_viable(*set);
                assert(games@.take(i + 1).drop_last() =~= games@.take(i as int));
                reveal(Seq::filter);
            }
            let ghost before = out@;
            if g.is_viable_with_set(set) {
                out.push(g);
            }
            proof {
                let f = |g: Game| g.spec_viable(*set);
                assert(out@ =~= games@.take(i + 1).filter(f).map_values(|g: Game| &g));
            }
            i += 1;
        }
        assert(games@.take(games@.len() as int) =~= games@);
        out
    }
}

} // verus!
