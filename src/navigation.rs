//! Steering a submarine by a list of directions, in two readings of what the
//! directions mean.
use vstd::prelude::*;
use itertools::Itertools;
use crate::common::{failures, successes, ChallengeData};
use crate::text::{decimal_value, is_i32_text, parse_i32, words, words_of};

verus! {

pub open spec fn in_i32(x: int) -> bool {
    i32::MIN <= x <= i32::MAX
}

/// A submarine's horizontal position, its depth (which grows going down) and
/// its aim.
#[derive(Debug, Clone, Copy, PartialEq, Eq)]
pub struct Submarine {
    pub position: i32,
    pub depth: i32,
    pub aim: i32,
}

/// One direction: a keyword and an amount.
#[derive(Debug, Clone, Copy, PartialEq, Eq)]
pub enum Direction {
    Up(i32),
    Down(i32),
    Forward(i32),
}

/// Why a line is not a direction.
#[derive(Debug, Clone, PartialEq, Eq)]
pub enum DirectionError {
    /// The line (held here) has fewer than two words.
    MissingValue(String),
    /// The second word (held here) is not a decimal `i32`.
    NotANumber(String),
    /// The first word (held here) is none of `forward`, `up` and `down`.
    UnknownAction(String),
}

/// Why the directions could not be followed.
#[derive(Debug, Clone, PartialEq, Eq)]
pub enum DiveError {
    /// The errors of the lines that are not directions, in order.
    InvalidDirections(Vec<DirectionError>),
    /// A position, depth, aim or result leaves the range of `i32`.
    Overflow,
}

/// Where the two readings of the directions lead.
#[derive(Debug, Clone, Copy, PartialEq, Eq)]
pub struct DiveReport {
    /// Where `up` and `down` change the depth.
    pub plain: Submarine,
    /// Its position times its depth.
    pub plain_result: i32,
    /// Where `up` and `down` change the aim.
    pub aimed: Submarine,
    /// Its position times its depth.
    pub aimed_result: i32,
}

impl Submarine {
    pub open spec fn state(&self) -> (int, int, int) {
        (self.position as int, self.depth as int, self.aim as int)
    }

    /// Going up lessens the depth.
    fn up(&mut self, by: i32)
        requires
            in_i32(old(self).depth - by),
        ensures
            final(self).state() == (old(self).position as int, old(self).depth - by, old(
                self,
            ).aim as int),
    {
        self.depth = self.depth - by;
    }

    fn up_aim(&mut self, by: i32)
        requires
            in_i32(old(self).aim - by),
        ensures
            final(self).state() == (old(self).position as int, old(self).depth as int, old(
                self,
            ).aim - by),
    {
        self.aim = self.aim - by;
    }

    /// Going down adds to the depth.
    fn down(&mut self, by: i32)
        requires
            in_i32(old(self).depth + by),
        ensures
            final(self).state() == (old(self).position as int, old(self).depth + by, old(
                self,
            ).aim as int),
    {
        self.depth = self.depth + by;
    }

    fn down_aim(&mut self, by: i32)
        requires
            in_i32(old(self).aim + by),
        ensures
            final(self).state() == (old(self).position as int, old(self).depth as int, old(
                self,
            ).aim + by),
    {
        self.aim = self.aim + by;
    }

    fn forward(&mut self, by: i32)
        requires
            in_i32(old(self).position + by),
        ensures
            final(self).state() == (old(self).position + by, old(self).depth as int, old(
                self,
            ).aim as int),
    {
        self.position = self.position + by;
    }

    fn forward_with_aim(&mut self, by: i32)
        requires
            step_fits(old(self).state(), Direction::Forward(by), true),
        ensures
            final(self).state() == step(old(self).state(), Direction::Forward(by), true),
    {
        self.position = self.position + by;
        self.depth = self.depth + (self.aim * by);
    }

    /// The position times the depth.
    pub fn compute(&self) -> (r: i32)
        requires
            in_i32(self.position * self.depth),
        ensures
            r == self.position * self.depth,
    {
        self.position * self.depth
    }
}

impl Default for Submarine {
    fn default() -> (r: Self)
        ensures
            r.state() == (0int, 0int, 0int),
    {
        Submarine { position: 0, depth: 0, aim: 0 }
    }
}

/// One direction followed from state `(position, depth, aim)`; with `aimed`,
/// `up` and `down` change the aim, and `forward` also dives by aim times the
/// amount.
pub open spec fn step(s: (int, int, int), d: Direction, aimed: bool) -> (int, int, int) {
    match d {
        Direction::Forward(x) => if aimed {
            (s.0 + x, s.1 + s.2 * x, s.2)
        } else {
            (s.0 + x, s.1, s.2)
        },
        Direction::Up(x) => if aimed {
            (s.0, s.1, s.2 - x)
        } else {
            (s.0, s.1 - x, s.2)
        },
        Direction::Down(x) => if aimed {
            (s.0, s.1, s.2 + x)
        } else {
            (s.0, s.1 + x, s.2)
        },
    }
}

/// Every value that following the direction computes fits an `i32`.
pub open spec fn step_fits(s: (int, int, int), d: Direction, aimed: bool) -> bool {
    let t = step(s, d, aimed);
    &&& in_i32(t.0) && in_i32(t.1) && in_i32(t.2)
    &&& (aimed && d is Forward ==> in_i32(s.2 * d->Forward_0))
}

/// The state after following `ds` in order from the origin.
pub open spec fn run(ds: Seq<Direction>, aimed: bool) -> (int, int, int)
    decreases ds.len(),
{
    if ds.len() == 0 {
        (0, 0, 0)
    } else {
        step(run(ds.drop_last(), aimed), ds.last(), aimed)
    }
}

/// Every step of following `ds` stays within `i32`.
pub open spec fn run_fits(ds: Seq<Direction>, aimed: bool) -> bool
    decreases ds.len(),
{
    if ds.len() == 0 {
        true
    } else {
        run_fits(ds.drop_last(), aimed) && step_fits(run(ds.drop_last(), aimed), ds.last(), aimed)
    }
}

pub open spec fn action_of(w: Seq<char>, x: i32) -> Option<Direction> {
    if w == "forward"@ {
        Some(Direction::Forward(x))
    } else if w == "up"@ {
        Some(Direction::Up(x))
    } else if w == "down"@ {
        Some(Direction::Down(x))
    } else {
        None
    }
}

/// A line read as a direction: its first word is the keyword, its second the
/// amount, and any further words are ignored.
pub open spec fn direction_of(l: Seq<char>) -> Option<Direction> {
    let w = words(l);
    if w.len() >= 2 && is_i32_text(w[1]) {
        action_of(w[0], decimal_value(w[1]) as i32)
    } else {
        None
    }
}

/// `e` is the error of a line that is not a direction.
pub open spec fn error_matches(e: DirectionError, l: Seq<char>) -> bool {
    let w = words(l);
    match e {
        DirectionError::MissingValue(s) => w.len() < 2 && s@ == l,
        DirectionError::NotANumber(s) => w.len() >= 2 && !is_i32_text(w[1]) && s@ == w[1],
        DirectionError::UnknownAction(s) => w.len() >= 2 && is_i32_text(w[1]) && action_of(
            w[0],
            0,
        ) is None && s@ == w[0],
    }
}

pub open spec fn direction_result(l: Seq<char>, r: Result<Direction, DirectionError>) -> bool {
    match r {
        Ok(d) => direction_of(l) == Some(d),
        Err(e) => direction_of(l) is None && error_matches(e, l),
    }
}

pub open spec fn all_directions(ls: Seq<Seq<char>>) -> bool {
    forall|i: int| 0 <= i < ls.len() ==> #[trigger] direction_of(ls[i]) is Some
}

pub open spec fn directions(ls: Seq<Seq<char>>) -> Seq<Direction> {
    ls.map_values(|l: Seq<char>| direction_of(l)->0)
}

/// The lines that are not directions, in order.
pub open spec fn bad_lines(ls: Seq<Seq<char>>) -> Seq<Seq<char>>
    decreases ls.len(),
{
    if ls.len() == 0 {
        Seq::empty()
    } else {
        let k = bad_lines(ls.drop_last());
        if direction_of(ls.last()) is Some {
            k
        } else {
            k.push(ls.last())
        }
    }
}

/// Following `ds` both ways stays within `i32`, results included.
pub open spec fn course_fits(ds: Seq<Direction>) -> bool {
    &&& run_fits(ds, false)
    &&& run_fits(ds, true)
    &&& in_i32(run(ds, false).0 * run(ds, false).1)
    &&& in_i32(run(ds, true).0 * run(ds, true).1)
}

/// Relies on itertools' `Itertools::collect_tuple`: `Some` exactly when the
/// iterator yields exactly two items, and then those two in order.
#[verifier::external_body]
fn first_two(ws: Vec<String>) -> (r: Option<(String, String)>)
    ensures
        r is Some <==> ws@.len() == 2,
        r matches Some((a, b)) ==> a == ws@[0] && b == ws@[1],
{
    ws.into_iter().collect_tuple()
}

/// Reads a line as a direction: a keyword (`forward`, `up` or `down`) and a
/// decimal `i32` amount, as its first two words.
pub fn get_direction(entry: String) -> (r: Result<Direction, DirectionError>)
    ensures
        direction_result(entry@, r),
{
    let mut ws = words_of(entry.as_str());
    let ghost w = words(entry@);
    // words after the second are ignored
    ws.truncate(2);
    let pair = first_two(ws);
    let (action, value) = match pair {
        Some(p) => p,
        None => {
            return Err(DirectionError::MissingValue(entry));
        },
    };
    assert(action@ == w[0] && value@ == w[1]);
    let x = match parse_i32(value.as_str()) {
        Some(x) => x,
        None => {
            return Err(DirectionError::NotANumber(value));
        },
    };
    proof {
        reveal_strlit("forward");
        reveal_strlit("up");
        reveal_strlit("down");
    }
    if action == String::from_str("forward") {
        Ok(Direction::Forward(x))
    } else if action == String::from_str("up") {
        Ok(Direction::Up(x))
    } else if action == String::from_str("down") {
        Ok(Direction::Down(x))
    } else {
        Err(DirectionError::UnknownAction(action))
    }
}

/// Follows the directions with `up` and `down` changing the depth; `None`
/// where a step leaves the range of `i32`.
pub fn part_one(lines: &Vec<Direction>) -> (r: Option<Submarine>)
    ensures
        r is Some <==> run_fits(lines@, false),
        r matches Some(s) ==> s.state() == run(lines@, false),
{
    let mut submarine = Submarine::default();
    let mut i: usize = 0;
    while i < lines.len()
        invariant
            i <= lines@.len(),
            run_fits(lines@.take(i as int), false),
            submarine.state() == run(lines@.take(i as int), false),
        decreases lines@.len() - i,
    {
        proof {
            assert(lines@.take(i + 1).drop_last() =~= lines@.take(i as int));
            assert(lines@.take(i + 1).last() == lines@[i as int]);
            if run_fits(lines@, false) {
                lemma_fits_prefix(lines@, false, i + 1);
            }
        }
        match lines[i] {
            Direction::Forward(x) => {
                if !fits(submarine.position as i64 + x as i64) {
                    return None;
                }
                submarine.forward(x)
            },
            Direction::Up(x) => {
                if !fits(submarine.depth as i64 - x as i64) {
                    return None;
                }
                submarine.up(x)
            },
            Direction::Down(x) => {
                if !fits(submarine.depth as i64 + x as i64) {
                    return None;
                }
                submarine.down(x)
            },
        }
        i = i + 1;
    }
    assert(lines@.take(i as int) =~= lines@);
    Some(submarine)
}

/// Follows the directions with `up` and `down` changing the aim and `forward`
/// diving by aim times the amount; `None` where a step leaves the range of
/// `i32`.
pub fn part_two(lines: &Vec<Direction>) -> (r: Option<Submarine>)
    ensures
        r is Some <==> run_fits(lines@, true),
        r matches Some(s) ==> s.state() == run(lines@, true),
{
    let mut submarine = Submarine::default();
    let mut i: usize = 0;
    while i < lines.len()
        invariant
            i <= lines@.len(),
            run_fits(lines@.take(i as int), true),
            submarine.state() == run(lines@.take(i as int), true),
        decreases lines@.len() - i,
    {
        proof {
            assert(lines@.take(i + 1).drop_last() =~= lines@.take(i as int));
            assert(lines@.take(i + 1).last() == lines@[i as int]);
            if run_fits(lines@, true) {
                lemma_fits_prefix(lines@, true, i + 1);
            }
        }
        match lines[i] {
            Direction::Forward(x) => {
                if !(fits(submarine.position as i64 + x as i64) && mul_fits(submarine.aim, x)) {
                    return None;
                }
                if !fits(submarine.depth as i64 + (submarine.aim * x) as i64) {
                    return None;
                }
                submarine.forward_with_aim(x)
            },
            Direction::Up(x) => {
                if !fits(submarine.aim as i64 - x as i64) {
                    return None;
                }
                submarine.up_aim(x)
            },
            Direction::Down(x) => {
                if !fits(submarine.aim as i64 + x as i64) {
                    return None;
                }
                submarine.down_aim(x)
            },
        }
        i = i + 1;
    }
    assert(lines@.take(i as int) =~= lines@);
    Some(submarine)
}

/// Whether the product fits an `i32`.
fn mul_fits(a: i32, b: i32) -> (r: bool)
    ensures
        r == in_i32(a * b),
{
    assert(-0x4000_0000_0000_0000 <= a * b <= 0x4000_0000_0000_0000) by (nonlinear_arith)
        requires
            -0x8000_0000 <= a <= 0x7fff_ffff,
            -0x8000_0000 <= b <= 0x7fff_ffff,
    ;
    fits(a as i64 * b as i64)
}

proof fn lemma_fits_prefix(ds: Seq<Direction>, aimed: bool, k: int)
    requires
        0 <= k <= ds.len(),
        run_fits(ds, aimed),
    ensures
        run_fits(ds.take(k), aimed),
    decreases ds.len(),
{
    if k < ds.len() {
        assert(ds.drop_last().take(k) =~= ds.take(k));
        lemma_fits_prefix(ds.drop_last(), aimed, k);
    } else {
        assert(ds.take(k) =~= ds);
    }
}

fn fits(x: i64) -> (r: bool)
    ensures
        r == in_i32(x as int),
{
    -2147483648 <= x && x <= 2147483647
}

proof fn lemma_read_directions(ls: Seq<Seq<char>>, rs: Seq<Result<Direction, DirectionError>>)
    requires
        rs.len() == ls.len(),
        forall|i: int| 0 <= i < rs.len() ==> #[trigger] direction_result(ls[i], rs[i]),
    ensures
        failures(rs).len() == bad_lines(ls).len(),
        forall|j: int|
            0 <= j < failures(rs).len() ==> #[trigger] error_matches(
                failures(rs)[j],
                bad_lines(ls)[j],
            ),
        all_directions(ls) ==> successes(rs) == directions(ls),
        all_directions(ls) <==> bad_lines(ls).len() == 0,
    decreases ls.len(),
{
    if ls.len() > 0 {
        let n = ls.len() - 1;
        let (lt, rt) = (ls.drop_last(), rs.drop_last());
        assert forall|i: int| 0 <= i < rt.len() implies #[trigger] direction_result(
            lt[i],
            rt[i],
        ) by {
            assert(rt[i] == rs[i] && lt[i] == ls[i]);
        }
        lemma_read_directions(lt, rt);
        assert(direction_result(ls[n], rs[n]));
        assert(rs.last() == rs[n] && ls.last() == ls[n]);
        let fs = failures(rs);
        let bs = bad_lines(ls);
        assert forall|j: int| 0 <= j < fs.len() implies #[trigger] error_matches(fs[j], bs[j]) by {
            if j < failures(rt).len() {
                assert(fs[j] == failures(rt)[j]);
                assert(bs[j] == bad_lines(lt)[j]);
            }
        }
        if all_directions(ls) {
            assert(direction_of(ls[n]) is Some);
            assert(all_directions(lt)) by {
                assert forall|i: int| 0 <= i < lt.len() implies #[trigger] direction_of(
                    lt[i],
                ) is Some by {
                    assert(lt[i] == ls[i]);
                }
            }
            assert(directions(ls) =~= directions(lt).push(direction_of(ls[n])->0));
        }
        if bad_lines(ls).len() == 0 {
            assert(all_directions(ls)) by {
                assert forall|i: int| 0 <= i < ls.len() implies #[trigger] direction_of(
                    ls[i],
                ) is Some by {
                    if i < n {
                        assert(lt[i] == ls[i]);
                    }
                }
            }
        }
    }
}

/// Reads every line as a direction and follows them both ways; fails with the
/// errors of all the lines that are not directions, if there is any, and else
/// where a value leaves the range of `i32`.
pub fn day_two_challenge(data: &ChallengeData) -> (r: Result<DiveReport, DiveError>)
    ensures
        match r {
            Ok(rep) => {
                &&& all_directions(data.line_seq())
                &&& course_fits(directions(data.line_seq()))
                &&& rep.plain.state() == run(directions(data.line_seq()), false)
                &&& rep.aimed.state() == run(directions(data.line_seq()), true)
                &&& rep.plain_result == rep.plain.position * rep.plain.depth
                &&& rep.aimed_result == rep.aimed.position * rep.aimed.depth
            },
            Err(DiveError::InvalidDirections(es)) => {
                &&& !all_directions(data.line_seq())
                &&& es@.len() == bad_lines(data.line_seq()).len()
                &&& forall|j: int|
                    0 <= j < es@.len() ==> #[trigger] error_matches(
                        es@[j],
                        bad_lines(data.line_seq())[j],
                    )
            },
            Err(DiveError::Overflow) => {
                &&& all_directions(data.line_seq())
                &&& !course_fits(directions(data.line_seq()))
            },
        },
{
    let (lines, errors) = data.process(read_direction);
    let ghost ls = data.line_seq();
    proof {
        let rs = choose|rs: Seq<Result<Direction, DirectionError>>|
            {
                &&& rs.len() == data.entries().len()
                &&& forall|i: int|
                    0 <= i < rs.len() ==> #[trigger] direction_result(data.entries()[i]@, rs[i])
                &&& lines@ == successes(rs)
                &&& errors@ == failures(rs)
            };
        assert forall|i: int| 0 <= i < rs.len() implies #[trigger] direction_result(ls[i], rs[i]) by {
            assert(ls[i] == data.entries()[i]@);
        }
        lemma_read_directions(ls, rs);
    }
    if errors.len() != 0 {
        return Err(DiveError::InvalidDirections(errors));
    }
    let plain = match part_one(&lines) {
        Some(s) => s,
        None => {
            return Err(DiveError::Overflow);
        },
    };
    let aimed = match part_two(&lines) {
        Some(s) => s,
        None => {
            return Err(DiveError::Overflow);
        },
    };
    if !mul_fits(plain.position, plain.depth) || !mul_fits(aimed.position, aimed.depth) {
        return Err(DiveError::Overflow);
    }
    let plain_result = plain.compute();
    let aimed_result = aimed.compute();
    Ok(DiveReport { plain, plain_result, aimed, aimed_result })
}

fn read_direction(v: &String) -> (r: Result<Direction, DirectionError>)
    ensures
        direction_result(v@, r),
{
    get_direction(v.clone())
}

/// A line whose first word is no known keyword is no direction, so the
/// directions as a whole are refused.
pub proof fn lemma_unknown_action_fails(ls: Seq<Seq<char>>, i: int)
    requires
        0 <= i < ls.len(),
        words(ls[i]).len() >= 2,
        words(ls[i])[0] != "forward"@,
        words(ls[i])[0] != "up"@,
        words(ls[i])[0] != "down"@,
    ensures
        !all_directions(ls),
{
    assert(direction_of(ls[i]) is None);
}

} // verus!
