//! Hydrothermal venture: vent lines on a thousand-by-thousand grid.  Each
//! line covers the cells from one endpoint to the other; the answer is how
//! many cells at least two lines cover.

use vstd::prelude::*;

use crate::aoc_error::AocError;
use crate::text::{chars_of, dec_str, lines_of, parse_usize, spec_lines, split_on, spec_split,
    usize_to_string, views_of, dec_value, is_num_str};

verus! {

/// The sign of a step: negative, zero or positive.
pub fn semisign(x: isize) -> (r: isize)
    ensures
        x < 0 ==> r == -1,
        x == 0 ==> r == 0,
        x > 0 ==> r == 1,
{
    if x < 0 {
        -1
    } else if x > 0 {
        1
    } else {
        0
    }
}

/// One grid cell.
#[derive(Debug, Copy, Clone, PartialEq, Eq, Structural)]
pub struct Point(pub usize, pub usize);

impl Point {
    /// The horizontal coordinate.
    pub fn x(&self) -> (r: usize)
        ensures
            r == self.0,
    {
        self.0
    }

    /// The vertical coordinate.
    pub fn y(&self) -> (r: usize)
        ensures
            r == self.1,
    {
        self.1
    }
}

/// One vent line, endpoint to endpoint.
#[derive(Debug, Copy, Clone)]
pub struct Line {
    pub from: Point,
    pub to: Point,
}

/// How many cells the line spans past its start.
pub open spec fn spec_steps(l: Line) -> nat {
    let dx = if l.from.0 < l.to.0 {
        l.to.0 - l.from.0
    } else {
        l.from.0 - l.to.0
    };
    let dy = if l.from.1 < l.to.1 {
        l.to.1 - l.from.1
    } else {
        l.from.1 - l.to.1
    };
    if dx > dy {
        dx as nat
    } else {
        dy as nat
    }
}

/// A line the grid walk understands: horizontal, vertical, or at forty-five
/// degrees.
pub open spec fn spec_walkable(l: Line) -> bool {
    let dx = if l.from.0 < l.to.0 {
        l.to.0 - l.from.0
    } else {
        l.from.0 - l.to.0
    };
    let dy = if l.from.1 < l.to.1 {
        l.to.1 - l.from.1
    } else {
        l.from.1 - l.to.1
    };
    l.from.0 == l.to.0 || l.from.1 == l.to.1 || dx == dy
}

/// The cell the line covers after the given number of steps.
pub open spec fn spec_point_at(l: Line, k: int) -> (int, int) {
    let x = if l.to.0 > l.from.0 {
        l.from.0 + k
    } else if l.to.0 < l.from.0 {
        l.from.0 - k
    } else {
        l.from.0 as int
    };
    let y = if l.to.1 > l.from.1 {
        l.from.1 + k
    } else if l.to.1 < l.from.1 {
        l.from.1 - k
    } else {
        l.from.1 as int
    };
    (x, y)
}

impl Line {
    /// Whether the line is horizontal or vertical.
    pub fn is_axis_aligned(&self) -> (r: bool)
        ensures
            r == (self.from.0 == self.to.0 || self.from.1 == self.to.1),
    {
        self.from.0 == self.to.0 || self.from.1 == self.to.1
    }

    /// The cells the line covers, start to end.  Fails exactly when the line
    /// is neither axis-aligned nor at forty-five degrees.
    pub fn points(&self) -> (r: Result<Vec<Point>, AocError>)
        ensures
            match r {
                Ok(ps) => {
                    &&& spec_walkable(*self)
                    &&& ps@.len() == spec_steps(*self) + 1
                    &&& forall|k: int|
                        0 <= k < ps@.len() ==> ((#[trigger] ps@[k]).0 as int, ps@[k].1 as int)
                            == spec_point_at(*self, k)
                },
                Err(e) => !spec_walkable(*self) && e matches AocError::Misc(_),
            },
    {
        let dx = if self.from.0 < self.to.0 {
            self.to.0 - self.from.0
        } else {
            self.from.0 - self.to.0
        };
        let dy = if self.from.1 < self.to.1 {
            self.to.1 - self.from.1
        } else {
            self.from.1 - self.to.1
        };
        if !(self.from.0 == self.to.0 || self.from.1 == self.to.1 || dx == dy) {
            return Err(AocError::Misc("a vent line must be straight or diagonal".to_owned()));
        }
        let steps = if dx > dy {
            dx
        } else {
            dy
        };
        let mut ps: Vec<Point> = Vec::new();
        let mut k: usize = 0;
        while k < steps
            invariant
                0 <= k <= steps,
                steps == spec_steps(*self),
                spec_walkable(*self),
                ps@.len() == k,
                forall|k2: int|
                    0 <= k2 < k ==> ((#[trigger] ps@[k2]).0 as int, ps@[k2].1 as int)
                        == spec_point_at(*self, k2),
            decreases steps - k,
        {
            let px = if self.to.0 > self.from.0 {
                self.from.0 + k
            } else if self.to.0 < self.from.0 {
                self.from.0 - k
            } else {
                self.from.0
            };
            let py = if self.to.1 > self.from.1 {
                self.from.1 + k
            } else if self.to.1 < self.from.1 {
                self.from.1 - k
            } else {
                self.from.1
            };
            ps.push(Point(px, py));
            k = k + 1;
        }
        let lx = if self.to.0 > self.from.0 {
            self.from.0 + steps
        } else if self.to.0 < self.from.0 {
            self.from.0 - steps
        } else {
            self.from.0
        };
        let ly = if self.to.1 > self.from.1 {
            self.from.1 + steps
        } else if self.to.1 < self.from.1 {
            self.from.1 - steps
        } else {
            self.from.1
        };
        ps.push(Point(lx, ly));
        Ok(ps)
    }
}

/// On a walkable line with both endpoints on the grid, every covered cell
/// is on the grid.
proof fn lemma_point_in_box(l: Line, k: int)
    requires
        spec_walkable(l),
        0 <= k <= spec_steps(l),
        l.from.0 < 1000,
        l.from.1 < 1000,
        l.to.0 < 1000,
        l.to.1 < 1000,
    ensures
        0 <= spec_point_at(l, k).0 < 1000,
        0 <= spec_point_at(l, k).1 < 1000,
{
}

/// How many cells have been covered at least twice.
pub open spec fn count_ge2(counts: Seq<u16>) -> nat
    decreases counts.len(),
{
    if counts.len() == 0 {
        0
    } else {
        count_ge2(counts.drop_last()) + if counts.last() >= 2 {
            1nat
        } else {
            0nat
        }
    }
}

/// Covering a cell once more moves the overlap count exactly when the cell
/// reaches two.
proof fn lemma_count_ge2_update(counts: Seq<u16>, i: int, v: u16)
    requires
        0 <= i < counts.len(),
    ensures
        count_ge2(counts.update(i, v)) == count_ge2(counts) + (if v >= 2 {
            1int
        } else {
            0int
        }) - (if counts[i] >= 2 {
            1int
        } else {
            0int
        }),
    decreases counts.len(),
{
    if i == counts.len() - 1 {
        assert(counts.update(i, v).drop_last() =~= counts.drop_last());
    } else {
        assert(counts.update(i, v).drop_last() =~= counts.drop_last().update(i, v));
        assert(counts.update(i, v).last() == counts.last());
        lemma_count_ge2_update(counts.drop_last(), i, v);
    }
}

/// Covering one in-bounds cell: its count rises (capped), and nothing else
/// moves.
pub open spec fn spec_cover(counts: Seq<u16>, x: int, y: int) -> Seq<u16> {
    let idx = x * 1000 + y;
    if 0 <= x < 1000 && 0 <= y < 1000 {
        if counts[idx] == u16::MAX {
            counts
        } else {
            counts.update(idx, (counts[idx] + 1) as u16)
        }
    } else {
        counts
    }
}

/// The thousand-by-thousand grid of cover counts, with a running overlap
/// total.
#[derive(Debug)]
pub struct VentField2 {
    pub counts: Vec<u16>,
    pub overlaps: usize,
}

impl VentField2 {
    /// A full grid whose overlap total matches its counts.
    pub open spec fn wf(&self) -> bool {
        &&& self.counts@.len() == 1000000
        &&& self.overlaps == count_ge2(self.counts@)
    }

    /// An empty field.
    pub fn new() -> (r: VentField2)
        ensures
            r.wf(),
            forall|i: int| 0 <= i < 1000000 ==> #[trigger] r.counts@[i] == 0,
    {
        let mut counts: Vec<u16> = Vec::new();
        let mut i: usize = 0;
        while i < 1000000
            invariant
                0 <= i <= 1000000,
                counts@.len() == i,
                forall|k: int| 0 <= k < i ==> #[trigger] counts@[k] == 0,
                count_ge2(counts@) == 0,
            decreases 1000000 - i,
        {
            let ghost prev = counts@;
            counts.push(0);
            proof {
                assert(counts@.drop_last() =~= prev);
            }
            i = i + 1;
        }
        VentField2 { counts, overlaps: 0 }
    }

    /// Covers one cell.  Reports `false`, changing nothing, exactly when the
    /// cell lies outside the grid.
    pub fn add(&mut self, point: Point) -> (ok: bool)
        requires
            old(self).wf(),
        ensures
            final(self).wf(),
            ok == (point.0 < 1000 && point.1 < 1000),
            final(self).counts@ == spec_cover(
                old(self).counts@,
                point.0 as int,
                point.1 as int,
            ),
    {
        if point.0 >= 1000 || point.1 >= 1000 {
            return false;
        }
        let idx = point.0 * 1000 + point.1;
        let cur = self.counts[idx];
        if cur == u16::MAX {
            return true;
        }
        proof {
            lemma_count_ge2_update(self.counts@, idx as int, (cur + 1) as u16);
            lemma_count_ge2_le_len(self.counts@);
        }
        self.counts[idx] = cur + 1;
        if cur + 1 == 2 {
            self.overlaps = self.overlaps + 1;
        }
        true
    }

    /// How many cells at least two lines cover.
    pub fn overlaps(&self) -> (r: usize)
        requires
            self.wf(),
        ensures
            r == count_ge2(self.counts@),
    {
        self.overlaps
    }
}

/// The overlap count never exceeds the grid.
proof fn lemma_count_ge2_le_len(counts: Seq<u16>)
    ensures
        count_ge2(counts) <= counts.len(),
    decreases counts.len(),
{
    if counts.len() > 0 {
        lemma_count_ge2_le_len(counts.drop_last());
    }
}

/// Parsing one endpoint, `x,y` in decimal.
pub open spec fn spec_point(l: Seq<char>) -> Option<Point> {
    let fields = spec_split(l, ',');
    if fields.len() == 2 && is_num_str(fields[0]) && dec_value(fields[0]) <= usize::MAX
        && is_num_str(fields[1]) && dec_value(fields[1]) <= usize::MAX {
        Some(Point(dec_value(fields[0]) as usize, dec_value(fields[1]) as usize))
    } else {
        None
    }
}

/// Parsing one vent line, `x1,y1 -> x2,y2`.
pub open spec fn spec_line(l: Seq<char>) -> Option<Line> {
    let fields = spec_split(l, ' ');
    if fields.len() != 3 || fields[1] != seq!['-', '>'] {
        None
    } else {
        match (spec_point(fields[0]), spec_point(fields[2])) {
            (Some(from), Some(to)) => Some(Line { from, to }),
            _ => None,
        }
    }
}

/// Parsing every vent line.
pub open spec fn spec_vent_lines(lines: Seq<Seq<char>>) -> Option<Seq<Line>>
    decreases lines.len(),
{
    if lines.len() == 0 {
        Some(Seq::empty())
    } else {
        match spec_vent_lines(lines.drop_last()) {
            None => None,
            Some(ls) => match spec_line(lines.last()) {
                None => None,
                Some(l) => Some(ls.push(l)),
            },
        }
    }
}

/// Parses one endpoint.
fn parse_point(field: &Vec<char>) -> (r: Result<Point, AocError>)
    ensures
        match r {
            Ok(p) => spec_point(field@) == Some(p),
            Err(_) => spec_point(field@) is None,
        },
{
    let parts = split_on(field, ',');
    if parts.len() != 2 {
        return Err(AocError::Misc("an endpoint needs exactly two coordinates".to_owned()));
    }
    proof {
        assert(views_of(parts@)[0] == parts@[0]@);
        assert(views_of(parts@)[1] == parts@[1]@);
    }
    let x = match parse_usize(&parts[0]) {
        Ok(x) => x,
        Err(e) => { return Err(e) },
    };
    let y = match parse_usize(&parts[1]) {
        Ok(y) => y,
        Err(e) => { return Err(e) },
    };
    Ok(Point(x, y))
}

/// Parses one vent line.
fn parse_line(line: &Vec<char>) -> (r: Result<Line, AocError>)
    ensures
        match r {
            Ok(l) => spec_line(line@) == Some(l),
            Err(_) => spec_line(line@) is None,
        },
{
    let fields = split_on(line, ' ');
    proof {
        assert(views_of(fields@)[0] == fields@[0]@);
        if fields@.len() > 1 {
            assert(views_of(fields@)[1] == fields@[1]@);
        }
        if fields@.len() > 2 {
            assert(views_of(fields@)[2] == fields@[2]@);
        }
    }
    if fields.len() != 3 {
        return Err(AocError::Misc("a vent line is two endpoints and an arrow".to_owned()));
    }
    let arrow = &fields[1];
    if !(arrow.len() == 2 && arrow[0] == '-' && arrow[1] == '>') {
        proof {
            if fields@[1]@ == seq!['-', '>'] {
                assert(fields@[1]@.len() == 2);
                assert(fields@[1]@[0] == '-' && fields@[1]@[1] == '>');
            }
        }
        return Err(AocError::Misc("a vent line is two endpoints and an arrow".to_owned()));
    }
    proof {
        assert(fields@[1]@ =~= seq!['-', '>']);
    }
    let from = match parse_point(&fields[0]) {
        Ok(p) => p,
        Err(e) => { return Err(e) },
    };
    let to = match parse_point(&fields[2]) {
        Ok(p) => p,
        Err(e) => { return Err(e) },
    };
    Ok(Line { from, to })
}

/// Parses all vent lines.
fn parse_vent_lines(lines: &Vec<Vec<char>>) -> (r: Result<Vec<Line>, AocError>)
    ensures
        match r {
            Ok(ls) => spec_vent_lines(views_of(lines@)) == Some(ls@),
            Err(_) => spec_vent_lines(views_of(lines@)) is None,
        },
{
    let ghost vls = views_of(lines@);
    let mut ls: Vec<Line> = Vec::new();
    proof {
        assert(vls.subrange(0, 0) =~= Seq::<Seq<char>>::empty());
    }
    let mut i: usize = 0;
    while i < lines.len()
        invariant
            0 <= i <= lines@.len(),
            vls == views_of(lines@),
            spec_vent_lines(vls.subrange(0, i as int)) == Some(ls@),
        decreases lines@.len() - i,
    {
        proof {
            assert(vls.subrange(0, i + 1).drop_last() =~= vls.subrange(0, i as int));
            assert(vls.subrange(0, i + 1).last() == vls[i as int]);
            assert(vls[i as int] == lines@[i as int]@);
        }
        let l = match parse_line(&lines[i]) {
            Ok(l) => l,
            Err(e) => {
                proof {
                    lemma_vent_lines_propagate(vls, i + 1);
                }
                return Err(e);
            },
        };
        ls.push(l);
        i = i + 1;
    }
    proof {
        assert(vls.subrange(0, vls.len() as int) =~= vls);
    }
    Ok(ls)
}

/// Once a prefix of the lines fails, the whole input fails.
proof fn lemma_vent_lines_propagate(vls: Seq<Seq<char>>, i: int)
    requires
        0 <= i <= vls.len(),
        spec_vent_lines(vls.subrange(0, i)) is None,
    ensures
        spec_vent_lines(vls) is None,
    decreases vls.len() - i,
{
    if i < vls.len() {
        assert(vls.subrange(0, i + 1).drop_last() =~= vls.subrange(0, i));
        lemma_vent_lines_propagate(vls, i + 1);
    } else {
        assert(vls.subrange(0, i) =~= vls);
    }
}

/// Covering all of a line's cells, in order.
pub open spec fn spec_cover_line(counts: Seq<u16>, l: Line, n: int) -> Seq<u16>
    decreases n,
{
    if n <= 0 {
        counts
    } else {
        let prev = spec_cover_line(counts, l, n - 1);
        let (x, y) = spec_point_at(l, n - 1);
        spec_cover(prev, x, y)
    }
}

/// The grid after the chosen lines are walked: every line when `diagonals`
/// is set, only the axis-aligned ones otherwise.
pub open spec fn spec_field(counts: Seq<u16>, ls: Seq<Line>, diagonals: bool, n: int) -> Seq<u16>
    decreases n,
{
    if n <= 0 {
        counts
    } else {
        let prev = spec_field(counts, ls, diagonals, n - 1);
        let l = ls[n - 1];
        if diagonals || l.from.0 == l.to.0 || l.from.1 == l.to.1 {
            spec_cover_line(prev, l, spec_steps(l) as int + 1)
        } else {
            prev
        }
    }
}

/// Whether every line the walk will take is walkable and on the grid.
pub open spec fn lines_ok(ls: Seq<Line>, diagonals: bool) -> bool {
    forall|k: int|
        0 <= k < ls.len() ==> ((diagonals || (#[trigger] ls[k]).from.0 == ls[k].to.0 || ls[k].from.1
            == ls[k].to.1) ==> (spec_walkable(ls[k]) && ls[k].from.0 < 1000 && ls[k].from.1 < 1000
            && ls[k].to.0 < 1000 && ls[k].to.1 < 1000))
}

/// Walks the chosen lines and counts the cells covered at least twice.
fn overlap_count(input: &str, diagonals: bool) -> (r: Result<String, AocError>)
    ensures
        ({
            let parsed = spec_vent_lines(spec_lines(input@));
            match r {
                Ok(s) => parsed matches Some(ls) && (lines_ok(ls, diagonals) && s@ == dec_str(
                    count_ge2(
                        spec_field(
                            Seq::new(1000000, |i: int| 0u16),
                            ls,
                            diagonals,
                            ls.len() as int,
                        ),
                    ),
                )),
                Err(_) => parsed is None || (parsed matches Some(ls) && !lines_ok(ls, diagonals)),
            }
        }),
{
    let cs = chars_of(input);
    let lines = lines_of(&cs);
    let ls = match parse_vent_lines(&lines) {
        Ok(ls) => ls,
        Err(e) => { return Err(e) },
    };
    let mut field = VentField2::new();
    let ghost zeros = Seq::new(1000000, |i: int| 0u16);
    proof {
        assert(field.counts@ =~= zeros);
    }
    let mut i: usize = 0;
    while i < ls.len()
        invariant
            0 <= i <= ls@.len(),
            spec_vent_lines(spec_lines(input@)) == Some(ls@),
            field.wf(),
            lines_ok(ls@.subrange(0, i as int), diagonals),
            field.counts@ == spec_field(zeros, ls@, diagonals, i as int),
        decreases ls@.len() - i,
    {
        let line = ls[i];
        proof {
            assert(ls@.subrange(0, i + 1).drop_last() =~= ls@.subrange(0, i as int));
        }
        if diagonals || line.is_axis_aligned() {
            let pts = match line.points() {
                Ok(ps) => ps,
                Err(e) => {
                    proof {
                        assert(!lines_ok(ls@, diagonals));
                    }
                    return Err(e);
                },
            };
            let ghost entry = field.counts@;
            let in_box = line.from.0 < 1000 && line.from.1 < 1000 && line.to.0 < 1000 && line.to.1
                < 1000;
            if !in_box {
                proof {
                    assert(!lines_ok(ls@, diagonals)) by {
                        assert(ls@[i as int] == line);
                    }
                }
                return Err(AocError::Misc("a vent line leaves the grid".to_owned()));
            }
            let mut j: usize = 0;
            while j < pts.len()
                invariant
                    0 <= j <= pts@.len(),
                    field.wf(),
                    spec_walkable(line),
                    line.from.0 < 1000 && line.from.1 < 1000 && line.to.0 < 1000 && line.to.1
                        < 1000,
                    pts@.len() == spec_steps(line) + 1,
                    forall|k2: int|
                        0 <= k2 < pts@.len() ==> ((#[trigger] pts@[k2]).0 as int, pts@[
                            k2].1 as int) == spec_point_at(line, k2),
                    field.counts@ == spec_cover_line(entry, line, j as int),
                decreases pts@.len() - j,
            {
                proof {
                    lemma_point_in_box(line, j as int);
                }
                let ok = field.add(pts[j]);
                proof {
                    assert(ok);
                }
                j = j + 1;
            }
            proof {
                assert(lines_ok(ls@.subrange(0, i + 1), diagonals)) by {
                    assert(ls@[i as int] == line);
                    assert(forall|k2: int|
                        0 <= k2 < i ==> ls@.subrange(0, i + 1)[k2] == ls@.subrange(0, i as int)[
                        k2]);
                    assert(ls@.subrange(0, i + 1)[i as int] == line);
                }
            }
        } else {
            proof {
                assert(lines_ok(ls@.subrange(0, i + 1), diagonals));
            }
        }
        i = i + 1;
    }
    proof {
        assert(ls@.subrange(0, ls@.len() as int) =~= ls@);
    }
    Ok(usize_to_string(field.overlaps()))
}

/// Overlapping cells among the horizontal and vertical vent lines.
pub fn part_one(input: &str) -> (r: Result<String, AocError>)
    ensures
        ({
            let parsed = spec_vent_lines(spec_lines(input@));
            match r {
                Ok(s) => parsed matches Some(ls) && (lines_ok(ls, false) && s@ == dec_str(
                    count_ge2(
                        spec_field(Seq::new(1000000, |i: int| 0u16), ls, false, ls.len() as int),
                    ),
                )),
                Err(_) => parsed is None || (parsed matches Some(ls) && !lines_ok(ls, false)),
            }
        }),
{
    overlap_count(input, false)
}

/// Overlapping cells among all the vent lines, diagonals included.
pub fn part_two(input: &str) -> (r: Result<String, AocError>)
    ensures
        ({
            let parsed = spec_vent_lines(spec_lines(input@));
            match r {
                Ok(s) => parsed matches Some(ls) && (lines_ok(ls, true) && s@ == dec_str(
                    count_ge2(
                        spec_field(Seq::new(1000000, |i: int| 0u16), ls, true, ls.len() as int),
                    ),
                )),
                Err(_) => parsed is None || (parsed matches Some(ls) && !lines_ok(ls, true)),
            }
        }),
{
    overlap_count(input, true)
}

} // verus!
