//! Dumbo octopus: a ten-by-ten grid of energy levels.  Each step every
//! level rises by one; a level passing nine flashes, raising its eight
//! neighbours and possibly cascading, and every flasher then resets to zero.

use vstd::prelude::*;

use crate::aoc_error::AocError;
use crate::text::{chars_of, dec_str, lines_of, spec_lines, usize_to_string};

verus! {

/// One cell of the ten-by-ten grid.
#[derive(Debug, Copy, Clone)]
pub struct Point(pub usize, pub usize);

/// The up-to-eight neighbours of a cell, in reading order.
pub open spec fn spec_neighbors(x: nat, y: nat) -> Seq<nat> {
    let up = y > 0;
    let down = y < 9;
    let left = x > 0;
    let right = x < 9;
    (if up && left {
        seq![((y - 1) * 10 + x - 1) as nat]
    } else {
        Seq::empty()
    }) + (if up {
        seq![((y - 1) * 10 + x) as nat]
    } else {
        Seq::empty()
    }) + (if up && right {
        seq![((y - 1) * 10 + x + 1) as nat]
    } else {
        Seq::empty()
    }) + (if left {
        seq![(y * 10 + x - 1) as nat]
    } else {
        Seq::empty()
    }) + (if right {
        seq![(y * 10 + x + 1) as nat]
    } else {
        Seq::empty()
    }) + (if down && left {
        seq![((y + 1) * 10 + x - 1) as nat]
    } else {
        Seq::empty()
    }) + (if down {
        seq![((y + 1) * 10 + x) as nat]
    } else {
        Seq::empty()
    }) + (if down && right {
        seq![((y + 1) * 10 + x + 1) as nat]
    } else {
        Seq::empty()
    })
}

impl Point {
    /// The neighbours of this cell, as cells.
    pub fn neighbors(&self) -> (r: Vec<Point>)
        requires
            self.0 < 10,
            self.1 < 10,
        ensures
            r@.map_values(|p: Point| (p.1 * 10 + p.0) as nat) == spec_neighbors(
                self.0 as nat,
                self.1 as nat,
            ),
            forall|k: int| 0 <= k < r@.len() ==> (#[trigger] r@[k]).0 < 10 && r@[k].1 < 10,
    {
        let up = self.1 > 0;
        let down = self.1 < 9;
        let left = self.0 > 0;
        let right = self.0 < 9;
        let mut points: Vec<Point> = Vec::new();
        if up && left {
            points.push(Point(self.0 - 1, self.1 - 1));
        }
        if up {
            points.push(Point(self.0, self.1 - 1));
        }
        if up && right {
            points.push(Point(self.0 + 1, self.1 - 1));
        }
        if left {
            points.push(Point(self.0 - 1, self.1));
        }
        if right {
            points.push(Point(self.0 + 1, self.1));
        }
        if down && left {
            points.push(Point(self.0 - 1, self.1 + 1));
        }
        if down {
            points.push(Point(self.0, self.1 + 1));
        }
        if down && right {
            points.push(Point(self.0 + 1, self.1 + 1));
        }
        proof {
            assert(points@.map_values(|p: Point| (p.1 * 10 + p.0) as nat) =~= spec_neighbors(
                self.0 as nat,
                self.1 as nat,
            ));
        }
        points
    }

    /// The cell's position in the flattened grid.
    pub fn index(&self) -> (r: usize)
        requires
            self.0 < 10,
            self.1 < 10,
        ensures
            r == self.1 * 10 + self.0,
            r < 100,
    {
        self.1 * 10 + self.0
    }

    /// The cell at a flattened position.
    pub fn from_index(i: usize) -> (r: Point)
        requires
            i < 100,
        ensures
            r.0 == i % 10 && r.1 == i / 10,
            r.0 < 10 && r.1 < 10,
            r.1 * 10 + r.0 == i,
    {
        Point(i % 10, i / 10)
    }
}

/// How many cells are still at nine or below.
pub open spec fn count_le9(g: Seq<u32>) -> nat
    decreases g.len(),
{
    if g.len() == 0 {
        0
    } else {
        count_le9(g.drop_last()) + if g.last() <= 9 {
            1nat
        } else {
            0nat
        }
    }
}

/// Bumping a cell past nine takes it out of the count.
proof fn lemma_count_le9_update(g: Seq<u32>, i: int, v: u32)
    requires
        0 <= i < g.len(),
    ensures
        count_le9(g.update(i, v)) == count_le9(g) + (if v <= 9 {
            1int
        } else {
            0int
        }) - (if g[i] <= 9 {
            1int
        } else {
            0int
        }),
    decreases g.len(),
{
    if i == g.len() - 1 {
        assert(g.update(i, v).drop_last() =~= g.drop_last());
    } else {
        assert(g.update(i, v).drop_last() =~= g.drop_last().update(i, v));
        assert(g.update(i, v).last() == g.last());
        lemma_count_le9_update(g.drop_last(), i, v);
    }
}

/// Raising the listed cells by one, collecting those that land exactly on
/// ten — the fresh flashers.
pub open spec fn bump_all(g: Seq<u32>, ns: Seq<nat>) -> (Seq<u32>, Seq<nat>)
    decreases ns.len(),
{
    if ns.len() == 0 {
        (g, Seq::empty())
    } else {
        let (g1, p1) = bump_all(g, ns.drop_last());
        let n = ns.last();
        if 0 <= n < g1.len() {
            let v = if g1[n as int] == u32::MAX {
                g1[n as int]
            } else {
                (g1[n as int] + 1) as u32
            };
            let g2 = g1.update(n as int, v);
            if v == 10 {
                (g2, p1.push(n))
            } else {
                (g2, p1)
            }
        } else {
            (g1, p1)
        }
    }
}

/// Bumping removes one counted cell per fresh flasher, never adds any.
proof fn lemma_bump_all_count(g: Seq<u32>, ns: Seq<nat>)
    ensures
        bump_all(g, ns).0.len() == g.len(),
        count_le9(bump_all(g, ns).0) + bump_all(g, ns).1.len() <= count_le9(g),
        bump_all(g, ns).1.len() <= ns.len(),
    decreases ns.len(),
{
    if ns.len() > 0 {
        lemma_bump_all_count(g, ns.drop_last());
        let (g1, p1) = bump_all(g, ns.drop_last());
        let n = ns.last();
        if 0 <= n < g1.len() {
            let v = if g1[n as int] == u32::MAX {
                g1[n as int]
            } else {
                (g1[n as int] + 1) as u32
            };
            lemma_count_le9_update(g1, n as int, v);
        }
    }
}

/// The flash cascade: each queued flasher raises its neighbours, and any
/// neighbour landing exactly on ten joins the queue.
pub open spec fn spec_cascade(g: Seq<u32>, queue: Seq<nat>) -> Seq<u32>
    decreases queue.len() + 2 * count_le9(g),
    via spec_cascade_decreases
{
    if queue.len() == 0 {
        g
    } else {
        let p = queue[0];
        if 0 <= p < 100 {
            let (g2, pushed) = bump_all(g, spec_neighbors(p % 10, p / 10));
            spec_cascade(g2, queue.drop_first() + pushed)
        } else {
            spec_cascade(g, queue.drop_first())
        }
    }
}

#[via_fn]
proof fn spec_cascade_decreases(g: Seq<u32>, queue: Seq<nat>) {
    if queue.len() > 0 {
        let p = queue[0];
        if 0 <= p < 100 {
            lemma_bump_all_count(g, spec_neighbors(p % 10, p / 10));
        }
    }
}

/// The cells at exactly the given level, in reading order.
pub open spec fn cells_at(g: Seq<u32>, level: u32, n: int) -> Seq<nat>
    decreases n,
{
    if n <= 0 {
        Seq::empty()
    } else {
        cells_at(g, level, n - 1) + if g[n - 1] == level {
            seq![(n - 1) as nat]
        } else {
            Seq::empty()
        }
    }
}

/// How many cells are past nine.
pub open spec fn count_flashed(g: Seq<u32>, n: int) -> nat
    decreases n,
{
    if n <= 0 {
        0
    } else {
        count_flashed(g, n - 1) + if g[n - 1] > 9 {
            1nat
        } else {
            0nat
        }
    }
}

/// One whole step: every level rises, flashes cascade, and everything past
/// nine resets to zero.  Yields the new grid and the number of flashes.
pub open spec fn spec_step(g: Seq<u32>) -> (Seq<u32>, nat) {
    let bumped = g.map_values(|v: u32| (v + 1) as u32);
    let settled = spec_cascade(bumped, cells_at(bumped, 10, 100));
    let flashes = count_flashed(settled, 100);
    let reset = settled.map_values(
        |v: u32|
            if v > 9 {
                0u32
            } else {
                v
            },
    );
    (reset, flashes)
}

/// The grid and total flashes after a number of steps.
pub open spec fn spec_steps(g: Seq<u32>, n: nat) -> (Seq<u32>, nat)
    decreases n,
{
    if n == 0 {
        (g, 0)
    } else {
        let prev = spec_steps(g, (n - 1) as nat);
        let stepped = spec_step(prev.0);
        (stepped.0, prev.1 + stepped.1)
    }
}

/// A ten-by-ten grid of octopus energy levels.
#[derive(Debug)]
pub struct Octopuses {
    pub grid: Vec<u32>,
}

impl Octopuses {
    /// One hundred cells, each at level nine or below.
    pub open spec fn wf(&self) -> bool {
        &&& self.grid@.len() == 100
        &&& forall|i: int| 0 <= i < 100 ==> self.grid@[i] <= 9
    }

    /// Advances the grid one step and counts the flashes.
    pub fn step(&mut self) -> (flashes: usize)
        requires
            old(self).wf(),
        ensures
            final(self).wf(),
            (final(self).grid@, flashes as nat) == spec_step(old(self).grid@),
            flashes <= 100,
    {
        let ghost g0 = self.grid@;
        let ghost bumped = g0.map_values(|v: u32| (v + 1) as u32);
        let mut to_flash: Vec<usize> = Vec::new();
        let mut i: usize = 0;
        proof {
            assert(self.grid@.subrange(0, 0) =~= bumped.subrange(0, 0));
            assert(to_flash@.map_values(|p: usize| p as nat) =~= cells_at(bumped, 10, 0));
        }
        while i < 100
            invariant
                0 <= i <= 100,
                g0.len() == 100,
                forall|k: int| 0 <= k < 100 ==> g0[k] <= 9,
                self.grid@.len() == 100,
                bumped == g0.map_values(|v: u32| (v + 1) as u32),
                forall|k: int| 0 <= k < i ==> self.grid@[k] == bumped[k],
                forall|k: int| i <= k < 100 ==> self.grid@[k] == g0[k],
                to_flash@.map_values(|p: usize| p as nat) == cells_at(bumped, 10, i as int),
                forall|k: int| 0 <= k < to_flash@.len() ==> #[trigger] to_flash@[k] < 100,
            decreases 100 - i,
        {
            let ghost prev = to_flash@;
            proof {
                assert(self.grid@[i as int] == g0[i as int]);
                assert(g0[i as int] <= 9);
            }
            let v = self.grid[i] + 1;
            self.grid[i] = v;
            if v == 10 {
                to_flash.push(i);
            }
            proof {
                assert(to_flash@.map_values(|p: usize| p as nat) =~= cells_at(bumped, 10, i + 1));
            }
            i = i + 1;
        }
        proof {
            assert(self.grid@ =~= bumped);
            assert(to_flash@.skip(0) =~= to_flash@);
        }
        let mut qi: usize = 0;
        while qi < to_flash.len()
            invariant
                0 <= qi <= to_flash@.len(),
                self.grid@.len() == 100,
                forall|k: int| 0 <= k < to_flash@.len() ==> #[trigger] to_flash@[k] < 100,
                spec_cascade(bumped, cells_at(bumped, 10, 100)) == spec_cascade(
                    self.grid@,
                    to_flash@.skip(qi as int).map_values(|p: usize| p as nat),
                ),
            decreases to_flash@.len() - qi + 2 * count_le9(self.grid@),
        {
            let next = to_flash[qi];
            qi = qi + 1;
            let ghost rest = to_flash@.skip(qi as int).map_values(|p: usize| p as nat);
            proof {
                let whole = to_flash@.skip(qi - 1).map_values(|p: usize| p as nat);
                assert(whole[0] == to_flash@[qi - 1] as nat);
                assert(whole.drop_first() =~= rest);
                lemma_bump_all_count(self.grid@, spec_neighbors(next as nat % 10, next as nat / 10));
            }
            let point = Point::from_index(next);
            let nbrs = point.neighbors();
            let ghost ns = spec_neighbors(next as nat % 10, next as nat / 10);
            let ghost entry = self.grid@;
            let ghost entry_queue = to_flash@;
            let mut j: usize = 0;
            while j < nbrs.len()
                invariant
                    0 <= j <= nbrs@.len(),
                    self.grid@.len() == 100,
                    ns == spec_neighbors(next as nat % 10, next as nat / 10),
                    nbrs@.map_values(|p: Point| (p.1 * 10 + p.0) as nat) == ns,
                    forall|k: int| 0 <= k < nbrs@.len() ==> (#[trigger] nbrs@[k]).0 < 10
                        && nbrs@[k].1 < 10,
                    qi <= to_flash@.len(),
                    to_flash@.subrange(0, qi as int) == entry_queue.subrange(0, qi as int),
                    forall|k: int| 0 <= k < to_flash@.len() ==> #[trigger] to_flash@[k] < 100,
                    (self.grid@, to_flash@.skip(qi as int).map_values(|p: usize| p as nat))
                        == ({
                        let (g2, pushed) = bump_all(entry, ns.subrange(0, j as int));
                        (g2, entry_queue.skip(qi as int).map_values(|p: usize| p as nat) + pushed)
                    }),
                decreases nbrs@.len() - j,
            {
                proof {
                    assert(ns.subrange(0, j + 1).drop_last() =~= ns.subrange(0, j as int));
                    assert(ns.subrange(0, j + 1).last() == ns[j as int]);
                    assert(ns[j as int] == nbrs@[j as int].1 * 10 + nbrs@[j as int].0);
                }
                let idx = nbrs[j].index();
                let ghost before = self.grid@;
                let ghost qbefore = to_flash@;
                let cur = self.grid[idx];
                let v = if cur == u32::MAX {
                    cur
                } else {
                    cur + 1
                };
                self.grid[idx] = v;
                if v == 10 {
                    to_flash.push(idx);
                    proof {
                        assert(to_flash@.skip(qi as int).map_values(|p: usize| p as nat)
                            =~= qbefore.skip(qi as int).map_values(|p: usize| p as nat).push(
                            idx as nat,
                        ));
                        assert(to_flash@.subrange(0, qi as int) =~= qbefore.subrange(0, qi as int));
                    }
                } else {
                    proof {
                        let (g2, pushed) = bump_all(entry, ns.subrange(0, j + 1));
                        assert(to_flash@.skip(qi as int).map_values(|p: usize| p as nat)
                            =~= entry_queue.skip(qi as int).map_values(|p: usize| p as nat)
                            + pushed);
                    }
                }
                j = j + 1;
            }
            proof {
                assert(ns.subrange(0, ns.len() as int) =~= ns);
                lemma_bump_all_count(entry, ns);
                assert(self.grid@ == bump_all(entry, ns).0);
                assert(count_le9(self.grid@) + bump_all(entry, ns).1.len() <= count_le9(entry));
                assert(to_flash@.skip(qi as int).map_values(|p: usize| p as nat).len()
                    == entry_queue.skip(qi as int).map_values(|p: usize| p as nat).len()
                    + bump_all(entry, ns).1.len());
            }
        }
        proof {
            assert(to_flash@.skip(qi as int).map_values(|p: usize| p as nat)
                =~= Seq::<nat>::empty());
        }
        let ghost settled = self.grid@;
        let mut flashes: usize = 0;
        let mut i: usize = 0;
        proof {
            assert(count_flashed(settled, 0) == 0);
        }
        while i < 100
            invariant
                0 <= i <= 100,
                self.grid@.len() == 100,
                settled.len() == 100,
                forall|k: int| 0 <= k < i ==> #[trigger] self.grid@[k] == (if settled[k] > 9 {
                    0u32
                } else {
                    settled[k]
                }) && self.grid@[k] <= 9,
                forall|k: int| i <= k < 100 ==> self.grid@[k] == settled[k],
                flashes == count_flashed(settled, i as int),
                flashes <= i,
            decreases 100 - i,
        {
            if self.grid[i] > 9 {
                flashes = flashes + 1;
                self.grid[i] = 0;
            }
            i = i + 1;
        }
        proof {
            assert(self.grid@ =~= settled.map_values(
                |v: u32|
                    if v > 9 {
                        0u32
                    } else {
                        v
                    },
            ));
        }
        flashes
    }
}

/// Parses the ten-by-ten energy grid: exactly one hundred digits over the
/// lines.
fn parse_grid(input: &str) -> (r: Result<Octopuses, AocError>)
    ensures
        match r {
            Ok(o) => o.wf() && o.grid@ == grid_digits(spec_lines(input@)) && grid_digits_ok(
                spec_lines(input@),
            ),
            Err(_) => !grid_digits_ok(spec_lines(input@)),
        },
{
    let cs = chars_of(input);
    let lines = lines_of(&cs);
    let ghost ls = spec_lines(input@);
    let mut grid: Vec<u32> = Vec::new();
    let mut k: usize = 0;
    proof {
        assert(grid@ =~= grid_digits(ls.subrange(0, 0)));
    }
    while k < lines.len()
        invariant
            0 <= k <= lines@.len(),
            ls == crate::text::views_of(lines@),
            ls == spec_lines(input@),
            grid@ == grid_digits(ls.subrange(0, k as int)),
            forall|i: int| 0 <= i < grid@.len() ==> #[trigger] grid@[i] <= 9,
            forall|k2: int, j: int|
                0 <= k2 < k && 0 <= j < ls[k2].len() ==> crate::text::is_dec_digit(
                    #[trigger] ls[k2][j],
                ),
        decreases lines@.len() - k,
    {
        proof {
            assert(ls[k as int] == lines@[k as int]@);
        }
        let line = &lines[k];
        let mut j: usize = 0;
        let ghost prev = grid@;
        while j < line.len()
            invariant
                0 <= j <= line@.len(),
                ls == spec_lines(input@),
                ls[k as int] == line@,
                0 <= k < ls.len(),
                grid@ == prev + line@.subrange(0, j as int).map_values(
                    |c: char| (crate::text::dec_digit_val(c)) as u32,
                ),
                forall|i: int| 0 <= i < prev.len() ==> #[trigger] prev[i] <= 9,
                forall|i: int| 0 <= i < grid@.len() ==> #[trigger] grid@[i] <= 9,
                forall|j2: int| 0 <= j2 < j ==> crate::text::is_dec_digit(#[trigger] line@[j2]),
            decreases line@.len() - j,
        {
            let c = line[j];
            let u = c as u32;
            if u < 48 || u > 57 {
                proof {
                    assert(!crate::text::is_dec_digit(ls[k as int][j as int]));
                    assert(!grid_digits_ok(ls));
                }
                return Err(AocError::Misc("the energy grid has a non-digit".to_owned()));
            }
            grid.push(u - 48);
            proof {
                assert(grid@ =~= prev + line@.subrange(0, j + 1).map_values(
                    |c: char| (crate::text::dec_digit_val(c)) as u32,
                ));
            }
            j = j + 1;
        }
        proof {
            assert(line@.subrange(0, line@.len() as int) =~= line@);
            assert(ls.subrange(0, k + 1).drop_last() =~= ls.subrange(0, k as int));
            assert(ls.subrange(0, k + 1).last() == ls[k as int]);
        }
        k = k + 1;
    }
    proof {
        assert(ls.subrange(0, ls.len() as int) =~= ls);
    }
    if grid.len() != 100 {
        return Err(AocError::Misc("the energy grid needs exactly one hundred cells".to_owned()));
    }
    Ok(Octopuses { grid })
}

/// The concatenated digit values of all lines.
pub open spec fn grid_digits(lines: Seq<Seq<char>>) -> Seq<u32>
    decreases lines.len(),
{
    if lines.len() == 0 {
        Seq::empty()
    } else {
        grid_digits(lines.drop_last()) + lines.last().map_values(
            |c: char| (crate::text::dec_digit_val(c)) as u32,
        )
    }
}

/// A valid grid text: all digits, one hundred cells in all.
pub open spec fn grid_digits_ok(lines: Seq<Seq<char>>) -> bool {
    &&& forall|k: int, j: int|
        0 <= k < lines.len() && 0 <= j < lines[k].len() ==> crate::text::is_dec_digit(
            #[trigger] lines[k][j],
        )
    &&& grid_digits(lines).len() == 100
}

/// Total flashes over the first hundred steps.
pub fn part_one(input: &str) -> (r: Result<String, AocError>)
    ensures
        ({
            let lines = spec_lines(input@);
            match r {
                Ok(s) => grid_digits_ok(lines) && s@ == dec_str(
                    spec_steps(grid_digits(lines), 100).1,
                ),
                Err(_) => !grid_digits_ok(lines),
            }
        }),
{
    let mut octos = match parse_grid(input) {
        Ok(o) => o,
        Err(e) => { return Err(e) },
    };
    let ghost g0 = octos.grid@;
    let mut total: usize = 0;
    let mut step: usize = 0;
    while step < 100
        invariant
            0 <= step <= 100,
            octos.wf(),
            spec_lines(input@) == spec_lines(input@),
            g0 == grid_digits(spec_lines(input@)),
            octos.grid@ == spec_steps(g0, step as nat).0,
            total == spec_steps(g0, step as nat).1,
            total <= step * 100,
        decreases 100 - step,
    {
        let flashes = octos.step();
        total = total + flashes;
        step = step + 1;
    }
    Ok(usize_to_string(total))
}

/// The first step on which all one hundred octopuses flash together.
pub fn part_two(input: &str) -> (r: Result<String, AocError>)
    ensures
        ({
            let lines = spec_lines(input@);
            match r {
                Ok(s) => grid_digits_ok(lines) && exists|n: nat|
                    1 <= n && s@ == dec_str(n) && #[trigger] spec_step(
                        spec_steps(grid_digits(lines), (n - 1) as nat).0,
                    ).1 == 100 && (forall|m: nat|
                        1 <= m < n ==> #[trigger] spec_step(
                            spec_steps(grid_digits(lines), (m - 1) as nat).0,
                        ).1 < 100),
                Err(e) => !grid_digits_ok(lines) || e matches AocError::Misc(_),
            }
        }),
{
    let mut octos = match parse_grid(input) {
        Ok(o) => o,
        Err(e) => { return Err(e) },
    };
    let ghost g0 = octos.grid@;
    let mut step: usize = 0;
    loop
        invariant
            octos.wf(),
            grid_digits_ok(spec_lines(input@)),
            g0 == grid_digits(spec_lines(input@)),
            octos.grid@ == spec_steps(g0, step as nat).0,
            forall|m: nat|
                1 <= m <= step ==> #[trigger] spec_step(spec_steps(g0, (m - 1) as nat).0).1 < 100,
        decreases usize::MAX - step,
    {
        if step == usize::MAX {
            return Err(AocError::Misc("no synchronised flash within reach".to_owned()));
        }
        let flashes = octos.step();
        step = step + 1;
        if flashes == 100 {
            proof {
                assert(spec_step(spec_steps(g0, (step - 1) as nat).0).1 == 100);
            }
            return Ok(usize_to_string(step));
        }
    }
}

} // verus!
