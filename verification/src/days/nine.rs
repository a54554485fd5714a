//! Smoke basin: a rectangular grid of heights.  Low points are cells lower
//! than every neighbour; basins are regions flooded outward from low points,
//! bounded by height-9 ridges.

use vstd::prelude::*;

use crate::aoc_error::AocError;
use crate::text::{chars_of, dec_str, lines_of, sorted_version, sort_usizes, spec_lines,
    usize_to_string, views_of};

verus! {

/// The four-neighbourhood of a cell in a rectangular grid stored row by row.
pub open spec fn neighbors_of(len: nat, width: nat, pos: nat) -> Seq<nat> {
    (if pos % width != 0 {
        seq![(pos - 1) as nat]
    } else {
        Seq::empty()
    }) + (if pos % width != width - 1 {
        seq![pos + 1]
    } else {
        Seq::empty()
    }) + (if pos >= width {
        seq![(pos - width) as nat]
    } else {
        Seq::empty()
    }) + (if pos + width < len {
        seq![pos + width]
    } else {
        Seq::empty()
    })
}

/// A cell lower than all of its neighbours.
pub open spec fn spec_is_low(locs: Seq<u32>, width: nat, pos: nat) -> bool {
    forall|k: int|
        0 <= k < neighbors_of(locs.len(), width, pos).len() ==> locs[pos as int] < locs[
            #[trigger] neighbors_of(locs.len(), width, pos)[k] as int]
}

/// Total risk of the first `n` cells: each low point is worth its height
/// plus one.
pub open spec fn spec_risk(locs: Seq<u32>, width: nat, n: int) -> nat
    decreases n,
{
    if n <= 0 {
        0
    } else {
        spec_risk(locs, width, n - 1) + if spec_is_low(locs, width, (n - 1) as nat) {
            (locs[n - 1] + 1) as nat
        } else {
            0nat
        }
    }
}

/// How many cells are not yet at height 9.
pub open spec fn count_not9(locs: Seq<u32>) -> nat
    decreases locs.len(),
{
    if locs.len() == 0 {
        0
    } else {
        count_not9(locs.drop_last()) + if locs.last() == 9 {
            0nat
        } else {
            1nat
        }
    }
}

/// Raising a cell to 9 lowers the count by one.
proof fn lemma_count_not9_update(locs: Seq<u32>, i: int)
    requires
        0 <= i < locs.len(),
        locs[i] != 9,
    ensures
        count_not9(locs.update(i, 9)) == count_not9(locs) - 1,
    decreases locs.len(),
{
    if i == locs.len() - 1 {
        assert(locs.update(i, 9).drop_last() =~= locs.drop_last());
    } else {
        assert(locs.update(i, 9).drop_last() =~= locs.drop_last().update(i, 9));
        assert(locs.update(i, 9).last() == locs.last());
        lemma_count_not9_update(locs.drop_last(), i);
    }
}

/// The neighbours of a cell that are not yet at height 9, in scan order.
pub open spec fn fresh_neighbors(locs: Seq<u32>, width: nat, pos: nat) -> Seq<nat> {
    let len = locs.len();
    (if pos % width != 0 && locs[pos - 1] != 9 {
        seq![(pos - 1) as nat]
    } else {
        Seq::empty()
    }) + (if pos % width != width - 1 && locs[pos as int + 1] != 9 {
        seq![pos + 1]
    } else {
        Seq::empty()
    }) + (if pos >= width && locs[pos - width] != 9 {
        seq![(pos - width) as nat]
    } else {
        Seq::empty()
    }) + (if pos + width < len && locs[pos as int + width as int] != 9 {
        seq![pos + width]
    } else {
        Seq::empty()
    })
}

/// Flooding a basin: cells are taken off the work list; a cell not yet at 9
/// is raised to 9, counted, and its fresh neighbours are queued.
pub open spec fn spec_fill(locs: Seq<u32>, width: nat, queue: Seq<nat>, size: nat) -> (Seq<u32>,
    nat)
    decreases queue.len() + 5 * count_not9(locs),
    via spec_fill_decreases
{
    if queue.len() == 0 {
        (locs, size)
    } else {
        let p = queue[0];
        if !(0 <= p < locs.len()) || locs[p as int] == 9 {
            spec_fill(locs, width, queue.drop_first(), size)
        } else {
            let work = fresh_neighbors(locs, width, p);
            spec_fill(locs.update(p as int, 9), width, queue.drop_first() + work, size + 1)
        }
    }
}

#[via_fn]
proof fn spec_fill_decreases(locs: Seq<u32>, width: nat, queue: Seq<nat>, size: nat) {
    if queue.len() > 0 {
        let p = queue[0];
        if 0 <= p < locs.len() && locs[p as int] != 9 {
            lemma_count_not9_update(locs, p as int);
        }
    }
}

/// A cell not in the last column is not the last cell of the grid.
proof fn lemma_not_last_col(len: nat, w: nat, pos: nat)
    requires
        w >= 1,
        len % w == 0,
        pos < len,
        pos % w != w - 1,
    ensures
        pos + 1 < len,
{
    let wi = w as int;
    let q = len as int / wi;
    vstd::arithmetic::div_mod::lemma_fundamental_div_mod(len as int, wi);
    if pos as int == len as int - 1 {
        vstd::arithmetic::mul::lemma_mul_is_distributive_sub(wi, q, 1);
        vstd::arithmetic::mul::lemma_mul_is_commutative(wi, q - 1);
        vstd::arithmetic::div_mod::lemma_fundamental_div_mod_converse(
            len as int - 1,
            wi,
            q - 1,
            wi - 1,
        );
    }
}

/// A cell not in the first column is not the first cell of its row.
proof fn lemma_not_first_col(w: nat, pos: nat)
    requires
        w >= 1,
        pos % w != 0,
    ensures
        pos >= 1,
{
    vstd::arithmetic::div_mod::lemma_small_mod(0, w);
}

/// A rectangular height map, stored row by row.
#[derive(Debug)]
pub struct LavaTubeArea {
    pub locations: Vec<u32>,
    pub width: usize,
}

impl LavaTubeArea {
    /// Rows of a positive width, all heights single digits.
    pub open spec fn wf(&self) -> bool {
        &&& self.width >= 1
        &&& self.locations@.len() % (self.width as nat) == 0
        &&& forall|i: int| 0 <= i < self.locations@.len() ==> self.locations@[i] <= 9
    }

    /// The in-grid neighbours of a cell.
    pub fn neighbors(&self, position: usize) -> (r: Vec<usize>)
        requires
            self.wf(),
            position < self.locations@.len(),
        ensures
            r@.map_values(|p: usize| p as nat) == neighbors_of(
                self.locations@.len(),
                self.width as nat,
                position as nat,
            ),
            forall|k: int| 0 <= k < r@.len() ==> #[trigger] r@[k] < self.locations@.len(),
    {
        let ghost len = self.locations@.len();
        let ghost w = self.width as nat;
        let mut positions: Vec<usize> = Vec::new();
        if position % self.width != 0 {
            proof {
                lemma_not_first_col(w, position as nat);
            }
            positions.push(position - 1);
        }
        if position % self.width != self.width - 1 {
            proof {
                lemma_not_last_col(len, w, position as nat);
                assert(self.locations.len() == self.locations@.len());
            }
            positions.push(position + 1);
        }
        if position >= self.width {
            positions.push(position - self.width);
        }
        if self.locations.len() - position > self.width {
            positions.push(position + self.width);
        }
        proof {
            vstd::arithmetic::div_mod::lemma_small_mod(0, w);
            assert(positions@.map_values(|p: usize| p as nat) =~= neighbors_of(
                len,
                w,
                position as nat,
            ));
        }
        positions
    }

    /// Whether the cell is lower than all of its neighbours.
    pub fn is_low_point(&self, position: usize) -> (r: bool)
        requires
            self.wf(),
            position < self.locations@.len(),
        ensures
            r == spec_is_low(self.locations@, self.width as nat, position as nat),
    {
        let ghost ns = neighbors_of(self.locations@.len(), self.width as nat, position as nat);
        let height = self.locations[position];
        let nbrs = self.neighbors(position);
        let mut i: usize = 0;
        while i < nbrs.len()
            invariant
                0 <= i <= nbrs@.len(),
                self.wf(),
                position < self.locations@.len(),
                height == self.locations@[position as int],
                ns == neighbors_of(self.locations@.len(), self.width as nat, position as nat),
                nbrs@.map_values(|p: usize| p as nat) == ns,
                forall|k: int| 0 <= k < nbrs@.len() ==> #[trigger] nbrs@[k] < self.locations@.len(),
                forall|k: int| 0 <= k < i ==> height < self.locations@[#[trigger] ns[k] as int],
            decreases nbrs@.len() - i,
    {
            proof {
                assert(ns[i as int] == nbrs@[i as int] as nat);
            }
            if height >= self.locations[nbrs[i]] {
                return false;
            }
            i = i + 1;
        }
        true
    }

    /// Sum of the risk levels of the low points, or a typed failure if it
    /// does not fit in the machine word.
    pub fn low_point_risk(&self) -> (r: Result<usize, AocError>)
        requires
            self.wf(),
        ensures
            ({
                let total = spec_risk(self.locations@, self.width as nat, self.locations@.len() as int);
                match r {
                    Ok(n) => total <= usize::MAX && n == total,
                    Err(e) => total > usize::MAX && e matches AocError::Misc(_),
                }
            }),
    {
        let ghost locs = self.locations@;
        let ghost w = self.width as nat;
        let mut acc: usize = 0;
        let mut pos: usize = 0;
        while pos < self.locations.len()
            invariant
                0 <= pos <= locs.len(),
                self.wf(),
                locs == self.locations@,
                w == self.width as nat,
                acc == spec_risk(locs, w, pos as int),
            decreases locs.len() - pos,
        {
            proof {
                lemma_risk_prefix_le(locs, w, pos + 1, locs.len() as int);
            }
            if self.is_low_point(pos) {
                let worth = self.locations[pos] + 1;
                acc = match acc.checked_add(worth as usize) {
                    Some(a) => a,
                    None => {
                        return Err(
                            AocError::Misc("total risk does not fit in a machine word".to_owned()),
                        );
                    },
                };
            }
            pos = pos + 1;
        }
        Ok(acc)
    }

    /// Floods the basin reachable from the given cell, raising it to height
    /// 9 and counting the cells flooded.
    pub fn flood_fill_basin(&mut self, low_point: usize) -> (size: usize)
        requires
            old(self).wf(),
            low_point < old(self).locations@.len(),
        ensures
            final(self).wf(),
            final(self).width == old(self).width,
            final(self).locations@.len() == old(self).locations@.len(),
            (final(self).locations@, size as nat) == spec_fill(
                old(self).locations@,
                old(self).width as nat,
                seq![low_point as nat],
                0,
            ),
            size <= old(self).locations@.len(),
    {
        let ghost locs0 = self.locations@;
        let ghost w = old(self).width as nat;
        let mut queue: Vec<usize> = Vec::new();
        queue.push(low_point);
        let mut qi: usize = 0;
        let mut size: usize = 0;
        proof {
            lemma_count_not9_bound(locs0);
            assert(queue@.skip(0).map_values(|p: usize| p as nat) =~= seq![low_point as nat]);
        }
        while qi < queue.len()
            invariant
                0 <= qi <= queue@.len(),
                self.wf(),
                self.width == old(self).width,
                w == self.width as nat,
                self.locations@.len() == locs0.len(),
                forall|k: int| 0 <= k < queue@.len() ==> #[trigger] queue@[k] < locs0.len(),
                size + count_not9(self.locations@) <= count_not9(locs0),
                size <= locs0.len(),
                count_not9(self.locations@) <= locs0.len(),
                spec_fill(locs0, w, seq![low_point as nat], 0) == spec_fill(
                    self.locations@,
                    w,
                    queue@.skip(qi as int).map_values(|p: usize| p as nat),
                    size as nat,
                ),
            decreases queue@.len() - qi + 5 * count_not9(self.locations@),
        {
            let next = queue[qi];
            qi = qi + 1;
            let ghost rest = queue@.skip(qi as int).map_values(|p: usize| p as nat);
            proof {
                let prev = queue@.skip(qi - 1).map_values(|p: usize| p as nat);
                assert(prev[0] == queue@[qi - 1] as nat);
                assert(prev.drop_first() =~= rest);
            }
            if self.locations[next] == 9 {
                continue ;
            }
            proof {
                lemma_count_not9_bound(self.locations@);
                lemma_count_not9_bound(locs0);
                lemma_count_not9_update(self.locations@, next as int);
                assert(self.locations.len() == self.locations@.len());
                assert(count_not9(self.locations@) >= 1);
            }
            let ghost before = self.locations@;
            let ghost fresh = fresh_neighbors(before, w, next as nat);
            // queue the fresh neighbours in scan order
            if next % self.width != 0 {
                proof {
                    lemma_not_first_col(w, next as nat);
                }
                if self.locations[next - 1] != 9 {
                    queue.push(next - 1);
                }
            }
            if next % self.width != self.width - 1 {
                proof {
                    lemma_not_last_col(self.locations@.len(), w, next as nat);
                    assert(self.locations.len() == self.locations@.len());
                }
                if self.locations[next + 1] != 9 {
                    queue.push(next + 1);
                }
            }
            if next >= self.width && self.locations[next - self.width] != 9 {
                queue.push(next - self.width);
            }
            if self.locations.len() - next > self.width {
                if self.locations[next + self.width] != 9 {
                    queue.push(next + self.width);
                }
            }
            proof {
                vstd::arithmetic::div_mod::lemma_small_mod(0, w);
                assert(queue@.skip(qi as int).map_values(|p: usize| p as nat) =~= rest + fresh);
            }
            self.locations[next] = 9;
            size = size + 1;
        }
        proof {
            assert(queue@.skip(qi as int).map_values(|p: usize| p as nat) =~= Seq::<nat>::empty());
        }
        size
    }
}

/// The count of fresh cells never exceeds the grid.
proof fn lemma_count_not9_bound(locs: Seq<u32>)
    ensures
        count_not9(locs) <= locs.len(),
    decreases locs.len(),
{
    if locs.len() > 0 {
        lemma_count_not9_bound(locs.drop_last());
    }
}

/// Flooding never changes the size of the grid.
proof fn lemma_spec_fill_len(locs: Seq<u32>, width: nat, queue: Seq<nat>, size: nat)
    ensures
        spec_fill(locs, width, queue, size).0.len() == locs.len(),
    decreases queue.len() + 5 * count_not9(locs),
{
    if queue.len() > 0 {
        let p = queue[0];
        if !(0 <= p < locs.len()) || locs[p as int] == 9 {
            lemma_spec_fill_len(locs, width, queue.drop_first(), size);
        } else {
            lemma_count_not9_update(locs, p as int);
            lemma_spec_fill_len(
                locs.update(p as int, 9),
                width,
                queue.drop_first() + fresh_neighbors(locs, width, p),
                size + 1,
            );
        }
    }
}

/// Scanning the grid for low points, flooding each basin found: the final
/// grid and the basin sizes in scan order.
pub open spec fn spec_basins(locs: Seq<u32>, width: nat, loc: int) -> (Seq<u32>, Seq<nat>)
    decreases locs.len() - loc,
    via spec_basins_decreases
{
    if loc < 0 || loc >= locs.len() {
        (locs, Seq::empty())
    } else if spec_is_low(locs, width, loc as nat) {
        let filled = spec_fill(locs, width, seq![loc as nat], 0);
        let rest = spec_basins(filled.0, width, loc + 1);
        (rest.0, seq![filled.1] + rest.1)
    } else {
        spec_basins(locs, width, loc + 1)
    }
}

#[via_fn]
proof fn spec_basins_decreases(locs: Seq<u32>, width: nat, loc: int) {
    if 0 <= loc < locs.len() && spec_is_low(locs, width, loc as nat) {
        lemma_spec_fill_len(locs, width, seq![loc as nat], 0);
    }
}

impl LavaTubeArea {
    /// Floods every basin in scan order, returning the basin sizes.
    pub fn basins(&mut self) -> (sizes: Vec<usize>)
        requires
            old(self).wf(),
        ensures
            final(self).wf(),
            (final(self).locations@, sizes@.map_values(|n: usize| n as nat)) == spec_basins(
                old(self).locations@,
                old(self).width as nat,
                0,
            ),
            forall|k: int| 0 <= k < sizes@.len() ==> #[trigger] sizes@[k] <= old(
                self,
            ).locations@.len(),
    {
        let ghost locs0 = self.locations@;
        let ghost w = old(self).width as nat;
        let mut sizes: Vec<usize> = Vec::new();
        let mut loc: usize = 0;
        proof {
            assert(sizes@.map_values(|n: usize| n as nat) =~= Seq::<nat>::empty());
        }
        while loc < self.locations.len()
            invariant
                0 <= loc <= locs0.len(),
                self.wf(),
                self.width == old(self).width,
                w == self.width as nat,
                self.locations@.len() == locs0.len(),
                spec_basins(locs0, w, 0).0 == spec_basins(self.locations@, w, loc as int).0,
                spec_basins(locs0, w, 0).1 == sizes@.map_values(|n: usize| n as nat) + spec_basins(
                    self.locations@,
                    w,
                    loc as int,
                ).1,
                forall|k: int| 0 <= k < sizes@.len() ==> #[trigger] sizes@[k] <= locs0.len(),
            decreases locs0.len() - loc,
        {
            if self.is_low_point(loc) {
                let ghost before = self.locations@;
                let size = self.flood_fill_basin(loc);
                let ghost prev = sizes@;
                sizes.push(size);
                proof {
                    assert(sizes@.map_values(|n: usize| n as nat) =~= prev.map_values(
                        |n: usize| n as nat,
                    ).push(size as nat));
                    assert(prev.map_values(|n: usize| n as nat) + (seq![size as nat] + spec_basins(
                        self.locations@,
                        w,
                        loc + 1,
                    ).1) =~= sizes@.map_values(|n: usize| n as nat) + spec_basins(
                        self.locations@,
                        w,
                        loc + 1,
                    ).1);
                }
            }
            loc = loc + 1;
        }
        proof {
            assert(spec_basins(self.locations@, w, loc as int).1 =~= Seq::<nat>::empty());
            assert(sizes@.map_values(|n: usize| n as nat) + Seq::<nat>::empty() =~= sizes@.map_values(
                |n: usize| n as nat,
            ));
        }
        sizes
    }
}

/// One row of digit heights.
pub open spec fn row_digits(l: Seq<char>) -> Seq<u32> {
    l.map_values(|c: char| crate::text::dec_digit_val(c) as u32)
}

/// The whole grid, rows concatenated.
pub open spec fn grid_of(lines: Seq<Seq<char>>) -> Seq<u32>
    decreases lines.len(),
{
    if lines.len() == 0 {
        Seq::empty()
    } else {
        grid_of(lines.drop_last()) + row_digits(lines.last())
    }
}

/// A well-formed height map text: at least one line, all lines as wide as
/// the non-empty first, every character a digit.
pub open spec fn grid_ok(lines: Seq<Seq<char>>) -> bool {
    &&& lines.len() >= 1
    &&& lines[0].len() >= 1
    &&& forall|k: int| 0 <= k < lines.len() ==> #[trigger] lines[k].len() == lines[0].len()
    &&& forall|k: int, j: int|
        0 <= k < lines.len() && 0 <= j < lines[k].len() ==> crate::text::is_dec_digit(
            #[trigger] lines[k][j],
        )
}

/// Parses the height map.
fn parse_area(input: &str) -> (r: Result<LavaTubeArea, AocError>)
    ensures
        ({
            let lines = spec_lines(input@);
            match r {
                Ok(a) => grid_ok(lines) && a.wf() && a.locations@ == grid_of(lines) && a.width
                    == lines[0].len(),
                Err(_) => !grid_ok(lines),
            }
        }),
{
    let cs = chars_of(input);
    let lines = lines_of(&cs);
    let ghost ls = spec_lines(input@);
    if lines.len() == 0 {
        return Err(AocError::Misc("empty height map".to_owned()));
    }
    let width = lines[0].len();
    proof {
        assert(ls[0] == lines@[0]@);
    }
    if width == 0 {
        return Err(AocError::Misc("empty first line".to_owned()));
    }
    let mut locations: Vec<u32> = Vec::new();
    let mut k: usize = 0;
    proof {
        assert(locations@ =~= grid_of(ls.subrange(0, 0)));
    }
    while k < lines.len()
        invariant
            0 <= k <= lines@.len(),
            ls == views_of(lines@),
            ls == spec_lines(input@),
            lines@.len() >= 1,
            width == ls[0].len(),
            width >= 1,
            locations@ == grid_of(ls.subrange(0, k as int)),
            locations@.len() == k * width,
            forall|i: int| 0 <= i < locations@.len() ==> #[trigger] locations@[i] <= 9,
            forall|k2: int| 0 <= k2 < k ==> #[trigger] ls[k2].len() == ls[0].len(),
            forall|k2: int, j: int|
                0 <= k2 < k && 0 <= j < ls[k2].len() ==> crate::text::is_dec_digit(
                    #[trigger] ls[k2][j],
                ),
        decreases lines@.len() - k,
    {
        proof {
            assert(ls[k as int] == lines@[k as int]@);
        }
        let line = &lines[k];
        if line.len() != width {
            return Err(AocError::Misc("height map lines differ in width".to_owned()));
        }
        let mut j: usize = 0;
        let ghost prev = locations@;
        while j < line.len()
            invariant
                0 <= j <= line@.len(),
                ls == spec_lines(input@),
                ls[k as int] == line@,
                0 <= k < ls.len(),
                locations@ == prev + row_digits(line@).subrange(0, j as int),
                forall|i: int| 0 <= i < prev.len() ==> #[trigger] prev[i] <= 9,
                forall|j2: int| 0 <= j2 < j ==> crate::text::is_dec_digit(#[trigger] line@[j2]),
            decreases line@.len() - j,
        {
            let c = line[j];
            let u = c as u32;
            if u < 48 || u > 57 {
                proof {
                    assert(!crate::text::is_dec_digit(ls[k as int][j as int]));
                    assert(!grid_ok(ls));
                }
                return Err(AocError::Misc("height map has a non-digit".to_owned()));
            }
            locations.push(u - 48);
            proof {
                assert(locations@ =~= prev + row_digits(line@).subrange(0, j + 1));
            }
            j = j + 1;
        }
        proof {
            assert(row_digits(line@).subrange(0, line@.len() as int) =~= row_digits(line@));
            assert(ls.subrange(0, k + 1).drop_last() =~= ls.subrange(0, k as int));
            assert(ls.subrange(0, k + 1).last() == ls[k as int]);
            vstd::arithmetic::mul::lemma_mul_is_distributive_add_other_way(
                width as int,
                k as int,
                1,
            );
        }
        k = k + 1;
    }
    proof {
        assert(ls.subrange(0, ls.len() as int) =~= ls);
        let rows = lines@.len() as int;
        vstd::arithmetic::div_mod::lemma_mod_multiples_basic(rows, width as int);
        assert((rows * width) % (width as int) == 0);
    }
    Ok(LavaTubeArea { locations, width })
}

/// Sum of the risk levels of the low points.
pub fn part_one(input: &str) -> (r: Result<String, AocError>)
    ensures
        ({
            let lines = spec_lines(input@);
            let grid = grid_of(lines);
            let total = spec_risk(grid, lines[0].len(), grid.len() as int);
            match r {
                Ok(s) => grid_ok(lines) && total <= usize::MAX && s@ == dec_str(total),
                Err(_) => !grid_ok(lines) || total > usize::MAX,
            }
        }),
{
    let area = match parse_area(input) {
        Ok(a) => a,
        Err(e) => { return Err(e) },
    };
    let risk = match area.low_point_risk() {
        Ok(t) => t,
        Err(e) => { return Err(e) },
    };
    Ok(usize_to_string(risk))
}

/// Product of the three largest basin sizes.
pub fn part_two(input: &str) -> (r: Result<String, AocError>)
    ensures
        ({
            let lines = spec_lines(input@);
            let sizes = spec_basins(grid_of(lines), lines[0].len(), 0).1;
            let sorted = sorted_version(sizes.map_values(|n: nat| n as usize));
            let l = sizes.len() as int;
            let top_two = (sorted[l - 1] as nat) * (sorted[l - 2] as nat);
            let product = top_two * (sorted[l - 3] as nat);
            match r {
                Ok(s) => grid_ok(lines) && sizes.len() >= 3 && top_two <= usize::MAX && product
                    <= usize::MAX && s@ == dec_str(product),
                Err(_) => !grid_ok(lines) || sizes.len() < 3 || top_two > usize::MAX || product
                    > usize::MAX,
            }
        }),
{
    let mut area = match parse_area(input) {
        Ok(a) => a,
        Err(e) => { return Err(e) },
    };
    let ghost lines = spec_lines(input@);
    let mut sizes = area.basins();
    let ghost collected = sizes@;
    if sizes.len() < 3 {
        return Err(AocError::Misc("too few lava tube basins".to_owned()));
    }
    sort_usizes(&mut sizes);
    proof {
        let sns = spec_basins(grid_of(lines), lines[0].len(), 0).1;
        assert(sns.map_values(|n: nat| n as usize) =~= collected);
    }
    let l = sizes.len();
    let a = sizes[l - 1];
    let b = sizes[l - 2];
    let c = sizes[l - 3];
    let ab = match a.checked_mul(b) {
        Some(x) => x,
        None => {
            return Err(AocError::Misc("basin product does not fit in a machine word".to_owned()));
        },
    };
    let abc = match ab.checked_mul(c) {
        Some(x) => x,
        None => {
            return Err(AocError::Misc("basin product does not fit in a machine word".to_owned()));
        },
    };
    Ok(usize_to_string(abc))
}

/// Risk over a prefix never exceeds risk over a longer prefix.
proof fn lemma_risk_prefix_le(locs: Seq<u32>, w: nat, i: int, n: int)
    requires
        0 <= i <= n,
    ensures
        spec_risk(locs, w, i) <= spec_risk(locs, w, n),
    decreases n - i,
{
    if i < n {
        lemma_risk_prefix_le(locs, w, i + 1, n);
    }
}

} // verus!
