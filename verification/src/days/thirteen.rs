//! Transparent origami: dots on a sheet, folded along vertical or horizontal
//! lines; folding reflects every dot past the crease back across it.

use vstd::prelude::*;

use crate::aoc_error::AocError;
use crate::text::{chars_of, dec_str, dec_value, is_num_str, lines_of, parse_usize,
    spec_blocks, spec_lines, split_blocks, split_on, spec_split, usize_to_string, views_of};

verus! {

/// One dot on the sheet.
#[derive(Debug, PartialEq, Eq, Structural, Copy, Clone)]
pub struct Point {
    pub x: usize,
    pub y: usize,
}

/// One fold instruction: the crease's axis and coordinate.
#[derive(Debug, Copy, Clone)]
pub enum Fold {
    X(usize),
    Y(usize),
}

/// Reflecting one coordinate across a crease; a dot more than twice the
/// crease coordinate away cannot land on the sheet.
pub open spec fn spec_reflect(c: nat, d: nat) -> Option<nat> {
    if c > d {
        if c <= 2 * d {
            Some((2 * d - c) as nat)
        } else {
            None
        }
    } else {
        Some(c)
    }
}

/// Folding one dot.
pub open spec fn spec_fold_point(p: Point, f: Fold) -> Option<Point> {
    match f {
        Fold::X(d) => match spec_reflect(p.x as nat, d as nat) {
            Some(x) => Some(Point { x: x as usize, y: p.y }),
            None => None,
        },
        Fold::Y(d) => match spec_reflect(p.y as nat, d as nat) {
            Some(y) => Some(Point { x: p.x, y: y as usize }),
            None => None,
        },
    }
}

/// Folding every dot.
pub open spec fn spec_fold_points(ps: Seq<Point>, f: Fold) -> Option<Seq<Point>>
    decreases ps.len(),
{
    if ps.len() == 0 {
        Some(Seq::empty())
    } else {
        match spec_fold_points(ps.drop_last(), f) {
            None => None,
            Some(rest) => match spec_fold_point(ps.last(), f) {
                None => None,
                Some(p) => Some(rest.push(p)),
            },
        }
    }
}

/// Applying a list of folds in order.
pub open spec fn spec_fold_all(ps: Seq<Point>, fs: Seq<Fold>) -> Option<Seq<Point>>
    decreases fs.len(),
{
    if fs.len() == 0 {
        Some(ps)
    } else {
        match spec_fold_all(ps, fs.drop_last()) {
            None => None,
            Some(mid) => spec_fold_points(mid, fs.last()),
        }
    }
}

/// The sheet: its dots and its size after the folds applied so far.
#[derive(Debug)]
pub struct Paper {
    pub points: Vec<Point>,
    pub width: usize,
    pub height: usize,
}

impl Paper {
    /// Folds along a vertical crease.  Reports `false` when a dot cannot
    /// land on the sheet; the dots are then in no particular state.
    pub fn fold_x(&mut self, distance: usize) -> (ok: bool)
        ensures
            ok == (spec_fold_points(old(self).points@, Fold::X(distance)) is Some),
            ok ==> Some(final(self).points@) == spec_fold_points(
                old(self).points@,
                Fold::X(distance),
            ),
            final(self).width == distance,
            final(self).height == old(self).height,
    {
        let ghost orig = self.points@;
        let mut i: usize = 0;
        while i < self.points.len()
            invariant
                0 <= i <= orig.len(),
                orig == old(self).points@,
                self.width == old(self).width,
                self.height == old(self).height,
                self.points@.len() == orig.len(),
                forall|k: int| i <= k < orig.len() ==> self.points@[k] == orig[k],
                spec_fold_points(orig.subrange(0, i as int), Fold::X(distance)) == Some(
                    self.points@.subrange(0, i as int),
                ),
            decreases orig.len() - i,
        {
            proof {
                assert(orig.subrange(0, i + 1).drop_last() =~= orig.subrange(0, i as int));
                assert(orig.subrange(0, i + 1).last() == orig[i as int]);
            }
            let p = self.points[i];
            if p.x > distance {
                if p.x - distance > distance {
                    proof {
                        lemma_fold_points_propagate(orig, Fold::X(distance), i + 1);
                    }
                    self.width = distance;
                    return false;
                }
                self.points[i] = Point { x: distance - (p.x - distance), y: p.y };
            }
            proof {
                assert(self.points@.subrange(0, i + 1) =~= self.points@.subrange(
                    0,
                    i as int,
                ).push(self.points@[i as int]));
            }
            i = i + 1;
        }
        proof {
            assert(orig.subrange(0, orig.len() as int) =~= orig);
            assert(self.points@.subrange(0, orig.len() as int) =~= self.points@);
        }
        self.width = distance;
        true
    }

    /// Folds along a horizontal crease.  Reports `false` when a dot cannot
    /// land on the sheet; the dots are then in no particular state.
    pub fn fold_y(&mut self, distance: usize) -> (ok: bool)
        ensures
            ok == (spec_fold_points(old(self).points@, Fold::Y(distance)) is Some),
            ok ==> Some(final(self).points@) == spec_fold_points(
                old(self).points@,
                Fold::Y(distance),
            ),
            final(self).height == distance,
            final(self).width == old(self).width,
    {
        let ghost orig = self.points@;
        let mut i: usize = 0;
        while i < self.points.len()
            invariant
                0 <= i <= orig.len(),
                orig == old(self).points@,
                self.width == old(self).width,
                self.height == old(self).height,
                self.points@.len() == orig.len(),
                forall|k: int| i <= k < orig.len() ==> self.points@[k] == orig[k],
                spec_fold_points(orig.subrange(0, i as int), Fold::Y(distance)) == Some(
                    self.points@.subrange(0, i as int),
                ),
            decreases orig.len() - i,
        {
            proof {
                assert(orig.subrange(0, i + 1).drop_last() =~= orig.subrange(0, i as int));
                assert(orig.subrange(0, i + 1).last() == orig[i as int]);
            }
            let p = self.points[i];
            if p.y > distance {
                if p.y - distance > distance {
                    proof {
                        lemma_fold_points_propagate(orig, Fold::Y(distance), i + 1);
                    }
                    self.height = distance;
                    return false;
                }
                self.points[i] = Point { x: p.x, y: distance - (p.y - distance) };
            }
            proof {
                assert(self.points@.subrange(0, i + 1) =~= self.points@.subrange(
                    0,
                    i as int,
                ).push(self.points@[i as int]));
            }
            i = i + 1;
        }
        proof {
            assert(orig.subrange(0, orig.len() as int) =~= orig);
            assert(self.points@.subrange(0, orig.len() as int) =~= self.points@);
        }
        self.height = distance;
        true
    }

    /// Applies one fold instruction.
    pub fn fold(&mut self, fold: &Fold) -> (ok: bool)
        ensures
            ok == (spec_fold_points(old(self).points@, *fold) is Some),
            ok ==> Some(final(self).points@) == spec_fold_points(old(self).points@, *fold),
            match *fold {
                Fold::X(d) => final(self).width == d && final(self).height == old(self).height,
                Fold::Y(d) => final(self).height == d && final(self).width == old(self).width,
            },
    {
        match fold {
            Fold::X(distance) => self.fold_x(*distance),
            Fold::Y(distance) => self.fold_y(*distance),
        }
    }

    /// The number of distinct dots.
    pub fn total_points(&self) -> (r: usize)
        ensures
            r == self.points@.to_set().len(),
    {
        let mut seen: Vec<Point> = Vec::new();
        let mut i: usize = 0;
        proof {
            assert(self.points@.subrange(0, 0) =~= Seq::<Point>::empty());
            assert(self.points@.subrange(0, 0).to_set() =~= seen@.to_set());
        }
        while i < self.points.len()
            invariant
                0 <= i <= self.points@.len(),
                seen@.no_duplicates(),
                seen@.to_set() == self.points@.subrange(0, i as int).to_set(),
            decreases self.points@.len() - i,
        {
            let p = self.points[i];
            let mut found = false;
            let mut j: usize = 0;
            while j < seen.len()
                invariant
                    0 <= j <= seen@.len(),
                    found == exists|k: int| 0 <= k < j && seen@[k] == p,
                decreases seen@.len() - j,
            {
                if seen[j] == p {
                    found = true;
                }
                j = j + 1;
            }
            proof {
                assert(found == seen@.contains(p));
                assert(self.points@.subrange(0, i + 1).drop_last() =~= self.points@.subrange(
                    0,
                    i as int,
                ));
                assert(self.points@.subrange(0, i + 1) =~= self.points@.subrange(0, i as int).push(
                    p,
                ));
                lemma_to_set_push(self.points@.subrange(0, i as int), p);
            }
            if !found {
                let ghost prev = seen@;
                seen.push(p);
                proof {
                    assert(seen@.drop_last() =~= prev);
                    lemma_to_set_push(prev, p);
                }
            } else {
                proof {
                    assert(seen@.to_set().insert(p) =~= seen@.to_set());
                }
            }
            i = i + 1;
        }
        proof {
            assert(self.points@.subrange(0, self.points@.len() as int) =~= self.points@);
            seen@.unique_seq_to_set();
        }
        seen.len()
    }
}

/// Pushing a dot inserts it into the sequence's set of dots.
proof fn lemma_to_set_push(s: Seq<Point>, p: Point)
    ensures
        s.push(p).to_set() == s.to_set().insert(p),
{
    assert forall|q: Point| #[trigger] s.push(p).to_set().contains(q) implies s.to_set().insert(
        p,
    ).contains(q) by {
        let k = choose|k: int| 0 <= k < s.push(p).len() && s.push(p)[k] == q;
        if k < s.len() {
            assert(s[k] == q);
            assert(s.contains(q));
        }
    }
    assert forall|q: Point| s.to_set().insert(p).contains(q) implies #[trigger] s.push(
        p,
    ).to_set().contains(q) by {
        if q == p {
            assert(s.push(p)[s.len() as int] == q);
        } else {
            let k = choose|k: int| 0 <= k < s.len() && s[k] == q;
            assert(s.push(p)[k] == q);
        }
        assert(s.push(p).contains(q));
    }
    assert(s.push(p).to_set() =~= s.to_set().insert(p));
}

/// Once folding fails on a prefix of the dots, it fails on all of them.
proof fn lemma_fold_points_propagate(ps: Seq<Point>, f: Fold, i: int)
    requires
        0 <= i <= ps.len(),
        spec_fold_points(ps.subrange(0, i), f) is None,
    ensures
        spec_fold_points(ps, f) is None,
    decreases ps.len() - i,
{
    if i < ps.len() {
        assert(ps.subrange(0, i + 1).drop_last() =~= ps.subrange(0, i));
        lemma_fold_points_propagate(ps, f, i + 1);
    } else {
        assert(ps.subrange(0, i) =~= ps);
    }
}

/// Parsing one dot line, `x,y` in decimal.
pub open spec fn spec_point(l: Seq<char>) -> Option<Point> {
    let fields = spec_split(l, ',');
    if fields.len() == 2 && is_num_str(fields[0]) && dec_value(fields[0]) <= usize::MAX
        && is_num_str(fields[1]) && dec_value(fields[1]) <= usize::MAX {
        Some(Point { x: dec_value(fields[0]) as usize, y: dec_value(fields[1]) as usize })
    } else {
        None
    }
}

/// Parsing all dot lines.
pub open spec fn spec_points(lines: Seq<Seq<char>>) -> Option<Seq<Point>>
    decreases lines.len(),
{
    if lines.len() == 0 {
        Some(Seq::empty())
    } else {
        match spec_points(lines.drop_last()) {
            None => None,
            Some(ps) => match spec_point(lines.last()) {
                None => None,
                Some(p) => Some(ps.push(p)),
            },
        }
    }
}

/// Parsing one fold line: the third space-separated token is `x=number` or
/// `y=number`.
pub open spec fn spec_fold_line(l: Seq<char>) -> Option<Fold> {
    let toks = spec_split(l, ' ');
    if toks.len() < 3 {
        None
    } else {
        let spec = toks[2];
        let parts = spec_split(spec, '=');
        if parts.len() == 2 && is_num_str(parts[1]) && dec_value(parts[1]) <= usize::MAX {
            if parts[0] =~= seq!['x'] {
                Some(Fold::X(dec_value(parts[1]) as usize))
            } else if parts[0] =~= seq!['y'] {
                Some(Fold::Y(dec_value(parts[1]) as usize))
            } else {
                None
            }
        } else {
            None
        }
    }
}

/// Parsing all fold lines.
pub open spec fn spec_folds(lines: Seq<Seq<char>>) -> Option<Seq<Fold>>
    decreases lines.len(),
{
    if lines.len() == 0 {
        Some(Seq::empty())
    } else {
        match spec_folds(lines.drop_last()) {
            None => None,
            Some(fs) => match spec_fold_line(lines.last()) {
                None => None,
                Some(f) => Some(fs.push(f)),
            },
        }
    }
}

/// Parses one dot line.
fn parse_point(line: &Vec<char>) -> (r: Result<Point, AocError>)
    ensures
        match r {
            Ok(p) => spec_point(line@) == Some(p),
            Err(_) => spec_point(line@) is None,
        },
{
    let fields = split_on(line, ',');
    if fields.len() != 2 {
        return Err(AocError::Misc("a dot needs exactly two coordinates".to_owned()));
    }
    let x = match parse_usize(&fields[0]) {
        Ok(x) => x,
        Err(e) => { return Err(e) },
    };
    let y = match parse_usize(&fields[1]) {
        Ok(y) => y,
        Err(e) => { return Err(e) },
    };
    proof {
        assert(views_of(fields@)[0] == fields@[0]@);
        assert(views_of(fields@)[1] == fields@[1]@);
    }
    Ok(Point { x, y })
}

/// Parses one fold line.
fn parse_fold(line: &Vec<char>) -> (r: Result<Fold, AocError>)
    ensures
        match r {
            Ok(f) => spec_fold_line(line@) == Some(f),
            Err(_) => spec_fold_line(line@) is None,
        },
{
    let toks = split_on(line, ' ');
    if toks.len() < 3 {
        return Err(AocError::Misc("too few fold tokens".to_owned()));
    }
    let parts = split_on(&toks[2], '=');
    proof {
        assert(views_of(toks@)[2] == toks@[2]@);
        assert(views_of(parts@)[0] == parts@[0]@);
    }
    if parts.len() != 2 {
        return Err(AocError::Misc("bad fold string".to_owned()));
    }
    proof {
        assert(views_of(parts@)[1] == parts@[1]@);
    }
    let d = match parse_usize(&parts[1]) {
        Ok(d) => d,
        Err(e) => { return Err(e) },
    };
    let axis = &parts[0];
    if axis.len() == 1 && axis[0] == 'x' {
        proof {
            assert(parts@[0]@ =~= seq!['x']);
        }
        Ok(Fold::X(d))
    } else if axis.len() == 1 && axis[0] == 'y' {
        proof {
            assert(parts@[0]@ =~= seq!['y']);
        }
        Ok(Fold::Y(d))
    } else {
        proof {
            assert(!(parts@[0]@ =~= seq!['x']));
            assert(!(parts@[0]@ =~= seq!['y']));
        }
        Err(AocError::Misc("unknown fold axis".to_owned()))
    }
}

/// Parses the dot block.
fn parse_points(lines: &Vec<Vec<char>>) -> (r: Result<Vec<Point>, AocError>)
    ensures
        match r {
            Ok(ps) => spec_points(views_of(lines@)) == Some(ps@),
            Err(_) => spec_points(views_of(lines@)) is None,
        },
{
    let ghost ls = views_of(lines@);
    let mut ps: Vec<Point> = Vec::new();
    proof {
        assert(ls.subrange(0, 0) =~= Seq::<Seq<char>>::empty());
    }
    let mut i: usize = 0;
    while i < lines.len()
        invariant
            0 <= i <= lines@.len(),
            ls == views_of(lines@),
            spec_points(ls.subrange(0, i as int)) == Some(ps@),
        decreases lines@.len() - i,
    {
        proof {
            assert(ls.subrange(0, i + 1).drop_last() =~= ls.subrange(0, i as int));
            assert(ls.subrange(0, i + 1).last() == ls[i as int]);
        }
        let p = match parse_point(&lines[i]) {
            Ok(p) => p,
            Err(e) => {
                proof {
                    lemma_points_propagate(ls, i + 1);
                }
                return Err(e);
            },
        };
        ps.push(p);
        i = i + 1;
    }
    proof {
        assert(ls.subrange(0, ls.len() as int) =~= ls);
    }
    Ok(ps)
}

/// Once a prefix of the dot lines fails, the whole block fails.
proof fn lemma_points_propagate(ls: Seq<Seq<char>>, i: int)
    requires
        0 <= i <= ls.len(),
        spec_points(ls.subrange(0, i)) is None,
    ensures
        spec_points(ls) is None,
    decreases ls.len() - i,
{
    if i < ls.len() {
        assert(ls.subrange(0, i + 1).drop_last() =~= ls.subrange(0, i));
        lemma_points_propagate(ls, i + 1);
    } else {
        assert(ls.subrange(0, i) =~= ls);
    }
}

/// Parses the fold block.
fn parse_folds(lines: &Vec<Vec<char>>) -> (r: Result<Vec<Fold>, AocError>)
    ensures
        match r {
            Ok(fs) => spec_folds(views_of(lines@)) == Some(fs@),
            Err(_) => spec_folds(views_of(lines@)) is None,
        },
{
    let ghost ls = views_of(lines@);
    let mut fs: Vec<Fold> = Vec::new();
    proof {
        assert(ls.subrange(0, 0) =~= Seq::<Seq<char>>::empty());
    }
    let mut i: usize = 0;
    while i < lines.len()
        invariant
            0 <= i <= lines@.len(),
            ls == views_of(lines@),
            spec_folds(ls.subrange(0, i as int)) == Some(fs@),
        decreases lines@.len() - i,
    {
        proof {
            assert(ls.subrange(0, i + 1).drop_last() =~= ls.subrange(0, i as int));
            assert(ls.subrange(0, i + 1).last() == ls[i as int]);
        }
        let f = match parse_fold(&lines[i]) {
            Ok(f) => f,
            Err(e) => {
                proof {
                    lemma_folds_propagate(ls, i + 1);
                }
                return Err(e);
            },
        };
        fs.push(f);
        i = i + 1;
    }
    proof {
        assert(ls.subrange(0, ls.len() as int) =~= ls);
    }
    Ok(fs)
}

/// Once a prefix of the fold lines fails, the whole block fails.
proof fn lemma_folds_propagate(ls: Seq<Seq<char>>, i: int)
    requires
        0 <= i <= ls.len(),
        spec_folds(ls.subrange(0, i)) is None,
    ensures
        spec_folds(ls) is None,
    decreases ls.len() - i,
{
    if i < ls.len() {
        assert(ls.subrange(0, i + 1).drop_last() =~= ls.subrange(0, i));
        lemma_folds_propagate(ls, i + 1);
    } else {
        assert(ls.subrange(0, i) =~= ls);
    }
}

/// The two input blocks as parsed values.
pub open spec fn spec_input(input: Seq<char>) -> Option<(Seq<Point>, Seq<Fold>)> {
    let blocks = spec_blocks(input);
    if blocks.len() < 2 {
        None
    } else {
        match spec_points(spec_lines(blocks[0])) {
            None => None,
            Some(ps) => match spec_folds(spec_lines(blocks[1])) {
                None => None,
                Some(fs) => Some((ps, fs)),
            },
        }
    }
}

/// Parses the whole input.
fn parse_input(input: &str) -> (r: Result<(Vec<Point>, Vec<Fold>), AocError>)
    ensures
        match r {
            Ok((ps, fs)) => spec_input(input@) == Some((ps@, fs@)),
            Err(_) => spec_input(input@) is None,
        },
{
    let cs = chars_of(input);
    let blocks = split_blocks(&cs);
    if blocks.len() < 2 {
        return Err(AocError::Misc("expected dots, a blank line, then folds".to_owned()));
    }
    proof {
        assert(views_of(blocks@)[0] == blocks@[0]@);
        assert(views_of(blocks@)[1] == blocks@[1]@);
    }
    let point_lines = lines_of(&blocks[0]);
    let ps = match parse_points(&point_lines) {
        Ok(ps) => ps,
        Err(e) => { return Err(e) },
    };
    let fold_lines = lines_of(&blocks[1]);
    let fs = match parse_folds(&fold_lines) {
        Ok(fs) => fs,
        Err(e) => { return Err(e) },
    };
    Ok((ps, fs))
}

/// Number of distinct dots after the first fold.
pub fn part_one(input: &str) -> (r: Result<String, AocError>)
    ensures
        match r {
            Ok(s) => spec_input(input@) matches Some((ps, fs)) && (fs.len() >= 1
                && (spec_fold_points(ps, fs[0]) matches Some(folded) && s@ == dec_str(
                folded.to_set().len() as nat,
            ))),
            Err(_) => spec_input(input@) is None || (spec_input(input@) matches Some((ps, fs)) && (
            fs.len() == 0 || spec_fold_points(ps, fs[0]) is None)),
        },
{
    let (ps, fs) = match parse_input(input) {
        Ok(x) => x,
        Err(e) => { return Err(e) },
    };
    if fs.len() == 0 {
        return Err(AocError::Misc("no fold lines".to_owned()));
    }
    let mut paper = Paper { points: ps, width: 0, height: 0 };
    let first = fs[0];
    if !paper.fold(&first) {
        return Err(AocError::Misc("a dot folds off the sheet".to_owned()));
    }
    Ok(usize_to_string(paper.total_points()))
}

/// Renders the sheet after all the folds.
pub fn part_two(input: &str) -> (r: Result<String, AocError>)
    ensures
        match r {
            Ok(s) => spec_input(input@) matches Some((ps, fs)) && (spec_fold_all(ps, fs)
                matches Some(folded) && s@ == spec_draw(
                folded,
                spec_width_after(fs, 0),
                spec_height_after(fs, 0),
            )),
            Err(_) => spec_input(input@) is None || (spec_input(input@) matches Some((ps, fs))
                && spec_fold_all(ps, fs) is None),
        },
{
    let (ps, fs) = match parse_input(input) {
        Ok(x) => x,
        Err(e) => { return Err(e) },
    };
    let mut paper = Paper { points: ps, width: 0, height: 0 };
    let ghost ps0 = paper.points@;
    let mut i: usize = 0;
    proof {
        assert(fs@.subrange(0, 0) =~= Seq::<Fold>::empty());
    }
    while i < fs.len()
        invariant
            0 <= i <= fs@.len(),
            spec_input(input@) == Some((ps0, fs@)),
            spec_fold_all(ps0, fs@.subrange(0, i as int)) == Some(paper.points@),
            paper.width as int == spec_width_after(fs@.subrange(0, i as int), 0),
            paper.height as int == spec_height_after(fs@.subrange(0, i as int), 0),
        decreases fs@.len() - i,
    {
        proof {
            assert(fs@.subrange(0, i + 1).drop_last() =~= fs@.subrange(0, i as int));
            assert(fs@.subrange(0, i + 1).last() == fs@[i as int]);
        }
        let f = fs[i];
        if !paper.fold(&f) {
            proof {
                lemma_fold_all_propagate(ps0, fs@, i + 1);
            }
            return Err(AocError::Misc("a dot folds off the sheet".to_owned()));
        }
        i = i + 1;
    }
    proof {
        assert(fs@.subrange(0, fs@.len() as int) =~= fs@);
    }
    let drawing = paper.draw();
    Ok(drawing)
}

/// Once a prefix of the folds fails, the whole list fails.
proof fn lemma_fold_all_propagate(ps: Seq<Point>, fs: Seq<Fold>, i: int)
    requires
        0 <= i <= fs.len(),
        spec_fold_all(ps, fs.subrange(0, i)) is None,
    ensures
        spec_fold_all(ps, fs) is None,
    decreases fs.len() - i,
{
    if i < fs.len() {
        assert(fs.subrange(0, i + 1).drop_last() =~= fs.subrange(0, i));
        lemma_fold_all_propagate(ps, fs, i + 1);
    } else {
        assert(fs.subrange(0, i) =~= fs);
    }
}

/// The sheet width after the folds applied so far: the distance of the last
/// vertical crease.
pub open spec fn spec_width_after(fs: Seq<Fold>, w0: int) -> int
    decreases fs.len(),
{
    if fs.len() == 0 {
        w0
    } else {
        match fs.last() {
            Fold::X(d) => d as int,
            Fold::Y(_) => spec_width_after(fs.drop_last(), w0),
        }
    }
}

/// The sheet height after the folds applied so far: the distance of the
/// last horizontal crease.
pub open spec fn spec_height_after(fs: Seq<Fold>, h0: int) -> int
    decreases fs.len(),
{
    if fs.len() == 0 {
        h0
    } else {
        match fs.last() {
            Fold::Y(d) => d as int,
            Fold::X(_) => spec_height_after(fs.drop_last(), h0),
        }
    }
}

/// The character drawn for one cell: a filled block over a dot, a space
/// otherwise.
pub open spec fn cell_char(ps: Seq<Point>, x: int, y: int) -> char {
    if ps.contains(Point { x: x as usize, y: y as usize }) {
        '\u{2588}'
    } else {
        ' '
    }
}

/// The first `x` cells of one drawn row.
pub open spec fn row_chars(ps: Seq<Point>, y: int, x: int) -> Seq<char>
    decreases x,
{
    if x <= 0 {
        Seq::empty()
    } else {
        row_chars(ps, y, x - 1).push(cell_char(ps, x - 1, y))
    }
}

/// The first `y` drawn rows, newline-separated.
pub open spec fn rows_chars(ps: Seq<Point>, w: int, h: int, y: int) -> Seq<char>
    decreases y,
{
    if y <= 0 {
        Seq::empty()
    } else {
        rows_chars(ps, w, h, y - 1) + row_chars(ps, y - 1, w) + (if y < h {
            seq!['\n']
        } else {
            Seq::empty()
        })
    }
}

/// The whole drawing: a leading newline, the rows, and trailing padding.
pub open spec fn spec_draw(ps: Seq<Point>, w: int, h: int) -> Seq<char> {
    seq!['\n'] + rows_chars(ps, w, h, h) + seq![
        ' ', ' ', ' ', ' ', ' ', ' ', ' ', ' ', ' ', ' ', ' ', ' ',
    ]
}

impl Paper {
    /// Draws the sheet: a leading newline, then `height` rows of `width`
    /// cells, a filled block for a dot and a space otherwise, plus trailing
    /// padding.
    pub fn draw(&self) -> (r: String)
        ensures
            r@ == spec_draw(self.points@, self.width as int, self.height as int),
    {
        let ghost ps = self.points@;
        let ghost w = self.width as int;
        let ghost h = self.height as int;
        let mut drawing = String::new();
        proof {
            reveal_strlit("\n");
            reveal_strlit("\u{2588}");
            reveal_strlit(" ");
            reveal_strlit("            ");
        }
        drawing.append("\n");
        proof {
            assert(drawing@ =~= seq!['\n'] + rows_chars(ps, w, h, 0));
        }
        let mut y: usize = 0;
        while y < self.height
            invariant
                0 <= y <= h,
                ps == self.points@,
                w == self.width as int,
                h == self.height as int,
                drawing@ == seq!['\n'] + rows_chars(ps, w, h, y as int),
            decreases self.height - y,
        {
            let mut x: usize = 0;
            let ghost row_start = drawing@;
            while x < self.width
                invariant
                    0 <= x <= w,
                    0 <= y < h,
                    ps == self.points@,
                    w == self.width as int,
                    drawing@ == row_start + row_chars(ps, y as int, x as int),
                decreases self.width - x,
            {
                let mut found = false;
                let mut j: usize = 0;
                while j < self.points.len()
                    invariant
                        0 <= j <= ps.len(),
                        ps == self.points@,
                        found == exists|k: int|
                            0 <= k < j && ps[k] == (Point { x, y }),
                    decreases self.points@.len() - j,
                {
                    let p = self.points[j];
                    if p.x == x && p.y == y {
                        found = true;
                    }
                    j = j + 1;
                }
                proof {
                    assert(found == ps.contains(Point { x, y }));
                    reveal_strlit("\u{2588}");
                    reveal_strlit(" ");
                }
                if found {
                    drawing.append("\u{2588}");
                } else {
                    drawing.append(" ");
                }
                proof {
                    assert(drawing@ =~= row_start + row_chars(ps, y as int, x + 1));
                }
                x = x + 1;
            }
            proof {
                reveal_strlit("\n");
            }
            if y + 1 < self.height {
                drawing.append("\n");
            }
            proof {
                assert(drawing@ =~= seq!['\n'] + rows_chars(ps, w, h, y + 1));
            }
            y = y + 1;
        }
        drawing.append("            ");
        proof {
            assert("            "@ =~= seq![
                ' ', ' ', ' ', ' ', ' ', ' ', ' ', ' ', ' ', ' ', ' ', ' ',
            ]);
            assert(drawing@ =~= spec_draw(ps, w, h));
        }
        drawing
    }
}

} // verus!
