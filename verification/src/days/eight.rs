//! Seven segment search: each line shows ten scrambled signal patterns and
//! four output patterns.  Digits 1, 4, 7, 8 are recognised by their segment
//! count alone; the rest by how they overlap the patterns for 1 and 4.

use vstd::prelude::*;

use crate::aoc_error::AocError;
use crate::text::{chars_of, dec_str, lines_of, spec_lines, split_on, spec_split, usize_to_string,
    views_of};

verus! {

/// The bit for one segment wire, `a` through `g`; 0 for any other character.
pub open spec fn seg_bit(c: char) -> u8 {
    if c == 'a' {
        1
    } else if c == 'b' {
        2
    } else if c == 'c' {
        4
    } else if c == 'd' {
        8
    } else if c == 'e' {
        16
    } else if c == 'f' {
        32
    } else if c == 'g' {
        64
    } else {
        0
    }
}

/// The segment set a pattern denotes, as a bit set.
pub open spec fn seg_value(s: Seq<char>) -> u8
    decreases s.len(),
{
    if s.len() == 0 {
        0
    } else {
        seg_value(s.drop_last()) | seg_bit(s.last())
    }
}

/// Every character names a segment wire.
pub open spec fn all_segs(s: Seq<char>) -> bool {
    forall|i: int| 0 <= i < s.len() ==> seg_bit(s[i]) != 0
}

/// How many segments a bit set lights.
pub open spec fn seg_len(v: u8) -> nat {
    ((v & 1) + ((v >> 1) & 1) + ((v >> 2) & 1) + ((v >> 3) & 1) + ((v >> 4) & 1) + ((v >> 5) & 1)
        + ((v >> 6) & 1)) as nat
}

/// A set of lit segments.
#[derive(Debug, Copy, Clone, PartialEq, Eq, Structural)]
pub struct Segments(pub u8);

impl Segments {
    /// Reads a pattern.  Fails exactly when some character is not a segment
    /// wire.
    pub fn from_chars(s: &Vec<char>) -> (r: Result<Segments, AocError>)
        ensures
            match r {
                Ok(seg) => all_segs(s@) && seg.0 == seg_value(s@),
                Err(e) => !all_segs(s@) && e matches AocError::Misc(_),
            },
    {
        let mut acc: u8 = 0;
        let mut i: usize = 0;
        while i < s.len()
            invariant
                0 <= i <= s@.len(),
                all_segs(s@.subrange(0, i as int)),
                acc == seg_value(s@.subrange(0, i as int)),
            decreases s@.len() - i,
        {
            let c = s[i];
            let b: u8 = if c == 'a' {
                1
            } else if c == 'b' {
                2
            } else if c == 'c' {
                4
            } else if c == 'd' {
                8
            } else if c == 'e' {
                16
            } else if c == 'f' {
                32
            } else if c == 'g' {
                64
            } else {
                proof {
                    assert(seg_bit(s@[i as int]) == 0);
                }
                return Err(AocError::Misc("invalid segment wire".to_owned()));
            };
            proof {
                assert(s@.subrange(0, i + 1).drop_last() =~= s@.subrange(0, i as int));
                assert(s@.subrange(0, i + 1).last() == s@[i as int]);
            }
            acc = acc | b;
            i = i + 1;
        }
        proof {
            assert(s@.subrange(0, s@.len() as int) =~= s@);
        }
        Ok(Segments(acc))
    }

    /// How many segments are lit.
    pub fn len(&self) -> (r: u32)
        ensures
            r == seg_len(self.0),
    {
        let v = self.0;
        ((v & 1) as u32) + (((v >> 1) & 1) as u32) + (((v >> 2) & 1) as u32) + (((v >> 3)
            & 1) as u32) + (((v >> 4) & 1) as u32) + (((v >> 5) & 1) as u32) + (((v >> 6)
            & 1) as u32)
    }

    /// The segments lit in both patterns.
    pub fn intersection(&self, other: &Segments) -> (r: Segments)
        ensures
            r.0 == self.0 & other.0,
    {
        Segments(self.0 & other.0)
    }

    /// Whether the pattern has the segment count of a 1, 4, 7 or 8.
    pub fn is_1_or_4_or_7_or_8(&self) -> (r: bool)
        ensures
            r == (seg_len(self.0) == 2 || seg_len(self.0) == 3 || seg_len(self.0) == 4 || seg_len(
                self.0,
            ) == 7),
    {
        let n = self.len();
        n == 2 || n == 3 || n == 4 || n == 7
    }
}

/// The first pattern with the given segment count.
pub open spec fn find_len(ds: Seq<u8>, l: nat) -> Option<u8>
    decreases ds.len(),
{
    if ds.len() == 0 {
        None
    } else if seg_len(ds[0]) == l {
        Some(ds[0])
    } else {
        find_len(ds.drop_first(), l)
    }
}

/// What digit a pattern shows, judged against the dictionary's patterns for
/// 1 and 4; `None` when the dictionary lacks those or the count fits no
/// digit.
pub open spec fn spec_digit(ds: Seq<u8>, seg: u8) -> Option<nat> {
    let l = seg_len(seg);
    if l == 2 {
        Some(1)
    } else if l == 3 {
        Some(7)
    } else if l == 4 {
        Some(4)
    } else if l == 7 {
        Some(8)
    } else if l == 5 {
        match find_len(ds, 4) {
            None => None,
            Some(four) => if seg_len(four & seg) == 2 {
                Some(2)
            } else {
                match find_len(ds, 2) {
                    None => None,
                    Some(one) => if seg_len(one & seg) == 2 {
                        Some(3)
                    } else {
                        Some(5)
                    },
                }
            },
        }
    } else if l == 6 {
        match find_len(ds, 4) {
            None => None,
            Some(four) => if seg_len(four & seg) == 4 {
                Some(9)
            } else {
                match find_len(ds, 2) {
                    None => None,
                    Some(one) => if seg_len(one & seg) == 2 {
                        Some(0)
                    } else {
                        Some(6)
                    },
                }
            },
        }
    } else {
        None
    }
}

/// The ten scrambled signal patterns of one display.
#[derive(Debug)]
pub struct SegmentDictionary {
    pub digits: Vec<Segments>,
}

impl SegmentDictionary {
    /// The patterns as bit sets.
    pub open spec fn model(&self) -> Seq<u8> {
        self.digits@.map_values(|s: Segments| s.0)
    }

    /// The dictionary's pattern for 1, the only two-segment digit.
    pub fn one(&self) -> (r: Result<Segments, AocError>)
        ensures
            match r {
                Ok(s) => find_len(self.model(), 2) == Some(s.0),
                Err(e) => find_len(self.model(), 2) is None && e matches AocError::Misc(_),
            },
    {
        self.find_by_len(2)
    }

    /// The dictionary's pattern for 4, the only four-segment digit.
    pub fn four(&self) -> (r: Result<Segments, AocError>)
        ensures
            match r {
                Ok(s) => find_len(self.model(), 4) == Some(s.0),
                Err(e) => find_len(self.model(), 4) is None && e matches AocError::Misc(_),
            },
    {
        self.find_by_len(4)
    }

    /// The first pattern with the given segment count.
    fn find_by_len(&self, l: u32) -> (r: Result<Segments, AocError>)
        ensures
            match r {
                Ok(s) => find_len(self.model(), l as nat) == Some(s.0),
                Err(e) => find_len(self.model(), l as nat) is None && e matches AocError::Misc(_),
            },
    {
        let ghost m = self.model();
        proof {
            assert(m.skip(0) =~= m);
        }
        let mut i: usize = 0;
        while i < self.digits.len()
            invariant
                0 <= i <= self.digits@.len(),
                m == self.model(),
                find_len(m, l as nat) == find_len(m.skip(i as int), l as nat),
            decreases self.digits@.len() - i,
        {
            proof {
                assert(m.skip(i as int)[0] == m[i as int]);
                assert(m[i as int] == self.digits@[i as int].0);
                assert(m.skip(i as int).drop_first() =~= m.skip(i + 1));
            }
            if self.digits[i].len() == l {
                return Ok(self.digits[i]);
            }
            i = i + 1;
        }
        proof {
            assert(m.skip(m.len() as int) =~= Seq::<u8>::empty());
        }
        Err(AocError::Misc("the display is missing a digit".to_owned()))
    }

    /// The digit a pattern shows on this display.
    pub fn digit(&self, segment: &Segments) -> (r: Result<usize, AocError>)
        ensures
            match r {
                Ok(d) => spec_digit(self.model(), segment.0) == Some(d as nat),
                Err(e) => spec_digit(self.model(), segment.0) is None && e
                    matches AocError::Misc(_),
            },
    {
        let l = segment.len();
        if l == 2 {
            Ok(1)
        } else if l == 3 {
            Ok(7)
        } else if l == 4 {
            Ok(4)
        } else if l == 7 {
            Ok(8)
        } else if l == 5 {
            let four = match self.four() {
                Ok(f) => f,
                Err(e) => { return Err(e) },
            };
            if four.intersection(segment).len() == 2 {
                Ok(2)
            } else {
                let one = match self.one() {
                    Ok(o) => o,
                    Err(e) => { return Err(e) },
                };
                if one.intersection(segment).len() == 2 {
                    Ok(3)
                } else {
                    Ok(5)
                }
            }
        } else if l == 6 {
            let four = match self.four() {
                Ok(f) => f,
                Err(e) => { return Err(e) },
            };
            if four.intersection(segment).len() == 4 {
                Ok(9)
            } else {
                let one = match self.one() {
                    Ok(o) => o,
                    Err(e) => { return Err(e) },
                };
                if one.intersection(segment).len() == 2 {
                    Ok(0)
                } else {
                    Ok(6)
                }
            }
        } else {
            Err(AocError::Misc("no digit lights that many segments".to_owned()))
        }
    }
}

/// Parsing a run of space-separated patterns.
pub open spec fn spec_patterns(fields: Seq<Seq<char>>) -> Option<Seq<u8>>
    decreases fields.len(),
{
    if fields.len() == 0 {
        Some(Seq::empty())
    } else {
        match spec_patterns(fields.drop_last()) {
            None => None,
            Some(vs) => if all_segs(fields.last()) {
                Some(vs.push(seg_value(fields.last())))
            } else {
                None
            },
        }
    }
}

/// Parses a run of space-separated patterns.
fn parse_patterns(fields: &Vec<Vec<char>>) -> (r: Result<Vec<Segments>, AocError>)
    ensures
        match r {
            Ok(segs) => spec_patterns(views_of(fields@)) == Some(
                segs@.map_values(|s: Segments| s.0),
            ),
            Err(e) => spec_patterns(views_of(fields@)) is None && e matches AocError::Misc(_),
        },
{
    let ghost fs = views_of(fields@);
    let mut segs: Vec<Segments> = Vec::new();
    proof {
        assert(fs.subrange(0, 0) =~= Seq::<Seq<char>>::empty());
        assert(segs@.map_values(|s: Segments| s.0) =~= Seq::<u8>::empty());
    }
    let mut i: usize = 0;
    while i < fields.len()
        invariant
            0 <= i <= fields@.len(),
            fs == views_of(fields@),
            spec_patterns(fs.subrange(0, i as int)) == Some(segs@.map_values(|s: Segments| s.0)),
        decreases fields@.len() - i,
    {
        proof {
            assert(fs.subrange(0, i + 1).drop_last() =~= fs.subrange(0, i as int));
            assert(fs.subrange(0, i + 1).last() == fs[i as int]);
            assert(fs[i as int] == fields@[i as int]@);
        }
        let s = match Segments::from_chars(&fields[i]) {
            Ok(s) => s,
            Err(e) => {
                proof {
                    lemma_patterns_propagate(fs, i + 1);
                }
                return Err(e);
            },
        };
        let ghost prev = segs@;
        segs.push(s);
        proof {
            assert(segs@.map_values(|s: Segments| s.0) =~= prev.map_values(
                |s: Segments| s.0,
            ).push(s.0));
        }
        i = i + 1;
    }
    proof {
        assert(fs.subrange(0, fs.len() as int) =~= fs);
    }
    Ok(segs)
}

/// Once a prefix of the patterns fails, the whole run fails.
proof fn lemma_patterns_propagate(fs: Seq<Seq<char>>, i: int)
    requires
        0 <= i <= fs.len(),
        spec_patterns(fs.subrange(0, i)) is None,
    ensures
        spec_patterns(fs) is None,
    decreases fs.len() - i,
{
    if i < fs.len() {
        assert(fs.subrange(0, i + 1).drop_last() =~= fs.subrange(0, i));
        lemma_patterns_propagate(fs, i + 1);
    } else {
        assert(fs.subrange(0, i) =~= fs);
    }
}

/// One display line: the signal patterns, a `|`, and the output patterns.
#[derive(Debug)]
pub struct KrangledDisplay {
    pub signals: SegmentDictionary,
    pub outputs: Vec<Segments>,
}

/// Parsing one display line, split at the first `" | "`.
pub open spec fn spec_display(l: Seq<char>) -> Option<(Seq<u8>, Seq<u8>)> {
    let parts = spec_split(l, '|');
    if parts.len() != 2 || parts[0].len() == 0 || parts[1].len() == 0 || parts[0].last() != ' '
        || parts[1][0] != ' ' {
        None
    } else {
        match spec_patterns(spec_split(parts[0].drop_last(), ' ')) {
            None => None,
            Some(sig) => match spec_patterns(spec_split(parts[1].drop_first(), ' ')) {
                None => None,
                Some(out) => Some((sig, out)),
            },
        }
    }
}

/// Parses one display line.
fn parse_display(line: &Vec<char>) -> (r: Result<KrangledDisplay, AocError>)
    ensures
        match r {
            Ok(d) => spec_display(line@) == Some(
                (d.signals.model(), d.outputs@.map_values(|s: Segments| s.0)),
            ),
            Err(e) => spec_display(line@) is None && e matches AocError::Misc(_),
        },
{
    let parts = split_on(line, '|');
    proof {
        assert(views_of(parts@)[0] == parts@[0]@);
        if parts@.len() > 1 {
            assert(views_of(parts@)[1] == parts@[1]@);
        }
    }
    if parts.len() != 2 {
        return Err(AocError::Misc("a display needs exactly one separator".to_owned()));
    }
    let left = &parts[0];
    let right = &parts[1];
    if left.len() == 0 || left[left.len() - 1] != ' ' || right.len() == 0 || right[0] != ' ' {
        return Err(AocError::Misc("the display separator must be padded with spaces".to_owned()));
    }
    let left_trim = crate::text::copy_range(left, 0, left.len() - 1);
    let right_trim = crate::text::copy_range(right, 1, right.len());
    proof {
        assert(left_trim@ =~= parts@[0]@.drop_last());
        assert(right_trim@ =~= parts@[1]@.drop_first());
    }
    let signal_fields = split_on(&left_trim, ' ');
    let output_fields = split_on(&right_trim, ' ');
    let signals = match parse_patterns(&signal_fields) {
        Ok(s) => s,
        Err(e) => { return Err(e) },
    };
    let outputs = match parse_patterns(&output_fields) {
        Ok(s) => s,
        Err(e) => { return Err(e) },
    };
    Ok(KrangledDisplay { signals: SegmentDictionary { digits: signals }, outputs })
}

impl KrangledDisplay {
    /// The four-digit number on the display's output side.
    pub fn output(&self) -> (r: Result<usize, AocError>)
        ensures
            match r {
                Ok(n) => spec_output(
                    self.signals.model(),
                    self.outputs@.map_values(|s: Segments| s.0),
                ) == Some(n as nat),
                Err(e) => spec_output(
                    self.signals.model(),
                    self.outputs@.map_values(|s: Segments| s.0),
                ) is None && e matches AocError::Misc(_),
            },
    {
        proof {
            if self.outputs@.len() >= 4 {
                assert(self.outputs@.map_values(|s: Segments| s.0)[0] == self.outputs@[0].0);
                assert(self.outputs@.map_values(|s: Segments| s.0)[1] == self.outputs@[1].0);
                assert(self.outputs@.map_values(|s: Segments| s.0)[2] == self.outputs@[2].0);
                assert(self.outputs@.map_values(|s: Segments| s.0)[3] == self.outputs@[3].0);
            }
        }
        if self.outputs.len() < 4 {
            return Err(AocError::Misc("a display shows four output digits".to_owned()));
        }
        let d0 = match self.signals.digit(&self.outputs[0]) {
            Ok(d) => d,
            Err(e) => { return Err(e) },
        };
        let d1 = match self.signals.digit(&self.outputs[1]) {
            Ok(d) => d,
            Err(e) => { return Err(e) },
        };
        let d2 = match self.signals.digit(&self.outputs[2]) {
            Ok(d) => d,
            Err(e) => { return Err(e) },
        };
        let d3 = match self.signals.digit(&self.outputs[3]) {
            Ok(d) => d,
            Err(e) => { return Err(e) },
        };
        proof {
            lemma_digit_small(self.signals.model(), self.outputs@[0].0);
        }
        Ok(d0 * 1000 + d1 * 100 + d2 * 10 + d3)
    }
}

/// Every digit is below ten.
proof fn lemma_digit_small(ds: Seq<u8>, seg: u8)
    ensures
        spec_digit(ds, seg) matches Some(d) ==> d <= 9,
{
}

/// The four-digit number a display's outputs show.
pub open spec fn spec_output(ds: Seq<u8>, outs: Seq<u8>) -> Option<nat> {
    if outs.len() < 4 {
        None
    } else {
        match (spec_digit(ds, outs[0]), spec_digit(ds, outs[1]), spec_digit(ds, outs[2]), spec_digit(
            ds,
            outs[3],
        )) {
            (Some(d0), Some(d1), Some(d2), Some(d3)) => Some(d0 * 1000 + d1 * 100 + d2 * 10 + d3),
            _ => None,
        }
    }
}

/// How many of a display's outputs have the segment count of a 1, 4, 7 or 8.
pub open spec fn count_specials(outs: Seq<u8>) -> nat
    decreases outs.len(),
{
    if outs.len() == 0 {
        0
    } else {
        count_specials(outs.drop_last()) + if seg_len(outs.last()) == 2 || seg_len(outs.last())
            == 3 || seg_len(outs.last()) == 4 || seg_len(outs.last()) == 7 {
            1nat
        } else {
            0nat
        }
    }
}

/// Counting the special outputs over all lines; `None` when a line does not
/// parse.
pub open spec fn spec_count_all(lines: Seq<Seq<char>>) -> Option<nat>
    decreases lines.len(),
{
    if lines.len() == 0 {
        Some(0)
    } else {
        match spec_count_all(lines.drop_last()) {
            None => None,
            Some(acc) => match spec_display(lines.last()) {
                None => None,
                Some((ds, outs)) => Some(acc + count_specials(outs)),
            },
        }
    }
}

/// Summing the four-digit outputs over all lines; `None` when a line does
/// not parse or a digit cannot be identified.
pub open spec fn spec_sum_all(lines: Seq<Seq<char>>) -> Option<nat>
    decreases lines.len(),
{
    if lines.len() == 0 {
        Some(0)
    } else {
        match spec_sum_all(lines.drop_last()) {
            None => None,
            Some(acc) => match spec_display(lines.last()) {
                None => None,
                Some((ds, outs)) => match spec_output(ds, outs) {
                    None => None,
                    Some(n) => Some(acc + n),
                },
            },
        }
    }
}

/// Once a prefix of the lines fails, the whole input fails.
proof fn lemma_count_propagate(ls: Seq<Seq<char>>, i: int)
    requires
        0 <= i <= ls.len(),
        spec_count_all(ls.subrange(0, i)) is None,
    ensures
        spec_count_all(ls) is None,
    decreases ls.len() - i,
{
    if i < ls.len() {
        assert(ls.subrange(0, i + 1).drop_last() =~= ls.subrange(0, i));
        lemma_count_propagate(ls, i + 1);
    } else {
        assert(ls.subrange(0, i) =~= ls);
    }
}

/// Once a prefix of the lines fails, the whole input fails.
proof fn lemma_sum_propagate(ls: Seq<Seq<char>>, i: int)
    requires
        0 <= i <= ls.len(),
        spec_sum_all(ls.subrange(0, i)) is None,
    ensures
        spec_sum_all(ls) is None,
    decreases ls.len() - i,
{
    if i < ls.len() {
        assert(ls.subrange(0, i + 1).drop_last() =~= ls.subrange(0, i));
        lemma_sum_propagate(ls, i + 1);
    } else {
        assert(ls.subrange(0, i) =~= ls);
    }
}

/// A later total is never smaller.
proof fn lemma_count_prefix_le(ls: Seq<Seq<char>>, i: int)
    requires
        0 <= i <= ls.len(),
        spec_count_all(ls) is Some,
    ensures
        spec_count_all(ls.subrange(0, i)) matches Some(a) ==> a <= spec_count_all(ls)->Some_0,
    decreases ls.len() - i,
{
    if i < ls.len() {
        assert(ls.subrange(0, i + 1).drop_last() =~= ls.subrange(0, i));
        lemma_count_prefix_le(ls, i + 1);
        if spec_count_all(ls.subrange(0, i)) is Some && spec_count_all(ls.subrange(0, i + 1))
            is None {
            lemma_count_propagate(ls, i + 1);
        }
    } else {
        assert(ls.subrange(0, i) =~= ls);
    }
}

/// A later total is never smaller.
proof fn lemma_sum_prefix_le(ls: Seq<Seq<char>>, i: int)
    requires
        0 <= i <= ls.len(),
        spec_sum_all(ls) is Some,
    ensures
        spec_sum_all(ls.subrange(0, i)) matches Some(a) ==> a <= spec_sum_all(ls)->Some_0,
    decreases ls.len() - i,
{
    if i < ls.len() {
        assert(ls.subrange(0, i + 1).drop_last() =~= ls.subrange(0, i));
        lemma_sum_prefix_le(ls, i + 1);
        if spec_sum_all(ls.subrange(0, i)) is Some && spec_sum_all(ls.subrange(0, i + 1)) is None {
            lemma_sum_propagate(ls, i + 1);
        }
    } else {
        assert(ls.subrange(0, i) =~= ls);
    }
}

/// Counts the output patterns that show a 1, 4, 7 or 8.
pub fn part_one(input: &str) -> (r: Result<String, AocError>)
    ensures
        ({
            let counted = spec_count_all(spec_lines(input@));
            match r {
                Ok(s) => counted matches Some(n) && n <= usize::MAX && s@ == dec_str(n),
                Err(_) => counted is None || (counted matches Some(n) && n > usize::MAX),
            }
        }),
{
    let cs = chars_of(input);
    let lines = lines_of(&cs);
    let ghost ls = spec_lines(input@);
    let mut count: usize = 0;
    proof {
        assert(ls.subrange(0, 0) =~= Seq::<Seq<char>>::empty());
    }
    let mut i: usize = 0;
    while i < lines.len()
        invariant
            0 <= i <= lines@.len(),
            ls == spec_lines(input@),
            ls == views_of(lines@),
            spec_count_all(ls.subrange(0, i as int)) == Some(count as nat),
        decreases lines@.len() - i,
    {
        proof {
            assert(ls.subrange(0, i + 1).drop_last() =~= ls.subrange(0, i as int));
            assert(ls.subrange(0, i + 1).last() == ls[i as int]);
            assert(ls[i as int] == lines@[i as int]@);
        }
        let display = match parse_display(&lines[i]) {
            Ok(d) => d,
            Err(e) => {
                proof {
                    lemma_count_propagate(ls, i + 1);
                }
                return Err(e);
            },
        };
        let ghost outs = display.outputs@.map_values(|s: Segments| s.0);
        let mut specials: usize = 0;
        let mut j: usize = 0;
        proof {
            assert(outs.subrange(0, 0) =~= Seq::<u8>::empty());
        }
        while j < display.outputs.len()
            invariant
                0 <= j <= display.outputs@.len(),
                outs == display.outputs@.map_values(|s: Segments| s.0),
                specials <= j,
                specials == count_specials(outs.subrange(0, j as int)),
            decreases display.outputs@.len() - j,
        {
            proof {
                assert(outs.subrange(0, j + 1).drop_last() =~= outs.subrange(0, j as int));
                assert(outs.subrange(0, j + 1).last() == outs[j as int]);
                assert(outs[j as int] == display.outputs@[j as int].0);
            }
            if display.outputs[j].is_1_or_4_or_7_or_8() {
                specials = specials + 1;
            }
            j = j + 1;
        }
        proof {
            assert(outs.subrange(0, outs.len() as int) =~= outs);
        }
        count = match count.checked_add(specials) {
            Some(c) => c,
            None => {
                proof {
                    if spec_count_all(ls) is Some {
                        lemma_count_prefix_le(ls, i + 1);
                    }
                }
                return Err(AocError::Misc("count does not fit in a machine word".to_owned()));
            },
        };
        i = i + 1;
    }
    proof {
        assert(ls.subrange(0, ls.len() as int) =~= ls);
    }
    Ok(usize_to_string(count))
}

/// Sums the four-digit numbers on every display.
pub fn part_two(input: &str) -> (r: Result<String, AocError>)
    ensures
        ({
            let summed = spec_sum_all(spec_lines(input@));
            match r {
                Ok(s) => summed matches Some(n) && n <= usize::MAX && s@ == dec_str(n),
                Err(_) => summed is None || (summed matches Some(n) && n > usize::MAX),
            }
        }),
{
    let cs = chars_of(input);
    let lines = lines_of(&cs);
    let ghost ls = spec_lines(input@);
    let mut total: usize = 0;
    proof {
        assert(ls.subrange(0, 0) =~= Seq::<Seq<char>>::empty());
    }
    let mut i: usize = 0;
    while i < lines.len()
        invariant
            0 <= i <= lines@.len(),
            ls == spec_lines(input@),
            ls == views_of(lines@),
            spec_sum_all(ls.subrange(0, i as int)) == Some(total as nat),
        decreases lines@.len() - i,
    {
        proof {
            assert(ls.subrange(0, i + 1).drop_last() =~= ls.subrange(0, i as int));
            assert(ls.subrange(0, i + 1).last() == ls[i as int]);
            assert(ls[i as int] == lines@[i as int]@);
        }
        let display = match parse_display(&lines[i]) {
            Ok(d) => d,
            Err(e) => {
                proof {
                    lemma_sum_propagate(ls, i + 1);
                }
                return Err(e);
            },
        };
        let value = match display.output() {
            Ok(v) => v,
            Err(e) => {
                proof {
                    lemma_sum_propagate(ls, i + 1);
                }
                return Err(e);
            },
        };
        total = match total.checked_add(value) {
            Some(t) => t,
            None => {
                proof {
                    if spec_sum_all(ls) is Some {
                        lemma_sum_prefix_le(ls, i + 1);
                    }
                }
                return Err(AocError::Misc("sum does not fit in a machine word".to_owned()));
            },
        };
        i = i + 1;
    }
    proof {
        assert(ls.subrange(0, ls.len() as int) =~= ls);
    }
    Ok(usize_to_string(total))
}

} // verus!
