//! Binary diagnostic: per-column majority bits give the gamma and epsilon
//! rates; repeated majority/minority filtering isolates the oxygen and
//! carbon-dioxide ratings.

use vstd::prelude::*;

use crate::aoc_error::AocError;
use crate::text::{chars_of, dec_str, lines_of, spec_lines, u64_to_string, views_of};

verus! {

/// How many lines have a `'1'` in the given column.
pub open spec fn ones_in_col(lines: Seq<Seq<char>>, col: int) -> nat
    decreases lines.len(),
{
    if lines.len() == 0 {
        0
    } else {
        ones_in_col(lines.drop_last(), col) + if 0 <= col < lines.last().len() && lines.last()[col]
            == '1' {
            1nat
        } else {
            0nat
        }
    }
}

/// Every line is as wide as the first.
pub open spec fn same_width(lines: Seq<Seq<char>>) -> bool {
    forall|k: int| 0 <= k < lines.len() ==> #[trigger] lines[k].len() == lines[0].len()
}

/// The gamma rate over the first `w` columns: a 1 bit where ones dominate.
pub open spec fn gamma_val(lines: Seq<Seq<char>>, w: int) -> nat
    decreases w,
{
    if w <= 0 {
        0
    } else {
        gamma_val(lines, w - 1) * 2 + if ones_in_col(lines, w - 1) > lines.len() / 2 {
            1nat
        } else {
            0nat
        }
    }
}

/// The epsilon rate over the first `w` columns: a 1 bit where ones do not
/// dominate.
pub open spec fn epsilon_val(lines: Seq<Seq<char>>, w: int) -> nat
    decreases w,
{
    if w <= 0 {
        0
    } else {
        epsilon_val(lines, w - 1) * 2 + if ones_in_col(lines, w - 1) > lines.len() / 2 {
            0nat
        } else {
            1nat
        }
    }
}

/// A rate over `w` columns is below 2^`w`.
proof fn lemma_rate_bound(lines: Seq<Seq<char>>, w: int)
    requires
        w >= 0,
    ensures
        gamma_val(lines, w) < pow2(w as nat),
        epsilon_val(lines, w) < pow2(w as nat),
    decreases w,
{
    if w == 0 {
        vstd::arithmetic::power2::lemma_pow2_pos(0);
    } else {
        vstd::arithmetic::power2::lemma_pow2_unfold(w as nat);
        lemma_rate_bound(lines, w - 1);
    }
}

use vstd::arithmetic::power2::pow2;

/// Counts the `'1'`s in one column.
fn count_ones(lines: &Vec<Vec<char>>, col: usize) -> (r: usize)
    requires
        lines@.len() <= usize::MAX,
    ensures
        r == ones_in_col(views_of(lines@), col as int),
        r <= lines@.len(),
{
    let ghost ls = views_of(lines@);
    let mut cnt: usize = 0;
    let mut j: usize = 0;
    proof {
        assert(ls.subrange(0, 0) =~= Seq::<Seq<char>>::empty());
    }
    while j < lines.len()
        invariant
            0 <= j <= lines@.len(),
            ls == views_of(lines@),
            cnt == ones_in_col(ls.subrange(0, j as int), col as int),
            cnt <= j,
        decreases lines@.len() - j,
    {
        proof {
            assert(ls.subrange(0, j + 1).drop_last() =~= ls.subrange(0, j as int));
            assert(ls.subrange(0, j + 1).last() == ls[j as int]);
            assert(ls[j as int] == lines@[j as int]@);
        }
        let line = &lines[j];
        if col < line.len() && line[col] == '1' {
            cnt = cnt + 1;
        }
        j = j + 1;
    }
    proof {
        assert(ls.subrange(0, ls.len() as int) =~= ls);
    }
    cnt
}

/// Gamma rate times epsilon rate over the whole report.
pub fn part_one(input: &str) -> (r: Result<String, AocError>)
    ensures
        ({
            let lines = spec_lines(input@);
            let w = lines[0].len() as int;
            let product = gamma_val(lines, w) * epsilon_val(lines, w);
            match r {
                Ok(s) => (lines.len() == 0 && s@ == dec_str(0)) || (lines.len() > 0 && same_width(
                    lines,
                ) && lines[0].len() <= 63 && product <= u64::MAX && s@ == dec_str(product)),
                Err(e) => lines.len() > 0 && !(same_width(lines) && lines[0].len() <= 63 && product
                    <= u64::MAX) && e matches AocError::Misc(_),
            }
        }),
{
    let cs = chars_of(input);
    let lines = lines_of(&cs);
    let ghost ls = spec_lines(input@);
    if lines.len() == 0 {
        return Ok(u64_to_string(0));
    }
    let width = lines[0].len();
    let mut k: usize = 1;
    while k < lines.len()
        invariant
            1 <= k <= lines@.len(),
            ls == views_of(lines@),
            ls == spec_lines(input@),
            lines@.len() >= 1,
            width == ls[0].len(),
            forall|j: int| 0 <= j < k ==> #[trigger] ls[j].len() == ls[0].len(),
        decreases lines@.len() - k,
    {
        proof {
            assert(ls[k as int] == lines@[k as int]@);
        }
        if lines[k].len() != width {
            proof {
                assert(!same_width(ls));
            }
            return Err(AocError::Misc("diagnostic lines differ in width".to_owned()));
        }
        k = k + 1;
    }
    if width > 63 {
        return Err(AocError::Misc("diagnostic lines are too wide".to_owned()));
    }
    let mut gamma: u64 = 0;
    let mut epsilon: u64 = 0;
    let total = lines.len();
    let mut col: usize = 0;
    while col < width
        invariant
            0 <= col <= width,
            width <= 63,
            ls == views_of(lines@),
            lines@.len() >= 1,
            total == lines@.len(),
            lines@.len() <= usize::MAX,
            gamma == gamma_val(ls, col as int),
            epsilon == epsilon_val(ls, col as int),
        decreases width - col,
    {
        proof {
            lemma_rate_bound(ls, col as int);
            if col < 63 {
                vstd::arithmetic::power2::lemma_pow2_strictly_increases(col as nat, 63);
            }
            lemma2_to64();
            vstd::arithmetic::power2::lemma2_to64_rest();
        }
        let ones = count_ones(&lines, col);
        if ones > total / 2 {
            gamma = gamma * 2 + 1;
            epsilon = epsilon * 2;
        } else {
            gamma = gamma * 2;
            epsilon = epsilon * 2 + 1;
        }
        col = col + 1;
    }
    let answer = match gamma.checked_mul(epsilon) {
        Some(a) => a,
        None => {
            return Err(AocError::Misc("diagnostic product does not fit in a machine word".to_owned()));
        },
    };
    Ok(u64_to_string(answer))
}

use vstd::arithmetic::power2::lemma2_to64;

/// Lines whose character in the given column equals `keep`.
pub open spec fn spec_filter(cands: Seq<Seq<char>>, col: int, keep: char) -> Seq<Seq<char>>
    decreases cands.len(),
{
    if cands.len() == 0 {
        Seq::empty()
    } else {
        let rest = spec_filter(cands.drop_last(), col, keep);
        if 0 <= col < cands.last().len() && cands.last()[col] == keep {
            rest.push(cands.last())
        } else {
            rest
        }
    }
}

/// Searching for the rating: the widest line bounds how many rounds the
/// filtering can take.
pub enum RatingSearch {
    OutOfRounds,
    NoCollapse,
    Found(Seq<char>),
}

/// The widest line.
pub open spec fn max_width(lines: Seq<Seq<char>>) -> nat
    decreases lines.len(),
{
    if lines.len() == 0 {
        0
    } else {
        let rest = max_width(lines.drop_last());
        if lines.last().len() > rest {
            lines.last().len()
        } else {
            rest
        }
    }
}

/// Repeatedly keeps the lines whose bit in the current column follows the
/// majority (`gte`) or the minority (`lt`) until one line is left.
pub open spec fn spec_rating(
    cands: Seq<Seq<char>>,
    col: nat,
    gte: char,
    lt: char,
    rounds: nat,
) -> RatingSearch
    decreases rounds,
{
    if rounds == 0 {
        RatingSearch::OutOfRounds
    } else if cands.len() == 1 {
        RatingSearch::Found(cands[0])
    } else {
        let w = if cands.len() == 0 {
            0
        } else {
            cands[0].len()
        };
        if col >= w {
            RatingSearch::NoCollapse
        } else {
            let ones = ones_in_col(cands, col as int);
            let keep = if ones >= cands.len() - ones {
                gte
            } else {
                lt
            };
            spec_rating(spec_filter(cands, col as int, keep), col + 1, gte, lt, (rounds - 1) as nat)
        }
    }
}

/// The value of a binary numeral.
pub open spec fn bin_value(s: Seq<char>) -> nat
    decreases s.len(),
{
    if s.len() == 0 {
        0
    } else {
        bin_value(s.drop_last()) * 2 + if s.last() == '1' {
            1nat
        } else {
            0nat
        }
    }
}

/// A non-empty string of binary digits.
pub open spec fn is_bin_str(s: Seq<char>) -> bool {
    s.len() > 0 && forall|i: int| 0 <= i < s.len() ==> s[i] == '0' || s[i] == '1'
}

/// Longer binary numerals denote at least as much as their prefixes.
proof fn lemma_bin_value_prefix_le(s: Seq<char>, i: int)
    requires
        0 <= i <= s.len(),
    ensures
        bin_value(s.subrange(0, i)) <= bin_value(s),
    decreases s.len() - i,
{
    if i < s.len() {
        assert(s.subrange(0, i + 1).drop_last() =~= s.subrange(0, i));
        lemma_bin_value_prefix_le(s, i + 1);
    } else {
        assert(s.subrange(0, i) =~= s);
    }
}

/// Parses a binary numeral.  Succeeds exactly on non-empty all-bit strings
/// whose value fits in the machine word.
fn parse_binary(v: &Vec<char>) -> (r: Result<usize, AocError>)
    ensures
        match r {
            Ok(n) => is_bin_str(v@) && bin_value(v@) <= usize::MAX && n == bin_value(v@),
            Err(e) => e == AocError::BadInt && !(is_bin_str(v@) && bin_value(v@) <= usize::MAX),
        },
{
    if v.len() == 0 {
        return Err(AocError::BadInt);
    }
    let mut acc: usize = 0;
    let mut i: usize = 0;
    while i < v.len()
        invariant
            0 <= i <= v@.len(),
            v@.len() > 0,
            forall|k: int| 0 <= k < i ==> v@[k] == '0' || v@[k] == '1',
            acc == bin_value(v@.subrange(0, i as int)),
        decreases v@.len() - i,
    {
        let c = v[i];
        if c != '0' && c != '1' {
            return Err(AocError::BadInt);
        }
        proof {
            assert(v@.subrange(0, i + 1).drop_last() =~= v@.subrange(0, i as int));
            assert(v@.subrange(0, i + 1).last() == v@[i as int]);
        }
        let bit: usize = if c == '1' {
            1
        } else {
            0
        };
        let shifted = match acc.checked_mul(2) {
            Some(t) => t,
            None => {
                proof {
                    lemma_bin_value_prefix_le(v@, i + 1);
                }
                return Err(AocError::BadInt);
            },
        };
        acc = match shifted.checked_add(bit) {
            Some(t) => t,
            None => {
                proof {
                    lemma_bin_value_prefix_le(v@, i + 1);
                }
                return Err(AocError::BadInt);
            },
        };
        i = i + 1;
    }
    proof {
        assert(v@.subrange(0, v@.len() as int) =~= v@);
    }
    Ok(acc)
}

/// Finds the rating a filtering discipline leaves, reading it as binary.
fn find_life_support_component(lines: &Vec<Vec<char>>, gte: char, lt: char) -> (r: Result<
    usize,
    AocError,
>)
    ensures
        ({
            let ls = views_of(lines@);
            let rounds = max_width(ls) + 2;
            match r {
                Ok(n) => spec_rating(ls, 0, gte, lt, rounds) matches RatingSearch::Found(found) && (
                is_bin_str(found) && bin_value(found) <= usize::MAX && n == bin_value(found)),
                Err(e) => (spec_rating(ls, 0, gte, lt, rounds) is NoCollapse && e
                    matches AocError::Misc(_)) || (spec_rating(ls, 0, gte, lt, rounds)
                    matches RatingSearch::Found(found) && !(is_bin_str(found) && bin_value(found)
                    <= usize::MAX) && e == AocError::BadInt),
            }
        }),
{
    let ghost ls = views_of(lines@);
    let ghost rounds = max_width(ls) + 2;
    let mut cands: Vec<Vec<char>> = Vec::new();
    let mut k: usize = 0;
    while k < lines.len()
        invariant
            0 <= k <= lines@.len(),
            ls == views_of(lines@),
            views_of(cands@) == ls.subrange(0, k as int),
            forall|j: int|
                0 <= j < cands@.len() ==> #[trigger] cands@[j]@.len() <= max_width(ls),
        decreases lines@.len() - k,
    {
        proof {
            lemma_width_le(ls, k as int);
        }
        let line_copy = copy_line(&lines[k]);
        let ghost prev = cands@;
        cands.push(line_copy);
        proof {
            assert(views_of(cands@) =~= views_of(prev).push(lines@[k as int]@));
            assert(views_of(cands@) =~= ls.subrange(0, k + 1));
        }
        k = k + 1;
    }
    proof {
        assert(ls.subrange(0, ls.len() as int) =~= ls);
    }
    let mut index: usize = 0;
    loop
        invariant
            ls == views_of(lines@),
            rounds == max_width(ls) + 2,
            index + 2 <= rounds,
            spec_rating(ls, 0, gte, lt, rounds) == spec_rating(
                views_of(cands@),
                index as nat,
                gte,
                lt,
                (rounds - index) as nat,
            ),
            forall|j: int|
                0 <= j < cands@.len() ==> #[trigger] cands@[j]@.len() <= max_width(ls),
        decreases rounds - index,
    {
        if cands.len() == 1 {
            return parse_binary(&cands[0]);
        }
        let w = if cands.len() == 0 {
            0
        } else {
            cands[0].len()
        };
        proof {
            if cands@.len() > 0 {
                assert(views_of(cands@)[0] == cands@[0]@);
            }
        }
        if index >= w {
            return Err(AocError::Misc("input does not collapse to a single rating".to_owned()));
        }
        let ones = count_ones(&cands, index);
        let keep: char = if ones >= cands.len() - ones {
            gte
        } else {
            lt
        };
        let ghost before = views_of(cands@);
        let mut kept: Vec<Vec<char>> = Vec::new();
        let mut j: usize = 0;
        proof {
            assert(before.subrange(0, 0) =~= Seq::<Seq<char>>::empty());
            assert(views_of(kept@) =~= spec_filter(before.subrange(0, 0), index as int, keep));
        }
        while j < cands.len()
            invariant
                0 <= j <= cands@.len(),
                before == views_of(cands@),
                index < rounds,
                views_of(kept@) == spec_filter(before.subrange(0, j as int), index as int, keep),
                forall|x: int|
                    0 <= x < cands@.len() ==> #[trigger] cands@[x]@.len() <= max_width(
                        views_of(lines@),
                    ),
                forall|x: int|
                    0 <= x < kept@.len() ==> #[trigger] kept@[x]@.len() <= max_width(
                        views_of(lines@),
                    ),
            decreases cands@.len() - j,
        {
            proof {
                assert(before.subrange(0, j + 1).drop_last() =~= before.subrange(0, j as int));
                assert(before.subrange(0, j + 1).last() == before[j as int]);
                assert(before[j as int] == cands@[j as int]@);
            }
            let line = &cands[j];
            if index < line.len() && line[index] == keep {
                let line_copy = copy_line(line);
                let ghost prev = kept@;
                kept.push(line_copy);
                proof {
                    assert(views_of(kept@) =~= views_of(prev).push(cands@[j as int]@));
                }
            }
            j = j + 1;
        }
        proof {
            assert(before.subrange(0, before.len() as int) =~= before);
        }
        cands = kept;
        index = index + 1;
    }
}

/// Copies one line.
fn copy_line(v: &Vec<char>) -> (r: Vec<char>)
    ensures
        r@ == v@,
{
    let mut r: Vec<char> = Vec::new();
    let mut i: usize = 0;
    while i < v.len()
        invariant
            0 <= i <= v@.len(),
            r@ == v@.subrange(0, i as int),
        decreases v@.len() - i,
    {
        r.push(v[i]);
        proof {
            assert(r@ =~= v@.subrange(0, i + 1));
        }
        i = i + 1;
    }
    proof {
        assert(r@ =~= v@);
    }
    r
}

/// No line is wider than the widest.
proof fn lemma_width_le(ls: Seq<Seq<char>>, k: int)
    requires
        0 <= k < ls.len(),
    ensures
        ls[k].len() <= max_width(ls),
    decreases ls.len(),
{
    if k == ls.len() - 1 {
    } else {
        lemma_width_le(ls.drop_last(), k);
    }
}

/// Oxygen rating (majority filter) times carbon-dioxide rating (minority
/// filter).
pub fn part_two(input: &str) -> (r: Result<String, AocError>)
    ensures
        ({
            let ls = spec_lines(input@);
            let rounds = max_width(ls) + 2;
            match r {
                Ok(s) => spec_rating(ls, 0, '1', '0', rounds) matches RatingSearch::Found(o2s) && (
                spec_rating(ls, 0, '0', '1', rounds) matches RatingSearch::Found(co2s) && (
                is_bin_str(o2s) && bin_value(o2s) <= usize::MAX && is_bin_str(co2s) && bin_value(
                    co2s,
                ) <= usize::MAX && bin_value(o2s) * bin_value(co2s) <= usize::MAX && s@ == dec_str(
                    bin_value(o2s) * bin_value(co2s),
                ))),
                Err(e) => !(spec_rating(ls, 0, '1', '0', rounds) matches RatingSearch::Found(
                    o2s,
                ) && (spec_rating(ls, 0, '0', '1', rounds) matches RatingSearch::Found(co2s) && (
                is_bin_str(o2s) && bin_value(o2s) <= usize::MAX && is_bin_str(co2s) && bin_value(
                    co2s,
                ) <= usize::MAX && bin_value(o2s) * bin_value(co2s) <= usize::MAX))),
            }
        }),
{
    let cs = chars_of(input);
    let lines = lines_of(&cs);
    let o2 = match find_life_support_component(&lines, '1', '0') {
        Ok(n) => n,
        Err(e) => { return Err(e) },
    };
    let co2 = match find_life_support_component(&lines, '0', '1') {
        Ok(n) => n,
        Err(e) => { return Err(e) },
    };
    let answer = match o2.checked_mul(co2) {
        Some(a) => a,
        None => {
            return Err(AocError::Misc("rating product does not fit in a machine word".to_owned()));
        },
    };
    Ok(usize_to_string(answer))
}

use crate::text::usize_to_string;

} // verus!
