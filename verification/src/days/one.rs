//! Sonar sweep: count how often a depth reading increases, first reading to
//! reading, then three-reading window to window.

use vstd::prelude::*;

use crate::aoc_error::AocError;
use crate::text::{chars_of, dec_str, lines_of, parse_nums, spec_lines, spec_parse_nums,
    usize_to_string};

verus! {

/// How many readings exceed the reading just before them.
pub open spec fn count_increases(ns: Seq<nat>) -> nat
    decreases ns.len(),
{
    if ns.len() < 2 {
        0
    } else {
        count_increases(ns.drop_last()) + if ns[ns.len() - 2] < ns.last() {
            1nat
        } else {
            0nat
        }
    }
}

/// How many three-reading window sums exceed the window sum just before
/// them.
pub open spec fn count_window_increases(ns: Seq<nat>) -> nat
    decreases ns.len(),
{
    if ns.len() < 4 {
        0
    } else {
        count_window_increases(ns.drop_last()) + if ns[ns.len() - 4] + ns[ns.len() - 3] + ns[
            ns.len() - 2] < ns[ns.len() - 3] + ns[ns.len() - 2] + ns.last() {
            1nat
        } else {
            0nat
        }
    }
}

/// A count over a sequence never exceeds its length.
proof fn lemma_count_increases_le(ns: Seq<nat>)
    ensures
        count_increases(ns) <= ns.len(),
        count_window_increases(ns) <= ns.len(),
    decreases ns.len(),
{
    if ns.len() > 0 {
        lemma_count_increases_le(ns.drop_last());
    }
}

/// Counts readings that increase over their predecessor.
pub fn part_one(input: &str) -> (r: Result<String, AocError>)
    ensures
        match r {
            Ok(s) => spec_parse_nums(spec_lines(input@)) matches Ok(ns) && s@ == dec_str(
                count_increases(ns),
            ),
            Err(e) => spec_parse_nums(spec_lines(input@)) == Err::<Seq<nat>, AocError>(e),
        },
{
    let cs = chars_of(input);
    let lines = lines_of(&cs);
    let ns = match parse_nums(&lines) {
        Ok(ns) => ns,
        Err(e) => { return Err(e) },
    };
    let ghost m = ns@.map_values(|n: usize| n as nat);
    let mut count: usize = 0;
    if ns.len() >= 2 {
        let mut i: usize = 1;
        while i < ns.len()
            invariant
                1 <= i <= ns@.len(),
                m == ns@.map_values(|n: usize| n as nat),
                count == count_increases(m.subrange(0, i as int)),
                count <= i,
            decreases ns@.len() - i,
        {
            proof {
                assert(m.subrange(0, i + 1).drop_last() =~= m.subrange(0, i as int));
                lemma_count_increases_le(m.subrange(0, i as int));
            }
            if ns[i - 1] < ns[i] {
                count = count + 1;
            }
            i = i + 1;
        }
        proof {
            assert(m.subrange(0, m.len() as int) =~= m);
        }
    }
    Ok(usize_to_string(count))
}

/// Counts three-reading windows whose sum increases over the window before.
pub fn part_two(input: &str) -> (r: Result<String, AocError>)
    ensures
        match r {
            Ok(s) => spec_parse_nums(spec_lines(input@)) matches Ok(ns) && s@ == dec_str(
                count_window_increases(ns),
            ),
            Err(e) => spec_parse_nums(spec_lines(input@)) == Err::<Seq<nat>, AocError>(e),
        },
{
    let cs = chars_of(input);
    let lines = lines_of(&cs);
    let ns = match parse_nums(&lines) {
        Ok(ns) => ns,
        Err(e) => { return Err(e) },
    };
    let ghost m = ns@.map_values(|n: usize| n as nat);
    let mut count: usize = 0;
    if ns.len() >= 4 {
        let mut i: usize = 3;
        while i < ns.len()
            invariant
                3 <= i <= ns@.len(),
                m == ns@.map_values(|n: usize| n as nat),
                count == count_window_increases(m.subrange(0, i as int)),
                count <= i,
            decreases ns@.len() - i,
        {
            proof {
                assert(m.subrange(0, i + 1).drop_last() =~= m.subrange(0, i as int));
                lemma_count_increases_le(m.subrange(0, i as int));
            }
            // Two consecutive window sums share their middle readings, so the
            // comparison reduces to the readings entering and leaving the window.
            if ns[i - 3] < ns[i] {
                count = count + 1;
            }
            i = i + 1;
        }
        proof {
            assert(m.subrange(0, m.len() as int) =~= m);
        }
    }
    Ok(usize_to_string(count))
}

} // verus!
