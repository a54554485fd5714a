//! Crab alignment: pick a target position minimising total fuel, with linear
//! fuel costs for part one and triangle-number costs for part two.

use vstd::prelude::*;

use crate::aoc_error::AocError;
use crate::text::{chars_of, dec_str, nat_sum, parse_nums, sorted_version, sort_usizes, spec_split,
    spec_parse_nums, split_on, usize_to_string};

verus! {

/// Distance between two positions.
pub open spec fn dist(a: nat, b: nat) -> nat {
    if a < b {
        (b - a) as nat
    } else {
        (a - b) as nat
    }
}

/// Total fuel with linear costs: each crab pays its distance to the target.
pub open spec fn fuel_linear(ns: Seq<nat>, t: nat) -> nat
    decreases ns.len(),
{
    if ns.len() == 0 {
        0
    } else {
        fuel_linear(ns.drop_last(), t) + dist(ns.last(), t)
    }
}

/// The triangle-number cost of moving a given distance.
pub open spec fn tri(d: nat) -> nat {
    d * (d + 1) / 2
}

/// Total fuel with triangle costs.
pub open spec fn fuel_triangle(ns: Seq<nat>, t: nat) -> nat
    decreases ns.len(),
{
    if ns.len() == 0 {
        0
    } else {
        fuel_triangle(ns.drop_last(), t) + tri(dist(ns.last(), t))
    }
}

/// The upper median: with the positions in order, the one just past the
/// middle.
pub open spec fn crab_median(ns: Seq<nat>) -> nat {
    sorted_version(ns.map_values(|n: nat| n as usize))[ns.len() as int / 2] as nat
}

/// The truncated mean of the positions.
pub open spec fn crab_mean(ns: Seq<nat>) -> nat {
    nat_sum(ns) / (ns.len() as nat)
}

/// Fuel of a prefix never exceeds fuel of the whole fleet.
proof fn lemma_fuel_prefix_le(ns: Seq<nat>, t: nat, i: int)
    requires
        0 <= i <= ns.len(),
    ensures
        fuel_linear(ns.subrange(0, i), t) <= fuel_linear(ns, t),
        fuel_triangle(ns.subrange(0, i), t) <= fuel_triangle(ns, t),
    decreases ns.len() - i,
{
    if i < ns.len() {
        assert(ns.subrange(0, i + 1).drop_last() =~= ns.subrange(0, i));
        lemma_fuel_prefix_le(ns, t, i + 1);
    } else {
        assert(ns.subrange(0, i) =~= ns);
    }
}

/// Total linear fuel to gather all crabs at the given target, or a typed
/// failure if the total does not fit in the machine word.
fn total_fuel_linear(ns: &Vec<usize>, target: usize) -> (r: Result<usize, AocError>)
    ensures
        ({
            let m = ns@.map_values(|n: usize| n as nat);
            match r {
                Ok(f) => fuel_linear(m, target as nat) <= usize::MAX && f == fuel_linear(
                    m,
                    target as nat,
                ),
                Err(e) => fuel_linear(m, target as nat) > usize::MAX && e matches AocError::Misc(_),
            }
        }),
{
    let ghost m = ns@.map_values(|n: usize| n as nat);
    let mut acc: usize = 0;
    let mut i: usize = 0;
    while i < ns.len()
        invariant
            0 <= i <= ns@.len(),
            m == ns@.map_values(|n: usize| n as nat),
            acc == fuel_linear(m.subrange(0, i as int), target as nat),
        decreases ns@.len() - i,
    {
        proof {
            assert(m.subrange(0, i + 1).drop_last() =~= m.subrange(0, i as int));
            assert(m.subrange(0, i + 1).last() == m[i as int]);
        }
        let p = ns[i];
        let d = if p < target {
            target - p
        } else {
            p - target
        };
        acc = match acc.checked_add(d) {
            Some(a) => a,
            None => {
                proof {
                    lemma_fuel_prefix_le(m, target as nat, i + 1);
                }
                return Err(AocError::Misc("total fuel does not fit in a machine word".to_owned()));
            },
        };
        i = i + 1;
    }
    proof {
        assert(m.subrange(0, m.len() as int) =~= m);
    }
    Ok(acc)
}

/// Total triangle-cost fuel to gather all crabs at the given target, or a
/// typed failure if the total does not fit in the machine word.
fn total_fuel_triangle(ns: &Vec<usize>, target: usize) -> (r: Result<usize, AocError>)
    ensures
        ({
            let m = ns@.map_values(|n: usize| n as nat);
            match r {
                Ok(f) => fuel_triangle(m, target as nat) <= usize::MAX && f == fuel_triangle(
                    m,
                    target as nat,
                ),
                Err(e) => fuel_triangle(m, target as nat) > usize::MAX && e matches AocError::Misc(
                    _,
                ),
            }
        }),
{
    let ghost m = ns@.map_values(|n: usize| n as nat);
    let mut acc: usize = 0;
    let mut i: usize = 0;
    while i < ns.len()
        invariant
            0 <= i <= ns@.len(),
            m == ns@.map_values(|n: usize| n as nat),
            acc == fuel_triangle(m.subrange(0, i as int), target as nat),
        decreases ns@.len() - i,
    {
        proof {
            assert(m.subrange(0, i + 1).drop_last() =~= m.subrange(0, i as int));
            assert(m.subrange(0, i + 1).last() == m[i as int]);
        }
        let p = ns[i];
        let d = if p < target {
            target - p
        } else {
            p - target
        };
        proof {
            vstd::arithmetic::mul::lemma_mul_upper_bound(
                d as int,
                u64::MAX as int,
                d as int + 1,
                u64::MAX as int + 1,
            );
        }
        let prod: u128 = (d as u128) * (d as u128 + 1);
        let cost128: u128 = prod / 2;
        proof {
            assert(cost128 == tri(d as nat));
            lemma_fuel_prefix_le(m, target as nat, i + 1);
        }
        if cost128 > usize::MAX as u128 {
            return Err(AocError::Misc("total fuel does not fit in a machine word".to_owned()));
        }
        let cost = cost128 as usize;
        acc = match acc.checked_add(cost) {
            Some(a) => a,
            None => {
                return Err(AocError::Misc("total fuel does not fit in a machine word".to_owned()));
            },
        };
        i = i + 1;
    }
    proof {
        assert(m.subrange(0, m.len() as int) =~= m);
    }
    Ok(acc)
}

/// Copies a vector of positions.
fn copy_usizes(v: &Vec<usize>) -> (r: Vec<usize>)
    ensures
        r@ == v@,
{
    let mut r: Vec<usize> = Vec::new();
    let mut i: usize = 0;
    while i < v.len()
        invariant
            0 <= i <= v@.len(),
            r@ == v@.subrange(0, i as int),
        decreases v@.len() - i,
    {
        r.push(v[i]);
        proof {
            assert(r@ =~= v@.subrange(0, i + 1));
        }
        i = i + 1;
    }
    proof {
        assert(r@ =~= v@);
    }
    r
}

/// Gathers the crabs at the upper median and reports the linear fuel spent.
pub fn part_one(input: &str) -> (r: Result<String, AocError>)
    ensures
        ({
            let parsed = spec_parse_nums(spec_split(input@, ','));
            match r {
                Ok(s) => parsed matches Ok(ns) && fuel_linear(ns, crab_median(ns)) <= usize::MAX
                    && s@ == dec_str(fuel_linear(ns, crab_median(ns))),
                Err(e) => parsed == Err::<Seq<nat>, AocError>(e) || (parsed matches Ok(ns)
                    && fuel_linear(ns, crab_median(ns)) > usize::MAX
                    && e matches AocError::Misc(_)),
            }
        }),
{
    let cs = chars_of(input);
    let fields = split_on(&cs, ',');
    let ns = match parse_nums(&fields) {
        Ok(ns) => ns,
        Err(e) => { return Err(e) },
    };
    let ghost m = ns@.map_values(|n: usize| n as nat);
    let mut sorted = copy_usizes(&ns);
    sort_usizes(&mut sorted);
    proof {
        assert(m.map_values(|n: nat| n as usize) =~= ns@);
    }
    let target = sorted[sorted.len() / 2];
    proof {
        assert(target as nat == crab_median(m));
    }
    let fuel = match total_fuel_linear(&ns, target) {
        Ok(f) => f,
        Err(e) => { return Err(e) },
    };
    Ok(usize_to_string(fuel))
}

/// Gathers the crabs at the truncated mean or one step above it, whichever
/// costs less triangle fuel, and reports that fuel.
pub fn part_two(input: &str) -> (r: Result<String, AocError>)
    ensures
        ({
            let parsed = spec_parse_nums(spec_split(input@, ','));
            match r {
                Ok(s) => parsed matches Ok(ns) && ({
                    let lo = fuel_triangle(ns, crab_mean(ns));
                    let hi = fuel_triangle(ns, crab_mean(ns) + 1);
                    &&& nat_sum(ns) <= usize::MAX
                    &&& crab_mean(ns) + 1 <= usize::MAX
                    &&& lo <= usize::MAX
                    &&& hi <= usize::MAX
                    &&& s@ == dec_str(if lo < hi {
                        lo
                    } else {
                        hi
                    })
                }),
                Err(e) => parsed == Err::<Seq<nat>, AocError>(e) || (parsed matches Ok(ns) && !({
                    &&& nat_sum(ns) <= usize::MAX
                    &&& crab_mean(ns) + 1 <= usize::MAX
                    &&& fuel_triangle(ns, crab_mean(ns)) <= usize::MAX
                    &&& fuel_triangle(ns, crab_mean(ns) + 1) <= usize::MAX
                }) && e matches AocError::Misc(_)),
            }
        }),
{
    let cs = chars_of(input);
    let fields = split_on(&cs, ',');
    let ns = match parse_nums(&fields) {
        Ok(ns) => ns,
        Err(e) => { return Err(e) },
    };
    let ghost m = ns@.map_values(|n: usize| n as nat);
    let mut total: usize = 0;
    let mut i: usize = 0;
    while i < ns.len()
        invariant
            0 <= i <= ns@.len(),
            m == ns@.map_values(|n: usize| n as nat),
            spec_parse_nums(spec_split(input@, ',')) == Ok::<Seq<nat>, AocError>(m),
            total == nat_sum(m.subrange(0, i as int)),
        decreases ns@.len() - i,
    {
        proof {
            assert(m.subrange(0, i + 1).drop_last() =~= m.subrange(0, i as int));
            assert(m.subrange(0, i + 1).last() == m[i as int]);
            lemma_nat_sum_prefix_le(m, i + 1);
        }
        total = match total.checked_add(ns[i]) {
            Some(t) => t,
            None => {
                proof {
                    assert(m[i as int] == ns@[i as int] as nat);
                    assert(nat_sum(m.subrange(0, i + 1)) > usize::MAX);
                    assert(nat_sum(m) > usize::MAX);
                }
                return Err(AocError::Misc("position total does not fit in a machine word".to_owned()));
            },
        };
        i = i + 1;
    }
    proof {
        assert(m.subrange(0, m.len() as int) =~= m);
    }
    let low = total / ns.len();
    proof {
        assert(low as nat == crab_mean(m));
    }
    let high = match low.checked_add(1) {
        Some(h) => h,
        None => {
            return Err(AocError::Misc("gather target does not fit in a machine word".to_owned()));
        },
    };
    let low_fuel = match total_fuel_triangle(&ns, low) {
        Ok(f) => f,
        Err(e) => { return Err(e) },
    };
    let high_fuel = match total_fuel_triangle(&ns, high) {
        Ok(f) => f,
        Err(e) => { return Err(e) },
    };
    let best = if low_fuel < high_fuel {
        low_fuel
    } else {
        high_fuel
    };
    Ok(usize_to_string(best))
}

/// A prefix never sums to more than the whole sequence.
proof fn lemma_nat_sum_prefix_le(ns: Seq<nat>, i: int)
    requires
        0 <= i <= ns.len(),
    ensures
        nat_sum(ns.subrange(0, i)) <= nat_sum(ns),
    decreases ns.len() - i,
{
    if i < ns.len() {
        assert(ns.subrange(0, i + 1).drop_last() =~= ns.subrange(0, i));
        lemma_nat_sum_prefix_le(ns, i + 1);
    } else {
        assert(ns.subrange(0, i) =~= ns);
    }
}

} // verus!
