//! Lanternfish: a population counted by spawn-timer value, stepped one day
//! at a time; every fish at timer 0 resets to 6 and spawns one fish at 8.

use vstd::prelude::*;

use crate::aoc_error::AocError;
use crate::text::{chars_of, dec_str, nat_sum, parse_nums, spec_parse_nums, spec_split, split_on,
    usize_to_string};

verus! {

/// One day of simulation: timers shift down, timer-0 fish reset to 6 and
/// spawn at 8.
pub open spec fn spec_step(t: Seq<nat>) -> Seq<nat> {
    seq![t[1], t[2], t[3], t[4], t[5], t[6], t[7] + t[0], t[8], t[0]]
}

/// The population after `n` days.
pub open spec fn spec_steps(t: Seq<nat>, n: nat) -> Seq<nat>
    decreases n,
{
    if n == 0 {
        t
    } else {
        spec_steps(spec_step(t), (n - 1) as nat)
    }
}

/// Whether `n` days of simulation keep every count within the machine word.
pub open spec fn steps_ok(t: Seq<nat>, n: nat) -> bool
    decreases n,
{
    n == 0 || (t[7] + t[0] <= usize::MAX && steps_ok(spec_step(t), (n - 1) as nat))
}

/// Stepping distributes over the day count.
proof fn lemma_steps_snoc(t: Seq<nat>, n: nat)
    ensures
        spec_steps(t, n + 1) == spec_step(spec_steps(t, n)),
        steps_ok(t, n + 1) == (steps_ok(t, n) && spec_steps(t, n)[7] + spec_steps(t, n)[0]
            <= usize::MAX),
    decreases n,
{
    if n == 0 {
        assert(spec_steps(t, 1) == spec_steps(spec_step(t), 0));
        assert(steps_ok(t, 1) == (t[7] + t[0] <= usize::MAX && steps_ok(spec_step(t), 0)));
    } else {
        lemma_steps_snoc(spec_step(t), (n - 1) as nat);
    }
}

/// The timer histogram of a list of spawn timers.
pub open spec fn histogram(ns: Seq<nat>) -> Seq<nat>
    decreases ns.len(),
{
    if ns.len() == 0 {
        seq![0nat, 0nat, 0nat, 0nat, 0nat, 0nat, 0nat, 0nat, 0nat]
    } else {
        let h = histogram(ns.drop_last());
        h.update(ns.last() as int, h[ns.last() as int] + 1)
    }
}

/// Every timer is a valid stage of development.
pub open spec fn all_small(ns: Seq<nat>) -> bool {
    forall|i: int| 0 <= i < ns.len() ==> ns[i] <= 8
}

/// A school of lanternfish, counted by timer value.
pub struct LanternfishPopulation {
    pub timers: Vec<usize>,
}

impl LanternfishPopulation {
    /// Nine buckets, one for each stage of development.
    pub open spec fn wf(&self) -> bool {
        self.timers@.len() == 9
    }

    /// The counts as mathematical numbers.
    pub open spec fn model(&self) -> Seq<nat> {
        self.timers@.map_values(|n: usize| n as nat)
    }

    /// Builds the histogram of a list of spawn timers.  Fails exactly when
    /// some timer is outside the valid stages.
    pub fn new(ns: &Vec<usize>) -> (r: Result<LanternfishPopulation, AocError>)
        ensures
            ({
                let m = ns@.map_values(|n: usize| n as nat);
                match r {
                    Ok(p) => all_small(m) && p.wf() && p.model() == histogram(m),
                    Err(e) => !all_small(m) && e matches AocError::Misc(_),
                }
            }),
    {
        let ghost m = ns@.map_values(|n: usize| n as nat);
        let mut timers: Vec<usize> = Vec::new();
        let mut t: usize = 0;
        while t < 9
            invariant
                0 <= t <= 9,
                timers@.len() == t,
                forall|k: int| 0 <= k < t ==> timers@[k] == 0,
            decreases 9 - t,
        {
            timers.push(0);
            t = t + 1;
        }
        proof {
            assert(timers@.map_values(|n: usize| n as nat) =~= histogram(m.subrange(0, 0)));
        }
        let mut i: usize = 0;
        while i < ns.len()
            invariant
                0 <= i <= ns@.len(),
                m == ns@.map_values(|n: usize| n as nat),
                timers@.len() == 9,
                all_small(m.subrange(0, i as int)),
                timers@.map_values(|n: usize| n as nat) == histogram(m.subrange(0, i as int)),
                forall|k: int| 0 <= k < 9 ==> timers@[k] <= i,
            decreases ns@.len() - i,
        {
            let time = ns[i];
            if time > 8 {
                proof {
                    assert(m[i as int] == ns@[i as int] as nat);
                    assert(!all_small(m));
                }
                return Err(AocError::Misc("fish timer outside the valid stages".to_owned()));
            }
            let ghost prev = timers@;
            timers[time] = timers[time] + 1;
            proof {
                assert(m.subrange(0, i + 1).drop_last() =~= m.subrange(0, i as int));
                assert(m.subrange(0, i + 1).last() == m[i as int]);
                assert(timers@.map_values(|n: usize| n as nat) =~= histogram(
                    m.subrange(0, i + 1),
                ));
            }
            i = i + 1;
        }
        proof {
            assert(m.subrange(0, m.len() as int) =~= m);
        }
        Ok(LanternfishPopulation { timers })
    }

    /// Advances the population one day.  Reports `false`, leaving the
    /// population unchanged, exactly when the merged bucket would overflow
    /// the machine word.
    pub fn step(&mut self) -> (ok: bool)
        requires
            old(self).wf(),
        ensures
            final(self).wf(),
            ok == (old(self).model()[7] + old(self).model()[0] <= usize::MAX),
            ok ==> final(self).model() == spec_step(old(self).model()),
            !ok ==> *final(self) == *old(self),
    {
        let spawning = self.timers[0];
        if self.timers[7] > usize::MAX - spawning {
            return false;
        }
        let mut timers: Vec<usize> = Vec::new();
        timers.push(self.timers[1]);
        timers.push(self.timers[2]);
        timers.push(self.timers[3]);
        timers.push(self.timers[4]);
        timers.push(self.timers[5]);
        timers.push(self.timers[6]);
        timers.push(self.timers[7] + spawning);
        timers.push(self.timers[8]);
        timers.push(spawning);
        self.timers = timers;
        proof {
            assert(self.model() =~= spec_step(old(self).model()));
        }
        true
    }

    /// The total number of fish, or a typed failure if it does not fit in
    /// the machine word.
    pub fn total_pop(&self) -> (r: Result<usize, AocError>)
        requires
            self.wf(),
        ensures
            match r {
                Ok(n) => nat_sum(self.model()) <= usize::MAX && n == nat_sum(self.model()),
                Err(e) => nat_sum(self.model()) > usize::MAX && e matches AocError::Misc(_),
            },
    {
        let ghost m = self.model();
        let mut acc: usize = 0;
        let mut i: usize = 0;
        while i < self.timers.len()
            invariant
                0 <= i <= 9,
                self.wf(),
                m == self.model(),
                acc == nat_sum(m.subrange(0, i as int)),
            decreases 9 - i,
        {
            proof {
                assert(m.subrange(0, i + 1).drop_last() =~= m.subrange(0, i as int));
                assert(m.subrange(0, i + 1).last() == m[i as int]);
                lemma_pop_prefix_le(m, i + 1);
            }
            acc = match acc.checked_add(self.timers[i]) {
                Some(a) => a,
                None => {
                    return Err(
                        AocError::Misc("population total does not fit in a machine word".to_owned()),
                    );
                },
            };
            i = i + 1;
        }
        proof {
            assert(m.subrange(0, m.len() as int) =~= m);
        }
        Ok(acc)
    }
}

/// A prefix never sums to more than the whole sequence.
proof fn lemma_pop_prefix_le(ns: Seq<nat>, i: int)
    requires
        0 <= i <= ns.len(),
    ensures
        nat_sum(ns.subrange(0, i)) <= nat_sum(ns),
    decreases ns.len() - i,
{
    if i < ns.len() {
        assert(ns.subrange(0, i + 1).drop_last() =~= ns.subrange(0, i));
        lemma_pop_prefix_le(ns, i + 1);
    } else {
        assert(ns.subrange(0, i) =~= ns);
    }
}

/// Runs the simulation for the given number of days and reports the total
/// population.
fn simulate(input: &str, days: usize) -> (r: Result<String, AocError>)
    ensures
        ({
            let parsed = spec_parse_nums(spec_split(input@, ','));
            match r {
                Ok(s) => parsed matches Ok(ns) && ({
                    let h = histogram(ns);
                    &&& all_small(ns)
                    &&& steps_ok(h, days as nat)
                    &&& nat_sum(spec_steps(h, days as nat)) <= usize::MAX
                    &&& s@ == dec_str(nat_sum(spec_steps(h, days as nat)))
                }),
                Err(e) => parsed == Err::<Seq<nat>, AocError>(e) || (parsed matches Ok(ns) && !({
                    let h = histogram(ns);
                    &&& all_small(ns)
                    &&& steps_ok(h, days as nat)
                    &&& nat_sum(spec_steps(h, days as nat)) <= usize::MAX
                }) && e matches AocError::Misc(_)),
            }
        }),
{
    let cs = chars_of(input);
    let fields = split_on(&cs, ',');
    let ns = match parse_nums(&fields) {
        Ok(ns) => ns,
        Err(e) => { return Err(e) },
    };
    let ghost m = ns@.map_values(|n: usize| n as nat);
    let mut pop = match LanternfishPopulation::new(&ns) {
        Ok(p) => p,
        Err(e) => { return Err(e) },
    };
    let ghost h = histogram(m);
    let mut day: usize = 0;
    while day < days
        invariant
            0 <= day <= days,
            pop.wf(),
            spec_parse_nums(spec_split(input@, ',')) == Ok::<Seq<nat>, AocError>(m),
            all_small(m),
            h == histogram(m),
            steps_ok(h, day as nat),
            pop.model() == spec_steps(h, day as nat),
        decreases days - day,
    {
        proof {
            lemma_steps_snoc(h, day as nat);
        }
        if !pop.step() {
            proof {
                if steps_ok(h, days as nat) {
                    lemma_steps_ok_mono(h, (day + 1) as nat, days as nat);
                }
            }
            return Err(AocError::Misc("population count does not fit in a machine word".to_owned()));
        }
        day = day + 1;
    }
    let total = match pop.total_pop() {
        Ok(t) => t,
        Err(e) => { return Err(e) },
    };
    Ok(usize_to_string(total))
}

/// Fewer days of a safe simulation are still safe.
proof fn lemma_steps_ok_mono(t: Seq<nat>, k: nat, n: nat)
    requires
        k <= n,
        steps_ok(t, n),
    ensures
        steps_ok(t, k),
    decreases k,
{
    if k > 0 {
        lemma_steps_ok_mono(spec_step(t), (k - 1) as nat, (n - 1) as nat);
    }
}

/// Total population after 80 days.
pub fn part_one(input: &str) -> (r: Result<String, AocError>)
    ensures
        ({
            let parsed = spec_parse_nums(spec_split(input@, ','));
            match r {
                Ok(s) => parsed matches Ok(ns) && ({
                    let h = histogram(ns);
                    &&& all_small(ns)
                    &&& steps_ok(h, 80)
                    &&& nat_sum(spec_steps(h, 80)) <= usize::MAX
                    &&& s@ == dec_str(nat_sum(spec_steps(h, 80)))
                }),
                Err(e) => parsed == Err::<Seq<nat>, AocError>(e) || (parsed matches Ok(ns) && !({
                    let h = histogram(ns);
                    &&& all_small(ns)
                    &&& steps_ok(h, 80)
                    &&& nat_sum(spec_steps(h, 80)) <= usize::MAX
                }) && e matches AocError::Misc(_)),
            }
        }),
{
    simulate(input, 80)
}

/// Total population after 256 days.
pub fn part_two(input: &str) -> (r: Result<String, AocError>)
    ensures
        ({
            let parsed = spec_parse_nums(spec_split(input@, ','));
            match r {
                Ok(s) => parsed matches Ok(ns) && ({
                    let h = histogram(ns);
                    &&& all_small(ns)
                    &&& steps_ok(h, 256)
                    &&& nat_sum(spec_steps(h, 256)) <= usize::MAX
                    &&& s@ == dec_str(nat_sum(spec_steps(h, 256)))
                }),
                Err(e) => parsed == Err::<Seq<nat>, AocError>(e) || (parsed matches Ok(ns) && !({
                    let h = histogram(ns);
                    &&& all_small(ns)
                    &&& steps_ok(h, 256)
                    &&& nat_sum(spec_steps(h, 256)) <= usize::MAX
                }) && e matches AocError::Misc(_)),
            }
        }),
{
    simulate(input, 256)
}

} // verus!
