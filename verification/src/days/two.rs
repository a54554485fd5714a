//! Dive: drive a submarine by a list of commands, tracking horizontal
//! position and depth — in part two via an aim the vertical commands steer.

use vstd::prelude::*;

use crate::aoc_error::AocError;
use crate::text::{chars_of, copy_range, dec_str, dec_value, is_num_str, lines_of, parse_usize,
    spec_lines, usize_to_string};

verus! {

/// One steering command.
#[derive(Debug, Copy, Clone)]
pub enum Command {
    Forward(usize),
    Down(usize),
    Up(usize),
}

/// Why a command failed to parse.
pub enum CommandError {
    BadNumber,
    UnknownCommand,
}

/// The submarine's state.
#[derive(Debug, Copy, Clone)]
pub struct Position {
    pub horizontal: usize,
    pub depth: usize,
    pub aim: usize,
}

/// Whether a line begins with the given characters.
pub open spec fn has_prefix(l: Seq<char>, p: Seq<char>) -> bool {
    p.len() <= l.len() && l.subrange(0, p.len() as int) == p
}

/// A command's argument: the decimal field after the keyword.
pub open spec fn arg_of(l: Seq<char>, from: nat) -> Option<nat> {
    if from <= l.len() && is_num_str(l.skip(from as int)) && dec_value(l.skip(from as int))
        <= usize::MAX {
        Some(dec_value(l.skip(from as int)))
    } else {
        None
    }
}

/// Parsing one command line: a keyword, then a decimal argument.
pub open spec fn spec_cmd(l: Seq<char>) -> Result<Command, CommandError> {
    if has_prefix(l, seq!['f', 'o', 'r', 'w', 'a', 'r', 'd']) {
        match arg_of(l, 8) {
            Some(d) => Ok(Command::Forward(d as usize)),
            None => Err(CommandError::BadNumber),
        }
    } else if has_prefix(l, seq!['u', 'p']) {
        match arg_of(l, 3) {
            Some(d) => Ok(Command::Up(d as usize)),
            None => Err(CommandError::BadNumber),
        }
    } else if has_prefix(l, seq!['d', 'o', 'w', 'n']) {
        match arg_of(l, 5) {
            Some(d) => Ok(Command::Down(d as usize)),
            None => Err(CommandError::BadNumber),
        }
    } else {
        Err(CommandError::UnknownCommand)
    }
}

/// Parsing every line; the first failure wins.
pub open spec fn spec_cmds(lines: Seq<Seq<char>>) -> Result<Seq<Command>, CommandError>
    decreases lines.len(),
{
    if lines.len() == 0 {
        Ok(Seq::empty())
    } else {
        match spec_cmds(lines.drop_last()) {
            Err(e) => Err(e),
            Ok(cs) => match spec_cmd(lines.last()) {
                Err(e) => Err(e),
                Ok(c) => Ok(cs.push(c)),
            },
        }
    }
}

/// Part one steering: forward moves, down and up dive and rise.  `None` when
/// the boat would rise above the surface or a coordinate would not fit in
/// the machine word.
pub open spec fn spec_update_p1(p: Position, c: Command) -> Option<Position> {
    match c {
        Command::Forward(d) => if p.horizontal + d <= usize::MAX {
            Some(Position { horizontal: (p.horizontal + d) as usize, depth: p.depth, aim: p.aim })
        } else {
            None
        },
        Command::Down(d) => if p.depth + d <= usize::MAX {
            Some(Position { horizontal: p.horizontal, depth: (p.depth + d) as usize, aim: p.aim })
        } else {
            None
        },
        Command::Up(d) => if d <= p.depth {
            Some(Position { horizontal: p.horizontal, depth: (p.depth - d) as usize, aim: p.aim })
        } else {
            None
        },
    }
}

/// Part two steering: down and up turn the aim, forward moves and dives by
/// the aim.
pub open spec fn spec_update_p2(p: Position, c: Command) -> Option<Position> {
    match c {
        Command::Forward(d) => if p.horizontal + d <= usize::MAX && p.depth + p.aim * d
            <= usize::MAX {
            Some(
                Position {
                    horizontal: (p.horizontal + d) as usize,
                    depth: (p.depth + p.aim * d) as usize,
                    aim: p.aim,
                },
            )
        } else {
            None
        },
        Command::Down(d) => if p.aim + d <= usize::MAX {
            Some(Position { horizontal: p.horizontal, depth: p.depth, aim: (p.aim + d) as usize })
        } else {
            None
        },
        Command::Up(d) => if d <= p.aim {
            Some(Position { horizontal: p.horizontal, depth: p.depth, aim: (p.aim - d) as usize })
        } else {
            None
        },
    }
}

/// Runs the commands from the start state, with either steering.
pub open spec fn spec_run(cmds: Seq<Command>, two: bool) -> Option<Position>
    decreases cmds.len(),
{
    if cmds.len() == 0 {
        Some(Position { horizontal: 0, depth: 0, aim: 0 })
    } else {
        match spec_run(cmds.drop_last(), two) {
            None => None,
            Some(p) => if two {
                spec_update_p2(p, cmds.last())
            } else {
                spec_update_p1(p, cmds.last())
            },
        }
    }
}

impl Position {
    /// Part one steering for one command.
    pub fn update_p1(&self, command: Command) -> (r: Option<Position>)
        ensures
            r == spec_update_p1(*self, command),
    {
        match command {
            Command::Forward(d) => match self.horizontal.checked_add(d) {
                Some(h) => Some(Position { horizontal: h, depth: self.depth, aim: self.aim }),
                None => None,
            },
            Command::Down(d) => match self.depth.checked_add(d) {
                Some(dep) => Some(Position { horizontal: self.horizontal, depth: dep, aim: self.aim }),
                None => None,
            },
            Command::Up(d) => if d <= self.depth {
                Some(Position { horizontal: self.horizontal, depth: self.depth - d, aim: self.aim })
            } else {
                None
            },
        }
    }

    /// Part two steering for one command.
    pub fn update_p2(&self, command: Command) -> (r: Option<Position>)
        ensures
            r == spec_update_p2(*self, command),
    {
        match command {
            Command::Forward(d) => match self.horizontal.checked_add(d) {
                Some(h) => match self.aim.checked_mul(d) {
                    Some(dive) => match self.depth.checked_add(dive) {
                        Some(dep) => Some(Position { horizontal: h, depth: dep, aim: self.aim }),
                        None => None,
                    },
                    None => None,
                },
                None => None,
            },
            Command::Down(d) => match self.aim.checked_add(d) {
                Some(a) => Some(Position { horizontal: self.horizontal, depth: self.depth, aim: a }),
                None => None,
            },
            Command::Up(d) => if d <= self.aim {
                Some(Position { horizontal: self.horizontal, depth: self.depth, aim: self.aim - d })
            } else {
                None
            },
        }
    }

    /// Horizontal position times depth, if it fits in the machine word.
    pub fn product(&self) -> (r: Option<usize>)
        ensures
            match r {
                Some(n) => self.horizontal * self.depth <= usize::MAX && n == self.horizontal
                    * self.depth,
                None => self.horizontal * self.depth > usize::MAX,
            },
    {
        self.horizontal.checked_mul(self.depth)
    }
}

/// Parses one command line.
fn parse_command(line: &Vec<char>) -> (r: Result<Command, AocError>)
    ensures
        match r {
            Ok(c) => spec_cmd(line@) == Ok::<Command, CommandError>(c),
            Err(e) => match spec_cmd(line@) {
                Ok(_) => false,
                Err(CommandError::BadNumber) => e == AocError::BadInt,
                Err(CommandError::UnknownCommand) => e matches AocError::Misc(_),
            },
        },
{
    let n = line.len();
    if n >= 7 && line[0] == 'f' && line[1] == 'o' && line[2] == 'r' && line[3] == 'w' && line[4]
        == 'a' && line[5] == 'r' && line[6] == 'd' {
        proof {
            assert(line@.subrange(0, 7) =~= seq!['f', 'o', 'r', 'w', 'a', 'r', 'd']);
        }
        if n < 8 {
            return Err(AocError::BadInt);
        }
        let field = copy_range(line, 8, n);
        proof {
            assert(field@ =~= line@.skip(8));
        }
        match parse_usize(&field) {
            Ok(d) => Ok(Command::Forward(d)),
            Err(e) => Err(e),
        }
    } else if n >= 2 && line[0] == 'u' && line[1] == 'p' {
        proof {
            assert(line@.subrange(0, 2) =~= seq!['u', 'p']);
        }
        if n < 3 {
            return Err(AocError::BadInt);
        }
        let field = copy_range(line, 3, n);
        proof {
            assert(field@ =~= line@.skip(3));
        }
        match parse_usize(&field) {
            Ok(d) => Ok(Command::Up(d)),
            Err(e) => Err(e),
        }
    } else if n >= 4 && line[0] == 'd' && line[1] == 'o' && line[2] == 'w' && line[3] == 'n' {
        proof {
            assert(line@.subrange(0, 4) =~= seq!['d', 'o', 'w', 'n']);
        }
        if n < 5 {
            return Err(AocError::BadInt);
        }
        let field = copy_range(line, 5, n);
        proof {
            assert(field@ =~= line@.skip(5));
        }
        match parse_usize(&field) {
            Ok(d) => Ok(Command::Down(d)),
            Err(e) => Err(e),
        }
    } else {
        proof {
            if has_prefix(line@, seq!['f', 'o', 'r', 'w', 'a', 'r', 'd']) {
                assert(line@.subrange(0, 7)[0] == line@[0]);
                assert(line@.subrange(0, 7)[1] == line@[1]);
                assert(line@.subrange(0, 7)[2] == line@[2]);
                assert(line@.subrange(0, 7)[3] == line@[3]);
                assert(line@.subrange(0, 7)[4] == line@[4]);
                assert(line@.subrange(0, 7)[5] == line@[5]);
                assert(line@.subrange(0, 7)[6] == line@[6]);
            }
            if has_prefix(line@, seq!['u', 'p']) {
                assert(line@.subrange(0, 2)[0] == line@[0]);
                assert(line@.subrange(0, 2)[1] == line@[1]);
            }
            if has_prefix(line@, seq!['d', 'o', 'w', 'n']) {
                assert(line@.subrange(0, 4)[0] == line@[0]);
                assert(line@.subrange(0, 4)[1] == line@[1]);
                assert(line@.subrange(0, 4)[2] == line@[2]);
                assert(line@.subrange(0, 4)[3] == line@[3]);
            }
        }
        Err(AocError::Misc("unknown submarine command".to_owned()))
    }
}

/// Parses all command lines.
fn parse_commands(lines: &Vec<Vec<char>>) -> (r: Result<Vec<Command>, AocError>)
    ensures
        ({
            let ls = crate::text::views_of(lines@);
            match r {
                Ok(cs) => spec_cmds(ls) == Ok::<Seq<Command>, CommandError>(cs@),
                Err(e) => match spec_cmds(ls) {
                    Ok(_) => false,
                    Err(CommandError::BadNumber) => e == AocError::BadInt,
                    Err(CommandError::UnknownCommand) => e matches AocError::Misc(_),
                },
            }
        }),
{
    let ghost ls = crate::text::views_of(lines@);
    let mut cs: Vec<Command> = Vec::new();
    proof {
        assert(ls.subrange(0, 0) =~= Seq::<Seq<char>>::empty());
    }
    let mut i: usize = 0;
    while i < lines.len()
        invariant
            0 <= i <= lines@.len(),
            ls == crate::text::views_of(lines@),
            spec_cmds(ls.subrange(0, i as int)) == Ok::<Seq<Command>, CommandError>(cs@),
        decreases lines@.len() - i,
    {
        proof {
            assert(ls.subrange(0, i + 1).drop_last() =~= ls.subrange(0, i as int));
            assert(ls.subrange(0, i + 1).last() == ls[i as int]);
        }
        let c = match parse_command(&lines[i]) {
            Ok(c) => c,
            Err(e) => {
                proof {
                    lemma_cmds_propagate(ls, i + 1);
                }
                return Err(e);
            },
        };
        cs.push(c);
        i = i + 1;
    }
    proof {
        assert(ls.subrange(0, ls.len() as int) =~= ls);
    }
    Ok(cs)
}

/// Once a prefix of the lines fails, the whole list fails the same way.
proof fn lemma_cmds_propagate(ls: Seq<Seq<char>>, i: int)
    requires
        0 <= i <= ls.len(),
        spec_cmds(ls.subrange(0, i)) is Err,
    ensures
        spec_cmds(ls) == spec_cmds(ls.subrange(0, i)),
    decreases ls.len() - i,
{
    if i < ls.len() {
        assert(ls.subrange(0, i + 1).drop_last() =~= ls.subrange(0, i));
        lemma_cmds_propagate(ls, i + 1);
    } else {
        assert(ls.subrange(0, i) =~= ls);
    }
}

/// Runs the parsed commands with the chosen steering and reports the final
/// horizontal position times depth.
fn steer(input: &str, two: bool) -> (r: Result<String, AocError>)
    ensures
        ({
            let parsed = spec_cmds(spec_lines(input@));
            match r {
                Ok(s) => parsed matches Ok(cmds) && spec_run(cmds, two) matches Some(p)
                    && p.horizontal * p.depth <= usize::MAX && s@ == dec_str(
                    (p.horizontal * p.depth) as nat,
                ),
                Err(e) => match parsed {
                    Err(CommandError::BadNumber) => e == AocError::BadInt,
                    Err(CommandError::UnknownCommand) => e matches AocError::Misc(_),
                    Ok(cmds) => (spec_run(cmds, two) is None || (spec_run(cmds, two) matches Some(
                        p,
                    ) && p.horizontal * p.depth > usize::MAX)) && e matches AocError::Misc(_),
                },
            }
        }),
{
    let cs = chars_of(input);
    let lines = lines_of(&cs);
    let cmds = match parse_commands(&lines) {
        Ok(cs) => cs,
        Err(e) => { return Err(e) },
    };
    let mut pos = Position { horizontal: 0, depth: 0, aim: 0 };
    proof {
        assert(cmds@.subrange(0, 0) =~= Seq::<Command>::empty());
    }
    let mut i: usize = 0;
    while i < cmds.len()
        invariant
            0 <= i <= cmds@.len(),
            spec_cmds(spec_lines(input@)) == Ok::<Seq<Command>, CommandError>(cmds@),
            spec_run(cmds@.subrange(0, i as int), two) == Some(pos),
        decreases cmds@.len() - i,
    {
        proof {
            assert(cmds@.subrange(0, i + 1).drop_last() =~= cmds@.subrange(0, i as int));
            assert(cmds@.subrange(0, i + 1).last() == cmds@[i as int]);
        }
        let next = if two {
            pos.update_p2(cmds[i])
        } else {
            pos.update_p1(cmds[i])
        };
        pos = match next {
            Some(p) => p,
            None => {
                proof {
                    lemma_run_propagate(cmds@, i + 1, two);
                }
                return Err(
                    AocError::Misc("submarine position does not fit in a machine word".to_owned()),
                );
            },
        };
        i = i + 1;
    }
    proof {
        assert(cmds@.subrange(0, cmds@.len() as int) =~= cmds@);
    }
    let answer = match pos.product() {
        Some(n) => n,
        None => {
            return Err(AocError::Misc("submarine position does not fit in a machine word".to_owned()));
        },
    };
    Ok(usize_to_string(answer))
}

/// Once the run fails on a prefix, it fails on the whole list.
proof fn lemma_run_propagate(cmds: Seq<Command>, i: int, two: bool)
    requires
        0 <= i <= cmds.len(),
        spec_run(cmds.subrange(0, i), two) is None,
    ensures
        spec_run(cmds, two) is None,
    decreases cmds.len() - i,
{
    if i < cmds.len() {
        assert(cmds.subrange(0, i + 1).drop_last() =~= cmds.subrange(0, i));
        lemma_run_propagate(cmds, i + 1, two);
    } else {
        assert(cmds.subrange(0, i) =~= cmds);
    }
}

/// Final horizontal position times final depth under part-one steering.
pub fn part_one(input: &str) -> (r: Result<String, AocError>)
    ensures
        ({
            let parsed = spec_cmds(spec_lines(input@));
            match r {
                Ok(s) => parsed matches Ok(cmds) && spec_run(cmds, false) matches Some(p)
                    && p.horizontal * p.depth <= usize::MAX && s@ == dec_str(
                    (p.horizontal * p.depth) as nat,
                ),
                Err(e) => match parsed {
                    Err(CommandError::BadNumber) => e == AocError::BadInt,
                    Err(CommandError::UnknownCommand) => e matches AocError::Misc(_),
                    Ok(cmds) => (spec_run(cmds, false) is None || (spec_run(cmds, false)
                        matches Some(p) && p.horizontal * p.depth > usize::MAX))
                        && e matches AocError::Misc(_),
                },
            }
        }),
{
    steer(input, false)
}

/// Final horizontal position times final depth under part-two steering.
pub fn part_two(input: &str) -> (r: Result<String, AocError>)
    ensures
        ({
            let parsed = spec_cmds(spec_lines(input@));
            match r {
                Ok(s) => parsed matches Ok(cmds) && spec_run(cmds, true) matches Some(p)
                    && p.horizontal * p.depth <= usize::MAX && s@ == dec_str(
                    (p.horizontal * p.depth) as nat,
                ),
                Err(e) => match parsed {
                    Err(CommandError::BadNumber) => e == AocError::BadInt,
                    Err(CommandError::UnknownCommand) => e matches AocError::Misc(_),
                    Ok(cmds) => (spec_run(cmds, true) is None || (spec_run(cmds, true) matches Some(
                        p,
                    ) && p.horizontal * p.depth > usize::MAX)) && e matches AocError::Misc(_),
                },
            }
        }),
{
    steer(input, true)
}

} // verus!
