//! Syntax scoring: each line of brackets is either corrupted (a close that
//! does not match the innermost open) or incomplete (opens left over).
//! Corrupted lines score by the offending close; incomplete lines score by
//! the closes still owed.

use vstd::prelude::*;

use crate::aoc_error::AocError;
use crate::text::{chars_of, dec_str, lines_of, sorted_version, sort_usizes, spec_lines,
    usize_to_string};

verus! {

/// Whether the token opens a bracket pair.
pub open spec fn spec_is_open(token: char) -> bool {
    token == '(' || token == '[' || token == '{' || token == '<'
}

/// Whether the close token matches the open token.
pub open spec fn spec_matching(open: char, close: char) -> bool {
    (open == '(' && close == ')') || (open == '[' && close == ']') || (open == '{' && close == '}')
        || (open == '<' && close == '>')
}

/// The corruption score of a close token.
pub open spec fn spec_corruption_score(token: char) -> nat {
    if token == ')' {
        3
    } else if token == ']' {
        57
    } else if token == '}' {
        1197
    } else if token == '>' {
        25137
    } else {
        0
    }
}

/// The completion score of a token.
pub open spec fn spec_incomplete_score(token: char) -> nat {
    if token == ')' || token == '(' {
        1
    } else if token == ']' || token == '[' {
        2
    } else if token == '}' || token == '{' {
        3
    } else if token == '>' || token == '<' {
        4
    } else {
        0
    }
}

/// The completion score of a leftover stack, scored top of stack (the front)
/// first: the earlier a close is owed, the more it weighs.
pub open spec fn score_stack(stack: Seq<char>) -> nat
    decreases stack.len(),
{
    if stack.len() == 0 {
        0
    } else {
        score_stack(stack.drop_last()) * 5 + spec_incomplete_score(stack.last())
    }
}

/// What scanning a line finds: a corrupted close's score, or the stack of
/// opens still unmatched.
pub enum LineCheck {
    Corrupted(nat),
    Incomplete(Seq<char>),
}

/// Scans a line left to right keeping a stack of open tokens.
pub open spec fn spec_scan(cs: Seq<char>, i: int, stack: Seq<char>) -> LineCheck
    decreases cs.len() - i,
{
    if i < 0 || i >= cs.len() {
        LineCheck::Incomplete(stack)
    } else if spec_is_open(cs[i]) {
        spec_scan(cs, i + 1, seq![cs[i]] + stack)
    } else if stack.len() == 0 {
        LineCheck::Incomplete(stack)
    } else if spec_matching(stack[0], cs[i]) {
        spec_scan(cs, i + 1, stack.drop_first())
    } else {
        LineCheck::Corrupted(spec_corruption_score(cs[i]))
    }
}

/// What scanning a whole line from an empty stack finds.
pub open spec fn spec_check(cs: Seq<char>) -> LineCheck {
    spec_scan(cs, 0, Seq::empty())
}

/// Whether the token opens a bracket pair.
pub fn is_open(token: char) -> (r: bool)
    ensures
        r == spec_is_open(token),
{
    token == '(' || token == '[' || token == '{' || token == '<'
}

/// Whether the close token matches the open token.
pub fn matching_tokens(open: char, close: char) -> (r: bool)
    ensures
        r == spec_matching(open, close),
{
    (open == '(' && close == ')') || (open == '[' && close == ']') || (open == '{' && close == '}')
        || (open == '<' && close == '>')
}

/// The corruption score of a close token.
pub fn corruption_token_score(token: char) -> (r: usize)
    ensures
        r == spec_corruption_score(token),
{
    if token == ')' {
        3
    } else if token == ']' {
        57
    } else if token == '}' {
        1197
    } else if token == '>' {
        25137
    } else {
        0
    }
}

/// The completion score of a token.
pub fn incomplete_token_score(token: char) -> (r: usize)
    ensures
        r == spec_incomplete_score(token),
{
    if token == ')' || token == '(' {
        1
    } else if token == ']' || token == '[' {
        2
    } else if token == '}' || token == '{' {
        3
    } else if token == '>' || token == '<' {
        4
    } else {
        0
    }
}

/// Scoring more of a stack can only raise the score.
proof fn lemma_score_prefix_le(stack: Seq<char>, j: int)
    requires
        0 <= j <= stack.len(),
    ensures
        score_stack(stack.subrange(0, j)) <= score_stack(stack),
    decreases stack.len() - j,
{
    if j < stack.len() {
        assert(stack.subrange(0, j + 1).drop_last() =~= stack.subrange(0, j));
        lemma_score_prefix_le(stack, j + 1);
    } else {
        assert(stack.subrange(0, j) =~= stack);
    }
}

/// The completion score of a leftover stack, or a typed failure if it does
/// not fit in the machine word.  The stack is scored from its top, the front
/// of the vector.
#[verifier::rlimit(50)]
pub fn score_incomplete_stack(stack: Vec<char>) -> (r: Result<usize, AocError>)
    ensures
        match r {
            Ok(sc) => score_stack(stack@) <= usize::MAX && sc == score_stack(stack@),
            Err(e) => score_stack(stack@) > usize::MAX && e matches AocError::Misc(_),
        },
{
    let mut score: usize = 0;
    let mut j: usize = 0;
    proof {
        assert(stack@.subrange(0, 0) =~= Seq::<char>::empty());
    }
    while j < stack.len()
        invariant
            0 <= j <= stack@.len(),
            score == score_stack(stack@.subrange(0, j as int)),
        decreases stack@.len() - j,
    {
        proof {
            assert(stack@.subrange(0, j + 1).drop_last() =~= stack@.subrange(0, j as int));
            assert(stack@.subrange(0, j + 1).last() == stack@[j as int]);
            lemma_score_prefix_le(stack@, j + 1);
        }
        let tok = incomplete_token_score(stack[j]);
        let shifted = match score.checked_mul(5) {
            Some(t) => t,
            None => {
                return Err(
                    AocError::Misc("completion score does not fit in a machine word".to_owned()),
                );
            },
        };
        score = match shifted.checked_add(tok) {
            Some(t) => t,
            None => {
                return Err(
                    AocError::Misc("completion score does not fit in a machine word".to_owned()),
                );
            },
        };
        j = j + 1;
    }
    proof {
        assert(stack@.subrange(0, stack@.len() as int) =~= stack@);
    }
    Ok(score)
}

/// Scans one line: either the corruption score of the first bad close, or
/// the stack of opens still unmatched, top first.
pub fn find_error(code: &Vec<char>) -> (r: CodeError)
    ensures
        match r {
            CodeError::Corrupted(sc) => spec_check(code@) == LineCheck::Corrupted(sc as nat),
            CodeError::Incomplete(st) => spec_check(code@) == LineCheck::Incomplete(st@),
        },
{
    let mut stack: Vec<char> = Vec::new();
    let mut i: usize = 0;
    proof {
        assert(stack@ =~= Seq::<char>::empty());
    }
    while i < code.len()
        invariant
            0 <= i <= code@.len(),
            spec_check(code@) == spec_scan(code@, i as int, stack@),
        decreases code@.len() - i,
    {
        let token = code[i];
        if is_open(token) {
            let ghost prev = stack@;
            stack.insert(0, token);
            proof {
                assert(stack@ =~= seq![token] + prev);
            }
        } else {
            if stack.len() > 0 {
                let top = stack.remove(0);
                let ghost rest = stack@;
                if !matching_tokens(top, token) {
                    return CodeError::Corrupted(corruption_token_score(token));
                }
            } else {
                return CodeError::Incomplete(stack);
            }
        }
        i = i + 1;
    }
    CodeError::Incomplete(stack)
}

/// What scanning a line leaves behind.
pub enum CodeError {
    Corrupted(usize),
    Incomplete(Vec<char>),
}

/// Total corruption score over all lines.
pub open spec fn corrupted_total(lines: Seq<Seq<char>>) -> nat
    decreases lines.len(),
{
    if lines.len() == 0 {
        0
    } else {
        corrupted_total(lines.drop_last()) + match spec_check(lines.last()) {
            LineCheck::Corrupted(sc) => sc,
            LineCheck::Incomplete(_) => 0,
        }
    }
}

/// The completion scores of the incomplete lines, in order, zero scores
/// dropped.
pub open spec fn incomplete_scores(lines: Seq<Seq<char>>) -> Seq<nat>
    decreases lines.len(),
{
    if lines.len() == 0 {
        Seq::empty()
    } else {
        let rest = incomplete_scores(lines.drop_last());
        match spec_check(lines.last()) {
            LineCheck::Corrupted(_) => rest,
            LineCheck::Incomplete(st) => if score_stack(st) > 0 {
                rest.push(score_stack(st))
            } else {
                rest
            },
        }
    }
}

/// A prefix of the lines never totals more than all of them.
proof fn lemma_corrupted_total_prefix_le(lines: Seq<Seq<char>>, i: int)
    requires
        0 <= i <= lines.len(),
    ensures
        corrupted_total(lines.subrange(0, i)) <= corrupted_total(lines),
    decreases lines.len() - i,
{
    if i < lines.len() {
        assert(lines.subrange(0, i + 1).drop_last() =~= lines.subrange(0, i));
        lemma_corrupted_total_prefix_le(lines, i + 1);
    } else {
        assert(lines.subrange(0, i) =~= lines);
    }
}

/// The incomplete scores of a prefix are a prefix of the whole's.
proof fn lemma_incomplete_scores_prefix(lines: Seq<Seq<char>>, i: int)
    requires
        0 <= i <= lines.len(),
    ensures
        incomplete_scores(lines.subrange(0, i)) == incomplete_scores(lines).subrange(
            0,
            incomplete_scores(lines.subrange(0, i)).len() as int,
        ),
        incomplete_scores(lines.subrange(0, i)).len() <= incomplete_scores(lines).len(),
    decreases lines.len() - i,
{
    if i < lines.len() {
        assert(lines.subrange(0, i + 1).drop_last() =~= lines.subrange(0, i));
        lemma_incomplete_scores_prefix(lines, i + 1);
        let a = incomplete_scores(lines.subrange(0, i));
        let b = incomplete_scores(lines.subrange(0, i + 1));
        let c = incomplete_scores(lines);
        assert(a == b.subrange(0, a.len() as int) || a == b);
        assert(a =~= c.subrange(0, a.len() as int));
    } else {
        assert(lines.subrange(0, i) =~= lines);
        assert(incomplete_scores(lines.subrange(0, i)) =~= incomplete_scores(lines).subrange(
            0,
            incomplete_scores(lines.subrange(0, i)).len() as int,
        ));
    }
}

/// Sum of the corruption scores of the corrupted lines.
pub fn part_one(input: &str) -> (r: Result<String, AocError>)
    ensures
        ({
            let total = corrupted_total(spec_lines(input@));
            match r {
                Ok(s) => total <= usize::MAX && s@ == dec_str(total),
                Err(e) => total > usize::MAX && e matches AocError::Misc(_),
            }
        }),
{
    let cs = chars_of(input);
    let lines = lines_of(&cs);
    let ghost ls = spec_lines(input@);
    let mut total: usize = 0;
    proof {
        assert(ls.subrange(0, 0) =~= Seq::<Seq<char>>::empty());
    }
    let mut i: usize = 0;
    while i < lines.len()
        invariant
            0 <= i <= lines@.len(),
            ls == spec_lines(input@),
            ls == crate::text::views_of(lines@),
            total == corrupted_total(ls.subrange(0, i as int)),
        decreases lines@.len() - i,
    {
        proof {
            assert(ls.subrange(0, i + 1).drop_last() =~= ls.subrange(0, i as int));
            assert(ls.subrange(0, i + 1).last() == ls[i as int]);
            assert(ls[i as int] == lines@[i as int]@);
        }
        let sc = match find_error(&lines[i]) {
            CodeError::Corrupted(sc) => sc,
            CodeError::Incomplete(_) => 0,
        };
        total = match total.checked_add(sc) {
            Some(t) => t,
            None => {
                proof {
                    lemma_corrupted_total_prefix_le(ls, i + 1);
                }
                return Err(
                    AocError::Misc("corruption total does not fit in a machine word".to_owned()),
                );
            },
        };
        i = i + 1;
    }
    proof {
        assert(ls.subrange(0, ls.len() as int) =~= ls);
    }
    Ok(usize_to_string(total))
}

/// The middle completion score of the incomplete lines.
pub fn part_two(input: &str) -> (r: Result<String, AocError>)
    ensures
        ({
            let scores = incomplete_scores(spec_lines(input@));
            match r {
                Ok(s) => {
                    &&& scores.len() >= 1
                    &&& forall|k: int| 0 <= k < scores.len() ==> scores[k] <= usize::MAX
                    &&& s@ == dec_str(
                        sorted_version(scores.map_values(|n: nat| n as usize))[
                            scores.len() as int / 2] as nat,
                    )
                },
                Err(e) => (scores.len() == 0 || exists|k: int|
                    0 <= k < scores.len() && #[trigger] scores[k] > usize::MAX)
                    && e matches AocError::Misc(_),
            }
        }),
{
    let cs = chars_of(input);
    let lines = lines_of(&cs);
    let ghost ls = spec_lines(input@);
    let mut scores: Vec<usize> = Vec::new();
    proof {
        assert(ls.subrange(0, 0) =~= Seq::<Seq<char>>::empty());
        assert(scores@.map_values(|n: usize| n as nat) =~= Seq::<nat>::empty());
    }
    let mut i: usize = 0;
    while i < lines.len()
        invariant
            0 <= i <= lines@.len(),
            ls == spec_lines(input@),
            ls == crate::text::views_of(lines@),
            scores@.map_values(|n: usize| n as nat) == incomplete_scores(ls.subrange(0, i as int)),
        decreases lines@.len() - i,
    {
        proof {
            assert(ls.subrange(0, i + 1).drop_last() =~= ls.subrange(0, i as int));
            assert(ls.subrange(0, i + 1).last() == ls[i as int]);
            assert(ls[i as int] == lines@[i as int]@);
        }
        match find_error(&lines[i]) {
            CodeError::Corrupted(_) => {},
            CodeError::Incomplete(st) => {
                let sc = match score_incomplete_stack(st) {
                    Ok(sc) => sc,
                    Err(e) => {
                        proof {
                            lemma_incomplete_scores_prefix(ls, i + 1);
                            let bad = incomplete_scores(ls.subrange(0, i + 1));
                            assert(incomplete_scores(ls)[bad.len() - 1] == bad[bad.len() - 1]);
                        }
                        return Err(e);
                    },
                };
                if sc > 0 {
                    let ghost prev = scores@;
                    scores.push(sc);
                    proof {
                        assert(scores@.map_values(|n: usize| n as nat) =~= prev.map_values(
                            |n: usize| n as nat,
                        ).push(sc as nat));
                    }
                }
            },
        }
        i = i + 1;
    }
    proof {
        assert(ls.subrange(0, ls.len() as int) =~= ls);
    }
    if scores.len() == 0 {
        return Err(AocError::Misc("no incomplete lines to take the middle score of".to_owned()));
    }
    let ghost collected = scores@;
    sort_usizes(&mut scores);
    let middle = scores[scores.len() / 2];
    proof {
        let sns = incomplete_scores(ls);
        assert(sns.map_values(|n: nat| n as usize) =~= collected);
        assert(forall|k: int|
            0 <= k < sns.len() ==> #[trigger] sns[k] == collected.map_values(|n: usize| n as nat)[k]);
    }
    Ok(usize_to_string(middle))
}

} // verus!
