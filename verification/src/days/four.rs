//! Giant squid bingo: numbers are drawn in order and marked on every board;
//! part one scores the first board to win, part two the last.

use vstd::prelude::*;

use crate::aoc_error::AocError;
use crate::text::{chars_of, dec_str, parse_nums, spec_blocks, spec_parse_nums, spec_split,
    split_blocks, split_on, usize_to_string, views_of};

verus! {

/// One cell of a board: still waiting for its number, or marked.
#[derive(Debug, Copy, Clone)]
pub enum BingoNumber {
    Matched,
    Unmatched(usize),
}

impl BingoNumber {
    /// Whether the cell has been marked.
    pub fn is_match(&self) -> (r: bool)
        ensures
            r == (*self is Matched),
    {
        match self {
            BingoNumber::Matched => true,
            BingoNumber::Unmatched(_) => false,
        }
    }
}

/// A five-by-five board, stored row by row.
#[derive(Debug)]
pub struct Board {
    pub numbers: Vec<BingoNumber>,
}

/// Marking the first waiting cell that holds the drawn number, scanning from
/// the given cell on.
pub open spec fn spec_mark_from(ns: Seq<BingoNumber>, x: usize, i: int) -> Seq<BingoNumber>
    decreases ns.len() - i,
{
    if i < 0 || i >= ns.len() {
        ns
    } else {
        match ns[i] {
            BingoNumber::Unmatched(v) => if v == x {
                ns.update(i, BingoNumber::Matched)
            } else {
                spec_mark_from(ns, x, i + 1)
            },
            BingoNumber::Matched => spec_mark_from(ns, x, i + 1),
        }
    }
}

/// Marking the first waiting cell that holds the drawn number.
pub open spec fn spec_mark(ns: Seq<BingoNumber>, x: usize) -> Seq<BingoNumber> {
    spec_mark_from(ns, x, 0)
}

/// All five cells of a row are marked.
pub open spec fn row_won(ns: Seq<BingoNumber>, r: int) -> bool {
    forall|j: int| 0 <= j < 5 ==> #[trigger] ns[5 * r + j] is Matched
}

/// All five cells of a column are marked.
pub open spec fn col_won(ns: Seq<BingoNumber>, c: int) -> bool {
    forall|i: int| 0 <= i < 5 ==> #[trigger] ns[5 * i + c] is Matched
}

/// The board has a fully marked row or column.
pub open spec fn spec_won(ns: Seq<BingoNumber>) -> bool {
    (exists|r: int| 0 <= r < 5 && row_won(ns, r)) || (exists|c: int| 0 <= c < 5 && col_won(ns, c))
}

/// Sum of the numbers still waiting on the board.
pub open spec fn spec_score(ns: Seq<BingoNumber>) -> nat
    decreases ns.len(),
{
    if ns.len() == 0 {
        0
    } else {
        spec_score(ns.drop_last()) + match ns.last() {
            BingoNumber::Unmatched(v) => v as nat,
            BingoNumber::Matched => 0,
        }
    }
}

/// A prefix never scores more than the whole board.
proof fn lemma_score_prefix_le(ns: Seq<BingoNumber>, i: int)
    requires
        0 <= i <= ns.len(),
    ensures
        spec_score(ns.subrange(0, i)) <= spec_score(ns),
    decreases ns.len() - i,
{
    if i < ns.len() {
        assert(ns.subrange(0, i + 1).drop_last() =~= ns.subrange(0, i));
        lemma_score_prefix_le(ns, i + 1);
    } else {
        assert(ns.subrange(0, i) =~= ns);
    }
}

impl Board {
    /// Exactly five rows of five cells.
    pub open spec fn wf(&self) -> bool {
        self.numbers@.len() == 25
    }

    /// Marks the first waiting cell holding the drawn number, if any.
    pub fn mark(&mut self, number: usize)
        ensures
            final(self).numbers@ == spec_mark(old(self).numbers@, number),
            final(self).numbers@.len() == old(self).numbers@.len(),
    {
        let ghost orig = self.numbers@;
        let mut i: usize = 0;
        while i < self.numbers.len()
            invariant
                0 <= i <= orig.len(),
                orig == old(self).numbers@,
                self.numbers@ == orig,
                spec_mark(orig, number) == spec_mark_from(orig, number, i as int),
            decreases orig.len() - i,
        {
            match self.numbers[i] {
                BingoNumber::Unmatched(x) => {
                    if x == number {
                        self.numbers[i] = BingoNumber::Matched;
                        return ;
                    }
                },
                BingoNumber::Matched => {},
            }
            i = i + 1;
        }
    }

    /// Whether the board has a fully marked row or column.
    pub fn has_won(&self) -> (r: bool)
        requires
            self.wf(),
        ensures
            r == spec_won(self.numbers@),
    {
        let ghost ns = self.numbers@;
        let mut r: usize = 0;
        while r < 5
            invariant
                0 <= r <= 5,
                self.wf(),
                ns == self.numbers@,
                forall|r2: int| 0 <= r2 < r ==> !row_won(ns, r2),
            decreases 5 - r,
        {
            let mut j: usize = 0;
            let mut all = true;
            while j < 5
                invariant
                    0 <= j <= 5,
                    r < 5,
                    self.wf(),
                    ns == self.numbers@,
                    all == (forall|j2: int| 0 <= j2 < j ==> #[trigger] ns[5 * (r as int) + j2]
                        is Matched),
                decreases 5 - j,
            {
                if !self.numbers[5 * r + j].is_match() {
                    all = false;
                }
                j = j + 1;
            }
            if all {
                assert(row_won(ns, r as int));
                return true;
            }
            r = r + 1;
        }
        let mut c: usize = 0;
        while c < 5
            invariant
                0 <= c <= 5,
                self.wf(),
                ns == self.numbers@,
                forall|r2: int| 0 <= r2 < 5 ==> !row_won(ns, r2),
                forall|c2: int| 0 <= c2 < c ==> !col_won(ns, c2),
            decreases 5 - c,
        {
            let mut i: usize = 0;
            let mut all = true;
            while i < 5
                invariant
                    0 <= i <= 5,
                    c < 5,
                    self.wf(),
                    ns == self.numbers@,
                    all == (forall|i2: int| 0 <= i2 < i ==> #[trigger] ns[5 * i2 + c as int]
                        is Matched),
                decreases 5 - i,
            {
                if !self.numbers[5 * i + c].is_match() {
                    all = false;
                }
                i = i + 1;
            }
            if all {
                assert(col_won(ns, c as int));
                return true;
            }
            c = c + 1;
        }
        false
    }

    /// Sum of the numbers still waiting, or a typed failure if it does not
    /// fit in the machine word.
    pub fn score(&self) -> (r: Result<usize, AocError>)
        ensures
            match r {
                Ok(n) => spec_score(self.numbers@) <= usize::MAX && n == spec_score(self.numbers@),
                Err(e) => spec_score(self.numbers@) > usize::MAX && e matches AocError::Misc(_),
            },
    {
        let ghost ns = self.numbers@;
        let mut acc: usize = 0;
        let mut i: usize = 0;
        proof {
            assert(ns.subrange(0, 0) =~= Seq::<BingoNumber>::empty());
        }
        while i < self.numbers.len()
            invariant
                0 <= i <= ns.len(),
                ns == self.numbers@,
                acc == spec_score(ns.subrange(0, i as int)),
            decreases ns.len() - i,
        {
            proof {
                assert(ns.subrange(0, i + 1).drop_last() =~= ns.subrange(0, i as int));
                assert(ns.subrange(0, i + 1).last() == ns[i as int]);
                lemma_score_prefix_le(ns, i + 1);
            }
            let v: usize = match self.numbers[i] {
                BingoNumber::Unmatched(x) => x,
                BingoNumber::Matched => 0,
            };
            acc = match acc.checked_add(v) {
                Some(a) => a,
                None => {
                    return Err(
                        AocError::Misc("board score does not fit in a machine word".to_owned()),
                    );
                },
            };
            i = i + 1;
        }
        proof {
            assert(ns.subrange(0, ns.len() as int) =~= ns);
        }
        Ok(acc)
    }
}

/// The boards' cell sequences.
pub open spec fn boards_model(bs: Seq<Board>) -> Seq<Seq<BingoNumber>> {
    bs.map_values(|b: Board| b.numbers@)
}

/// Every board marked with the drawn number.
pub open spec fn mark_boards(bs: Seq<Seq<BingoNumber>>, x: usize) -> Seq<Seq<BingoNumber>> {
    bs.map_values(|b: Seq<BingoNumber>| spec_mark(b, x))
}

/// Every board not yet won marked with the drawn number.
pub open spec fn mark_fresh_boards(bs: Seq<Seq<BingoNumber>>, x: usize) -> Seq<Seq<BingoNumber>> {
    bs.map_values(
        |b: Seq<BingoNumber>|
            if spec_won(b) {
                b
            } else {
                spec_mark(b, x)
            },
    )
}

/// The first winning board from the given index on.
pub open spec fn first_won(bs: Seq<Seq<BingoNumber>>, j: int) -> Option<int>
    decreases bs.len() - j,
{
    if j < 0 || j >= bs.len() {
        None
    } else if spec_won(bs[j]) {
        Some(j)
    } else {
        first_won(bs, j + 1)
    }
}

/// The last board not yet won, at or below the given index.
pub open spec fn last_fresh(bs: Seq<Seq<BingoNumber>>, j: int) -> Option<int>
    decreases j + 1,
{
    if j < 0 || j >= bs.len() {
        None
    } else if !spec_won(bs[j]) {
        Some(j)
    } else {
        last_fresh(bs, j - 1)
    }
}

/// How a game ends: no board ever wins, or one does — with its score of
/// unmarked numbers and the number that was just drawn.
pub enum GameRes {
    NoWinner,
    Won(nat, nat),
}

/// Part one: draw numbers in order, mark every board, and score the first
/// board that wins times the number just drawn.
pub open spec fn spec_play1(bs: Seq<Seq<BingoNumber>>, nums: Seq<nat>, k: int) -> GameRes
    decreases nums.len() - k,
{
    if k < 0 || k >= nums.len() {
        GameRes::NoWinner
    } else {
        let x = nums[k] as usize;
        let bs2 = mark_boards(bs, x);
        match first_won(bs2, 0) {
            Some(j) => GameRes::Won(spec_score(bs2[j]), nums[k]),
            None => spec_play1(bs2, nums, k + 1),
        }
    }
}

/// Part two: draw numbers in order, mark the boards still in play, and when
/// the last board wins, score it times the number just drawn.
pub open spec fn spec_play2(bs: Seq<Seq<BingoNumber>>, nums: Seq<nat>, k: int) -> GameRes
    decreases nums.len() - k,
{
    if k < 0 || k >= nums.len() {
        GameRes::NoWinner
    } else {
        let x = nums[k] as usize;
        let bs2 = mark_fresh_boards(bs, x);
        if (forall|j: int| 0 <= j < bs2.len() ==> spec_won(#[trigger] bs2[j])) && (exists|j: int|
            0 <= j < bs.len() && !spec_won(#[trigger] bs[j])) {
            match last_fresh(bs, bs.len() - 1) {
                Some(j) => GameRes::Won(spec_score(bs2[j]), nums[k]),
                None => GameRes::NoWinner,
            }
        } else {
            spec_play2(bs2, nums, k + 1)
        }
    }
}

/// Whitespace for token splitting.
pub open spec fn is_ws(c: char) -> bool {
    c == ' ' || c == '\n' || c == '\t' || c == '\r'
}

/// The accumulating scan behind [`spec_tokens`].
pub open spec fn scan_tokens(s: Seq<char>, i: int, cur: Seq<char>, acc: Seq<Seq<char>>) -> Seq<
    Seq<char>,
>
    decreases s.len() - i,
{
    if i < 0 || i >= s.len() {
        if cur.len() > 0 {
            acc.push(cur)
        } else {
            acc
        }
    } else if is_ws(s[i]) {
        if cur.len() > 0 {
            scan_tokens(s, i + 1, Seq::empty(), acc.push(cur))
        } else {
            scan_tokens(s, i + 1, Seq::empty(), acc)
        }
    } else {
        scan_tokens(s, i + 1, cur.push(s[i]), acc)
    }
}

/// The whitespace-separated tokens of a text.
pub open spec fn spec_tokens(s: Seq<char>) -> Seq<Seq<char>> {
    scan_tokens(s, 0, Seq::empty(), Seq::empty())
}

/// Splits a text into whitespace-separated tokens.
fn tokens(v: &Vec<char>) -> (r: Vec<Vec<char>>)
    ensures
        views_of(r@) == spec_tokens(v@),
{
    let mut acc: Vec<Vec<char>> = Vec::new();
    let mut cur: Vec<char> = Vec::new();
    let mut i: usize = 0;
    proof {
        assert(cur@ =~= Seq::<char>::empty());
        assert(views_of(acc@) =~= Seq::<Seq<char>>::empty());
    }
    while i < v.len()
        invariant
            0 <= i <= v@.len(),
            spec_tokens(v@) == scan_tokens(v@, i as int, cur@, views_of(acc@)),
        decreases v@.len() - i,
    {
        let c = v[i];
        let ghost gi = i as int;
        let ghost prev_acc = acc@;
        let ghost prev_cur = cur@;
        if c == ' ' || c == '\n' || c == '\t' || c == '\r' {
            if cur.len() > 0 {
                acc.push(cur);
                cur = Vec::new();
                proof {
                    assert(views_of(acc@) =~= views_of(prev_acc).push(prev_cur));
                    assert(cur@ =~= Seq::<char>::empty());
                    assert(scan_tokens(v@, gi, prev_cur, views_of(prev_acc)) == scan_tokens(
                        v@,
                        gi + 1,
                        cur@,
                        views_of(acc@),
                    ));
                }
            } else {
                proof {
                    assert(prev_cur =~= Seq::<char>::empty());
                    assert(scan_tokens(v@, gi, prev_cur, views_of(prev_acc)) == scan_tokens(
                        v@,
                        gi + 1,
                        prev_cur,
                        views_of(prev_acc),
                    ));
                }
            }
        } else {
            cur.push(c);
            proof {
                assert(cur@ == prev_cur.push(v@[gi]));
                assert(scan_tokens(v@, gi, prev_cur, views_of(prev_acc)) == scan_tokens(
                    v@,
                    gi + 1,
                    cur@,
                    views_of(acc@),
                ));
            }
        }
        i = i + 1;
    }
    if cur.len() > 0 {
        let ghost prev_acc = acc@;
        let ghost prev_cur = cur@;
        acc.push(cur);
        proof {
            assert(views_of(acc@) =~= views_of(prev_acc).push(prev_cur));
        }
    }
    acc
}

/// Parsing one board block: exactly 25 whitespace-separated numbers.
pub open spec fn spec_board(s: Seq<char>) -> Option<Seq<BingoNumber>> {
    match spec_parse_nums(spec_tokens(s)) {
        Err(_) => None,
        Ok(vs) => if vs.len() == 25 {
            Some(vs.map_values(|v: nat| BingoNumber::Unmatched(v as usize)))
        } else {
            None
        },
    }
}

/// Parsing every board block (all blocks after the first).
pub open spec fn spec_board_blocks(blocks: Seq<Seq<char>>) -> Option<Seq<Seq<BingoNumber>>>
    decreases blocks.len(),
{
    if blocks.len() <= 1 {
        Some(Seq::empty())
    } else {
        match spec_board_blocks(blocks.drop_last()) {
            None => None,
            Some(bs) => match spec_board(blocks.last()) {
                None => None,
                Some(b) => Some(bs.push(b)),
            },
        }
    }
}

/// The drawn numbers and the boards.
pub open spec fn spec_input(input: Seq<char>) -> Option<(Seq<nat>, Seq<Seq<BingoNumber>>)> {
    let blocks = spec_blocks(input);
    match spec_parse_nums(spec_split(blocks[0], ',')) {
        Err(_) => None,
        Ok(ns) => match spec_board_blocks(blocks) {
            None => None,
            Some(bs) => Some((ns, bs)),
        },
    }
}

/// Parses one board block.
fn parse_board(block: &Vec<char>) -> (r: Result<Board, AocError>)
    ensures
        match r {
            Ok(b) => spec_board(block@) == Some(b.numbers@) && b.wf(),
            Err(_) => spec_board(block@) is None,
        },
{
    let toks = tokens(block);
    let ns = match parse_nums(&toks) {
        Ok(ns) => ns,
        Err(e) => { return Err(e) },
    };
    if ns.len() != 25 {
        return Err(AocError::Misc("a bingo board needs exactly 25 numbers".to_owned()));
    }
    let ghost m = ns@.map_values(|n: usize| n as nat);
    let mut cells: Vec<BingoNumber> = Vec::new();
    let mut i: usize = 0;
    while i < ns.len()
        invariant
            0 <= i <= ns@.len(),
            m == ns@.map_values(|n: usize| n as nat),
            cells@ == m.subrange(0, i as int).map_values(|v: nat| BingoNumber::Unmatched(
                v as usize,
            )),
        decreases ns@.len() - i,
    {
        cells.push(BingoNumber::Unmatched(ns[i]));
        proof {
            assert(cells@ =~= m.subrange(0, i + 1).map_values(
                |v: nat| BingoNumber::Unmatched(v as usize),
            ));
        }
        i = i + 1;
    }
    proof {
        assert(m.subrange(0, m.len() as int) =~= m);
    }
    Ok(Board { numbers: cells })
}

/// Parses the whole input: drawn numbers, then the boards.
fn parse_input(input: &str) -> (r: Result<(Vec<usize>, Vec<Board>), AocError>)
    ensures
        match r {
            Ok((ns, boards)) => spec_input(input@) == Some(
                (ns@.map_values(|n: usize| n as nat), boards_model(boards@)),
            ) && forall|j: int| 0 <= j < boards@.len() ==> (#[trigger] boards@[j]).wf(),
            Err(_) => spec_input(input@) is None,
        },
{
    let cs = chars_of(input);
    let blocks = split_blocks(&cs);
    proof {
        assert(views_of(blocks@)[0] == blocks@[0]@);
    }
    let fields = split_on(&blocks[0], ',');
    let ns = match parse_nums(&fields) {
        Ok(ns) => ns,
        Err(e) => { return Err(e) },
    };
    let ghost bls = views_of(blocks@);
    let mut boards: Vec<Board> = Vec::new();
    let mut k: usize = 1;
    proof {
        assert(boards_model(boards@) =~= Seq::<Seq<BingoNumber>>::empty());
        assert(spec_board_blocks(bls.subrange(0, 1)) == Some(boards_model(boards@)));
    }
    while k < blocks.len()
        invariant
            1 <= k <= blocks@.len(),
            bls == views_of(blocks@),
            bls == spec_blocks(input@),
            blocks@.len() >= 1,
            spec_board_blocks(bls.subrange(0, k as int)) == Some(boards_model(boards@)),
            forall|j: int| 0 <= j < boards@.len() ==> (#[trigger] boards@[j]).wf(),
        decreases blocks@.len() - k,
    {
        proof {
            assert(bls.subrange(0, k + 1).drop_last() =~= bls.subrange(0, k as int));
            assert(bls.subrange(0, k + 1).last() == bls[k as int]);
            assert(bls[k as int] == blocks@[k as int]@);
        }
        let b = match parse_board(&blocks[k]) {
            Ok(b) => b,
            Err(e) => {
                proof {
                    lemma_boards_propagate(bls, k + 1);
                }
                return Err(e);
            },
        };
        let ghost prev = boards@;
        boards.push(b);
        proof {
            assert(boards_model(boards@) =~= boards_model(prev).push(b.numbers@));
        }
        k = k + 1;
    }
    proof {
        assert(bls.subrange(0, bls.len() as int) =~= bls);
    }
    Ok((ns, boards))
}

/// Once a prefix of the board blocks fails, all of them fail.
proof fn lemma_boards_propagate(bls: Seq<Seq<char>>, k: int)
    requires
        1 <= k <= bls.len(),
        spec_board_blocks(bls.subrange(0, k)) is None,
    ensures
        spec_board_blocks(bls) is None,
    decreases bls.len() - k,
{
    if k < bls.len() {
        assert(bls.subrange(0, k + 1).drop_last() =~= bls.subrange(0, k));
        lemma_boards_propagate(bls, k + 1);
    } else {
        assert(bls.subrange(0, k) =~= bls);
    }
}

/// Swaps a board in or out of the list.
fn swap_board(boards: &mut Vec<Board>, j: usize, b: &mut Board)
    requires
        j < old(boards)@.len(),
    ensures
        final(boards)@ == old(boards)@.update(j as int, *old(b)),
        *final(b) == old(boards)@[j as int],
{
    core::mem::swap(&mut boards[j], b);
}

/// Scanning from a losing prefix starts over further in.
proof fn lemma_first_won_skip(bs: Seq<Seq<BingoNumber>>, j: int)
    requires
        0 <= j <= bs.len(),
        forall|i: int| 0 <= i < j ==> !spec_won(#[trigger] bs[i]),
    ensures
        first_won(bs, 0) == first_won(bs, j),
    decreases j,
{
    if j > 0 {
        lemma_first_won_skip_step(bs, j - 1);
        lemma_first_won_skip(bs, j - 1);
    }
}

/// One step of [`lemma_first_won_skip`].
proof fn lemma_first_won_skip_step(bs: Seq<Seq<BingoNumber>>, j: int)
    requires
        0 <= j < bs.len(),
        !spec_won(bs[j]),
    ensures
        first_won(bs, j) == first_won(bs, j + 1),
{
}

/// A fresh board followed only by finished ones is the last fresh one.
proof fn lemma_last_fresh_char(bs: Seq<Seq<BingoNumber>>, j: int, idx: int)
    requires
        0 <= idx <= j < bs.len(),
        !spec_won(bs[idx]),
        forall|i: int| idx < i <= j ==> spec_won(#[trigger] bs[i]),
    ensures
        last_fresh(bs, j) == Some(idx),
    decreases j,
{
    if j > idx {
        lemma_last_fresh_char(bs, j - 1, idx);
    }
}

/// The first board to win, scored times the number just drawn.
pub fn part_one(input: &str) -> (r: Result<String, AocError>)
    ensures
        ({
            match r {
                Ok(s) => spec_input(input@) matches Some((ns, bs)) && (match spec_play1(bs, ns, 0) {
                    GameRes::Won(sc, x) => sc <= usize::MAX && sc * x <= usize::MAX && s@
                        == dec_str(sc * x),
                    GameRes::NoWinner => s@ == "No winning board"@,
                }),
                Err(_) => spec_input(input@) is None || (spec_input(input@) matches Some((ns, bs))
                    && (spec_play1(bs, ns, 0) matches GameRes::Won(sc, x) && (sc > usize::MAX || sc
                    * x > usize::MAX))),
            }
        }),
{
    let (nums, mut boards) = match parse_input(input) {
        Ok(x) => x,
        Err(e) => { return Err(e) },
    };
    let ghost ns = nums@.map_values(|n: usize| n as nat);
    let ghost bs0 = boards_model(boards@);
    let mut k: usize = 0;
    while k < nums.len()
        invariant
            0 <= k <= nums@.len(),
            ns == nums@.map_values(|n: usize| n as nat),
            spec_input(input@) == Some((ns, bs0)),
            forall|j: int| 0 <= j < boards@.len() ==> (#[trigger] boards@[j]).wf(),
            spec_play1(bs0, ns, 0) == spec_play1(boards_model(boards@), ns, k as int),
        decreases nums@.len() - k,
    {
        let x = nums[k];
        let ghost bsk = boards_model(boards@);
        let ghost bs2 = mark_boards(bsk, x);
        let mut j: usize = 0;
        while j < boards.len()
            invariant
                0 <= j <= boards@.len(),
                k < nums@.len(),
                x == nums@[k as int],
                ns == nums@.map_values(|n: usize| n as nat),
                spec_input(input@) == Some((ns, bs0)),
                boards@.len() == bsk.len(),
                bs2 == mark_boards(bsk, x),
                spec_play1(bs0, ns, 0) == spec_play1(bsk, ns, k as int),
                forall|i: int| 0 <= i < boards@.len() ==> (#[trigger] boards@[i]).wf(),
                forall|i: int| 0 <= i < j ==> (#[trigger] boards@[i]).numbers@ == bs2[i],
                forall|i: int| 0 <= i < j ==> !spec_won(#[trigger] bs2[i]),
                forall|i: int| j <= i < boards@.len() ==> (#[trigger] boards@[i]).numbers@ == bsk[i],
            decreases boards@.len() - j,
        {
            let mut b = Board { numbers: Vec::new() };
            swap_board(&mut boards, j, &mut b);
            b.mark(x);
            proof {
                assert(bs2[j as int] == spec_mark(bsk[j as int], x));
            }
            let won = b.has_won();
            if won {
                let score = match b.score() {
                    Ok(sc) => sc,
                    Err(e) => {
                        proof {
                            lemma_first_won_skip(bs2, j as int);
                        }
                        return Err(e);
                    },
                };
                proof {
                    lemma_first_won_skip(bs2, j as int);
                }
                let answer = match score.checked_mul(x) {
                    Some(a) => a,
                    None => {
                        return Err(
                            AocError::Misc("winning score does not fit in a machine word".to_owned()),
                        );
                    },
                };
                return Ok(usize_to_string(answer));
            }
            swap_board(&mut boards, j, &mut b);
            j = j + 1;
        }
        proof {
            assert(boards_model(boards@) =~= bs2);
            lemma_first_won_skip(bs2, bs2.len() as int);
        }
        k = k + 1;
    }
    Ok("No winning board".to_owned())
}

/// The last board to win, scored times the number just drawn.
pub fn part_two(input: &str) -> (r: Result<String, AocError>)
    ensures
        ({
            match r {
                Ok(s) => spec_input(input@) matches Some((ns, bs)) && (match spec_play2(bs, ns, 0) {
                    GameRes::Won(sc, x) => sc <= usize::MAX && sc * x <= usize::MAX && s@
                        == dec_str(sc * x),
                    GameRes::NoWinner => s@ == "Not all boards win"@,
                }),
                Err(_) => spec_input(input@) is None || (spec_input(input@) matches Some((ns, bs))
                    && (spec_play2(bs, ns, 0) matches GameRes::Won(sc, x) && (sc > usize::MAX || sc
                    * x > usize::MAX))),
            }
        }),
{
    let (nums, mut boards) = match parse_input(input) {
        Ok(x) => x,
        Err(e) => { return Err(e) },
    };
    let ghost ns = nums@.map_values(|n: usize| n as nat);
    let ghost bs0 = boards_model(boards@);
    let mut k: usize = 0;
    while k < nums.len()
        invariant
            0 <= k <= nums@.len(),
            ns == nums@.map_values(|n: usize| n as nat),
            spec_input(input@) == Some((ns, bs0)),
            forall|j: int| 0 <= j < boards@.len() ==> (#[trigger] boards@[j]).wf(),
            spec_play2(bs0, ns, 0) == spec_play2(boards_model(boards@), ns, k as int),
        decreases nums@.len() - k,
    {
        let x = nums[k];
        let ghost bsk = boards_model(boards@);
        let ghost bs2 = mark_fresh_boards(bsk, x);
        let mut all_won = true;
        let mut fresh: Option<usize> = None;
        let mut j: usize = 0;
        while j < boards.len()
            invariant
                0 <= j <= boards@.len(),
                k < nums@.len(),
                x == nums@[k as int],
                ns == nums@.map_values(|n: usize| n as nat),
                spec_input(input@) == Some((ns, bs0)),
                boards@.len() == bsk.len(),
                bs2 == mark_fresh_boards(bsk, x),
                spec_play2(bs0, ns, 0) == spec_play2(bsk, ns, k as int),
                forall|i: int| 0 <= i < boards@.len() ==> (#[trigger] boards@[i]).wf(),
                forall|i: int| 0 <= i < j ==> (#[trigger] boards@[i]).numbers@ == bs2[i],
                forall|i: int| j <= i < boards@.len() ==> (#[trigger] boards@[i]).numbers@ == bsk[i],
                all_won == (forall|i: int| 0 <= i < j ==> spec_won(#[trigger] bs2[i])),
                match fresh {
                    None => forall|i: int| 0 <= i < j ==> spec_won(#[trigger] bsk[i]),
                    Some(idx) => idx < j && !spec_won(bsk[idx as int]) && (forall|i: int|
                        idx < i < j ==> spec_won(#[trigger] bsk[i])),
                },
            decreases boards@.len() - j,
        {
            let mut b = Board { numbers: Vec::new() };
            swap_board(&mut boards, j, &mut b);
            let was_won = b.has_won();
            if !was_won {
                b.mark(x);
                fresh = Some(j);
            }
            proof {
                if spec_won(bsk[j as int]) {
                    assert(bs2[j as int] == bsk[j as int]);
                } else {
                    assert(bs2[j as int] == spec_mark(bsk[j as int], x));
                }
            }
            let now_won = b.has_won();
            if !now_won {
                all_won = false;
            }
            swap_board(&mut boards, j, &mut b);
            j = j + 1;
        }
        proof {
            assert(boards_model(boards@) =~= bs2);
        }
        if all_won {
            match fresh {
                Some(idx) => {
                    proof {
                        lemma_last_fresh_char(bsk, bsk.len() - 1, idx as int);
                    }
                    let mut b = Board { numbers: Vec::new() };
                    swap_board(&mut boards, idx, &mut b);
                    let score = match b.score() {
                        Ok(sc) => sc,
                        Err(e) => { return Err(e) },
                    };
                    let answer = match score.checked_mul(x) {
                        Some(a) => a,
                        None => {
                            return Err(
                                AocError::Misc(
                                    "winning score does not fit in a machine word".to_owned(),
                                ),
                            );
                        },
                    };
                    return Ok(usize_to_string(answer));
                },
                None => {},
            }
        }
        k = k + 1;
    }
    Ok("Not all boards win".to_owned())
}

} // verus!
