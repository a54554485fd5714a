//! Shared helpers for reading puzzle text: character extraction, line and
//! field splitting, decimal parsing, and decimal rendering.  Every solver
//! works over `Vec<char>` obtained by [`chars_of`], so all parsing here is
//! specified over `Seq<char>`.

use vstd::prelude::*;

use crate::aoc_error::AocError;
use vstd::multiset::Multiset;
use vstd::std_specs::iter::IteratorSpec;

verus! {

/// One decimal digit, `'0'` through `'9'`.
pub open spec fn is_dec_digit(c: char) -> bool {
    48 <= c as u32 <= 57
}

/// Numeric value of a decimal digit (0 for characters below `'0'`).
pub open spec fn dec_digit_val(c: char) -> nat {
    if 48 <= c as u32 {
        (c as u32 - 48) as nat
    } else {
        0
    }
}

/// A non-empty string of decimal digits.
pub open spec fn is_num_str(s: Seq<char>) -> bool {
    s.len() > 0 && forall|i: int| 0 <= i < s.len() ==> is_dec_digit(s[i])
}

/// The number denoted by a digit string, most significant digit first.
pub open spec fn dec_value(s: Seq<char>) -> nat
    decreases s.len(),
{
    if s.len() == 0 {
        0
    } else {
        dec_value(s.drop_last()) * 10 + dec_digit_val(s.last())
    }
}

/// Extending a digit string can only increase the number it denotes.
proof fn lemma_dec_value_prefix_le(s: Seq<char>, i: int)
    requires
        0 <= i <= s.len(),
    ensures
        dec_value(s.subrange(0, i)) <= dec_value(s),
    decreases s.len() - i,
{
    if i < s.len() {
        assert(s.subrange(0, i + 1).drop_last() =~= s.subrange(0, i));
        assert(dec_value(s.subrange(0, i + 1)) == dec_value(s.subrange(0, i)) * 10
            + dec_digit_val(s.subrange(0, i + 1).last()));
        lemma_dec_value_prefix_le(s, i + 1);
    } else {
        assert(s.subrange(0, i) =~= s);
    }
}

/// The character for one decimal digit value.
pub open spec fn digit_char(d: nat) -> char {
    if d == 0 {
        '0'
    } else if d == 1 {
        '1'
    } else if d == 2 {
        '2'
    } else if d == 3 {
        '3'
    } else if d == 4 {
        '4'
    } else if d == 5 {
        '5'
    } else if d == 6 {
        '6'
    } else if d == 7 {
        '7'
    } else if d == 8 {
        '8'
    } else {
        '9'
    }
}

/// The decimal rendering of a number, without leading zeros (except `"0"`).
pub open spec fn dec_str(n: nat) -> Seq<char>
    decreases n,
{
    if n < 10 {
        seq![digit_char(n)]
    } else {
        dec_str(n / 10).push(digit_char(n % 10))
    }
}

/// The digit characters of a byte sequence, last byte first.
pub open spec fn rev_digit_chars(ds: Seq<u8>) -> Seq<char>
    decreases ds.len(),
{
    if ds.len() == 0 {
        Seq::empty()
    } else {
        seq![digit_char(ds.last() as nat)] + rev_digit_chars(ds.drop_last())
    }
}

/// Appends the character for one digit value.
fn push_digit(out: &mut String, d: u8)
    requires
        d < 10,
    ensures
        final(out)@ == old(out)@.push(digit_char(d as nat)),
{
    let s: &str = if d == 0 {
        "0"
    } else if d == 1 {
        "1"
    } else if d == 2 {
        "2"
    } else if d == 3 {
        "3"
    } else if d == 4 {
        "4"
    } else if d == 5 {
        "5"
    } else if d == 6 {
        "6"
    } else if d == 7 {
        "7"
    } else if d == 8 {
        "8"
    } else {
        "9"
    };
    proof {
        reveal_strlit("0");
        reveal_strlit("1");
        reveal_strlit("2");
        reveal_strlit("3");
        reveal_strlit("4");
        reveal_strlit("5");
        reveal_strlit("6");
        reveal_strlit("7");
        reveal_strlit("8");
        reveal_strlit("9");
    }
    assert(s@ =~= seq![digit_char(d as nat)]);
    out.append(s);
    assert(out@ =~= old(out)@.push(digit_char(d as nat)));
}

/// Renders a number in decimal.
pub fn u64_to_string(n: u64) -> (r: String)
    ensures
        r@ == dec_str(n as nat),
{
    let mut digits: Vec<u8> = Vec::new();
    let mut m: u64 = n;
    while m >= 10
        invariant
            dec_str(n as nat) == dec_str(m as nat) + rev_digit_chars(digits@),
            forall|k: int| 0 <= k < digits@.len() ==> digits@[k] < 10,
        decreases m,
    {
        let d = (m % 10) as u8;
        proof {
            let pushed = digits@.push(d);
            assert(pushed.drop_last() =~= digits@);
            assert(dec_str(m as nat) == dec_str((m as nat) / 10).push(digit_char((m as nat) % 10)));
            assert(dec_str((m as nat) / 10) + rev_digit_chars(pushed) =~= dec_str(m as nat)
                + rev_digit_chars(digits@));
        }
        digits.push(d);
        m = m / 10;
    }
    let mut out = String::new();
    push_digit(&mut out, m as u8);
    proof {
        assert(dec_str(m as nat) =~= Seq::empty().push(digit_char(m as nat)));
    }
    while digits.len() > 0
        invariant
            dec_str(n as nat) == out@ + rev_digit_chars(digits@),
            forall|k: int| 0 <= k < digits@.len() ==> digits@[k] < 10,
        decreases digits@.len(),
    {
        let ghost before = digits@;
        let ghost prev = out@;
        let d = match digits.pop() {
            Some(d) => d,
            None => 0,  // unreachable: the loop condition keeps the vector non-empty
        };
        push_digit(&mut out, d);
        proof {
            assert(digits@ =~= before.drop_last());
            assert(rev_digit_chars(before) == seq![digit_char(d as nat)] + rev_digit_chars(
                digits@,
            ));
            assert(prev + (seq![digit_char(d as nat)] + rev_digit_chars(digits@)) =~= prev.push(
                digit_char(d as nat),
            ) + rev_digit_chars(digits@));
        }
    }
    proof {
        assert(dec_str(n as nat) =~= out@);
    }
    out
}

/// Renders a machine word in decimal.
pub fn usize_to_string(n: usize) -> (r: String)
    ensures
        r@ == dec_str(n as nat),
{
    u64_to_string(n as u64)
}

/// The characters of a string, in order.
pub fn chars_of(s: &str) -> (r: Vec<char>)
    ensures
        r@ == s@,
{
    let mut it = s.chars();
    let mut r: Vec<char> = Vec::new();
    loop
        invariant
            r@ + it.remaining() == s@,
        ensures
            r@ == s@,
        decreases s@.len() - r@.len(),
    {
        match it.next() {
            Some(c) => {
                r.push(c);
            },
            None => {
                assert(r@ =~= s@);
                break ;
            },
        }
    }
    r
}

/// Parses a whole field as a decimal `usize`.  Succeeds exactly on non-empty
/// all-digit fields whose value fits in the machine word.
pub fn parse_usize(v: &Vec<char>) -> (r: Result<usize, AocError>)
    ensures
        match r {
            Ok(n) => is_num_str(v@) && dec_value(v@) <= usize::MAX && n == dec_value(v@),
            Err(e) => e == AocError::BadInt && !(is_num_str(v@) && dec_value(v@) <= usize::MAX),
        },
{
    if v.len() == 0 {
        return Err(AocError::BadInt);
    }
    let mut acc: usize = 0;
    let mut i: usize = 0;
    while i < v.len()
        invariant
            0 <= i <= v.len(),
            v.len() > 0,
            forall|k: int| 0 <= k < i ==> is_dec_digit(v@[k]),
            acc == dec_value(v@.subrange(0, i as int)),
        decreases v.len() - i,
    {
        let c = v[i];
        let u = c as u32;
        if u < 48 || u > 57 {
            return Err(AocError::BadInt);
        }
        let d = (u - 48) as usize;
        assert(v@.subrange(0, i + 1).drop_last() =~= v@.subrange(0, i as int));
        let shifted = match acc.checked_mul(10) {
            Some(t) => t,
            None => {
                proof {
                    lemma_dec_value_prefix_le(v@, i + 1);
                }
                return Err(AocError::BadInt);
            },
        };
        acc = match shifted.checked_add(d) {
            Some(t) => t,
            None => {
                proof {
                    lemma_dec_value_prefix_le(v@, i + 1);
                }
                return Err(AocError::BadInt);
            },
        };
        i = i + 1;
    }
    assert(v@.subrange(0, v@.len() as int) =~= v@);
    Ok(acc)
}

/// The views of a sequence of character vectors.
pub open spec fn views_of(vs: Seq<Vec<char>>) -> Seq<Seq<char>> {
    vs.map_values(|v: Vec<char>| v@)
}

/// Splitting on a separator: the segments between separator characters, in
/// order.  Splitting the empty string gives one empty segment.
pub open spec fn spec_split(s: Seq<char>, sep: char) -> Seq<Seq<char>>
    decreases s.len(),
{
    if s.len() == 0 {
        seq![Seq::empty()]
    } else {
        let r = spec_split(s.drop_last(), sep);
        if s.last() == sep {
            r.push(Seq::empty())
        } else {
            r.update(r.len() - 1, r.last().push(s.last()))
        }
    }
}

/// Drops one trailing carriage return, as line splitting does.
pub open spec fn strip_cr(t: Seq<char>) -> Seq<char> {
    if t.len() > 0 && t.last() == '\r' {
        t.drop_last()
    } else {
        t
    }
}

/// The lines of a text: newline-separated segments, without a final empty
/// segment, each without a trailing carriage return.
pub open spec fn spec_lines(s: Seq<char>) -> Seq<Seq<char>> {
    let parts = spec_split(s, '\n');
    let trimmed = if parts.last().len() == 0 {
        parts.drop_last()
    } else {
        parts
    };
    trimmed.map_values(|t: Seq<char>| strip_cr(t))
}

/// Splits on a separator character.
pub fn split_on(v: &Vec<char>, sep: char) -> (r: Vec<Vec<char>>)
    ensures
        views_of(r@) == spec_split(v@, sep),
        r@.len() >= 1,
{
    let mut segs: Vec<Vec<char>> = Vec::new();
    let mut cur: Vec<char> = Vec::new();
    let mut i: usize = 0;
    while i < v.len()
        invariant
            0 <= i <= v@.len(),
            views_of(segs@).push(cur@) == spec_split(v@.subrange(0, i as int), sep),
        decreases v@.len() - i,
    {
        let c = v[i];
        proof {
            assert(v@.subrange(0, i + 1).drop_last() =~= v@.subrange(0, i as int));
            assert(v@.subrange(0, i + 1).last() == v@[i as int]);
        }
        if c == sep {
            let ghost prev_segs = segs@;
            let ghost prev_cur = cur@;
            segs.push(cur);
            cur = Vec::new();
            proof {
                assert(views_of(segs@).push(cur@) =~= views_of(prev_segs).push(prev_cur).push(
                    Seq::empty(),
                ));
            }
        } else {
            let ghost prev_segs = segs@;
            let ghost prev_cur = cur@;
            cur.push(c);
            proof {
                let r = views_of(prev_segs).push(prev_cur);
                assert(views_of(segs@).push(cur@) =~= r.update(r.len() - 1, r.last().push(c)));
            }
        }
        i = i + 1;
    }
    proof {
        assert(v@.subrange(0, v@.len() as int) =~= v@);
    }
    segs.push(cur);
    proof {
        assert(views_of(segs@) =~= spec_split(v@, sep));
    }
    segs
}

/// Splits a text into lines, as [`spec_lines`] describes.
pub fn lines_of(v: &Vec<char>) -> (r: Vec<Vec<char>>)
    ensures
        views_of(r@) == spec_lines(v@),
{
    let mut parts = split_on(v, '\n');
    let ghost all = views_of(parts@);
    if parts[parts.len() - 1].len() == 0 {
        parts.pop();
        proof {
            assert(views_of(parts@) =~= all.drop_last());
        }
    }
    let ghost trimmed = views_of(parts@);
    let mut out: Vec<Vec<char>> = Vec::new();
    let mut i: usize = 0;
    while i < parts.len()
        invariant
            0 <= i <= parts@.len(),
            trimmed == views_of(parts@),
            out@.len() == i,
            forall|k: int| 0 <= k < i ==> #[trigger] out@[k]@ == strip_cr(trimmed[k]),
        decreases parts@.len() - i,
    {
        let seg = &parts[i];
        let mut t: Vec<char> = Vec::new();
        let mut j: usize = 0;
        while j < seg.len()
            invariant
                0 <= j <= seg@.len(),
                t@ == seg@.subrange(0, j as int),
            decreases seg@.len() - j,
        {
            t.push(seg[j]);
            proof {
                assert(t@ =~= seg@.subrange(0, j + 1));
            }
            j = j + 1;
        }
        proof {
            assert(t@ =~= seg@);
        }
        if t.len() > 0 && t[t.len() - 1] == '\r' {
            t.pop();
        }
        proof {
            assert(trimmed[i as int] == parts@[i as int]@);
            assert(t@ == strip_cr(trimmed[i as int]));
        }
        out.push(t);
        i = i + 1;
    }
    proof {
        assert(views_of(out@) =~= spec_lines(v@));
    }
    out
}

/// Parsing every field of a list as a decimal number; the first failure
/// wins.
pub open spec fn spec_parse_nums(fields: Seq<Seq<char>>) -> Result<Seq<nat>, AocError>
    decreases fields.len(),
{
    if fields.len() == 0 {
        Ok(Seq::empty())
    } else {
        match spec_parse_nums(fields.drop_last()) {
            Err(e) => Err(e),
            Ok(vs) => {
                let f = fields.last();
                if is_num_str(f) && dec_value(f) <= usize::MAX {
                    Ok(vs.push(dec_value(f)))
                } else {
                    Err(AocError::BadInt)
                }
            },
        }
    }
}

/// Unfolds [`spec_parse_nums`] one prefix step at a time.
proof fn lemma_parse_nums_step(fs: Seq<Seq<char>>, i: int)
    requires
        0 <= i < fs.len(),
    ensures
        spec_parse_nums(fs.subrange(0, i + 1)) == match spec_parse_nums(fs.subrange(0, i)) {
            Err(e) => Err(e),
            Ok(vs) => {
                if is_num_str(fs[i]) && dec_value(fs[i]) <= usize::MAX {
                    Ok(vs.push(dec_value(fs[i])))
                } else {
                    Err(AocError::BadInt)
                }
            },
        },
{
    assert(fs.subrange(0, i + 1).drop_last() =~= fs.subrange(0, i));
    assert(fs.subrange(0, i + 1).last() == fs[i]);
}

/// Once a prefix fails to parse, the whole list fails with the same error.
proof fn lemma_parse_nums_propagate(fs: Seq<Seq<char>>, i: int, e: AocError)
    requires
        0 <= i <= fs.len(),
        spec_parse_nums(fs.subrange(0, i)) == Err::<Seq<nat>, AocError>(e),
    ensures
        spec_parse_nums(fs) == Err::<Seq<nat>, AocError>(e),
    decreases fs.len() - i,
{
    if i < fs.len() {
        lemma_parse_nums_step(fs, i);
        lemma_parse_nums_propagate(fs, i + 1, e);
    } else {
        assert(fs.subrange(0, i) =~= fs);
    }
}

/// Parses every field as a decimal `usize`.
pub fn parse_nums(fields: &Vec<Vec<char>>) -> (r: Result<Vec<usize>, AocError>)
    ensures
        match r {
            Ok(ns) => spec_parse_nums(views_of(fields@)) == Ok::<Seq<nat>, AocError>(
                ns@.map_values(|n: usize| n as nat),
            ) && ns@.len() == fields@.len(),
            Err(e) => spec_parse_nums(views_of(fields@)) == Err::<Seq<nat>, AocError>(e),
        },
{
    let ghost fs = views_of(fields@);
    let mut ns: Vec<usize> = Vec::new();
    proof {
        assert(fs.subrange(0, 0) =~= Seq::<Seq<char>>::empty());
        assert(ns@.map_values(|n: usize| n as nat) =~= Seq::<nat>::empty());
    }
    let mut i: usize = 0;
    while i < fields.len()
        invariant
            0 <= i <= fields@.len(),
            fs == views_of(fields@),
            ns@.len() == i,
            spec_parse_nums(fs.subrange(0, i as int)) == Ok::<Seq<nat>, AocError>(
                ns@.map_values(|n: usize| n as nat),
            ),
        decreases fields@.len() - i,
    {
        proof {
            lemma_parse_nums_step(fs, i as int);
        }
        let n = match parse_usize(&fields[i]) {
            Ok(n) => n,
            Err(e) => {
                proof {
                    lemma_parse_nums_propagate(fs, i + 1, e);
                }
                return Err(e);
            },
        };
        let ghost prev = ns@;
        ns.push(n);
        proof {
            assert(ns@.map_values(|n: usize| n as nat) =~= prev.map_values(|n: usize| n as nat)
                .push(n as nat));
        }
        i = i + 1;
    }
    proof {
        assert(fs.subrange(0, fs.len() as int) =~= fs);
    }
    Ok(ns)
}

/// Non-decreasing order.
pub open spec fn sorted_usize(s: Seq<usize>) -> bool {
    forall|i: int, j: int| 0 <= i < j < s.len() ==> s[i] <= s[j]
}

/// The sequence rearranged into non-decreasing order.
pub open spec fn sorted_version(s: Seq<usize>) -> Seq<usize> {
    s.sort_by(|x: usize, y: usize| x <= y)
}

/// Two sorted sequences holding the same values in the same quantities are
/// the same sequence.
pub proof fn lemma_sorted_unique(a: Seq<usize>, b: Seq<usize>)
    requires
        sorted_usize(a),
        sorted_usize(b),
        a.to_multiset() == b.to_multiset(),
    ensures
        a == b,
    decreases a.len(),
{
    a.to_multiset_ensures();
    b.to_multiset_ensures();
    assert(a.len() == a.to_multiset().len());
    assert(b.len() == b.to_multiset().len());
    if a.len() == 0 {
        assert(a =~= b);
    } else {
        let x = a.last();
        let y = b.last();
        assert(a.contains(x));
        assert(b.to_multiset().count(x) > 0);
        assert(b.contains(x));
        assert(a.to_multiset().count(y) > 0);
        assert(a.contains(y));
        assert(x <= y) by {
            let j = choose|j: int| 0 <= j < b.len() && b[j] == x;
            assert(b[j] <= b[b.len() - 1]);
        }
        assert(y <= x) by {
            let j = choose|j: int| 0 <= j < a.len() && a[j] == y;
            assert(a[j] <= a[a.len() - 1]);
        }
        assert(a.remove(a.len() - 1) =~= a.drop_last());
        assert(b.remove(b.len() - 1) =~= b.drop_last());
        assert(a.drop_last().to_multiset() =~= b.drop_last().to_multiset());
        lemma_sorted_unique(a.drop_last(), b.drop_last());
        assert forall|k: int| 0 <= k < a.len() implies a[k] == b[k] by {
            if k < a.len() - 1 {
                assert(a[k] == a.drop_last()[k]);
                assert(b[k] == b.drop_last()[k]);
            }
        }
        assert(a =~= b);
    }
}

/// Sorts in place into non-decreasing order.
pub fn sort_usizes(v: &mut Vec<usize>)
    ensures
        final(v)@ == sorted_version(old(v)@),
        final(v)@.len() == old(v)@.len(),
        sorted_usize(final(v)@),
{
    let ghost orig = v@;
    if v.len() >= 2 {
        let mut i: usize = 1;
        while i < v.len()
            invariant
                1 <= i <= v@.len(),
                v@.len() == orig.len(),
                v@.to_multiset() == orig.to_multiset(),
                sorted_usize(v@.subrange(0, i as int)),
            decreases v@.len() - i,
        {
            let x = v[i];
            let mut pos: usize = i;
            while pos > 0 && v[pos - 1] > x
                invariant
                    0 <= pos <= i < v@.len(),
                    forall|k: int| pos <= k < i ==> v@[k] > x,
                    sorted_usize(v@.subrange(0, i as int)),
                    x == v@[i as int],
                decreases pos,
            {
                pos = pos - 1;
            }
            let ghost before = v@;
            let x = v.remove(i);
            let ghost mid = v@;
            v.insert(pos, x);
            proof {
                before.to_multiset_ensures();
                before.remove_ensures(i as int);
                mid.insert_ensures(pos as int, x);
                assert(mid == before.remove(i as int));
                assert(mid.to_multiset() =~= before.to_multiset().remove(x));
                assert(v@ == mid.insert(pos as int, x));
                lemma_to_multiset_insert(mid, pos as int, x);
                assert(before.to_multiset().count(x) > 0);
                assert(v@.to_multiset() =~= before.to_multiset());
                assert forall|a: int, b: int| 0 <= a < b < i + 1 implies #[trigger] v@.subrange(
                    0,
                    i + 1,
                )[a] <= #[trigger] v@.subrange(0, i + 1)[b] by {
                    assert(forall|k: int| 0 <= k < pos ==> #[trigger] v@[k] == before[k]);
                    assert(v@[pos as int] == x);
                    assert(forall|k: int|
                        pos < k <= i ==> #[trigger] v@[k] == mid[k - 1] && mid[k - 1] == before[k
                            - 1]);
                    assert forall|a2: int, b2: int| 0 <= a2 < b2 < i implies #[trigger] before[a2]
                        <= #[trigger] before[b2] by {
                        assert(before.subrange(0, i as int)[a2] == before[a2]);
                        assert(before.subrange(0, i as int)[b2] == before[b2]);
                        assert(before.subrange(0, i as int)[a2] <= before.subrange(0, i as int)[
                            b2
                        ]);
                    }
                    assert(pos == 0 || before[pos - 1] <= x);
                }
                assert(sorted_usize(v@.subrange(0, i + 1)));
            }
            i = i + 1;
        }
    }
    proof {
        assert(v@.subrange(0, v@.len() as int) =~= v@);
        assert(sorted_usize(v@));
        let leq = |x: usize, y: usize| x <= y;
        assert(vstd::relations::total_ordering(leq)) by {
            assert(forall|x: usize| #[trigger] leq(x, x));
        }
        orig.lemma_sort_by_ensures(leq);
        let sv = orig.sort_by(leq);
        assert forall|i: int, j: int| 0 <= i < j < sv.len() implies sv[i] <= sv[j] by {
            assert(leq(sv[i], sv[j]));
        }
        lemma_sorted_unique(v@, sv);
    }
}

/// Inserting into a sequence inserts into its multiset.
proof fn lemma_to_multiset_insert(s: Seq<usize>, pos: int, x: usize)
    requires
        0 <= pos <= s.len(),
    ensures
        s.insert(pos, x).to_multiset() == s.to_multiset().insert(x),
{
    let a = s.subrange(0, pos);
    let b = s.subrange(pos, s.len() as int);
    assert(s.insert(pos, x) =~= a + (seq![x] + b));
    assert(s =~= a + b);
    vstd::seq_lib::lemma_multiset_commutative(a, seq![x] + b);
    vstd::seq_lib::lemma_multiset_commutative(seq![x], b);
    vstd::seq_lib::lemma_multiset_commutative(a, b);
    let emp = Seq::<usize>::empty();
    emp.to_multiset_ensures();
    assert(emp.to_multiset() =~= Multiset::<usize>::empty()) by {
        assert(forall|y: usize| !emp.contains(y));
        assert(forall|y: usize| #[trigger] emp.to_multiset().count(y) == 0);
    }
    assert(seq![x] =~= emp.push(x));
    assert(seq![x].to_multiset() =~= Multiset::<usize>::empty().insert(x));
    assert(s.insert(pos, x).to_multiset() =~= s.to_multiset().insert(x)) by {
        broadcast use vstd::multiset::group_multiset_axioms;

        assert(s.insert(pos, x).to_multiset() == a.to_multiset().add(
            Multiset::<usize>::empty().insert(x).add(b.to_multiset()),
        ));
    }
}

/// Sum of a sequence of counts.
pub open spec fn nat_sum(s: Seq<nat>) -> nat
    decreases s.len(),
{
    if s.len() == 0 {
        0
    } else {
        nat_sum(s.drop_last()) + s.last()
    }
}

/// `nat_sum` of a non-empty sequence peels off the head.
pub proof fn lemma_nat_sum_cons(x: nat, s: Seq<nat>)
    ensures
        nat_sum(seq![x] + s) == x + nat_sum(s),
    decreases s.len(),
{
    assert(nat_sum(Seq::<nat>::empty()) == 0);
    if s.len() == 0 {
        assert(seq![x] + s =~= seq![x]);
        assert(seq![x].drop_last() =~= Seq::<nat>::empty());
        assert(nat_sum(seq![x] + s) == nat_sum((seq![x] + s).drop_last()) + (seq![x] + s).last());
    } else {
        assert((seq![x] + s).drop_last() =~= seq![x] + s.drop_last());
        assert((seq![x] + s).last() == s.last());
        lemma_nat_sum_cons(x, s.drop_last());
    }
}

/// Copies a range of characters.
pub fn copy_range(v: &Vec<char>, from: usize, to: usize) -> (r: Vec<char>)
    requires
        from <= to <= v@.len(),
    ensures
        r@ == v@.subrange(from as int, to as int),
{
    let mut r: Vec<char> = Vec::new();
    let mut i: usize = from;
    while i < to
        invariant
            from <= i <= to <= v@.len(),
            r@ == v@.subrange(from as int, i as int),
        decreases to - i,
    {
        r.push(v[i]);
        proof {
            assert(r@ =~= v@.subrange(from as int, i + 1));
        }
        i = i + 1;
    }
    r
}

/// Splitting into blocks at blank lines: the accumulating scan over the
/// text, two consecutive newlines ending a block.
pub open spec fn scan_blocks(s: Seq<char>, i: int, cur: Seq<char>, acc: Seq<Seq<char>>) -> Seq<
    Seq<char>,
>
    decreases s.len() - i,
{
    if i < 0 || i >= s.len() {
        acc.push(cur)
    } else if i + 1 < s.len() && s[i] == '\n' && s[i + 1] == '\n' {
        scan_blocks(s, i + 2, Seq::empty(), acc.push(cur))
    } else {
        scan_blocks(s, i + 1, cur.push(s[i]), acc)
    }
}

/// The blocks of a text, separated by blank lines.
pub open spec fn spec_blocks(s: Seq<char>) -> Seq<Seq<char>> {
    scan_blocks(s, 0, Seq::empty(), Seq::empty())
}

/// Splits a text into blocks at blank lines.
pub fn split_blocks(v: &Vec<char>) -> (r: Vec<Vec<char>>)
    ensures
        views_of(r@) == spec_blocks(v@),
        r@.len() >= 1,
{
    let mut acc: Vec<Vec<char>> = Vec::new();
    let mut cur: Vec<char> = Vec::new();
    let mut i: usize = 0;
    proof {
        assert(cur@ =~= Seq::<char>::empty());
        assert(views_of(acc@) =~= Seq::<Seq<char>>::empty());
    }
    while i < v.len()
        invariant
            0 <= i <= v@.len(),
            spec_blocks(v@) == scan_blocks(v@, i as int, cur@, views_of(acc@)),
        decreases v@.len() - i,
    {
        let c = v[i];
        if c == '\n' && i + 1 < v.len() && v[i + 1] == '\n' {
            let ghost prev_acc = acc@;
            let ghost prev_cur = cur@;
            acc.push(cur);
            cur = Vec::new();
            proof {
                assert(views_of(acc@) =~= views_of(prev_acc).push(prev_cur));
                assert(cur@ =~= Seq::<char>::empty());
            }
            i = i + 2;
        } else {
            cur.push(c);
            i = i + 1;
        }
    }
    let ghost prev_acc = acc@;
    let ghost prev_cur = cur@;
    acc.push(cur);
    proof {
        assert(views_of(acc@) =~= views_of(prev_acc).push(prev_cur));
    }
    acc
}

} // verus!
