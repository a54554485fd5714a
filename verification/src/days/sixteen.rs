//! Packet decoder: a hex string encodes a bit stream, the bit stream encodes
//! one self-describing packet tree, and the tree evaluates to two numbers —
//! the sum of all version fields and the value of the root expression.

use vstd::prelude::*;

use crate::aoc_error::AocError;
use crate::text::{nat_sum, lemma_nat_sum_cons};
use vstd::arithmetic::power2::{pow2, lemma2_to64, lemma_pow2_strictly_increases};

verus! {

/// A hex digit in either case, `0-9`, `A-F`, `a-f`.
pub open spec fn is_hex_digit(c: char) -> bool {
    48 <= c as u32 <= 57 || 65 <= c as u32 <= 70 || 97 <= c as u32 <= 102
}

/// Numeric value of a hex digit (0 for other characters).
pub open spec fn hex_digit_val(c: char) -> nat {
    if 48 <= c as u32 <= 57 {
        (c as u32 - 48) as nat
    } else if 65 <= c as u32 <= 70 {
        (c as u32 - 55) as nat
    } else if 97 <= c as u32 <= 102 {
        (c as u32 - 87) as nat
    } else {
        0
    }
}

/// The four bits of one hex digit, most significant first, as 0/1 bytes.
pub open spec fn bits_of_hex_digit(c: char) -> Seq<u8> {
    let v = hex_digit_val(c);
    seq![
        (v / 8 % 2) as u8,
        (v / 4 % 2) as u8,
        (v / 2 % 2) as u8,
        (v % 2) as u8,
    ]
}

/// The whole bit stream denoted by a hex string.
pub open spec fn bits_of_hex(s: Seq<char>) -> Seq<u8>
    decreases s.len(),
{
    if s.len() == 0 {
        Seq::empty()
    } else {
        bits_of_hex(s.drop_last()) + bits_of_hex_digit(s.last())
    }
}

/// The unsigned value of a bit string, most significant bit first.
pub open spec fn bits_value(s: Seq<u8>) -> nat
    decreases s.len(),
{
    if s.len() == 0 {
        0
    } else {
        bits_value(s.drop_last()) * 2 + (s.last() as nat)
    }
}

/// A sequential reader over the bit stream of a hex string.  The stream is
/// expanded up front; `pos` is the cursor of the next unread bit.
#[derive(Debug)]
pub struct Bits {
    pub data: Vec<u8>,
    pub pos: usize,
}

impl Bits {
    /// All stored bits are 0 or 1 and the cursor is inside the stream.
    pub open spec fn wf(&self) -> bool {
        &&& self.pos <= self.data@.len()
        &&& forall|i: int| 0 <= i < self.data@.len() ==> self.data@[i] <= 1
    }

    /// Number of bits not yet read.
    pub open spec fn remaining(&self) -> nat {
        (self.data@.len() - self.pos) as nat
    }

    /// Expands a hex string into its bit stream.  Fails exactly when some
    /// character is not a hex digit.
    #[verifier::rlimit(50)]
    pub fn new(s: &Vec<char>) -> (r: Result<Bits, AocError>)
        ensures
            match r {
                Ok(bits) => {
                    &&& forall|i: int| 0 <= i < s@.len() ==> is_hex_digit(s@[i])
                    &&& bits.wf()
                    &&& bits.pos == 0
                    &&& bits.data@ == bits_of_hex(s@)
                },
                Err(e) => {
                    &&& e == AocError::MalformedHex
                    &&& exists|i: int| 0 <= i < s@.len() && !is_hex_digit(s@[i])
                },
            },
    {
        let mut data: Vec<u8> = Vec::new();
        let mut i: usize = 0;
        while i < s.len()
            invariant
                0 <= i <= s@.len(),
                forall|k: int| 0 <= k < i ==> is_hex_digit(s@[k]),
                data@ == bits_of_hex(s@.subrange(0, i as int)),
                forall|k: int| 0 <= k < data@.len() ==> data@[k] <= 1,
            decreases s@.len() - i,
        {
            let c = s[i];
            let u = c as u32;
            let v: u8 = if 48 <= u && u <= 57 {
                (u - 48) as u8
            } else if 65 <= u && u <= 70 {
                (u - 55) as u8
            } else if 97 <= u && u <= 102 {
                (u - 87) as u8
            } else {
                return Err(AocError::MalformedHex);
            };
            assert(v == hex_digit_val(c));
            assert(s@.subrange(0, i + 1).drop_last() =~= s@.subrange(0, i as int));
            data.push(v / 8 % 2);
            data.push(v / 4 % 2);
            data.push(v / 2 % 2);
            data.push(v % 2);
            assert(data@ =~= bits_of_hex(s@.subrange(0, i + 1)));
            i = i + 1;
        }
        assert(s@.subrange(0, s@.len() as int) =~= s@);
        Ok(Bits { data, pos: 0 })
    }
}

/// Reads `bit_count` bits as an unsigned integer, most significant bit first.
/// Fails exactly when fewer than `bit_count` bits remain, leaving the cursor
/// in place; on success the cursor advances by exactly `bit_count`.
pub fn read_to_int(bits: &mut Bits, bit_count: usize) -> (r: Result<u64, AocError>)
    requires
        old(bits).wf(),
        bit_count <= 64,
    ensures
        final(bits).wf(),
        final(bits).data@ == old(bits).data@,
        match r {
            Ok(n) => {
                &&& old(bits).remaining() >= bit_count
                &&& final(bits).pos == old(bits).pos + bit_count
                &&& n == bits_value(
                    old(bits).data@.subrange(
                        old(bits).pos as int,
                        old(bits).pos + bit_count,
                    ),
                )
            },
            Err(e) => {
                &&& e == AocError::UnexpectedEndOfStream
                &&& old(bits).remaining() < bit_count
                &&& final(bits).pos == old(bits).pos
            },
        },
{
    if bits.data.len() - bits.pos < bit_count {
        return Err(AocError::UnexpectedEndOfStream);
    }
    let mut n: u64 = 0;
    let mut i: usize = 0;
    let ghost start = bits.pos as int;
    while i < bit_count
        invariant
            bits.wf(),
            bits.data@ == old(bits).data@,
            0 <= i <= bit_count,
            bit_count <= 64,
            bits.pos == start + i,
            0 <= start,
            start + bit_count <= bits.data.len(),
            n == bits_value(bits.data@.subrange(start, start + i)),
        decreases bit_count - i,
    {
        let b = bits.data[bits.pos];
        proof {
            let sub0 = bits.data@.subrange(start, start + i);
            lemma_bits_value_bound(sub0);
            if i < 63 {
                lemma_pow2_strictly_increases(i as nat, 63);
            }
            lemma2_to64();
            vstd::arithmetic::power2::lemma2_to64_rest();
            let sub1 = bits.data@.subrange(start, start + i + 1);
            assert(sub1.drop_last() =~= sub0);
            assert(sub1.last() == bits.data@[start + i]);
        }
        n = n * 2 + (b as u64);
        bits.pos = bits.pos + 1;
        i = i + 1;
    }
    Ok(n)
}

/// An ordered list of sub-packets.
pub struct PacketList(pub Vec<Packet>);

/// One decoded packet: either a literal number or an operator over an
/// ordered list of child packets.
pub enum Packet {
    Literal { version: u8, value: u64 },
    Operator { version: u8, type_id: u8, packets: PacketList },
}

/// The mathematical shape of a packet tree, used by every contract.
pub enum PacketModel {
    Literal { version: nat, value: nat },
    Operator { version: nat, type_id: nat, children: Seq<PacketModel> },
}

impl Packet {
    /// The mathematical tree this packet represents.
    pub open spec fn model(self) -> PacketModel
        decreases self,
    {
        match self {
            Packet::Literal { version, value } => PacketModel::Literal {
                version: version as nat,
                value: value as nat,
            },
            Packet::Operator { version, type_id, packets } => PacketModel::Operator {
                version: version as nat,
                type_id: type_id as nat,
                children: models_of(packets.0@),
            },
        }
    }
}

/// The models of a sequence of packets, in order.
pub open spec fn models_of(ps: Seq<Packet>) -> Seq<PacketModel>
    decreases ps,
{
    if ps.len() == 0 {
        Seq::empty()
    } else {
        seq![ps[0].model()] + models_of(ps.drop_first())
    }
}

/// `models_of` maps the sequence pointwise.
pub proof fn lemma_models_of(ps: Seq<Packet>)
    ensures
        models_of(ps).len() == ps.len(),
        forall|i: int| 0 <= i < ps.len() ==> models_of(ps)[i] == ps[i].model(),
    decreases ps.len(),
{
    if ps.len() > 0 {
        lemma_models_of(ps.drop_first());
    }
}

/// Outcome of running the grammar at one position: the measure ran out (never
/// happens with enough fuel), a typed failure, or a parsed value together
/// with the exact number of bits it occupies.
pub enum ParseRes<T> {
    OutOfFuel,
    Fail(AocError),
    Done(T, nat),
}

/// One step of accumulating a literal: shift in one 4-bit group, keeping the
/// low 64 bits.
pub open spec fn lit_step(acc: nat, group: nat) -> nat {
    (acc * 16 + group) % (u64::MAX as nat + 1)
}

/// The literal payload grammar: 5-bit groups, a continuation flag followed by
/// four value bits, ending with a group whose flag is 0.  Returns the
/// accumulated value and the bits consumed.
pub open spec fn spec_parse_literal(bits: Seq<u8>, pos: nat, acc: nat, fuel: nat) -> ParseRes<nat>
    decreases fuel,
{
    if fuel == 0 {
        ParseRes::OutOfFuel
    } else if pos + 5 > bits.len() {
        ParseRes::Fail(AocError::UnexpectedEndOfStream)
    } else {
        let flag = bits[pos as int];
        let group = bits_value(bits.subrange(pos as int + 1, pos as int + 5));
        let acc2 = lit_step(acc, group);
        if flag == 0 {
            ParseRes::Done(acc2, 5)
        } else {
            match spec_parse_literal(bits, pos + 5, acc2, (fuel - 1) as nat) {
                ParseRes::OutOfFuel => ParseRes::OutOfFuel,
                ParseRes::Fail(e) => ParseRes::Fail(e),
                ParseRes::Done(v, n) => ParseRes::Done(v, n + 5),
            }
        }
    }
}

/// The packet grammar: a 3-bit version, a 3-bit type, then either a literal
/// payload (type 4) or a 1-bit framing flag and a 15-bit total-bit-length or
/// 11-bit packet-count frame of child packets.
pub open spec fn spec_parse_packet(bits: Seq<u8>, pos: nat, fuel: nat) -> ParseRes<PacketModel>
    decreases fuel,
{
    if fuel == 0 {
        ParseRes::OutOfFuel
    } else if pos + 6 > bits.len() {
        ParseRes::Fail(AocError::UnexpectedEndOfStream)
    } else {
        let version = bits_value(bits.subrange(pos as int, pos as int + 3));
        let type_id = bits_value(bits.subrange(pos as int + 3, pos as int + 6));
        if type_id == 4 {
            match spec_parse_literal(bits, pos + 6, 0, (fuel - 1) as nat) {
                ParseRes::OutOfFuel => ParseRes::OutOfFuel,
                ParseRes::Fail(e) => ParseRes::Fail(e),
                ParseRes::Done(v, n) => ParseRes::Done(
                    PacketModel::Literal { version, value: v },
                    6 + n,
                ),
            }
        } else if pos + 7 > bits.len() {
            ParseRes::Fail(AocError::UnexpectedEndOfStream)
        } else if bits[pos as int + 6] == 0 {
            if pos + 22 > bits.len() {
                ParseRes::Fail(AocError::UnexpectedEndOfStream)
            } else {
                let budget = bits_value(bits.subrange(pos as int + 7, pos as int + 22));
                match spec_parse_children_by_bits(bits, pos + 22, budget, (fuel - 1) as nat) {
                    ParseRes::OutOfFuel => ParseRes::OutOfFuel,
                    ParseRes::Fail(e) => ParseRes::Fail(e),
                    ParseRes::Done(children, n) => ParseRes::Done(
                        PacketModel::Operator { version, type_id, children },
                        22 + n,
                    ),
                }
            }
        } else {
            if pos + 18 > bits.len() {
                ParseRes::Fail(AocError::UnexpectedEndOfStream)
            } else {
                let count = bits_value(bits.subrange(pos as int + 7, pos as int + 18));
                match spec_parse_children_by_count(bits, pos + 18, count, (fuel - 1) as nat) {
                    ParseRes::OutOfFuel => ParseRes::OutOfFuel,
                    ParseRes::Fail(e) => ParseRes::Fail(e),
                    ParseRes::Done(children, n) => ParseRes::Done(
                        PacketModel::Operator { version, type_id, children },
                        18 + n,
                    ),
                }
            }
        }
    }
}

/// Child packets framed by a total bit length: packets are read one after
/// another until the bits they occupy reach the budget.  At least one child
/// is always read.
pub open spec fn spec_parse_children_by_bits(
    bits: Seq<u8>,
    pos: nat,
    budget: nat,
    fuel: nat,
) -> ParseRes<Seq<PacketModel>>
    decreases fuel,
{
    if fuel == 0 {
        ParseRes::OutOfFuel
    } else {
        match spec_parse_packet(bits, pos, (fuel - 1) as nat) {
            ParseRes::OutOfFuel => ParseRes::OutOfFuel,
            ParseRes::Fail(e) => ParseRes::Fail(e),
            ParseRes::Done(p, n) => {
                if n >= budget {
                    ParseRes::Done(seq![p], n)
                } else {
                    match spec_parse_children_by_bits(
                        bits,
                        pos + n,
                        (budget - n) as nat,
                        (fuel - 1) as nat,
                    ) {
                        ParseRes::OutOfFuel => ParseRes::OutOfFuel,
                        ParseRes::Fail(e) => ParseRes::Fail(e),
                        ParseRes::Done(ps, m) => ParseRes::Done(seq![p] + ps, n + m),
                    }
                }
            },
        }
    }
}

/// Child packets framed by an explicit count: exactly `count` packets are
/// read one after another.
pub open spec fn spec_parse_children_by_count(
    bits: Seq<u8>,
    pos: nat,
    count: nat,
    fuel: nat,
) -> ParseRes<Seq<PacketModel>>
    decreases fuel,
{
    if fuel == 0 {
        ParseRes::OutOfFuel
    } else if count == 0 {
        ParseRes::Done(Seq::empty(), 0)
    } else {
        match spec_parse_packet(bits, pos, (fuel - 1) as nat) {
            ParseRes::OutOfFuel => ParseRes::OutOfFuel,
            ParseRes::Fail(e) => ParseRes::Fail(e),
            ParseRes::Done(p, n) => {
                match spec_parse_children_by_count(
                    bits,
                    pos + n,
                    (count - 1) as nat,
                    (fuel - 1) as nat,
                ) {
                    ParseRes::OutOfFuel => ParseRes::OutOfFuel,
                    ParseRes::Fail(e) => ParseRes::Fail(e),
                    ParseRes::Done(ps, m) => ParseRes::Done(seq![p] + ps, n + m),
                }
            },
        }
    }
}

/// A bit string of length `n` denotes a value below 2^`n`.
proof fn lemma_bits_value_bound(s: Seq<u8>)
    requires
        forall|i: int| 0 <= i < s.len() ==> s[i] <= 1,
    ensures
        bits_value(s) < pow2(s.len()),
    decreases s.len(),
{
    if s.len() > 0 {
        vstd::arithmetic::power2::lemma_pow2_unfold(s.len());
        lemma_bits_value_bound(s.drop_last());
    } else {
        vstd::arithmetic::power2::lemma_pow2_pos(0);
    }
}

/// A one-bit string denotes the bit itself.
proof fn lemma_single_bit_value(s: Seq<u8>)
    requires
        s.len() == 1,
    ensures
        bits_value(s) == s[0],
{
    assert(s.drop_last() =~= Seq::<u8>::empty());
    assert(bits_value(Seq::<u8>::empty()) == 0);
    assert(bits_value(s) == bits_value(s.drop_last()) * 2 + (s.last() as nat));
}

/// `models_of` of a non-empty sequence peels off the head.
proof fn lemma_models_of_cons(p: Packet, ps: Seq<Packet>)
    ensures
        models_of(seq![p] + ps) == seq![p.model()] + models_of(ps),
{
    let s = seq![p] + ps;
    assert(s[0] == p);
    assert(s.drop_first() =~= ps);
    assert(models_of(s) == seq![s[0].model()] + models_of(s.drop_first()));
}

/// Reads the chained 4-bit groups of a literal payload, most significant
/// group first, into the low 64 bits of an accumulator.
fn read_literal_value(bits: &mut Bits, acc: u64) -> (r: Result<(u64, usize), AocError>)
    requires
        old(bits).wf(),
    ensures
        final(bits).wf(),
        final(bits).data@ == old(bits).data@,
        match r {
            Ok((v, n)) => {
                &&& 5 <= n
                &&& old(bits).pos + n <= old(bits).data@.len()
                &&& final(bits).pos == old(bits).pos + n
                &&& forall|fuel: nat|
                    fuel >= old(bits).remaining() + 1 ==> #[trigger] spec_parse_literal(
                        old(bits).data@,
                        old(bits).pos as nat,
                        acc as nat,
                        fuel,
                    ) == ParseRes::Done(v as nat, n as nat)
            },
            Err(e) => forall|fuel: nat|
                fuel >= old(bits).remaining() + 1 ==> #[trigger] spec_parse_literal(
                    old(bits).data@,
                    old(bits).pos as nat,
                    acc as nat,
                    fuel,
                ) == ParseRes::<nat>::Fail(e),
        },
    decreases old(bits).remaining(),
{
    let ghost d = old(bits).data@;
    let ghost p0 = old(bits).pos as int;
    let len = bits.data.len();
    if len - bits.pos < 5 {
        return Err(AocError::UnexpectedEndOfStream);
    }
    let flag = match read_to_int(bits, 1) {
        Ok(v) => v,
        Err(e) => { return Err(e) },
    };
    let group = match read_to_int(bits, 4) {
        Ok(v) => v,
        Err(e) => { return Err(e) },
    };
    proof {
        lemma_single_bit_value(d.subrange(p0, p0 + 1));
        lemma_bits_value_bound(d.subrange(p0 + 1, p0 + 5));
        lemma2_to64();
    }
    let acc2 = acc.wrapping_mul(16).wrapping_add(group);
    proof {
        let range = u64::MAX as int + 1;
        let t = (acc as int * 16) % range;
        vstd::arithmetic::div_mod::lemma_add_mod_noop_right(
            acc as int * 16,
            group as int,
            range,
        );
        if t + group <= u64::MAX {
            vstd::arithmetic::div_mod::lemma_small_mod((t + group) as nat, range as nat);
        } else {
            vstd::arithmetic::div_mod::lemma_mod_add_multiples_vanish(
                t + group as int - range,
                range,
            );
            vstd::arithmetic::div_mod::lemma_small_mod(
                (t + group - range) as nat,
                range as nat,
            );
        }
        assert(acc2 == lit_step(acc as nat, bits_value(d.subrange(p0 + 1, p0 + 5))));
    }
    if flag == 0 {
        assert forall|fuel: nat| fuel >= old(bits).remaining() + 1 implies #[trigger] spec_parse_literal(
            d,
            p0 as nat,
            acc as nat,
            fuel,
        ) == ParseRes::Done(acc2 as nat, 5nat) by {
            assert(d[p0] == 0);
        }
        Ok((acc2, 5))
    } else {
        let (v, n) = match read_literal_value(bits, acc2) {
            Ok(x) => x,
            Err(e) => {
                assert forall|fuel: nat|
                    fuel >= old(bits).remaining() + 1 implies #[trigger] spec_parse_literal(
                    d,
                    p0 as nat,
                    acc as nat,
                    fuel,
                ) == ParseRes::<nat>::Fail(e) by {
                    assert(spec_parse_literal(d, p0 as nat + 5, acc2 as nat, (fuel - 1) as nat)
                        == ParseRes::<nat>::Fail(e));
                }
                return Err(e);
            },
        };
        assert forall|fuel: nat| fuel >= old(bits).remaining() + 1 implies #[trigger] spec_parse_literal(
            d,
            p0 as nat,
            acc as nat,
            fuel,
        ) == ParseRes::Done(v as nat, (n + 5) as nat) by {
            assert(spec_parse_literal(d, p0 as nat + 5, acc2 as nat, (fuel - 1) as nat)
                == ParseRes::Done(v as nat, n as nat));
        }
        Ok((v, n + 5))
    }
}

/// Child packets under a total-bit-length frame (see
/// [`spec_parse_children_by_bits`]).
fn read_children_by_bits(bits: &mut Bits, budget: usize) -> (r: Result<
    (Vec<Packet>, usize),
    AocError,
>)
    requires
        old(bits).wf(),
    ensures
        final(bits).wf(),
        final(bits).data@ == old(bits).data@,
        match r {
            Ok((ps, n)) => {
                &&& 11 <= n
                &&& ps@.len() >= 1
                &&& old(bits).pos + n <= old(bits).data@.len()
                &&& final(bits).pos == old(bits).pos + n
                &&& forall|fuel: nat|
                    fuel >= old(bits).remaining() + 2 ==> #[trigger] spec_parse_children_by_bits(
                        old(bits).data@,
                        old(bits).pos as nat,
                        budget as nat,
                        fuel,
                    ) == ParseRes::Done(models_of(ps@), n as nat)
            },
            Err(e) => forall|fuel: nat|
                fuel >= old(bits).remaining() + 2 ==> #[trigger] spec_parse_children_by_bits(
                    old(bits).data@,
                    old(bits).pos as nat,
                    budget as nat,
                    fuel,
                ) == ParseRes::<Seq<PacketModel>>::Fail(e),
        },
    decreases old(bits).remaining(), 1nat,
{
    let ghost d = old(bits).data@;
    let ghost p0 = old(bits).pos as int;
    let (p, n) = match Packet::read_from_bits(bits) {
        Ok(x) => x,
        Err(e) => {
            assert forall|fuel: nat|
                fuel >= old(bits).remaining() + 2 implies #[trigger] spec_parse_children_by_bits(
                d,
                p0 as nat,
                budget as nat,
                fuel,
            ) == ParseRes::<Seq<PacketModel>>::Fail(e) by {
                assert(spec_parse_packet(d, p0 as nat, (fuel - 1) as nat)
                    == ParseRes::<PacketModel>::Fail(e));
            }
            return Err(e);
        },
    };
    if n >= budget {
        let mut ps: Vec<Packet> = Vec::new();
        ps.push(p);
        proof {
            assert(ps@ =~= seq![p] + Seq::<Packet>::empty());
            lemma_models_of_cons(p, Seq::<Packet>::empty());
            assert(models_of(ps@) =~= seq![p.model()]);
        }
        assert forall|fuel: nat|
            fuel >= old(bits).remaining() + 2 implies #[trigger] spec_parse_children_by_bits(
            d,
            p0 as nat,
            budget as nat,
            fuel,
        ) == ParseRes::Done(models_of(ps@), n as nat) by {
            assert(spec_parse_packet(d, p0 as nat, (fuel - 1) as nat) == ParseRes::Done(
                p.model(),
                n as nat,
            ));
        }
        Ok((ps, n))
    } else {
        let (mut ps, m) = match read_children_by_bits(bits, budget - n) {
            Ok(x) => x,
            Err(e) => {
                assert forall|fuel: nat|
                    fuel >= old(bits).remaining() + 2 implies #[trigger] spec_parse_children_by_bits(
                    d,
                    p0 as nat,
                    budget as nat,
                    fuel,
                ) == ParseRes::<Seq<PacketModel>>::Fail(e) by {
                    assert(spec_parse_packet(d, p0 as nat, (fuel - 1) as nat) == ParseRes::Done(
                        p.model(),
                        n as nat,
                    ));
                    assert(spec_parse_children_by_bits(
                        d,
                        p0 as nat + n as nat,
                        (budget - n) as nat,
                        (fuel - 1) as nat,
                    ) == ParseRes::<Seq<PacketModel>>::Fail(e));
                }
                return Err(e);
            },
        };
        let ghost tail = ps@;
        ps.insert(0, p);
        proof {
            assert(ps@ =~= seq![p] + tail);
            assert(ps@.drop_first() =~= tail);
            assert(models_of(ps@) =~= seq![p.model()] + models_of(tail));
        }
        assert forall|fuel: nat|
            fuel >= old(bits).remaining() + 2 implies #[trigger] spec_parse_children_by_bits(
            d,
            p0 as nat,
            budget as nat,
            fuel,
        ) == ParseRes::Done(models_of(ps@), (n + m) as nat) by {
            assert(spec_parse_packet(d, p0 as nat, (fuel - 1) as nat) == ParseRes::Done(
                p.model(),
                n as nat,
            ));
            assert(spec_parse_children_by_bits(
                d,
                p0 as nat + n as nat,
                (budget - n) as nat,
                (fuel - 1) as nat,
            ) == ParseRes::Done(models_of(tail), m as nat));
        }
        Ok((ps, n + m))
    }
}

/// Child packets under an explicit-count frame (see
/// [`spec_parse_children_by_count`]).
fn read_children_by_count(bits: &mut Bits, count: usize) -> (r: Result<
    (Vec<Packet>, usize),
    AocError,
>)
    requires
        old(bits).wf(),
    ensures
        final(bits).wf(),
        final(bits).data@ == old(bits).data@,
        match r {
            Ok((ps, n)) => {
                &&& ps@.len() == count
                &&& count > 0 ==> 11 <= n
                &&& count == 0 ==> n == 0
                &&& old(bits).pos + n <= old(bits).data@.len()
                &&& final(bits).pos == old(bits).pos + n
                &&& forall|fuel: nat|
                    fuel >= old(bits).remaining() + 2 ==> #[trigger] spec_parse_children_by_count(
                        old(bits).data@,
                        old(bits).pos as nat,
                        count as nat,
                        fuel,
                    ) == ParseRes::Done(models_of(ps@), n as nat)
            },
            Err(e) => forall|fuel: nat|
                fuel >= old(bits).remaining() + 2 ==> #[trigger] spec_parse_children_by_count(
                    old(bits).data@,
                    old(bits).pos as nat,
                    count as nat,
                    fuel,
                ) == ParseRes::<Seq<PacketModel>>::Fail(e),
        },
    decreases old(bits).remaining(), 1nat,
{
    let ghost d = old(bits).data@;
    let ghost p0 = old(bits).pos as int;
    if count == 0 {
        let ps: Vec<Packet> = Vec::new();
        proof {
            assert(models_of(ps@) =~= Seq::<PacketModel>::empty());
        }
        return Ok((ps, 0));
    }
    let (p, n) = match Packet::read_from_bits(bits) {
        Ok(x) => x,
        Err(e) => {
            assert forall|fuel: nat|
                fuel >= old(bits).remaining() + 2 implies #[trigger] spec_parse_children_by_count(
                d,
                p0 as nat,
                count as nat,
                fuel,
            ) == ParseRes::<Seq<PacketModel>>::Fail(e) by {
                assert(spec_parse_packet(d, p0 as nat, (fuel - 1) as nat)
                    == ParseRes::<PacketModel>::Fail(e));
            }
            return Err(e);
        },
    };
    let (mut ps, m) = match read_children_by_count(bits, count - 1) {
        Ok(x) => x,
        Err(e) => {
            assert forall|fuel: nat|
                fuel >= old(bits).remaining() + 2 implies #[trigger] spec_parse_children_by_count(
                d,
                p0 as nat,
                count as nat,
                fuel,
            ) == ParseRes::<Seq<PacketModel>>::Fail(e) by {
                assert(spec_parse_packet(d, p0 as nat, (fuel - 1) as nat) == ParseRes::Done(
                    p.model(),
                    n as nat,
                ));
                assert(spec_parse_children_by_count(
                    d,
                    p0 as nat + n as nat,
                    (count - 1) as nat,
                    (fuel - 1) as nat,
                ) == ParseRes::<Seq<PacketModel>>::Fail(e));
            }
            return Err(e);
        },
    };
    let ghost tail = ps@;
    ps.insert(0, p);
    proof {
        assert(ps@ =~= seq![p] + tail);
        lemma_models_of_cons(p, tail);
        assert(models_of(ps@) =~= seq![p.model()] + models_of(tail));
    }
    assert forall|fuel: nat|
        fuel >= old(bits).remaining() + 2 implies #[trigger] spec_parse_children_by_count(
        d,
        p0 as nat,
        count as nat,
        fuel,
    ) == ParseRes::Done(models_of(ps@), (n + m) as nat) by {
        assert(spec_parse_packet(d, p0 as nat, (fuel - 1) as nat) == ParseRes::Done(
            p.model(),
            n as nat,
        ));
        assert(spec_parse_children_by_count(
            d,
            p0 as nat + n as nat,
            (count - 1) as nat,
            (fuel - 1) as nat,
        ) == ParseRes::Done(models_of(tail), m as nat));
    }
    Ok((ps, n + m))
}

impl Packet {
    /// Reads a literal payload after its 6-bit header; `n` counts only the
    /// payload bits.
    pub fn read_literal(bits: &mut Bits, version: u8) -> (r: Result<(Packet, usize), AocError>)
        requires
            old(bits).wf(),
        ensures
            final(bits).wf(),
            final(bits).data@ == old(bits).data@,
            match r {
                Ok((p, n)) => {
                    &&& 5 <= n
                    &&& old(bits).pos + n <= old(bits).data@.len()
                    &&& final(bits).pos == old(bits).pos + n
                    &&& p matches Packet::Literal { version: pv, value: pval } && pv == version
                        && (forall|fuel: nat|
                        fuel >= old(bits).remaining() + 1 ==> #[trigger] spec_parse_literal(
                            old(bits).data@,
                            old(bits).pos as nat,
                            0,
                            fuel,
                        ) == ParseRes::Done(pval as nat, n as nat))
                },
                Err(e) => forall|fuel: nat|
                    fuel >= old(bits).remaining() + 1 ==> #[trigger] spec_parse_literal(
                        old(bits).data@,
                        old(bits).pos as nat,
                        0,
                        fuel,
                    ) == ParseRes::<nat>::Fail(e),
            },
    {
        match read_literal_value(bits, 0) {
            Ok((value, n)) => Ok((Packet::Literal { version, value }, n)),
            Err(e) => Err(e),
        }
    }

    /// Reads an operator's 15-bit total-bit-length frame and its children;
    /// `n` counts the frame and the children, not the header.
    pub fn read_op_with_bit_len(bits: &mut Bits, version: u8, type_id: u8) -> (r: Result<
        (Packet, usize),
        AocError,
    >)
        requires
            old(bits).wf(),
        ensures
            final(bits).wf(),
            final(bits).data@ == old(bits).data@,
            match r {
                Ok((p, n)) => {
                    &&& old(bits).remaining() >= 15
                    &&& 26 <= n
                    &&& old(bits).pos + n <= old(bits).data@.len()
                    &&& final(bits).pos == old(bits).pos + n
                    &&& p matches Packet::Operator { version: pv, type_id: pt, packets: pps }
                        && pv == version && pt == type_id && (forall|fuel: nat|
                        fuel >= (old(bits).remaining() - 15) + 2 ==> #[trigger] spec_parse_children_by_bits(
                            old(bits).data@,
                            old(bits).pos as nat + 15,
                            bits_value(
                                old(bits).data@.subrange(
                                    old(bits).pos as int,
                                    old(bits).pos as int + 15,
                                ),
                            ),
                            fuel,
                        ) == ParseRes::Done(models_of(pps.0@), (n - 15) as nat))
                },
                Err(e) => (old(bits).remaining() < 15 && e == AocError::UnexpectedEndOfStream) || (
                old(bits).remaining() >= 15 && forall|fuel: nat|
                    fuel >= (old(bits).remaining() - 15) + 2 ==> #[trigger] spec_parse_children_by_bits(
                        old(bits).data@,
                        old(bits).pos as nat + 15,
                        bits_value(
                            old(bits).data@.subrange(
                                old(bits).pos as int,
                                old(bits).pos as int + 15,
                            ),
                        ),
                        fuel,
                    ) == ParseRes::<Seq<PacketModel>>::Fail(e)),
            },
        decreases old(bits).remaining(), 0nat,
    {
        let ghost d = old(bits).data@;
        let ghost p0 = old(bits).pos as int;
        let budget64 = match read_to_int(bits, 15) {
            Ok(v) => v,
            Err(e) => { return Err(e) },
        };
        proof {
            lemma_bits_value_bound(d.subrange(p0, p0 + 15));
            lemma2_to64();
        }
        let budget = budget64 as usize;
        let (children, m) = match read_children_by_bits(bits, budget) {
            Ok(x) => x,
            Err(e) => { return Err(e) },
        };
        let packets = PacketList(children);
        Ok((Packet::Operator { version, type_id, packets }, 15 + m))
    }

    /// Reads an operator's 11-bit packet-count frame and its children; `n`
    /// counts the frame and the children, not the header.
    pub fn read_op_with_packet_count(bits: &mut Bits, version: u8, type_id: u8) -> (r: Result<
        (Packet, usize),
        AocError,
    >)
        requires
            old(bits).wf(),
        ensures
            final(bits).wf(),
            final(bits).data@ == old(bits).data@,
            match r {
                Ok((p, n)) => {
                    &&& old(bits).remaining() >= 11
                    &&& 11 <= n
                    &&& old(bits).pos + n <= old(bits).data@.len()
                    &&& final(bits).pos == old(bits).pos + n
                    &&& p matches Packet::Operator { version: pv, type_id: pt, packets: pps }
                        && pv == version && pt == type_id && (forall|fuel: nat|
                        fuel >= (old(bits).remaining() - 11) + 2 ==> #[trigger] spec_parse_children_by_count(
                            old(bits).data@,
                            old(bits).pos as nat + 11,
                            bits_value(
                                old(bits).data@.subrange(
                                    old(bits).pos as int,
                                    old(bits).pos as int + 11,
                                ),
                            ),
                            fuel,
                        ) == ParseRes::Done(models_of(pps.0@), (n - 11) as nat))
                },
                Err(e) => (old(bits).remaining() < 11 && e == AocError::UnexpectedEndOfStream) || (
                old(bits).remaining() >= 11 && forall|fuel: nat|
                    fuel >= (old(bits).remaining() - 11) + 2 ==> #[trigger] spec_parse_children_by_count(
                        old(bits).data@,
                        old(bits).pos as nat + 11,
                        bits_value(
                            old(bits).data@.subrange(
                                old(bits).pos as int,
                                old(bits).pos as int + 11,
                            ),
                        ),
                        fuel,
                    ) == ParseRes::<Seq<PacketModel>>::Fail(e)),
            },
        decreases old(bits).remaining(), 0nat,
    {
        let ghost d = old(bits).data@;
        let ghost p0 = old(bits).pos as int;
        let count64 = match read_to_int(bits, 11) {
            Ok(v) => v,
            Err(e) => { return Err(e) },
        };
        proof {
            lemma_bits_value_bound(d.subrange(p0, p0 + 11));
            lemma2_to64();
        }
        let count = count64 as usize;
        let (children, m) = match read_children_by_count(bits, count) {
            Ok(x) => x,
            Err(e) => { return Err(e) },
        };
        let packets = PacketList(children);
        Ok((Packet::Operator { version, type_id, packets }, 11 + m))
    }

    /// Reads one whole packet.  On success, the returned count is exactly the
    /// number of bits the packet occupies, the cursor advances by exactly
    /// that count, and the packet is what the grammar derives at the old
    /// cursor; on failure, the grammar fails there with the same error.
    pub fn read_from_bits(bits: &mut Bits) -> (r: Result<(Packet, usize), AocError>)
        requires
            old(bits).wf(),
        ensures
            final(bits).wf(),
            final(bits).data@ == old(bits).data@,
            match r {
                Ok((p, n)) => {
                    &&& 11 <= n
                    &&& old(bits).pos + n <= old(bits).data@.len()
                    &&& final(bits).pos == old(bits).pos + n
                    &&& forall|fuel: nat|
                        fuel >= old(bits).remaining() + 1 ==> #[trigger] spec_parse_packet(
                            old(bits).data@,
                            old(bits).pos as nat,
                            fuel,
                        ) == ParseRes::Done(p.model(), n as nat)
                },
                Err(e) => forall|fuel: nat|
                    fuel >= old(bits).remaining() + 1 ==> #[trigger] spec_parse_packet(
                        old(bits).data@,
                        old(bits).pos as nat,
                        fuel,
                    ) == ParseRes::<PacketModel>::Fail(e),
            },
        decreases old(bits).remaining(), 0nat,
    {
        let ghost d = old(bits).data@;
        let ghost p0 = old(bits).pos as int;
        let version64 = match read_to_int(bits, 3) {
            Ok(v) => v,
            Err(e) => { return Err(e) },
        };
        let type64 = match read_to_int(bits, 3) {
            Ok(v) => v,
            Err(e) => { return Err(e) },
        };
        proof {
            lemma_bits_value_bound(d.subrange(p0, p0 + 3));
            lemma_bits_value_bound(d.subrange(p0 + 3, p0 + 6));
            lemma2_to64();
        }
        let version = version64 as u8;
        let type_id = type64 as u8;
        if type_id == 4 {
            let (p, n) = match Packet::read_literal(bits, version) {
                Ok(x) => x,
                Err(e) => {
                    assert forall|fuel: nat|
                        fuel >= old(bits).remaining() + 1 implies #[trigger] spec_parse_packet(
                        d,
                        p0 as nat,
                        fuel,
                    ) == ParseRes::<PacketModel>::Fail(e) by {
                        assert(spec_parse_literal(d, p0 as nat + 6, 0, (fuel - 1) as nat)
                            == ParseRes::<nat>::Fail(e));
                    }
                    return Err(e);
                },
            };
            assert forall|fuel: nat| fuel >= old(bits).remaining() + 1 implies #[trigger] spec_parse_packet(
                d,
                p0 as nat,
                fuel,
            ) == ParseRes::Done(p.model(), (6 + n) as nat) by {
                let ghost pval = p->Literal_value;
                assert(spec_parse_literal(d, p0 as nat + 6, 0, (fuel - 1) as nat)
                    == ParseRes::Done(pval as nat, n as nat));
            }
            Ok((p, 6 + n))
        } else {
            let lt = match read_to_int(bits, 1) {
                Ok(v) => v,
                Err(e) => { return Err(e) },
            };
            proof {
                lemma_single_bit_value(d.subrange(p0 + 6, p0 + 7));
            }
            if lt == 0 {
                let (p, n) = match Packet::read_op_with_bit_len(bits, version, type_id) {
                    Ok(x) => x,
                    Err(e) => {
                        assert forall|fuel: nat|
                            fuel >= old(bits).remaining() + 1 implies #[trigger] spec_parse_packet(
                            d,
                            p0 as nat,
                            fuel,
                        ) == ParseRes::<PacketModel>::Fail(e) by {
                            if d.len() - p0 - 7 >= 15 {
                                assert(spec_parse_children_by_bits(
                                    d,
                                    p0 as nat + 22,
                                    bits_value(d.subrange(p0 + 7, p0 + 22)),
                                    (fuel - 1) as nat,
                                ) == ParseRes::<Seq<PacketModel>>::Fail(e));
                            }
                        }
                        return Err(e);
                    },
                };
                assert forall|fuel: nat|
                    fuel >= old(bits).remaining() + 1 implies #[trigger] spec_parse_packet(
                    d,
                    p0 as nat,
                    fuel,
                ) == ParseRes::Done(p.model(), (7 + n) as nat) by {
                    let ghost pps = p->Operator_packets;
                    assert(spec_parse_children_by_bits(
                        d,
                        p0 as nat + 22,
                        bits_value(d.subrange(p0 + 7, p0 + 22)),
                        (fuel - 1) as nat,
                    ) == ParseRes::Done(models_of(pps.0@), (n - 15) as nat));
                }
                Ok((p, 7 + n))
            } else {
                let (p, n) = match Packet::read_op_with_packet_count(bits, version, type_id) {
                    Ok(x) => x,
                    Err(e) => {
                        assert forall|fuel: nat|
                            fuel >= old(bits).remaining() + 1 implies #[trigger] spec_parse_packet(
                            d,
                            p0 as nat,
                            fuel,
                        ) == ParseRes::<PacketModel>::Fail(e) by {
                            if d.len() - p0 - 7 >= 11 {
                                assert(spec_parse_children_by_count(
                                    d,
                                    p0 as nat + 18,
                                    bits_value(d.subrange(p0 + 7, p0 + 18)),
                                    (fuel - 1) as nat,
                                ) == ParseRes::<Seq<PacketModel>>::Fail(e));
                            }
                        }
                        return Err(e);
                    },
                };
                assert forall|fuel: nat|
                    fuel >= old(bits).remaining() + 1 implies #[trigger] spec_parse_packet(
                    d,
                    p0 as nat,
                    fuel,
                ) == ParseRes::Done(p.model(), (7 + n) as nat) by {
                    let ghost pps = p->Operator_packets;
                    assert(spec_parse_children_by_count(
                        d,
                        p0 as nat + 18,
                        bits_value(d.subrange(p0 + 7, p0 + 18)),
                        (fuel - 1) as nat,
                    ) == ParseRes::Done(models_of(pps.0@), (n - 11) as nat));
                }
                Ok((p, 7 + n))
            }
        }
    }
}

/// Sum of the version fields of a packet and all packets nested in it.
pub open spec fn spec_version_sum(p: PacketModel) -> nat
    decreases p,
{
    match p {
        PacketModel::Literal { version, .. } => version,
        PacketModel::Operator { version, children, .. } => version + spec_version_sum_seq(
            children,
        ),
    }
}

/// Sum of [`spec_version_sum`] over a sequence of packets.
pub open spec fn spec_version_sum_seq(ps: Seq<PacketModel>) -> nat
    decreases ps,
{
    if ps.len() == 0 {
        0
    } else {
        spec_version_sum_seq(ps.drop_last()) + spec_version_sum(ps.last())
    }
}

/// A prefix never sums to more than the whole sequence.
proof fn lemma_version_sum_seq_prefix_le(ps: Seq<PacketModel>, i: int)
    requires
        0 <= i <= ps.len(),
    ensures
        spec_version_sum_seq(ps.subrange(0, i)) <= spec_version_sum_seq(ps),
    decreases ps.len() - i,
{
    if i < ps.len() {
        assert(ps.subrange(0, i + 1).drop_last() =~= ps.subrange(0, i));
        lemma_version_sum_seq_prefix_le(ps, i + 1);
    } else {
        assert(ps.subrange(0, i) =~= ps);
    }
}

/// The low 64 bits of the sum of a sequence of values, folded left to right.
pub open spec fn sum_mod(vs: Seq<nat>) -> nat
    decreases vs.len(),
{
    if vs.len() == 0 {
        0
    } else {
        (sum_mod(vs.drop_last()) + vs.last()) % (u64::MAX as nat + 1)
    }
}

/// The low 64 bits of the product of a sequence of values, folded left to
/// right.
pub open spec fn prod_mod(vs: Seq<nat>) -> nat
    decreases vs.len(),
{
    if vs.len() == 0 {
        1
    } else {
        (prod_mod(vs.drop_last()) * vs.last()) % (u64::MAX as nat + 1)
    }
}

/// The least value in a sequence (0 if empty).
pub open spec fn min_seq(vs: Seq<nat>) -> nat
    decreases vs.len(),
{
    if vs.len() == 0 {
        0
    } else if vs.len() == 1 {
        vs[0]
    } else {
        let m = min_seq(vs.drop_last());
        if vs.last() < m {
            vs.last()
        } else {
            m
        }
    }
}

/// The greatest value in a sequence (0 if empty).
pub open spec fn max_seq(vs: Seq<nat>) -> nat
    decreases vs.len(),
{
    if vs.len() == 0 {
        0
    } else {
        let m = max_seq(vs.drop_last());
        if vs.last() > m {
            vs.last()
        } else {
            m
        }
    }
}

/// The values of a sequence of packets, left to right; the first failure
/// wins.
pub open spec fn spec_values(ps: Seq<PacketModel>) -> Result<Seq<nat>, AocError>
    decreases ps, 0nat,
{
    if ps.len() == 0 {
        Ok(Seq::empty())
    } else {
        match spec_values(ps.drop_last()) {
            Err(e) => Err(e),
            Ok(vs) => match spec_value(ps.last()) {
                Err(e) => Err(e),
                Ok(v) => Ok(vs.push(v)),
            },
        }
    }
}

/// What an operator packet computes from its children.  Sum, product,
/// minimum and maximum need at least one child; the comparisons need at
/// least two and compare the first two in order.
pub open spec fn spec_op_value(type_id: nat, children: Seq<PacketModel>) -> Result<
    nat,
    AocError,
>
    decreases children, 1nat,
{
    if type_id == 0 || type_id == 1 || type_id == 2 || type_id == 3 {
        if children.len() == 0 {
            Err(AocError::MissingOperand)
        } else {
            match spec_values(children) {
                Err(e) => Err(e),
                Ok(vs) => Ok(
                    if type_id == 0 {
                        sum_mod(vs)
                    } else if type_id == 1 {
                        prod_mod(vs)
                    } else if type_id == 2 {
                        min_seq(vs)
                    } else {
                        max_seq(vs)
                    },
                ),
            }
        }
    } else if type_id == 5 || type_id == 6 || type_id == 7 {
        if children.len() < 2 {
            Err(AocError::MissingOperand)
        } else {
            match spec_value(children[0]) {
                Err(e) => Err(e),
                Ok(a) => match spec_value(children[1]) {
                    Err(e) => Err(e),
                    Ok(b) => Ok(
                        if type_id == 5 {
                            if a > b {
                                1
                            } else {
                                0
                            }
                        } else if type_id == 6 {
                            if a < b {
                                1
                            } else {
                                0
                            }
                        } else {
                            if a == b {
                                1
                            } else {
                                0
                            }
                        },
                    ),
                },
            }
        }
    } else {
        Err(AocError::UnknownOperator)
    }
}

/// The value of a packet: a literal's own value, or its operation applied to
/// its children.
pub open spec fn spec_value(p: PacketModel) -> Result<nat, AocError>
    decreases p, 2nat,
{
    match p {
        PacketModel::Literal { value, .. } => Ok(value),
        PacketModel::Operator { type_id, children, .. } => spec_op_value(type_id, children),
    }
}

/// Unfolds [`spec_values`] one prefix step at a time.
proof fn lemma_spec_values_step(s: Seq<PacketModel>, i: int)
    requires
        0 <= i < s.len(),
    ensures
        spec_values(s.subrange(0, i + 1)) == match spec_values(s.subrange(0, i)) {
            Err(e) => Err(e),
            Ok(vs) => match spec_value(s[i]) {
                Err(e) => Err(e),
                Ok(v) => Ok(vs.push(v)),
            },
        },
{
    assert(s.subrange(0, i + 1).drop_last() =~= s.subrange(0, i));
    assert(s.subrange(0, i + 1).last() == s[i]);
}

/// Once a prefix fails, the whole sequence fails with the same error.
proof fn lemma_spec_values_propagate(s: Seq<PacketModel>, i: int, e: AocError)
    requires
        0 <= i <= s.len(),
        spec_values(s.subrange(0, i)) == Err::<Seq<nat>, AocError>(e),
    ensures
        spec_values(s) == Err::<Seq<nat>, AocError>(e),
    decreases s.len() - i,
{
    if i < s.len() {
        lemma_spec_values_step(s, i);
        lemma_spec_values_propagate(s, i + 1, e);
    } else {
        assert(s.subrange(0, i) =~= s);
    }
}

/// Wrapping 64-bit addition is addition modulo 2^64.
proof fn lemma_mod64_add(a: int, b: int)
    requires
        0 <= a <= u64::MAX,
        0 <= b <= u64::MAX,
    ensures
        (if a + b > u64::MAX {
            a + b - (u64::MAX as int + 1)
        } else {
            a + b
        }) == (a + b) % (u64::MAX as int + 1),
{
    let range = u64::MAX as int + 1;
    if a + b > u64::MAX {
        vstd::arithmetic::div_mod::lemma_mod_add_multiples_vanish(a + b - range, range);
        vstd::arithmetic::div_mod::lemma_small_mod((a + b - range) as nat, range as nat);
    } else {
        vstd::arithmetic::div_mod::lemma_small_mod((a + b) as nat, range as nat);
    }
}

impl PacketList {
    /// The mathematical trees of the packets in this list, in order.
    pub open spec fn model(&self) -> Seq<PacketModel> {
        models_of(self.0@)
    }

    /// Sum of the version sums of the packets in the list.
    pub fn version_sum(&self) -> (r: usize)
        requires
            spec_version_sum_seq(self.model()) <= usize::MAX,
        ensures
            r == spec_version_sum_seq(self.model()),
        decreases self,
    {
        proof {
            lemma_models_of(self.0@);
        }
        let ghost m = self.model();
        let mut acc: usize = 0;
        let mut i: usize = 0;
        while i < self.0.len()
            invariant
                0 <= i <= self.0.len(),
                m == self.model(),
                m.len() == self.0@.len(),
                forall|k: int| 0 <= k < self.0@.len() ==> m[k] == self.0@[k].model(),
                spec_version_sum_seq(m) <= usize::MAX,
                acc == spec_version_sum_seq(m.subrange(0, i as int)),
            decreases self.0@.len() - i,
        {
            proof {
                assert(m.subrange(0, i + 1).drop_last() =~= m.subrange(0, i as int));
                assert(m.subrange(0, i + 1).last() == m[i as int]);
                lemma_version_sum_seq_prefix_le(m, i + 1);
            }
            let v = self.0[i].version_sum();
            acc = acc + v;
            i = i + 1;
        }
        proof {
            assert(m.subrange(0, m.len() as int) =~= m);
        }
        acc
    }

    /// Sum of the child values, modulo 2^64.
    pub fn sum(&self) -> (r: Result<u64, AocError>)
        ensures
            match r {
                Ok(n) => spec_op_value(0, self.model()) == Ok::<nat, AocError>(n as nat),
                Err(e) => spec_op_value(0, self.model()) == Err::<nat, AocError>(e),
            },
        decreases self,
    {
        proof {
            lemma_models_of(self.0@);
        }
        let ghost m = self.model();
        if self.0.len() == 0 {
            return Err(AocError::MissingOperand);
        }
        let mut acc: u64 = 0;
        let mut i: usize = 0;
        while i < self.0.len()
            invariant
                0 <= i <= self.0.len(),
                m == self.model(),
                m.len() == self.0@.len(),
                self.0@.len() > 0,
                forall|k: int| 0 <= k < self.0@.len() ==> m[k] == self.0@[k].model(),
                spec_values(m.subrange(0, i as int)) matches Ok(vs) && acc as nat == sum_mod(vs),
            decreases self.0@.len() - i,
        {
            proof {
                lemma_spec_values_step(m, i as int);
            }
            let v = match self.0[i].value() {
                Ok(v) => v,
                Err(e) => {
                    proof {
                        lemma_spec_values_propagate(m, i + 1, e);
                    }
                    return Err(e);
                },
            };
            proof {
                let vs = spec_values(m.subrange(0, i as int))->Ok_0;
                assert(vs.push(v as nat).drop_last() =~= vs);
                lemma_mod64_add(acc as int, v as int);
            }
            acc = acc.wrapping_add(v);
            i = i + 1;
        }
        proof {
            assert(m.subrange(0, m.len() as int) =~= m);
        }
        Ok(acc)
    }

    /// Product of the child values, modulo 2^64.
    pub fn product(&self) -> (r: Result<u64, AocError>)
        ensures
            match r {
                Ok(n) => spec_op_value(1, self.model()) == Ok::<nat, AocError>(n as nat),
                Err(e) => spec_op_value(1, self.model()) == Err::<nat, AocError>(e),
            },
        decreases self,
    {
        proof {
            lemma_models_of(self.0@);
        }
        let ghost m = self.model();
        if self.0.len() == 0 {
            return Err(AocError::MissingOperand);
        }
        let mut acc: u64 = 1;
        let mut i: usize = 0;
        while i < self.0.len()
            invariant
                0 <= i <= self.0.len(),
                m == self.model(),
                m.len() == self.0@.len(),
                self.0@.len() > 0,
                forall|k: int| 0 <= k < self.0@.len() ==> m[k] == self.0@[k].model(),
                spec_values(m.subrange(0, i as int)) matches Ok(vs) && acc as nat == prod_mod(vs),
            decreases self.0@.len() - i,
        {
            proof {
                lemma_spec_values_step(m, i as int);
            }
            let v = match self.0[i].value() {
                Ok(v) => v,
                Err(e) => {
                    proof {
                        lemma_spec_values_propagate(m, i + 1, e);
                    }
                    return Err(e);
                },
            };
            proof {
                let vs = spec_values(m.subrange(0, i as int))->Ok_0;
                assert(vs.push(v as nat).drop_last() =~= vs);
            }
            acc = acc.wrapping_mul(v);
            i = i + 1;
        }
        proof {
            assert(m.subrange(0, m.len() as int) =~= m);
        }
        Ok(acc)
    }

    /// Least child value.
    pub fn min(&self) -> (r: Result<u64, AocError>)
        ensures
            match r {
                Ok(n) => spec_op_value(2, self.model()) == Ok::<nat, AocError>(n as nat),
                Err(e) => spec_op_value(2, self.model()) == Err::<nat, AocError>(e),
            },
        decreases self,
    {
        proof {
            lemma_models_of(self.0@);
        }
        let ghost m = self.model();
        if self.0.len() == 0 {
            return Err(AocError::MissingOperand);
        }
        let first = match self.0[0].value() {
            Ok(v) => v,
            Err(e) => {
                proof {
                    assert(m.subrange(0, 0) =~= Seq::<PacketModel>::empty());
                    lemma_spec_values_step(m, 0);
                    lemma_spec_values_propagate(m, 1, e);
                }
                return Err(e);
            },
        };
        let mut acc: u64 = first;
        let mut i: usize = 1;
        proof {
            assert(m.subrange(0, 0) =~= Seq::<PacketModel>::empty());
            lemma_spec_values_step(m, 0);
            let vs1 = spec_values(m.subrange(0, 1))->Ok_0;
            assert(vs1 =~= Seq::<nat>::empty().push(first as nat));
        }
        while i < self.0.len()
            invariant
                1 <= i <= self.0.len(),
                m == self.model(),
                m.len() == self.0@.len(),
                self.0@.len() > 0,
                forall|k: int| 0 <= k < self.0@.len() ==> m[k] == self.0@[k].model(),
                spec_values(m.subrange(0, i as int)) matches Ok(vs) && acc as nat == min_seq(vs)
                    && vs.len() == i,
            decreases self.0@.len() - i,
        {
            proof {
                lemma_spec_values_step(m, i as int);
            }
            let v = match self.0[i].value() {
                Ok(v) => v,
                Err(e) => {
                    proof {
                        lemma_spec_values_propagate(m, i + 1, e);
                    }
                    return Err(e);
                },
            };
            proof {
                let vs = spec_values(m.subrange(0, i as int))->Ok_0;
                assert(vs.push(v as nat).drop_last() =~= vs);
            }
            if v < acc {
                acc = v;
            }
            i = i + 1;
        }
        proof {
            assert(m.subrange(0, m.len() as int) =~= m);
        }
        Ok(acc)
    }

    /// Greatest child value.
    pub fn max(&self) -> (r: Result<u64, AocError>)
        ensures
            match r {
                Ok(n) => spec_op_value(3, self.model()) == Ok::<nat, AocError>(n as nat),
                Err(e) => spec_op_value(3, self.model()) == Err::<nat, AocError>(e),
            },
        decreases self,
    {
        proof {
            lemma_models_of(self.0@);
        }
        let ghost m = self.model();
        if self.0.len() == 0 {
            return Err(AocError::MissingOperand);
        }
        let mut acc: u64 = 0;
        let mut i: usize = 0;
        proof {
            assert(m.subrange(0, 0) =~= Seq::<PacketModel>::empty());
        }
        while i < self.0.len()
            invariant
                0 <= i <= self.0.len(),
                m == self.model(),
                m.len() == self.0@.len(),
                self.0@.len() > 0,
                forall|k: int| 0 <= k < self.0@.len() ==> m[k] == self.0@[k].model(),
                spec_values(m.subrange(0, i as int)) matches Ok(vs) && acc as nat == max_seq(vs),
            decreases self.0@.len() - i,
        {
            proof {
                lemma_spec_values_step(m, i as int);
            }
            let v = match self.0[i].value() {
                Ok(v) => v,
                Err(e) => {
                    proof {
                        lemma_spec_values_propagate(m, i + 1, e);
                    }
                    return Err(e);
                },
            };
            proof {
                let vs = spec_values(m.subrange(0, i as int))->Ok_0;
                assert(vs.push(v as nat).drop_last() =~= vs);
            }
            if v > acc {
                acc = v;
            }
            i = i + 1;
        }
        proof {
            assert(m.subrange(0, m.len() as int) =~= m);
        }
        Ok(acc)
    }

    /// 1 if the first child's value exceeds the second's, else 0.
    pub fn greater_than(&self) -> (r: Result<u64, AocError>)
        ensures
            match r {
                Ok(n) => spec_op_value(5, self.model()) == Ok::<nat, AocError>(n as nat),
                Err(e) => spec_op_value(5, self.model()) == Err::<nat, AocError>(e),
            },
        decreases self,
    {
        proof {
            lemma_models_of(self.0@);
        }
        if self.0.len() < 2 {
            return Err(AocError::MissingOperand);
        }
        let a = match self.0[0].value() {
            Ok(v) => v,
            Err(e) => { return Err(e) },
        };
        let b = match self.0[1].value() {
            Ok(v) => v,
            Err(e) => { return Err(e) },
        };
        Ok(if a > b { 1 } else { 0 })
    }

    /// 1 if the first child's value is below the second's, else 0.
    pub fn less_than(&self) -> (r: Result<u64, AocError>)
        ensures
            match r {
                Ok(n) => spec_op_value(6, self.model()) == Ok::<nat, AocError>(n as nat),
                Err(e) => spec_op_value(6, self.model()) == Err::<nat, AocError>(e),
            },
        decreases self,
    {
        proof {
            lemma_models_of(self.0@);
        }
        if self.0.len() < 2 {
            return Err(AocError::MissingOperand);
        }
        let a = match self.0[0].value() {
            Ok(v) => v,
            Err(e) => { return Err(e) },
        };
        let b = match self.0[1].value() {
            Ok(v) => v,
            Err(e) => { return Err(e) },
        };
        Ok(if a < b { 1 } else { 0 })
    }

    /// 1 if the first two children have equal values, else 0.
    pub fn equal_to(&self) -> (r: Result<u64, AocError>)
        ensures
            match r {
                Ok(n) => spec_op_value(7, self.model()) == Ok::<nat, AocError>(n as nat),
                Err(e) => spec_op_value(7, self.model()) == Err::<nat, AocError>(e),
            },
        decreases self,
    {
        proof {
            lemma_models_of(self.0@);
        }
        if self.0.len() < 2 {
            return Err(AocError::MissingOperand);
        }
        let a = match self.0[0].value() {
            Ok(v) => v,
            Err(e) => { return Err(e) },
        };
        let b = match self.0[1].value() {
            Ok(v) => v,
            Err(e) => { return Err(e) },
        };
        Ok(if a == b { 1 } else { 0 })
    }
}

impl Packet {
    /// Sum of this packet's version and the versions of every packet nested
    /// in it.
    pub fn version_sum(&self) -> (r: usize)
        requires
            spec_version_sum(self.model()) <= usize::MAX,
        ensures
            r == spec_version_sum(self.model()),
        decreases self,
    {
        match self {
            Packet::Literal { version, .. } => *version as usize,
            Packet::Operator { version, packets, .. } => *version as usize + packets.version_sum(),
        }
    }

    /// The value this packet evaluates to.
    pub fn value(&self) -> (r: Result<u64, AocError>)
        ensures
            match r {
                Ok(n) => spec_value(self.model()) == Ok::<nat, AocError>(n as nat),
                Err(e) => spec_value(self.model()) == Err::<nat, AocError>(e),
            },
        decreases self,
    {
        match self {
            Packet::Literal { value, .. } => Ok(*value),
            Packet::Operator { type_id, packets, .. } => {
                match *type_id {
                    0 => packets.sum(),
                    1 => packets.product(),
                    2 => packets.min(),
                    3 => packets.max(),
                    5 => packets.greater_than(),
                    6 => packets.less_than(),
                    7 => packets.equal_to(),
                    _ => Err(AocError::UnknownOperator),
                }
            },
        }
    }
}

/// `spec_version_sum_seq` of a non-empty sequence peels off the head.
proof fn lemma_version_sum_seq_cons(p: PacketModel, ps: Seq<PacketModel>)
    ensures
        spec_version_sum_seq(seq![p] + ps) == spec_version_sum(p) + spec_version_sum_seq(ps),
    decreases ps.len(),
{
    assert(spec_version_sum_seq(Seq::<PacketModel>::empty()) == 0);
    if ps.len() == 0 {
        assert(seq![p] + ps =~= seq![p]);
        assert(seq![p].drop_last() =~= Seq::<PacketModel>::empty());
        assert(spec_version_sum_seq(seq![p] + ps) == spec_version_sum_seq(
            (seq![p] + ps).drop_last(),
        ) + spec_version_sum((seq![p] + ps).last()));
    } else {
        assert((seq![p] + ps).drop_last() =~= seq![p] + ps.drop_last());
        assert((seq![p] + ps).last() == ps.last());
        lemma_version_sum_seq_cons(p, ps.drop_last());
    }
}

/// Version sums are bounded by the bits consumed: every packet spends at
/// least 6 bits on its header while its version is below 8, so the sum of
/// versions in a parsed tree never exceeds the bits the tree occupies.
pub proof fn lemma_version_sum_le_bits(bits: Seq<u8>, pos: nat, fuel: nat)
    requires
        forall|i: int| 0 <= i < bits.len() ==> bits[i] <= 1,
    ensures
        spec_parse_packet(bits, pos, fuel) matches ParseRes::Done(p, n) ==> spec_version_sum(p)
            <= n && 11 <= n,
    decreases fuel,
{
    if fuel == 0 {
        return ;
    }
    if pos + 6 <= bits.len() {
        lemma_bits_value_bound(bits.subrange(pos as int, pos as int + 3));
        lemma2_to64();
        match spec_parse_packet(bits, pos, fuel) {
            ParseRes::Done(p, n) => {
                let type_id = bits_value(bits.subrange(pos as int + 3, pos as int + 6));
                if type_id == 4 {
                    lemma_literal_consumes(bits, pos + 6, 0, (fuel - 1) as nat);
                } else if bits[pos as int + 6] == 0 {
                    let budget = bits_value(bits.subrange(pos as int + 7, pos as int + 22));
                    lemma_version_sum_le_bits_children(bits, pos + 22, budget, (fuel - 1) as nat);
                } else {
                    let count = bits_value(bits.subrange(pos as int + 7, pos as int + 18));
                    lemma_version_sum_le_bits_count(bits, pos + 18, count, (fuel - 1) as nat);
                }
            },
            _ => {},
        }
    }
}

/// Version-sum bound for a total-bit-length child list.
proof fn lemma_version_sum_le_bits_children(bits: Seq<u8>, pos: nat, budget: nat, fuel: nat)
    requires
        forall|i: int| 0 <= i < bits.len() ==> bits[i] <= 1,
    ensures
        spec_parse_children_by_bits(bits, pos, budget, fuel) matches ParseRes::Done(ps, m)
            ==> spec_version_sum_seq(ps) <= m,
    decreases fuel,
{
    if fuel == 0 {
        return ;
    }
    lemma_version_sum_le_bits(bits, pos, (fuel - 1) as nat);
    match spec_parse_packet(bits, pos, (fuel - 1) as nat) {
        ParseRes::Done(p, n) => {
            if n >= budget {
                assert(seq![p].drop_last() =~= Seq::<PacketModel>::empty());
                assert(spec_version_sum_seq(Seq::<PacketModel>::empty()) == 0);
                assert(spec_version_sum_seq(seq![p]) == spec_version_sum(p));
            } else {
                lemma_version_sum_le_bits_children(
                    bits,
                    pos + n,
                    (budget - n) as nat,
                    (fuel - 1) as nat,
                );
                match spec_parse_children_by_bits(bits, pos + n, (budget - n) as nat, (fuel - 1) as nat) {
                    ParseRes::Done(ps2, m2) => {
                        lemma_version_sum_seq_cons(p, ps2);
                    },
                    _ => {},
                }
            }
        },
        _ => {},
    }
}

/// Version-sum bound for an explicit-count child list.
proof fn lemma_version_sum_le_bits_count(bits: Seq<u8>, pos: nat, count: nat, fuel: nat)
    requires
        forall|i: int| 0 <= i < bits.len() ==> bits[i] <= 1,
    ensures
        spec_parse_children_by_count(bits, pos, count, fuel) matches ParseRes::Done(ps, m)
            ==> spec_version_sum_seq(ps) <= m,
    decreases fuel,
{
    if fuel == 0 {
        return ;
    }
    if count > 0 {
        lemma_version_sum_le_bits(bits, pos, (fuel - 1) as nat);
        match spec_parse_packet(bits, pos, (fuel - 1) as nat) {
            ParseRes::Done(p, n) => {
                lemma_version_sum_le_bits_count(
                    bits,
                    pos + n,
                    (count - 1) as nat,
                    (fuel - 1) as nat,
                );
                match spec_parse_children_by_count(bits, pos + n, (count - 1) as nat, (fuel - 1) as nat) {
                    ParseRes::Done(ps2, m2) => {
                        lemma_version_sum_seq_cons(p, ps2);
                    },
                    _ => {},
                }
            },
            _ => {},
        }
    }
}

/// A literal payload always consumes at least 5 bits.
proof fn lemma_literal_consumes(bits: Seq<u8>, pos: nat, acc: nat, fuel: nat)
    ensures
        spec_parse_literal(bits, pos, acc, fuel) matches ParseRes::Done(v, n) ==> 5 <= n,
    decreases fuel,
{
    if fuel > 0 && pos + 5 <= bits.len() {
        if bits[pos as int] != 0 {
            let group = bits_value(bits.subrange(pos as int + 1, pos as int + 5));
            lemma_literal_consumes(bits, pos + 5, lit_step(acc, group), (fuel - 1) as nat);
        }
    }
}

/// The version-sum of a version field and a child list does not depend on
/// the order the children are traversed in: two operator packets that agree
/// on everything but the arrangement of their children have the same
/// version-sum.
pub proof fn lemma_version_sum_reorder(
    version: nat,
    type_id: nat,
    cs1: Seq<PacketModel>,
    cs2: Seq<PacketModel>,
)
    requires
        cs1.to_multiset() == cs2.to_multiset(),
    ensures
        spec_version_sum(PacketModel::Operator { version, type_id, children: cs1 })
            == spec_version_sum(PacketModel::Operator { version, type_id, children: cs2 }),
{
    lemma_version_sum_seq_permutation(cs1, cs2);
}

/// Removing one element splits a version-sum.
proof fn lemma_version_sum_seq_remove(ps: Seq<PacketModel>, i: int)
    requires
        0 <= i < ps.len(),
    ensures
        spec_version_sum_seq(ps) == spec_version_sum(ps[i]) + spec_version_sum_seq(ps.remove(i)),
    decreases ps.len(),
{
    if i == ps.len() - 1 {
        assert(ps.remove(i) =~= ps.drop_last());
    } else {
        assert(ps.remove(i).drop_last() =~= ps.drop_last().remove(i));
        assert(ps.remove(i).last() == ps.last());
        lemma_version_sum_seq_remove(ps.drop_last(), i);
    }
}

/// The version-sum of a sequence of packets depends only on which packets it
/// holds, not on their order.
pub proof fn lemma_version_sum_seq_permutation(ps1: Seq<PacketModel>, ps2: Seq<PacketModel>)
    requires
        ps1.to_multiset() == ps2.to_multiset(),
    ensures
        spec_version_sum_seq(ps1) == spec_version_sum_seq(ps2),
    decreases ps1.len(),
{
    ps1.to_multiset_ensures();
    ps2.to_multiset_ensures();
    if ps1.len() == 0 {
        assert(ps2.len() == 0);
    } else {
        let x = ps1.last();
        assert(ps1.contains(x));
        assert(ps1.to_multiset().count(x) > 0);
        assert(ps2.to_multiset().count(x) > 0);
        assert(ps2.contains(x));
        let j = choose|j: int| 0 <= j < ps2.len() && ps2[j] == x;
        lemma_version_sum_seq_remove(ps2, j);
        assert(ps1.remove(ps1.len() - 1) =~= ps1.drop_last());
        assert(ps1.drop_last().to_multiset() =~= ps1.to_multiset().remove(x));
        assert(ps2.remove(j).to_multiset() =~= ps2.to_multiset().remove(x));
        lemma_version_sum_seq_permutation(ps1.drop_last(), ps2.remove(j));
    }
}

/// A total-bit-length frame is filled exactly: the children's bit counts sum
/// to at least the declared budget, and parsing stops at the first child
/// that reaches it — the bits of every proper non-empty prefix of the
/// children still fall short of the budget, so no extra child is ever begun
/// past the threshold.
pub proof fn lemma_children_by_bits_stop_at_first(bits: Seq<u8>, pos: nat, budget: nat, fuel: nat)
    ensures
        spec_parse_children_by_bits(bits, pos, budget, fuel) matches ParseRes::Done(ps, m) ==> (
        exists|sizes: Seq<nat>|
            {
                &&& sizes.len() == ps.len()
                &&& ps.len() >= 1
                &&& #[trigger] nat_sum(sizes) == m
                &&& m >= budget
                &&& forall|j: int|
                    1 <= j < sizes.len() ==> #[trigger] nat_sum(sizes.subrange(0, j)) < budget
            }),
    decreases fuel,
{
    if fuel == 0 {
        return ;
    }
    match spec_parse_packet(bits, pos, (fuel - 1) as nat) {
        ParseRes::Done(p, n) => {
            if n >= budget {
                let sizes = seq![n];
                assert(sizes.drop_last() =~= Seq::<nat>::empty());
                assert(nat_sum(Seq::<nat>::empty()) == 0);
                assert(nat_sum(sizes) == n);
            } else {
                lemma_children_by_bits_stop_at_first(
                    bits,
                    pos + n,
                    (budget - n) as nat,
                    (fuel - 1) as nat,
                );
                match spec_parse_children_by_bits(bits, pos + n, (budget - n) as nat, (fuel - 1) as nat) {
                    ParseRes::Done(ps2, m2) => {
                    let sizes2 = choose|sizes2: Seq<nat>|
                        {
                            &&& sizes2.len() == ps2.len()
                            &&& ps2.len() >= 1
                            &&& #[trigger] nat_sum(sizes2) == m2
                            &&& m2 >= budget - n
                            &&& forall|j: int|
                                1 <= j < sizes2.len() ==> #[trigger] nat_sum(
                                    sizes2.subrange(0, j),
                                ) < budget - n
                        };
                    let sizes = seq![n] + sizes2;
                    lemma_nat_sum_cons(n, sizes2);
                    assert forall|j: int| 1 <= j < sizes.len() implies #[trigger] nat_sum(
                        sizes.subrange(0, j),
                    ) < budget by {
                        if j == 1 {
                            assert(sizes.subrange(0, 1) =~= seq![n]);
                            assert(seq![n].drop_last() =~= Seq::<nat>::empty());
                            assert(nat_sum(Seq::<nat>::empty()) == 0);
                            assert(nat_sum(seq![n]) == n);
                        } else {
                            assert(sizes.subrange(0, j) =~= seq![n] + sizes2.subrange(0, j - 1));
                            lemma_nat_sum_cons(n, sizes2.subrange(0, j - 1));
                            assert(nat_sum(sizes2.subrange(0, j - 1)) < budget - n);
                        }
                    }
                        assert(nat_sum(sizes) == n + m2);
                    },
                    _ => {},
                }
            }
        },
        _ => {},
    }
}

/// What decoding and summing versions yields for a hex input: a malformed
/// hex failure, a parse failure, or the version-sum rendered in decimal.
pub open spec fn spec_part_one(input: Seq<char>) -> Result<Seq<char>, AocError> {
    if exists|i: int| 0 <= i < input.len() && !is_hex_digit(input[i]) {
        Err(AocError::MalformedHex)
    } else {
        let bits = bits_of_hex(input);
        match spec_parse_packet(bits, 0, bits.len() + 1) {
            ParseRes::Done(p, n) => Ok(crate::text::dec_str(spec_version_sum(p))),
            ParseRes::Fail(e) => Err(e),
            ParseRes::OutOfFuel => Err(AocError::UnexpectedEndOfStream),
        }
    }
}

/// What decoding and evaluating yields for a hex input: a malformed hex
/// failure, a parse failure, an evaluation failure, or the root packet's
/// value rendered in decimal.
pub open spec fn spec_part_two(input: Seq<char>) -> Result<Seq<char>, AocError> {
    if exists|i: int| 0 <= i < input.len() && !is_hex_digit(input[i]) {
        Err(AocError::MalformedHex)
    } else {
        let bits = bits_of_hex(input);
        match spec_parse_packet(bits, 0, bits.len() + 1) {
            ParseRes::Done(p, n) => match spec_value(p) {
                Ok(v) => Ok(crate::text::dec_str(v)),
                Err(e) => Err(e),
            },
            ParseRes::Fail(e) => Err(e),
            ParseRes::OutOfFuel => Err(AocError::UnexpectedEndOfStream),
        }
    }
}

/// Decodes the hex input and returns the sum of all version fields in the
/// packet tree, in decimal.
pub fn part_one(input: &str) -> (r: Result<String, AocError>)
    ensures
        match r {
            Ok(s) => spec_part_one(input@) == Ok::<Seq<char>, AocError>(s@),
            Err(e) => spec_part_one(input@) == Err::<Seq<char>, AocError>(e),
        },
{
    let cs = crate::text::chars_of(input);
    let mut bits = match Bits::new(&cs) {
        Ok(b) => b,
        Err(e) => { return Err(e) },
    };
    let ghost d = bits.data@;
    let (packet, n) = match Packet::read_from_bits(&mut bits) {
        Ok(x) => x,
        Err(e) => {
            proof {
                assert(spec_parse_packet(d, 0, d.len() + 1) == ParseRes::<PacketModel>::Fail(e));
            }
            return Err(e);
        },
    };
    proof {
        assert(spec_parse_packet(d, 0, d.len() + 1) == ParseRes::Done(packet.model(), n as nat));
        lemma_version_sum_le_bits(d, 0, d.len() + 1);
        assert(bits.data.len() == d.len());
    }
    let vs = packet.version_sum();
    Ok(crate::text::usize_to_string(vs))
}

/// Decodes the hex input and returns the value the root packet evaluates
/// to, in decimal.
pub fn part_two(input: &str) -> (r: Result<String, AocError>)
    ensures
        match r {
            Ok(s) => spec_part_two(input@) == Ok::<Seq<char>, AocError>(s@),
            Err(e) => spec_part_two(input@) == Err::<Seq<char>, AocError>(e),
        },
{
    let cs = crate::text::chars_of(input);
    let mut bits = match Bits::new(&cs) {
        Ok(b) => b,
        Err(e) => { return Err(e) },
    };
    let ghost d = bits.data@;
    let (packet, n) = match Packet::read_from_bits(&mut bits) {
        Ok(x) => x,
        Err(e) => {
            proof {
                assert(spec_parse_packet(d, 0, d.len() + 1) == ParseRes::<PacketModel>::Fail(e));
            }
            return Err(e);
        },
    };
    proof {
        assert(spec_parse_packet(d, 0, d.len() + 1) == ParseRes::Done(packet.model(), n as nat));
    }
    match packet.value() {
        Ok(v) => Ok(crate::text::u64_to_string(v)),
        Err(e) => Err(e),
    }
}

} // verus!
