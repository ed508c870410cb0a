//! Fixed-width binary encoding of small unsigned values, least-significant
//! bit first. The same encoding lays out cells inside the circuit and in the
//! public input, so prover and verifier always agree on the bit order.
use vstd::arithmetic::div_mod::{lemma_div_denominator, lemma_mod_breakdown};
use vstd::arithmetic::power2::{
    lemma2_to64, lemma_pow2_pos, lemma_pow2_strictly_increases, lemma_pow2_unfold, pow2,
};
use vstd::prelude::*;

verus! {

/// Width, in bits, of one encoded grid cell.
pub const CELL_BITS: usize = 8;

/// The value does not fit in the requested number of bits.
#[derive(Debug, Clone, Copy, PartialEq, Eq, Structural)]
pub struct RangeError;

/// The `width` low bits of `v`, least-significant first.
pub open spec fn bit_seq(v: nat, width: nat) -> Seq<bool>
    decreases width,
{
    if width == 0 {
        Seq::empty()
    } else {
        seq![v % 2 == 1] + bit_seq(v / 2, (width - 1) as nat)
    }
}

/// The number that a least-significant-first bit sequence stands for.
pub open spec fn bits_value(s: Seq<bool>) -> nat
    decreases s.len(),
{
    if s.len() == 0 {
        0
    } else {
        (if s[0] { 1nat } else { 0nat }) + 2 * bits_value(s.skip(1))
    }
}

/// The public input of a puzzle: every cell's bits, cell after cell.
pub open spec fn puzzle_bits(p: Seq<u8>) -> Seq<bool>
    decreases p.len(),
{
    if p.len() == 0 {
        Seq::empty()
    } else {
        puzzle_bits(p.drop_last()) + bit_seq(p.last() as nat, CELL_BITS as nat)
    }
}

/// The bytes that bit values are stored as.
pub open spec fn bit_bytes(b: Seq<bool>) -> Seq<u8> {
    Seq::new(b.len(), |i: int| if b[i] { 1u8 } else { 0u8 })
}

pub proof fn lemma_bit_bytes_append(a: Seq<bool>, b: Seq<bool>)
    ensures
        bit_bytes(a + b) == bit_bytes(a) + bit_bytes(b),
{
    assert(bit_bytes(a + b) =~= bit_bytes(a) + bit_bytes(b));
}

pub proof fn lemma_bit_seq_len(v: nat, width: nat)
    ensures
        bit_seq(v, width).len() == width,
    decreases width,
{
    if width > 0 {
        lemma_bit_seq_len(v / 2, (width - 1) as nat);
    }
}

pub proof fn lemma_bits_value_bound(s: Seq<bool>)
    ensures
        bits_value(s) < pow2(s.len()),
    decreases s.len(),
{
    if s.len() > 0 {
        lemma_bits_value_bound(s.skip(1));
        lemma_pow2_unfold(s.len());
    } else {
        lemma2_to64();
    }
}

/// Decoding the encoding of a value gives back the value modulo `2^width`.
pub proof fn lemma_decode_encode_mod(v: nat, width: nat)
    ensures
        bits_value(bit_seq(v, width)) == v % pow2(width),
    decreases width,
{
    if width > 0 {
        let w1 = (width - 1) as nat;
        lemma_decode_encode_mod(v / 2, w1);
        let s = bit_seq(v, width);
        assert(s.skip(1) =~= bit_seq(v / 2, w1));
        lemma_pow2_pos(w1);
        lemma_mod_breakdown(v as int, 2, pow2(w1) as int);
        lemma_pow2_unfold(width);
    } else {
        lemma2_to64();
    }
}

/// Decoding is the inverse of encoding on every value that fits the width.
pub proof fn lemma_decode_encode(v: nat, width: nat)
    requires
        v < pow2(width),
    ensures
        bits_value(bit_seq(v, width)) == v,
{
    lemma_decode_encode_mod(v, width);
    vstd::arithmetic::div_mod::lemma_small_mod(v, pow2(width));
}

/// Every 8-bit value survives a round trip through the cell encoding.
pub proof fn lemma_cell_round_trip(v: u8)
    ensures
        bits_value(bit_seq(v as nat, CELL_BITS as nat)) == v as nat,
{
    lemma2_to64();
    lemma_decode_encode(v as nat, CELL_BITS as nat);
}

/// Encodes `value` in `width` bits, least-significant first; fails when the
/// value needs more bits than that.
pub fn encode(value: u64, width: usize) -> (r: Result<Vec<bool>, RangeError>)
    ensures
        value < pow2(width as nat) ==> r == Ok::<Vec<bool>, RangeError>(
            r->Ok_0,
        ) && r->Ok_0@ == bit_seq(value as nat, width as nat),
        value >= pow2(width as nat) ==> r == Err::<Vec<bool>, RangeError>(RangeError),
{
    let mut bits: Vec<bool> = Vec::new();
    let mut x: u64 = value;
    let mut i: usize = 0;
    proof {
        lemma2_to64();
    }
    while i < width
        invariant
            i <= width,
            x == value as nat / pow2(i as nat),
            bits@ + bit_seq(x as nat, (width - i) as nat) == bit_seq(value as nat, width as nat),
        decreases width - i,
    {
        let ghost old_bits = bits@;
        bits.push(x % 2 == 1);
        proof {
            let rest = bit_seq((x / 2) as nat, (width - i - 1) as nat);
            assert(bit_seq(x as nat, (width - i) as nat) == seq![x % 2 == 1] + rest);
            assert(old_bits + (seq![x % 2 == 1] + rest) =~= bits@ + rest);
            lemma_pow2_pos(i as nat);
            lemma_div_denominator(value as int, pow2(i as nat) as int, 2);
            lemma_pow2_unfold((i + 1) as nat);
        }
        x = x / 2;
        i = i + 1;
    }
    proof {
        assert(bits@ =~= bits@ + bit_seq(x as nat, 0));
        lemma_pow2_pos(width as nat);
        let p = pow2(width as nat) as int;
        assert((value as int / p == 0) <==> (value as int) < p) by (nonlinear_arith)
            requires
                p > 0,
                value >= 0,
        {
            if value as int >= p {
                vstd::arithmetic::div_mod::lemma_div_is_ordered(p, value as int, p);
                vstd::arithmetic::div_mod::lemma_div_basics(p);
            } else {
                vstd::arithmetic::div_mod::lemma_basic_div(value as int, p);
            }
        }
    }
    if x != 0 {
        Err(RangeError)
    } else {
        Ok(bits)
    }
}

/// The number that `bits` stands for, least-significant bit first.
pub fn decode(bits: &Vec<bool>) -> (r: u64)
    requires
        bits.len() <= 64,
    ensures
        r == bits_value(bits@),
{
    let mut acc: u64 = 0;
    let mut i: usize = bits.len();
    proof {
        assert(bits@.skip(bits.len() as int) =~= Seq::<bool>::empty());
    }
    while i > 0
        invariant
            i <= bits.len() <= 64,
            acc == bits_value(bits@.skip(i as int)),
        decreases i,
    {
        let ghost tail = bits@.skip(i as int);
        let b: u64 = if bits[i - 1] { 1 } else { 0 };
        proof {
            let s = bits@.skip(i - 1);
            assert(s.skip(1) =~= tail);
            lemma_bits_value_bound(s);
            lemma2_to64();
            if s.len() < 64 {
                lemma_pow2_strictly_increases(s.len(), 64);
            }
        }
        acc = 2 * acc + b;
        i = i - 1;
    }
    proof {
        assert(bits@.skip(0) =~= bits@);
    }
    acc
}

/// The public input for `puzzle`: each cell in order, `CELL_BITS` bits each.
pub fn serialize_input(puzzle: &Vec<u8>) -> (r: Vec<bool>)
    ensures
        r@ == puzzle_bits(puzzle@),
        r@.len() == CELL_BITS * puzzle@.len(),
{
    let mut out: Vec<bool> = Vec::new();
    let mut k: usize = 0;
    while k < puzzle.len()
        invariant
            k <= puzzle.len(),
            out@ == puzzle_bits(puzzle@.subrange(0, k as int)),
            out@.len() == CELL_BITS * k,
        decreases puzzle.len() - k,
    {
        proof {
            lemma2_to64();
        }
        let cell = encode(puzzle[k] as u64, CELL_BITS);
        let mut bits = match cell {
            Ok(b) => b,
            Err(_) => Vec::new(),
        };
        proof {
            lemma_bit_seq_len(puzzle[k as int] as nat, CELL_BITS as nat);
            let pre = puzzle@.subrange(0, k + 1);
            assert(pre.drop_last() =~= puzzle@.subrange(0, k as int));
        }
        out.append(&mut bits);
        k = k + 1;
    }
    proof {
        assert(puzzle@.subrange(0, puzzle.len() as int) =~= puzzle@);
    }
    out
}

} // verus!
