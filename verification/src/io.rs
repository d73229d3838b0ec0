use vstd::prelude::*;

use crate::error::CircuitError;
use crate::variables::{concat_slots, ByteVariable, Variable};

verus! {

/// A circuit's public input/output contract: byte-oriented,
/// field-element-oriented, or absent.
///
/// Exactly one variant is active per circuit, set once at build time.
#[derive(Clone, Debug, PartialEq, Eq)]
pub enum CircuitIO {
    Bytes { input: Vec<ByteVariable>, output: Vec<ByteVariable> },
    Elements { input: Vec<Variable>, output: Vec<Variable> },
    NoIo,
}

/// The spec-level image of an io contract: flat, ordered slot lists.
///
/// A byte variable contributes its eight bit wires in order, a field
/// variable one wire.
pub enum IoModel {
    Bytes { input: Seq<Variable>, output: Seq<Variable> },
    Elements { input: Seq<Variable>, output: Seq<Variable> },
    NoIo,
}

impl IoModel {
    /// Byte-oriented slot lists group exactly into bytes.
    pub open spec fn wf(self) -> bool {
        match self {
            IoModel::Bytes { input, output } => input.len() % 8 == 0 && output.len() % 8 == 0,
            _ => true,
        }
    }

    /// Number of public values the inputs occupy.
    pub open spec fn input_len(self) -> int {
        match self {
            IoModel::Bytes { input, .. } => input.len() as int,
            IoModel::Elements { input, .. } => input.len() as int,
            IoModel::NoIo => 0,
        }
    }

    /// Number of public values the outputs occupy.
    pub open spec fn output_len(self) -> int {
        match self {
            IoModel::Bytes { output, .. } => output.len() as int,
            IoModel::Elements { output, .. } => output.len() as int,
            IoModel::NoIo => 0,
        }
    }
}

impl CircuitIO {
    pub open spec fn wf(self) -> bool {
        match self {
            CircuitIO::Bytes { input, output } => {
                &&& forall|i: int| 0 <= i < input@.len() ==> (#[trigger] input@[i]).wf()
                &&& forall|i: int| 0 <= i < output@.len() ==> (#[trigger] output@[i]).wf()
            },
            _ => true,
        }
    }

    pub open spec fn model(self) -> IoModel {
        match self {
            CircuitIO::Bytes { input, output } => IoModel::Bytes {
                input: concat_slots(input@.map_values(|b: ByteVariable| b.bits@)),
                output: concat_slots(output@.map_values(|b: ByteVariable| b.bits@)),
            },
            CircuitIO::Elements { input, output } => IoModel::Elements {
                input: input@,
                output: output@,
            },
            CircuitIO::NoIo => IoModel::NoIo,
        }
    }
}

/// A well-formed io contract has a well-formed model: byte variables
/// contribute whole groups of eight wires.
pub proof fn lemma_io_model_wf(io: CircuitIO)
    requires
        io.wf(),
    ensures
        io.model().wf(),
{
    match io {
        CircuitIO::Bytes { input, output } => {
            crate::variables::lemma_concat_uniform_len(
                input@.map_values(|b: ByteVariable| b.bits@),
                8,
            );
            crate::variables::lemma_concat_uniform_len(
                output@.map_values(|b: ByteVariable| b.bits@),
                8,
            );
            assert((8 * (input@.len() as int)) % 8 == 0) by (nonlinear_arith);
            assert((8 * (output@.len() as int)) % 8 == 0) by (nonlinear_arith);
        },
        _ => {},
    }
}

/// Concrete values bound to a circuit's input contract.
#[derive(Clone, Debug, PartialEq, Eq)]
pub enum PublicInput {
    Bytes(Vec<u8>),
    Elements(Vec<u64>),
    NoIo,
}

/// Concrete values read back from a circuit's output contract.
#[derive(Clone, Debug, PartialEq, Eq)]
pub enum PublicOutput {
    Bytes(Vec<u8>),
    Elements(Vec<u64>),
    NoIo,
}

/// The bit a wire's public value carries: its low bit.
pub open spec fn bit_of(v: u64) -> u8 {
    (v & 1) as u8
}

/// The byte eight bit wires attest to, most significant bit first.
pub open spec fn pack_byte(vals: Seq<u64>) -> u8 {
    (bit_of(vals[0]) << 7) | (bit_of(vals[1]) << 6) | (bit_of(vals[2]) << 5) | (bit_of(vals[3])
        << 4) | (bit_of(vals[4]) << 3) | (bit_of(vals[5]) << 2) | (bit_of(vals[6]) << 1) | bit_of(
        vals[7],
    )
}

/// The bytes a run of bit wires attests to, one per group of eight.
pub open spec fn packed_bytes(vals: Seq<u64>) -> Seq<u8>
    decreases vals.len(),
{
    if vals.len() < 8 {
        Seq::empty()
    } else {
        seq![pack_byte(vals.take(8))] + packed_bytes(vals.skip(8))
    }
}

impl PublicInput {
    /// This input holds exactly the values the proof's first
    /// `io.input_len()` public values attest to, under `io`'s contract.
    pub open spec fn matches_input_of(self, io: IoModel, pv: Seq<u64>) -> bool {
        match (self, io) {
            (PublicInput::Bytes(b), IoModel::Bytes { input, .. }) => b@ == packed_bytes(
                pv.take(input.len() as int),
            ),
            (PublicInput::Elements(e), IoModel::Elements { input, .. }) => e@ == pv.take(
                input.len() as int,
            ),
            (PublicInput::NoIo, IoModel::NoIo) => true,
            _ => false,
        }
    }
}

impl PublicOutput {
    /// This output holds exactly the values the proof's public values
    /// after the inputs attest to, under `io`'s contract.
    pub open spec fn matches_output_of(self, io: IoModel, pv: Seq<u64>) -> bool {
        match (self, io) {
            (PublicOutput::Bytes(b), IoModel::Bytes { input, output }) => b@ == packed_bytes(
                pv.subrange(input.len() as int, input.len() + output.len() as int),
            ),
            (PublicOutput::Elements(e), IoModel::Elements { input, output }) => e@ == pv.subrange(
                input.len() as int,
                input.len() + output.len() as int,
            ),
            (PublicOutput::NoIo, IoModel::NoIo) => true,
            _ => false,
        }
    }
}

/// Value equality of two inputs: same contract kind, same values.
pub open spec fn pub_input_eq(a: PublicInput, b: PublicInput) -> bool {
    match (a, b) {
        (PublicInput::Bytes(x), PublicInput::Bytes(y)) => x@ == y@,
        (PublicInput::Elements(x), PublicInput::Elements(y)) => x@ == y@,
        (PublicInput::NoIo, PublicInput::NoIo) => true,
        _ => false,
    }
}

/// Value equality of two outputs: same contract kind, same values.
pub open spec fn pub_output_eq(a: PublicOutput, b: PublicOutput) -> bool {
    match (a, b) {
        (PublicOutput::Bytes(x), PublicOutput::Bytes(y)) => x@ == y@,
        (PublicOutput::Elements(x), PublicOutput::Elements(y)) => x@ == y@,
        (PublicOutput::NoIo, PublicOutput::NoIo) => true,
        _ => false,
    }
}

impl PublicInput {
    /// The input fills the io contract exactly: same kind, one value per
    /// byte or element of the contract.
    pub open spec fn compatible_with(self, io: IoModel) -> bool {
        match (self, io) {
            (PublicInput::Bytes(b), IoModel::Bytes { input, .. }) => 8 * b@.len() == input.len(),
            (PublicInput::Elements(e), IoModel::Elements { input, .. }) => e@.len()
                == input.len(),
            (PublicInput::NoIo, IoModel::NoIo) => true,
            _ => false,
        }
    }
}

/// The eight bit values a byte binds onto its bit wires, most significant
/// first.
pub open spec fn byte_bits(b: u8) -> Seq<u64> {
    seq![
        ((b >> 7) & 1) as u64,
        ((b >> 6) & 1) as u64,
        ((b >> 5) & 1) as u64,
        ((b >> 4) & 1) as u64,
        ((b >> 3) & 1) as u64,
        ((b >> 2) & 1) as u64,
        ((b >> 1) & 1) as u64,
        (b & 1) as u64,
    ]
}

/// The bit values a byte string binds onto its bit wires, in order.
pub open spec fn unpacked_bits(bytes: Seq<u8>) -> Seq<u64>
    decreases bytes.len(),
{
    if bytes.len() == 0 {
        Seq::empty()
    } else {
        byte_bits(bytes.first()) + unpacked_bits(bytes.drop_first())
    }
}

pub proof fn lemma_unpacked_bits_push(bytes: Seq<u8>, b: u8)
    ensures
        unpacked_bits(bytes.push(b)) == unpacked_bits(bytes) + byte_bits(b),
    decreases bytes.len(),
{
    if bytes.len() == 0 {
        assert(bytes.push(b).drop_first() =~= bytes);
        assert(byte_bits(b) + unpacked_bits(bytes) =~= unpacked_bits(bytes) + byte_bits(b));
    } else {
        lemma_unpacked_bits_push(bytes.drop_first(), b);
        assert(bytes.push(b).drop_first() =~= bytes.drop_first().push(b));
        assert(bytes.push(b).first() == bytes.first());
        assert(byte_bits(bytes.first()) + (unpacked_bits(bytes.drop_first()) + byte_bits(b)) =~= (
        byte_bits(bytes.first()) + unpacked_bits(bytes.drop_first())) + byte_bits(b));
    }
}

/// Unpacks bytes to the bit values they bind, eight per byte.
pub fn unpack_bytes(bytes: &Vec<u8>) -> (r: Vec<u64>)
    ensures
        r@ == unpacked_bits(bytes@),
{
    let n = bytes.len();
    let mut out: Vec<u64> = Vec::new();
    for i in 0..n
        invariant
            n == bytes@.len(),
            out@ == unpacked_bits(bytes@.take(i as int)),
    {
        let b = bytes[i];
        out.push(((b >> 7) & 1) as u64);
        out.push(((b >> 6) & 1) as u64);
        out.push(((b >> 5) & 1) as u64);
        out.push(((b >> 4) & 1) as u64);
        out.push(((b >> 3) & 1) as u64);
        out.push(((b >> 2) & 1) as u64);
        out.push(((b >> 1) & 1) as u64);
        out.push((b & 1) as u64);
        proof {
            assert(bytes@.take(i as int + 1) =~= bytes@.take(i as int).push(b));
            lemma_unpacked_bits_push(bytes@.take(i as int), b);
            assert(out@ =~= unpacked_bits(bytes@.take(i as int)) + byte_bits(b));
        }
    }
    proof {
        assert(bytes@.take(n as int) =~= bytes@);
    }
    out
}

/// Copies a byte vector.
pub fn copy_bytes(vals: &Vec<u8>) -> (r: Vec<u8>)
    ensures
        r@ == vals@,
{
    let n = vals.len();
    let mut out: Vec<u8> = Vec::new();
    for i in 0..n
        invariant
            n == vals@.len(),
            out@ == vals@.take(i as int),
    {
        out.push(vals[i]);
        proof {
            assert(vals@.take(i as int + 1) =~= vals@.take(i as int).push(vals@[i as int]));
        }
    }
    proof {
        assert(vals@.take(n as int) =~= vals@);
    }
    out
}

/// Copies a word vector.
pub fn copy_u64s(vals: &Vec<u64>) -> (r: Vec<u64>)
    ensures
        r@ == vals@,
{
    let n = vals.len();
    let mut out: Vec<u64> = Vec::new();
    for i in 0..n
        invariant
            n == vals@.len(),
            out@ == vals@.take(i as int),
    {
        out.push(vals[i]);
        proof {
            assert(vals@.take(i as int + 1) =~= vals@.take(i as int).push(vals@[i as int]));
        }
    }
    proof {
        assert(vals@.take(n as int) =~= vals@);
    }
    out
}

/// Copies the word range `[base, base + count)`.
pub fn copy_u64_range(vals: &Vec<u64>, base: usize, count: usize) -> (r: Vec<u64>)
    requires
        base + count <= vals@.len(),
    ensures
        r@ == vals@.subrange(base as int, base as int + count),
{
    let n = vals.len();
    proof {
        assert(base + count <= n);
    }
    let mut out: Vec<u64> = Vec::new();
    for i in 0..count
        invariant
            n == vals@.len(),
            base + count <= n,
            out@ == vals@.subrange(base as int, base as int + i),
    {
        out.push(vals[base + i]);
        proof {
            assert(vals@.subrange(base as int, base as int + i + 1) =~= vals@.subrange(
                base as int,
                base as int + i,
            ).push(vals@[base as int + i]));
        }
    }
    out
}

/// Compares two byte vectors by value.
pub fn u8_vec_eq(a: &Vec<u8>, b: &Vec<u8>) -> (r: bool)
    ensures
        r == (a@ == b@),
{
    if a.len() != b.len() {
        proof {
            assert(a@ != b@);
        }
        return false;
    }
    let n = a.len();
    for i in 0..n
        invariant
            n == a@.len(),
            n == b@.len(),
            forall|j: int| 0 <= j < i ==> a@[j] == b@[j],
    {
        if a[i] != b[i] {
            proof {
                assert(a@[i as int] != b@[i as int]);
            }
            return false;
        }
    }
    proof {
        assert(a@ =~= b@);
    }
    true
}

/// Compares two word vectors by value.
pub fn u64_vec_eq(a: &Vec<u64>, b: &Vec<u64>) -> (r: bool)
    ensures
        r == (a@ == b@),
{
    if a.len() != b.len() {
        proof {
            assert(a@ != b@);
        }
        return false;
    }
    let n = a.len();
    for i in 0..n
        invariant
            n == a@.len(),
            n == b@.len(),
            forall|j: int| 0 <= j < i ==> a@[j] == b@[j],
    {
        if a[i] != b[i] {
            proof {
                assert(a@[i as int] != b@[i as int]);
            }
            return false;
        }
    }
    proof {
        assert(a@ =~= b@);
    }
    true
}

/// Compares two inputs by value.
pub fn public_input_eq(a: &PublicInput, b: &PublicInput) -> (r: bool)
    ensures
        r == pub_input_eq(*a, *b),
{
    match (a, b) {
        (PublicInput::Bytes(x), PublicInput::Bytes(y)) => u8_vec_eq(x, y),
        (PublicInput::Elements(x), PublicInput::Elements(y)) => u64_vec_eq(x, y),
        (PublicInput::NoIo, PublicInput::NoIo) => true,
        _ => false,
    }
}

/// Compares two outputs by value.
pub fn public_output_eq(a: &PublicOutput, b: &PublicOutput) -> (r: bool)
    ensures
        r == pub_output_eq(*a, *b),
{
    match (a, b) {
        (PublicOutput::Bytes(x), PublicOutput::Bytes(y)) => u8_vec_eq(x, y),
        (PublicOutput::Elements(x), PublicOutput::Elements(y)) => u64_vec_eq(x, y),
        (PublicOutput::NoIo, PublicOutput::NoIo) => true,
        _ => false,
    }
}

/// Packs one group of eight public values into the byte they attest to.
fn pack_byte_exec(vals: &Vec<u64>, base: usize) -> (r: u8)
    requires
        base + 8 <= vals@.len(),
    ensures
        r == pack_byte(vals@.subrange(base as int, base as int + 8)),
{
    let n = vals.len();
    proof {
        assert(base + 8 <= n);
    }
    let r: u8 = (((vals[base] & 1) as u8) << 7) | (((vals[base + 1] & 1) as u8) << 6) | (((vals[base
        + 2] & 1) as u8) << 5) | (((vals[base + 3] & 1) as u8) << 4) | (((vals[base + 4] & 1) as u8)
        << 3) | (((vals[base + 5] & 1) as u8) << 2) | (((vals[base + 6] & 1) as u8) << 1) | ((
    vals[base + 7] & 1) as u8);
    proof {
        let sub = vals@.subrange(base as int, base as int + 8);
        assert(sub[0] == vals@[base as int]);
        assert(sub[1] == vals@[base as int + 1]);
        assert(sub[2] == vals@[base as int + 2]);
        assert(sub[3] == vals@[base as int + 3]);
        assert(sub[4] == vals@[base as int + 4]);
        assert(sub[5] == vals@[base as int + 5]);
        assert(sub[6] == vals@[base as int + 6]);
        assert(sub[7] == vals@[base as int + 7]);
        assert(forall|v: u64| #[trigger] (v & 1) < 2) by (bit_vector);
    }
    r
}

/// Packs a run of `8 * count` public values starting at `base` into the
/// bytes they attest to.
pub fn pack_values(vals: &Vec<u64>, base: usize, count: usize) -> (r: Vec<u8>)
    requires
        base + 8 * count <= vals@.len(),
    ensures
        r@ == packed_bytes(vals@.subrange(base as int, base as int + 8 * count)),
{
    let ghost region = vals@.subrange(base as int, base as int + 8 * (count as int));
    let n = vals.len();
    proof {
        assert(base + 8 * count <= n);
    }
    let mut out: Vec<u8> = Vec::new();
    for i in 0..count
        invariant
            base + 8 * count <= n,
            n == vals@.len(),
            base + 8 * count <= vals@.len(),
            region == vals@.subrange(base as int, base as int + 8 * (count as int)),
            out@ == packed_bytes(region.take(8 * i as int)),
            out@.len() == i,
    {
        let b = pack_byte_exec(vals, base + 8 * i);
        out.push(b);
        proof {
            lemma_packed_bytes_take_succ(region, i as int);
            assert(region.take(8 * (i as int + 1)).skip(8 * i as int).take(8) =~= vals@.subrange(
                base + 8 * i as int,
                base + 8 * i as int + 8,
            ));
            assert(pack_byte(region.take(8 * (i as int + 1)).skip(8 * i as int).take(8))
                == pack_byte(vals@.subrange(base + 8 * i as int, base + 8 * i as int + 8)));
        }
    }
    proof {
        assert(region.take(8 * count as int) =~= region);
    }
    out
}

/// Appending one full group extends the packed bytes by one byte.
pub proof fn lemma_packed_bytes_take_succ(vals: Seq<u64>, i: int)
    requires
        0 <= i,
        8 * (i + 1) <= vals.len(),
    ensures
        packed_bytes(vals.take(8 * (i + 1))) == packed_bytes(vals.take(8 * i)).push(
            pack_byte(vals.take(8 * (i + 1)).skip(8 * i).take(8)),
        ),
    decreases i,
{
    if i == 0 {
        assert(vals.take(0int) =~= Seq::<u64>::empty());
        assert(packed_bytes(Seq::<u64>::empty()) == Seq::<u8>::empty());
        let t = vals.take(8);
        assert(t.len() == 8);
        assert(t.skip(8) =~= Seq::<u64>::empty());
        assert(packed_bytes(t) == seq![pack_byte(t.take(8))] + packed_bytes(t.skip(8)));
        assert(vals.take(8int).skip(0).take(8) =~= t.take(8));
        assert(seq![pack_byte(t.take(8))] + Seq::<u8>::empty() =~= Seq::<u8>::empty().push(
            pack_byte(t.take(8)),
        ));
    } else {
        lemma_packed_bytes_take_succ(vals.skip(8), i - 1);
        let a = vals.take(8 * (i + 1));
        let b = vals.take(8 * i);
        assert(a.len() >= 8);
        assert(b.len() >= 8);
        assert(packed_bytes(a) == seq![pack_byte(a.take(8))] + packed_bytes(a.skip(8)));
        assert(packed_bytes(b) == seq![pack_byte(b.take(8))] + packed_bytes(b.skip(8)));
        assert(a.skip(8) =~= vals.skip(8).take(8 * i));
        assert(b.skip(8) =~= vals.skip(8).take(8 * (i - 1)));
        assert(a.take(8) =~= b.take(8));
        assert(vals.skip(8).take(8 * i).skip(8 * (i - 1)).take(8) =~= a.skip(8 * i).take(8));
        assert(seq![pack_byte(a.take(8))] + (packed_bytes(vals.skip(8).take(8 * (i - 1)))).push(
            pack_byte(a.skip(8 * i).take(8)),
        ) =~= (seq![pack_byte(b.take(8))] + packed_bytes(b.skip(8))).push(
            pack_byte(a.skip(8 * i).take(8)),
        ));
    }
}

} // verus!
