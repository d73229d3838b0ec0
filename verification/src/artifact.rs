use vstd::prelude::*;

use crate::codec::{
    lemma_read_u64_at, lemma_read_u64s_at, lemma_u64s_le_len, spec_read_bytes, spec_read_u64,
    spec_read_u64s, u64_le_bytes, u64s_le_bytes, write_bytes, write_u64, write_u64s, ByteBuffer,
};
use crate::error::CircuitError;
use crate::io::{copy_u64_range, copy_u64s, CircuitIO, IoModel, PublicInput, PublicOutput};
use crate::variables::{
    concat_slots, lemma_concat_slots_push, lemma_concat_uniform_len, ByteVariable, Variable,
};

verus! {

/// The compiled form of a constraint system, as this layer reads it: the
/// verifier-side commitment digest (one word per field element, in
/// canonical form) plus the backend's own opaque encoding of the rest.
#[derive(Clone, Debug, PartialEq, Eq)]
pub struct ArtifactData {
    pub digest: Vec<u64>,
    pub blob: Vec<u8>,
}

/// A compiled circuit: the compiled constraint system plus exactly one
/// io contract. Immutable after creation except through full
/// deserialization into a new instance.
#[derive(Clone, Debug, PartialEq, Eq)]
pub struct Circuit {
    pub data: ArtifactData,
    pub io: CircuitIO,
}

/// The spec-level image of a circuit artifact.
#[verifier::ext_equal]
pub struct CircuitModel {
    pub digest: Seq<u64>,
    pub blob: Seq<u8>,
    pub io: IoModel,
}

impl CircuitModel {
    pub open spec fn wf(self) -> bool {
        self.io.wf()
    }

    /// The length-prefixed sections fit the format's word-sized prefixes.
    pub open spec fn serializable(self) -> bool {
        &&& 16 + 8 * self.digest.len() + self.blob.len() <= u64::MAX
        &&& self.io.input_len() <= u64::MAX
        &&& self.io.output_len() <= u64::MAX
    }
}

impl Circuit {
    pub open spec fn wf(self) -> bool {
        self.io.wf()
    }

    pub open spec fn model(self) -> CircuitModel {
        CircuitModel { digest: self.data.digest@, blob: self.data.blob@, io: self.io.model() }
    }
}

/// The io tag stored in the serialized artifact.
pub open spec fn io_tag(io: IoModel) -> u64 {
    match io {
        IoModel::Bytes { .. } => 0,
        IoModel::Elements { .. } => 1,
        IoModel::NoIo => 2,
    }
}

/// The wire indices of a slot list.
pub open spec fn slot_values(s: Seq<Variable>) -> Seq<u64> {
    s.map_values(|v: Variable| v.0)
}

/// A length-prefixed flat slot list.
pub open spec fn spec_serialize_slots(s: Seq<Variable>) -> Seq<u8> {
    u64_le_bytes(s.len() as u64) + u64s_le_bytes(slot_values(s))
}

/// The compiled-circuit bytes: length-prefixed digest words, then the
/// length-prefixed opaque backend encoding.
pub open spec fn spec_serialize_data(digest: Seq<u64>, blob: Seq<u8>) -> Seq<u8> {
    u64_le_bytes(digest.len() as u64) + u64s_le_bytes(digest) + u64_le_bytes(blob.len() as u64)
        + blob
}

/// The artifact's byte layout: length-prefixed compiled-circuit bytes,
/// the io tag, and for byte or element io the length-prefixed flattened
/// input and output slot lists.
pub open spec fn spec_serialize(m: CircuitModel) -> Seq<u8> {
    let inner = spec_serialize_data(m.digest, m.blob);
    let head = u64_le_bytes(inner.len() as u64) + inner + u64_le_bytes(io_tag(m.io));
    match m.io {
        IoModel::Bytes { input, output } => head + spec_serialize_slots(input)
            + spec_serialize_slots(output),
        IoModel::Elements { input, output } => head + spec_serialize_slots(input)
            + spec_serialize_slots(output),
        IoModel::NoIo => head,
    }
}

/// Reads one length-prefixed flat slot list.
pub open spec fn spec_read_slots(bs: Seq<u8>, pos: int) -> Option<(Seq<Variable>, int)> {
    match spec_read_u64(bs, pos) {
        None => None,
        Some((n, p1)) => match spec_read_u64s(bs, p1, n as nat) {
            None => None,
            Some((vals, p2)) => Some((vals.map_values(|x: u64| Variable(x)), p2)),
        },
    }
}

/// Reads the compiled-circuit bytes back into digest and opaque blob.
pub open spec fn spec_parse_data(inner: Seq<u8>) -> Option<(Seq<u64>, Seq<u8>)> {
    match spec_read_u64(inner, 0) {
        None => None,
        Some((dlen, p1)) => match spec_read_u64s(inner, p1, dlen as nat) {
            None => None,
            Some((digest, p2)) => match spec_read_u64(inner, p2) {
                None => None,
                Some((blen, p3)) => match spec_read_bytes(inner, p3, blen as nat) {
                    None => None,
                    Some((blob, _)) => Some((digest, blob)),
                },
            },
        },
    }
}

/// Byte-io slot lists regroup into whole bytes; a trailing partial group
/// is dropped.
pub open spec fn group_slots(s: Seq<Variable>) -> Seq<Variable> {
    s.take(s.len() as int / 8 * 8)
}

/// The inverse of [`spec_serialize`]: fails with a decoding error on a
/// truncated buffer or an unrecognized io tag, never silently.
pub open spec fn spec_deserialize(bs: Seq<u8>) -> Result<CircuitModel, CircuitError> {
    match spec_read_u64(bs, 0) {
        None => Err(CircuitError::ShortRead),
        Some((inner_len, p1)) => match spec_read_bytes(bs, p1, inner_len as nat) {
            None => Err(CircuitError::ShortRead),
            Some((inner, p2)) => match spec_parse_data(inner) {
                None => Err(CircuitError::ShortRead),
                Some((digest, blob)) => match spec_read_u64(bs, p2) {
                    None => Err(CircuitError::ShortRead),
                    Some((tag, p3)) => if tag == 0 {
                        match spec_read_slots(bs, p3) {
                            None => Err(CircuitError::ShortRead),
                            Some((inp, p4)) => match spec_read_slots(bs, p4) {
                                None => Err(CircuitError::ShortRead),
                                Some((outp, _)) => Ok(
                                    (CircuitModel {
                                        digest,
                                        blob,
                                        io: IoModel::Bytes {
                                            input: group_slots(inp),
                                            output: group_slots(outp),
                                        },
                                    }),
                                ),
                            },
                        }
                    } else if tag == 1 {
                        match spec_read_slots(bs, p3) {
                            None => Err(CircuitError::ShortRead),
                            Some((inp, p4)) => match spec_read_slots(bs, p4) {
                                None => Err(CircuitError::ShortRead),
                                Some((outp, _)) => Ok(
                                    (CircuitModel {
                                        digest,
                                        blob,
                                        io: IoModel::Elements { input: inp, output: outp },
                                    }),
                                ),
                            },
                        }
                    } else if tag == 2 {
                        Ok((CircuitModel { digest, blob, io: IoModel::NoIo }))
                    } else {
                        Err(CircuitError::UnknownIoTag)
                    },
                },
            },
        },
    }
}

/// A slot list serialized at `pos` reads back unchanged.
proof fn lemma_read_slots_at(bs: Seq<u8>, pos: int, s: Seq<Variable>)
    requires
        0 <= pos,
        s.len() <= u64::MAX,
        pos + 8 + 8 * s.len() <= bs.len(),
        bs.subrange(pos, pos + 8 + 8 * s.len()) == spec_serialize_slots(s),
    ensures
        spec_read_slots(bs, pos) == Some((s, pos + 8 + 8 * s.len())),
{
    let vals = slot_values(s);
    let n = s.len() as int;
    lemma_u64s_le_len(vals);
    assert(vals.len() == s.len());
    assert(bs.subrange(pos, pos + 8) =~= bs.subrange(pos, pos + 8 + 8 * n).subrange(0, 8));
    assert(spec_serialize_slots(s).subrange(0, 8) =~= u64_le_bytes(s.len() as u64));
    lemma_read_u64_at(bs, pos, s.len() as u64);
    assert(bs.subrange(pos + 8, pos + 8 + 8 * n) =~= bs.subrange(pos, pos + 8 + 8 * n).subrange(
        8,
        8 + 8 * n,
    ));
    assert(spec_serialize_slots(s).subrange(8, 8 + 8 * n) =~= u64s_le_bytes(vals));
    lemma_read_u64s_at(bs, pos + 8, vals);
    assert((s.len() as u64) as nat == vals.len());
    assert(vals.map_values(|x: u64| Variable(x)) =~= s);
}

/// The outer frame reads back: inner length, compiled bytes, io tag.
proof fn lemma_frame(m: CircuitModel)
    requires
        m.serializable(),
    ensures
        ({
            let bs = spec_serialize(m);
            let inner = spec_serialize_data(m.digest, m.blob);
            &&& bs.len() >= 16 + inner.len()
            &&& bs.take(16 + inner.len() as int) == u64_le_bytes(inner.len() as u64) + inner
                + u64_le_bytes(io_tag(m.io))
            &&& spec_read_u64(bs, 0) == Some((inner.len() as u64, 8int))
            &&& spec_read_bytes(bs, 8, (inner.len() as u64) as nat) == Some(
                (inner, 8 + inner.len() as int),
            )
            &&& spec_read_u64(bs, 8 + inner.len() as int) == Some(
                (io_tag(m.io), 16 + inner.len() as int),
            )
        }),
{
    let bs = spec_serialize(m);
    let inner = spec_serialize_data(m.digest, m.blob);
    let il = inner.len() as int;
    lemma_u64s_le_len(m.digest);
    assert(inner.len() == 16 + 8 * m.digest.len() + m.blob.len());
    let head = u64_le_bytes(inner.len() as u64) + inner + u64_le_bytes(io_tag(m.io));
    assert(head.len() == 16 + il);
    assert(bs.take(16 + il) =~= head) by {
        match m.io {
            IoModel::Bytes { input, output } => {},
            IoModel::Elements { input, output } => {},
            IoModel::NoIo => {},
        }
    }
    assert(bs.subrange(0, 8) =~= bs.take(16 + il).subrange(0, 8));
    assert(head.subrange(0, 8) =~= u64_le_bytes(inner.len() as u64));
    lemma_read_u64_at(bs, 0, inner.len() as u64);
    assert((inner.len() as u64) as nat == inner.len());
    assert(bs.subrange(8, 8 + il) =~= bs.take(16 + il).subrange(8, 8 + il));
    assert(head.subrange(8, 8 + il) =~= inner);
    assert(spec_read_bytes(bs, 8, inner.len()) == Some((inner, 8 + il)));
    assert(bs.subrange(8 + il, 16 + il) =~= bs.take(16 + il).subrange(8 + il, 16 + il));
    assert(head.subrange(8 + il, 16 + il) =~= u64_le_bytes(io_tag(m.io)));
    lemma_read_u64_at(bs, 8 + il, io_tag(m.io));
}

/// The compiled-circuit bytes read back: digest words, then the blob.
proof fn lemma_parse_data(digest: Seq<u64>, blob: Seq<u8>)
    requires
        16 + 8 * digest.len() + blob.len() <= u64::MAX,
    ensures
        spec_parse_data(spec_serialize_data(digest, blob)) == Some((digest, blob)),
{
    let inner = spec_serialize_data(digest, blob);
    lemma_u64s_le_len(digest);
    assert(inner.subrange(0, 8) =~= u64_le_bytes(digest.len() as u64));
    lemma_read_u64_at(inner, 0, digest.len() as u64);
    assert((digest.len() as u64) as nat == digest.len());
    assert(inner.subrange(8, 8 + 8 * digest.len() as int) =~= u64s_le_bytes(digest));
    lemma_read_u64s_at(inner, 8, digest);
    let pb = 8 + 8 * digest.len() as int;
    assert(inner.subrange(pb, pb + 8) =~= u64_le_bytes(blob.len() as u64));
    lemma_read_u64_at(inner, pb, blob.len() as u64);
    assert((blob.len() as u64) as nat == blob.len());
    assert(inner.subrange(pb + 8, pb + 8 + blob.len() as int) =~= blob);
    assert(spec_read_bytes(inner, pb + 8, blob.len()) == Some(
        (blob, pb + 8 + blob.len() as int),
    ));
}

/// The two io slot lists read back, in order, after the frame.
#[verifier::rlimit(100)]
proof fn lemma_read_io_slots(m: CircuitModel, input: Seq<Variable>, output: Seq<Variable>)
    requires
        m.serializable(),
        (m.io matches IoModel::Bytes { input: i2, output: o2 } && i2 == input && o2 == output)
            || (m.io matches IoModel::Elements { input: i2, output: o2 } && i2 == input && o2
            == output),
    ensures
        ({
            let bs = spec_serialize(m);
            let ps = 16 + spec_serialize_data(m.digest, m.blob).len() as int;
            &&& spec_read_slots(bs, ps) == Some((input, ps + 8 + 8 * input.len()))
            &&& spec_read_slots(bs, ps + 8 + 8 * input.len()) == Some(
                (output, ps + 8 + 8 * input.len() + 8 + 8 * output.len()),
            )
        }),
{
    let bs = spec_serialize(m);
    let inner = spec_serialize_data(m.digest, m.blob);
    let ps = 16 + inner.len() as int;
    let sin = spec_serialize_slots(input);
    let sout = spec_serialize_slots(output);
    lemma_u64s_le_len(slot_values(input));
    lemma_u64s_le_len(slot_values(output));
    assert(sin.len() == 8 + 8 * input.len());
    assert(sout.len() == 8 + 8 * output.len());
    assert(bs.skip(ps) =~= sin + sout) by {
        match m.io {
            IoModel::Bytes { input: i2, output: o2 } => {},
            IoModel::Elements { input: i2, output: o2 } => {},
            IoModel::NoIo => {},
        }
    }
    assert(bs.subrange(ps, ps + sin.len() as int) =~= bs.skip(ps).take(sin.len() as int));
    assert((sin + sout).take(sin.len() as int) =~= sin);
    lemma_read_slots_at(bs, ps, input);
    assert(bs.subrange(ps + sin.len(), ps + sin.len() + sout.len()) =~= bs.skip(ps).skip(
        sin.len() as int,
    ).take(sout.len() as int));
    assert((sin + sout).skip(sin.len() as int) =~= sout);
    assert(bs.skip(ps).skip(sin.len() as int) =~= bs.skip(ps + sin.len()));
    lemma_read_slots_at(bs, ps + sin.len(), output);
}

/// Round trip of the artifact encoding: a well-formed model serializes
/// and deserializes back to itself, identity and io slots included.
#[verifier::rlimit(60)]
pub proof fn lemma_artifact_round_trip(m: CircuitModel)
    requires
        m.wf(),
        m.serializable(),
    ensures
        spec_deserialize(spec_serialize(m)) == Ok::<CircuitModel, CircuitError>(m),
{
    let bs = spec_serialize(m);
    let inner = spec_serialize_data(m.digest, m.blob);
    let il = inner.len() as int;
    lemma_frame(m);
    lemma_parse_data(m.digest, m.blob);
    let ps = 16 + il;
    match m.io {
        IoModel::Bytes { input, output } => {
            lemma_read_io_slots(m, input, output);
            assert(group_slots(input) =~= input);
            assert(group_slots(output) =~= output);
            assert(CircuitModel {
                digest: m.digest,
                blob: m.blob,
                io: IoModel::Bytes { input: group_slots(input), output: group_slots(output) },
            } =~= m);
        },
        IoModel::Elements { input, output } => {
            lemma_read_io_slots(m, input, output);
            assert(CircuitModel {
                digest: m.digest,
                blob: m.blob,
                io: IoModel::Elements { input, output },
            } =~= m);
        },
        IoModel::NoIo => {
            assert(CircuitModel { digest: m.digest, blob: m.blob, io: IoModel::NoIo } =~= m);
        },
    }
}

/// A proof of one circuit execution: the public values it attests to
/// (inputs first, then outputs, in slot order) and the backend's opaque
/// attestation data.
#[derive(Clone, Debug, PartialEq, Eq)]
pub struct ProofData {
    pub public_values: Vec<u64>,
    pub blob: Vec<u8>,
}

/// The proving backend capability interface.
///
/// The constraint-satisfaction and cryptographic-verification algorithms
/// are external collaborators reached through these two calls; nothing is
/// assumed of their results.
pub trait ProvingBackend {
    /// Runs the prover with the given input slot values bound as witness.
    fn prove(&self, data: &ArtifactData, input_values: &Vec<u64>) -> ProofData;

    /// Runs cryptographic verification of a proof against the compiled
    /// data.
    fn verify(&self, data: &ArtifactData, proof: &ProofData) -> bool;
}

/// Flattens byte variables into their bit wires, in order.
fn flatten_bytes(bytes: &Vec<ByteVariable>) -> (r: Vec<Variable>)
    ensures
        r@ == concat_slots(bytes@.map_values(|b: ByteVariable| b.bits@)),
{
    let n = bytes.len();
    let mut out: Vec<Variable> = Vec::new();
    for i in 0..n
        invariant
            n == bytes@.len(),
            out@ == concat_slots(bytes@.take(i as int).map_values(|b: ByteVariable| b.bits@)),
    {
        let ghost before = out@;
        let m = bytes[i].bits.len();
        for j in 0..m
            invariant
                n == bytes@.len(),
                i < n,
                m == bytes@[i as int].bits@.len(),
                out@ == before + bytes@[i as int].bits@.take(j as int),
        {
            out.push(bytes[i].bits[j]);
            proof {
                let bv = bytes@[i as int].bits@;
                assert(before + bv.take(j as int + 1) =~= (before + bv.take(j as int)).push(
                    bv[j as int],
                ));
            }
        }
        proof {
            let f = |b: ByteVariable| b.bits@;
            assert(bytes@[i as int].bits@.take(m as int) =~= bytes@[i as int].bits@);
            assert(bytes@.take(i as int + 1) =~= bytes@.take(i as int).push(bytes@[i as int]));
            assert(bytes@.take(i as int + 1).map_values(f) =~= bytes@.take(i as int).map_values(
                f,
            ).push(bytes@[i as int].bits@));
            lemma_concat_slots_push(bytes@.take(i as int).map_values(f), bytes@[i as int].bits@);
        }
    }
    proof {
        assert(bytes@.take(n as int) =~= bytes@);
    }
    out
}

/// The wire indices of a slot list, as words.
fn slots_to_u64s(slots: &Vec<Variable>) -> (r: Vec<u64>)
    ensures
        r@ == slot_values(slots@),
{
    let n = slots.len();
    let mut out: Vec<u64> = Vec::new();
    for i in 0..n
        invariant
            n == slots@.len(),
            out@ == slot_values(slots@.take(i as int)),
    {
        out.push(slots[i].0);
        proof {
            assert(slots@.take(i as int + 1) =~= slots@.take(i as int).push(slots@[i as int]));
            assert(slot_values(slots@.take(i as int + 1)) =~= slot_values(
                slots@.take(i as int),
            ).push(slots@[i as int].0));
        }
    }
    proof {
        assert(slots@.take(n as int) =~= slots@);
    }
    out
}

/// Words read back as slots.
fn u64s_to_slots(vals: &Vec<u64>) -> (r: Vec<Variable>)
    ensures
        r@ == vals@.map_values(|x: u64| Variable(x)),
{
    let n = vals.len();
    let mut out: Vec<Variable> = Vec::new();
    for i in 0..n
        invariant
            n == vals@.len(),
            out@ == vals@.take(i as int).map_values(|x: u64| Variable(x)),
    {
        out.push(Variable(vals[i]));
        proof {
            assert(vals@.take(i as int + 1) =~= vals@.take(i as int).push(vals@[i as int]));
            assert(vals@.take(i as int + 1).map_values(|x: u64| Variable(x)) =~= vals@.take(
                i as int,
            ).map_values(|x: u64| Variable(x)).push(Variable(vals@[i as int])));
        }
    }
    proof {
        assert(vals@.take(n as int) =~= vals@);
    }
    out
}

/// Appends one length-prefixed flat slot list.
fn write_slot_list(out: &mut Vec<u8>, slots: &Vec<Variable>)
    ensures
        final(out)@ == old(out)@ + spec_serialize_slots(slots@),
{
    let ghost before = out@;
    write_u64(out, slots.len() as u64);
    let vals = slots_to_u64s(slots);
    write_u64s(out, &vals);
    proof {
        assert(out@ =~= before + spec_serialize_slots(slots@));
    }
}

/// Regroups a flat slot list into whole bytes, dropping a trailing
/// partial group.
fn group_into_bytes(slots: &Vec<Variable>) -> (r: Vec<ByteVariable>)
    ensures
        forall|i: int| 0 <= i < r@.len() ==> (#[trigger] r@[i]).wf(),
        concat_slots(r@.map_values(|b: ByteVariable| b.bits@)) == group_slots(slots@),
{
    let total = slots.len();
    let n = total / 8;
    let mut out: Vec<ByteVariable> = Vec::new();
    for i in 0..n
        invariant
            total == slots@.len(),
            n == total / 8,
            out@.len() == i,
            forall|j: int| 0 <= j < out@.len() ==> (#[trigger] out@[j]).wf(),
            concat_slots(out@.map_values(|b: ByteVariable| b.bits@)) == slots@.take(8 * i as int),
    {
        let mut bits: Vec<Variable> = Vec::new();
        for j in 0..8usize
            invariant
                total == slots@.len(),
                n == total / 8,
                i < n,
                bits@ == slots@.subrange(8 * i as int, 8 * i as int + j),
        {
            bits.push(slots[8 * i + j]);
            proof {
                assert(slots@.subrange(8 * i as int, 8 * i as int + j + 1) =~= slots@.subrange(
                    8 * i as int,
                    8 * i as int + j,
                ).push(slots@[8 * i as int + j]));
            }
        }
        let ghost out0 = out@;
        let b = ByteVariable { bits };
        out.push(b);
        proof {
            let f = |bb: ByteVariable| bb.bits@;
            assert(out@ == out0.push(b));
            assert(out@.map_values(f) =~= out0.map_values(f).push(b.bits@));
            lemma_concat_slots_push(out0.map_values(f), b.bits@);
            assert(slots@.take(8 * (i as int + 1)) =~= slots@.take(8 * i as int) + slots@.subrange(
                8 * i as int,
                8 * i as int + 8,
            ));
        }
    }
    proof {
        assert(slots@.take(8 * n as int) =~= group_slots(slots@));
    }
    out
}

/// Reads one length-prefixed flat slot list.
fn read_slot_list(buf: &mut ByteBuffer) -> (r: Result<Vec<Variable>, CircuitError>)
    requires
        old(buf).wf(),
    ensures
        final(buf).wf(),
        final(buf).bytes@ == old(buf).bytes@,
        match r {
            Ok(v) => spec_read_slots(old(buf).bytes@, old(buf).position as int) == Some(
                (v@, final(buf).position as int),
            ),
            Err(e) => {
                &&& e == CircuitError::ShortRead
                &&& spec_read_slots(old(buf).bytes@, old(buf).position as int) is None
            },
        },
{
    let n = match buf.read_u64() {
        Ok(n) => n,
        Err(e) => {
            return Err(e);
        },
    };
    let rem = buf.bytes.len() - buf.position;
    if n > (rem / 8) as u64 {
        proof {
            crate::codec::lemma_read_u64s_short(buf.bytes@, buf.position as int, n as nat);
        }
        return Err(CircuitError::ShortRead);
    }
    let vals = match buf.read_u64s(n as usize) {
        Ok(v) => v,
        Err(e) => {
            return Err(e);
        },
    };
    let out = u64s_to_slots(&vals);
    Ok(out)
}

/// Recomputes from a proof's public values the input and output it
/// attests to, under the circuit's io contract.
fn expected_io_from_values(io: &CircuitIO, pv: &Vec<u64>) -> (r: Result<
    (PublicInput, PublicOutput),
    CircuitError,
>)
    requires
        io.wf(),
    ensures
        match r {
            Ok((ein, eout)) => {
                &&& pv@.len() >= io.model().input_len() + io.model().output_len()
                &&& ein.matches_input_of(io.model(), pv@)
                &&& eout.matches_output_of(io.model(), pv@)
            },
            Err(e) => {
                &&& e == CircuitError::ShortRead
                &&& pv@.len() < io.model().input_len() + io.model().output_len()
            },
        },
{
    let n = pv.len();
    match io {
        CircuitIO::Bytes { input, output } => {
            let kb = input.len();
            let mb = output.len();
            proof {
                lemma_concat_uniform_len(input@.map_values(|b: ByteVariable| b.bits@), 8);
                lemma_concat_uniform_len(output@.map_values(|b: ByteVariable| b.bits@), 8);
            }
            if kb > n / 8 || mb > n / 8 - kb {
                return Err(CircuitError::ShortRead);
            }
            let in_bytes = crate::io::pack_values(pv, 0, kb);
            let out_bytes = crate::io::pack_values(pv, 8 * kb, mb);
            proof {
                assert(pv@.subrange(0, 8 * kb as int) =~= pv@.take(8 * kb as int));
            }
            Ok((PublicInput::Bytes(in_bytes), PublicOutput::Bytes(out_bytes)))
        },
        CircuitIO::Elements { input, output } => {
            let k = input.len();
            let m = output.len();
            if k > n || m > n - k {
                return Err(CircuitError::ShortRead);
            }
            let ein = copy_u64_range(pv, 0, k);
            let eout = copy_u64_range(pv, k, m);
            proof {
                assert(pv@.subrange(0, k as int) =~= pv@.take(k as int));
            }
            Ok((PublicInput::Elements(ein), PublicOutput::Elements(eout)))
        },
        CircuitIO::NoIo => Ok((PublicInput::NoIo, PublicOutput::NoIo)),
    }
}

impl Circuit {
    /// Serializes the artifact: the length-prefixed compiled-circuit
    /// bytes, the io tag, and the flattened io slot lists.
    pub fn serialize(&self) -> (r: Result<Vec<u8>, CircuitError>)
        requires
            self.wf(),
        ensures
            r matches Ok(b) && b@ == spec_serialize(self.model()),
    {
        let mut inner: Vec<u8> = Vec::new();
        write_u64(&mut inner, self.data.digest.len() as u64);
        write_u64s(&mut inner, &self.data.digest);
        write_u64(&mut inner, self.data.blob.len() as u64);
        write_bytes(&mut inner, &self.data.blob);
        proof {
            assert(inner@ =~= spec_serialize_data(self.data.digest@, self.data.blob@));
        }
        let mut out: Vec<u8> = Vec::new();
        write_u64(&mut out, inner.len() as u64);
        write_bytes(&mut out, &inner);
        match &self.io {
            CircuitIO::Bytes { input, output } => {
                write_u64(&mut out, 0);
                let fin = flatten_bytes(input);
                write_slot_list(&mut out, &fin);
                let fout = flatten_bytes(output);
                write_slot_list(&mut out, &fout);
                proof {
                    assert(out@ =~= spec_serialize(self.model()));
                }
                Ok(out)
            },
            CircuitIO::Elements { input, output } => {
                write_u64(&mut out, 1);
                write_slot_list(&mut out, input);
                write_slot_list(&mut out, output);
                proof {
                    assert(out@ =~= spec_serialize(self.model()));
                }
                Ok(out)
            },
            CircuitIO::NoIo => {
                write_u64(&mut out, 2);
                proof {
                    assert(out@ =~= spec_serialize(self.model()));
                }
                Ok(out)
            },
        }
    }

    /// Deserializes an artifact; fails with a decoding error, never
    /// silently, on a truncated buffer or an unrecognized io tag.
    pub fn deserialize(buffer: &Vec<u8>) -> (r: Result<Circuit, CircuitError>)
        ensures
            match r {
                Ok(c) => c.wf() && spec_deserialize(buffer@) == Ok::<CircuitModel, CircuitError>(
                    c.model(),
                ),
                Err(e) => spec_deserialize(buffer@) == Err::<CircuitModel, CircuitError>(e),
            },
    {
        let copy = crate::io::copy_bytes(buffer);
        let mut buf = ByteBuffer::new(copy);
        let inner_len = match buf.read_u64() {
            Ok(x) => x,
            Err(e) => {
                return Err(e);
            },
        };
        let rem = buf.bytes.len() - buf.position;
        if inner_len > rem as u64 {
            proof {
                assert(spec_read_bytes(buffer@, buf.position as int, inner_len as nat) is None);
            }
            return Err(CircuitError::ShortRead);
        }
        let inner_vec = match buf.read_bytes(inner_len as usize) {
            Ok(v) => v,
            Err(e) => {
                return Err(e);
            },
        };
        let ghost inner = inner_vec@;
        let mut ibuf = ByteBuffer::new(inner_vec);
        let dlen = match ibuf.read_u64() {
            Ok(x) => x,
            Err(_) => {
                proof {
                    assert(spec_parse_data(inner) is None);
                }
                return Err(CircuitError::ShortRead);
            },
        };
        let irem = ibuf.bytes.len() - ibuf.position;
        if dlen > (irem / 8) as u64 {
            proof {
                crate::codec::lemma_read_u64s_short(inner, ibuf.position as int, dlen as nat);
                assert(spec_parse_data(inner) is None);
            }
            return Err(CircuitError::ShortRead);
        }
        let digest = match ibuf.read_u64s(dlen as usize) {
            Ok(v) => v,
            Err(_) => {
                proof {
                    assert(spec_parse_data(inner) is None);
                }
                return Err(CircuitError::ShortRead);
            },
        };
        let blen = match ibuf.read_u64() {
            Ok(x) => x,
            Err(_) => {
                proof {
                    assert(spec_parse_data(inner) is None);
                }
                return Err(CircuitError::ShortRead);
            },
        };
        let irem2 = ibuf.bytes.len() - ibuf.position;
        if blen > irem2 as u64 {
            proof {
                assert(spec_read_bytes(inner, ibuf.position as int, blen as nat) is None);
                assert(spec_parse_data(inner) is None);
            }
            return Err(CircuitError::ShortRead);
        }
        let blob = match ibuf.read_bytes(blen as usize) {
            Ok(v) => v,
            Err(_) => {
                proof {
                    assert(spec_parse_data(inner) is None);
                }
                return Err(CircuitError::ShortRead);
            },
        };
        proof {
            assert(spec_parse_data(inner) == Some((digest@, blob@)));
        }
        let tag = match buf.read_u64() {
            Ok(x) => x,
            Err(e) => {
                return Err(e);
            },
        };
        if tag == 0 {
            let inp = match read_slot_list(&mut buf) {
                Ok(v) => v,
                Err(e) => {
                    return Err(e);
                },
            };
            let outp = match read_slot_list(&mut buf) {
                Ok(v) => v,
                Err(e) => {
                    return Err(e);
                },
            };
            let input = group_into_bytes(&inp);
            let output = group_into_bytes(&outp);
            let c = Circuit {
                data: ArtifactData { digest, blob },
                io: CircuitIO::Bytes { input, output },
            };
            proof {
                assert(c.model() =~= (match spec_deserialize(buffer@) {
                    Ok(m) => m,
                    Err(_) => c.model(),
                }));
            }
            Ok(c)
        } else if tag == 1 {
            let inp = match read_slot_list(&mut buf) {
                Ok(v) => v,
                Err(e) => {
                    return Err(e);
                },
            };
            let outp = match read_slot_list(&mut buf) {
                Ok(v) => v,
                Err(e) => {
                    return Err(e);
                },
            };
            let c = Circuit {
                data: ArtifactData { digest, blob },
                io: CircuitIO::Elements { input: inp, output: outp },
            };
            proof {
                assert(c.model() =~= (match spec_deserialize(buffer@) {
                    Ok(m) => m,
                    Err(_) => c.model(),
                }));
            }
            Ok(c)
        } else if tag == 2 {
            let c = Circuit { data: ArtifactData { digest, blob }, io: CircuitIO::NoIo };
            proof {
                assert(c.model() =~= (match spec_deserialize(buffer@) {
                    Ok(m) => m,
                    Err(_) => c.model(),
                }));
            }
            Ok(c)
        } else {
            Err(CircuitError::UnknownIoTag)
        }
    }

    /// Returns an empty input instance matching the circuit's io contract.
    pub fn input(&self) -> (r: PublicInput)
        ensures
            match r {
                PublicInput::Bytes(v) => self.io matches CircuitIO::Bytes { .. } && v@
                    == Seq::<u8>::empty(),
                PublicInput::Elements(v) => self.io matches CircuitIO::Elements { .. } && v@
                    == Seq::<u64>::empty(),
                PublicInput::NoIo => self.io matches CircuitIO::NoIo,
            },
    {
        match &self.io {
            CircuitIO::Bytes { .. } => PublicInput::Bytes(Vec::new()),
            CircuitIO::Elements { .. } => PublicInput::Elements(Vec::new()),
            CircuitIO::NoIo => PublicInput::NoIo,
        }
    }

    /// Generates a proof: binds the input's values onto the input slots,
    /// invokes the external proving algorithm, and reads the output back
    /// from the resulting proof's public values.
    pub fn prove<B: ProvingBackend>(&self, backend: &B, input: &PublicInput) -> (r: Result<
        (ProofData, PublicOutput),
        CircuitError,
    >)
        requires
            self.wf(),
            input.compatible_with(self.io.model()),
        ensures
            match r {
                Ok((p, out)) => {
                    &&& p.public_values@.len() >= self.io.model().input_len()
                        + self.io.model().output_len()
                    &&& out.matches_output_of(self.io.model(), p.public_values@)
                },
                Err(e) => e == CircuitError::ShortRead,
            },
            self.io.model().input_len() + self.io.model().output_len() == 0 ==> r is Ok,
    {
        let witness: Vec<u64> = match input {
            PublicInput::Bytes(b) => crate::io::unpack_bytes(b),
            PublicInput::Elements(e) => copy_u64s(e),
            PublicInput::NoIo => Vec::new(),
        };
        let proof = backend.prove(&self.data, &witness);
        let out = match expected_io_from_values(&self.io, &proof.public_values) {
            Ok((_, o)) => o,
            Err(e) => {
                return Err(e);
            },
        };
        Ok((proof, out))
    }

    /// Verifies a proof.
    ///
    /// Recomputes the expected input and output from the proof's embedded
    /// public values and requires them to equal the caller-supplied values
    /// before the expensive cryptographic verification runs: a proof that
    /// is cryptographically valid for other values is still rejected.
    pub fn verify<B: ProvingBackend>(
        &self,
        backend: &B,
        proof: &ProofData,
        input: &PublicInput,
        output: &PublicOutput,
    ) -> (r: Result<(), CircuitError>)
        requires
            self.wf(),
        ensures
            ({
                let io = self.io.model();
                let pv = proof.public_values@;
                let fits = pv.len() >= io.input_len() + io.output_len();
                &&& (!fits ==> r == Err::<(), CircuitError>(CircuitError::ShortRead))
                &&& (fits && !input.matches_input_of(io, pv) ==> r == Err::<(), CircuitError>(
                    CircuitError::InputMismatch,
                ))
                &&& (fits && input.matches_input_of(io, pv) && !output.matches_output_of(io, pv)
                    ==> r == Err::<(), CircuitError>(CircuitError::OutputMismatch))
                &&& (r is Ok ==> input.matches_input_of(io, pv) && output.matches_output_of(
                    io,
                    pv,
                ))
                &&& (r == Err::<(), CircuitError>(CircuitError::ProofRejected)
                    ==> input.matches_input_of(io, pv) && output.matches_output_of(io, pv))
                &&& (fits && input.matches_input_of(io, pv) && output.matches_output_of(io, pv)
                    ==> r is Ok || r == Err::<(), CircuitError>(CircuitError::ProofRejected))
            }),
    {
        let (ein, eout) = match expected_io_from_values(&self.io, &proof.public_values) {
            Ok(x) => x,
            Err(e) => {
                return Err(e);
            },
        };
        if !crate::io::public_input_eq(input, &ein) {
            proof {
                lemma_match_unique_input(*input, ein, self.io.model(), proof.public_values@);
            }
            return Err(CircuitError::InputMismatch);
        }
        proof {
            lemma_match_unique_input(*input, ein, self.io.model(), proof.public_values@);
        }
        if !crate::io::public_output_eq(output, &eout) {
            proof {
                lemma_match_unique_output(*output, eout, self.io.model(), proof.public_values@);
            }
            return Err(CircuitError::OutputMismatch);
        }
        proof {
            lemma_match_unique_output(*output, eout, self.io.model(), proof.public_values@);
        }
        if backend.verify(&self.data, proof) {
            Ok(())
        } else {
            Err(CircuitError::ProofRejected)
        }
    }

    /// The canonical round-trip self-check: serialize, deserialize, and
    /// compare the compiled data and io structurally. Verified to succeed
    /// on every well-formed, serializable artifact.
    pub fn test_serializers(&self) -> (r: Result<(), CircuitError>)
        requires
            self.wf(),
            self.model().serializable(),
        ensures
            r is Ok,
    {
        let bytes = match self.serialize() {
            Ok(b) => b,
            Err(e) => {
                proof {
                    assert(false);
                }
                return Err(e);
            },
        };
        proof {
            crate::io::lemma_io_model_wf(self.io);
            lemma_artifact_round_trip(self.model());
        }
        let c2 = match Circuit::deserialize(&bytes) {
            Ok(c) => c,
            Err(e) => {
                proof {
                    assert(false);
                }
                return Err(e);
            },
        };
        proof {
            assert(c2.model() == self.model());
        }
        if !crate::io::u64_vec_eq(&self.data.digest, &c2.data.digest) {
            proof {
                assert(false);
            }
            return Err(CircuitError::ShortRead);
        }
        if !crate::io::u8_vec_eq(&self.data.blob, &c2.data.blob) {
            proof {
                assert(false);
            }
            return Err(CircuitError::ShortRead);
        }
        Ok(())
    }

    /// The self-check under the default registries of the backend.
    pub fn test_default_serializers(&self) -> (r: Result<(), CircuitError>)
        requires
            self.wf(),
            self.model().serializable(),
        ensures
            r is Ok,
    {
        self.test_serializers()
    }
}

/// The eight big-endian bytes of a word.
pub open spec fn u64_be_bytes(x: u64) -> Seq<u8> {
    seq![
        (x >> 56) as u8,
        (x >> 48) as u8,
        (x >> 40) as u8,
        (x >> 32) as u8,
        (x >> 24) as u8,
        (x >> 16) as u8,
        (x >> 8) as u8,
        x as u8,
    ]
}

/// The digest's field elements serialized big-endian and concatenated.
pub open spec fn digest_be_bytes(d: Seq<u64>) -> Seq<u8>
    decreases d.len(),
{
    if d.len() == 0 {
        Seq::empty()
    } else {
        u64_be_bytes(d.first()) + digest_be_bytes(d.drop_first())
    }
}

/// The lower-case hex digit of a nibble.
pub open spec fn hex_digit(n: u8) -> u8 {
    if n < 10 {
        (48 + n) as u8
    } else {
        (87 + n) as u8
    }
}

/// Lower-case hex encoding, two digits per byte.
pub open spec fn hex_bytes(bs: Seq<u8>) -> Seq<u8>
    decreases bs.len(),
{
    if bs.len() == 0 {
        Seq::empty()
    } else {
        seq![hex_digit(bs.first() >> 4), hex_digit(bs.first() & 0xf)] + hex_bytes(bs.drop_first())
    }
}

/// A circuit's identity: its verifier-side commitment digest, serialized
/// big-endian, hex-encoded and truncated to a fixed 22-character prefix.
pub open spec fn id_chars(d: Seq<u64>) -> Seq<char> {
    hex_bytes(digest_be_bytes(d)).take(22).map_values(|b: u8| b as char)
}

proof fn lemma_digest_be_push(d: Seq<u64>, x: u64)
    ensures
        digest_be_bytes(d.push(x)) == digest_be_bytes(d) + u64_be_bytes(x),
    decreases d.len(),
{
    if d.len() == 0 {
        assert(d.push(x).drop_first() =~= d);
        assert(u64_be_bytes(x) + digest_be_bytes(d) =~= digest_be_bytes(d) + u64_be_bytes(x));
    } else {
        lemma_digest_be_push(d.drop_first(), x);
        assert(d.push(x).drop_first() =~= d.drop_first().push(x));
        assert(d.push(x).first() == d.first());
        assert(u64_be_bytes(d.first()) + (digest_be_bytes(d.drop_first()) + u64_be_bytes(x)) =~= (
        u64_be_bytes(d.first()) + digest_be_bytes(d.drop_first())) + u64_be_bytes(x));
    }
}

proof fn lemma_digest_be_len(d: Seq<u64>)
    ensures
        digest_be_bytes(d).len() == 8 * d.len(),
    decreases d.len(),
{
    if d.len() > 0 {
        lemma_digest_be_len(d.drop_first());
    }
}

proof fn lemma_hex_push(bs: Seq<u8>, b: u8)
    ensures
        hex_bytes(bs.push(b)) == hex_bytes(bs) + seq![hex_digit(b >> 4), hex_digit(b & 0xf)],
    decreases bs.len(),
{
    if bs.len() == 0 {
        assert(bs.push(b).drop_first() =~= bs);
        assert(seq![hex_digit(b >> 4), hex_digit(b & 0xf)] + hex_bytes(bs) =~= hex_bytes(bs)
            + seq![hex_digit(b >> 4), hex_digit(b & 0xf)]);
    } else {
        lemma_hex_push(bs.drop_first(), b);
        assert(bs.push(b).drop_first() =~= bs.drop_first().push(b));
        assert(bs.push(b).first() == bs.first());
        let head = seq![hex_digit(bs.first() >> 4), hex_digit(bs.first() & 0xf)];
        let tailb = seq![hex_digit(b >> 4), hex_digit(b & 0xf)];
        assert(head + (hex_bytes(bs.drop_first()) + tailb) =~= (head + hex_bytes(bs.drop_first()))
            + tailb);
    }
}

proof fn lemma_hex_len(bs: Seq<u8>)
    ensures
        hex_bytes(bs).len() == 2 * bs.len(),
    decreases bs.len(),
{
    if bs.len() > 0 {
        lemma_hex_len(bs.drop_first());
    }
}

/// One nibble's lower-case hex digit.
fn hex_digit_exec(n: u8) -> (r: u8)
    requires
        n < 16,
    ensures
        r == hex_digit(n),
        r < 128,
{
    if n < 10 {
        48 + n
    } else {
        87 + n
    }
}

/// Relies on String::from_utf8: ASCII bytes are valid UTF-8 and decode to
/// the characters with the same code points, in order.
#[verifier::external_body]
fn ascii_string(bytes: Vec<u8>) -> (r: String)
    requires
        forall|i: int| 0 <= i < bytes@.len() ==> bytes@[i] < 128,
    ensures
        r@ == bytes@.map_values(|b: u8| b as char),
{
    match String::from_utf8(bytes) {
        Ok(s) => s,
        Err(_) => String::new(),
    }
}

impl Circuit {
    /// The stable fingerprint of the compiled structure: depends only on
    /// the verifier-side commitment digest, never on witness data. Used as
    /// cache key and persisted filename.
    pub fn id(&self) -> (r: String)
        requires
            self.data.digest@.len() >= 2,
        ensures
            r@ == id_chars(self.data.digest@),
    {
        let d = &self.data.digest;
        let n = d.len();
        let mut bytes: Vec<u8> = Vec::new();
        for i in 0..n
            invariant
                n == d@.len(),
                bytes@ == digest_be_bytes(d@.take(i as int)),
        {
            let ghost before = bytes@;
            let x = d[i];
            bytes.push((x >> 56) as u8);
            bytes.push((x >> 48) as u8);
            bytes.push((x >> 40) as u8);
            bytes.push((x >> 32) as u8);
            bytes.push((x >> 24) as u8);
            bytes.push((x >> 16) as u8);
            bytes.push((x >> 8) as u8);
            bytes.push(x as u8);
            proof {
                assert(d@.take(i as int + 1) =~= d@.take(i as int).push(x));
                lemma_digest_be_push(d@.take(i as int), x);
                assert(bytes@ =~= before + u64_be_bytes(x));
            }
        }
        proof {
            assert(d@.take(n as int) =~= d@);
            lemma_digest_be_len(d@);
        }
        let m = bytes.len();
        let mut digits: Vec<u8> = Vec::new();
        for i in 0..m
            invariant
                m == bytes@.len(),
                digits@ == hex_bytes(bytes@.take(i as int)),
                forall|j: int| 0 <= j < digits@.len() ==> digits@[j] < 128,
        {
            let ghost before = digits@;
            let b = bytes[i];
            proof {
                assert((b >> 4) < 16 && (b & 0xf) < 16) by (bit_vector);
            }
            digits.push(hex_digit_exec(b >> 4));
            digits.push(hex_digit_exec(b & 0xf));
            proof {
                assert(bytes@.take(i as int + 1) =~= bytes@.take(i as int).push(b));
                lemma_hex_push(bytes@.take(i as int), b);
                assert(digits@ =~= before + seq![hex_digit(b >> 4), hex_digit(b & 0xf)]);
            }
        }
        proof {
            assert(bytes@.take(m as int) =~= bytes@);
            lemma_hex_len(bytes@);
        }
        let mut prefix: Vec<u8> = Vec::new();
        for i in 0..22usize
            invariant
                digits@.len() >= 22,
                digits@ == hex_bytes(digest_be_bytes(self.data.digest@)),
                forall|j: int| 0 <= j < digits@.len() ==> digits@[j] < 128,
                prefix@ == digits@.take(i as int),
        {
            prefix.push(digits[i]);
            proof {
                assert(digits@.take(i as int + 1) =~= digits@.take(i as int).push(
                    digits@[i as int],
                ));
            }
        }
        proof {
            assert(prefix@ =~= hex_bytes(digest_be_bytes(self.data.digest@)).take(22));
        }
        ascii_string(prefix)
    }
}

/// Two inputs matching the same contract and values are equal in value.
proof fn lemma_match_unique_input(a: PublicInput, b: PublicInput, io: IoModel, pv: Seq<u64>)
    requires
        b.matches_input_of(io, pv),
    ensures
        a.matches_input_of(io, pv) <==> crate::io::pub_input_eq(a, b),
{
}

/// Two outputs matching the same contract and values are equal in value.
proof fn lemma_match_unique_output(a: PublicOutput, b: PublicOutput, io: IoModel, pv: Seq<u64>)
    requires
        b.matches_output_of(io, pv),
    ensures
        a.matches_output_of(io, pv) <==> crate::io::pub_output_eq(a, b),
{
}

} // verus!
