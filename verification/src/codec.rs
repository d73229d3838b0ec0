use vstd::prelude::*;

use crate::error::CircuitError;

verus! {

/// The eight little-endian bytes of a word.
pub open spec fn u64_le_bytes(x: u64) -> Seq<u8> {
    seq![
        x as u8,
        (x >> 8) as u8,
        (x >> 16) as u8,
        (x >> 24) as u8,
        (x >> 32) as u8,
        (x >> 40) as u8,
        (x >> 48) as u8,
        (x >> 56) as u8,
    ]
}

/// The word read back from eight little-endian bytes.
pub open spec fn u64_from_le(s: Seq<u8>) -> u64 {
    (s[0] as u64) | ((s[1] as u64) << 8) | ((s[2] as u64) << 16) | ((s[3] as u64) << 24) | ((
    s[4] as u64) << 32) | ((s[5] as u64) << 40) | ((s[6] as u64) << 48) | ((s[7] as u64) << 56)
}

/// The little-endian encoding of a sequence of words, in order.
pub open spec fn u64s_le_bytes(s: Seq<u64>) -> Seq<u8>
    decreases s.len(),
{
    if s.len() == 0 {
        Seq::empty()
    } else {
        u64_le_bytes(s.first()) + u64s_le_bytes(s.drop_first())
    }
}

pub proof fn lemma_u64_le_round_trip(x: u64)
    ensures
        u64_from_le(u64_le_bytes(x)) == x,
{
    assert(((x as u8) as u64) | (((x >> 8) as u8) as u64) << 8 | (((x >> 16) as u8) as u64) << 16
        | (((x >> 24) as u8) as u64) << 24 | (((x >> 32) as u8) as u64) << 32 | (((x >> 40) as u8)
        as u64) << 40 | (((x >> 48) as u8) as u64) << 48 | (((x >> 56) as u8) as u64) << 56 == x)
        by (bit_vector);
}

pub proof fn lemma_u64s_le_len(s: Seq<u64>)
    ensures
        u64s_le_bytes(s).len() == 8 * s.len(),
    decreases s.len(),
{
    if s.len() > 0 {
        lemma_u64s_le_len(s.drop_first());
    }
}

pub proof fn lemma_u64s_le_push(s: Seq<u64>, x: u64)
    ensures
        u64s_le_bytes(s.push(x)) == u64s_le_bytes(s) + u64_le_bytes(x),
    decreases s.len(),
{
    if s.len() == 0 {
        assert(s.push(x).drop_first() =~= s);
        assert(u64s_le_bytes(s.push(x)) == u64_le_bytes(x) + u64s_le_bytes(s));
        assert(u64_le_bytes(x) + u64s_le_bytes(s) =~= u64s_le_bytes(s) + u64_le_bytes(x));
    } else {
        lemma_u64s_le_push(s.drop_first(), x);
        assert(s.push(x).drop_first() =~= s.drop_first().push(x));
        assert(s.push(x).first() == s.first());
        assert(u64_le_bytes(s.first()) + (u64s_le_bytes(s.drop_first()) + u64_le_bytes(x)) =~= (
        u64_le_bytes(s.first()) + u64s_le_bytes(s.drop_first())) + u64_le_bytes(x));
    }
}

/// Splitting a prefix of a byte sequence at an interior point.
pub proof fn lemma_byte_take_split(s: Seq<u8>, a: int, b: int)
    requires
        0 <= a,
        0 <= b,
        a + b <= s.len(),
    ensures
        s.take(a + b) == s.take(a) + s.skip(a).take(b),
{
    assert(s.take(a + b) =~= s.take(a) + s.skip(a).take(b));
}

/// Reads one little-endian word at `pos`; fails past the end.
pub open spec fn spec_read_u64(bs: Seq<u8>, pos: int) -> Option<(u64, int)> {
    if 0 <= pos && pos + 8 <= bs.len() {
        Some((u64_from_le(bs.subrange(pos, pos + 8)), pos + 8))
    } else {
        None
    }
}

/// Reads `n` little-endian words at `pos`.
pub open spec fn spec_read_u64s(bs: Seq<u8>, pos: int, n: nat) -> Option<(Seq<u64>, int)>
    decreases n,
{
    if n == 0 {
        Some((Seq::empty(), pos))
    } else {
        match spec_read_u64(bs, pos) {
            None => None,
            Some((x, p1)) => match spec_read_u64s(bs, p1, (n - 1) as nat) {
                None => None,
                Some((rest, p2)) => Some((seq![x] + rest, p2)),
            },
        }
    }
}

/// Reads `n` raw bytes at `pos`.
pub open spec fn spec_read_bytes(bs: Seq<u8>, pos: int, n: nat) -> Option<(Seq<u8>, int)> {
    if 0 <= pos && pos + n <= bs.len() {
        Some((bs.subrange(pos, pos + n), pos + n))
    } else {
        None
    }
}

/// Reading words past the end of the buffer fails.
pub proof fn lemma_read_u64s_short(bs: Seq<u8>, pos: int, n: nat)
    requires
        0 <= pos,
        n > 0,
        pos + 8 * n > bs.len(),
    ensures
        spec_read_u64s(bs, pos, n) is None,
    decreases n,
{
    if pos + 8 <= bs.len() {
        lemma_read_u64s_short(bs, pos + 8, (n - 1) as nat);
    }
}

/// A word whose little-endian bytes lie at `pos` reads back unchanged.
pub proof fn lemma_read_u64_at(bs: Seq<u8>, pos: int, x: u64)
    requires
        0 <= pos,
        pos + 8 <= bs.len(),
        bs.subrange(pos, pos + 8) == u64_le_bytes(x),
    ensures
        spec_read_u64(bs, pos) == Some((x, pos + 8)),
{
    lemma_u64_le_round_trip(x);
}

/// Words whose little-endian bytes lie at `pos` read back unchanged.
pub proof fn lemma_read_u64s_at(bs: Seq<u8>, pos: int, vals: Seq<u64>)
    requires
        0 <= pos,
        pos + 8 * vals.len() <= bs.len(),
        bs.subrange(pos, pos + 8 * vals.len()) == u64s_le_bytes(vals),
    ensures
        spec_read_u64s(bs, pos, vals.len()) == Some((vals, pos + 8 * vals.len())),
    decreases vals.len(),
{
    if vals.len() > 0 {
        lemma_u64s_le_len(vals.drop_first());
        assert(bs.subrange(pos, pos + 8) =~= bs.subrange(pos, pos + 8 * vals.len()).subrange(
            0,
            8,
        ));
        assert(u64s_le_bytes(vals).subrange(0, 8) =~= u64_le_bytes(vals.first()));
        lemma_read_u64_at(bs, pos, vals.first());
        assert(bs.subrange(pos + 8, pos + 8 * vals.len()) =~= bs.subrange(
            pos,
            pos + 8 * vals.len(),
        ).subrange(8, 8 * vals.len() as int));
        assert(u64s_le_bytes(vals).subrange(8, 8 * vals.len() as int) =~= u64s_le_bytes(
            vals.drop_first(),
        ));
        assert(bs.subrange(pos + 8, pos + 8 + 8 * vals.drop_first().len()) =~= bs.subrange(
            pos + 8,
            pos + 8 * vals.len(),
        ));
        lemma_read_u64s_at(bs, pos + 8, vals.drop_first());
        assert(seq![vals.first()] + vals.drop_first() =~= vals);
    }
}

/// Appends the little-endian bytes of one word.
pub fn write_u64(out: &mut Vec<u8>, x: u64)
    ensures
        final(out)@ == old(out)@ + u64_le_bytes(x),
{
    let ghost before = out@;
    out.push(x as u8);
    out.push((x >> 8) as u8);
    out.push((x >> 16) as u8);
    out.push((x >> 24) as u8);
    out.push((x >> 32) as u8);
    out.push((x >> 40) as u8);
    out.push((x >> 48) as u8);
    out.push((x >> 56) as u8);
    proof {
        assert(out@ =~= before + u64_le_bytes(x));
    }
}

/// Appends raw bytes.
pub fn write_bytes(out: &mut Vec<u8>, bytes: &Vec<u8>)
    ensures
        final(out)@ == old(out)@ + bytes@,
{
    let n = bytes.len();
    for i in 0..n
        invariant
            n == bytes@.len(),
            out@ == old(out)@ + bytes@.take(i as int),
    {
        out.push(bytes[i]);
        proof {
            assert(old(out)@ + bytes@.take(i as int + 1) =~= (old(out)@ + bytes@.take(
                i as int,
            )).push(bytes@[i as int]));
        }
    }
    proof {
        assert(bytes@.take(n as int) =~= bytes@);
    }
}

/// Appends the little-endian bytes of each word, in order.
pub fn write_u64s(out: &mut Vec<u8>, vals: &Vec<u64>)
    ensures
        final(out)@ == old(out)@ + u64s_le_bytes(vals@),
{
    let n = vals.len();
    for i in 0..n
        invariant
            n == vals@.len(),
            out@ == old(out)@ + u64s_le_bytes(vals@.take(i as int)),
    {
        write_u64(out, vals[i]);
        proof {
            assert(vals@.take(i as int + 1) =~= vals@.take(i as int).push(vals@[i as int]));
            lemma_u64s_le_push(vals@.take(i as int), vals@[i as int]);
            assert(old(out)@ + u64s_le_bytes(vals@.take(i as int + 1)) =~= (old(out)@
                + u64s_le_bytes(vals@.take(i as int))) + u64_le_bytes(vals@[i as int]));
        }
    }
    proof {
        assert(vals@.take(n as int) =~= vals@);
    }
}

/// A single-pass cursor over a byte buffer, for decoding.
pub struct ByteBuffer {
    pub bytes: Vec<u8>,
    pub position: usize,
}

impl ByteBuffer {
    pub open spec fn wf(self) -> bool {
        self.position <= self.bytes@.len()
    }

    pub fn new(bytes: Vec<u8>) -> (r: ByteBuffer)
        ensures
            r.wf(),
            r.bytes@ == bytes@,
            r.position == 0,
    {
        ByteBuffer { bytes, position: 0 }
    }

    /// Reads one little-endian word; fails without moving on a short
    /// buffer.
    pub fn read_u64(&mut self) -> (r: Result<u64, CircuitError>)
        requires
            old(self).wf(),
        ensures
            final(self).wf(),
            final(self).bytes@ == old(self).bytes@,
            match r {
                Ok(x) => {
                    &&& spec_read_u64(old(self).bytes@, old(self).position as int) == Some(
                        (x, old(self).position + 8),
                    )
                    &&& final(self).position == old(self).position + 8
                },
                Err(e) => {
                    &&& e == CircuitError::ShortRead
                    &&& spec_read_u64(old(self).bytes@, old(self).position as int) is None
                    &&& final(self).position == old(self).position
                },
            },
    {
        if self.bytes.len() - self.position < 8 {
            return Err(CircuitError::ShortRead);
        }
        let p = self.position;
        let x: u64 = (self.bytes[p] as u64) | ((self.bytes[p + 1] as u64) << 8) | ((self.bytes[p
            + 2] as u64) << 16) | ((self.bytes[p + 3] as u64) << 24) | ((self.bytes[p + 4] as u64)
            << 32) | ((self.bytes[p + 5] as u64) << 40) | ((self.bytes[p + 6] as u64) << 48) | ((
        self.bytes[p + 7] as u64) << 56);
        self.position = p + 8;
        proof {
            let sub = self.bytes@.subrange(p as int, p as int + 8);
            assert(sub[0] == self.bytes@[p as int]);
            assert(sub[1] == self.bytes@[p as int + 1]);
            assert(sub[2] == self.bytes@[p as int + 2]);
            assert(sub[3] == self.bytes@[p as int + 3]);
            assert(sub[4] == self.bytes@[p as int + 4]);
            assert(sub[5] == self.bytes@[p as int + 5]);
            assert(sub[6] == self.bytes@[p as int + 6]);
            assert(sub[7] == self.bytes@[p as int + 7]);
        }
        Ok(x)
    }

    /// Reads `n` raw bytes; fails without moving on a short buffer.
    pub fn read_bytes(&mut self, n: usize) -> (r: Result<Vec<u8>, CircuitError>)
        requires
            old(self).wf(),
        ensures
            final(self).wf(),
            final(self).bytes@ == old(self).bytes@,
            match r {
                Ok(v) => {
                    &&& spec_read_bytes(old(self).bytes@, old(self).position as int, n as nat)
                        == Some((v@, old(self).position + n))
                    &&& final(self).position == old(self).position + n
                },
                Err(e) => {
                    &&& e == CircuitError::ShortRead
                    &&& spec_read_bytes(old(self).bytes@, old(self).position as int, n as nat)
                        is None
                    &&& final(self).position == old(self).position
                },
            },
    {
        if self.bytes.len() - self.position < n {
            return Err(CircuitError::ShortRead);
        }
        let base = self.position;
        let mut out: Vec<u8> = Vec::new();
        for i in 0..n
            invariant
                self.wf(),
                self.bytes@ == old(self).bytes@,
                self.position == base,
                base == old(self).position,
                base + n <= self.bytes@.len(),
                base + n <= usize::MAX,
                out@ == old(self).bytes@.subrange(base as int, base as int + i),
        {
            out.push(self.bytes[base + i]);
            proof {
                assert(old(self).bytes@.subrange(base as int, base as int + i + 1) =~= old(
                    self,
                ).bytes@.subrange(base as int, base as int + i).push(
                    old(self).bytes@[base as int + i],
                ));
            }
        }
        self.position = base + n;
        Ok(out)
    }

    /// Reads `n` little-endian words; fails on a short buffer.
    pub fn read_u64s(&mut self, n: usize) -> (r: Result<Vec<u64>, CircuitError>)
        requires
            old(self).wf(),
        ensures
            final(self).wf(),
            final(self).bytes@ == old(self).bytes@,
            match r {
                Ok(v) => {
                    &&& v@.len() == n
                    &&& spec_read_u64s(old(self).bytes@, old(self).position as int, n as nat)
                        == Some((v@, final(self).position as int))
                    &&& final(self).position >= old(self).position
                },
                Err(e) => {
                    &&& e == CircuitError::ShortRead
                    &&& spec_read_u64s(old(self).bytes@, old(self).position as int, n as nat)
                        is None
                    &&& old(self).position <= final(self).position <= final(self).bytes@.len()
                },
            },
    {
        let ghost bs = old(self).bytes@;
        let mut out: Vec<u64> = Vec::new();
        for i in 0..n
            invariant
                self.wf(),
                self.bytes@ == bs,
                bs == old(self).bytes@,
                out@.len() == i,
                old(self).position <= self.position,
                spec_read_u64s(bs, old(self).position as int, n as nat) == (match spec_read_u64s(
                    bs,
                    self.position as int,
                    (n - i) as nat,
                ) {
                    None => None::<(Seq<u64>, int)>,
                    Some((rest, p)) => Some((out@ + rest, p)),
                }),
        {
            let ghost pos_i = self.position as int;
            let ghost m = (n - i) as nat;
            proof {
                assert(m > 0);
            }
            let x = match self.read_u64() {
                Ok(x) => x,
                Err(e) => {
                    proof {
                        assert(spec_read_u64s(bs, pos_i, m) is None);
                    }
                    return Err(e);
                },
            };
            out.push(x);
            proof {
                let ghost out0 = out@.drop_last();
                assert(out@ == out0.push(x));
                assert(spec_read_u64s(bs, pos_i, m) == (match spec_read_u64s(
                    bs,
                    self.position as int,
                    (m - 1) as nat,
                ) {
                    None => None::<(Seq<u64>, int)>,
                    Some((rest, p)) => Some((seq![x] + rest, p)),
                }));
                assert forall|rest: Seq<u64>| true implies out0 + (seq![x] + rest) =~= out@
                    + rest by {}
            }
        }
        proof {
            assert(spec_read_u64s(bs, self.position as int, 0) == Some(
                (Seq::<u64>::empty(), self.position as int),
            ));
            assert(out@ + Seq::<u64>::empty() =~= out@);
        }
        Ok(out)
    }
}

} // verus!
