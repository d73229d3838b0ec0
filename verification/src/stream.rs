use vstd::prelude::*;

use crate::error::CircuitError;
use crate::variables::{
    concat_slots, lemma_concat_slots_push, lemma_take_split, ExtensionVariable, HashOutVariable,
    MerkleCapVariable, MerkleProofVariable, Variable, HASH_OUT_SIZE,
};

verus! {

/// A single-owner, single-pass cursor over an ordered list of symbolic
/// slots.
///
/// Every read consumes exactly the number of slots its caller specifies;
/// the stream itself carries no length headers, all structure is externally
/// specified.
pub struct VariableStream {
    pub variables: Vec<Variable>,
    pub position: usize,
}

impl VariableStream {
    pub open spec fn wf(self) -> bool {
        self.position <= self.variables@.len()
    }

    /// The slots not yet consumed, in order.
    pub open spec fn remaining(self) -> Seq<Variable> {
        self.variables@.skip(self.position as int)
    }

    /// The stream after a read: same slots, cursor moved forward by `n`.
    pub open spec fn advanced(self, prev: VariableStream, n: int) -> bool {
        self.variables@ == prev.variables@ && self.position == prev.position + n
    }

    /// The stream after a failed read: same slots, cursor not moved back.
    pub open spec fn keeps(self, prev: VariableStream) -> bool {
        self.variables@ == prev.variables@ && prev.position <= self.position
            <= self.variables@.len()
    }

    pub fn from_variables(variables: Vec<Variable>) -> (r: VariableStream)
        ensures
            r.wf(),
            r.variables@ == variables@,
            r.position == 0,
    {
        VariableStream { variables, position: 0 }
    }

    /// Appends slots to the stream without moving the cursor.
    pub fn write_slots(&mut self, slots: &Vec<Variable>)
        requires
            old(self).wf(),
        ensures
            final(self).wf(),
            final(self).variables@ == old(self).variables@ + slots@,
            final(self).position == old(self).position,
    {
        let n = slots.len();
        for i in 0..n
            invariant
                self.wf(),
                n == slots@.len(),
                self.position == old(self).position,
                self.variables@ == old(self).variables@ + slots@.take(i as int),
        {
            self.variables.push(slots[i]);
            proof {
                assert(old(self).variables@ + slots@.take(i as int + 1) =~= (old(self).variables@
                    + slots@.take(i as int)).push(slots@[i as int]));
            }
        }
        proof {
            assert(slots@.take(n as int) =~= slots@);
        }
    }

    /// Consumes exactly `n` slots; fails without moving the cursor if fewer
    /// remain.
    pub fn read_exact(&mut self, n: usize) -> (r: Result<Vec<Variable>, CircuitError>)
        requires
            old(self).wf(),
        ensures
            final(self).wf(),
            final(self).variables@ == old(self).variables@,
            match r {
                Ok(v) => {
                    &&& n <= old(self).remaining().len()
                    &&& v@ == old(self).remaining().take(n as int)
                    &&& final(self).advanced(*old(self), n as int)
                },
                Err(e) => {
                    &&& e == CircuitError::ShortRead
                    &&& old(self).remaining().len() < n
                    &&& final(self).position == old(self).position
                },
            },
    {
        if n > self.variables.len() - self.position {
            return Err(CircuitError::ShortRead);
        }
        let mut out: Vec<Variable> = Vec::new();
        let base = self.position;
        for i in 0..n
            invariant
                self.wf(),
                self.variables@ == old(self).variables@,
                self.position == base,
                base + n <= self.variables@.len(),
                base + n <= usize::MAX,
                base == old(self).position,
                out@ == old(self).remaining().take(i as int),
        {
            out.push(self.variables[base + i]);
            proof {
                assert(old(self).remaining().take(i as int + 1) =~= old(self).remaining().take(
                    i as int,
                ).push(old(self).remaining()[i as int]));
            }
        }
        self.position = base + n;
        Ok(out)
    }

    /// Consumes one slot.
    pub fn read_variable(&mut self) -> (r: Result<Variable, CircuitError>)
        requires
            old(self).wf(),
        ensures
            final(self).wf(),
            final(self).variables@ == old(self).variables@,
            match r {
                Ok(v) => {
                    &&& 1 <= old(self).remaining().len()
                    &&& v == old(self).remaining()[0]
                    &&& final(self).advanced(*old(self), 1)
                },
                Err(e) => {
                    &&& e == CircuitError::ShortRead
                    &&& old(self).remaining().len() < 1
                    &&& final(self).position == old(self).position
                },
            },
    {
        let v = self.read_exact(1)?;
        Ok(v[0])
    }

    /// Consumes one `D`-wire extension-field element.
    pub fn read_extension<const D: usize>(&mut self) -> (r: Result<
        ExtensionVariable<D>,
        CircuitError,
    >)
        requires
            old(self).wf(),
        ensures
            final(self).wf(),
            final(self).variables@ == old(self).variables@,
            match r {
                Ok(e) => {
                    &&& e.wf()
                    &&& e.slots() == old(self).remaining().take(D as int)
                    &&& final(self).advanced(*old(self), D as int)
                },
                Err(e) => {
                    &&& e == CircuitError::ShortRead
                    &&& old(self).remaining().len() < D
                    &&& final(self).position == old(self).position
                },
            },
    {
        let elements = self.read_exact(D)?;
        Ok(ExtensionVariable { elements })
    }

    /// Consumes one hash-output-sized group.
    pub fn read_hash(&mut self) -> (r: Result<HashOutVariable, CircuitError>)
        requires
            old(self).wf(),
        ensures
            final(self).wf(),
            final(self).variables@ == old(self).variables@,
            match r {
                Ok(h) => {
                    &&& h.wf()
                    &&& h.slots() == old(self).remaining().take(HASH_OUT_SIZE as int)
                    &&& final(self).advanced(*old(self), HASH_OUT_SIZE as int)
                },
                Err(e) => {
                    &&& e == CircuitError::ShortRead
                    &&& old(self).remaining().len() < HASH_OUT_SIZE
                    &&& final(self).position == old(self).position
                },
            },
    {
        let elements = self.read_exact(HASH_OUT_SIZE)?;
        Ok(HashOutVariable { elements })
    }

    /// Reads `height` hash-output-sized groups as a Merkle cap.
    pub fn read_merkle_cap(&mut self, height: usize) -> (r: Result<
        MerkleCapVariable,
        CircuitError,
    >)
        requires
            old(self).wf(),
        ensures
            final(self).wf(),
            final(self).variables@ == old(self).variables@,
            match r {
                Ok(c) => {
                    &&& c.wf()
                    &&& c.0@.len() == height
                    &&& c.slots() == old(self).remaining().take(height * HASH_OUT_SIZE)
                    &&& final(self).advanced(*old(self), height * HASH_OUT_SIZE)
                },
                Err(e) => {
                    &&& e == CircuitError::ShortRead
                    &&& old(self).remaining().len() < height * HASH_OUT_SIZE
                    &&& final(self).keeps(*old(self))
                },
            },
    {
        let hashes = self.read_hash_groups(height)?;
        Ok(MerkleCapVariable(hashes))
    }

    /// Reads `len` hash-output-sized groups as a Merkle authentication path.
    pub fn read_merkle_proof(&mut self, len: usize) -> (r: Result<
        MerkleProofVariable,
        CircuitError,
    >)
        requires
            old(self).wf(),
        ensures
            final(self).wf(),
            final(self).variables@ == old(self).variables@,
            match r {
                Ok(p) => {
                    &&& p.wf()
                    &&& p.siblings@.len() == len
                    &&& p.slots() == old(self).remaining().take(len * HASH_OUT_SIZE)
                    &&& final(self).advanced(*old(self), len * HASH_OUT_SIZE)
                },
                Err(e) => {
                    &&& e == CircuitError::ShortRead
                    &&& old(self).remaining().len() < len * HASH_OUT_SIZE
                    &&& final(self).keeps(*old(self))
                },
            },
    {
        let siblings = self.read_hash_groups(len)?;
        Ok(MerkleProofVariable { siblings })
    }

    /// Reads `count` hash-output-sized groups.
    fn read_hash_groups(&mut self, count: usize) -> (r: Result<Vec<HashOutVariable>, CircuitError>)
        requires
            old(self).wf(),
        ensures
            final(self).wf(),
            final(self).variables@ == old(self).variables@,
            match r {
                Ok(v) => {
                    &&& v@.len() == count
                    &&& forall|i: int| 0 <= i < v@.len() ==> (#[trigger] v@[i]).wf()
                    &&& concat_slots(v@.map_values(|h: HashOutVariable| h.elements@)) == old(
                        self,
                    ).remaining().take(count * HASH_OUT_SIZE)
                    &&& final(self).advanced(*old(self), count * HASH_OUT_SIZE)
                },
                Err(e) => {
                    &&& e == CircuitError::ShortRead
                    &&& old(self).remaining().len() < count * HASH_OUT_SIZE
                    &&& final(self).keeps(*old(self))
                },
            },
    {
        let mut out: Vec<HashOutVariable> = Vec::new();
        for i in 0..count
            invariant
                self.wf(),
                self.variables@ == old(self).variables@,
                self.advanced(*old(self), i * HASH_OUT_SIZE),
                out@.len() == i,
                forall|j: int| 0 <= j < out@.len() ==> (#[trigger] out@[j]).wf(),
                concat_slots(out@.map_values(|h: HashOutVariable| h.elements@)) == old(
                    self,
                ).remaining().take(i * HASH_OUT_SIZE),
        {
            let ghost prev = *self;
            let ghost out0 = out@;
            let h = match self.read_hash() {
                Ok(h) => h,
                Err(e) => {
                    proof {
                        assert(old(self).remaining().len() < i * HASH_OUT_SIZE + HASH_OUT_SIZE);
                        assert(i * HASH_OUT_SIZE + HASH_OUT_SIZE <= count * HASH_OUT_SIZE) by (
                        nonlinear_arith)
                            requires
                                i < count,
                        ;
                    }
                    return Err(e);
                },
            };
            out.push(h);
            proof {
                let f = |hh: HashOutVariable| hh.elements@;
                assert(out@ == out0.push(h));
                assert(out@.map_values(f) =~= out0.map_values(f).push(h.elements@));
                lemma_concat_slots_push(out0.map_values(f), h.elements@);
                lemma_take_split(old(self).remaining(), i * HASH_OUT_SIZE, HASH_OUT_SIZE as int);
                assert(prev.remaining() =~= old(self).remaining().skip(i * HASH_OUT_SIZE));
                assert((i + 1) * HASH_OUT_SIZE == i * HASH_OUT_SIZE + HASH_OUT_SIZE) by (
                nonlinear_arith);
            }
        }
        Ok(out)
    }
}

} // verus!
