use vstd::prelude::*;

use crate::error::CircuitError;
use crate::stream::VariableStream;
use crate::variables::{
    concat_slots, lemma_concat_slots_push, lemma_concat_uniform_len, lemma_take_split,
    ExtensionVariable, MerkleCapVariable, MerkleProofVariable, PolynomialCoeffsExtVariable,
    Variable, HASH_OUT_SIZE,
};

verus! {

/// Protocol parameters of a FRI-style opening proof.
///
/// Every sequence length of the proof is a deterministic pure function of
/// these values; they are supplied externally and never derived from the
/// data itself.
#[derive(Clone, Debug, PartialEq, Eq)]
pub struct FriParams {
    /// Per-round folding factor schedule, in bits.
    pub reduction_arity_bits: Vec<usize>,
    /// Height of each commitment Merkle cap.
    pub cap_height: usize,
    /// Number of query rounds.
    pub num_query_rounds: usize,
    /// Bit-length of the low-degree extension.
    pub lde_bits: usize,
    /// Number of final polynomial coefficients.
    pub final_poly_len: usize,
}

impl FriParams {
    /// Well-formed parameters: a reduction arity fits in a shift of a
    /// machine word.
    pub open spec fn wf(self) -> bool {
        self.lde_bits < 64
    }

    /// The geometry is sound: the LDE covers the cap, and the scheduled
    /// arities never exceed the remaining Merkle-proof depth.
    pub open spec fn geom_ok(self) -> bool {
        self.cap_height <= self.lde_bits && arity_sum(self.reduction_arity_bits@)
            <= self.lde_bits - self.cap_height
    }

    /// Merkle-proof depth available before any reduction step.
    pub open spec fn initial_depth(self) -> int {
        self.lde_bits - self.cap_height
    }
}

/// A full FRI opening proof laid out as symbolic wires.
#[derive(Clone, Debug, PartialEq, Eq)]
#[verifier::ext_equal]
pub struct FriProofVariable<const D: usize> {
    pub commit_phase_merkle_caps: Vec<MerkleCapVariable>,
    pub query_round_proofs: Vec<FriQueryRoundVriable<D>>,
    pub final_poly: PolynomialCoeffsExtVariable<D>,
    pub pow_witness: Variable,
}

/// One FRI query round: an initial-trees proof plus one step per
/// reduction round.
#[derive(Clone, Debug, PartialEq, Eq)]
#[verifier::ext_equal]
pub struct FriQueryRoundVriable<const D: usize> {
    pub initial_trees_proof: FriInitialTreeProofVariable,
    pub steps: Vec<FriQueryStepVariable<D>>,
}

/// Per-oracle openings at the initial query position: one
/// (leaf values, Merkle proof) pair per oracle.
#[derive(Clone, Debug, PartialEq, Eq)]
#[verifier::ext_equal]
pub struct FriInitialTreeProofVariable {
    pub evals_proofs: Vec<(Vec<Variable>, MerkleProofVariable)>,
}

/// One reduction step of a query round: the coset evaluations plus a
/// Merkle proof shrunk by that round's arity.
#[derive(Clone, Debug, PartialEq, Eq)]
#[verifier::ext_equal]
pub struct FriQueryStepVariable<const D: usize> {
    pub evals: Vec<ExtensionVariable<D>>,
    pub merkle_proof: MerkleProofVariable,
}

impl<const D: usize> FriQueryStepVariable<D> {
    pub open spec fn wf(self) -> bool {
        &&& forall|i: int| 0 <= i < self.evals@.len() ==> (#[trigger] self.evals@[i]).wf()
        &&& self.merkle_proof.wf()
    }

    pub open spec fn shape(self, arity_bits: usize, proof_len: int) -> bool {
        &&& self.evals@.len() == (1u64 << arity_bits)
        &&& self.merkle_proof.siblings@.len() == proof_len
    }

    pub open spec fn slots(self) -> Seq<Variable> {
        concat_slots(self.evals@.map_values(|e: ExtensionVariable<D>| e.elements@))
            + self.merkle_proof.slots()
    }
}

impl FriInitialTreeProofVariable {
    pub open spec fn wf(self) -> bool {
        forall|i: int|
            0 <= i < self.evals_proofs@.len() ==> (#[trigger] self.evals_proofs@[i]).1.wf()
    }

    pub open spec fn shape(self, leaf_counts: Seq<usize>, proof_len: int) -> bool {
        &&& self.evals_proofs@.len() == leaf_counts.len()
        &&& forall|i: int|
            0 <= i < leaf_counts.len() ==> (#[trigger] self.evals_proofs@[i]).0@.len()
                == leaf_counts[i] && self.evals_proofs@[i].1.siblings@.len() == proof_len
    }

    pub open spec fn slots(self) -> Seq<Variable> {
        concat_slots(
            self.evals_proofs@.map_values(
                |p: (Vec<Variable>, MerkleProofVariable)| p.0@ + p.1.slots(),
            ),
        )
    }
}

impl<const D: usize> FriQueryRoundVriable<D> {
    pub open spec fn wf(self) -> bool {
        &&& self.initial_trees_proof.wf()
        &&& forall|i: int| 0 <= i < self.steps@.len() ==> (#[trigger] self.steps@[i]).wf()
    }

    /// The geometry of one query round, as a function of the parameters
    /// alone.
    pub open spec fn shape(self, leaf_counts: Seq<usize>, params: FriParams) -> bool {
        &&& self.initial_trees_proof.shape(leaf_counts, params.initial_depth())
        &&& self.steps@.len() == params.reduction_arity_bits@.len()
        &&& forall|i: int|
            0 <= i < self.steps@.len() ==> (#[trigger] self.steps@[i]).shape(
                params.reduction_arity_bits@[i],
                params.initial_depth() - arity_sum(params.reduction_arity_bits@.take(i + 1)),
            )
    }

    pub open spec fn slots(self) -> Seq<Variable> {
        self.initial_trees_proof.slots() + concat_slots(
            self.steps@.map_values(|s: FriQueryStepVariable<D>| s.slots()),
        )
    }
}

impl<const D: usize> FriProofVariable<D> {
    pub open spec fn wf(self) -> bool {
        &&& forall|i: int|
            0 <= i < self.commit_phase_merkle_caps@.len() ==> (
            #[trigger] self.commit_phase_merkle_caps@[i]).wf()
        &&& forall|i: int|
            0 <= i < self.query_round_proofs@.len() ==> (#[trigger] self.query_round_proofs@[i]).wf()
        &&& self.final_poly.wf()
    }

    /// The geometry of a full proof: one cap per reduction round, one query
    /// round per scheduled query, `final_poly_len` coefficients, one
    /// proof-of-work witness.
    pub open spec fn shape(self, leaf_counts: Seq<usize>, params: FriParams) -> bool {
        &&& self.commit_phase_merkle_caps@.len() == params.reduction_arity_bits@.len()
        &&& forall|i: int|
            0 <= i < self.commit_phase_merkle_caps@.len() ==> (
            #[trigger] self.commit_phase_merkle_caps@[i]).0@.len() == params.cap_height
        &&& self.query_round_proofs@.len() == params.num_query_rounds
        &&& forall|i: int|
            0 <= i < self.query_round_proofs@.len() ==> (
            #[trigger] self.query_round_proofs@[i]).shape(leaf_counts, params)
        &&& self.final_poly.0@.len() == params.final_poly_len
    }

    pub open spec fn slots(self) -> Seq<Variable> {
        concat_slots(self.commit_phase_merkle_caps@.map_values(|c: MerkleCapVariable| c.slots()))
            + concat_slots(
            self.query_round_proofs@.map_values(|q: FriQueryRoundVriable<D>| q.slots()),
        ) + self.final_poly.slots() + seq![self.pow_witness]
    }
}

/// Appends a run of slots.
fn append_variables(out: &mut Vec<Variable>, add: &Vec<Variable>)
    ensures
        final(out)@ == old(out)@ + add@,
{
    let n = add.len();
    for i in 0..n
        invariant
            n == add@.len(),
            out@ == old(out)@ + add@.take(i as int),
    {
        out.push(add[i]);
        proof {
            assert(old(out)@ + add@.take(i as int + 1) =~= (old(out)@ + add@.take(i as int)).push(
                add@[i as int],
            ));
        }
    }
    proof {
        assert(add@.take(n as int) =~= add@);
    }
}

/// Appends each hash group's wires, in order.
fn append_hashes(out: &mut Vec<Variable>, hashes: &Vec<crate::variables::HashOutVariable>)
    ensures
        final(out)@ == old(out)@ + concat_slots(
            hashes@.map_values(|h: crate::variables::HashOutVariable| h.elements@),
        ),
{
    let n = hashes.len();
    for i in 0..n
        invariant
            n == hashes@.len(),
            out@ == old(out)@ + concat_slots(
                hashes@.take(i as int).map_values(
                    |h: crate::variables::HashOutVariable| h.elements@,
                ),
            ),
    {
        let ghost before = out@;
        append_variables(out, &hashes[i].elements);
        proof {
            let f = |h: crate::variables::HashOutVariable| h.elements@;
            assert(hashes@.take(i as int + 1) =~= hashes@.take(i as int).push(hashes@[i as int]));
            assert(hashes@.take(i as int + 1).map_values(f) =~= hashes@.take(i as int).map_values(
                f,
            ).push(hashes@[i as int].elements@));
            lemma_concat_slots_push(
                hashes@.take(i as int).map_values(f),
                hashes@[i as int].elements@,
            );
        }
    }
    proof {
        assert(hashes@.take(n as int) =~= hashes@);
    }
}

/// Appends each extension element's wires, in order.
fn append_extensions<const D: usize>(out: &mut Vec<Variable>, exts: &Vec<ExtensionVariable<D>>)
    ensures
        final(out)@ == old(out)@ + concat_slots(
            exts@.map_values(|e: ExtensionVariable<D>| e.elements@),
        ),
{
    let n = exts.len();
    for i in 0..n
        invariant
            n == exts@.len(),
            out@ == old(out)@ + concat_slots(
                exts@.take(i as int).map_values(|e: ExtensionVariable<D>| e.elements@),
            ),
    {
        let ghost before = out@;
        append_variables(out, &exts[i].elements);
        proof {
            let f = |e: ExtensionVariable<D>| e.elements@;
            assert(exts@.take(i as int + 1) =~= exts@.take(i as int).push(exts@[i as int]));
            assert(exts@.take(i as int + 1).map_values(f) =~= exts@.take(i as int).map_values(
                f,
            ).push(exts@[i as int].elements@));
            lemma_concat_slots_push(exts@.take(i as int).map_values(f), exts@[i as int].elements@);
        }
    }
    proof {
        assert(exts@.take(n as int) =~= exts@);
    }
}

impl<const D: usize> FriQueryStepVariable<D> {
    /// Appends the step's wires in the concrete layout: evaluations, then
    /// the Merkle proof.
    pub fn append_slots(&self, out: &mut Vec<Variable>)
        ensures
            final(out)@ == old(out)@ + self.slots(),
    {
        append_extensions(out, &self.evals);
        append_hashes(out, &self.merkle_proof.siblings);
        proof {
            assert(out@ =~= old(out)@ + self.slots());
        }
    }
}

impl FriInitialTreeProofVariable {
    /// Appends each oracle's leaf values and Merkle proof, in order.
    pub fn append_slots(&self, out: &mut Vec<Variable>)
        ensures
            final(out)@ == old(out)@ + self.slots(),
    {
        let n = self.evals_proofs.len();
        for i in 0..n
            invariant
                n == self.evals_proofs@.len(),
                out@ == old(out)@ + concat_slots(
                    self.evals_proofs@.take(i as int).map_values(
                        |p: (Vec<Variable>, MerkleProofVariable)| p.0@ + p.1.slots(),
                    ),
                ),
        {
            let ghost before = out@;
            append_variables(out, &self.evals_proofs[i].0);
            append_hashes(out, &self.evals_proofs[i].1.siblings);
            proof {
                let f = |p: (Vec<Variable>, MerkleProofVariable)| p.0@ + p.1.slots();
                let ep = self.evals_proofs@;
                assert(out@ =~= before + (ep[i as int].0@ + ep[i as int].1.slots()));
                assert(ep.take(i as int + 1) =~= ep.take(i as int).push(ep[i as int]));
                assert(ep.take(i as int + 1).map_values(f) =~= ep.take(i as int).map_values(
                    f,
                ).push(ep[i as int].0@ + ep[i as int].1.slots()));
                lemma_concat_slots_push(
                    ep.take(i as int).map_values(f),
                    ep[i as int].0@ + ep[i as int].1.slots(),
                );
            }
        }
        proof {
            assert(self.evals_proofs@.take(n as int) =~= self.evals_proofs@);
        }
    }
}

impl<const D: usize> FriQueryRoundVriable<D> {
    /// Appends the round's wires: initial openings, then each step.
    pub fn append_slots(&self, out: &mut Vec<Variable>)
        ensures
            final(out)@ == old(out)@ + self.slots(),
    {
        self.initial_trees_proof.append_slots(out);
        let ghost mid = out@;
        let n = self.steps.len();
        for i in 0..n
            invariant
                n == self.steps@.len(),
                out@ == mid + concat_slots(
                    self.steps@.take(i as int).map_values(|s: FriQueryStepVariable<D>| s.slots()),
                ),
        {
            let ghost before = out@;
            self.steps[i].append_slots(out);
            proof {
                let f = |s: FriQueryStepVariable<D>| s.slots();
                let st = self.steps@;
                assert(st.take(i as int + 1) =~= st.take(i as int).push(st[i as int]));
                assert(st.take(i as int + 1).map_values(f) =~= st.take(i as int).map_values(
                    f,
                ).push(st[i as int].slots()));
                lemma_concat_slots_push(st.take(i as int).map_values(f), st[i as int].slots());
            }
        }
        proof {
            assert(self.steps@.take(n as int) =~= self.steps@);
            assert(out@ =~= old(out)@ + self.slots());
        }
    }
}

impl<const D: usize> FriProofVariable<D> {
    /// Converts the symbolic proof back to the underlying algorithm's
    /// concrete layout: the flat, ordered wire sequence the structure was
    /// read from. The structural inverse of
    /// [`VariableStream::read_fri_proof`]: reading a proof and converting
    /// it back yields exactly the consumed wires.
    pub fn to_concrete(&self) -> (r: Vec<Variable>)
        ensures
            r@ == self.slots(),
    {
        let mut out: Vec<Variable> = Vec::new();
        let n = self.commit_phase_merkle_caps.len();
        for i in 0..n
            invariant
                n == self.commit_phase_merkle_caps@.len(),
                out@ == concat_slots(
                    self.commit_phase_merkle_caps@.take(i as int).map_values(
                        |c: MerkleCapVariable| c.slots(),
                    ),
                ),
        {
            let ghost before = out@;
            append_hashes(&mut out, &self.commit_phase_merkle_caps[i].0);
            proof {
                let f = |c: MerkleCapVariable| c.slots();
                let cs = self.commit_phase_merkle_caps@;
                assert(out@ =~= before + cs[i as int].slots());
                assert(cs.take(i as int + 1) =~= cs.take(i as int).push(cs[i as int]));
                assert(cs.take(i as int + 1).map_values(f) =~= cs.take(i as int).map_values(
                    f,
                ).push(cs[i as int].slots()));
                lemma_concat_slots_push(cs.take(i as int).map_values(f), cs[i as int].slots());
            }
        }
        proof {
            assert(self.commit_phase_merkle_caps@.take(n as int)
                =~= self.commit_phase_merkle_caps@);
        }
        let ghost after_caps = out@;
        let m = self.query_round_proofs.len();
        for i in 0..m
            invariant
                m == self.query_round_proofs@.len(),
                out@ == after_caps + concat_slots(
                    self.query_round_proofs@.take(i as int).map_values(
                        |q: FriQueryRoundVriable<D>| q.slots(),
                    ),
                ),
        {
            let ghost before = out@;
            self.query_round_proofs[i].append_slots(&mut out);
            proof {
                let f = |q: FriQueryRoundVriable<D>| q.slots();
                let qs = self.query_round_proofs@;
                assert(qs.take(i as int + 1) =~= qs.take(i as int).push(qs[i as int]));
                assert(qs.take(i as int + 1).map_values(f) =~= qs.take(i as int).map_values(
                    f,
                ).push(qs[i as int].slots()));
                lemma_concat_slots_push(qs.take(i as int).map_values(f), qs[i as int].slots());
            }
        }
        proof {
            assert(self.query_round_proofs@.take(m as int) =~= self.query_round_proofs@);
        }
        append_extensions(&mut out, &self.final_poly.0);
        out.push(self.pow_witness);
        proof {
            assert(out@ =~= self.slots());
        }
        out
    }
}

/// Sum of a reduction arity schedule.
pub open spec fn arity_sum(s: Seq<usize>) -> int
    decreases s.len(),
{
    if s.len() == 0 {
        0
    } else {
        s.first() + arity_sum(s.drop_first())
    }
}

/// Slots consumed by one initial-trees proof.
pub open spec fn initial_slot_count(leaf_counts: Seq<usize>, proof_len: int) -> int
    decreases leaf_counts.len(),
{
    if leaf_counts.len() == 0 {
        0
    } else {
        leaf_counts.first() + proof_len * (HASH_OUT_SIZE as int) + initial_slot_count(
            leaf_counts.drop_first(),
            proof_len,
        )
    }
}

/// Slots consumed by one query step.
pub open spec fn step_slot_count(arity_bits: usize, proof_len: int, d: int) -> int {
    ((1u64 << arity_bits) as int) * d + proof_len * (HASH_OUT_SIZE as int)
}

/// Slots consumed by the steps of one query round, starting from `depth`
/// remaining Merkle-proof levels.
pub open spec fn steps_slot_count(schedule: Seq<usize>, depth: int, d: int) -> int
    decreases schedule.len(),
{
    if schedule.len() == 0 {
        0
    } else {
        step_slot_count(schedule.first(), depth - schedule.first(), d) + steps_slot_count(
            schedule.drop_first(),
            depth - schedule.first(),
            d,
        )
    }
}

/// Slots consumed by one full query round.
pub open spec fn round_slot_count(leaf_counts: Seq<usize>, params: FriParams, d: int) -> int {
    initial_slot_count(leaf_counts, params.initial_depth()) + steps_slot_count(
        params.reduction_arity_bits@,
        params.initial_depth(),
        d,
    )
}

/// Slots consumed by one full FRI proof.
pub open spec fn fri_proof_slot_count(leaf_counts: Seq<usize>, params: FriParams, d: int) -> int {
    params.reduction_arity_bits@.len() * (params.cap_height as int) * (HASH_OUT_SIZE as int)
        + (params.num_query_rounds as int) * round_slot_count(leaf_counts, params, d)
        + (params.final_poly_len as int) * d + 1
}

pub proof fn lemma_arity_sum_nonneg(s: Seq<usize>)
    ensures
        arity_sum(s) >= 0,
    decreases s.len(),
{
    if s.len() > 0 {
        lemma_arity_sum_nonneg(s.drop_first());
    }
}

pub proof fn lemma_arity_sum_split(s: Seq<usize>, i: int)
    requires
        0 <= i <= s.len(),
    ensures
        arity_sum(s) == arity_sum(s.take(i)) + arity_sum(s.skip(i)),
    decreases i,
{
    if i == 0 {
        assert(s.take(0) =~= Seq::<usize>::empty());
        assert(s.skip(0) =~= s);
    } else {
        lemma_arity_sum_split(s.drop_first(), i - 1);
        assert(s.take(i).drop_first() =~= s.drop_first().take(i - 1));
        assert(s.skip(i) =~= s.drop_first().skip(i - 1));
        assert(s.take(i).first() == s.first());
        assert(s.take(i).len() == i);
    }
}

pub proof fn lemma_arity_sum_take_succ(s: Seq<usize>, i: int)
    requires
        0 <= i < s.len(),
    ensures
        arity_sum(s.take(i + 1)) == arity_sum(s.take(i)) + s[i],
{
    lemma_arity_sum_split(s.take(i + 1), i);
    assert(s.take(i + 1).take(i) =~= s.take(i));
    assert(s.take(i + 1).skip(i) =~= seq![s[i]]);
    assert(seq![s[i]].drop_first() =~= Seq::<usize>::empty());
    assert(arity_sum(Seq::<usize>::empty()) == 0);
    assert(arity_sum(seq![s[i]]) == s[i] + arity_sum(seq![s[i]].drop_first()));
}

pub proof fn lemma_initial_count_nonneg(leaf_counts: Seq<usize>, proof_len: int)
    requires
        proof_len >= 0,
    ensures
        initial_slot_count(leaf_counts, proof_len) >= 0,
    decreases leaf_counts.len(),
{
    if leaf_counts.len() > 0 {
        lemma_initial_count_nonneg(leaf_counts.drop_first(), proof_len);
    }
}

pub proof fn lemma_initial_count_split(leaf_counts: Seq<usize>, i: int, proof_len: int)
    requires
        0 <= i <= leaf_counts.len(),
    ensures
        initial_slot_count(leaf_counts, proof_len) == initial_slot_count(
            leaf_counts.take(i),
            proof_len,
        ) + initial_slot_count(leaf_counts.skip(i), proof_len),
    decreases i,
{
    if i == 0 {
        assert(leaf_counts.take(0) =~= Seq::<usize>::empty());
        assert(leaf_counts.skip(0) =~= leaf_counts);
    } else {
        lemma_initial_count_split(leaf_counts.drop_first(), i - 1, proof_len);
        assert(leaf_counts.take(i).drop_first() =~= leaf_counts.drop_first().take(i - 1));
        assert(leaf_counts.skip(i) =~= leaf_counts.drop_first().skip(i - 1));
        assert(leaf_counts.take(i).first() == leaf_counts.first());
        assert(leaf_counts.take(i).len() == i);
    }
}

pub proof fn lemma_step_count_nonneg(arity_bits: usize, proof_len: int, d: int)
    requires
        proof_len >= 0,
        d >= 0,
    ensures
        step_slot_count(arity_bits, proof_len, d) >= 0,
{
    assert(((1u64 << arity_bits) as int) * d >= 0) by (nonlinear_arith)
        requires
            d >= 0,
            (1u64 << arity_bits) as int >= 0,
    ;
}

pub proof fn lemma_steps_count_nonneg(schedule: Seq<usize>, depth: int, d: int)
    requires
        arity_sum(schedule) <= depth,
        d >= 0,
    ensures
        steps_slot_count(schedule, depth, d) >= 0,
    decreases schedule.len(),
{
    if schedule.len() > 0 {
        lemma_arity_sum_nonneg(schedule.drop_first());
        lemma_steps_count_nonneg(schedule.drop_first(), depth - schedule.first(), d);
        lemma_step_count_nonneg(schedule.first(), depth - schedule.first(), d);
    }
}

/// Length of the longest prefix of the schedule whose arities fit the
/// available depth, each step shrinking it: the steps a reader completes
/// before it detects an overrun.
pub open spec fn fitting_prefix(schedule: Seq<usize>, depth: int) -> int
    decreases schedule.len(),
{
    if schedule.len() == 0 {
        0
    } else if schedule.first() > depth {
        0
    } else {
        1 + fitting_prefix(schedule.drop_first(), depth - schedule.first())
    }
}

/// Slots a query round consumes before the first geometry overrun is
/// detected; with sound geometry this is the whole round.
pub open spec fn round_slots_to_overrun(leaf_counts: Seq<usize>, params: FriParams, d: int) -> int {
    initial_slot_count(leaf_counts, params.initial_depth()) + steps_slot_count(
        params.reduction_arity_bits@.take(
            fitting_prefix(params.reduction_arity_bits@, params.initial_depth()),
        ),
        params.initial_depth(),
        d,
    )
}

/// Slots a full proof read consumes before its first failure can be a
/// geometry error rather than a short read.
pub open spec fn fri_slots_to_failure(leaf_counts: Seq<usize>, params: FriParams, d: int) -> int {
    let caps = params.reduction_arity_bits@.len() * (params.cap_height as int) * (HASH_OUT_SIZE
        as int);
    if params.num_query_rounds == 0 || params.geom_ok() {
        fri_proof_slot_count(leaf_counts, params, d)
    } else if params.cap_height > params.lde_bits {
        caps
    } else {
        caps + round_slots_to_overrun(leaf_counts, params, d)
    }
}

pub proof fn lemma_fitting_prefix_props(schedule: Seq<usize>, depth: int)
    ensures
        0 <= fitting_prefix(schedule, depth) <= schedule.len(),
        fitting_prefix(schedule, depth) > 0 ==> arity_sum(
            schedule.take(fitting_prefix(schedule, depth)),
        ) <= depth,
    decreases schedule.len(),
{
    if schedule.len() > 0 && schedule.first() <= depth {
        lemma_fitting_prefix_props(schedule.drop_first(), depth - schedule.first());
        let fp = fitting_prefix(schedule, depth);
        let fpd = fitting_prefix(schedule.drop_first(), depth - schedule.first());
        assert(schedule.take(fp).first() == schedule.first());
        assert(schedule.take(fp).drop_first() =~= schedule.drop_first().take(fpd));
        if fpd == 0 {
            assert(schedule.drop_first().take(0) =~= Seq::<usize>::empty());
            assert(arity_sum(Seq::<usize>::empty()) == 0);
        }
        assert(arity_sum(schedule.take(fp)) == schedule.first() + arity_sum(
            schedule.drop_first().take(fpd),
        ));
    }
}

/// Every step the reader has accepted lies inside the fitting prefix.
pub proof fn lemma_fitting_prefix_at_least(schedule: Seq<usize>, depth: int, i: int)
    requires
        0 <= i < schedule.len(),
        arity_sum(schedule.take(i + 1)) <= depth,
    ensures
        fitting_prefix(schedule, depth) >= i + 1,
    decreases i,
{
    assert(schedule.take(i + 1).first() == schedule.first());
    lemma_arity_sum_nonneg(schedule.take(i + 1).drop_first());
    assert(arity_sum(schedule.take(i + 1)) == schedule.first() + arity_sum(
        schedule.take(i + 1).drop_first(),
    ));
    assert(schedule.first() <= depth);
    assert(fitting_prefix(schedule, depth) == 1 + fitting_prefix(
        schedule.drop_first(),
        depth - schedule.first(),
    ));
    if i > 0 {
        assert(schedule.take(i + 1).drop_first() =~= schedule.drop_first().take(i));
        lemma_fitting_prefix_at_least(schedule.drop_first(), depth - schedule.first(), i - 1);
    } else {
        lemma_fitting_prefix_props(schedule.drop_first(), depth - schedule.first());
    }
}

/// The slots before the first overrun are never negative.
pub proof fn lemma_overrun_count_nonneg(leaf_counts: Seq<usize>, params: FriParams, d: int)
    requires
        params.cap_height <= params.lde_bits,
        d >= 0,
    ensures
        round_slots_to_overrun(leaf_counts, params, d) >= 0,
{
    let schedule = params.reduction_arity_bits@;
    let d0 = params.initial_depth();
    lemma_initial_count_nonneg(leaf_counts, d0);
    lemma_fitting_prefix_props(schedule, d0);
    let fp = fitting_prefix(schedule, d0);
    if fp > 0 {
        lemma_steps_count_nonneg(schedule.take(fp), d0, d);
    } else {
        assert(schedule.take(0) =~= Seq::<usize>::empty());
    }
}

pub proof fn lemma_round_count_nonneg(leaf_counts: Seq<usize>, params: FriParams, d: int)
    requires
        params.geom_ok(),
        d >= 0,
    ensures
        round_slot_count(leaf_counts, params, d) >= 0,
{
    lemma_initial_count_nonneg(leaf_counts, params.initial_depth());
    lemma_steps_count_nonneg(params.reduction_arity_bits@, params.initial_depth(), d);
}

pub proof fn lemma_steps_count_split(schedule: Seq<usize>, i: int, depth: int, d: int)
    requires
        0 <= i <= schedule.len(),
    ensures
        steps_slot_count(schedule, depth, d) == steps_slot_count(schedule.take(i), depth, d)
            + steps_slot_count(schedule.skip(i), depth - arity_sum(schedule.take(i)), d),
    decreases i,
{
    if i == 0 {
        assert(schedule.take(0) =~= Seq::<usize>::empty());
        assert(schedule.skip(0) =~= schedule);
    } else {
        lemma_steps_count_split(schedule.drop_first(), i - 1, depth - schedule.first(), d);
        assert(schedule.take(i).drop_first() =~= schedule.drop_first().take(i - 1));
        assert(schedule.skip(i) =~= schedule.drop_first().skip(i - 1));
        assert(schedule.take(i).first() == schedule.first());
        assert(schedule.take(i).len() == i);
    }
}

impl VariableStream {
    /// Reads `len` extension-field coefficients of a polynomial.
    pub fn read_poly_coeff_ext<const D: usize>(&mut self, len: usize) -> (r: Result<
        PolynomialCoeffsExtVariable<D>,
        CircuitError,
    >)
        requires
            old(self).wf(),
        ensures
            final(self).wf(),
            final(self).variables@ == old(self).variables@,
            match r {
                Ok(p) => {
                    &&& p.wf()
                    &&& p.0@.len() == len
                    &&& p.slots() == old(self).remaining().take(len * (D as int))
                    &&& final(self).advanced(*old(self), len * (D as int))
                },
                Err(e) => {
                    &&& e == CircuitError::ShortRead
                    &&& old(self).remaining().len() < len * (D as int)
                    &&& final(self).keeps(*old(self))
                },
            },
    {
        let v = self.read_extension_vec(len as u64)?;
        Ok(PolynomialCoeffsExtVariable(v))
    }

    /// Reads `count` extension-field elements.
    fn read_extension_vec<const D: usize>(&mut self, count: u64) -> (r: Result<
        Vec<ExtensionVariable<D>>,
        CircuitError,
    >)
        requires
            old(self).wf(),
        ensures
            final(self).wf(),
            final(self).variables@ == old(self).variables@,
            match r {
                Ok(v) => {
                    &&& v@.len() == count
                    &&& forall|i: int| 0 <= i < v@.len() ==> (#[trigger] v@[i]).wf()
                    &&& concat_slots(v@.map_values(|e: ExtensionVariable<D>| e.elements@)) == old(
                        self,
                    ).remaining().take(count * (D as int))
                    &&& final(self).advanced(*old(self), count * (D as int))
                },
                Err(e) => {
                    &&& e == CircuitError::ShortRead
                    &&& old(self).remaining().len() < count * (D as int)
                    &&& final(self).keeps(*old(self))
                },
            },
    {
        let mut out: Vec<ExtensionVariable<D>> = Vec::new();
        proof {
            assert(0 * (D as int) == 0) by (nonlinear_arith);
        }
        for i in 0..count
            invariant
                self.wf(),
                self.variables@ == old(self).variables@,
                self.advanced(*old(self), i * (D as int)),
                out@.len() == i,
                forall|j: int| 0 <= j < out@.len() ==> (#[trigger] out@[j]).wf(),
                concat_slots(out@.map_values(|e: ExtensionVariable<D>| e.elements@)) == old(
                    self,
                ).remaining().take(i * (D as int)),
        {
            let ghost prev = *self;
            let ghost out0 = out@;
            let e = match self.read_extension::<D>() {
                Ok(e) => e,
                Err(e) => {
                    proof {
                        assert(i * (D as int) >= 0) by (nonlinear_arith)
                            requires
                                i >= 0,
                                D as int >= 0,
                        ;
                        assert(old(self).remaining().len() < i * (D as int) + (D as int));
                        assert(i * (D as int) + (D as int) <= count * (D as int)) by (
                        nonlinear_arith)
                            requires
                                i < count,
                                D as int >= 0,
                        ;
                    }
                    return Err(e);
                },
            };
            out.push(e);
            proof {
                let f = |ee: ExtensionVariable<D>| ee.elements@;
                assert(out@ == out0.push(e));
                assert(out@.map_values(f) =~= out0.map_values(f).push(e.elements@));
                lemma_concat_slots_push(out0.map_values(f), e.elements@);
                lemma_take_split(old(self).remaining(), i * (D as int), D as int);
                assert(prev.remaining() =~= old(self).remaining().skip(i * (D as int)));
                assert((i + 1) * (D as int) == i * (D as int) + (D as int)) by (nonlinear_arith);
            }
        }
        Ok(out)
    }

    /// Reads the per-oracle initial openings of one query round: for each
    /// oracle, that oracle's leaf values followed by one Merkle proof of
    /// length `initial_merkle_proof_len`.
    pub fn read_virtual_fri_initial_trees_proof(
        &mut self,
        num_leaves_per_oracle: &Vec<usize>,
        initial_merkle_proof_len: usize,
    ) -> (r: Result<FriInitialTreeProofVariable, CircuitError>)
        requires
            old(self).wf(),
        ensures
            final(self).wf(),
            final(self).variables@ == old(self).variables@,
            match r {
                Ok(p) => {
                    &&& p.wf()
                    &&& p.shape(num_leaves_per_oracle@, initial_merkle_proof_len as int)
                    &&& p.slots() == old(self).remaining().take(
                        initial_slot_count(
                            num_leaves_per_oracle@,
                            initial_merkle_proof_len as int,
                        ),
                    )
                    &&& final(self).advanced(
                        *old(self),
                        initial_slot_count(num_leaves_per_oracle@, initial_merkle_proof_len as int),
                    )
                },
                Err(e) => {
                    &&& e == CircuitError::ShortRead
                    &&& old(self).remaining().len() < initial_slot_count(
                        num_leaves_per_oracle@,
                        initial_merkle_proof_len as int,
                    )
                    &&& final(self).keeps(*old(self))
                },
            },
    {
        let ghost lc = num_leaves_per_oracle@;
        let ghost plen = initial_merkle_proof_len as int;
        let n = num_leaves_per_oracle.len();
        let mut evals_proofs: Vec<(Vec<Variable>, MerkleProofVariable)> = Vec::new();
        for i in 0..n
            invariant
                self.wf(),
                self.variables@ == old(self).variables@,
                n == lc.len(),
                lc == num_leaves_per_oracle@,
                plen == initial_merkle_proof_len as int,
                self.advanced(*old(self), initial_slot_count(lc.take(i as int), plen)),
                evals_proofs@.len() == i,
                forall|j: int| 0 <= j < evals_proofs@.len() ==> (#[trigger] evals_proofs@[j]).1.wf(),
                forall|j: int|
                    0 <= j < evals_proofs@.len() ==> (#[trigger] evals_proofs@[j]).0@.len()
                        == lc[j] && evals_proofs@[j].1.siblings@.len() == plen,
                concat_slots(
                    evals_proofs@.map_values(
                        |p: (Vec<Variable>, MerkleProofVariable)| p.0@ + p.1.slots(),
                    ),
                ) == old(self).remaining().take(initial_slot_count(lc.take(i as int), plen)),
        {
            let ghost consumed = initial_slot_count(lc.take(i as int), plen);
            proof {
                lemma_initial_count_split(lc, i as int, plen);
                lemma_initial_count_split(lc.skip(i as int), 1, plen);
                assert(lc.skip(i as int).take(1) =~= seq![lc[i as int]]);
                assert(seq![lc[i as int]].drop_first() =~= Seq::<usize>::empty());
                assert(lc.skip(i as int).skip(1) =~= lc.skip(i as int + 1));
                lemma_initial_count_nonneg(lc.skip(i as int + 1), plen);
                assert(initial_slot_count(lc, plen) >= consumed + lc[i as int] + plen * (
                HASH_OUT_SIZE as int));
            }
            let ghost prev = *self;
            let ghost ep0 = evals_proofs@;
            proof {
                lemma_initial_count_nonneg(lc.take(i as int), plen);
                assert(prev.remaining() =~= old(self).remaining().skip(consumed));
            }
            let leaves = match self.read_exact(num_leaves_per_oracle[i]) {
                Ok(v) => v,
                Err(e) => {
                    return Err(e);
                },
            };
            let ghost mid = *self;
            proof {
                assert(mid.remaining() =~= prev.remaining().skip(lc[i as int] as int));
            }
            let merkle_proof = match self.read_merkle_proof(initial_merkle_proof_len) {
                Ok(p) => p,
                Err(e) => {
                    return Err(e);
                },
            };
            evals_proofs.push((leaves, merkle_proof));
            proof {
                let f = |p: (Vec<Variable>, MerkleProofVariable)| p.0@ + p.1.slots();
                let pair = (leaves, merkle_proof);
                assert(evals_proofs@ == ep0.push(pair));
                assert(evals_proofs@.map_values(f) =~= ep0.map_values(f).push(
                    leaves@ + merkle_proof.slots(),
                ));
                lemma_concat_slots_push(ep0.map_values(f), leaves@ + merkle_proof.slots());
                lemma_take_split(
                    old(self).remaining(),
                    consumed,
                    lc[i as int] + plen * (HASH_OUT_SIZE as int),
                );
                lemma_take_split(
                    old(self).remaining().skip(consumed),
                    lc[i as int] as int,
                    plen * (HASH_OUT_SIZE as int),
                );
                assert(mid.remaining() =~= old(self).remaining().skip(consumed).skip(
                    lc[i as int] as int,
                ));
                assert(leaves@ + merkle_proof.slots() == old(self).remaining().skip(
                    consumed,
                ).take(lc[i as int] + plen * (HASH_OUT_SIZE as int)));
                assert(lc.take(i as int + 1) =~= lc.take(i as int).push(lc[i as int]));
                lemma_initial_count_split(lc.take(i as int + 1), i as int, plen);
                assert(lc.take(i as int + 1).take(i as int) =~= lc.take(i as int));
                assert(lc.take(i as int + 1).skip(i as int) =~= seq![lc[i as int]]);
                assert(seq![lc[i as int]].drop_first() =~= Seq::<usize>::empty());
                assert(initial_slot_count(lc.take(i as int + 1), plen) == consumed + lc[i as int]
                    + plen * (HASH_OUT_SIZE as int));
            }
        }
        proof {
            assert(lc.take(n as int) =~= lc);
        }
        Ok(FriInitialTreeProofVariable { evals_proofs })
    }

    /// Reads one query step: `2^arity_bits` coset evaluations plus one
    /// Merkle proof of length `merkle_proof_len`.
    pub fn read_virtual_fri_query_step<const D: usize>(
        &mut self,
        arity_bits: usize,
        merkle_proof_len: usize,
    ) -> (r: Result<FriQueryStepVariable<D>, CircuitError>)
        requires
            old(self).wf(),
            arity_bits < 64,
        ensures
            final(self).wf(),
            final(self).variables@ == old(self).variables@,
            match r {
                Ok(s) => {
                    &&& s.wf()
                    &&& s.shape(arity_bits, merkle_proof_len as int)
                    &&& s.slots() == old(self).remaining().take(
                        step_slot_count(arity_bits, merkle_proof_len as int, D as int),
                    )
                    &&& final(self).advanced(
                        *old(self),
                        step_slot_count(arity_bits, merkle_proof_len as int, D as int),
                    )
                },
                Err(e) => {
                    &&& e == CircuitError::ShortRead
                    &&& old(self).remaining().len() < step_slot_count(
                        arity_bits,
                        merkle_proof_len as int,
                        D as int,
                    )
                    &&& final(self).keeps(*old(self))
                },
            },
    {
        let ghost count = step_slot_count(arity_bits, merkle_proof_len as int, D as int);
        let num_evals: u64 = 1u64 << arity_bits;
        let ghost prev = *self;
        let evals = match self.read_extension_vec::<D>(num_evals) {
            Ok(v) => v,
            Err(e) => {
                proof {
                    lemma_step_count_nonneg(arity_bits, merkle_proof_len as int, D as int);
                }
                return Err(e);
            },
        };
        let ghost mid = *self;
        let merkle_proof = match self.read_merkle_proof(merkle_proof_len) {
            Ok(p) => p,
            Err(e) => {
                return Err(e);
            },
        };
        proof {
            lemma_take_split(
                old(self).remaining(),
                num_evals * (D as int),
                merkle_proof_len * (HASH_OUT_SIZE as int),
            );
            assert(mid.remaining() =~= old(self).remaining().skip(num_evals * (D as int)));
        }
        Ok(FriQueryStepVariable { evals, merkle_proof })
    }

    /// Reads one query round.
    ///
    /// The initial Merkle-proof depth is `lde_bits - cap_height` (a smaller
    /// LDE is a malformed-parameter error); each scheduled arity must fit in
    /// the remaining depth and shrinks it before its step is read.
    pub fn read_fri_query_round<const D: usize>(
        &mut self,
        num_leaves_per_oracle: &Vec<usize>,
        params: &FriParams,
    ) -> (r: Result<FriQueryRoundVriable<D>, CircuitError>)
        requires
            old(self).wf(),
            params.wf(),
        ensures
            final(self).wf(),
            final(self).variables@ == old(self).variables@,
            match r {
                Ok(q) => {
                    &&& params.geom_ok()
                    &&& q.wf()
                    &&& q.shape(num_leaves_per_oracle@, *params)
                    &&& q.slots() == old(self).remaining().take(
                        round_slot_count(num_leaves_per_oracle@, *params, D as int),
                    )
                    &&& final(self).advanced(
                        *old(self),
                        round_slot_count(num_leaves_per_oracle@, *params, D as int),
                    )
                },
                Err(e) => {
                    &&& final(self).keeps(*old(self))
                    &&& (e == CircuitError::Geometry || e == CircuitError::ShortRead)
                    &&& (e == CircuitError::Geometry ==> !params.geom_ok())
                    &&& (params.geom_ok() ==> e == CircuitError::ShortRead && old(
                        self,
                    ).remaining().len() < round_slot_count(
                        num_leaves_per_oracle@,
                        *params,
                        D as int,
                    ))
                    &&& (params.cap_height > params.lde_bits ==> e == CircuitError::Geometry
                        && final(self).position == old(self).position)
                    &&& (e == CircuitError::ShortRead ==> old(self).remaining().len()
                        < round_slots_to_overrun(num_leaves_per_oracle@, *params, D as int))
                },
            },
    {
        let ghost lc = num_leaves_per_oracle@;
        let ghost schedule = params.reduction_arity_bits@;
        let cap_height = params.cap_height;
        if params.lde_bits < cap_height {
            return Err(CircuitError::Geometry);
        }
        let mut merkle_proof_len: usize = params.lde_bits - cap_height;
        let ghost d0 = params.initial_depth();
        let ghost ic = initial_slot_count(lc, d0);
        proof {
            lemma_initial_count_nonneg(lc, d0);
        }
        let initial_trees_proof = match self.read_virtual_fri_initial_trees_proof(
            num_leaves_per_oracle,
            merkle_proof_len,
        ) {
            Ok(p) => p,
            Err(e) => {
                proof {
                    if params.geom_ok() {
                        lemma_steps_count_nonneg(schedule, d0, D as int);
                    }
                    lemma_fitting_prefix_props(schedule, d0);
                    let fp = fitting_prefix(schedule, d0);
                    if fp > 0 {
                        lemma_steps_count_nonneg(schedule.take(fp), d0, D as int);
                    } else {
                        assert(schedule.take(0) =~= Seq::<usize>::empty());
                    }
                }
                return Err(e);
            },
        };
        let n = params.reduction_arity_bits.len();
        let mut steps: Vec<FriQueryStepVariable<D>> = Vec::new();
        for i in 0..n
            invariant
                self.wf(),
                self.variables@ == old(self).variables@,
                n == schedule.len(),
                schedule == params.reduction_arity_bits@,
                lc == num_leaves_per_oracle@,
                d0 == params.initial_depth(),
                params.wf(),
                params.cap_height <= params.lde_bits,
                ic == initial_slot_count(lc, d0),
                ic >= 0,
                initial_trees_proof.wf(),
                initial_trees_proof.shape(lc, d0),
                initial_trees_proof.slots() == old(self).remaining().take(ic),
                merkle_proof_len as int == d0 - arity_sum(schedule.take(i as int)),
                arity_sum(schedule.take(i as int)) >= 0,
                self.advanced(
                    *old(self),
                    ic + steps_slot_count(schedule.take(i as int), d0, D as int),
                ),
                steps_slot_count(schedule.take(i as int), d0, D as int) >= 0,
                steps@.len() == i,
                forall|j: int| 0 <= j < steps@.len() ==> (#[trigger] steps@[j]).wf(),
                forall|j: int|
                    0 <= j < steps@.len() ==> (#[trigger] steps@[j]).shape(
                        schedule[j],
                        d0 - arity_sum(schedule.take(j + 1)),
                    ),
                concat_slots(steps@.map_values(|s: FriQueryStepVariable<D>| s.slots())) == old(
                    self,
                ).remaining().skip(ic).take(steps_slot_count(schedule.take(i as int), d0, D as int)),
        {
            let ghost sum_i = arity_sum(schedule.take(i as int));
            let ghost sc_i = steps_slot_count(schedule.take(i as int), d0, D as int);
            let arity_bits = params.reduction_arity_bits[i];
            proof {
                lemma_arity_sum_take_succ(schedule, i as int);
            }
            if merkle_proof_len < arity_bits {
                proof {
                    lemma_arity_sum_split(schedule, i as int + 1);
                    lemma_arity_sum_nonneg(schedule.skip(i as int + 1));
                }
                return Err(CircuitError::Geometry);
            }
            merkle_proof_len = merkle_proof_len - arity_bits;
            let ghost prev = *self;
            proof {
                assert(prev.remaining() =~= old(self).remaining().skip(ic + sc_i));
            }
            let step = match self.read_virtual_fri_query_step::<D>(arity_bits, merkle_proof_len) {
                Ok(s) => s,
                Err(e) => {
                    proof {
                        if params.geom_ok() {
                            lemma_steps_count_split(schedule, i as int, d0, D as int);
                            let tail = schedule.skip(i as int);
                            assert(tail.first() == schedule[i as int]);
                            assert(tail.drop_first() =~= schedule.skip(i as int + 1));
                            assert(steps_slot_count(tail, d0 - sum_i, D as int) == step_slot_count(
                                schedule[i as int],
                                d0 - sum_i - schedule[i as int],
                                D as int,
                            ) + steps_slot_count(
                                schedule.skip(i as int + 1),
                                d0 - sum_i - schedule[i as int],
                                D as int,
                            ));
                            lemma_arity_sum_split(schedule, i as int + 1);
                            lemma_steps_count_nonneg(
                                schedule.skip(i as int + 1),
                                d0 - arity_sum(schedule.take(i as int + 1)),
                                D as int,
                            );
                        }
                        // the accepted steps so far lie inside the fitting
                        // prefix, so the stream is shorter than the slots
                        // before the first overrun
                        lemma_fitting_prefix_at_least(schedule, d0, i as int);
                        lemma_fitting_prefix_props(schedule, d0);
                        let fp = fitting_prefix(schedule, d0);
                        let tf = schedule.take(fp);
                        lemma_steps_count_split(tf, i as int + 1, d0, D as int);
                        assert(tf.take(i as int + 1) =~= schedule.take(i as int + 1));
                        lemma_arity_sum_split(tf, i as int + 1);
                        lemma_steps_count_nonneg(
                            tf.skip(i as int + 1),
                            d0 - arity_sum(schedule.take(i as int + 1)),
                            D as int,
                        );
                        let t1 = schedule.take(i as int + 1);
                        lemma_steps_count_split(t1, i as int, d0, D as int);
                        assert(t1.take(i as int) =~= schedule.take(i as int));
                        assert(t1.skip(i as int) =~= seq![schedule[i as int]]);
                        assert(seq![schedule[i as int]].drop_first() =~= Seq::<usize>::empty());
                        assert(arity_sum(t1.take(i as int)) == sum_i);
                        assert(steps_slot_count(
                            Seq::<usize>::empty(),
                            d0 - sum_i - schedule[i as int],
                            D as int,
                        ) == 0);
                        assert(steps_slot_count(seq![schedule[i as int]], d0 - sum_i, D as int)
                            == step_slot_count(
                            schedule[i as int],
                            d0 - sum_i - schedule[i as int],
                            D as int,
                        ) + steps_slot_count(
                            seq![schedule[i as int]].drop_first(),
                            d0 - sum_i - schedule[i as int],
                            D as int,
                        ));
                        assert(steps_slot_count(t1, d0, D as int) == sc_i + step_slot_count(
                            schedule[i as int],
                            d0 - sum_i - schedule[i as int],
                            D as int,
                        ));
                    }
                    return Err(e);
                },
            };
            let ghost step_count = step_slot_count(arity_bits, merkle_proof_len as int, D as int);
            let ghost steps0 = steps@;
            steps.push(step);
            proof {
                let f = |s: FriQueryStepVariable<D>| s.slots();
                assert(steps@ == steps0.push(step));
                assert(steps@.map_values(f) =~= steps0.map_values(f).push(step.slots()));
                lemma_concat_slots_push(steps0.map_values(f), step.slots());
                lemma_step_count_nonneg(arity_bits, merkle_proof_len as int, D as int);
                lemma_take_split(old(self).remaining().skip(ic), sc_i, step_count);
                assert(prev.remaining() =~= old(self).remaining().skip(ic).skip(sc_i));
                assert(step.slots() == old(self).remaining().skip(ic).skip(sc_i).take(step_count));
                let t1 = schedule.take(i as int + 1);
                lemma_steps_count_split(t1, i as int, d0, D as int);
                assert(t1.take(i as int) =~= schedule.take(i as int));
                assert(t1.skip(i as int) =~= seq![schedule[i as int]]);
                assert(seq![schedule[i as int]].drop_first() =~= Seq::<usize>::empty());
                assert(arity_sum(t1.take(i as int)) == sum_i);
                assert(steps_slot_count(
                    Seq::<usize>::empty(),
                    d0 - sum_i - schedule[i as int],
                    D as int,
                ) == 0);
                assert(steps_slot_count(seq![schedule[i as int]], d0 - sum_i, D as int)
                    == step_slot_count(schedule[i as int], d0 - sum_i - schedule[i as int], D as int)
                    + steps_slot_count(
                    seq![schedule[i as int]].drop_first(),
                    d0 - sum_i - schedule[i as int],
                    D as int,
                ));
                assert(steps_slot_count(t1, d0, D as int) == sc_i + step_count);
            }
        }
        proof {
            assert(schedule.take(n as int) =~= schedule);
            lemma_take_split(
                old(self).remaining(),
                ic,
                steps_slot_count(schedule, d0, D as int),
            );
        }
        Ok(FriQueryRoundVriable { initial_trees_proof, steps })
    }

    /// Reads one full FRI proof: one Merkle cap per reduction round, then
    /// `num_query_rounds` query rounds, then `final_poly_len` polynomial
    /// coefficients, then one proof-of-work witness slot.
    pub fn read_fri_proof<const D: usize>(
        &mut self,
        num_leaves_per_oracle: &Vec<usize>,
        params: &FriParams,
    ) -> (r: Result<FriProofVariable<D>, CircuitError>)
        requires
            old(self).wf(),
            params.wf(),
        ensures
            final(self).wf(),
            final(self).variables@ == old(self).variables@,
            match r {
                Ok(p) => {
                    &&& (params.num_query_rounds > 0 ==> params.geom_ok())
                    &&& p.wf()
                    &&& p.shape(num_leaves_per_oracle@, *params)
                    &&& p.slots() == old(self).remaining().take(
                        fri_proof_slot_count(num_leaves_per_oracle@, *params, D as int),
                    )
                    &&& final(self).advanced(
                        *old(self),
                        fri_proof_slot_count(num_leaves_per_oracle@, *params, D as int),
                    )
                },
                Err(e) => {
                    &&& final(self).keeps(*old(self))
                    &&& (e == CircuitError::Geometry || e == CircuitError::ShortRead)
                    &&& (e == CircuitError::Geometry ==> !params.geom_ok()
                        && params.num_query_rounds > 0)
                    &&& ((params.geom_ok() || params.num_query_rounds == 0) ==> e
                        == CircuitError::ShortRead && old(self).remaining().len()
                        < fri_proof_slot_count(num_leaves_per_oracle@, *params, D as int))
                    &&& (e == CircuitError::ShortRead ==> old(self).remaining().len()
                        < fri_slots_to_failure(num_leaves_per_oracle@, *params, D as int))
                },
            },
    {
        let ghost lc = num_leaves_per_oracle@;
        let ghost schedule = params.reduction_arity_bits@;
        let ghost cap_unit = (params.cap_height as int) * (HASH_OUT_SIZE as int);
        let ghost caps_total = (schedule.len() as int) * cap_unit;
        let ghost rc = round_slot_count(lc, *params, D as int);
        let ghost nrounds = params.num_query_rounds as int;
        let ghost poly_total = (params.final_poly_len as int) * (D as int);
        let ghost total = fri_proof_slot_count(lc, *params, D as int);
        proof {
            assert(cap_unit >= 0) by (nonlinear_arith)
                requires
                    cap_unit == (params.cap_height as int) * (HASH_OUT_SIZE as int),
                    params.cap_height as int >= 0,
            ;
            assert(caps_total >= 0) by (nonlinear_arith)
                requires
                    caps_total == (schedule.len() as int) * cap_unit,
                    schedule.len() as int >= 0,
                    cap_unit >= 0,
            ;
            assert(poly_total >= 0) by (nonlinear_arith)
                requires
                    poly_total == (params.final_poly_len as int) * (D as int),
                    params.final_poly_len as int >= 0,
                    D as int >= 0,
            ;
            assert(caps_total == schedule.len() * (params.cap_height as int) * (HASH_OUT_SIZE
                as int)) by (nonlinear_arith)
                requires
                    caps_total == (schedule.len() as int) * cap_unit,
                    cap_unit == (params.cap_height as int) * (HASH_OUT_SIZE as int),
            ;
            assert(total == caps_total + nrounds * rc + poly_total + 1);
        }
        let cap_height = params.cap_height;
        let n_caps = params.reduction_arity_bits.len();
        let mut commit_phase_merkle_caps: Vec<MerkleCapVariable> = Vec::new();
        proof {
            assert(0 * cap_unit == 0) by (nonlinear_arith);
        }
        for i in 0..n_caps
            invariant
                self.wf(),
                self.variables@ == old(self).variables@,
                n_caps == schedule.len(),
                schedule == params.reduction_arity_bits@,
                lc == num_leaves_per_oracle@,
                params.wf(),
                cap_height == params.cap_height,
                cap_unit == (params.cap_height as int) * (HASH_OUT_SIZE as int),
                cap_unit >= 0,
                caps_total == (schedule.len() as int) * cap_unit,
                caps_total >= 0,
                rc == round_slot_count(lc, *params, D as int),
                nrounds == params.num_query_rounds as int,
                poly_total == (params.final_poly_len as int) * (D as int),
                poly_total >= 0,
                total == fri_proof_slot_count(lc, *params, D as int),
                total == caps_total + nrounds * rc + poly_total + 1,
                self.advanced(*old(self), i * cap_unit),
                i * cap_unit >= 0,
                commit_phase_merkle_caps@.len() == i,
                forall|j: int|
                    0 <= j < commit_phase_merkle_caps@.len() ==> (
                    #[trigger] commit_phase_merkle_caps@[j]).wf(),
                forall|j: int|
                    0 <= j < commit_phase_merkle_caps@.len() ==> (
                    #[trigger] commit_phase_merkle_caps@[j]).0@.len() == params.cap_height,
                concat_slots(
                    commit_phase_merkle_caps@.map_values(|c: MerkleCapVariable| c.slots()),
                ) == old(self).remaining().take(i * cap_unit),
        {
            let ghost prev = *self;
            let ghost caps0 = commit_phase_merkle_caps@;
            proof {
                assert(prev.remaining() =~= old(self).remaining().skip(i * cap_unit));
            }
            let cap = match self.read_merkle_cap(cap_height) {
                Ok(c) => c,
                Err(e) => {
                    proof {
                        assert(i * cap_unit + cap_unit <= (n_caps as int) * cap_unit) by (
                        nonlinear_arith)
                            requires
                                i < n_caps,
                                cap_unit >= 0,
                        ;
                        if params.geom_ok() {
                            lemma_round_count_nonneg(lc, *params, D as int);
                            assert(nrounds * rc >= 0) by (nonlinear_arith)
                                requires
                                    nrounds >= 0,
                                    rc >= 0,
                            ;
                        }
                        if params.num_query_rounds == 0 {
                            assert(nrounds * rc == 0) by (nonlinear_arith)
                                requires
                                    nrounds == 0,
                            ;
                        }
                        assert(caps_total == schedule.len() * (params.cap_height as int) * (
                        HASH_OUT_SIZE as int)) by (nonlinear_arith)
                            requires
                                caps_total == (schedule.len() as int) * cap_unit,
                                cap_unit == (params.cap_height as int) * (HASH_OUT_SIZE as int),
                        ;
                        if !params.geom_ok() && params.num_query_rounds > 0
                            && params.cap_height <= params.lde_bits {
                            lemma_overrun_count_nonneg(lc, *params, D as int);
                        }
                    }
                    return Err(e);
                },
            };
            commit_phase_merkle_caps.push(cap);
            proof {
                let f = |c: MerkleCapVariable| c.slots();
                assert(commit_phase_merkle_caps@ == caps0.push(cap));
                assert(commit_phase_merkle_caps@.map_values(f) =~= caps0.map_values(f).push(
                    cap.slots(),
                ));
                lemma_concat_slots_push(caps0.map_values(f), cap.slots());
                lemma_take_split(old(self).remaining(), i * cap_unit, cap_unit);
                assert((i + 1) * cap_unit == i * cap_unit + cap_unit) by (nonlinear_arith);
            }
        }
        let ghost s_caps = *self;
        proof {
            assert((n_caps as int) * cap_unit == caps_total);
            assert(0 * rc == 0) by (nonlinear_arith);
        }
        let num_queries = params.num_query_rounds;
        let mut query_round_proofs: Vec<FriQueryRoundVriable<D>> = Vec::new();
        for i in 0..num_queries
            invariant
                self.wf(),
                self.variables@ == old(self).variables@,
                schedule == params.reduction_arity_bits@,
                lc == num_leaves_per_oracle@,
                params.wf(),
                caps_total >= 0,
                caps_total == (schedule.len() as int) * ((params.cap_height as int) * (
                HASH_OUT_SIZE as int)),
                rc == round_slot_count(lc, *params, D as int),
                nrounds == params.num_query_rounds as int,
                num_queries == params.num_query_rounds,
                poly_total == (params.final_poly_len as int) * (D as int),
                poly_total >= 0,
                total == fri_proof_slot_count(lc, *params, D as int),
                total == caps_total + nrounds * rc + poly_total + 1,
                commit_phase_merkle_caps@.len() == schedule.len(),
                forall|j: int|
                    0 <= j < commit_phase_merkle_caps@.len() ==> (
                    #[trigger] commit_phase_merkle_caps@[j]).wf(),
                forall|j: int|
                    0 <= j < commit_phase_merkle_caps@.len() ==> (
                    #[trigger] commit_phase_merkle_caps@[j]).0@.len() == params.cap_height,
                concat_slots(
                    commit_phase_merkle_caps@.map_values(|c: MerkleCapVariable| c.slots()),
                ) == old(self).remaining().take(caps_total),
                self.advanced(*old(self), caps_total + i * rc),
                i * rc >= 0,
                i > 0 ==> params.geom_ok(),
                query_round_proofs@.len() == i,
                forall|j: int| 0 <= j < query_round_proofs@.len() ==> (#[trigger] query_round_proofs@[j]).wf(),
                forall|j: int|
                    0 <= j < query_round_proofs@.len() ==> (#[trigger] query_round_proofs@[j]).shape(
                        lc,
                        *params,
                    ),
                concat_slots(
                    query_round_proofs@.map_values(|q: FriQueryRoundVriable<D>| q.slots()),
                ) == old(self).remaining().skip(caps_total).take(i * rc),
        {
            let ghost prev = *self;
            let ghost rounds0 = query_round_proofs@;
            proof {
                assert(prev.remaining() =~= old(self).remaining().skip(caps_total + i * rc));
            }
            let qr = match self.read_fri_query_round::<D>(num_leaves_per_oracle, params) {
                Ok(q) => q,
                Err(e) => {
                    proof {
                        if params.geom_ok() {
                            lemma_round_count_nonneg(lc, *params, D as int);
                            assert(i * rc + rc <= nrounds * rc) by (nonlinear_arith)
                                requires
                                    i < nrounds,
                                    rc >= 0,
                            ;
                            assert(poly_total >= 0);
                        } else {
                            // only the first round can run with unsound
                            // geometry, and a short read there stays below
                            // the slots before the overrun
                            assert(i == 0);
                            assert(i * rc == 0) by (nonlinear_arith)
                                requires
                                    i == 0,
                            ;
                            assert(caps_total == schedule.len() * (params.cap_height as int) * (
                            HASH_OUT_SIZE as int)) by (nonlinear_arith)
                                requires
                                    caps_total == (schedule.len() as int) * ((params.cap_height
                                        as int) * (HASH_OUT_SIZE as int)),
                            ;
                        }
                    }
                    return Err(e);
                },
            };
            query_round_proofs.push(qr);
            proof {
                let f = |q: FriQueryRoundVriable<D>| q.slots();
                assert(query_round_proofs@ == rounds0.push(qr));
                assert(query_round_proofs@.map_values(f) =~= rounds0.map_values(f).push(
                    qr.slots(),
                ));
                lemma_concat_slots_push(rounds0.map_values(f), qr.slots());
                lemma_round_count_nonneg(lc, *params, D as int);
                lemma_take_split(old(self).remaining().skip(caps_total), i * rc, rc);
                assert(prev.remaining() =~= old(self).remaining().skip(caps_total).skip(i * rc));
                assert(qr.slots() == old(self).remaining().skip(caps_total).skip(i * rc).take(rc));
                assert((i + 1) * rc == i * rc + rc) by (nonlinear_arith);
            }
        }
        let ghost rounds_total = nrounds * rc;
        proof {
            assert((num_queries as int) * rc == rounds_total);
            if params.num_query_rounds > 0 {
                lemma_round_count_nonneg(lc, *params, D as int);
            }
            assert(rounds_total >= 0) by (nonlinear_arith)
                requires
                    nrounds >= 0,
                    nrounds > 0 ==> rc >= 0,
                    rounds_total == nrounds * rc,
            ;
        }
        let ghost s_rounds = *self;
        let final_poly = match self.read_poly_coeff_ext::<D>(params.final_poly_len) {
            Ok(p) => p,
            Err(e) => {
                proof {
                    assert(s_rounds.remaining() =~= old(self).remaining().skip(
                        caps_total + rounds_total,
                    ));
                }
                return Err(e);
            },
        };
        let ghost s_poly = *self;
        let pow_witness = match self.read_variable() {
            Ok(v) => v,
            Err(e) => {
                proof {
                    assert(s_poly.remaining() =~= old(self).remaining().skip(
                        caps_total + rounds_total + poly_total,
                    ));
                }
                return Err(e);
            },
        };
        proof {
            let s0 = old(self).remaining();
            lemma_take_split(s0, caps_total + rounds_total + poly_total, 1);
            lemma_take_split(s0, caps_total + rounds_total, poly_total);
            lemma_take_split(s0, caps_total, rounds_total);
            assert(s_rounds.remaining() =~= s0.skip(caps_total + rounds_total));
            assert(s0.skip(caps_total + rounds_total) =~= s0.skip(caps_total).skip(rounds_total));
            assert(s_poly.remaining() =~= s0.skip(caps_total + rounds_total + poly_total));
            assert(final_poly.slots() == s0.skip(caps_total + rounds_total).take(poly_total));
            assert(seq![pow_witness] =~= s_poly.remaining().take(1));
        }
        Ok(
            (FriProofVariable {
                commit_phase_merkle_caps,
                query_round_proofs,
                final_poly,
                pow_witness,
            }),
        )
    }
}


/// The two hash-group runs agree wire for wire.
proof fn lemma_hashes_determined(
    a: Seq<crate::variables::HashOutVariable>,
    b: Seq<crate::variables::HashOutVariable>,
)
    requires
        a.len() == b.len(),
        forall|i: int| 0 <= i < a.len() ==> (#[trigger] a[i]).wf(),
        forall|i: int| 0 <= i < b.len() ==> (#[trigger] b[i]).wf(),
        concat_slots(a.map_values(|h: crate::variables::HashOutVariable| h.elements@))
            == concat_slots(b.map_values(|h: crate::variables::HashOutVariable| h.elements@)),
    ensures
        a.map_values(|h: crate::variables::HashOutVariable| h.elements@) == b.map_values(
            |h: crate::variables::HashOutVariable| h.elements@,
        ),
{
    let f = |h: crate::variables::HashOutVariable| h.elements@;
    assert forall|i: int| 0 <= i < a.map_values(f).len() implies (#[trigger] a.map_values(f)[
    i]).len() == b.map_values(f)[i].len() by {}
    crate::variables::lemma_concat_slots_inj(a.map_values(f), b.map_values(f));
}

/// The two extension-element runs agree wire for wire.
proof fn lemma_exts_determined<const D: usize>(
    a: Seq<ExtensionVariable<D>>,
    b: Seq<ExtensionVariable<D>>,
)
    requires
        a.len() == b.len(),
        forall|i: int| 0 <= i < a.len() ==> (#[trigger] a[i]).wf(),
        forall|i: int| 0 <= i < b.len() ==> (#[trigger] b[i]).wf(),
        concat_slots(a.map_values(|e: ExtensionVariable<D>| e.elements@)) == concat_slots(
            b.map_values(|e: ExtensionVariable<D>| e.elements@),
        ),
    ensures
        a.map_values(|e: ExtensionVariable<D>| e.elements@) == b.map_values(
            |e: ExtensionVariable<D>| e.elements@,
        ),
{
    let f = |e: ExtensionVariable<D>| e.elements@;
    assert forall|i: int| 0 <= i < a.map_values(f).len() implies (#[trigger] a.map_values(f)[
    i]).len() == b.map_values(f)[i].len() by {}
    crate::variables::lemma_concat_slots_inj(a.map_values(f), b.map_values(f));
}

/// Two query steps hold the same wires at every position.
pub open spec fn same_step<const D: usize>(
    s1: FriQueryStepVariable<D>,
    s2: FriQueryStepVariable<D>,
) -> bool {
    &&& s1.evals@.map_values(|e: ExtensionVariable<D>| e.elements@) == s2.evals@.map_values(
        |e: ExtensionVariable<D>| e.elements@,
    )
    &&& s1.merkle_proof.siblings@.map_values(|h: crate::variables::HashOutVariable| h.elements@)
        == s2.merkle_proof.siblings@.map_values(
        |h: crate::variables::HashOutVariable| h.elements@,
    )
}

/// Two initial-trees proofs hold the same wires at every position.
pub open spec fn same_initial(
    p1: FriInitialTreeProofVariable,
    p2: FriInitialTreeProofVariable,
) -> bool {
    &&& p1.evals_proofs@.len() == p2.evals_proofs@.len()
    &&& forall|i: int|
        0 <= i < p1.evals_proofs@.len() ==> (#[trigger] p1.evals_proofs@[i]).0@
            == p2.evals_proofs@[i].0@ && p1.evals_proofs@[i].1.siblings@.map_values(
            |h: crate::variables::HashOutVariable| h.elements@,
        ) == p2.evals_proofs@[i].1.siblings@.map_values(
            |h: crate::variables::HashOutVariable| h.elements@,
        )
}

/// Two query rounds hold the same wires at every position.
pub open spec fn same_round<const D: usize>(
    q1: FriQueryRoundVriable<D>,
    q2: FriQueryRoundVriable<D>,
) -> bool {
    &&& same_initial(q1.initial_trees_proof, q2.initial_trees_proof)
    &&& q1.steps@.len() == q2.steps@.len()
    &&& forall|i: int|
        0 <= i < q1.steps@.len() ==> same_step(#[trigger] q1.steps@[i], q2.steps@[i])
}

/// Two proofs hold the same wires at every position: caps, query rounds,
/// final polynomial and proof-of-work witness are all equal in value.
pub open spec fn same_fri_proof<const D: usize>(
    p1: FriProofVariable<D>,
    p2: FriProofVariable<D>,
) -> bool {
    &&& p1.commit_phase_merkle_caps@.len() == p2.commit_phase_merkle_caps@.len()
    &&& forall|i: int|
        0 <= i < p1.commit_phase_merkle_caps@.len() ==> (
        #[trigger] p1.commit_phase_merkle_caps@[i]).0@.map_values(
            |h: crate::variables::HashOutVariable| h.elements@,
        ) == p2.commit_phase_merkle_caps@[i].0@.map_values(
            |h: crate::variables::HashOutVariable| h.elements@,
        )
    &&& p1.query_round_proofs@.len() == p2.query_round_proofs@.len()
    &&& forall|i: int|
        0 <= i < p1.query_round_proofs@.len() ==> same_round(
            #[trigger] p1.query_round_proofs@[i],
            p2.query_round_proofs@[i],
        )
    &&& p1.final_poly.0@.map_values(|e: ExtensionVariable<D>| e.elements@)
        == p2.final_poly.0@.map_values(|e: ExtensionVariable<D>| e.elements@)
    &&& p1.pow_witness == p2.pow_witness
}

/// A query step is determined by its shape and its wires.
proof fn lemma_step_determined<const D: usize>(
    s1: FriQueryStepVariable<D>,
    s2: FriQueryStepVariable<D>,
    arity_bits: usize,
    proof_len: int,
)
    requires
        s1.wf(),
        s2.wf(),
        s1.shape(arity_bits, proof_len),
        s2.shape(arity_bits, proof_len),
        s1.slots() == s2.slots(),
    ensures
        same_step(s1, s2),
{
    let f = |e: ExtensionVariable<D>| e.elements@;
    let a1 = concat_slots(s1.evals@.map_values(f));
    let a2 = concat_slots(s2.evals@.map_values(f));
    assert forall|i: int| 0 <= i < s1.evals@.map_values(f).len() implies (
    #[trigger] s1.evals@.map_values(f)[i]).len() == D by {}
    assert forall|i: int| 0 <= i < s2.evals@.map_values(f).len() implies (
    #[trigger] s2.evals@.map_values(f)[i]).len() == D by {}
    lemma_concat_uniform_len(s1.evals@.map_values(f), D as int);
    lemma_concat_uniform_len(s2.evals@.map_values(f), D as int);
    assert(a1.len() == a2.len());
    assert(a1 =~= s1.slots().take(a1.len() as int));
    assert(a2 =~= s2.slots().take(a2.len() as int));
    assert(s1.merkle_proof.slots() =~= s1.slots().skip(a1.len() as int));
    assert(s2.merkle_proof.slots() =~= s2.slots().skip(a2.len() as int));
    lemma_exts_determined(s1.evals@, s2.evals@);
    lemma_hashes_determined(s1.merkle_proof.siblings@, s2.merkle_proof.siblings@);
}

/// An initial-trees proof is determined by its shape and its wires.
proof fn lemma_initial_determined(
    p1: FriInitialTreeProofVariable,
    p2: FriInitialTreeProofVariable,
    leaf_counts: Seq<usize>,
    proof_len: int,
)
    requires
        p1.wf(),
        p2.wf(),
        p1.shape(leaf_counts, proof_len),
        p2.shape(leaf_counts, proof_len),
        p1.slots() == p2.slots(),
    ensures
        same_initial(p1, p2),
{
    let f = |p: (Vec<Variable>, MerkleProofVariable)| p.0@ + p.1.slots();
    let g = |h: crate::variables::HashOutVariable| h.elements@;
    let a = p1.evals_proofs@.map_values(f);
    let b = p2.evals_proofs@.map_values(f);
    assert forall|i: int| 0 <= i < a.len() implies (#[trigger] a[i]).len() == b[i].len() by {
        assert forall|j: int|
            0 <= j < p1.evals_proofs@[i].1.siblings@.map_values(g).len() implies (
        #[trigger] p1.evals_proofs@[i].1.siblings@.map_values(g)[j]).len() == HASH_OUT_SIZE by {}
        assert forall|j: int|
            0 <= j < p2.evals_proofs@[i].1.siblings@.map_values(g).len() implies (
        #[trigger] p2.evals_proofs@[i].1.siblings@.map_values(g)[j]).len() == HASH_OUT_SIZE by {}
        lemma_concat_uniform_len(
            p1.evals_proofs@[i].1.siblings@.map_values(g),
            HASH_OUT_SIZE as int,
        );
        lemma_concat_uniform_len(
            p2.evals_proofs@[i].1.siblings@.map_values(g),
            HASH_OUT_SIZE as int,
        );
    }
    crate::variables::lemma_concat_slots_inj(a, b);
    assert forall|i: int|
        0 <= i < p1.evals_proofs@.len() implies (#[trigger] p1.evals_proofs@[i]).0@
            == p2.evals_proofs@[i].0@ && p1.evals_proofs@[i].1.siblings@.map_values(g)
            == p2.evals_proofs@[i].1.siblings@.map_values(g) by {
        let pair1 = p1.evals_proofs@[i];
        let pair2 = p2.evals_proofs@[i];
        assert(a[i] == b[i]);
        assert(pair1.0@ + pair1.1.slots() == pair2.0@ + pair2.1.slots());
        let n = leaf_counts[i] as int;
        assert(pair1.0@ =~= (pair1.0@ + pair1.1.slots()).take(n));
        assert(pair2.0@ =~= (pair2.0@ + pair2.1.slots()).take(n));
        assert(pair1.1.slots() =~= (pair1.0@ + pair1.1.slots()).skip(n));
        assert(pair2.1.slots() =~= (pair2.0@ + pair2.1.slots()).skip(n));
        lemma_hashes_determined(pair1.1.siblings@, pair2.1.siblings@);
    }
}

/// The wires of a shaped step, counted from its shape.
proof fn lemma_step_slots_len<const D: usize>(
    s: FriQueryStepVariable<D>,
    arity_bits: usize,
    proof_len: int,
)
    requires
        s.wf(),
        s.shape(arity_bits, proof_len),
    ensures
        s.slots().len() == ((1u64 << arity_bits) as int) * (D as int) + proof_len * (HASH_OUT_SIZE
            as int),
{
    let f = |e: ExtensionVariable<D>| e.elements@;
    let g = |h: crate::variables::HashOutVariable| h.elements@;
    assert forall|i: int| 0 <= i < s.evals@.map_values(f).len() implies (
    #[trigger] s.evals@.map_values(f)[i]).len() == D by {}
    assert forall|i: int| 0 <= i < s.merkle_proof.siblings@.map_values(g).len() implies (
    #[trigger] s.merkle_proof.siblings@.map_values(g)[i]).len() == HASH_OUT_SIZE by {}
    lemma_concat_uniform_len(s.evals@.map_values(f), D as int);
    lemma_concat_uniform_len(s.merkle_proof.siblings@.map_values(g), HASH_OUT_SIZE as int);
    assert((D as int) * (s.evals@.len() as int) == ((1u64 << arity_bits) as int) * (D as int)) by (
    nonlinear_arith)
        requires
            s.evals@.len() == (1u64 << arity_bits),
    ;
    assert((HASH_OUT_SIZE as int) * (s.merkle_proof.siblings@.len() as int) == proof_len * (
    HASH_OUT_SIZE as int)) by (nonlinear_arith)
        requires
            s.merkle_proof.siblings@.len() == proof_len,
    ;
}

/// Two query rounds of one shape span the same number of wires.
proof fn lemma_round_len_eq<const D: usize>(
    q1: FriQueryRoundVriable<D>,
    q2: FriQueryRoundVriable<D>,
    leaf_counts: Seq<usize>,
    params: FriParams,
)
    requires
        q1.wf(),
        q2.wf(),
        q1.shape(leaf_counts, params),
        q2.shape(leaf_counts, params),
    ensures
        q1.initial_trees_proof.slots().len() == q2.initial_trees_proof.slots().len(),
        q1.slots().len() == q2.slots().len(),
{
    let f = |p: (Vec<Variable>, MerkleProofVariable)| p.0@ + p.1.slots();
    let g = |h: crate::variables::HashOutVariable| h.elements@;
    let fs = |s: FriQueryStepVariable<D>| s.slots();
    let a = q1.initial_trees_proof.evals_proofs@.map_values(f);
    let b = q2.initial_trees_proof.evals_proofs@.map_values(f);
    assert forall|i: int| 0 <= i < a.len() implies (#[trigger] a[i]).len() == b[i].len() by {
        let m1 = q1.initial_trees_proof.evals_proofs@[i].1.siblings@.map_values(g);
        let m2 = q2.initial_trees_proof.evals_proofs@[i].1.siblings@.map_values(g);
        assert forall|j: int| 0 <= j < m1.len() implies (#[trigger] m1[j]).len() == HASH_OUT_SIZE
            by {}
        assert forall|j: int| 0 <= j < m2.len() implies (#[trigger] m2[j]).len() == HASH_OUT_SIZE
            by {}
        lemma_concat_uniform_len(m1, HASH_OUT_SIZE as int);
        lemma_concat_uniform_len(m2, HASH_OUT_SIZE as int);
    }
    crate::variables::lemma_concat_len_eq(a, b);
    assert forall|i: int|
        0 <= i < q1.steps@.map_values(fs).len() implies (#[trigger] q1.steps@.map_values(fs)[
    i]).len() == q2.steps@.map_values(fs)[i].len() by {
        let schedule = params.reduction_arity_bits@;
        lemma_step_slots_len(
            q1.steps@[i],
            schedule[i],
            params.initial_depth() - arity_sum(schedule.take(i + 1)),
        );
        lemma_step_slots_len(
            q2.steps@[i],
            schedule[i],
            params.initial_depth() - arity_sum(schedule.take(i + 1)),
        );
    }
    crate::variables::lemma_concat_len_eq(q1.steps@.map_values(fs), q2.steps@.map_values(fs));
}

/// A query round is determined by its shape and its wires.
proof fn lemma_round_determined<const D: usize>(
    q1: FriQueryRoundVriable<D>,
    q2: FriQueryRoundVriable<D>,
    leaf_counts: Seq<usize>,
    params: FriParams,
)
    requires
        q1.wf(),
        q2.wf(),
        q1.shape(leaf_counts, params),
        q2.shape(leaf_counts, params),
        q1.slots() == q2.slots(),
    ensures
        same_round(q1, q2),
{
    let fs = |s: FriQueryStepVariable<D>| s.slots();
    lemma_round_len_eq(q1, q2, leaf_counts, params);
    let li = q1.initial_trees_proof.slots().len() as int;
    assert(q1.initial_trees_proof.slots() =~= q1.slots().take(li));
    assert(q2.initial_trees_proof.slots() =~= q2.slots().take(li));
    assert(concat_slots(q1.steps@.map_values(fs)) =~= q1.slots().skip(li));
    assert(concat_slots(q2.steps@.map_values(fs)) =~= q2.slots().skip(li));
    lemma_initial_determined(
        q1.initial_trees_proof,
        q2.initial_trees_proof,
        leaf_counts,
        params.initial_depth(),
    );
    assert forall|i: int|
        0 <= i < q1.steps@.map_values(fs).len() implies (#[trigger] q1.steps@.map_values(fs)[
    i]).len() == q2.steps@.map_values(fs)[i].len() by {
        let schedule = params.reduction_arity_bits@;
        lemma_step_slots_len(
            q1.steps@[i],
            schedule[i],
            params.initial_depth() - arity_sum(schedule.take(i + 1)),
        );
        lemma_step_slots_len(
            q2.steps@[i],
            schedule[i],
            params.initial_depth() - arity_sum(schedule.take(i + 1)),
        );
    }
    crate::variables::lemma_concat_slots_inj(q1.steps@.map_values(fs), q2.steps@.map_values(fs));
    assert forall|i: int| 0 <= i < q1.steps@.len() implies same_step(
        #[trigger] q1.steps@[i],
        q2.steps@[i],
    ) by {
        let schedule = params.reduction_arity_bits@;
        assert(q1.steps@.map_values(fs)[i] == q2.steps@.map_values(fs)[i]);
        lemma_step_determined(
            q1.steps@[i],
            q2.steps@[i],
            schedule[i],
            params.initial_depth() - arity_sum(schedule.take(i + 1)),
        );
    }
}

/// The concrete-symbolic conversion loses nothing: a proof's shape and
/// its flat wire sequence determine the whole structure, wire for wire.
/// Together with the contracts of [`VariableStream::read_fri_proof`]
/// (the wires it consumes are exactly the structure's flattening) and of
/// [`FriProofVariable::to_concrete`], reading back a converted proof of
/// that shape yields the same proof again: the conversion is an
/// isomorphism, not a lossy approximation.
pub proof fn lemma_fri_structure_determined<const D: usize>(
    p1: FriProofVariable<D>,
    p2: FriProofVariable<D>,
    leaf_counts: Seq<usize>,
    params: FriParams,
)
    requires
        p1.wf(),
        p2.wf(),
        p1.shape(leaf_counts, params),
        p2.shape(leaf_counts, params),
        p1.slots() == p2.slots(),
    ensures
        same_fri_proof(p1, p2),
{
    let fc = |c: MerkleCapVariable| c.slots();
    let fq = |q: FriQueryRoundVriable<D>| q.slots();
    let fe = |e: ExtensionVariable<D>| e.elements@;
    let g = |h: crate::variables::HashOutVariable| h.elements@;
    let a1 = concat_slots(p1.commit_phase_merkle_caps@.map_values(fc));
    let a2 = concat_slots(p2.commit_phase_merkle_caps@.map_values(fc));
    let b1 = concat_slots(p1.query_round_proofs@.map_values(fq));
    let b2 = concat_slots(p2.query_round_proofs@.map_values(fq));
    let c1 = p1.final_poly.slots();
    let c2 = p2.final_poly.slots();
    assert forall|i: int|
        0 <= i < p1.commit_phase_merkle_caps@.map_values(fc).len() implies (
    #[trigger] p1.commit_phase_merkle_caps@.map_values(fc)[i]).len()
        == p2.commit_phase_merkle_caps@.map_values(fc)[i].len() by {
        let m1 = p1.commit_phase_merkle_caps@[i].0@.map_values(g);
        let m2 = p2.commit_phase_merkle_caps@[i].0@.map_values(g);
        assert forall|j: int| 0 <= j < m1.len() implies (#[trigger] m1[j]).len() == HASH_OUT_SIZE
            by {}
        assert forall|j: int| 0 <= j < m2.len() implies (#[trigger] m2[j]).len() == HASH_OUT_SIZE
            by {}
        lemma_concat_uniform_len(m1, HASH_OUT_SIZE as int);
        lemma_concat_uniform_len(m2, HASH_OUT_SIZE as int);
    }
    crate::variables::lemma_concat_len_eq(
        p1.commit_phase_merkle_caps@.map_values(fc),
        p2.commit_phase_merkle_caps@.map_values(fc),
    );
    assert forall|i: int|
        0 <= i < p1.query_round_proofs@.map_values(fq).len() implies (
    #[trigger] p1.query_round_proofs@.map_values(fq)[i]).len() == p2.query_round_proofs@.map_values(
        fq,
    )[i].len() by {
        lemma_round_len_eq(
            p1.query_round_proofs@[i],
            p2.query_round_proofs@[i],
            leaf_counts,
            params,
        );
    }
    crate::variables::lemma_concat_len_eq(
        p1.query_round_proofs@.map_values(fq),
        p2.query_round_proofs@.map_values(fq),
    );
    assert forall|i: int| 0 <= i < p1.final_poly.0@.map_values(fe).len() implies (
    #[trigger] p1.final_poly.0@.map_values(fe)[i]).len() == D by {}
    assert forall|i: int| 0 <= i < p2.final_poly.0@.map_values(fe).len() implies (
    #[trigger] p2.final_poly.0@.map_values(fe)[i]).len() == D by {}
    lemma_concat_uniform_len(p1.final_poly.0@.map_values(fe), D as int);
    lemma_concat_uniform_len(p2.final_poly.0@.map_values(fe), D as int);
    assert(a1.len() == a2.len());
    assert(b1.len() == b2.len());
    assert(c1.len() == c2.len());
    let la = a1.len() as int;
    let lb = b1.len() as int;
    let lcn = c1.len() as int;
    assert(a1 =~= p1.slots().take(la));
    assert(a2 =~= p2.slots().take(la));
    assert(b1 =~= p1.slots().skip(la).take(lb));
    assert(b2 =~= p2.slots().skip(la).take(lb));
    assert(c1 =~= p1.slots().skip(la).skip(lb).take(lcn));
    assert(c2 =~= p2.slots().skip(la).skip(lb).take(lcn));
    assert(p1.pow_witness == p1.slots()[la + lb + lcn]);
    assert(p2.pow_witness == p2.slots()[la + lb + lcn]);
    crate::variables::lemma_concat_slots_inj(
        p1.commit_phase_merkle_caps@.map_values(fc),
        p2.commit_phase_merkle_caps@.map_values(fc),
    );
    assert forall|i: int|
        0 <= i < p1.commit_phase_merkle_caps@.len() implies (
    #[trigger] p1.commit_phase_merkle_caps@[i]).0@.map_values(g)
        == p2.commit_phase_merkle_caps@[i].0@.map_values(g) by {
        assert(p1.commit_phase_merkle_caps@.map_values(fc)[i]
            == p2.commit_phase_merkle_caps@.map_values(fc)[i]);
        lemma_hashes_determined(
            p1.commit_phase_merkle_caps@[i].0@,
            p2.commit_phase_merkle_caps@[i].0@,
        );
    }
    crate::variables::lemma_concat_slots_inj(
        p1.query_round_proofs@.map_values(fq),
        p2.query_round_proofs@.map_values(fq),
    );
    assert forall|i: int| 0 <= i < p1.query_round_proofs@.len() implies same_round(
        #[trigger] p1.query_round_proofs@[i],
        p2.query_round_proofs@[i],
    ) by {
        assert(p1.query_round_proofs@.map_values(fq)[i] == p2.query_round_proofs@.map_values(fq)[
            i]);
        lemma_round_determined(
            p1.query_round_proofs@[i],
            p2.query_round_proofs@[i],
            leaf_counts,
            params,
        );
    }
    lemma_exts_determined(p1.final_poly.0@, p2.final_poly.0@);
}

} // verus!
