use vstd::prelude::*;

verus! {

/// One symbolic wire of a constraint system.
///
/// Its identity is the wire index alone; a slot never carries a concrete
/// value until witness time, and equality is identity, not value.
#[derive(Clone, Copy, Debug, PartialEq, Eq, Structural)]
pub struct Variable(pub u64);

/// Number of wires in one hash-output-sized group.
pub const HASH_OUT_SIZE: usize = 4;

/// A byte as eight bit wires, in big-endian bit order.
#[derive(Clone, Debug, PartialEq, Eq)]
#[verifier::ext_equal]
pub struct ByteVariable {
    pub bits: Vec<Variable>,
}

/// An extension-field element: a degree-`D` tuple of wires.
#[derive(Clone, Debug, PartialEq, Eq)]
#[verifier::ext_equal]
pub struct ExtensionVariable<const D: usize> {
    pub elements: Vec<Variable>,
}

/// A hash output as a fixed group of wires.
#[derive(Clone, Debug, PartialEq, Eq)]
#[verifier::ext_equal]
pub struct HashOutVariable {
    pub elements: Vec<Variable>,
}

/// The top rows of a Merkle tree, used as a compact commitment.
#[derive(Clone, Debug, PartialEq, Eq)]
#[verifier::ext_equal]
pub struct MerkleCapVariable(pub Vec<HashOutVariable>);

/// The sibling hashes of one Merkle authentication path.
#[derive(Clone, Debug, PartialEq, Eq)]
#[verifier::ext_equal]
pub struct MerkleProofVariable {
    pub siblings: Vec<HashOutVariable>,
}

/// Coefficients of a polynomial over the extension field.
#[derive(Clone, Debug, PartialEq, Eq)]
#[verifier::ext_equal]
pub struct PolynomialCoeffsExtVariable<const D: usize>(pub Vec<ExtensionVariable<D>>);

impl ByteVariable {
    /// A byte variable owns exactly eight wires.
    pub open spec fn wf(self) -> bool {
        self.bits@.len() == 8
    }

    /// The constituent wires, most significant bit first.
    pub open spec fn slots(self) -> Seq<Variable> {
        self.bits@
    }
}

impl<const D: usize> ExtensionVariable<D> {
    /// An extension element owns exactly `D` wires.
    pub open spec fn wf(self) -> bool {
        self.elements@.len() == D
    }

    pub open spec fn slots(self) -> Seq<Variable> {
        self.elements@
    }
}

impl HashOutVariable {
    /// A hash output owns exactly [`HASH_OUT_SIZE`] wires.
    pub open spec fn wf(self) -> bool {
        self.elements@.len() == HASH_OUT_SIZE
    }

    pub open spec fn slots(self) -> Seq<Variable> {
        self.elements@
    }
}

impl MerkleCapVariable {
    pub open spec fn wf(self) -> bool {
        forall|i: int| 0 <= i < self.0@.len() ==> (#[trigger] self.0@[i]).wf()
    }

    pub open spec fn slots(self) -> Seq<Variable> {
        concat_slots(self.0@.map_values(|h: HashOutVariable| h.elements@))
    }
}

impl MerkleProofVariable {
    pub open spec fn wf(self) -> bool {
        forall|i: int| 0 <= i < self.siblings@.len() ==> (#[trigger] self.siblings@[i]).wf()
    }

    pub open spec fn slots(self) -> Seq<Variable> {
        concat_slots(self.siblings@.map_values(|h: HashOutVariable| h.elements@))
    }
}

impl<const D: usize> PolynomialCoeffsExtVariable<D> {
    pub open spec fn wf(self) -> bool {
        forall|i: int| 0 <= i < self.0@.len() ==> (#[trigger] self.0@[i]).wf()
    }

    pub open spec fn slots(self) -> Seq<Variable> {
        concat_slots(self.0@.map_values(|e: ExtensionVariable<D>| e.elements@))
    }
}

/// Concatenation of a sequence of wire groups, in order.
pub open spec fn concat_slots(s: Seq<Seq<Variable>>) -> Seq<Variable>
    decreases s.len(),
{
    if s.len() == 0 {
        Seq::empty()
    } else {
        s.first() + concat_slots(s.drop_first())
    }
}

pub proof fn lemma_concat_slots_push(s: Seq<Seq<Variable>>, x: Seq<Variable>)
    ensures
        concat_slots(s.push(x)) == concat_slots(s) + x,
    decreases s.len(),
{
    if s.len() == 0 {
        assert(s.push(x).drop_first() =~= s);
        assert(s.push(x).first() == x);
        assert(concat_slots(s.push(x)) == x + concat_slots(s));
        assert(x + concat_slots(s) =~= concat_slots(s) + x);
    } else {
        lemma_concat_slots_push(s.drop_first(), x);
        assert(s.push(x).drop_first() =~= s.drop_first().push(x));
        assert(s.push(x).first() == s.first());
        assert(s.first() + (concat_slots(s.drop_first()) + x) =~= (s.first() + concat_slots(
            s.drop_first(),
        )) + x);
    }
}

/// Two group sequences with matching group lengths concatenate to the
/// same length.
pub proof fn lemma_concat_len_eq(a: Seq<Seq<Variable>>, b: Seq<Seq<Variable>>)
    requires
        a.len() == b.len(),
        forall|i: int| 0 <= i < a.len() ==> (#[trigger] a[i]).len() == b[i].len(),
    ensures
        concat_slots(a).len() == concat_slots(b).len(),
    decreases a.len(),
{
    if a.len() > 0 {
        assert forall|i: int| 0 <= i < a.drop_first().len() implies (#[trigger] a.drop_first()[
        i]).len() == b.drop_first()[i].len() by {
            assert(a.drop_first()[i] == a[i + 1]);
            assert(b.drop_first()[i] == b[i + 1]);
        }
        lemma_concat_len_eq(a.drop_first(), b.drop_first());
    }
}

/// Groups with matching lengths are determined by their concatenation.
pub proof fn lemma_concat_slots_inj(a: Seq<Seq<Variable>>, b: Seq<Seq<Variable>>)
    requires
        a.len() == b.len(),
        forall|i: int| 0 <= i < a.len() ==> (#[trigger] a[i]).len() == b[i].len(),
        concat_slots(a) == concat_slots(b),
    ensures
        a == b,
    decreases a.len(),
{
    if a.len() > 0 {
        let n = a.first().len() as int;
        assert(a.first() =~= concat_slots(a).take(n));
        assert(b.first() =~= concat_slots(b).take(n));
        assert(concat_slots(a.drop_first()) =~= concat_slots(a).skip(n));
        assert(concat_slots(b.drop_first()) =~= concat_slots(b).skip(n));
        assert forall|i: int| 0 <= i < a.drop_first().len() implies (#[trigger] a.drop_first()[
        i]).len() == b.drop_first()[i].len() by {
            assert(a.drop_first()[i] == a[i + 1]);
            assert(b.drop_first()[i] == b[i + 1]);
        }
        lemma_concat_slots_inj(a.drop_first(), b.drop_first());
        assert forall|i: int| 0 <= i < a.len() implies a[i] == b[i] by {
            if i > 0 {
                assert(a.drop_first()[i - 1] == a[i]);
                assert(b.drop_first()[i - 1] == b[i]);
            }
        }
        assert(a =~= b);
    } else {
        assert(a =~= b);
    }
}

/// Concatenating groups of one uniform size multiplies the length.
pub proof fn lemma_concat_uniform_len(s: Seq<Seq<Variable>>, k: int)
    requires
        forall|i: int| 0 <= i < s.len() ==> (#[trigger] s[i]).len() == k,
    ensures
        concat_slots(s).len() == k * s.len(),
    decreases s.len(),
{
    if s.len() == 0 {
        assert(k * 0 == 0) by (nonlinear_arith);
    } else {
        assert(forall|i: int|
            0 <= i < s.drop_first().len() ==> (#[trigger] s.drop_first()[i]).len() == k);
        lemma_concat_uniform_len(s.drop_first(), k);
        assert(k * s.len() == k + k * (s.len() - 1)) by (nonlinear_arith);
    }
}

/// Splitting a prefix of a sequence at an interior point.
pub proof fn lemma_take_split(s: Seq<Variable>, a: int, b: int)
    requires
        0 <= a,
        0 <= b,
        a + b <= s.len(),
    ensures
        s.take(a + b) == s.take(a) + s.skip(a).take(b),
{
    assert(s.take(a + b) =~= s.take(a) + s.skip(a).take(b));
}

} // verus!
