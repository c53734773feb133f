//! Openings of committed matrices that are checked inside a circuit.

use vstd::prelude::*;

use crate::circuit::{CircuitBuilder, CircuitBuilderError};
use crate::config::PermConfig;
use crate::field::Field;
use crate::merkle::Dimensions;
use crate::seqs;
use crate::transcript;
use crate::types::{ExprId, NonPrimitiveOpId, Target};

verus! {

/// One opening of a committed matrix, as it is handed to a path verifier.
#[verifier::ext_equal]
pub struct PathCheck {
    pub permutation: PermConfig,
    pub cap: Seq<Seq<Target>>,
    pub dimensions: Seq<Dimensions>,
    /// The index of the row, the lowest bit first.
    pub index_bits: Seq<Target>,
    pub leaf: Seq<Target>,
    /// Whether the leaf holds extension elements.
    pub extension: bool,
}

/// The account of a path verifier.
#[verifier::ext_equal]
pub struct PathLog {
    /// The openings handed over so far.
    pub checks: Seq<PathCheck>,
    /// The operations that wait for private path data.
    pub issued: Seq<NonPrimitiveOpId>,
    /// The connections made so far.
    pub asserted: Seq<(ExprId, ExprId)>,
    /// The failures so far.
    pub failures: Seq<CircuitBuilderError>,
}

/// One opening is handed over, and the circuit grows by nothing else than what its check needs.
pub open spec fn hands_over<F: Field>(
    before: PathLog,
    after: PathLog,
    circuit: CircuitBuilder<F>,
    grown: CircuitBuilder<F>,
    check: PathCheck,
    ops: Seq<NonPrimitiveOpId>,
) -> bool {
    &&& circuit.grows_to(grown)
    &&& after.checks == before.checks.push(check)
    &&& after.issued == before.issued + ops
    &&& after.failures == before.failures
    &&& before.asserted.is_prefix_of(after.asserted)
    &&& grown.connections@ == circuit.connections@ + transcript::beyond(
        before.asserted,
        after.asserted,
    )
}

/// Checks openings against Merkle caps inside a circuit.
///
/// An implementation may add expressions, operations and connections of its own to the circuit. The
/// operations that it returns wait for private path data.
pub trait PathVerifier<F: Field>: Sized {
    /// What happened so far.
    spec fn log(&self) -> PathLog;

    /// Checks an opening of base elements.
    fn verify_batch_circuit(
        &mut self,
        circuit: &mut CircuitBuilder<F>,
        permutation: PermConfig,
        cap: &[Vec<Target>],
        dimensions: &Vec<Dimensions>,
        index_bits: &Vec<Target>,
        leaf: &Vec<Target>,
    ) -> (r: Result<Vec<NonPrimitiveOpId>, CircuitBuilderError>)
        requires
            old(circuit).wf(),
            old(circuit).has_all(index_bits@),
            old(circuit).has_all(leaf@),
            forall|i: int| 0 <= i < cap@.len() ==> old(circuit).has_all((#[trigger] cap@[i])@),
        ensures
            match r {
                Ok(ops) => hands_over(
                    old(self).log(),
                    final(self).log(),
                    *old(circuit),
                    *final(circuit),
                    (PathCheck {
                        permutation,
                        cap: seqs::rows(cap@),
                        dimensions: dimensions@,
                        index_bits: index_bits@,
                        leaf: leaf@,
                        extension: false,
                    }),
                    ops@,
                ),
                Err(e) => final(self).log().failures == old(self).log().failures.push(e),
            },
    ;

    /// Checks an opening of extension elements.
    fn verify_batch_circuit_from_extension_opened(
        &mut self,
        circuit: &mut CircuitBuilder<F>,
        permutation: PermConfig,
        cap: &[Vec<Target>],
        dimensions: &Vec<Dimensions>,
        index_bits: &Vec<Target>,
        leaf: &Vec<Target>,
    ) -> (r: Result<Vec<NonPrimitiveOpId>, CircuitBuilderError>)
        requires
            old(circuit).wf(),
            old(circuit).has_all(index_bits@),
            old(circuit).has_all(leaf@),
            forall|i: int| 0 <= i < cap@.len() ==> old(circuit).has_all((#[trigger] cap@[i])@),
        ensures
            match r {
                Ok(ops) => hands_over(
                    old(self).log(),
                    final(self).log(),
                    *old(circuit),
                    *final(circuit),
                    (PathCheck {
                        permutation,
                        cap: seqs::rows(cap@),
                        dimensions: dimensions@,
                        index_bits: index_bits@,
                        leaf: leaf@,
                        extension: true,
                    }),
                    ops@,
                ),
                Err(e) => final(self).log().failures == old(self).log().failures.push(e),
            },
    ;
}

/// An opening that a [`DeferredPaths`] keeps for later.
#[derive(Clone, Debug, PartialEq, Eq)]
pub struct DeferredPath {
    pub permutation: PermConfig,
    pub cap: Vec<Vec<Target>>,
    pub dimensions: Vec<Dimensions>,
    pub index_bits: Vec<Target>,
    pub leaf: Vec<Target>,
    pub extension: bool,
}

impl View for DeferredPath {
    type V = PathCheck;

    open spec fn view(&self) -> PathCheck {
        PathCheck {
            permutation: self.permutation,
            cap: seqs::rows(self.cap@),
            dimensions: self.dimensions@,
            index_bits: self.index_bits@,
            leaf: self.leaf@,
            extension: self.extension,
        }
    }
}

/// A path verifier that keeps the openings and leaves the circuit alone: whoever finishes the
/// circuit checks them.
pub struct DeferredPaths {
    pub kept: Vec<DeferredPath>,
}

impl DeferredPaths {
    pub open spec fn account(self) -> PathLog {
        PathLog {
            checks: Seq::new(self.kept@.len(), |i: int| self.kept@[i]@),
            issued: Seq::empty(),
            asserted: Seq::empty(),
            failures: Seq::empty(),
        }
    }

    pub fn new() -> (r: Self)
        ensures
            r.kept@.len() == 0,
    {
        DeferredPaths { kept: Vec::new() }
    }

    fn keep(
        &mut self,
        permutation: PermConfig,
        cap: &[Vec<Target>],
        dimensions: &Vec<Dimensions>,
        index_bits: &Vec<Target>,
        leaf: &Vec<Target>,
        extension: bool,
    )
        ensures
            final(self).account().checks == old(self).account().checks.push(
                (PathCheck {
                    permutation,
                    cap: seqs::rows(cap@),
                    dimensions: dimensions@,
                    index_bits: index_bits@,
                    leaf: leaf@,
                    extension,
                }),
            ),
    {
        let ghost before = *self;
        let mut rows: Vec<Vec<Target>> = Vec::new();
        let mut i: usize = 0;
        while i < cap.len()
            invariant
                i <= cap@.len(),
                rows@.len() == i,
                seqs::rows(rows@) == seqs::rows(cap@).take(i as int),
            decreases cap@.len() - i,
        {
            let row = seqs::copy_vec(&cap[i]);
            let ghost earlier = rows@;
            rows.push(row);
            i += 1;
            assert forall|j: int| 0 <= j < i implies seqs::rows(rows@)[j] == seqs::rows(
                cap@,
            ).take(i as int)[j] by {
                if j < i - 1 {
                    assert(seqs::rows(earlier)[j] == seqs::rows(cap@).take(i - 1)[j]);
                }
            }
            assert(seqs::rows(rows@) =~= seqs::rows(cap@).take(i as int));
        }
        assert(seqs::rows(cap@).take(cap@.len() as int) =~= seqs::rows(cap@));
        self.kept.push(
            DeferredPath {
                permutation,
                cap: rows,
                dimensions: seqs::copy_vec(dimensions),
                index_bits: seqs::copy_vec(index_bits),
                leaf: seqs::copy_vec(leaf),
                extension,
            },
        );
        assert(self.account().checks =~= before.account().checks.push(self.kept@.last()@));
    }
}

impl<F: Field> PathVerifier<F> for DeferredPaths {
    open spec fn log(&self) -> PathLog {
        self.account()
    }

    fn verify_batch_circuit(
        &mut self,
        circuit: &mut CircuitBuilder<F>,
        permutation: PermConfig,
        cap: &[Vec<Target>],
        dimensions: &Vec<Dimensions>,
        index_bits: &Vec<Target>,
        leaf: &Vec<Target>,
    ) -> (r: Result<Vec<NonPrimitiveOpId>, CircuitBuilderError>) {
        self.keep(permutation, cap, dimensions, index_bits, leaf, false);
        proof {
            lemma_unmoved(*circuit);
        }
        Ok(Vec::new())
    }

    fn verify_batch_circuit_from_extension_opened(
        &mut self,
        circuit: &mut CircuitBuilder<F>,
        permutation: PermConfig,
        cap: &[Vec<Target>],
        dimensions: &Vec<Dimensions>,
        index_bits: &Vec<Target>,
        leaf: &Vec<Target>,
    ) -> (r: Result<Vec<NonPrimitiveOpId>, CircuitBuilderError>) {
        self.keep(permutation, cap, dimensions, index_bits, leaf, true);
        proof {
            lemma_unmoved(*circuit);
        }
        Ok(Vec::new())
    }
}

proof fn lemma_unmoved<F: Field>(circuit: CircuitBuilder<F>)
    requires
        circuit.wf(),
    ensures
        circuit.grows_to(circuit),
        circuit.connections@ == circuit.connections@ + transcript::beyond(
            Seq::<(ExprId, ExprId)>::empty(),
            Seq::<(ExprId, ExprId)>::empty(),
        ),
        Seq::<NonPrimitiveOpId>::empty() == Seq::<NonPrimitiveOpId>::empty() + Seq::<
            NonPrimitiveOpId,
        >::empty(),
{
    circuit.lemma_grows_to_itself();
    assert(circuit.connections@ =~= circuit.connections@ + transcript::beyond(
        Seq::<(ExprId, ExprId)>::empty(),
        Seq::<(ExprId, ExprId)>::empty(),
    ));
}

} // verus!
