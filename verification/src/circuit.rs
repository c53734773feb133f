//! Circuits under construction.

use vstd::prelude::*;

use crate::field::Field;
use crate::types::{ExprId, NonPrimitiveOpId, NpoTypeId};

verus! {

/// One expression of a circuit.
#[derive(Clone, Copy, Debug, PartialEq, Eq)]
pub enum Expr<F> {
    Const(F),
    /// A public input, by its position.
    Public(usize),
    Add(ExprId, ExprId),
    Sub(ExprId, ExprId),
    Mul(ExprId, ExprId),
    /// `a * b + c`
    MulAdd(ExprId, ExprId, ExprId),
    /// The call of a non-primitive operation.
    Call(NonPrimitiveOpId),
    /// An output of a non-primitive operation, by its position.
    Output(NonPrimitiveOpId, usize, &'static str),
}

/// Parameters of a permutation row.
#[derive(Clone, Copy, Debug, PartialEq, Eq, Structural)]
pub struct PermOpParams {
    pub new_start: bool,
    pub merkle_path: bool,
    pub absorb_len: usize,
}

/// One non-primitive operation of a circuit.
#[derive(Clone, Debug, PartialEq, Eq)]
pub struct NonPrimitiveOp {
    pub op_type: NpoTypeId,
    pub inputs: Vec<Vec<ExprId>>,
    pub outputs: Vec<Option<ExprId>>,
    pub params: PermOpParams,
    pub tag: &'static str,
}

/// A non-primitive operation as sequences.
#[verifier::ext_equal]
pub struct OpEntry {
    pub op_type: NpoTypeId,
    pub inputs: Seq<Seq<ExprId>>,
    pub outputs: Seq<Option<ExprId>>,
    pub params: PermOpParams,
    pub tag: &'static str,
}

impl View for NonPrimitiveOp {
    type V = OpEntry;

    open spec fn view(&self) -> OpEntry {
        OpEntry {
            op_type: self.op_type,
            inputs: crate::seqs::rows(self.inputs@),
            outputs: self.outputs@,
            params: self.params,
            tag: self.tag,
        }
    }
}

/// Failures while a circuit is built.
#[derive(Clone, Copy, Debug, PartialEq, Eq)]
pub enum CircuitBuilderError {
    /// The operation is not enabled.
    OpNotAllowed { op: NpoTypeId },
    /// A Merkle row without a direction bit.
    MerkleMissingMmcsBit { op: NpoTypeId },
    /// A four-way Merkle row without its second direction bit.
    MerkleMissingMmcsBit2 { op: NpoTypeId },
    /// A second direction bit on a row that is not a four-way Merkle row.
    UnexpectedMmcsBit2 { op: NpoTypeId },
    /// A public input list of the wrong length.
    PublicInputCountMismatch { expected: usize, got: usize },
}

/// A circuit under construction.
pub struct CircuitBuilder<F> {
    pub nodes: Vec<Expr<F>>,
    /// Pairs of expressions that must be equal.
    pub connections: Vec<(ExprId, ExprId)>,
    pub ops: Vec<NonPrimitiveOp>,
    pub enabled: Vec<NpoTypeId>,
    pub public_inputs: usize,
}

/// The operands of an expression come before it.
pub open spec fn ordered<F>(node: Expr<F>, i: nat) -> bool {
    match node {
        Expr::Add(a, b) | Expr::Sub(a, b) | Expr::Mul(a, b) => a.0 < i && b.0 < i,
        Expr::MulAdd(a, b, c) => a.0 < i && b.0 < i && c.0 < i,
        _ => true,
    }
}

/// The value of an expression. The environment gives the values of public inputs and of outputs of
/// operations.
pub open spec fn eval<F: Field>(nodes: Seq<Expr<F>>, env: spec_fn(int) -> F, i: nat) -> F
    decreases i,
{
    match nodes[i as int] {
        Expr::Const(v) => v,
        Expr::Add(a, b) if a.0 < i && b.0 < i => eval(nodes, env, a.0 as nat).sp_add(
            eval(nodes, env, b.0 as nat),
        ),
        Expr::Sub(a, b) if a.0 < i && b.0 < i => eval(nodes, env, a.0 as nat).sp_sub(
            eval(nodes, env, b.0 as nat),
        ),
        Expr::Mul(a, b) if a.0 < i && b.0 < i => eval(nodes, env, a.0 as nat).sp_mul(
            eval(nodes, env, b.0 as nat),
        ),
        Expr::MulAdd(a, b, c) if a.0 < i && b.0 < i && c.0 < i => eval(
            nodes,
            env,
            a.0 as nat,
        ).sp_mul(eval(nodes, env, b.0 as nat)).sp_add(eval(nodes, env, c.0 as nat)),
        _ => env(i as int),
    }
}

proof fn lemma_eval_prefix<F: Field>(
    old_nodes: Seq<Expr<F>>,
    new_nodes: Seq<Expr<F>>,
    env: spec_fn(int) -> F,
    i: nat,
)
    requires
        old_nodes.is_prefix_of(new_nodes),
        i < old_nodes.len(),
        forall|j: int| 0 <= j < old_nodes.len() ==> ordered(#[trigger] old_nodes[j], j as nat),
    ensures
        eval(new_nodes, env, i) == eval(old_nodes, env, i),
    decreases i,
{
    assert(new_nodes[i as int] == old_nodes[i as int]);
    assert(ordered(old_nodes[i as int], i));
    match old_nodes[i as int] {
        Expr::Add(a, b) | Expr::Sub(a, b) | Expr::Mul(a, b) => {
            lemma_eval_prefix(old_nodes, new_nodes, env, a.0 as nat);
            lemma_eval_prefix(old_nodes, new_nodes, env, b.0 as nat);
        },
        Expr::MulAdd(a, b, c) => {
            lemma_eval_prefix(old_nodes, new_nodes, env, a.0 as nat);
            lemma_eval_prefix(old_nodes, new_nodes, env, b.0 as nat);
            lemma_eval_prefix(old_nodes, new_nodes, env, c.0 as nat);
        },
        _ => {},
    }
}

impl<F: Field> CircuitBuilder<F> {
    /// Every expression refers to earlier ones, every connection to existing ones, and public
    /// inputs are expressions.
    pub open spec fn wf(self) -> bool {
        &&& self.public_inputs <= self.nodes@.len()
        &&& forall|i: int|
            0 <= i < self.nodes@.len() ==> ordered(#[trigger] self.nodes@[i], i as nat)
        &&& forall|i: int|
            0 <= i < self.connections@.len() ==> {
                &&& self.has((#[trigger] self.connections@[i]).0)
                &&& self.has(self.connections@[i].1)
            }
    }

    pub open spec fn has(self, id: ExprId) -> bool {
        id.0 < self.nodes@.len()
    }

    pub open spec fn has_all(self, ids: Seq<ExprId>) -> bool {
        forall|i: int| 0 <= i < ids.len() ==> self.has(#[trigger] ids[i])
    }

    /// The value of an expression.
    pub open spec fn value(self, env: spec_fn(int) -> F, id: ExprId) -> F {
        eval(self.nodes@, env, id.0 as nat)
    }

    pub open spec fn values(self, env: spec_fn(int) -> F, ids: Seq<ExprId>) -> Seq<F> {
        Seq::new(ids.len(), |i: int| self.value(env, ids[i]))
    }

    /// All connected expressions are equal.
    pub open spec fn satisfied(self, env: spec_fn(int) -> F) -> bool {
        forall|i: int|
            0 <= i < self.connections@.len() ==> self.value(
                env,
                (#[trigger] self.connections@[i]).0,
            ) == self.value(env, self.connections@[i].1)
    }

    /// `later` has all that this circuit has, and what this circuit has keeps its values.
    pub open spec fn grows_to(self, later: Self) -> bool {
        &&& later.wf()
        &&& self.nodes@.is_prefix_of(later.nodes@)
        &&& self.connections@.is_prefix_of(later.connections@)
        &&& self.ops@.is_prefix_of(later.ops@)
        &&& later.enabled == self.enabled
        &&& forall|env: spec_fn(int) -> F, id: ExprId|
            self.has(id) ==> #[trigger] later.value(env, id) == self.value(env, id)
    }

    /// `later` has more expressions, and nothing else changes.
    pub open spec fn computes_into(self, later: Self) -> bool {
        &&& self.grows_to(later)
        &&& later.connections == self.connections
        &&& later.ops == self.ops
    }

    /// Equal values stay equal as a circuit grows.
    pub proof fn lemma_grown(self, later: Self)
        requires
            self.wf(),
            later.wf(),
            self.nodes@.is_prefix_of(later.nodes@),
            self.connections@.is_prefix_of(later.connections@),
            self.ops@.is_prefix_of(later.ops@),
            later.enabled == self.enabled,
        ensures
            self.grows_to(later),
    {
        assert forall|env: spec_fn(int) -> F, id: ExprId| self.has(id) implies #[trigger] later.value(
            env,
            id,
        ) == self.value(env, id) by {
            lemma_eval_prefix(self.nodes@, later.nodes@, env, id.0 as nat);
        }
    }

    /// A circuit grows to itself.
    pub proof fn lemma_grows_to_itself(self)
        requires
            self.wf(),
        ensures
            self.grows_to(self),
    {
        self.lemma_grown(self);
    }

    /// Growth is transitive.
    pub proof fn lemma_grows_on(self, mid: Self, later: Self)
        requires
            self.wf(),
            self.grows_to(mid),
            mid.grows_to(later),
        ensures
            self.grows_to(later),
    {
        assert(self.nodes@.is_prefix_of(later.nodes@)) by {
            assert(later.nodes@.take(self.nodes@.len() as int) =~= self.nodes@);
        }
        assert(self.connections@.is_prefix_of(later.connections@)) by {
            assert(later.connections@.take(self.connections@.len() as int) =~= self.connections@);
        }
        assert(self.ops@.is_prefix_of(later.ops@)) by {
            assert(later.ops@.take(self.ops@.len() as int) =~= self.ops@);
        }
        self.lemma_grown(later);
    }

    pub fn new() -> (r: Self)
        ensures
            r.wf(),
            r.nodes@.len() == 0,
            r.connections@.len() == 0,
            r.ops@.len() == 0,
            r.enabled@.len() == 0,
            r.public_inputs == 0,
    {
        CircuitBuilder {
            nodes: Vec::new(),
            connections: Vec::new(),
            ops: Vec::new(),
            enabled: Vec::new(),
            public_inputs: 0,
        }
    }

    fn push(&mut self, node: Expr<F>) -> (r: ExprId)
        requires
            old(self).wf(),
            ordered(node, old(self).nodes@.len()),
        ensures
            r.0 == old(self).nodes@.len(),
            final(self).nodes@ == old(self).nodes@.push(node),
            old(self).computes_into(*final(self)),
            final(self).has(r),
            final(self).public_inputs == old(self).public_inputs,
    {
        let ghost before = *self;
        let r = ExprId(self.nodes.len());
        self.nodes.push(node);
        proof {
            assert(before.nodes@.is_prefix_of(self.nodes@));
            before.lemma_grown(*self);
        }
        r
    }

    /// A new public input.
    pub fn public_input(&mut self) -> (r: ExprId)
        requires
            old(self).wf(),
        ensures
            r.0 == old(self).nodes@.len(),
            final(self).nodes@ == old(self).nodes@.push(Expr::Public(old(self).public_inputs)),
            final(self).public_inputs == old(self).public_inputs + 1,
            old(self).computes_into(*final(self)),
            final(self).has(r),
    {
        let ghost before = *self;
        let k: usize = self.public_inputs;
        let r = self.push(Expr::Public(k));
        let count: usize = self.nodes.len();
        assert(k < count);
        self.public_inputs = k + 1;
        proof {
            before.lemma_grown(*self);
        }
        r
    }

    /// A constant.
    pub fn define_const(&mut self, v: F) -> (r: ExprId)
        requires
            old(self).wf(),
        ensures
            r.0 == old(self).nodes@.len(),
            final(self).nodes@ == old(self).nodes@.push(Expr::Const(v)),
            final(self).public_inputs == old(self).public_inputs,
            old(self).computes_into(*final(self)),
            final(self).has(r),
            forall|env: spec_fn(int) -> F| #[trigger] final(self).value(env, r) == v,
    {
        self.push(Expr::Const(v))
    }

    pub fn add(&mut self, a: ExprId, b: ExprId) -> (r: ExprId)
        requires
            old(self).wf(),
            old(self).has(a),
            old(self).has(b),
        ensures
            r.0 == old(self).nodes@.len(),
            final(self).nodes@ == old(self).nodes@.push(Expr::Add(a, b)),
            final(self).public_inputs == old(self).public_inputs,
            old(self).computes_into(*final(self)),
            final(self).has(r),
            forall|env: spec_fn(int) -> F| #[trigger]
                final(self).value(env, r) == old(self).value(env, a).sp_add(
                    old(self).value(env, b),
                ),
    {
        let ghost before = *self;
        let r = self.push(Expr::Add(a, b));
        proof {
            assert forall|env: spec_fn(int) -> F| #[trigger] self.value(env, r) == before.value(
                env,
                a,
            ).sp_add(before.value(env, b)) by {
                assert(self.value(env, a) == before.value(env, a));
                assert(self.value(env, b) == before.value(env, b));
            }
        }
        r
    }

    pub fn sub(&mut self, a: ExprId, b: ExprId) -> (r: ExprId)
        requires
            old(self).wf(),
            old(self).has(a),
            old(self).has(b),
        ensures
            r.0 == old(self).nodes@.len(),
            final(self).nodes@ == old(self).nodes@.push(Expr::Sub(a, b)),
            final(self).public_inputs == old(self).public_inputs,
            old(self).computes_into(*final(self)),
            final(self).has(r),
            forall|env: spec_fn(int) -> F| #[trigger]
                final(self).value(env, r) == old(self).value(env, a).sp_sub(
                    old(self).value(env, b),
                ),
    {
        let ghost before = *self;
        let r = self.push(Expr::Sub(a, b));
        proof {
            assert forall|env: spec_fn(int) -> F| #[trigger] self.value(env, r) == before.value(
                env,
                a,
            ).sp_sub(before.value(env, b)) by {
                assert(self.value(env, a) == before.value(env, a));
                assert(self.value(env, b) == before.value(env, b));
            }
        }
        r
    }

    pub fn mul(&mut self, a: ExprId, b: ExprId) -> (r: ExprId)
        requires
            old(self).wf(),
            old(self).has(a),
            old(self).has(b),
        ensures
            r.0 == old(self).nodes@.len(),
            final(self).nodes@ == old(self).nodes@.push(Expr::Mul(a, b)),
            final(self).public_inputs == old(self).public_inputs,
            old(self).computes_into(*final(self)),
            final(self).has(r),
            forall|env: spec_fn(int) -> F| #[trigger]
                final(self).value(env, r) == old(self).value(env, a).sp_mul(
                    old(self).value(env, b),
                ),
    {
        let ghost before = *self;
        let r = self.push(Expr::Mul(a, b));
        proof {
            assert forall|env: spec_fn(int) -> F| #[trigger] self.value(env, r) == before.value(
                env,
                a,
            ).sp_mul(before.value(env, b)) by {
                assert(self.value(env, a) == before.value(env, a));
                assert(self.value(env, b) == before.value(env, b));
            }
        }
        r
    }

    /// `a * b + c`
    pub fn mul_add(&mut self, a: ExprId, b: ExprId, c: ExprId) -> (r: ExprId)
        requires
            old(self).wf(),
            old(self).has(a),
            old(self).has(b),
            old(self).has(c),
        ensures
            r.0 == old(self).nodes@.len(),
            final(self).nodes@ == old(self).nodes@.push(Expr::MulAdd(a, b, c)),
            final(self).public_inputs == old(self).public_inputs,
            old(self).computes_into(*final(self)),
            final(self).has(r),
            forall|env: spec_fn(int) -> F| #[trigger]
                final(self).value(env, r) == old(self).value(env, a).sp_mul(
                    old(self).value(env, b),
                ).sp_add(old(self).value(env, c)),
    {
        let ghost before = *self;
        let r = self.push(Expr::MulAdd(a, b, c));
        proof {
            assert forall|env: spec_fn(int) -> F| #[trigger] self.value(env, r) == before.value(
                env,
                a,
            ).sp_mul(before.value(env, b)).sp_add(before.value(env, c)) by {
                assert(self.value(env, a) == before.value(env, a));
                assert(self.value(env, b) == before.value(env, b));
                assert(self.value(env, c) == before.value(env, c));
            }
        }
        r
    }

    /// The product of all factors; of none, one.
    pub fn mul_many(&mut self, factors: &[ExprId]) -> (r: ExprId)
        requires
            old(self).wf(),
            old(self).has_all(factors@),
        ensures
            old(self).computes_into(*final(self)),
            final(self).has(r),
            forall|env: spec_fn(int) -> F| #[trigger]
                final(self).value(env, r) == product(
                    old(self).values(env, factors@),
                    factors@.len(),
                ),
    {
        let ghost start = *self;
        if factors.len() == 0 {
            return self.define_const(F::one());
        }
        let mut acc: ExprId = factors[0];
        let mut i: usize = 1;
        assert(start.has(factors@[0]));
        assert forall|env: spec_fn(int) -> F| #[trigger] self.value(env, acc) == product(
            start.values(env, factors@),
            1,
        ) by {
            reveal_with_fuel(product, 2);
            assert(start.values(env, factors@)[0] == start.value(env, acc));
        }
        while i < factors.len()
            invariant
                1 <= i <= factors@.len(),
                start.wf(),
                start.has_all(factors@),
                start.computes_into(*self),
                self.has(acc),
                forall|env: spec_fn(int) -> F| #[trigger]
                    self.value(env, acc) == product(start.values(env, factors@), i as nat),
            decreases factors@.len() - i,
        {
            let ghost before = *self;
            assert(start.has(factors@[i as int]));
            acc = self.mul(acc, factors[i]);
            i += 1;
            proof {
                start.lemma_grown(*self);
                assert forall|env: spec_fn(int) -> F| #[trigger] self.value(env, acc) == product(
                    start.values(env, factors@),
                    i as nat,
                ) by {
                    assert(before.value(env, factors@[i - 1]) == start.value(env, factors@[i - 1]));
                    assert(start.values(env, factors@)[i - 1] == start.value(env, factors@[i - 1]));
                }
            }
        }
        acc
    }

    /// Requires two expressions to be equal.
    pub fn connect(&mut self, a: ExprId, b: ExprId)
        requires
            old(self).wf(),
            old(self).has(a),
            old(self).has(b),
        ensures
            final(self).nodes == old(self).nodes,
            final(self).connections@ == old(self).connections@.push((a, b)),
            final(self).ops == old(self).ops,
            final(self).public_inputs == old(self).public_inputs,
            old(self).grows_to(*final(self)),
    {
        let ghost before = *self;
        self.connections.push((a, b));
        proof {
            assert(before.connections@.is_prefix_of(self.connections@));
            assert forall|i: int| 0 <= i < self.connections@.len() implies {
                &&& self.has((#[trigger] self.connections@[i]).0)
                &&& self.has(self.connections@[i].1)
            } by {
                if i < before.connections@.len() {
                    assert(self.connections@[i] == before.connections@[i]);
                }
            }
            before.lemma_grown(*self);
        }
    }

    /// Allows a non-primitive operation.
    pub fn enable_op(&mut self, op: NpoTypeId)
        ensures
            final(self).enabled@ == old(self).enabled@.push(op),
            final(self).nodes == old(self).nodes,
            final(self).connections == old(self).connections,
            final(self).ops == old(self).ops,
            final(self).public_inputs == old(self).public_inputs,
    {
        self.enabled.push(op);
    }

    /// Fails unless the operation is allowed.
    pub fn ensure_op_enabled(&self, op: NpoTypeId) -> (r: Result<(), CircuitBuilderError>)
        ensures
            r == (if self.enabled@.contains(op) {
                Ok::<(), CircuitBuilderError>(())
            } else {
                Err(CircuitBuilderError::OpNotAllowed { op })
            }),
    {
        let mut i: usize = 0;
        while i < self.enabled.len()
            invariant
                i <= self.enabled@.len(),
                forall|j: int| 0 <= j < i ==> #[trigger] self.enabled@[j] != op,
            decreases self.enabled@.len() - i,
        {
            if self.enabled[i] == op {
                return Ok(());
            }
            i += 1;
        }
        Err(CircuitBuilderError::OpNotAllowed { op })
    }

    /// Adds a non-primitive operation, its call, and one expression for each labelled output.
    pub fn push_non_primitive_op_with_outputs(
        &mut self,
        op_type: NpoTypeId,
        inputs: Vec<Vec<ExprId>>,
        labels: Vec<Option<&'static str>>,
        params: PermOpParams,
        tag: &'static str,
    ) -> (r: (NonPrimitiveOpId, ExprId, Vec<Option<ExprId>>))
        requires
            old(self).wf(),
        ensures
            r.0.0 == old(self).ops@.len(),
            r.1.0 == old(self).nodes@.len(),
            r.2@ == output_ids(labels@, old(self).nodes@.len() + 1, labels@.len()),
            final(self).nodes@ == old(self).nodes@.push(Expr::Call(r.0)) + output_nodes(
                r.0,
                labels@,
                labels@.len(),
            ),
            final(self).ops@.len() == old(self).ops@.len() + 1,
            final(self).ops@.last()@ == (OpEntry {
                op_type,
                inputs: crate::seqs::rows(inputs@),
                outputs: r.2@,
                params,
                tag,
            }),
            final(self).connections == old(self).connections,
            final(self).public_inputs == old(self).public_inputs,
            old(self).grows_to(*final(self)),
    {
        let ghost start = *self;
        let op_id = NonPrimitiveOpId(self.ops.len());
        let call = self.push(Expr::Call(op_id));
        let mut outputs: Vec<Option<ExprId>> = Vec::new();
        let mut i: usize = 0;
        let ghost base = self.nodes@;
        assert(base =~= base + output_nodes::<F>(op_id, labels@, 0));
        while i < labels.len()
            invariant
                i <= labels@.len(),
                start.wf(),
                start.computes_into(*self),
                base == start.nodes@.push(Expr::Call(op_id)),
                self.nodes@ == base + output_nodes::<F>(op_id, labels@, i as nat),
                self.public_inputs == start.public_inputs,
                outputs@ == output_ids(labels@, base.len(), i as nat),
            decreases labels@.len() - i,
        {
            proof {
                lemma_output_count::<F>(op_id, labels@, i as nat);
            }
            match labels[i] {
                Some(label) => {
                    let id = self.push(Expr::Output(op_id, i, label));
                    outputs.push(Some(id));
                },
                None => {
                    outputs.push(None);
                },
            }
            i += 1;
            proof {
                start.lemma_grown(*self);
                assert(self.nodes@ =~= base + output_nodes::<F>(op_id, labels@, i as nat));
            }
        }
        let copy: Vec<Option<ExprId>> = crate::seqs::copy_vec(&outputs);
        self.ops.push(NonPrimitiveOp { op_type, inputs, outputs: copy, params, tag });
        proof {
            assert(start.ops@.is_prefix_of(self.ops@));
            start.lemma_grown(*self);
        }
        (op_id, call, outputs)
    }

    /// The values of all expressions, given those of the public inputs. Outputs of operations are
    /// zero.
    pub fn evaluate(&self, public_values: &[F]) -> (r: Result<Vec<F>, CircuitBuilderError>)
        requires
            self.wf(),
        ensures
            match r {
                Ok(values) => {
                    &&& public_values@.len() == self.public_inputs
                    &&& values@.len() == self.nodes@.len()
                    &&& forall|i: int|
                        0 <= i < values@.len() ==> #[trigger] values@[i] == eval(
                            self.nodes@,
                            public_env(self.nodes@, public_values@),
                            i as nat,
                        )
                },
                Err(e) => {
                    &&& public_values@.len() != self.public_inputs
                    &&& e == (CircuitBuilderError::PublicInputCountMismatch {
                        expected: self.public_inputs,
                        got: public_values@.len() as usize,
                    })
                },
            },
    {
        if public_values.len() != self.public_inputs {
            return Err(
                CircuitBuilderError::PublicInputCountMismatch {
                    expected: self.public_inputs,
                    got: public_values.len(),
                },
            );
        }
        let ghost env = public_env(self.nodes@, public_values@);
        let mut values: Vec<F> = Vec::new();
        let mut i: usize = 0;
        while i < self.nodes.len()
            invariant
                i <= self.nodes@.len(),
                self.wf(),
                env == public_env(self.nodes@, public_values@),
                values@.len() == i,
                forall|j: int|
                    0 <= j < i ==> #[trigger] values@[j] == eval(self.nodes@, env, j as nat),
            decreases self.nodes@.len() - i,
        {
            assert(ordered(self.nodes@[i as int], i as nat));
            let v: F = match self.nodes[i] {
                Expr::Const(v) => v,
                Expr::Public(k) => {
                    if k < public_values.len() {
                        public_values[k]
                    } else {
                        F::zero()
                    }
                },
                Expr::Add(a, b) => values[a.0].add(values[b.0]),
                Expr::Sub(a, b) => values[a.0].sub(values[b.0]),
                Expr::Mul(a, b) => values[a.0].mul(values[b.0]),
                Expr::MulAdd(a, b, c) => values[a.0].mul(values[b.0]).add(values[c.0]),
                Expr::Call(_) => F::zero(),
                Expr::Output(_, _, _) => F::zero(),
            };
            values.push(v);
            i += 1;
        }
        Ok(values)
    }
}

/// The environment in which public inputs have the given values and outputs of operations are
/// zero.
pub open spec fn public_env<F: Field>(
    nodes: Seq<Expr<F>>,
    public_values: Seq<F>,
) -> spec_fn(int) -> F {
    |i: int|
        match nodes[i] {
            Expr::Public(k) if k < public_values.len() => public_values[k as int],
            _ => F::sp_zero(),
        }
}

/// The product of the first `n` factors.
pub open spec fn product<F: Field>(factors: Seq<F>, n: nat) -> F
    decreases n,
{
    if n == 0 {
        F::sp_one()
    } else if n == 1 {
        factors[0]
    } else {
        product(factors, (n - 1) as nat).sp_mul(factors[n - 1])
    }
}

/// The expressions of the labelled ones of the first `n` outputs.
pub open spec fn output_nodes<F>(
    op: NonPrimitiveOpId,
    labels: Seq<Option<&'static str>>,
    n: nat,
) -> Seq<Expr<F>>
    decreases n,
{
    if n == 0 {
        Seq::empty()
    } else {
        let earlier = output_nodes(op, labels, (n - 1) as nat);
        match labels[n - 1] {
            Some(label) => earlier.push(Expr::Output(op, (n - 1) as usize, label)),
            None => earlier,
        }
    }
}

/// The identifiers of the first `n` outputs, the labelled ones numbered from `base` on.
pub open spec fn output_ids(labels: Seq<Option<&'static str>>, base: nat, n: nat) -> Seq<
    Option<ExprId>,
>
    decreases n,
{
    if n == 0 {
        Seq::empty()
    } else {
        output_ids(labels, base, (n - 1) as nat).push(
            if labels[n - 1] is Some {
                Some(ExprId((base + labelled(labels, (n - 1) as nat)) as usize))
            } else {
                None
            },
        )
    }
}

/// The number of labelled ones among the first `n` outputs.
pub open spec fn labelled(labels: Seq<Option<&'static str>>, n: nat) -> nat
    decreases n,
{
    if n == 0 {
        0
    } else {
        labelled(labels, (n - 1) as nat) + if labels[n - 1] is Some {
            1nat
        } else {
            0nat
        }
    }
}

proof fn lemma_output_count<F>(
    op: NonPrimitiveOpId,
    labels: Seq<Option<&'static str>>,
    n: nat,
)
    ensures
        output_nodes::<F>(op, labels, n).len() == labelled(labels, n),
    decreases n,
{
    if n > 0 {
        lemma_output_count::<F>(op, labels, (n - 1) as nat);
    }
}

} // verus!
