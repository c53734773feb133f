//! Removal of duplicate arithmetic operations.

use vstd::prelude::*;

use crate::types::{NonPrimitiveOpId, WitnessId};

verus! {

/// An arithmetic operation.
#[derive(Clone, Copy, Debug, PartialEq, Eq, Hash, Structural)]
pub enum AluOpKind {
    /// `out = a + b`
    Add,
    /// `out = a * b`
    Mul,
    /// `a` is zero or one.
    BoolCheck,
    /// `out = a * b + c`
    MulAdd,
    /// One step of a Horner evaluation, from the accumulator in `intermediate_out`.
    HornerAcc,
}

/// One operation of a compiled circuit.
#[derive(Clone, Debug, PartialEq, Eq)]
pub enum Op<F> {
    Const { out: WitnessId, val: F },
    Public { out: WitnessId, public_pos: usize },
    Alu {
        kind: AluOpKind,
        a: WitnessId,
        b: WitnessId,
        c: Option<WitnessId>,
        out: WitnessId,
        intermediate_out: Option<WitnessId>,
    },
    Hint { inputs: Vec<WitnessId>, outputs: Vec<WitnessId> },
    NonPrimitive {
        op_id: NonPrimitiveOpId,
        inputs: Vec<Vec<WitnessId>>,
        outputs: Vec<Vec<WitnessId>>,
    },
}

/// An operation with its witness lists as sequences.
#[verifier::ext_equal]
pub enum OpModel<F> {
    Const { out: WitnessId, val: F },
    Public { out: WitnessId, public_pos: usize },
    Alu {
        kind: AluOpKind,
        a: WitnessId,
        b: WitnessId,
        c: Option<WitnessId>,
        out: WitnessId,
        intermediate_out: Option<WitnessId>,
    },
    Hint { inputs: Seq<WitnessId>, outputs: Seq<WitnessId> },
    NonPrimitive {
        op_id: NonPrimitiveOpId,
        inputs: Seq<Seq<WitnessId>>,
        outputs: Seq<Seq<WitnessId>>,
    },
}

impl<F> View for Op<F> {
    type V = OpModel<F>;

    open spec fn view(&self) -> OpModel<F> {
        match *self {
            Op::Const { out, val } => OpModel::Const { out, val },
            Op::Public { out, public_pos } => OpModel::Public { out, public_pos },
            Op::Alu { kind, a, b, c, out, intermediate_out } => OpModel::Alu {
                kind,
                a,
                b,
                c,
                out,
                intermediate_out,
            },
            Op::Hint { inputs, outputs } => OpModel::Hint { inputs: inputs@, outputs: outputs@ },
            Op::NonPrimitive { op_id, inputs, outputs } => OpModel::NonPrimitive {
                op_id,
                inputs: crate::seqs::rows(inputs@),
                outputs: crate::seqs::rows(outputs@),
            },
        }
    }
}

impl<F> Op<F> {
    /// `out = a * b`
    pub fn mul(a: WitnessId, b: WitnessId, out: WitnessId) -> (r: Self)
        ensures
            r == (Op::<F>::Alu { kind: AluOpKind::Mul, a, b, c: None, out, intermediate_out: None }),
    {
        Op::Alu { kind: AluOpKind::Mul, a, b, c: None, out, intermediate_out: None }
    }

    /// `out = a + b`
    pub fn add(a: WitnessId, b: WitnessId, out: WitnessId) -> (r: Self)
        ensures
            r == (Op::<F>::Alu { kind: AluOpKind::Add, a, b, c: None, out, intermediate_out: None }),
    {
        Op::Alu { kind: AluOpKind::Add, a, b, c: None, out, intermediate_out: None }
    }

    /// One Horner step from the accumulator `acc`.
    pub fn horner_acc(
        a: WitnessId,
        b: WitnessId,
        c: WitnessId,
        out: WitnessId,
        acc: WitnessId,
    ) -> (r: Self)
        ensures
            r == (Op::<F>::Alu {
                kind: AluOpKind::HornerAcc,
                a,
                b,
                c: Some(c),
                out,
                intermediate_out: Some(acc),
            }),
    {
        Op::Alu {
            kind: AluOpKind::HornerAcc,
            a,
            b,
            c: Some(c),
            out,
            intermediate_out: Some(acc),
        }
    }
}

/// A hash map from witnesses to witnesses.
#[verifier::external_body]
pub struct WitnessMap {
    map: hashbrown::HashMap<u32, u32>,
}

/// What a witness map holds.
pub uninterp spec fn witness_map_contents(m: WitnessMap) -> Map<u32, u32>;

/// A hash map from operation codes to witnesses.
#[verifier::external_body]
pub struct SeenMap {
    map: hashbrown::HashMap<(u8, u32, u32, u64, u64), u32>,
}

/// What a map of operation codes holds.
pub uninterp spec fn seen_map_contents(m: SeenMap) -> Map<(u8, u32, u32, u64, u64), u32>;

impl View for WitnessMap {
    type V = Map<u32, u32>;

    open spec fn view(&self) -> Map<u32, u32> {
        witness_map_contents(*self)
    }
}

impl View for SeenMap {
    type V = Map<(u8, u32, u32, u64, u64), u32>;

    open spec fn view(&self) -> Map<(u8, u32, u32, u64, u64), u32> {
        seen_map_contents(*self)
    }
}

/// A map without rewrites.
pub open spec fn no_rewrites() -> Map<u32, u32> {
    Map::empty()
}

/// A map without operation codes.
pub open spec fn no_codes() -> Map<(u8, u32, u32, u64, u64), u32> {
    Map::empty()
}

/// The largest number of entries for which room is made in advance.
pub const MAX_RESERVED: usize = 0x10_0000;

/// `hashbrown::HashMap::with_capacity`: a map without entries. Room for more entries than an
/// allocation can hold is not asked for.
#[verifier::external_body]
fn witness_map_with_capacity(capacity: usize) -> (r: WitnessMap)
    requires
        capacity <= MAX_RESERVED,
    ensures
        witness_map_contents(r) == no_rewrites(),
{
    WitnessMap { map: hashbrown::HashMap::with_capacity(capacity) }
}

/// `hashbrown::HashMap::with_capacity`: a map without entries. Room for more entries than an
/// allocation can hold is not asked for.
#[verifier::external_body]
fn seen_map_with_capacity(capacity: usize) -> (r: SeenMap)
    requires
        capacity <= MAX_RESERVED,
    ensures
        seen_map_contents(r) == no_codes(),
{
    SeenMap { map: hashbrown::HashMap::with_capacity(capacity) }
}

/// `hashbrown::HashMap::get`: the value of a key, if the map has the key.
#[verifier::external_body]
fn witness_map_get(m: &WitnessMap, key: u32) -> (r: Option<u32>)
    ensures
        r == (if witness_map_contents(*m).contains_key(key) {
            Some(witness_map_contents(*m)[key])
        } else {
            None
        }),
{
    m.map.get(&key).copied()
}

/// `hashbrown::HashMap::get`: the value of a key, if the map has the key.
#[verifier::external_body]
fn seen_map_get(m: &SeenMap, key: (u8, u32, u32, u64, u64)) -> (r: Option<u32>)
    ensures
        r == (if seen_map_contents(*m).contains_key(key) {
            Some(seen_map_contents(*m)[key])
        } else {
            None
        }),
{
    m.map.get(&key).copied()
}

/// `hashbrown::HashMap::insert`: the key has the value afterwards, and all other keys are as they
/// were.
#[verifier::external_body]
fn witness_map_insert(m: &mut WitnessMap, key: u32, value: u32)
    ensures
        witness_map_contents(*final(m)) == witness_map_contents(*old(m)).insert(key, value),
{
    m.map.insert(key, value);
}

/// `hashbrown::HashMap::insert`: the key has the value afterwards, and all other keys are as they
/// were.
#[verifier::external_body]
fn seen_map_insert(m: &mut SeenMap, key: (u8, u32, u32, u64, u64), value: u32)
    ensures
        seen_map_contents(*final(m)) == seen_map_contents(*old(m)).insert(key, value),
{
    m.map.insert(key, value);
}

/// `hashbrown::HashMap::is_empty`: the map has no key.
#[verifier::external_body]
fn witness_map_is_empty(m: &WitnessMap) -> (r: bool)
    ensures
        r == (witness_map_contents(*m) == no_rewrites()),
{
    m.map.is_empty()
}

impl WitnessMap {
    /// The witness that stands for `id`, if it was replaced.
    pub fn get(&self, id: &WitnessId) -> (r: Option<WitnessId>)
        ensures
            r == (if self@.contains_key(id.0) {
                Some(WitnessId(self@[id.0]))
            } else {
                None
            }),
    {
        match witness_map_get(self, id.0) {
            Some(to) => Some(WitnessId(to)),
            None => None,
        }
    }

    /// No witness was replaced.
    pub fn is_empty(&self) -> (r: bool)
        ensures
            r == (self@ == no_rewrites()),
    {
        witness_map_is_empty(self)
    }
}

/// Follows a map from `id` for at most `n` steps.
pub open spec fn walk(m: Map<u32, u32>, id: u32, n: nat) -> u32
    decreases n,
{
    if n == 0 || !m.contains_key(id) {
        id
    } else {
        walk(m, m[id], (n - 1) as nat)
    }
}

/// Following the map ends, from everywhere.
pub open spec fn grounded(m: Map<u32, u32>) -> bool {
    &&& m.dom().finite()
    &&& forall|id: u32| !m.contains_key(#[trigger] walk(m, id, m.dom().len()))
}

/// Where following the map from a witness ends.
pub open spec fn root(m: Map<u32, u32>, id: WitnessId) -> WitnessId {
    WitnessId(walk(m, id.0, m.dom().len()))
}

proof fn lemma_walk_stops(m: Map<u32, u32>, id: u32, k: nat, n: nat)
    requires
        k <= n,
        !m.contains_key(walk(m, id, k)),
    ensures
        walk(m, id, n) == walk(m, id, k),
    decreases k,
{
    if k > 0 && m.contains_key(id) {
        lemma_walk_stops(m, m[id], (k - 1) as nat, (n - 1) as nat);
    }
}

proof fn lemma_walk_step(m: Map<u32, u32>, id: u32, k: nat)
    requires
        m.contains_key(walk(m, id, k)),
    ensures
        walk(m, id, k + 1) == m[walk(m, id, k)],
    decreases k,
{
    if k > 0 && m.contains_key(id) {
        lemma_walk_step(m, m[id], (k - 1) as nat);
    } else if m.contains_key(id) {
        assert(walk(m, id, 1) == walk(m, m[id], 0));
    }
}

proof fn lemma_root_idempotent(m: Map<u32, u32>, id: WitnessId)
    requires
        grounded(m),
    ensures
        root(m, root(m, id)) == root(m, id),
        !m.contains_key(root(m, id).0),
{
}

proof fn lemma_walk_extend(m: Map<u32, u32>, from: u32, to: u32, id: u32, n: nat)
    requires
        !m.contains_key(from),
        !m.contains_key(to),
        from != to,
    ensures
        ({
            let w = walk(m, id, n);
            let e = m.insert(from, to);
            &&& m.contains_key(w) ==> walk(e, id, n) == w
            &&& !m.contains_key(w) && w != from ==> walk(e, id, n) == w && walk(e, id, n + 1) == w
            &&& w == from ==> walk(e, id, n + 1) == to
        }),
    decreases n,
{
    let e = m.insert(from, to);
    if n == 0 {
        if id == from {
            assert(walk(e, id, 1) == walk(e, to, 0));
        }
    } else if m.contains_key(id) {
        lemma_walk_extend(m, from, to, m[id], (n - 1) as nat);
    } else if id == from {
        assert(walk(e, id, n + 1) == walk(e, to, n));
    }
}

/// One more rewrite sends everything that ended at `from` to `to`.
proof fn lemma_extend(m: Map<u32, u32>, from: u32, to: u32)
    requires
        grounded(m),
        !m.contains_key(from),
        !m.contains_key(to),
        from != to,
    ensures
        grounded(m.insert(from, to)),
        forall|id: WitnessId|
            #[trigger] root(m.insert(from, to), id) == if root(m, id).0 == from {
                WitnessId(to)
            } else {
                root(m, id)
            },
{
    let e = m.insert(from, to);
    let n = m.dom().len();
    assert(e.dom().len() == n + 1);
    assert forall|id: u32|
        #[trigger] walk(e, id, n + 1) == if walk(m, id, n) == from {
            to
        } else {
            walk(m, id, n)
        } by {
        lemma_walk_extend(m, from, to, id, n);
        assert(!m.contains_key(walk(m, id, n)));
    }
    assert forall|id: u32| !e.contains_key(#[trigger] walk(e, id, e.dom().len())) by {
        assert(!m.contains_key(walk(m, id, n)));
    }
    assert forall|id: WitnessId|
        #[trigger] root(e, id) == if root(m, id).0 == from {
            WitnessId(to)
        } else {
            root(m, id)
        } by {
        assert(walk(e, id.0, n + 1) == if walk(m, id.0, n) == from {
            to
        } else {
            walk(m, id.0, n)
        });
    }
}

impl WitnessId {
    /// The witness that stands for this one.
    pub fn resolve(self, rewrite: &WitnessMap) -> (r: WitnessId)
        requires
            grounded(rewrite@),
        ensures
            r == root(rewrite@, self),
    {
        let ghost m = rewrite@;
        let mut current: u32 = self.0;
        let ghost mut steps: nat = 0;
        loop
            invariant
                m == rewrite@,
                grounded(m),
                steps <= m.dom().len(),
                current == walk(m, self.0, steps),
            decreases m.dom().len() - steps,
        {
            match witness_map_get(rewrite, current) {
                None => {
                    proof {
                        lemma_walk_stops(m, self.0, steps, m.dom().len());
                    }
                    return WitnessId(current);
                },
                Some(next) => {
                    proof {
                        assert(!m.contains_key(walk(m, self.0, m.dom().len())));
                        lemma_walk_step(m, self.0, steps);
                        steps = steps + 1;
                    }
                    current = next;
                },
            }
        }
    }
}

pub open spec fn rooted(m: Map<u32, u32>, ids: Seq<WitnessId>) -> Seq<WitnessId> {
    Seq::new(ids.len(), |i: int| root(m, ids[i]))
}

pub open spec fn rooted_rows(m: Map<u32, u32>, ids: Seq<Seq<WitnessId>>) -> Seq<Seq<WitnessId>> {
    Seq::new(ids.len(), |i: int| rooted(m, ids[i]))
}

pub open spec fn rooted_option(m: Map<u32, u32>, id: Option<WitnessId>) -> Option<WitnessId> {
    match id {
        Some(id) => Some(root(m, id)),
        None => None,
    }
}

/// The operation with every witness replaced by the one that stands for it.
pub open spec fn rewritten<F>(op: OpModel<F>, m: Map<u32, u32>) -> OpModel<F> {
    match op {
        OpModel::Const { out, val } => OpModel::Const { out: root(m, out), val },
        OpModel::Public { out, public_pos } => OpModel::Public { out: root(m, out), public_pos },
        OpModel::Alu { kind, a, b, c, out, intermediate_out } => OpModel::Alu {
            kind,
            a: root(m, a),
            b: root(m, b),
            c: rooted_option(m, c),
            out: root(m, out),
            intermediate_out: rooted_option(m, intermediate_out),
        },
        OpModel::Hint { inputs, outputs } => OpModel::Hint {
            inputs: rooted(m, inputs),
            outputs: rooted(m, outputs),
        },
        OpModel::NonPrimitive { op_id, inputs, outputs } => OpModel::NonPrimitive {
            op_id,
            inputs: rooted_rows(m, inputs),
            outputs: rooted_rows(m, outputs),
        },
    }
}

fn resolve_option(id: Option<WitnessId>, rewrite: &WitnessMap) -> (r: Option<WitnessId>)
    requires
        grounded(rewrite@),
    ensures
        r == rooted_option(rewrite@, id),
{
    match id {
        Some(id) => Some(id.resolve(rewrite)),
        None => None,
    }
}

fn resolve_all(ids: &Vec<WitnessId>, rewrite: &WitnessMap) -> (r: Vec<WitnessId>)
    requires
        grounded(rewrite@),
    ensures
        r@ == rooted(rewrite@, ids@),
{
    let mut r: Vec<WitnessId> = Vec::new();
    let mut i: usize = 0;
    while i < ids.len()
        invariant
            i <= ids@.len(),
            grounded(rewrite@),
            r@.len() == i,
            forall|j: int| 0 <= j < i ==> #[trigger] r@[j] == root(rewrite@, ids@[j]),
        decreases ids@.len() - i,
    {
        r.push(ids[i].resolve(rewrite));
        i += 1;
    }
    assert(r@ =~= rooted(rewrite@, ids@));
    r
}

fn resolve_rows(ids: &Vec<Vec<WitnessId>>, rewrite: &WitnessMap) -> (r: Vec<Vec<WitnessId>>)
    requires
        grounded(rewrite@),
    ensures
        crate::seqs::rows(r@) == rooted_rows(rewrite@, crate::seqs::rows(ids@)),
{
    let mut r: Vec<Vec<WitnessId>> = Vec::new();
    let mut i: usize = 0;
    while i < ids.len()
        invariant
            i <= ids@.len(),
            grounded(rewrite@),
            r@.len() == i,
            forall|j: int| 0 <= j < i ==> (#[trigger] r@[j])@ == rooted(rewrite@, ids@[j]@),
        decreases ids@.len() - i,
    {
        r.push(resolve_all(&ids[i], rewrite));
        i += 1;
    }
    assert(crate::seqs::rows(r@) =~= rooted_rows(rewrite@, crate::seqs::rows(ids@)));
    r
}

impl<F: Copy> Op<F> {
    /// Replaces every witness by the one that stands for it.
    pub fn apply_witness_rewrite(&mut self, rewrite: &WitnessMap)
        requires
            grounded(rewrite@),
        ensures
            final(self)@ == rewritten(old(self)@, rewrite@),
    {
        let next = match self {
            Op::Const { out, val } => Op::Const { out: out.resolve(rewrite), val: *val },
            Op::Public { out, public_pos } => Op::Public {
                out: out.resolve(rewrite),
                public_pos: *public_pos,
            },
            Op::Alu { kind, a, b, c, out, intermediate_out } => Op::Alu {
                kind: *kind,
                a: a.resolve(rewrite),
                b: b.resolve(rewrite),
                c: resolve_option(*c, rewrite),
                out: out.resolve(rewrite),
                intermediate_out: resolve_option(*intermediate_out, rewrite),
            },
            Op::Hint { inputs, outputs } => Op::Hint {
                inputs: resolve_all(inputs, rewrite),
                outputs: resolve_all(outputs, rewrite),
            },
            Op::NonPrimitive { op_id, inputs, outputs } => Op::NonPrimitive {
                op_id: *op_id,
                inputs: resolve_rows(inputs, rewrite),
                outputs: resolve_rows(outputs, rewrite),
            },
        };
        *self = next;
    }
}

pub open spec fn kind_code(kind: AluOpKind) -> u8 {
    match kind {
        AluOpKind::Add => 0,
        AluOpKind::Mul => 1,
        AluOpKind::BoolCheck => 2,
        AluOpKind::MulAdd => 3,
        AluOpKind::HornerAcc => 4,
    }
}

pub open spec fn option_code(id: Option<WitnessId>) -> u64 {
    match id {
        Some(id) => (id.0 + 1) as u64,
        None => 0,
    }
}

/// The kind takes its first two operands in either order.
pub open spec fn commutes(kind: AluOpKind) -> bool {
    kind == AluOpKind::Add || kind == AluOpKind::Mul
}

/// What two arithmetic operations share exactly if they compute the same: the kind, the operands,
/// in ascending order where the kind commutes, and the accumulator of a Horner step.
pub open spec fn alu_code(
    kind: AluOpKind,
    a: WitnessId,
    b: WitnessId,
    c: Option<WitnessId>,
    acc: Option<WitnessId>,
) -> (u8, u32, u32, u64, u64) {
    let swap = commutes(kind) && b.0 < a.0;
    (
        kind_code(kind),
        if swap {
            b.0
        } else {
            a.0
        },
        if swap {
            a.0
        } else {
            b.0
        },
        option_code(c),
        if kind == AluOpKind::HornerAcc {
            option_code(acc)
        } else {
            0
        },
    )
}

fn alu_key(
    kind: AluOpKind,
    a: WitnessId,
    b: WitnessId,
    c: Option<WitnessId>,
    acc: Option<WitnessId>,
) -> (r: (u8, u32, u32, u64, u64))
    ensures
        r == alu_code(kind, a, b, c, acc),
{
    let commutative: bool = match kind {
        AluOpKind::Add => true,
        AluOpKind::Mul => true,
        _ => false,
    };
    let code: u8 = match kind {
        AluOpKind::Add => 0,
        AluOpKind::Mul => 1,
        AluOpKind::BoolCheck => 2,
        AluOpKind::MulAdd => 3,
        AluOpKind::HornerAcc => 4,
    };
    let third: u64 = match c {
        Some(id) => id.0 as u64 + 1,
        None => 0,
    };
    let fourth: u64 = match kind {
        AluOpKind::HornerAcc => match acc {
            Some(id) => id.0 as u64 + 1,
            None => 0,
        },
        _ => 0,
    };
    if commutative && b.0 < a.0 {
        (code, b.0, a.0, third, fourth)
    } else {
        (code, a.0, b.0, third, fourth)
    }
}

/// The state of the pass after some operations.
#[verifier::ext_equal]
pub struct Pass<F> {
    pub rewrite: Map<u32, u32>,
    pub seen: Map<(u8, u32, u32, u64, u64), u32>,
    pub kept: Seq<OpModel<F>>,
}

/// The code of an arithmetic operation under a rewrite.
pub open spec fn code_of<F>(op: OpModel<F>, m: Map<u32, u32>) -> (u8, u32, u32, u64, u64) {
    match op {
        OpModel::Alu { kind, a, b, c, out, intermediate_out } => alu_code(
            kind,
            root(m, a),
            root(m, b),
            rooted_option(m, c),
            rooted_option(m, intermediate_out),
        ),
        _ => arbitrary(),
    }
}

/// The pass over one more operation: a duplicate is dropped, and its output rewritten to the
/// output of the first operation with its code.
pub open spec fn advanced<F>(pass: Pass<F>, op: OpModel<F>) -> Pass<F> {
    let current = rewritten(op, pass.rewrite);
    if current is Alu {
        let code = code_of(current, pass.rewrite);
        let out = current->Alu_out;
        if pass.seen.contains_key(code) {
            let target = root(pass.rewrite, WitnessId(pass.seen[code]));
            Pass {
                rewrite: if out != target {
                    pass.rewrite.insert(out.0, target.0)
                } else {
                    pass.rewrite
                },
                ..pass
            }
        } else {
            Pass { seen: pass.seen.insert(code, out.0), kept: pass.kept.push(current), ..pass }
        }
    } else {
        Pass { kept: pass.kept.push(current), ..pass }
    }
}

/// The pass over the first `n` operations.
pub open spec fn passed<F>(ops: Seq<OpModel<F>>, n: nat) -> Pass<F>
    decreases n,
{
    if n == 0 {
        Pass { rewrite: Map::empty(), seen: Map::empty(), kept: Seq::empty() }
    } else {
        advanced(passed(ops, (n - 1) as nat), ops[n - 1])
    }
}

/// The operations with every witness replaced by the one that stands for it.
pub open spec fn all_rewritten<F>(ops: Seq<OpModel<F>>, m: Map<u32, u32>) -> Seq<OpModel<F>> {
    Seq::new(ops.len(), |i: int| rewritten(ops[i], m))
}

/// What the pass leaves of a list of operations.
pub open spec fn deduplicated<F>(ops: Seq<OpModel<F>>) -> Seq<OpModel<F>> {
    let last = passed(ops, ops.len());
    all_rewritten(last.kept, last.rewrite)
}

pub open spec fn op_models<F>(ops: Seq<Op<F>>) -> Seq<OpModel<F>> {
    Seq::new(ops.len(), |i: int| ops[i]@)
}

proof fn lemma_passed_grounded<F>(ops: Seq<OpModel<F>>, n: nat)
    ensures
        grounded(passed(ops, n).rewrite),
    decreases n,
{
    if n > 0 {
        lemma_passed_grounded(ops, (n - 1) as nat);
        let before = passed(ops, (n - 1) as nat);
        lemma_advanced(before, ops[n - 1]);
    }
}

proof fn lemma_advanced<F>(pass: Pass<F>, op: OpModel<F>)
    requires
        grounded(pass.rewrite),
    ensures
        grounded(advanced(pass, op).rewrite),
        forall|id: WitnessId|
            #![trigger root(pass.rewrite, id)]
            #![trigger root(advanced(pass, op).rewrite, id)]
            root(advanced(pass, op).rewrite, root(pass.rewrite, id)) == root(
                advanced(pass, op).rewrite,
                id,
            ),
{
    let current = rewritten(op, pass.rewrite);
    let m = pass.rewrite;
    let e = advanced(pass, op).rewrite;
    assert forall|id: WitnessId| root(m, #[trigger] root(m, id)) == root(m, id) by {
        lemma_root_idempotent(m, id);
    }
    if current is Alu && pass.seen.contains_key(code_of(current, m)) {
        let out = current->Alu_out;
        let target = root(m, WitnessId(pass.seen[code_of(current, m)]));
        lemma_root_idempotent(m, WitnessId(pass.seen[code_of(current, m)]));
        lemma_root_idempotent(m, op->Alu_out);
        if out != target {
            lemma_extend(m, out.0, target.0);
        }
    }
    assert forall|id: WitnessId| root(e, #[trigger] root(m, id)) == root(e, id) by {}
    assert forall|id: WitnessId| root(e, root(m, id)) == #[trigger] root(e, id) by {}
}

/// Removes duplicate arithmetic operations by keeping one output per operation code.
///
/// When a duplicate is found its output witness is rewritten to the kept one, and later operations
/// see that one.
pub struct Deduplicator {
    rewrite: WitnessMap,
    seen: SeenMap,
}

impl Deduplicator {
    pub closed spec fn rewrites(self) -> Map<u32, u32> {
        self.rewrite@
    }

    pub closed spec fn codes(self) -> Map<(u8, u32, u32, u64, u64), u32> {
        self.seen@
    }

    /// `capacity` is a hint for the number of operations to be deduplicated.
    pub fn with_capacity(capacity: usize) -> (r: Self)
        ensures
            r.rewrites() == no_rewrites(),
            r.codes() == no_codes(),
    {
        let hint: usize = if capacity > MAX_RESERVED {
            MAX_RESERVED
        } else {
            capacity
        };
        Deduplicator {
            rewrite: witness_map_with_capacity(hint),
            seen: seen_map_with_capacity(hint),
        }
    }

    /// The output of the operation and of the earlier one that it duplicates, if it duplicates one;
    /// otherwise the operation is remembered.
    fn detect_duplicate<F>(&mut self, op: &Op<F>) -> (r: Option<(WitnessId, WitnessId)>)
        requires
            grounded(old(self).rewrites()),
        ensures
            final(self).rewrites() == old(self).rewrites(),
            ({
                let code = code_of(op@, old(self).rewrites());
                &&& op@ !is Alu ==> r is None && final(self).codes() == old(self).codes()
                &&& op@ is Alu && old(self).codes().contains_key(code) ==> {
                    &&& r == Some((op@->Alu_out, WitnessId(old(self).codes()[code])))
                    &&& final(self).codes() == old(self).codes()
                }
                &&& op@ is Alu && !old(self).codes().contains_key(code) ==> {
                    &&& r is None
                    &&& final(self).codes() == old(self).codes().insert(code, op@->Alu_out.0)
                }
            }),
    {
        match op {
            Op::Alu { kind, a, b, c, out, intermediate_out } => {
                let key = alu_key(
                    *kind,
                    a.resolve(&self.rewrite),
                    b.resolve(&self.rewrite),
                    resolve_option(*c, &self.rewrite),
                    resolve_option(*intermediate_out, &self.rewrite),
                );
                match seen_map_get(&self.seen, key) {
                    Some(canonical) => Some((*out, WitnessId(canonical))),
                    None => {
                        seen_map_insert(&mut self.seen, key, out.0);
                        None
                    },
                }
            },
            _ => None,
        }
    }

    /// Consumes the operations and returns the deduplicated ones with the rewrite map.
    pub fn run<F: Copy>(self, ops: Vec<Op<F>>) -> (r: (Vec<Op<F>>, WitnessMap))
        requires
            self.rewrites() == no_rewrites(),
            self.codes() == no_codes(),
        ensures
            op_models(r.0@) == deduplicated(op_models(ops@)),
            r.1@ == passed(op_models(ops@), ops@.len()).rewrite,
    {
        let mut this = self;
        let ghost models = op_models(ops@);
        let ghost total = ops@.len();
        let mut rest: Vec<Op<F>> = ops;
        let mut reversed: Vec<Op<F>> = Vec::new();
        while rest.len() > 0
            invariant
                rest@.len() + reversed@.len() == total,
                total == models.len(),
                forall|j: int| 0 <= j < rest@.len() ==> (#[trigger] rest@[j])@ == models[j],
                forall|j: int|
                    0 <= j < reversed@.len() ==> (#[trigger] reversed@[j])@ == models[total - 1
                        - j],
            decreases rest@.len(),
        {
            match rest.pop() {
                Some(op) => {
                    reversed.push(op);
                },
                None => {},
            }
        }
        let mut result: Vec<Op<F>> = Vec::new();
        let ghost mut n: nat = 0;
        assert(op_models(result@) =~= passed(models, 0).kept);
        while reversed.len() > 0
            invariant
                n + reversed@.len() == total,
                total == models.len(),
                forall|j: int|
                    0 <= j < reversed@.len() ==> (#[trigger] reversed@[j])@ == models[total - 1
                        - j],
                this.rewrites() == passed(models, n).rewrite,
                this.codes() == passed(models, n).seen,
                op_models(result@) == passed(models, n).kept,
            decreases reversed@.len(),
        {
            let ghost before = result@;
            let ghost pass = passed(models, n);
            proof {
                lemma_passed_grounded(models, n);
            }
            match reversed.pop() {
                Some(next) => {
                    let mut op = next;
                    op.apply_witness_rewrite(&this.rewrite);
                    match this.detect_duplicate(&op) {
                        Some((out, canonical)) => {
                            let target: WitnessId = canonical.resolve(&this.rewrite);
                            if out.0 != target.0 {
                                witness_map_insert(&mut this.rewrite, out.0, target.0);
                            }
                        },
                        None => {
                            result.push(op);
                            assert(op_models(result@) =~= op_models(before).push(op@));
                        },
                    }
                },
                None => {},
            }
            proof {
                n = n + 1;
                assert(passed(models, n) == advanced(pass, models[n - 1]));
            }
        }
        proof {
            lemma_passed_grounded(models, n);
        }
        let ghost kept = passed(models, n).kept;
        let ghost m = this.rewrites();
        if !witness_map_is_empty(&this.rewrite) {
            let mut i: usize = 0;
            while i < result.len()
                invariant
                    i <= result@.len(),
                    result@.len() == kept.len(),
                    m == this.rewrites(),
                    grounded(m),
                    forall|j: int|
                        0 <= j < i ==> (#[trigger] result@[j])@ == rewritten(kept[j], m),
                    forall|j: int| i <= j < kept.len() ==> (#[trigger] result@[j])@ == kept[j],
                decreases result@.len() - i,
            {
                result[i].apply_witness_rewrite(&this.rewrite);
                i += 1;
            }
            assert(op_models(result@) =~= all_rewritten(kept, m));
        } else {
            proof {
                assert forall|i: int| 0 <= i < kept.len() implies rewritten(
                    #[trigger] kept[i],
                    m,
                ) == kept[i] by {
                    lemma_empty_rewrite(kept[i]);
                }
                assert(op_models(result@) =~= all_rewritten(kept, m));
            }
        }
        (result, this.rewrite)
    }
}

proof fn lemma_empty_rewrite<F>(op: OpModel<F>)
    ensures
        rewritten(op, no_rewrites()) == op,
{
    let m = no_rewrites();
    assert forall|id: WitnessId| #[trigger] root(m, id) == id by {}
    match op {
        OpModel::Hint { inputs, outputs } => {
            assert(rooted(m, inputs) =~= inputs);
            assert(rooted(m, outputs) =~= outputs);
        },
        OpModel::NonPrimitive { op_id, inputs, outputs } => {
            assert forall|i: int| 0 <= i < inputs.len() implies rooted(m, #[trigger] inputs[i])
                == inputs[i] by {
                assert(rooted(m, inputs[i]) =~= inputs[i]);
            }
            assert forall|i: int| 0 <= i < outputs.len() implies rooted(m, #[trigger] outputs[i])
                == outputs[i] by {
                assert(rooted(m, outputs[i]) =~= outputs[i]);
            }
            assert(rooted_rows(m, inputs) =~= inputs);
            assert(rooted_rows(m, outputs) =~= outputs);
        },
        _ => {},
    }
}


proof fn lemma_rewritten_twice<F>(op: OpModel<F>, m: Map<u32, u32>, e: Map<u32, u32>)
    requires
        forall|id: WitnessId| root(e, #[trigger] root(m, id)) == root(e, id),
    ensures
        rewritten(rewritten(op, m), e) == rewritten(op, e),
{
    match op {
        OpModel::Hint { inputs, outputs } => {
            assert(rooted(e, rooted(m, inputs)) =~= rooted(e, inputs));
            assert(rooted(e, rooted(m, outputs)) =~= rooted(e, outputs));
        },
        OpModel::NonPrimitive { op_id, inputs, outputs } => {
            assert forall|i: int| 0 <= i < inputs.len() implies rooted(
                e,
                rooted(m, #[trigger] inputs[i]),
            ) == rooted(e, inputs[i]) by {
                assert(rooted(e, rooted(m, inputs[i])) =~= rooted(e, inputs[i]));
            }
            assert forall|i: int| 0 <= i < outputs.len() implies rooted(
                e,
                rooted(m, #[trigger] outputs[i]),
            ) == rooted(e, outputs[i]) by {
                assert(rooted(e, rooted(m, outputs[i])) =~= rooted(e, outputs[i]));
            }
            assert(rooted_rows(e, rooted_rows(m, inputs)) =~= rooted_rows(e, inputs));
            assert(rooted_rows(e, rooted_rows(m, outputs)) =~= rooted_rows(e, outputs));
        },
        _ => {},
    }
}

/// Every witness that the remaining operations mention stands for itself: rewriting them once more
/// changes nothing.
pub proof fn law_deduplicated_is_canonical<F>(ops: Seq<OpModel<F>>)
    ensures
        all_rewritten(deduplicated(ops), passed(ops, ops.len()).rewrite) == deduplicated(ops),
        forall|id: WitnessId|
            !passed(ops, ops.len()).rewrite.contains_key(
                (#[trigger] root(passed(ops, ops.len()).rewrite, id)).0,
            ),
{
    let last = passed(ops, ops.len());
    let m = last.rewrite;
    lemma_passed_grounded(ops, ops.len());
    assert forall|id: WitnessId|
        root(m, #[trigger] root(m, id)) == root(m, id) && !m.contains_key(root(m, id).0) by {
        lemma_root_idempotent(m, id);
    }
    assert forall|i: int| 0 <= i < last.kept.len() implies rewritten(
        rewritten(#[trigger] last.kept[i], m),
        m,
    ) == rewritten(last.kept[i], m) by {
        lemma_rewritten_twice(last.kept[i], m, m);
    }
    assert(all_rewritten(deduplicated(ops), m) =~= deduplicated(ops));
}

/// The witnesses of the first `n` operations are resolved alike by the rewrites after them and by
/// any later ones.
proof fn lemma_roots_persist<F>(ops: Seq<OpModel<F>>, k: nat, n: nat)
    requires
        k <= n,
    ensures
        forall|id: WitnessId|
            root(passed(ops, n).rewrite, #[trigger] root(passed(ops, k).rewrite, id)) == root(
                passed(ops, n).rewrite,
                id,
            ),
    decreases n,
{
    lemma_passed_grounded(ops, n);
    let e = passed(ops, n).rewrite;
    let m = passed(ops, k).rewrite;
    if k == n {
        assert forall|id: WitnessId| root(e, #[trigger] root(m, id)) == root(e, id) by {
            lemma_root_idempotent(m, id);
        }
    } else {
        let d = passed(ops, (n - 1) as nat).rewrite;
        lemma_roots_persist(ops, k, (n - 1) as nat);
        lemma_passed_grounded(ops, (n - 1) as nat);
        lemma_advanced(passed(ops, (n - 1) as nat), ops[n - 1]);
        assert forall|id: WitnessId| root(e, #[trigger] root(m, id)) == root(e, id) by {
            assert(root(d, root(m, id)) == root(d, id));
            assert(root(e, root(d, root(m, id))) == root(e, root(m, id)));
            assert(root(e, root(d, id)) == root(e, id));
        }
    }
}

/// What an arithmetic operation asserts of its values, for any meaning of the operations.
pub open spec fn alu_holds<F>(
    meaning: spec_fn(AluOpKind, F, F, Option<F>, Option<F>, F) -> bool,
    op: OpModel<F>,
    env: spec_fn(WitnessId) -> F,
) -> bool {
    match op {
        OpModel::Alu { kind, a, b, c, out, intermediate_out } => meaning(
            kind,
            env(a),
            env(b),
            match c {
                Some(c) => Some(env(c)),
                None => None,
            },
            match intermediate_out {
                Some(acc) if kind == AluOpKind::HornerAcc => Some(env(acc)),
                _ => None,
            },
            env(out),
        ),
        _ => true,
    }
}

/// Addition and multiplication take their operands in either order.
pub open spec fn respects_order<F>(
    meaning: spec_fn(AluOpKind, F, F, Option<F>, Option<F>, F) -> bool,
) -> bool {
    forall|kind: AluOpKind, a: F, b: F, c: Option<F>, acc: Option<F>, out: F|
        commutes(kind) ==> #[trigger] meaning(kind, a, b, c, acc, out) == meaning(
            kind,
            b,
            a,
            c,
            acc,
            out,
        )
}

/// Each witness has the value of the one that stands for it.
pub open spec fn through_roots<F>(
    env: spec_fn(WitnessId) -> F,
    m: Map<u32, u32>,
) -> spec_fn(WitnessId) -> F {
    |id: WitnessId| env(root(m, id))
}

/// Some kept operation has the code and, up to `m`, the output.
spec fn represented<F>(
    kept: Seq<OpModel<F>>,
    code: (u8, u32, u32, u64, u64),
    out: u32,
    k: int,
) -> bool {
    &&& 0 <= k < kept.len()
    &&& kept[k] is Alu
    &&& kept[k]->Alu_out.0 == out
    &&& plain_code(kept[k]) == code
}

/// The code of an operation as it stands.
spec fn plain_code<F>(op: OpModel<F>) -> (u8, u32, u32, u64, u64) {
    alu_code(op->Alu_kind, op->Alu_a, op->Alu_b, op->Alu_c, op->Alu_intermediate_out)
}

proof fn lemma_code_of_rewritten<F>(op: OpModel<F>, m: Map<u32, u32>)
    requires
        grounded(m),
        op is Alu,
    ensures
        code_of(rewritten(op, m), m) == plain_code(rewritten(op, m)),
{
    assert forall|id: WitnessId| root(m, #[trigger] root(m, id)) == root(m, id) by {
        lemma_root_idempotent(m, id);
    }
}

proof fn lemma_seen_represented<F>(ops: Seq<OpModel<F>>, n: nat)
    ensures
        forall|code: (u8, u32, u32, u64, u64)|
            #[trigger] passed(ops, n).seen.contains_key(code) ==> exists|k: int|
                represented(passed(ops, n).kept, code, passed(ops, n).seen[code], k),
    decreases n,
{
    if n > 0 {
        let before = passed(ops, (n - 1) as nat);
        let after = passed(ops, n);
        lemma_seen_represented(ops, (n - 1) as nat);
        lemma_passed_grounded(ops, (n - 1) as nat);
        let current = rewritten(ops[n - 1], before.rewrite);
        if current is Alu {
            lemma_code_of_rewritten(ops[n - 1], before.rewrite);
        }
        assert forall|code: (u8, u32, u32, u64, u64)| #[trigger]
            after.seen.contains_key(code) implies exists|k: int|
            represented(after.kept, code, after.seen[code], k) by {
            if before.seen.contains_key(code) {
                let k = choose|k: int| represented(before.kept, code, before.seen[code], k);
                assert(represented(after.kept, code, after.seen[code], k));
            } else {
                assert(represented(after.kept, code, after.seen[code], before.kept.len() as int));
            }
        }
    }
}

/// Operations with one code, and outputs that end at one witness, hold alike.
proof fn lemma_same_code_holds<F>(
    meaning: spec_fn(AluOpKind, F, F, Option<F>, Option<F>, F) -> bool,
    x: OpModel<F>,
    y: OpModel<F>,
    env: spec_fn(WitnessId) -> F,
)
    requires
        respects_order(meaning),
        x is Alu,
        y is Alu,
        plain_code(x) == plain_code(y),
        env(x->Alu_out) == env(y->Alu_out),
    ensures
        alu_holds(meaning, x, env) == alu_holds(meaning, y, env),
{
    assert(x->Alu_kind == y->Alu_kind);
    assert(x->Alu_c == y->Alu_c);
    if x->Alu_kind == AluOpKind::HornerAcc {
        assert(x->Alu_intermediate_out == y->Alu_intermediate_out);
    }
    if x->Alu_a != y->Alu_a {
        assert(commutes(x->Alu_kind));
        assert(x->Alu_a == y->Alu_b && x->Alu_b == y->Alu_a);
    }
}

/// Rewriting an operation and reading each witness through the rewrites come to the same.
proof fn lemma_holds_rewritten<F>(
    meaning: spec_fn(AluOpKind, F, F, Option<F>, Option<F>, F) -> bool,
    op: OpModel<F>,
    m: Map<u32, u32>,
    env: spec_fn(WitnessId) -> F,
)
    ensures
        alu_holds(meaning, rewritten(op, m), env) == alu_holds(
            meaning,
            op,
            through_roots(env, m),
        ),
{
}

proof fn lemma_kept_prefix<F>(ops: Seq<OpModel<F>>, k: nat, n: nat)
    requires
        k <= n,
    ensures
        passed(ops, k).kept.len() <= passed(ops, n).kept.len(),
        forall|i: int|
            0 <= i < passed(ops, k).kept.len() ==> #[trigger] passed(ops, k).kept[i] == passed(
                ops,
                n,
            ).kept[i],
    decreases n,
{
    if k < n {
        lemma_kept_prefix(ops, k, (n - 1) as nat);
    }
}

/// The remaining operations mean what all of them meant: values that satisfy the remaining
/// arithmetic operations satisfy all of the original ones, once each witness is given the value of
/// the one that stands for it. This holds for any meaning of the operations in which addition and
/// multiplication commute.
pub proof fn law_deduplication_preserves_meaning<F>(
    meaning: spec_fn(AluOpKind, F, F, Option<F>, Option<F>, F) -> bool,
    ops: Seq<OpModel<F>>,
    env: spec_fn(WitnessId) -> F,
)
    requires
        respects_order(meaning),
        forall|i: int|
            0 <= i < deduplicated(ops).len() ==> alu_holds(
                meaning,
                #[trigger] deduplicated(ops)[i],
                env,
            ),
    ensures
        forall|j: int|
            0 <= j < ops.len() ==> alu_holds(
                meaning,
                #[trigger] ops[j],
                through_roots(env, passed(ops, ops.len()).rewrite),
            ),
{
    let last = passed(ops, ops.len());
    let m = last.rewrite;
    let full = through_roots(env, m);
    assert forall|i: int| 0 <= i < last.kept.len() implies alu_holds(
        meaning,
        #[trigger] last.kept[i],
        full,
    ) by {
        assert(deduplicated(ops)[i] == rewritten(last.kept[i], m));
        lemma_holds_rewritten(meaning, last.kept[i], m, env);
    }
    assert forall|j: int| 0 <= j < ops.len() implies alu_holds(
        meaning,
        #[trigger] ops[j],
        full,
    ) by {
        let before = passed(ops, j as nat);
        let after = passed(ops, (j + 1) as nat);
        let d = before.rewrite;
        let current = rewritten(ops[j], d);
        assert(after == advanced(before, ops[j]));
        lemma_passed_grounded(ops, j as nat);
        lemma_roots_persist(ops, j as nat, ops.len());
        lemma_holds_rewritten(meaning, ops[j], d, full);
        assert forall|id: WitnessId| #[trigger] full(root(d, id)) == full(id) by {}
        if current is Alu {
            lemma_code_of_rewritten(ops[j], d);
            let code = code_of(current, d);
            if before.seen.contains_key(code) {
                lemma_seen_represented(ops, j as nat);
                let k = choose|k: int| represented(before.kept, code, before.seen[code], k);
                lemma_kept_prefix(ops, j as nat, ops.len());
                let first = last.kept[k];
                assert(first == before.kept[k]);
                let target = root(d, WitnessId(before.seen[code]));
                lemma_roots_persist(ops, (j + 1) as nat, ops.len());
                lemma_passed_grounded(ops, (j + 1) as nat);
                let e = after.rewrite;
                lemma_root_idempotent(d, WitnessId(before.seen[code]));
                lemma_root_idempotent(d, ops[j]->Alu_out);
                if current->Alu_out != target {
                    lemma_extend(d, current->Alu_out.0, target.0);
                }
                assert(root(e, current->Alu_out) == root(e, target));
                assert(root(m, root(e, current->Alu_out)) == root(m, current->Alu_out));
                assert(root(m, root(e, target)) == root(m, target));
                assert(root(m, target) == root(m, WitnessId(before.seen[code])));
                assert(full(current->Alu_out) == full(first->Alu_out));
                lemma_same_code_holds(meaning, current, first, full);
            } else {
                lemma_kept_prefix(ops, (j + 1) as nat, ops.len());
                assert(after.kept[before.kept.len() as int] == current);
            }
            assert(alu_holds(meaning, current, full));
            assert(alu_holds(meaning, current, full) == alu_holds(meaning, ops[j], full));
        }
    }
}

/// Operations of which no two arithmetic ones have the same code are left as they are.
pub proof fn law_distinct_operations_are_kept<F>(ops: Seq<OpModel<F>>)
    requires
        forall|i: int, j: int|
            0 <= i < j < ops.len() && ops[i] is Alu && ops[j] is Alu ==> code_of(
                #[trigger] ops[i],
                no_rewrites(),
            ) != code_of(#[trigger] ops[j], no_rewrites()),
    ensures
        deduplicated(ops) == ops,
        passed(ops, ops.len()).rewrite == no_rewrites(),
{
    lemma_distinct_kept(ops, ops.len());
    let last = passed(ops, ops.len());
    assert forall|i: int| 0 <= i < last.kept.len() implies rewritten(
        #[trigger] last.kept[i],
        last.rewrite,
    ) == last.kept[i] by {
        lemma_empty_rewrite(last.kept[i]);
    }
    assert(deduplicated(ops) =~= ops);
}

proof fn lemma_distinct_kept<F>(ops: Seq<OpModel<F>>, n: nat)
    requires
        n <= ops.len(),
        forall|i: int, j: int|
            0 <= i < j < ops.len() && ops[i] is Alu && ops[j] is Alu ==> code_of(
                #[trigger] ops[i],
                no_rewrites(),
            ) != code_of(#[trigger] ops[j], no_rewrites()),
    ensures
        passed(ops, n).rewrite == no_rewrites(),
        passed(ops, n).kept == ops.take(n as int),
        forall|code: (u8, u32, u32, u64, u64)|
            #[trigger] passed(ops, n).seen.contains_key(code) ==> exists|i: int|
                0 <= i < n && ops[i] is Alu && code_of(#[trigger] ops[i], no_rewrites()) == code,
    decreases n,
{
    if n > 0 {
        lemma_distinct_kept(ops, (n - 1) as nat);
        lemma_empty_rewrite(ops[n - 1]);
        assert(ops.take(n as int) =~= ops.take(n - 1).push(ops[n - 1]));
    } else {
        assert(ops.take(0) =~= Seq::empty());
    }
}

// A second pass.

/// The operation names the witness.
pub open spec fn mentions<F>(op: OpModel<F>, id: WitnessId) -> bool {
    match op {
        OpModel::Const { out, .. } => out == id,
        OpModel::Public { out, .. } => out == id,
        OpModel::Alu { kind, a, b, c, out, intermediate_out } => {
            ||| a == id
            ||| b == id
            ||| c == Some(id)
            ||| out == id
            ||| intermediate_out == Some(id)
        },
        OpModel::Hint { inputs, outputs } => inputs.contains(id) || outputs.contains(id),
        OpModel::NonPrimitive { op_id, inputs, outputs } => {
            ||| exists|i: int| 0 <= i < inputs.len() && (#[trigger] inputs[i]).contains(id)
            ||| exists|i: int| 0 <= i < outputs.len() && (#[trigger] outputs[i]).contains(id)
        },
    }
}

/// No operation names the output of a later arithmetic operation.
pub open spec fn in_definition_order<F>(ops: Seq<OpModel<F>>) -> bool {
    forall|i: int, j: int|
        #![trigger ops[i], ops[j]]
        0 <= i < j < ops.len() && ops[j] is Alu ==> !mentions(ops[i], ops[j]->Alu_out)
}

/// The witness is the output of one of the first `n` operations, an arithmetic one.
spec fn defined_before<F>(ops: Seq<OpModel<F>>, n: nat, id: u32) -> bool {
    exists|i: int| 0 <= i < n && (#[trigger] ops[i]) is Alu && ops[i]->Alu_out.0 == id
}

/// The witness is the output of none of the operations from `n` on.
spec fn undefined_after<F>(ops: Seq<OpModel<F>>, n: nat, id: u32) -> bool {
    forall|j: int| n <= j < ops.len() && (#[trigger] ops[j]) is Alu ==> ops[j]->Alu_out.0 != id
}

/// Rewrites lead in one step to witnesses that are not rewritten.
spec fn direct(m: Map<u32, u32>) -> bool {
    forall|k: u32| #[trigger] m.contains_key(k) ==> !m.contains_key(m[k])
}

proof fn lemma_direct_root(m: Map<u32, u32>, id: WitnessId)
    requires
        direct(m),
        m.dom().finite(),
    ensures
        root(m, id) == (if m.contains_key(id.0) {
            WitnessId(m[id.0])
        } else {
            id
        }),
{
    let n = m.dom().len();
    if m.contains_key(id.0) {
        assert(m.dom().contains(id.0));
        assert(n > 0) by {
            if n == 0 {
                assert(m.dom() =~= Set::empty());
            }
        }
        lemma_walk_stops(m, m[id.0], 0, (n - 1) as nat);
    } else {
        lemma_walk_stops(m, id.0, 0, n);
    }
}

proof fn lemma_unmentioned<F>(op: OpModel<F>, m: Map<u32, u32>)
    requires
        forall|id: WitnessId| #[trigger] mentions(op, id) ==> root(m, id) == id,
    ensures
        rewritten(op, m) == op,
{
    match op {
        OpModel::Const { out, val } => {
            assert(mentions(op, out));
        },
        OpModel::Public { out, public_pos } => {
            assert(mentions(op, out));
        },
        OpModel::Alu { kind, a, b, c, out, intermediate_out } => {
            assert(mentions(op, a) && mentions(op, b) && mentions(op, out));
            if c is Some {
                assert(mentions(op, c->0));
            }
            if intermediate_out is Some {
                assert(mentions(op, intermediate_out->0));
            }
        },
        OpModel::Hint { inputs, outputs } => {
            assert forall|i: int| 0 <= i < inputs.len() implies root(m, #[trigger] inputs[i])
                == inputs[i] by {
                assert(mentions(op, inputs[i]));
            }
            assert forall|i: int| 0 <= i < outputs.len() implies root(m, #[trigger] outputs[i])
                == outputs[i] by {
                assert(mentions(op, outputs[i]));
            }
            assert(rooted(m, inputs) =~= inputs);
            assert(rooted(m, outputs) =~= outputs);
        },
        OpModel::NonPrimitive { op_id, inputs, outputs } => {
            assert forall|i: int| 0 <= i < inputs.len() implies rooted(m, #[trigger] inputs[i])
                == inputs[i] by {
                assert forall|j: int| 0 <= j < inputs[i].len() implies root(
                    m,
                    #[trigger] inputs[i][j],
                ) == inputs[i][j] by {
                    assert(inputs[i].contains(inputs[i][j]));
                    assert(mentions(op, inputs[i][j]));
                }
                assert(rooted(m, inputs[i]) =~= inputs[i]);
            }
            assert forall|i: int| 0 <= i < outputs.len() implies rooted(m, #[trigger] outputs[i])
                == outputs[i] by {
                assert forall|j: int| 0 <= j < outputs[i].len() implies root(
                    m,
                    #[trigger] outputs[i][j],
                ) == outputs[i][j] by {
                    assert(outputs[i].contains(outputs[i][j]));
                    assert(mentions(op, outputs[i][j]));
                }
                assert(rooted(m, outputs[i]) =~= outputs[i]);
            }
            assert(rooted_rows(m, inputs) =~= inputs);
            assert(rooted_rows(m, outputs) =~= outputs);
        },
    }
}

/// What a rewritten operation names stands for what the operation names.
proof fn lemma_mentioned<F>(op: OpModel<F>, m: Map<u32, u32>, id: WitnessId) -> (from: WitnessId)
    requires
        mentions(rewritten(op, m), id),
    ensures
        mentions(op, from),
        root(m, from) == id,
{
    match op {
        OpModel::Const { out, .. } => out,
        OpModel::Public { out, .. } => out,
        OpModel::Alu { kind, a, b, c, out, intermediate_out } => {
            if root(m, a) == id {
                a
            } else if root(m, b) == id {
                b
            } else if root(m, out) == id {
                out
            } else if rooted_option(m, c) == Some(id) {
                c->0
            } else {
                intermediate_out->0
            }
        },
        OpModel::Hint { inputs, outputs } => {
            if rooted(m, inputs).contains(id) {
                let i = choose|i: int|
                    0 <= i < rooted(m, inputs).len() && rooted(m, inputs)[i] == id;
                assert(inputs.contains(inputs[i]));
                inputs[i]
            } else {
                let i = choose|i: int|
                    0 <= i < rooted(m, outputs).len() && rooted(m, outputs)[i] == id;
                assert(outputs.contains(outputs[i]));
                outputs[i]
            }
        },
        OpModel::NonPrimitive { op_id, inputs, outputs } => {
            let (ins, outs) = (rooted_rows(m, inputs), rooted_rows(m, outputs));
            if exists|i: int| 0 <= i < ins.len() && (#[trigger] ins[i]).contains(id) {
                let i = choose|i: int| 0 <= i < ins.len() && (#[trigger] ins[i]).contains(id);
                let j = choose|j: int| 0 <= j < ins[i].len() && ins[i][j] == id;
                assert(inputs[i].contains(inputs[i][j]));
                inputs[i][j]
            } else {
                let i = choose|i: int| 0 <= i < outs.len() && (#[trigger] outs[i]).contains(id);
                let j = choose|j: int| 0 <= j < outs[i].len() && outs[i][j] == id;
                assert(outputs[i].contains(outputs[i][j]));
                outputs[i][j]
            }
        },
    }
}

/// What holds of the pass over the first `n` operations in definition order.
spec fn settled<F>(ops: Seq<OpModel<F>>, n: nat) -> bool {
    let pass = passed(ops, n);
    &&& pass.rewrite.dom().finite()
    &&& direct(pass.rewrite)
    &&& forall|k: u32| #[trigger]
        pass.rewrite.contains_key(k) ==> defined_before(ops, n, k) && defined_before(
            ops,
            n,
            pass.rewrite[k],
        )
    &&& forall|i: int, id: WitnessId|
        0 <= i < pass.kept.len() && #[trigger] mentions(pass.kept[i], id)
            ==> !pass.rewrite.contains_key(id.0) && undefined_after(ops, n, id.0)
    &&& forall|i: int|
        0 <= i < pass.kept.len() && (#[trigger] pass.kept[i]) is Alu ==> defined_before(
            ops,
            n,
            pass.kept[i]->Alu_out.0,
        ) && pass.seen.contains_key(plain_code(pass.kept[i]))
    &&& forall|i: int, j: int|
        #![trigger pass.kept[i], pass.kept[j]]
        0 <= i < j < pass.kept.len() && pass.kept[i] is Alu && pass.kept[j] is Alu ==> plain_code(
            pass.kept[i],
        ) != plain_code(pass.kept[j])
}

proof fn lemma_defined_later<F>(ops: Seq<OpModel<F>>, n: nat, id: u32)
    requires
        defined_before(ops, n, id),
    ensures
        defined_before(ops, n + 1, id),
{
    let i = choose|i: int| 0 <= i < n && (#[trigger] ops[i]) is Alu && ops[i]->Alu_out.0 == id;
    assert(ops[i] is Alu);
}

/// An output is defined once.
proof fn lemma_defined_once<F>(ops: Seq<OpModel<F>>, n: nat, id: u32)
    requires
        in_definition_order(ops),
        n <= ops.len(),
        defined_before(ops, n, id),
    ensures
        undefined_after(ops, n, id),
{
    let i = choose|i: int| 0 <= i < n && (#[trigger] ops[i]) is Alu && ops[i]->Alu_out.0 == id;
    assert forall|j: int| n <= j < ops.len() && (#[trigger] ops[j]) is Alu implies ops[j]->Alu_out.0
        != id by {
        assert(mentions(ops[i], ops[i]->Alu_out));
        assert(!mentions(ops[i], ops[j]->Alu_out));
    }
}

/// What the next operation names, once rewritten, is not rewritten and not defined later.
proof fn lemma_current_settled<F>(ops: Seq<OpModel<F>>, n: nat, id: WitnessId)
    requires
        in_definition_order(ops),
        n < ops.len(),
        settled(ops, n),
        mentions(rewritten(ops[n as int], passed(ops, n).rewrite), id),
    ensures
        !passed(ops, n).rewrite.contains_key(id.0),
        undefined_after(ops, n + 1, id.0),
{
    let m = passed(ops, n).rewrite;
    let from = lemma_mentioned(ops[n as int], m, id);
    lemma_direct_root(m, from);
    if m.contains_key(from.0) {
        lemma_defined_later(ops, n, m[from.0]);
        lemma_defined_once(ops, n + 1, m[from.0]);
    } else {
        assert forall|j: int| n + 1 <= j < ops.len() && (#[trigger] ops[j]) is Alu implies
            ops[j]->Alu_out.0 != id.0 by {
            assert(!mentions(ops[n as int], ops[j]->Alu_out));
            if ops[j]->Alu_out.0 == id.0 {
                assert(ops[j]->Alu_out == from);
            }
        }
    }
}

proof fn lemma_settled<F>(ops: Seq<OpModel<F>>, n: nat)
    requires
        in_definition_order(ops),
        n <= ops.len(),
    ensures
        settled(ops, n),
    decreases n,
{
    if n > 0 {
        let l = (n - 1) as nat;
        let op = ops[l as int];
        let before = passed(ops, l);
        let after = passed(ops, n);
        let m = before.rewrite;
        lemma_settled(ops, l);
        lemma_passed_grounded(ops, l);
        lemma_seen_represented(ops, l);
        let current = rewritten(op, m);
        assert forall|k: u32| #[trigger] m.contains_key(k) implies defined_before(ops, n, k)
            && defined_before(ops, n, m[k]) by {
            lemma_defined_later(ops, l, k);
            lemma_defined_later(ops, l, m[k]);
        }
        assert forall|i: int| 0 <= i < before.kept.len() && (
        #[trigger] before.kept[i]) is Alu implies defined_before(
            ops,
            n,
            before.kept[i]->Alu_out.0,
        ) by {
            lemma_defined_later(ops, l, before.kept[i]->Alu_out.0);
        }
        assert forall|id: WitnessId| #[trigger] mentions(current, id) implies !m.contains_key(id.0)
            && undefined_after(ops, n, id.0) by {
            lemma_current_settled(ops, l, id);
        }
        if current is Alu {
            let code = code_of(current, m);
            let out = op->Alu_out;
            lemma_code_of_rewritten(op, m);
            assert(defined_before(ops, n, out.0));
            if m.contains_key(out.0) {
                lemma_defined_once(ops, l, out.0);
                assert(false);
            }
            lemma_direct_root(m, out);
            assert(current->Alu_out == out);
            if before.seen.contains_key(code) {
                let k = choose|k: int| represented(before.kept, code, before.seen[code], k);
                let first = before.kept[k];
                assert(mentions(first, first->Alu_out));
                lemma_direct_root(m, first->Alu_out);
                let target = root(m, WitnessId(before.seen[code]));
                assert(target == first->Alu_out);
                assert(undefined_after(ops, l, target.0));
                assert(out != target);
                assert(after.rewrite == m.insert(out.0, target.0));
                assert(after.kept == before.kept);
                assert forall|key: u32| #[trigger] after.rewrite.contains_key(key) implies
                    !after.rewrite.contains_key(after.rewrite[key]) by {
                    if key != out.0 {
                        lemma_defined_once(ops, l, m[key]);
                    }
                }
                assert forall|i: int, id: WitnessId|
                    0 <= i < after.kept.len() && #[trigger] mentions(after.kept[i], id) implies
                    !after.rewrite.contains_key(id.0) && undefined_after(ops, n, id.0) by {
                    assert(undefined_after(ops, l, id.0));
                }
            } else {
                assert(after.kept == before.kept.push(current));
                assert(after.rewrite == m);
                assert forall|i: int| 0 <= i < before.kept.len() && (
                #[trigger] before.kept[i]) is Alu implies plain_code(before.kept[i])
                    != plain_code(current) by {}
                assert forall|i: int, id: WitnessId|
                    0 <= i < after.kept.len() && #[trigger] mentions(after.kept[i], id) implies
                    !after.rewrite.contains_key(id.0) && undefined_after(ops, n, id.0) by {
                    if i < before.kept.len() {
                        assert(mentions(before.kept[i], id));
                    }
                }
                assert forall|i: int, j: int|
                    #![trigger after.kept[i], after.kept[j]]
                    0 <= i < j < after.kept.len() && after.kept[i] is Alu && after.kept[j] is Alu
                        implies plain_code(after.kept[i]) != plain_code(after.kept[j]) by {
                    assert(after.kept[i] == before.kept[i]);
                }
                assert forall|i: int| 0 <= i < after.kept.len() && (
                #[trigger] after.kept[i]) is Alu implies defined_before(
                    ops,
                    n,
                    after.kept[i]->Alu_out.0,
                ) && after.seen.contains_key(plain_code(after.kept[i])) by {
                    if i < before.kept.len() {
                        assert(after.kept[i] == before.kept[i]);
                    }
                }
            }
        } else {
            assert(after.kept == before.kept.push(current));
            assert forall|i: int, id: WitnessId|
                0 <= i < after.kept.len() && #[trigger] mentions(after.kept[i], id) implies
                !after.rewrite.contains_key(id.0) && undefined_after(ops, n, id.0) by {
                if i < before.kept.len() {
                    assert(mentions(before.kept[i], id));
                }
            }
            assert forall|i: int, j: int|
                #![trigger after.kept[i], after.kept[j]]
                0 <= i < j < after.kept.len() && after.kept[i] is Alu && after.kept[j] is Alu
                    implies plain_code(after.kept[i]) != plain_code(after.kept[j]) by {
                assert(after.kept[i] == before.kept[i]);
                assert(after.kept[j] == before.kept[j]);
            }
        }
    }
}

/// A second pass finds nothing left to do: on operations in definition order, it keeps the list
/// that the first pass leaves and rewrites nothing.
pub proof fn law_deduplication_is_idempotent<F>(ops: Seq<OpModel<F>>)
    requires
        in_definition_order(ops),
    ensures
        deduplicated(deduplicated(ops)) == deduplicated(ops),
        passed(deduplicated(ops), deduplicated(ops).len()).rewrite == no_rewrites(),
{
    let last = passed(ops, ops.len());
    lemma_settled(ops, ops.len());
    assert forall|i: int| 0 <= i < last.kept.len() implies rewritten(
        #[trigger] last.kept[i],
        last.rewrite,
    ) == last.kept[i] by {
        assert forall|id: WitnessId| #[trigger] mentions(last.kept[i], id) implies root(
            last.rewrite,
            id,
        ) == id by {
            lemma_direct_root(last.rewrite, id);
        }
        lemma_unmentioned(last.kept[i], last.rewrite);
    }
    let left = deduplicated(ops);
    assert(left =~= last.kept);
    assert forall|i: int, j: int|
        0 <= i < j < left.len() && left[i] is Alu && left[j] is Alu implies code_of(
        #[trigger] left[i],
        no_rewrites(),
    ) != code_of(#[trigger] left[j], no_rewrites()) by {
        lemma_empty_code(left[i]);
        lemma_empty_code(left[j]);
    }
    law_distinct_operations_are_kept(left);
}

proof fn lemma_empty_code<F>(op: OpModel<F>)
    requires
        op is Alu,
    ensures
        code_of(op, no_rewrites()) == plain_code(op),
{
    lemma_empty_rewrite(op);
}

} // verus!
