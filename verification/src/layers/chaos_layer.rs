//! Layer three, the chaos controller: for each top-level function it plans
//! the attacks its body invites (integer overflow, division by zero,
//! unbounded loops) and counts the points where a mutation could be injected.
//! Functions arrive as shapes: the parts of a syntax tree this analysis reads.

use vstd::prelude::*;
use crate::entropy::{deterministic_vector, seeded_vector_words};
use crate::hypervector::Hypervector;

verus! {

/// The kinds of attack the layer knows.
#[derive(Debug, Clone, Copy, PartialEq, Eq, Hash, Structural)]
pub enum AttackKind {
    IntegerOverflow,
    BufferOverflow,
    RaceCondition,
    DivisionByZero,
    NullPointerDeref,
    UseAfterFree,
    DoubleFree,
    UninitializedMemory,
    InfiniteLoop,
    StackOverflow,
    MemoryLeak,
    FormatStringInjection,
    CommandInjection,
    SqlInjection,
    PathTraversal,
    WeakRandomness,
    HardcodedSecrets,
    PanicInDrop,
    UnusedResult,
    Deadlock,
}

/// Number of attack kinds.
pub const ATTACK_KINDS: usize = 20;

/// Position of a kind in declaration order.
pub open spec fn attack_kind_index(k: AttackKind) -> nat {
    match k {
        AttackKind::IntegerOverflow => 0,
        AttackKind::BufferOverflow => 1,
        AttackKind::RaceCondition => 2,
        AttackKind::DivisionByZero => 3,
        AttackKind::NullPointerDeref => 4,
        AttackKind::UseAfterFree => 5,
        AttackKind::DoubleFree => 6,
        AttackKind::UninitializedMemory => 7,
        AttackKind::InfiniteLoop => 8,
        AttackKind::StackOverflow => 9,
        AttackKind::MemoryLeak => 10,
        AttackKind::FormatStringInjection => 11,
        AttackKind::CommandInjection => 12,
        AttackKind::SqlInjection => 13,
        AttackKind::PathTraversal => 14,
        AttackKind::WeakRandomness => 15,
        AttackKind::HardcodedSecrets => 16,
        AttackKind::PanicInDrop => 17,
        AttackKind::UnusedResult => 18,
        AttackKind::Deadlock => 19,
    }
}

/// The name of a kind, as `Debug` prints it.
pub open spec fn attack_kind_label(k: AttackKind) -> Seq<char> {
    match k {
        AttackKind::IntegerOverflow => "IntegerOverflow"@,
        AttackKind::BufferOverflow => "BufferOverflow"@,
        AttackKind::RaceCondition => "RaceCondition"@,
        AttackKind::DivisionByZero => "DivisionByZero"@,
        AttackKind::NullPointerDeref => "NullPointerDeref"@,
        AttackKind::UseAfterFree => "UseAfterFree"@,
        AttackKind::DoubleFree => "DoubleFree"@,
        AttackKind::UninitializedMemory => "UninitializedMemory"@,
        AttackKind::InfiniteLoop => "InfiniteLoop"@,
        AttackKind::StackOverflow => "StackOverflow"@,
        AttackKind::MemoryLeak => "MemoryLeak"@,
        AttackKind::FormatStringInjection => "FormatStringInjection"@,
        AttackKind::CommandInjection => "CommandInjection"@,
        AttackKind::SqlInjection => "SqlInjection"@,
        AttackKind::PathTraversal => "PathTraversal"@,
        AttackKind::WeakRandomness => "WeakRandomness"@,
        AttackKind::HardcodedSecrets => "HardcodedSecrets"@,
        AttackKind::PanicInDrop => "PanicInDrop"@,
        AttackKind::UnusedResult => "UnusedResult"@,
        AttackKind::Deadlock => "Deadlock"@,
    }
}

/// The priority of a planned attack, in tenths: overflow 7, division 6,
/// loop 5; the kinds the analysis never plans have none.
pub open spec fn attack_priority_tenths(k: AttackKind) -> nat {
    match k {
        AttackKind::IntegerOverflow => 7,
        AttackKind::DivisionByZero => 6,
        AttackKind::InfiniteLoop => 5,
        _ => 0,
    }
}

/// Different kinds have different positions.
proof fn lemma_attack_index_injective(a: AttackKind, b: AttackKind)
    requires
        attack_kind_index(a) == attack_kind_index(b),
    ensures
        a == b,
{
}

impl AttackKind {
    /// The kind at position `i` in declaration order.
    pub fn from_index(i: usize) -> (k: AttackKind)
        requires
            i < ATTACK_KINDS,
        ensures
            attack_kind_index(k) == i,
    {
        if i == 0 { AttackKind::IntegerOverflow }
        else if i == 1 { AttackKind::BufferOverflow }
        else if i == 2 { AttackKind::RaceCondition }
        else if i == 3 { AttackKind::DivisionByZero }
        else if i == 4 { AttackKind::NullPointerDeref }
        else if i == 5 { AttackKind::UseAfterFree }
        else if i == 6 { AttackKind::DoubleFree }
        else if i == 7 { AttackKind::UninitializedMemory }
        else if i == 8 { AttackKind::InfiniteLoop }
        else if i == 9 { AttackKind::StackOverflow }
        else if i == 10 { AttackKind::MemoryLeak }
        else if i == 11 { AttackKind::FormatStringInjection }
        else if i == 12 { AttackKind::CommandInjection }
        else if i == 13 { AttackKind::SqlInjection }
        else if i == 14 { AttackKind::PathTraversal }
        else if i == 15 { AttackKind::WeakRandomness }
        else if i == 16 { AttackKind::HardcodedSecrets }
        else if i == 17 { AttackKind::PanicInDrop }
        else if i == 18 { AttackKind::UnusedResult }
        else { AttackKind::Deadlock }
    }

    /// Position of this kind in declaration order.
    pub fn index(&self) -> (i: usize)
        ensures
            i == attack_kind_index(*self),
            i < ATTACK_KINDS,
    {
        match self {
            AttackKind::IntegerOverflow => 0,
            AttackKind::BufferOverflow => 1,
            AttackKind::RaceCondition => 2,
            AttackKind::DivisionByZero => 3,
            AttackKind::NullPointerDeref => 4,
            AttackKind::UseAfterFree => 5,
            AttackKind::DoubleFree => 6,
            AttackKind::UninitializedMemory => 7,
            AttackKind::InfiniteLoop => 8,
            AttackKind::StackOverflow => 9,
            AttackKind::MemoryLeak => 10,
            AttackKind::FormatStringInjection => 11,
            AttackKind::CommandInjection => 12,
            AttackKind::SqlInjection => 13,
            AttackKind::PathTraversal => 14,
            AttackKind::WeakRandomness => 15,
            AttackKind::HardcodedSecrets => 16,
            AttackKind::PanicInDrop => 17,
            AttackKind::UnusedResult => 18,
            AttackKind::Deadlock => 19,
        }
    }

    /// The name of this kind, as `Debug` prints it.
    pub fn label(&self) -> (s: &'static str)
        ensures
            s@ == attack_kind_label(*self),
    {
        match self {
            AttackKind::IntegerOverflow => "IntegerOverflow",
            AttackKind::BufferOverflow => "BufferOverflow",
            AttackKind::RaceCondition => "RaceCondition",
            AttackKind::DivisionByZero => "DivisionByZero",
            AttackKind::NullPointerDeref => "NullPointerDeref",
            AttackKind::UseAfterFree => "UseAfterFree",
            AttackKind::DoubleFree => "DoubleFree",
            AttackKind::UninitializedMemory => "UninitializedMemory",
            AttackKind::InfiniteLoop => "InfiniteLoop",
            AttackKind::StackOverflow => "StackOverflow",
            AttackKind::MemoryLeak => "MemoryLeak",
            AttackKind::FormatStringInjection => "FormatStringInjection",
            AttackKind::CommandInjection => "CommandInjection",
            AttackKind::SqlInjection => "SqlInjection",
            AttackKind::PathTraversal => "PathTraversal",
            AttackKind::WeakRandomness => "WeakRandomness",
            AttackKind::HardcodedSecrets => "HardcodedSecrets",
            AttackKind::PanicInDrop => "PanicInDrop",
            AttackKind::UnusedResult => "UnusedResult",
            AttackKind::Deadlock => "Deadlock",
        }
    }

    /// The priority of an attack of this kind, in tenths.
    pub fn priority_tenths(&self) -> (p: u8)
        ensures
            p == attack_priority_tenths(*self),
    {
        match self {
            AttackKind::IntegerOverflow => 7,
            AttackKind::DivisionByZero => 6,
            AttackKind::InfiniteLoop => 5,
            _ => 0,
        }
    }
}

/// Where an attack applies, as far as it is known.
#[derive(Debug, Clone)]
pub struct AttackMetadata {
    pub function: Option<String>,
    pub line: Option<usize>,
    pub suggested_input: Option<String>,
}

impl Default for AttackMetadata {
    fn default() -> (m: Self)
        ensures
            m.function is None,
            m.line is None,
            m.suggested_input is None,
    {
        AttackMetadata { function: None, line: None, suggested_input: None }
    }
}

/// Totals of one analysis.
#[derive(Debug, Clone)]
pub struct ChaosStats {
    pub attacks_generated: usize,
    pub functions_analyzed: usize,
    pub mutation_points: usize,
}

impl Default for ChaosStats {
    fn default() -> (s: Self)
        ensures
            s.attacks_generated == 0,
            s.functions_analyzed == 0,
            s.mutation_points == 0,
    {
        ChaosStats { attacks_generated: 0, functions_analyzed: 0, mutation_points: 0 }
    }
}

/// Layer three: one fixed vector per attack kind, in declaration order.
pub struct ChaosMutationLayer {
    pub dim: usize,
    pub attack_vectors: Vec<Hypervector>,
}

/// `vs` holds one well-formed vector of dimension `dim` per attack kind.
pub open spec fn attack_vectors_ok(vs: Seq<Hypervector>, dim: usize) -> bool {
    &&& vs.len() == ATTACK_KINDS
    &&& forall|i: int| 0 <= i < vs.len() ==> (#[trigger] vs[i]).dim == dim && vs[i].wf()
}

impl ChaosMutationLayer {
    /// Builds the layer: the vector of each kind is the seeded vector of the
    /// kind's name, so equal dimensions give equal layers.
    pub fn new(dim: usize) -> (layer: Self)
        requires
            dim <= usize::MAX - 63,
        ensures
            layer.dim == dim,
            attack_vectors_ok(layer.attack_vectors@, dim),
            forall|k: AttackKind|
                (#[trigger] layer.attack_vectors@[attack_kind_index(k) as int]).words@
                    == seeded_vector_words(dim as nat, attack_kind_label(k)),
    {
        let mut attack_vectors: Vec<Hypervector> = Vec::new();
        let mut i: usize = 0;
        while i < ATTACK_KINDS
            invariant
                i <= ATTACK_KINDS,
                dim <= usize::MAX - 63,
                attack_vectors@.len() == i,
                forall|j: int| 0 <= j < i ==> (#[trigger] attack_vectors@[j]).dim == dim
                    && attack_vectors@[j].wf(),
                forall|k: AttackKind|
                    attack_kind_index(k) < i ==> (#[trigger] attack_vectors@[attack_kind_index(k) as int]).words@
                        == seeded_vector_words(dim as nat, attack_kind_label(k)),
            decreases ATTACK_KINDS - i,
        {
            let kind = AttackKind::from_index(i);
            let hv = deterministic_vector(dim, kind.label());
            attack_vectors.push(hv);
            proof {
                assert forall|k: AttackKind|
                    attack_kind_index(k) < i + 1 implies (#[trigger] attack_vectors@[attack_kind_index(k) as int]).words@
                        == seeded_vector_words(dim as nat, attack_kind_label(k)) by {
                    if attack_kind_index(k) == i {
                        lemma_attack_index_injective(k, kind);
                    }
                }
            }
            i = i + 1;
        }
        proof {
            assert forall|k: AttackKind| attack_kind_index(k) < ATTACK_KINDS by {
            }
        }
        ChaosMutationLayer { dim, attack_vectors }
    }
}

/// The operator of a binary expression, as far as the analysis tells them apart.
#[derive(Debug, Clone, Copy, PartialEq, Eq, Structural)]
pub enum BinOpShape {
    Add,
    Sub,
    Mul,
    Div,
    Rem,
    Other,
}

/// What the analysis reads of an expression: binary operators, and the
/// statement blocks of `if` (its then-branch), loops and `match` arms.
#[derive(Debug)]
pub enum ExprShape {
    Binary(BinOpShape),
    If(Vec<StmtShape>),
    Loop(Vec<StmtShape>),
    While(Vec<StmtShape>),
    ForLoop(Vec<StmtShape>),
    Match(Vec<ArmShape>),
    Other,
}

/// The body of a `match` arm: a block expression, or anything else.
#[derive(Debug)]
pub enum ArmShape {
    Block(Vec<StmtShape>),
    Other,
}

/// A statement: an expression, a `let` with an optional initializer, or anything else.
#[derive(Debug)]
pub enum StmtShape {
    Expr(ExprShape),
    Local(Option<ExprShape>),
    Other,
}

/// A top-level function: its name and the statements of its body.
#[derive(Debug)]
pub struct FnShape {
    pub name: String,
    pub body: Vec<StmtShape>,
}

/// Points where a mutation could be injected into an expression: each binary
/// expression and each `if` counts one, and blocks nested in `if`, loops and
/// block-bodied `match` arms are searched.
pub open spec fn expr_mutations(e: ExprShape) -> nat
    decreases e,
{
    match e {
        ExprShape::Binary(_) => 1,
        ExprShape::If(then_branch) => 1 + block_mutations(then_branch@),
        ExprShape::Loop(body) => block_mutations(body@),
        ExprShape::While(body) => block_mutations(body@),
        ExprShape::ForLoop(body) => block_mutations(body@),
        ExprShape::Match(arms) => arms_mutations(arms@),
        ExprShape::Other => 0,
    }
}

/// Mutation points of the block-bodied arms of a `match`.
pub open spec fn arms_mutations(arms: Seq<ArmShape>) -> nat
    decreases arms,
{
    if arms.len() == 0 {
        0
    } else {
        arms_mutations(arms.drop_last()) + match arms.last() {
            ArmShape::Block(b) => block_mutations(b@),
            ArmShape::Other => 0,
        }
    }
}

/// Mutation points of a statement.
pub open spec fn stmt_mutations(s: StmtShape) -> nat
    decreases s,
{
    match s {
        StmtShape::Expr(e) => expr_mutations(e),
        StmtShape::Local(Some(e)) => expr_mutations(e),
        _ => 0,
    }
}

/// Mutation points of a block: the sum over its statements.
pub open spec fn block_mutations(b: Seq<StmtShape>) -> nat
    decreases b,
{
    if b.len() == 0 {
        0
    } else {
        block_mutations(b.drop_last()) + stmt_mutations(b.last())
    }
}

proof fn lemma_block_prefix(b: Seq<StmtShape>, i: int)
    requires
        0 <= i <= b.len(),
    ensures
        block_mutations(b.take(i)) <= block_mutations(b),
    decreases b.len() - i,
{
    if i < b.len() {
        lemma_block_prefix(b.drop_last(), i);
        assert(b.drop_last().take(i) =~= b.take(i));
    } else {
        assert(b.take(i) =~= b);
    }
}

proof fn lemma_arms_prefix(a: Seq<ArmShape>, i: int)
    requires
        0 <= i <= a.len(),
    ensures
        arms_mutations(a.take(i)) <= arms_mutations(a),
    decreases a.len() - i,
{
    if i < a.len() {
        lemma_arms_prefix(a.drop_last(), i);
        assert(a.drop_last().take(i) =~= a.take(i));
    } else {
        assert(a.take(i) =~= a);
    }
}

fn count_mutation_in_expr(e: &ExprShape) -> (n: usize)
    requires
        expr_mutations(*e) <= usize::MAX,
    ensures
        n == expr_mutations(*e),
    decreases e,
{
    match e {
        ExprShape::Binary(_) => 1,
        ExprShape::If(then_branch) => 1 + count_mutation_in_block(then_branch),
        ExprShape::Loop(body) => count_mutation_in_block(body),
        ExprShape::While(body) => count_mutation_in_block(body),
        ExprShape::ForLoop(body) => count_mutation_in_block(body),
        ExprShape::Match(arms) => count_mutation_in_arms(arms),
        ExprShape::Other => 0,
    }
}

fn count_mutation_in_arms(arms: &Vec<ArmShape>) -> (n: usize)
    requires
        arms_mutations(arms@) <= usize::MAX,
    ensures
        n == arms_mutations(arms@),
    decreases arms,
{
    let mut n: usize = 0;
    let mut i: usize = 0;
    while i < arms.len()
        invariant
            i <= arms@.len(),
            arms_mutations(arms@) <= usize::MAX,
            n == arms_mutations(arms@.take(i as int)),
        decreases arms@.len() - i,
    {
        assert(arms@.take(i + 1).drop_last() =~= arms@.take(i as int));
        proof {
            lemma_arms_prefix(arms@, i + 1);
        }
        let add = match &arms[i] {
            ArmShape::Block(b) => count_mutation_in_block(b),
            ArmShape::Other => 0,
        };
        n = n + add;
        i = i + 1;
    }
    assert(arms@.take(arms@.len() as int) =~= arms@);
    n
}

fn count_mutation_in_stmt(s: &StmtShape) -> (n: usize)
    requires
        stmt_mutations(*s) <= usize::MAX,
    ensures
        n == stmt_mutations(*s),
    decreases s,
{
    match s {
        StmtShape::Expr(e) => count_mutation_in_expr(e),
        StmtShape::Local(Some(e)) => count_mutation_in_expr(e),
        _ => 0,
    }
}

fn count_mutation_in_block(b: &Vec<StmtShape>) -> (n: usize)
    requires
        block_mutations(b@) <= usize::MAX,
    ensures
        n == block_mutations(b@),
    decreases b,
{
    let mut n: usize = 0;
    let mut i: usize = 0;
    while i < b.len()
        invariant
            i <= b@.len(),
            block_mutations(b@) <= usize::MAX,
            n == block_mutations(b@.take(i as int)),
        decreases b@.len() - i,
    {
        assert(b@.take(i + 1).drop_last() =~= b@.take(i as int));
        proof {
            lemma_block_prefix(b@, i + 1);
        }
        let add = count_mutation_in_stmt(&b[i]);
        n = n + add;
        i = i + 1;
    }
    assert(b@.take(b@.len() as int) =~= b@);
    n
}

/// `x` as a `usize`, when it fits.
pub open spec fn fitting(x: nat) -> Option<usize> {
    if x <= usize::MAX { Some(x as usize) } else { None }
}

fn add_fitting(a: Option<usize>, b: Option<usize>, Ghost(x): Ghost<nat>, Ghost(y): Ghost<nat>) -> (r: Option<usize>)
    requires
        a == fitting(x),
        b == fitting(y),
    ensures
        r == fitting(x + y),
{
    match (a, b) {
        (Some(x), Some(y)) => x.checked_add(y),
        _ => None,
    }
}

fn counted_expr(e: &ExprShape) -> (n: Option<usize>)
    ensures
        n == fitting(expr_mutations(*e)),
    decreases e,
{
    match e {
        ExprShape::Binary(_) => Some(1),
        ExprShape::If(then_branch) => add_fitting(Some(1), counted_block(then_branch), Ghost(1nat), Ghost(block_mutations(then_branch@))),
        ExprShape::Loop(body) => counted_block(body),
        ExprShape::While(body) => counted_block(body),
        ExprShape::ForLoop(body) => counted_block(body),
        ExprShape::Match(arms) => counted_arms(arms),
        ExprShape::Other => Some(0),
    }
}

fn counted_arms(arms: &Vec<ArmShape>) -> (n: Option<usize>)
    ensures
        n == fitting(arms_mutations(arms@)),
    decreases arms,
{
    let mut n: Option<usize> = Some(0);
    let mut i: usize = 0;
    assert(arms@.take(0) =~= Seq::<ArmShape>::empty());
    while i < arms.len()
        invariant
            i <= arms@.len(),
            n == fitting(arms_mutations(arms@.take(i as int))),
        decreases arms@.len() - i,
    {
        assert(arms@.take(i + 1).drop_last() =~= arms@.take(i as int));
        let add = match &arms[i] {
            ArmShape::Block(b) => counted_block(b),
            ArmShape::Other => Some(0),
        };
        let ghost y: nat = match arms@[i as int] {
            ArmShape::Block(b) => block_mutations(b@),
            ArmShape::Other => 0,
        };
        n = add_fitting(n, add, Ghost(arms_mutations(arms@.take(i as int))), Ghost(y));
        i = i + 1;
    }
    assert(arms@.take(arms@.len() as int) =~= arms@);
    n
}

fn counted_stmt(s: &StmtShape) -> (n: Option<usize>)
    ensures
        n == fitting(stmt_mutations(*s)),
    decreases s,
{
    match s {
        StmtShape::Expr(e) => counted_expr(e),
        StmtShape::Local(Some(e)) => counted_expr(e),
        _ => Some(0),
    }
}

fn counted_block(b: &Vec<StmtShape>) -> (n: Option<usize>)
    ensures
        n == fitting(block_mutations(b@)),
    decreases b,
{
    let mut n: Option<usize> = Some(0);
    let mut i: usize = 0;
    assert(b@.take(0) =~= Seq::<StmtShape>::empty());
    while i < b.len()
        invariant
            i <= b@.len(),
            n == fitting(block_mutations(b@.take(i as int))),
        decreases b@.len() - i,
    {
        assert(b@.take(i + 1).drop_last() =~= b@.take(i as int));
        let add = counted_stmt(&b[i]);
        n = add_fitting(n, add, Ghost(block_mutations(b@.take(i as int))), Ghost(stmt_mutations(b@[i as int])));
        i = i + 1;
    }
    assert(b@.take(b@.len() as int) =~= b@);
    n
}

/// Whether the mutation points of `fns` can be counted in a `usize`, as
/// `analyze` counts them.
pub fn mutations_fit(fns: &Vec<FnShape>) -> (b: bool)
    ensures
        b == (total_mutations(fns@) <= usize::MAX),
{
    let mut n: Option<usize> = Some(0);
    let mut i: usize = 0;
    assert(fns@.take(0) =~= Seq::<FnShape>::empty());
    while i < fns.len()
        invariant
            i <= fns@.len(),
            n == fitting(total_mutations(fns@.take(i as int))),
        decreases fns@.len() - i,
    {
        assert(fns@.take(i + 1).drop_last() =~= fns@.take(i as int));
        let add = counted_block(&fns[i].body);
        n = add_fitting(n, add, Ghost(total_mutations(fns@.take(i as int))), Ghost(block_mutations(fns@[i as int].body@)));
        i = i + 1;
    }
    assert(fns@.take(fns@.len() as int) =~= fns@);
    n.is_some()
}

/// A statement of a function body that is an integer operation (`+ - * %`),
/// alone or as a `let` initializer.
pub open spec fn stmt_int_op(s: StmtShape) -> bool {
    match s {
        StmtShape::Expr(ExprShape::Binary(op)) => is_int_op(op),
        StmtShape::Local(Some(ExprShape::Binary(op))) => is_int_op(op),
        _ => false,
    }
}

pub open spec fn is_int_op(op: BinOpShape) -> bool {
    op == BinOpShape::Add || op == BinOpShape::Sub || op == BinOpShape::Mul || op == BinOpShape::Rem
}

/// A statement of a function body that is a division, alone or as a `let` initializer.
pub open spec fn stmt_division(s: StmtShape) -> bool {
    match s {
        StmtShape::Expr(ExprShape::Binary(op)) => op == BinOpShape::Div,
        StmtShape::Local(Some(ExprShape::Binary(op))) => op == BinOpShape::Div,
        _ => false,
    }
}

/// A statement of a function body that is a loop expression.
pub open spec fn stmt_loop(s: StmtShape) -> bool {
    match s {
        StmtShape::Expr(ExprShape::Loop(_)) => true,
        StmtShape::Expr(ExprShape::While(_)) => true,
        StmtShape::Expr(ExprShape::ForLoop(_)) => true,
        _ => false,
    }
}

/// The function invites an attack of kind `k`: integer overflow when a
/// top-level statement of its body is an integer operation, division by zero
/// when one is a division, an unbounded loop when one is a loop.
pub open spec fn attacked(f: FnShape, k: AttackKind) -> bool {
    match k {
        AttackKind::IntegerOverflow => exists|i: int| 0 <= i < f.body@.len() && #[trigger] stmt_int_op(f.body@[i]),
        AttackKind::DivisionByZero => exists|i: int| 0 <= i < f.body@.len() && #[trigger] stmt_division(f.body@[i]),
        AttackKind::InfiniteLoop => exists|i: int| 0 <= i < f.body@.len() && #[trigger] stmt_loop(f.body@[i]),
        _ => false,
    }
}

/// An addition, subtraction, multiplication or remainder that is a
/// top-level statement of a function's body, alone or as a `let`
/// initializer, makes the function a target of an integer-overflow attack;
/// a division alone does not count as one.
pub proof fn law_arithmetic_invites_overflow(f: FnShape, i: int, op: BinOpShape)
    requires
        0 <= i < f.body@.len(),
        op == BinOpShape::Add || op == BinOpShape::Sub || op == BinOpShape::Mul || op == BinOpShape::Rem,
        f.body@[i] == StmtShape::Expr(ExprShape::Binary(op)) || f.body@[i] == StmtShape::Local(
            Some(ExprShape::Binary(op)),
        ),
    ensures
        attacked(f, AttackKind::IntegerOverflow),
        !stmt_int_op(StmtShape::Expr(ExprShape::Binary(BinOpShape::Div))),
{
    assert(stmt_int_op(f.body@[i]));
}

/// A division that is a top-level statement of a function's body, alone or
/// as a `let` initializer, makes the function a target of a division-by-zero
/// attack; a `loop`, `while` or `for` statement makes it a target of an
/// unbounded-loop attack.
pub proof fn law_division_and_loops_invite_attacks(f: FnShape, i: int, body: Vec<StmtShape>)
    requires
        0 <= i < f.body@.len(),
    ensures
        (f.body@[i] == StmtShape::Expr(ExprShape::Binary(BinOpShape::Div)) || f.body@[i] == StmtShape::Local(
            Some(ExprShape::Binary(BinOpShape::Div)),
        )) ==> attacked(f, AttackKind::DivisionByZero),
        (f.body@[i] == StmtShape::Expr(ExprShape::Loop(body)) || f.body@[i] == StmtShape::Expr(
            ExprShape::While(body),
        ) || f.body@[i] == StmtShape::Expr(ExprShape::ForLoop(body))) ==> attacked(f, AttackKind::InfiniteLoop),
{
    if stmt_division(f.body@[i]) {
        assert(attacked(f, AttackKind::DivisionByZero));
    }
    if stmt_loop(f.body@[i]) {
        assert(attacked(f, AttackKind::InfiniteLoop));
    }
}

/// The description of an attack of kind `k` on function `name`.
pub open spec fn attack_description(k: AttackKind, name: Seq<char>) -> Seq<char> {
    match k {
        AttackKind::IntegerOverflow => "Function "@ + name + " has integer operations at risk"@,
        AttackKind::DivisionByZero => "Function "@ + name + " has unchecked division"@,
        _ => "Function "@ + name + " may have unbounded loops"@,
    }
}

/// Positions of the functions that invite kind `k`, in order.
pub open spec fn targets(fns: Seq<FnShape>, k: AttackKind) -> Seq<int>
    decreases fns.len(),
{
    if fns.len() == 0 {
        Seq::empty()
    } else {
        targets(fns.drop_last(), k) + if attacked(fns.last(), k) {
            seq![fns.len() - 1]
        } else {
            Seq::empty()
        }
    }
}

/// The planned attacks as (kind, function position), by descending priority:
/// all overflow attacks, then division attacks, then loop attacks, each group
/// in function order.
pub open spec fn attack_plan(fns: Seq<FnShape>) -> Seq<(AttackKind, int)> {
    targets(fns, AttackKind::IntegerOverflow).map_values(|i: int| (AttackKind::IntegerOverflow, i))
        + targets(fns, AttackKind::DivisionByZero).map_values(|i: int| (AttackKind::DivisionByZero, i))
        + targets(fns, AttackKind::InfiniteLoop).map_values(|i: int| (AttackKind::InfiniteLoop, i))
}

/// Mutation points of all functions.
pub open spec fn total_mutations(fns: Seq<FnShape>) -> nat
    decreases fns.len(),
{
    if fns.len() == 0 {
        0
    } else {
        total_mutations(fns.drop_last()) + block_mutations(fns.last().body@)
    }
}

/// A planned attack on one function; its priority is given in tenths.
#[derive(Debug, Clone)]
pub struct ChaosAttack {
    pub kind: AttackKind,
    pub vector: Hypervector,
    pub description: String,
    pub priority_tenths: u8,
    pub metadata: AttackMetadata,
}

/// The planned attacks, by descending priority, and the totals.
#[derive(Debug, Clone)]
pub struct ChaosAnalysis {
    pub attack_vectors: Vec<ChaosAttack>,
    pub stats: ChaosStats,
}

/// `a` is the attack of kind `k` on function `f`, carrying `vector`.
pub open spec fn is_attack_on(a: ChaosAttack, k: AttackKind, f: FnShape, vector: Hypervector) -> bool {
    &&& a.kind == k
    &&& a.vector@ == vector@
    &&& a.description@ == attack_description(k, f.name@)
    &&& a.priority_tenths == attack_priority_tenths(k)
    &&& a.metadata.function matches Some(name) && name@ == f.name@
    &&& a.metadata.line is None
    &&& a.metadata.suggested_input is None
}

fn has_int_op(body: &Vec<StmtShape>) -> (r: bool)
    ensures
        r == exists|i: int| 0 <= i < body@.len() && #[trigger] stmt_int_op(body@[i]),
{
    let mut i: usize = 0;
    while i < body.len()
        invariant
            i <= body@.len(),
            forall|j: int| 0 <= j < i ==> !#[trigger] stmt_int_op(body@[j]),
        decreases body@.len() - i,
    {
        let hit = match &body[i] {
            StmtShape::Expr(ExprShape::Binary(op)) => int_op(op),
            StmtShape::Local(Some(ExprShape::Binary(op))) => int_op(op),
            _ => false,
        };
        if hit {
            assert(stmt_int_op(body@[i as int]));
            return true;
        }
        i = i + 1;
    }
    false
}

fn has_division(body: &Vec<StmtShape>) -> (r: bool)
    ensures
        r == exists|i: int| 0 <= i < body@.len() && #[trigger] stmt_division(body@[i]),
{
    let mut i: usize = 0;
    while i < body.len()
        invariant
            i <= body@.len(),
            forall|j: int| 0 <= j < i ==> !#[trigger] stmt_division(body@[j]),
        decreases body@.len() - i,
    {
        let hit = match &body[i] {
            StmtShape::Expr(ExprShape::Binary(BinOpShape::Div)) => true,
            StmtShape::Local(Some(ExprShape::Binary(BinOpShape::Div))) => true,
            _ => false,
        };
        if hit {
            assert(stmt_division(body@[i as int]));
            return true;
        }
        i = i + 1;
    }
    false
}

fn has_loop(body: &Vec<StmtShape>) -> (r: bool)
    ensures
        r == exists|i: int| 0 <= i < body@.len() && #[trigger] stmt_loop(body@[i]),
{
    let mut i: usize = 0;
    while i < body.len()
        invariant
            i <= body@.len(),
            forall|j: int| 0 <= j < i ==> !#[trigger] stmt_loop(body@[j]),
        decreases body@.len() - i,
    {
        let hit = match &body[i] {
            StmtShape::Expr(ExprShape::Loop(_)) => true,
            StmtShape::Expr(ExprShape::While(_)) => true,
            StmtShape::Expr(ExprShape::ForLoop(_)) => true,
            _ => false,
        };
        if hit {
            assert(stmt_loop(body@[i as int]));
            return true;
        }
        i = i + 1;
    }
    false
}

fn int_op(op: &BinOpShape) -> (r: bool)
    ensures
        r == is_int_op(*op),
{
    match op {
        BinOpShape::Add | BinOpShape::Sub | BinOpShape::Mul | BinOpShape::Rem => true,
        _ => false,
    }
}

proof fn lemma_total_prefix(fns: Seq<FnShape>, i: int)
    requires
        0 <= i <= fns.len(),
    ensures
        total_mutations(fns.take(i)) <= total_mutations(fns),
    decreases fns.len() - i,
{
    if i < fns.len() {
        lemma_total_prefix(fns.drop_last(), i);
        assert(fns.drop_last().take(i) =~= fns.take(i));
    } else {
        assert(fns.take(i) =~= fns);
    }
}

proof fn lemma_targets_bound(fns: Seq<FnShape>, k: AttackKind)
    ensures
        targets(fns, k).len() <= fns.len(),
        forall|j: int| 0 <= j < targets(fns, k).len() ==> 0 <= #[trigger] targets(fns, k)[j] < fns.len(),
    decreases fns.len(),
{
    if fns.len() > 0 {
        lemma_targets_bound(fns.drop_last(), k);
    }
}

/// `r` is what `analyze` reports for `fns` with the layer `layer`: the
/// functions and mutation points counted, and the planned attacks in order.
pub open spec fn is_chaos_analysis(layer: ChaosMutationLayer, fns: Seq<FnShape>, r: ChaosAnalysis) -> bool {
    &&& r.stats.functions_analyzed == fns.len()
    &&& r.stats.attacks_generated == attack_plan(fns).len()
    &&& r.stats.mutation_points == total_mutations(fns)
    &&& r.attack_vectors@.len() == attack_plan(fns).len()
    &&& forall|p: int|
        0 <= p < r.attack_vectors@.len() ==> is_attack_on(
            #[trigger] r.attack_vectors@[p],
            attack_plan(fns)[p].0,
            fns[attack_plan(fns)[p].1],
            layer.attack_vectors@[attack_kind_index(attack_plan(fns)[p].0) as int],
        )
}

impl ChaosMutationLayer {
    fn create_attack(&self, kind: AttackKind, f: &FnShape) -> (a: ChaosAttack)
        requires
            attack_vectors_ok(self.attack_vectors@, self.dim),
            kind == AttackKind::IntegerOverflow || kind == AttackKind::DivisionByZero || kind
                == AttackKind::InfiniteLoop,
        ensures
            is_attack_on(a, kind, *f, self.attack_vectors@[attack_kind_index(kind) as int]),
    {
        let mut description = String::from_str("Function ");
        description.append(f.name.as_str());
        match kind {
            AttackKind::IntegerOverflow => description.append(" has integer operations at risk"),
            AttackKind::DivisionByZero => description.append(" has unchecked division"),
            _ => description.append(" may have unbounded loops"),
        }
        let mut metadata = AttackMetadata::default();
        metadata.function = Some(f.name.clone());
        ChaosAttack {
            kind,
            vector: self.attack_vectors[kind.index()].clone(),
            description,
            priority_tenths: kind.priority_tenths(),
            metadata,
        }
    }

    /// Plans the attacks on the top-level functions `fns` and counts their
    /// mutation points.
    pub fn analyze(&self, fns: &Vec<FnShape>) -> (r: ChaosAnalysis)
        requires
            attack_vectors_ok(self.attack_vectors@, self.dim),
            total_mutations(fns@) <= usize::MAX,
        ensures
            r.stats.functions_analyzed == fns@.len(),
            r.stats.attacks_generated == attack_plan(fns@).len(),
            r.stats.mutation_points == total_mutations(fns@),
            r.attack_vectors@.len() == attack_plan(fns@).len(),
            forall|p: int|
                0 <= p < r.attack_vectors@.len() ==> is_attack_on(
                    #[trigger] r.attack_vectors@[p],
                    attack_plan(fns@)[p].0,
                    fns@[attack_plan(fns@)[p].1],
                    self.attack_vectors@[attack_kind_index(attack_plan(fns@)[p].0) as int],
                ),
            is_chaos_analysis(*self, fns@, r),
    {
        let ghost ko = AttackKind::IntegerOverflow;
        let ghost kd = AttackKind::DivisionByZero;
        let ghost kl = AttackKind::InfiniteLoop;
        let mut overflow: Vec<ChaosAttack> = Vec::new();
        let mut division: Vec<ChaosAttack> = Vec::new();
        let mut looping: Vec<ChaosAttack> = Vec::new();
        let mut points: usize = 0;
        let mut i: usize = 0;
        while i < fns.len()
            invariant
                i <= fns@.len(),
                ko == AttackKind::IntegerOverflow,
                kd == AttackKind::DivisionByZero,
                kl == AttackKind::InfiniteLoop,
                attack_vectors_ok(self.attack_vectors@, self.dim),
                total_mutations(fns@) <= usize::MAX,
                points == total_mutations(fns@.take(i as int)),
                overflow@.len() == targets(fns@.take(i as int), ko).len(),
                division@.len() == targets(fns@.take(i as int), kd).len(),
                looping@.len() == targets(fns@.take(i as int), kl).len(),
                forall|p: int| 0 <= p < overflow@.len() ==> is_attack_on(#[trigger] overflow@[p], ko,
                    fns@[targets(fns@.take(i as int), ko)[p]], self.attack_vectors@[0]),
                forall|p: int| 0 <= p < division@.len() ==> is_attack_on(#[trigger] division@[p], kd,
                    fns@[targets(fns@.take(i as int), kd)[p]], self.attack_vectors@[3]),
                forall|p: int| 0 <= p < looping@.len() ==> is_attack_on(#[trigger] looping@[p], kl,
                    fns@[targets(fns@.take(i as int), kl)[p]], self.attack_vectors@[8]),
            decreases fns@.len() - i,
        {
            let ghost pre = fns@.take(i as int);
            let ghost post = fns@.take(i + 1);
            assert(post.drop_last() =~= pre);
            assert(post.last() == fns@[i as int]);
            proof {
                lemma_total_prefix(fns@, i + 1);
                lemma_targets_bound(pre, ko);
                lemma_targets_bound(pre, kd);
                lemma_targets_bound(pre, kl);
            }
            let f = &fns[i];
            let add = count_mutation_in_block(&f.body);
            points = points + add;
            let ho = has_int_op(&f.body);
            let hd = has_division(&f.body);
            let hl = has_loop(&f.body);
            assert(*f == fns@[i as int]);
            assert(f.body@ == fns@[i as int].body@);
            assert(ho == attacked(fns@[i as int], ko));
            assert(hd == attacked(fns@[i as int], kd));
            assert(hl == attacked(fns@[i as int], kl));
            assert(targets(post, ko) == targets(pre, ko) + if ho { seq![i as int] } else { Seq::<int>::empty() });
            assert(targets(post, kd) == targets(pre, kd) + if hd { seq![i as int] } else { Seq::<int>::empty() });
            assert(targets(post, kl) == targets(pre, kl) + if hl { seq![i as int] } else { Seq::<int>::empty() });
            if ho {
                overflow.push(self.create_attack(AttackKind::IntegerOverflow, f));
            }
            if hd {
                division.push(self.create_attack(AttackKind::DivisionByZero, f));
            }
            if hl {
                looping.push(self.create_attack(AttackKind::InfiniteLoop, f));
            }
            i = i + 1;
        }
        assert(fns@.take(fns@.len() as int) =~= fns@);
        let ghost plan = attack_plan(fns@);
        let no = overflow.len();
        let nd = division.len();
        let nl = looping.len();
        proof {
            lemma_targets_bound(fns@, ko);
            lemma_targets_bound(fns@, kd);
            lemma_targets_bound(fns@, kl);
        }
        let mut attacks: Vec<ChaosAttack> = Vec::new();
        attacks.append(&mut overflow);
        attacks.append(&mut division);
        attacks.append(&mut looping);
        assert forall|p: int| 0 <= p < attacks@.len() implies is_attack_on(
            #[trigger] attacks@[p],
            plan[p].0,
            fns@[plan[p].1],
            self.attack_vectors@[attack_kind_index(plan[p].0) as int],
        ) by {
            if p < no {
            } else if p < no + nd {
            } else {
            }
        }
        let total = attacks.len();
        ChaosAnalysis {
            attack_vectors: attacks,
            stats: ChaosStats { attacks_generated: total, functions_analyzed: fns.len(), mutation_points: points },
        }
    }
}

/// The planned attacks come by priority, highest first: no attack is
/// followed by one of higher priority.
pub proof fn law_attacks_by_priority(fns: Seq<FnShape>, p: int, q: int)
    requires
        0 <= p < q < attack_plan(fns).len(),
    ensures
        attack_priority_tenths(attack_plan(fns)[p].0) >= attack_priority_tenths(attack_plan(fns)[q].0),
{
    let o = targets(fns, AttackKind::IntegerOverflow).map_values(|i: int| (AttackKind::IntegerOverflow, i));
    let d = targets(fns, AttackKind::DivisionByZero).map_values(|i: int| (AttackKind::DivisionByZero, i));
    let l = targets(fns, AttackKind::InfiniteLoop).map_values(|i: int| (AttackKind::InfiniteLoop, i));
    let plan = attack_plan(fns);
    assert(plan == o + d + l);
    let kind_at = |x: int|
        if x < o.len() {
            AttackKind::IntegerOverflow
        } else if x < o.len() + d.len() {
            AttackKind::DivisionByZero
        } else {
            AttackKind::InfiniteLoop
        };
    assert(plan[p].0 == kind_at(p));
    assert(plan[q].0 == kind_at(q));
}

} // verus!
