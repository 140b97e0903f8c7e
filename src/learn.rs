use crate::syntax::{arc_content, precedes, Idx, SyntaxTree};
use crate::trace::Sample;
use rayon::prelude::{IndexedParallelIterator, IntoParallelRefIterator};
use std::sync::Arc;
use vstd::prelude::*;

verus! {

// The pruning rules. Each rejects a formula built from already kept sub-formulas on the
// ground that an equivalent formula of the same size or smaller is enumerated elsewhere.
// On finite traces not all of them keep the meaning: `X` commutes with `¬`, `G` and `F`
// only away from the end of a trace (`X ¬φ` fails on the empty trace, `¬X φ` holds
// there), `φ ∧ ¬φ` and `φ → φ` have no kept equivalent, and `φ U φ` differs from `φ` on
// the empty suffix. The module `equivalence` proves the equivalences of the rules that
// do hold.

/// `a` is `¬b`.
pub open spec fn negates(a: SyntaxTree, b: SyntaxTree) -> bool {
    match a {
        SyntaxTree::Not(c) => *c == b,
        _ => false,
    }
}

/// `a` is `X(G(x))`.
pub open spec fn next_globally_of(a: SyntaxTree, x: SyntaxTree) -> bool {
    match a {
        SyntaxTree::Next(c) => match *c {
            SyntaxTree::Globally(d) => *d == x,
            _ => false,
        },
        _ => false,
    }
}

/// `a` is `X(F(x))`.
pub open spec fn next_finally_of(a: SyntaxTree, x: SyntaxTree) -> bool {
    match a {
        SyntaxTree::Next(c) => match *c {
            SyntaxTree::Finally(d) => *d == x,
            _ => false,
        },
        _ => false,
    }
}

/// `a` is `X(phi U psi)`.
pub open spec fn next_until_of(a: SyntaxTree, phi: SyntaxTree, psi: SyntaxTree) -> bool {
    match a {
        SyntaxTree::Next(c) => match *c {
            SyntaxTree::Until(d, e) => *d == phi && *e == psi,
            _ => false,
        },
        _ => false,
    }
}

/// `a` is `phi ∧ X(phi U psi)` or `X(phi U psi) ∧ phi` for some `phi`: one unfolding of
/// `phi U psi` without its `psi ∨` part.
pub open spec fn unfolds_until(a: SyntaxTree, psi: SyntaxTree) -> bool {
    match a {
        SyntaxTree::And(l, r) => next_until_of(*r, *l, psi) || next_until_of(*l, *r, psi),
        _ => false,
    }
}

/// `a` is a binary node of the same kind as `b` and one of the operands of `a` is one of `b`.
pub open spec fn share_operand(a: SyntaxTree, b: SyntaxTree) -> bool {
    match (a, b) {
        (SyntaxTree::And(a0, a1), SyntaxTree::And(b0, b1)) | (SyntaxTree::Or(a0, a1), SyntaxTree::Or(b0, b1)) =>
            a0 == b0 || a0 == b1 || a1 == b0 || a1 == b1,
        _ => false,
    }
}

/// `x` is an operand of the binary node `a`.
pub open spec fn operand_of(x: SyntaxTree, a: SyntaxTree) -> bool {
    match a {
        SyntaxTree::And(l, r) | SyntaxTree::Or(l, r) | SyntaxTree::Implies(l, r)
        | SyntaxTree::Until(l, r) => *l == x || *r == x,
        _ => false,
    }
}

/// Both are implications, with the same premise or the same conclusion.
pub open spec fn implies_share_side(a: SyntaxTree, b: SyntaxTree) -> bool {
    match (a, b) {
        (SyntaxTree::Implies(a0, a1), SyntaxTree::Implies(b0, b1)) => a0 == b0 || a1 == b1,
        _ => false,
    }
}

/// Both are until formulas with the same right-hand side.
pub open spec fn untils_share_right(a: SyntaxTree, b: SyntaxTree) -> bool {
    match (a, b) {
        (SyntaxTree::Until(_, a1), SyntaxTree::Until(_, b1)) => a1 == b1,
        _ => false,
    }
}

/// Both are until formulas with the same left-hand side.
pub open spec fn untils_share_left(a: SyntaxTree, b: SyntaxTree) -> bool {
    match (a, b) {
        (SyntaxTree::Until(a0, _), SyntaxTree::Until(b0, _)) => a0 == b0,
        _ => false,
    }
}

/// `¬c` is kept.
pub open spec fn not_kept(c: SyntaxTree) -> bool {
    match c {
        // ¬¬φ ≡ φ, ¬(φ → ψ) ≡ φ ∧ ¬ψ, ¬Fφ ≡ G¬φ
        SyntaxTree::Not(_) | SyntaxTree::Implies(_, _) | SyntaxTree::Finally(_) => false,
        // De Morgan
        SyntaxTree::And(l, r) | SyntaxTree::Or(l, r) => !(*l is Not) && !(*r is Not),
        _ => true,
    }
}

/// `X c` is kept: `c` is not a negation, a `G` or an `F` (X is taken to commute with them).
pub open spec fn next_kept(c: SyntaxTree) -> bool {
    !(c is Not) && !(c is Globally) && !(c is Finally)
}

/// `G c` is kept: GGφ ≡ Gφ.
pub open spec fn globally_kept(c: SyntaxTree) -> bool {
    !(c is Globally)
}

/// `F c` is kept: FFφ ≡ Fφ.
pub open spec fn finally_kept(c: SyntaxTree) -> bool {
    !(c is Finally)
}

/// `l ∧ r` is kept.
pub open spec fn and_kept(l: SyntaxTree, r: SyntaxTree) -> bool {
    &&& precedes(l, r)
    &&& !(l is And)
    &&& !negates(r, l) && !negates(l, r)
    &&& !(l is Not && r is Not)
    &&& !(l is Next && r is Next)
    &&& !(l is Globally && r is Globally)
    &&& !implies_share_side(l, r)
    &&& !untils_share_right(l, r)
    &&& !(l is Or && operand_of(r, l))
    &&& !(r is Or && operand_of(l, r))
    &&& !share_operand(l, r)
    &&& !next_globally_of(r, l) && !next_globally_of(l, r)
}

/// `l ∨ r` is kept.
pub open spec fn or_kept(l: SyntaxTree, r: SyntaxTree) -> bool {
    &&& precedes(l, r)
    &&& !(l is Or)
    &&& !negates(r, l) && !negates(l, r)
    &&& !(l is Not)
    &&& !(l is Next && r is Next)
    &&& !(l is Finally && r is Finally)
    &&& !implies_share_side(l, r)
    &&& !untils_share_left(l, r)
    &&& !(l is And && operand_of(r, l))
    &&& !(r is And && operand_of(l, r))
    &&& !share_operand(l, r)
    &&& !next_finally_of(r, l) && !next_finally_of(l, r)
    &&& !unfolds_until(r, l) && !unfolds_until(l, r)
}

/// `l → r` is kept.
pub open spec fn implies_kept(l: SyntaxTree, r: SyntaxTree) -> bool {
    &&& l != r
    &&& !(l is Not)
    &&& !(r is Not)
    &&& !(r is Implies)
}

/// `l U r` is kept.
pub open spec fn until_kept(l: SyntaxTree, r: SyntaxTree) -> bool {
    &&& l != r
    &&& !(l is Next && r is Next)
    &&& !(match r {
        SyntaxTree::Until(c, _) => *c == l,
        _ => false,
    })
}

/// A canonical formula: its atoms are among `vars` and every node of it is kept by the
/// pruning rules.
pub open spec fn canonical(f: SyntaxTree, vars: Seq<Idx>) -> bool
    decreases f,
{
    match f {
        SyntaxTree::Atom(v) => vars.contains(v),
        SyntaxTree::Not(c) => canonical(*c, vars) && not_kept(*c),
        SyntaxTree::Next(c) => canonical(*c, vars) && next_kept(*c),
        SyntaxTree::Globally(c) => canonical(*c, vars) && globally_kept(*c),
        SyntaxTree::Finally(c) => canonical(*c, vars) && finally_kept(*c),
        SyntaxTree::And(l, r) => canonical(*l, vars) && canonical(*r, vars) && and_kept(*l, *r),
        SyntaxTree::Or(l, r) => canonical(*l, vars) && canonical(*r, vars) && or_kept(*l, *r),
        SyntaxTree::Implies(l, r) => canonical(*l, vars) && canonical(*r, vars) && implies_kept(*l, *r),
        SyntaxTree::Until(l, r) => canonical(*l, vars) && canonical(*r, vars) && until_kept(*l, *r),
    }
}

fn is_negation_of(a: &SyntaxTree, b: &SyntaxTree) -> (r: bool)
    ensures
        r == negates(*a, *b),
{
    match a {
        SyntaxTree::Not(c) => c.same(b),
        _ => false,
    }
}

fn is_next_globally_of(a: &SyntaxTree, x: &SyntaxTree) -> (r: bool)
    ensures
        r == next_globally_of(*a, *x),
{
    match a {
        SyntaxTree::Next(c) => match &**c {
            SyntaxTree::Globally(d) => d.same(x),
            _ => false,
        },
        _ => false,
    }
}

fn is_next_finally_of(a: &SyntaxTree, x: &SyntaxTree) -> (r: bool)
    ensures
        r == next_finally_of(*a, *x),
{
    match a {
        SyntaxTree::Next(c) => match &**c {
            SyntaxTree::Finally(d) => d.same(x),
            _ => false,
        },
        _ => false,
    }
}

fn is_next_until_of(a: &SyntaxTree, phi: &SyntaxTree, psi: &SyntaxTree) -> (r: bool)
    ensures
        r == next_until_of(*a, *phi, *psi),
{
    match a {
        SyntaxTree::Next(c) => match &**c {
            SyntaxTree::Until(d, e) => d.same(phi) && e.same(psi),
            _ => false,
        },
        _ => false,
    }
}

fn is_until_unfolding(a: &SyntaxTree, psi: &SyntaxTree) -> (r: bool)
    ensures
        r == unfolds_until(*a, *psi),
{
    match a {
        SyntaxTree::And(l, r) => is_next_until_of(r, l, psi) || is_next_until_of(l, r, psi),
        _ => false,
    }
}

fn shares_operand(a: &SyntaxTree, b: &SyntaxTree) -> (r: bool)
    ensures
        r == share_operand(*a, *b),
{
    match (a, b) {
        (SyntaxTree::And(a0, a1), SyntaxTree::And(b0, b1)) | (SyntaxTree::Or(a0, a1), SyntaxTree::Or(b0, b1)) =>
            a0.same(b0) || a0.same(b1) || a1.same(b0) || a1.same(b1),
        _ => false,
    }
}

fn is_operand_of(x: &SyntaxTree, a: &SyntaxTree) -> (r: bool)
    ensures
        r == operand_of(*x, *a),
{
    match a {
        SyntaxTree::And(l, r) | SyntaxTree::Or(l, r) | SyntaxTree::Implies(l, r)
        | SyntaxTree::Until(l, r) => l.same(x) || r.same(x),
        _ => false,
    }
}

fn implications_share_side(a: &SyntaxTree, b: &SyntaxTree) -> (r: bool)
    ensures
        r == implies_share_side(*a, *b),
{
    match (a, b) {
        (SyntaxTree::Implies(a0, a1), SyntaxTree::Implies(b0, b1)) => a0.same(b0) || a1.same(b1),
        _ => false,
    }
}

fn untils_share(a: &SyntaxTree, b: &SyntaxTree, right: bool) -> (r: bool)
    ensures
        r == (if right { untils_share_right(*a, *b) } else { untils_share_left(*a, *b) }),
{
    match (a, b) {
        (SyntaxTree::Until(a0, a1), SyntaxTree::Until(b0, b1)) => if right {
            a1.same(b1)
        } else {
            a0.same(b0)
        },
        _ => false,
    }
}

fn check_not(child: &SyntaxTree) -> (r: bool)
    ensures
        r == not_kept(*child),
{
    match child {
        SyntaxTree::Not(_) | SyntaxTree::Implies(_, _) | SyntaxTree::Finally(_) => false,
        SyntaxTree::And(l, r) | SyntaxTree::Or(l, r) => !matches!(&**l, SyntaxTree::Not(_))
            && !matches!(&**r, SyntaxTree::Not(_)),
        _ => true,
    }
}

fn check_next(child: &SyntaxTree) -> (r: bool)
    ensures
        r == next_kept(*child),
{
    !matches!(child, SyntaxTree::Not(_) | SyntaxTree::Globally(_) | SyntaxTree::Finally(_))
}

fn check_globally(child: &SyntaxTree) -> (r: bool)
    ensures
        r == globally_kept(*child),
{
    !matches!(child, SyntaxTree::Globally(_))
}

fn check_finally(child: &SyntaxTree) -> (r: bool)
    ensures
        r == finally_kept(*child),
{
    !matches!(child, SyntaxTree::Finally(_))
}

fn check_and(left_child: &SyntaxTree, right_child: &SyntaxTree) -> (r: bool)
    ensures
        r == and_kept(*left_child, *right_child),
{
    let l = left_child;
    let r = right_child;
    // Commutative law: one order of the operands only.
    l.compare(r) < 0
    // Associative law
    && !matches!(l, SyntaxTree::And(_, _))
    // Excluded middle
    && !is_negation_of(r, l) && !is_negation_of(l, r)
    // De Morgan's laws
    && !(matches!(l, SyntaxTree::Not(_)) && matches!(r, SyntaxTree::Not(_)))
    // X (φ ∧ ψ) ≡ (X φ) ∧ (X ψ)
    && !(matches!(l, SyntaxTree::Next(_)) && matches!(r, SyntaxTree::Next(_)))
    // G (φ ∧ ψ) ≡ (G φ) ∧ (G ψ)
    && !(matches!(l, SyntaxTree::Globally(_)) && matches!(r, SyntaxTree::Globally(_)))
    // (φ → ψ_1) ∧ (φ → ψ_2) ≡ φ → (ψ_1 ∧ ψ_2), (φ_1 → ψ) ∧ (φ_2 → ψ) ≡ (φ_1 ∨ φ_2) → ψ
    && !implications_share_side(l, r)
    // (φ_1 U ψ) ∧ (φ_2 U ψ) ≡ (φ_1 ∧ φ_2) U ψ
    && !untils_share(l, r, true)
    // Absorption laws
    && !(matches!(l, SyntaxTree::Or(_, _)) && is_operand_of(r, l))
    && !(matches!(r, SyntaxTree::Or(_, _)) && is_operand_of(l, r))
    // Distributive laws
    && !shares_operand(l, r)
    // G φ ≡ φ ∧ X(G φ)
    && !is_next_globally_of(r, l) && !is_next_globally_of(l, r)
}

fn check_or(left_child: &SyntaxTree, right_child: &SyntaxTree) -> (r: bool)
    ensures
        r == or_kept(*left_child, *right_child),
{
    let l = left_child;
    let r = right_child;
    // Commutative law: one order of the operands only.
    l.compare(r) < 0
    // Associative law
    && !matches!(l, SyntaxTree::Or(_, _))
    // Excluded middle
    && !is_negation_of(r, l) && !is_negation_of(l, r)
    // ¬φ ∨ ψ ≡ φ → ψ, which subsumes De Morgan's laws
    && !matches!(l, SyntaxTree::Not(_))
    // X (φ ∨ ψ) ≡ (X φ) ∨ (X ψ)
    && !(matches!(l, SyntaxTree::Next(_)) && matches!(r, SyntaxTree::Next(_)))
    // F (φ ∨ ψ) ≡ (F φ) ∨ (F ψ)
    && !(matches!(l, SyntaxTree::Finally(_)) && matches!(r, SyntaxTree::Finally(_)))
    // (φ → ψ_1) ∨ (φ → ψ_2) ≡ φ → (ψ_1 ∨ ψ_2), (φ_1 → ψ) ∨ (φ_2 → ψ) ≡ (φ_1 ∧ φ_2) → ψ
    && !implications_share_side(l, r)
    // (φ U ψ_1) ∨ (φ U ψ_2) ≡ φ U (ψ_1 ∨ ψ_2)
    && !untils_share(l, r, false)
    // Absorption laws
    && !(matches!(l, SyntaxTree::And(_, _)) && is_operand_of(r, l))
    && !(matches!(r, SyntaxTree::And(_, _)) && is_operand_of(l, r))
    // Distributive laws
    && !shares_operand(l, r)
    // F φ ≡ φ ∨ X(F φ)
    && !is_next_finally_of(r, l) && !is_next_finally_of(l, r)
    // φ U ψ ≡ ψ ∨ (φ ∧ X(φ U ψ))
    && !is_until_unfolding(r, l) && !is_until_unfolding(l, r)
}

fn check_implies(left_child: &SyntaxTree, right_child: &SyntaxTree) -> (r: bool)
    ensures
        r == implies_kept(*left_child, *right_child),
{
    // φ → φ is always true
    !left_child.same(right_child)
    // ¬φ → ψ ≡ φ ∨ ψ
    && !matches!(left_child, SyntaxTree::Not(_))
    // φ → ¬ψ ≡ ¬(ψ ∧ φ)
    && !matches!(right_child, SyntaxTree::Not(_))
    // Currying: φ_1 → (φ_2 → ψ) ≡ (φ_1 ∧ φ_2) → ψ
    && !matches!(right_child, SyntaxTree::Implies(_, _))
}

fn check_until(left_child: &SyntaxTree, right_child: &SyntaxTree) -> (r: bool)
    ensures
        r == until_kept(*left_child, *right_child),
{
    // φ U φ ≡ φ
    !left_child.same(right_child)
    // X (φ U ψ) ≡ (X φ) U (X ψ)
    && !(matches!(left_child, SyntaxTree::Next(_)) && matches!(right_child, SyntaxTree::Next(_)))
    // φ U ψ ≡ φ U (φ U ψ)
    && !(match right_child {
        SyntaxTree::Until(c, _) => c.same(left_child),
        _ => false,
    })
}

/// A tree structure with unary and binary nodes, but containing no data.
#[derive(Debug, Clone)]
pub enum SkeletonTree {
    Leaf,
    UnaryNode(Arc<SkeletonTree>),
    BinaryNode(Arc<(SkeletonTree, SkeletonTree)>),
}

impl SkeletonTree {
    /// The size of a skeleton: each leaf and each unary node counts one.
    pub open spec fn size(&self) -> nat
        decreases self,
    {
        match self {
            SkeletonTree::Leaf => 1,
            SkeletonTree::UnaryNode(c) => c.size() + 1,
            SkeletonTree::BinaryNode(p) => p.0.size() + p.1.size(),
        }
    }

    /// A copy of the skeleton that shares its children.
    fn share(&self) -> (r: SkeletonTree)
        ensures
            r == *self,
    {
        match self {
            SkeletonTree::Leaf => SkeletonTree::Leaf,
            SkeletonTree::UnaryNode(c) => SkeletonTree::UnaryNode(c.clone()),
            SkeletonTree::BinaryNode(p) => SkeletonTree::BinaryNode(p.clone()),
        }
    }
}

/// The formula has the shape of the skeleton: atoms at its leaves, unary operators at its
/// unary nodes and binary operators at its binary nodes.
pub open spec fn fits_shape(f: SyntaxTree, k: SkeletonTree) -> bool
    decreases k,
{
    match k {
        SkeletonTree::Leaf => f is Atom,
        SkeletonTree::UnaryNode(c) => match f {
            SyntaxTree::Not(x) | SyntaxTree::Next(x) | SyntaxTree::Globally(x)
            | SyntaxTree::Finally(x) => fits_shape(*x, *c),
            _ => false,
        },
        SkeletonTree::BinaryNode(p) => match f {
            SyntaxTree::And(x, y) | SyntaxTree::Or(x, y) | SyntaxTree::Implies(x, y)
            | SyntaxTree::Until(x, y) => fits_shape(*x, p.0) && fits_shape(*y, p.1),
            _ => false,
        },
    }
}

/// Some skeleton of `ks` is the shape of `f`.
pub open spec fn covers(ks: Seq<SkeletonTree>, f: SyntaxTree) -> bool {
    exists|i: int| 0 <= i < ks.len() && fits_shape(f, #[trigger] ks[i])
}

/// `ks` holds the binary node with children `x` and `y`.
pub open spec fn has_binary(ks: Seq<SkeletonTree>, x: SkeletonTree, y: SkeletonTree) -> bool {
    exists|i: int| 0 <= i < ks.len() && #[trigger] ks[i] is BinaryNode && ks[i]->BinaryNode_0.0 == x
        && ks[i]->BinaryNode_0.1 == y
}

/// A formula has the size of its shape.
pub proof fn lemma_fits_size(f: SyntaxTree, k: SkeletonTree)
    requires
        fits_shape(f, k),
    ensures
        f.size() == k.size(),
    decreases k,
{
    match k {
        SkeletonTree::Leaf => {},
        SkeletonTree::UnaryNode(c) => match f {
            SyntaxTree::Not(x) | SyntaxTree::Next(x) | SyntaxTree::Globally(x)
            | SyntaxTree::Finally(x) => lemma_fits_size(arc_content(x), arc_content(c)),
            _ => {},
        },
        SkeletonTree::BinaryNode(p) => match f {
            SyntaxTree::And(x, y) | SyntaxTree::Or(x, y) | SyntaxTree::Implies(x, y)
            | SyntaxTree::Until(x, y) => {
                lemma_fits_size(arc_content(x), arc_content(p).0);
                lemma_fits_size(arc_content(y), arc_content(p).1);
            },
            _ => {},
        },
    }
}

/// Every formula has size at least one.
pub proof fn lemma_size_positive(f: SyntaxTree)
    ensures
        f.size() >= 1,
    decreases f,
{
    match f {
        SyntaxTree::Atom(_) => {},
        SyntaxTree::Not(c) | SyntaxTree::Next(c) | SyntaxTree::Globally(c)
        | SyntaxTree::Finally(c) => lemma_size_positive(arc_content(c)),
        SyntaxTree::And(l, r) | SyntaxTree::Or(l, r) | SyntaxTree::Implies(l, r)
        | SyntaxTree::Until(l, r) => {
            lemma_size_positive(arc_content(l));
            lemma_size_positive(arc_content(r));
        },
    }
}

proof fn lemma_covers_push(ks: Seq<SkeletonTree>, k: SkeletonTree)
    ensures
        forall|f: SyntaxTree| covers(ks, f) ==> covers(ks.push(k), f),
{
    assert forall|f: SyntaxTree| covers(ks, f) implies covers(ks.push(k), f) by {
        let i = choose|i: int| 0 <= i < ks.len() && fits_shape(f, #[trigger] ks[i]);
        assert(ks.push(k)[i] == ks[i]);
    }
}

proof fn lemma_has_binary_push(ks: Seq<SkeletonTree>, k: SkeletonTree)
    ensures
        forall|x: SkeletonTree, y: SkeletonTree| has_binary(ks, x, y) ==> has_binary(ks.push(k), x, y),
{
    assert forall|x: SkeletonTree, y: SkeletonTree| has_binary(ks, x, y) implies has_binary(ks.push(k), x, y) by {
        let i = choose|i: int| 0 <= i < ks.len() && #[trigger] ks[i] is BinaryNode && ks[i]->BinaryNode_0.0 == x
            && ks[i]->BinaryNode_0.1 == y;
        assert(ks.push(k)[i] == ks[i]);
    }
}

/// The binary node `k` was built from the `a`-th skeleton of `lefts` and the `b`-th of `rights`.
pub open spec fn built_from(k: SkeletonTree, lefts: Seq<SkeletonTree>, rights: Seq<SkeletonTree>, a: int, b: int) -> bool {
    &&& 0 <= a < lefts.len()
    &&& 0 <= b < rights.len()
    &&& k is BinaryNode
    &&& k->BinaryNode_0.0 == lefts[a]
    &&& k->BinaryNode_0.1 == rights[b]
}

/// The binary node `k` was built from a pair that comes before the pair `(a, b)` in the
/// lexicographic order of their indexes.
pub open spec fn built_before(k: SkeletonTree, lefts: Seq<SkeletonTree>, rights: Seq<SkeletonTree>, a: int, b: int) -> bool {
    exists|a2: int, b2: int| (a2 < a || (a2 == a && b2 < b)) && #[trigger] built_from(k, lefts, rights, a2, b2)
}

proof fn lemma_built_before_later(lefts: Seq<SkeletonTree>, rights: Seq<SkeletonTree>, a: int, b: int, a3: int, b3: int)
    requires
        a < a3 || (a == a3 && b <= b3) || (a + 1 == a3 && b3 == 0 && b == rights.len()),
    ensures
        forall|k: SkeletonTree| built_before(k, lefts, rights, a, b) ==> #[trigger] built_before(k, lefts, rights, a3, b3),
{
    assert forall|k: SkeletonTree| built_before(k, lefts, rights, a, b) implies #[trigger] built_before(k, lefts, rights, a3, b3) by {
        let (a2, b2) = choose|a2: int, b2: int| (a2 < a || (a2 == a && b2 < b)) && #[trigger] built_from(k, lefts, rights, a2, b2);
        assert(built_from(k, lefts, rights, a2, b2));
    }
}

/// Appends a binary node for each pair of a skeleton of `lefts` and one of `rights`.
fn push_binaries(
    lefts: &Vec<SkeletonTree>,
    rights: &Vec<SkeletonTree>,
    out: &mut Vec<SkeletonTree>,
    size: Ghost<nat>,
)
    requires
        forall|a: int| 0 <= a < lefts@.len() ==> forall|b: int| 0 <= b < rights@.len() ==>
            #[trigger] lefts@[a].size() + #[trigger] rights@[b].size() == size@,
        forall|i: int| 0 <= i < old(out)@.len() ==> (#[trigger] old(out)@[i]).size() == size@,
        lefts@.no_duplicates(),
        rights@.no_duplicates(),
    ensures
        forall|i: int| 0 <= i < final(out)@.len() ==> (#[trigger] final(out)@[i]).size() == size@,
        forall|f: SyntaxTree| covers(old(out)@, f) ==> covers(final(out)@, f),
        forall|a: int, b: int| 0 <= a < lefts@.len() && 0 <= b < rights@.len() ==>
            has_binary(final(out)@, #[trigger] lefts@[a], #[trigger] rights@[b]),
        old(out)@.len() <= final(out)@.len(),
        forall|i: int| 0 <= i < old(out)@.len() ==> #[trigger] final(out)@[i] == old(out)@[i],
        forall|i: int| old(out)@.len() <= i < final(out)@.len() ==>
            built_before(#[trigger] final(out)@[i], lefts@, rights@, lefts@.len() as int, 0),
        forall|i: int, j: int| old(out)@.len() <= i < j < final(out)@.len() ==> final(out)@[i] != final(out)@[j],
{
    let ghost start = out@;
    let mut a: usize = 0;
    while a < lefts.len()
        invariant
            a <= lefts@.len(),
            forall|a: int| 0 <= a < lefts@.len() ==> forall|b: int| 0 <= b < rights@.len() ==>
                #[trigger] lefts@[a].size() + #[trigger] rights@[b].size() == size@,
            lefts@.no_duplicates(),
            rights@.no_duplicates(),
            forall|i: int| 0 <= i < out@.len() ==> (#[trigger] out@[i]).size() == size@,
            forall|f: SyntaxTree| covers(start, f) ==> covers(out@, f),
            forall|a2: int, b: int| 0 <= a2 < a && 0 <= b < rights@.len() ==>
                has_binary(out@, #[trigger] lefts@[a2], #[trigger] rights@[b]),
            start.len() <= out@.len(),
            forall|i: int| 0 <= i < start.len() ==> #[trigger] out@[i] == start[i],
            forall|i: int| start.len() <= i < out@.len() ==> built_before(#[trigger] out@[i], lefts@, rights@, a as int, 0),
            forall|i: int, j: int| start.len() <= i < j < out@.len() ==> out@[i] != out@[j],
        decreases lefts@.len() - a,
    {
        let mut b: usize = 0;
        while b < rights.len()
            invariant
                a < lefts@.len(),
                b <= rights@.len(),
                forall|a: int| 0 <= a < lefts@.len() ==> forall|b: int| 0 <= b < rights@.len() ==>
                    #[trigger] lefts@[a].size() + #[trigger] rights@[b].size() == size@,
                lefts@.no_duplicates(),
                rights@.no_duplicates(),
                forall|i: int| 0 <= i < out@.len() ==> (#[trigger] out@[i]).size() == size@,
                forall|f: SyntaxTree| covers(start, f) ==> covers(out@, f),
                forall|a2: int, b2: int| 0 <= a2 < a && 0 <= b2 < rights@.len() ==>
                    has_binary(out@, #[trigger] lefts@[a2], #[trigger] rights@[b2]),
                forall|b2: int| 0 <= b2 < b ==> has_binary(out@, lefts@[a as int], #[trigger] rights@[b2]),
                start.len() <= out@.len(),
                forall|i: int| 0 <= i < start.len() ==> #[trigger] out@[i] == start[i],
                forall|i: int| start.len() <= i < out@.len() ==> built_before(#[trigger] out@[i], lefts@, rights@, a as int, b as int),
                forall|i: int, j: int| start.len() <= i < j < out@.len() ==> out@[i] != out@[j],
            decreases rights@.len() - b,
        {
            let node = SkeletonTree::BinaryNode(Arc::new((lefts[a].share(), rights[b].share())));
            let ghost before = out@;
            proof {
                lemma_covers_push(before, node);
                lemma_has_binary_push(before, node);
                assert(lefts@[a as int].size() + rights@[b as int].size() == size@);
                assert(node->BinaryNode_0.0 == lefts@[a as int]);
                assert(node->BinaryNode_0.1 == rights@[b as int]);
                assert(node.size() == size@);
                assert(built_from(node, lefts@, rights@, a as int, b as int));
                assert forall|i: int| start.len() <= i < before.len() implies before[i] != node by {
                    assert(built_before(before[i], lefts@, rights@, a as int, b as int));
                    let (a2, b2) = choose|a2: int, b2: int|
                        (a2 < a || (a2 == a && b2 < b)) && #[trigger] built_from(before[i], lefts@, rights@, a2, b2);
                    if a2 < a {
                        assert(lefts@[a2] != lefts@[a as int]);
                    } else {
                        assert(rights@[b2] != rights@[b as int]);
                    }
                }
            }
            out.push(node);
            assert(out@[before.len() as int] == node);
            proof {
                lemma_built_before_later(lefts@, rights@, a as int, b as int, a as int, b + 1);
                assert forall|i: int| start.len() <= i < out@.len() implies
                    built_before(#[trigger] out@[i], lefts@, rights@, a as int, b + 1) by {
                    if i < before.len() {
                        assert(out@[i] == before[i]);
                        assert(built_before(before[i], lefts@, rights@, a as int, b as int));
                    } else {
                        assert(built_from(out@[i], lefts@, rights@, a as int, b as int));
                    }
                }
            }
            b = b + 1;
        }
        proof {
            lemma_built_before_later(lefts@, rights@, a as int, rights@.len() as int, a + 1, 0);
        }
        a = a + 1;
    }
}

impl SkeletonTree {
    /// Generates all possible `SkeletonTree`s of the given size: for every formula of that
    /// size, one of them is its shape.
    pub fn gen(size: usize) -> (r: Vec<SkeletonTree>)
        requires
            size >= 1,
        ensures
            forall|i: int| 0 <= i < r@.len() ==> (#[trigger] r@[i]).size() == size,
            forall|f: SyntaxTree| f.size() == size ==> covers(r@, f),
            r@.no_duplicates(),
        decreases size,
    {
        if size == 1 {
            let r = vec![SkeletonTree::Leaf];
            assert forall|f: SyntaxTree| f.size() == size implies covers(r@, f) by {
                match f {
                    SyntaxTree::Atom(_) => assert(fits_shape(f, r@[0])),
                    SyntaxTree::Not(c) | SyntaxTree::Next(c) | SyntaxTree::Globally(c)
                    | SyntaxTree::Finally(c) => lemma_size_positive(arc_content(c)),
                    SyntaxTree::And(l, r) | SyntaxTree::Or(l, r) | SyntaxTree::Implies(l, r)
                    | SyntaxTree::Until(l, r) => {
                        lemma_size_positive(arc_content(l));
                        lemma_size_positive(arc_content(r));
                    },
                }
            }
            return r;
        }
        let smaller = Self::gen(size - 1);
        let mut skeletons: Vec<SkeletonTree> = Vec::new();
        let mut j: usize = 0;
        while j < smaller.len()
            invariant
                j <= smaller@.len(),
                skeletons@.len() == j,
                forall|i: int| 0 <= i < smaller@.len() ==> (#[trigger] smaller@[i]).size() == size - 1,
                forall|i: int| 0 <= i < j ==> (#[trigger] skeletons@[i]) is UnaryNode
                    && *skeletons@[i]->UnaryNode_0 == smaller@[i],
            decreases smaller@.len() - j,
        {
            skeletons.push(SkeletonTree::UnaryNode(Arc::new(smaller[j].share())));
            j = j + 1;
        }
        assert forall|i: int| 0 <= i < skeletons@.len() implies (#[trigger] skeletons@[i]).size() == size by {
            assert(smaller@[i].size() == size - 1);
        }
        assert forall|i: int, j: int| 0 <= i < skeletons@.len() && 0 <= j < skeletons@.len() && i != j
            implies skeletons@[i] != skeletons@[j] by {
            assert(smaller@[i] != smaller@[j]);
        }
        assert forall|f: SyntaxTree| f.size() == size && (f is Not || f is Next || f is Globally || f is Finally)
            implies covers(skeletons@, f) by {
            match f {
                SyntaxTree::Not(c) | SyntaxTree::Next(c) | SyntaxTree::Globally(c)
                | SyntaxTree::Finally(c) => {
                    assert(c.size() == size - 1);
                    assert(covers(smaller@, *c));
                    let i = choose|i: int| 0 <= i < smaller@.len() && fits_shape(*c, #[trigger] smaller@[i]);
                    assert(fits_shape(f, skeletons@[i]));
                },
                _ => {},
            }
        }
        assert forall|f: SyntaxTree| f.size() == size && (f is And || f is Or || f is Implies || f is Until)
            && #[trigger] binary_left_size(f) < 1 implies covers(skeletons@, f) by {
            match f {
                SyntaxTree::And(x, _) | SyntaxTree::Or(x, _) | SyntaxTree::Implies(x, _)
                | SyntaxTree::Until(x, _) => lemma_size_positive(arc_content(x)),
                _ => {},
            }
        }
        assert forall|i: int| 0 <= i < skeletons@.len() implies #[trigger] skeletons@[i] is UnaryNode
            || (skeletons@[i] is BinaryNode && skeletons@[i]->BinaryNode_0.0.size() < 1) by {
        }
        let mut left_size: usize = 1;
        while left_size < size
            invariant
                1 <= left_size <= size,
                forall|i: int| 0 <= i < skeletons@.len() ==> (#[trigger] skeletons@[i]).size() == size,
                forall|f: SyntaxTree| f.size() == size && (f is Not || f is Next || f is Globally || f is Finally)
                    ==> covers(skeletons@, f),
                forall|f: SyntaxTree| f.size() == size && (f is And || f is Or || f is Implies || f is Until)
                    && #[trigger] binary_left_size(f) < left_size ==> covers(skeletons@, f),
                skeletons@.no_duplicates(),
                forall|i: int| 0 <= i < skeletons@.len() ==> #[trigger] skeletons@[i] is UnaryNode
                    || (skeletons@[i] is BinaryNode && skeletons@[i]->BinaryNode_0.0.size() < left_size),
            decreases size - left_size,
        {
            let lefts = Self::gen(left_size);
            let rights = Self::gen(size - left_size);
            let ghost before = skeletons@;
            push_binaries(&lefts, &rights, &mut skeletons, Ghost(size as nat));
            proof {
                assert forall|i: int| before.len() <= i < skeletons@.len() implies
                    #[trigger] skeletons@[i] is BinaryNode && skeletons@[i]->BinaryNode_0.0.size() == left_size by {
                    assert(built_before(skeletons@[i], lefts@, rights@, lefts@.len() as int, 0));
                    let (a2, b2) = choose|a2: int, b2: int| (a2 < lefts@.len() || (a2 == lefts@.len() && b2 < 0))
                        && #[trigger] built_from(skeletons@[i], lefts@, rights@, a2, b2);
                    assert(lefts@[a2].size() == left_size);
                }
                assert forall|i: int, j: int| 0 <= i < skeletons@.len() && 0 <= j < skeletons@.len() && i != j
                    implies skeletons@[i] != skeletons@[j] by {
                    if i < before.len() && j < before.len() {
                        assert(before[i] != before[j]);
                    } else if i < before.len() {
                        assert(skeletons@[i] == before[i]);
                        assert(skeletons@[j] is BinaryNode && skeletons@[j]->BinaryNode_0.0.size() == left_size);
                    } else if j < before.len() {
                        assert(skeletons@[j] == before[j]);
                        assert(skeletons@[i] is BinaryNode && skeletons@[i]->BinaryNode_0.0.size() == left_size);
                    }
                }
                assert forall|i: int| 0 <= i < skeletons@.len() implies #[trigger] skeletons@[i] is UnaryNode
                    || (skeletons@[i] is BinaryNode && skeletons@[i]->BinaryNode_0.0.size() < left_size + 1) by {
                    if i < before.len() {
                        assert(skeletons@[i] == before[i]);
                    }
                }
            }
            assert forall|f: SyntaxTree| f.size() == size && (f is And || f is Or || f is Implies || f is Until)
                && #[trigger] binary_left_size(f) < left_size + 1 implies covers(skeletons@, f) by {
                if binary_left_size(f) == left_size {
                    match f {
                        SyntaxTree::And(x, y) | SyntaxTree::Or(x, y) | SyntaxTree::Implies(x, y)
                        | SyntaxTree::Until(x, y) => {
                            assert(x.size() == left_size);
                            assert(y.size() == size - left_size);
                            assert(covers(lefts@, *x));
                            assert(covers(rights@, *y));
                            let a = choose|a: int| 0 <= a < lefts@.len() && fits_shape(*x, #[trigger] lefts@[a]);
                            let b = choose|b: int| 0 <= b < rights@.len() && fits_shape(*y, #[trigger] rights@[b]);
                            assert(has_binary(skeletons@, lefts@[a], rights@[b]));
                            let i = choose|i: int| 0 <= i < skeletons@.len() && #[trigger] skeletons@[i] is BinaryNode
                                && skeletons@[i]->BinaryNode_0.0 == lefts@[a] && skeletons@[i]->BinaryNode_0.1 == rights@[b];
                            assert(fits_shape(f, skeletons@[i]));
                        },
                        _ => {},
                    }
                } else {
                    assert(covers(before, f));
                }
            }
            left_size = left_size + 1;
        }
        assert forall|f: SyntaxTree| f.size() == size implies covers(skeletons@, f) by {
            match f {
                SyntaxTree::Atom(_) => {},
                SyntaxTree::Not(_) | SyntaxTree::Next(_) | SyntaxTree::Globally(_) | SyntaxTree::Finally(_) => {},
                SyntaxTree::And(x, y) | SyntaxTree::Or(x, y) | SyntaxTree::Implies(x, y)
                | SyntaxTree::Until(x, y) => {
                    lemma_size_positive(arc_content(y));
                    assert(binary_left_size(f) < left_size);
                },
            }
        }
        skeletons
    }
}

/// The size of the left operand of a binary formula.
pub open spec fn binary_left_size(f: SyntaxTree) -> nat {
    match f {
        SyntaxTree::And(x, _) | SyntaxTree::Or(x, _) | SyntaxTree::Implies(x, _)
        | SyntaxTree::Until(x, _) => x.size(),
        _ => 0,
    }
}

/// The formula has the shape of `k` and is canonical over `vars`.
pub open spec fn labels(f: SyntaxTree, k: SkeletonTree, vars: Seq<Idx>) -> bool {
    fits_shape(f, k) && canonical(f, vars)
}

/// Every kept unary formula over `c` is in `out`.
pub open spec fn unary_done(out: Seq<SyntaxTree>, c: Arc<SyntaxTree>) -> bool {
    &&& not_kept(*c) ==> out.contains(SyntaxTree::Not(c))
    &&& next_kept(*c) ==> out.contains(SyntaxTree::Next(c))
    &&& globally_kept(*c) ==> out.contains(SyntaxTree::Globally(c))
    &&& finally_kept(*c) ==> out.contains(SyntaxTree::Finally(c))
}

/// Every kept binary formula over `l` and `r` is in `out`.
pub open spec fn binary_done(out: Seq<SyntaxTree>, l: Arc<SyntaxTree>, r: Arc<SyntaxTree>) -> bool {
    &&& and_kept(*l, *r) ==> out.contains(SyntaxTree::And(l, r))
    &&& or_kept(*l, *r) ==> out.contains(SyntaxTree::Or(l, r))
    &&& implies_kept(*l, *r) ==> out.contains(SyntaxTree::Implies(l, r))
    &&& until_kept(*l, *r) ==> out.contains(SyntaxTree::Until(l, r))
}

/// Appends a candidate formula.
fn add_candidate(out: &mut Vec<SyntaxTree>, f: SyntaxTree)
    ensures
        final(out)@ == old(out)@.push(f),
        final(out)@.contains(f),
        forall|x: SyntaxTree| old(out)@.contains(x) ==> #[trigger] final(out)@.contains(x),
{
    let ghost before = out@;
    out.push(f);
    assert(out@[before.len() as int] == f);
    assert forall|x: SyntaxTree| before.contains(x) implies #[trigger] out@.contains(x) by {
        let i = choose|i: int| 0 <= i < before.len() && before[i] == x;
        assert(out@[i] == x);
    }
}

/// The formulas behind shared handles, one handle per formula.
fn shared(fs: &Vec<SyntaxTree>) -> (r: Vec<Arc<SyntaxTree>>)
    ensures
        r@.len() == fs@.len(),
        forall|i: int| 0 <= i < r@.len() ==> *#[trigger] r@[i] == fs@[i],
        forall|f: SyntaxTree| #[trigger] fs@.contains(f) ==> exists|i: int| 0 <= i < r@.len() && *#[trigger] r@[i] == f,
{
    let mut r: Vec<Arc<SyntaxTree>> = Vec::new();
    let mut i: usize = 0;
    while i < fs.len()
        invariant
            i <= fs@.len(),
            r@.len() == i,
            forall|j: int| 0 <= j < i ==> *#[trigger] r@[j] == fs@[j],
        decreases fs@.len() - i,
    {
        r.push(Arc::new(fs[i].share()));
        i = i + 1;
    }
    assert forall|f: SyntaxTree| #[trigger] fs@.contains(f) implies exists|i: int| 0 <= i < r@.len() && *#[trigger] r@[i] == f by {
        let i = choose|i: int| 0 <= i < fs@.len() && fs@[i] == f;
        assert(*r@[i] == f);
    }
    r
}

/// `f` is a unary formula over `c`.
pub open spec fn unary_on(f: SyntaxTree, c: SyntaxTree) -> bool {
    match f {
        SyntaxTree::Not(x) | SyntaxTree::Next(x) | SyntaxTree::Globally(x) | SyntaxTree::Finally(x) => *x == c,
        _ => false,
    }
}

/// `f` is a binary formula over `l` and `r`.
pub open spec fn binary_on(f: SyntaxTree, l: SyntaxTree, r: SyntaxTree) -> bool {
    match f {
        SyntaxTree::And(x, y) | SyntaxTree::Or(x, y) | SyntaxTree::Implies(x, y) | SyntaxTree::Until(x, y) =>
            *x == l && *y == r,
        _ => false,
    }
}

/// `f` is a unary formula over `c` that the pruning rules keep.
pub open spec fn kept_unary_on(f: SyntaxTree, c: SyntaxTree) -> bool {
    match f {
        SyntaxTree::Not(x) => *x == c && not_kept(c),
        SyntaxTree::Next(x) => *x == c && next_kept(c),
        SyntaxTree::Globally(x) => *x == c && globally_kept(c),
        SyntaxTree::Finally(x) => *x == c && finally_kept(c),
        _ => false,
    }
}

/// `f` is a binary formula over `l` and `r` that the pruning rules keep.
pub open spec fn kept_binary_on(f: SyntaxTree, l: SyntaxTree, r: SyntaxTree) -> bool {
    match f {
        SyntaxTree::And(x, y) => *x == l && *y == r && and_kept(l, r),
        SyntaxTree::Or(x, y) => *x == l && *y == r && or_kept(l, r),
        SyntaxTree::Implies(x, y) => *x == l && *y == r && implies_kept(l, r),
        SyntaxTree::Until(x, y) => *x == l && *y == r && until_kept(l, r),
        _ => false,
    }
}

/// The place of a unary operator in the order `¬`, `X`, `G`, `F` in which they are tried.
pub open spec fn unary_rank(f: SyntaxTree) -> int {
    match f {
        SyntaxTree::Not(_) => 0,
        SyntaxTree::Next(_) => 1,
        SyntaxTree::Globally(_) => 2,
        _ => 3,
    }
}

/// The place of a binary operator in the order `∧`, `∨`, `→`, `U` in which they are tried.
pub open spec fn binary_rank(f: SyntaxTree) -> int {
    match f {
        SyntaxTree::And(_, _) => 0,
        SyntaxTree::Or(_, _) => 1,
        SyntaxTree::Implies(_, _) => 2,
        _ => 3,
    }
}

/// `s` is `p` followed by at most one formula, of rank `k`, that satisfies `good`.
pub open spec fn step_ok(p: Seq<SyntaxTree>, s: Seq<SyntaxTree>, k: int, rank: spec_fn(SyntaxTree) -> int, good: spec_fn(SyntaxTree) -> bool) -> bool {
    &&& p.len() <= s.len() <= p.len() + 1
    &&& forall|i: int| 0 <= i < p.len() ==> #[trigger] s[i] == p[i]
    &&& s.len() == p.len() + 1 ==> rank(s[p.len() as int]) == k && good(s[p.len() as int])
}

/// Four steps of at most one formula each, of increasing ranks, leave the list without
/// repetitions when it had none and held no formula that satisfies `good`.
proof fn lemma_four_steps(
    s0: Seq<SyntaxTree>, s1: Seq<SyntaxTree>, s2: Seq<SyntaxTree>, s3: Seq<SyntaxTree>, s4: Seq<SyntaxTree>,
    rank: spec_fn(SyntaxTree) -> int, good: spec_fn(SyntaxTree) -> bool,
)
    requires
        step_ok(s0, s1, 0, rank, good),
        step_ok(s1, s2, 1, rank, good),
        step_ok(s2, s3, 2, rank, good),
        step_ok(s3, s4, 3, rank, good),
    ensures
        s0.len() <= s4.len(),
        forall|i: int| 0 <= i < s0.len() ==> #[trigger] s4[i] == s0[i],
        forall|i: int| s0.len() <= i < s4.len() ==> good(#[trigger] s4[i]),
        s0.no_duplicates() && (forall|i: int| 0 <= i < s0.len() ==> !good(#[trigger] s0[i])) ==> s4.no_duplicates(),
{
    assert forall|i: int| 0 <= i < s0.len() implies #[trigger] s4[i] == s0[i] by {
        assert(s1[i] == s0[i]);
        assert(s2[i] == s1[i]);
        assert(s3[i] == s2[i]);
    }
    assert forall|i: int| s0.len() <= i < s4.len() implies good(#[trigger] s4[i]) && rank(s4[i]) >= 0
        && (i == s0.len() || rank(s4[i]) > rank(s4[i - 1])) by {
        if i < s1.len() {
            assert(s4[i] == s3[i] && s3[i] == s2[i] && s2[i] == s1[i]);
        } else if i < s2.len() {
            assert(s4[i] == s3[i] && s3[i] == s2[i]);
            if i > s0.len() {
                assert(s4[i - 1] == s1[i - 1]);
            }
        } else if i < s3.len() {
            assert(s4[i] == s3[i]);
            if i > s0.len() {
                if i - 1 < s1.len() {
                    assert(s4[i - 1] == s1[i - 1]);
                } else {
                    assert(s4[i - 1] == s2[i - 1]);
                }
            }
        } else {
            if i > s0.len() {
                if i - 1 < s1.len() {
                    assert(s4[i - 1] == s1[i - 1]);
                } else if i - 1 < s2.len() {
                    assert(s4[i - 1] == s2[i - 1]);
                } else {
                    assert(s4[i - 1] == s3[i - 1]);
                }
            }
        }
    }
    if s0.no_duplicates() && (forall|i: int| 0 <= i < s0.len() ==> !good(#[trigger] s0[i])) {
        assert forall|i: int, j: int| 0 <= i < s4.len() && 0 <= j < s4.len() && i != j implies s4[i] != s4[j] by {
            if i < s0.len() && j < s0.len() {
                assert(s0[i] != s0[j]);
            } else if i < s0.len() {
                assert(!good(s0[i]));
            } else if j < s0.len() {
                assert(!good(s0[j]));
            } else if i < j {
                lemma_rank_increasing(s4, s0.len() as int, rank, i, j);
            } else {
                lemma_rank_increasing(s4, s0.len() as int, rank, j, i);
            }
        }
    }
}

proof fn lemma_rank_increasing(s: Seq<SyntaxTree>, from: int, rank: spec_fn(SyntaxTree) -> int, i: int, j: int)
    requires
        0 <= from <= i < j < s.len(),
        forall|m: int| from < m < s.len() ==> rank(#[trigger] s[m]) > rank(s[m - 1]),
    ensures
        rank(s[i]) < rank(s[j]),
    decreases j - i,
{
    if i + 1 < j {
        lemma_rank_increasing(s, from, rank, i + 1, j);
        assert(rank(s[i + 1]) > rank(s[i]));
    } else {
        assert(rank(s[j]) > rank(s[j - 1]));
    }
}

/// Appends every unary formula over `c` that the pruning rules keep.
fn push_unaries(c: &Arc<SyntaxTree>, trees: &mut Vec<SyntaxTree>)
    ensures
        old(trees)@.len() <= final(trees)@.len(),
        forall|i: int| 0 <= i < old(trees)@.len() ==> #[trigger] final(trees)@[i] == old(trees)@[i],
        forall|i: int| old(trees)@.len() <= i < final(trees)@.len() ==> kept_unary_on(#[trigger] final(trees)@[i], **c),
        forall|x: SyntaxTree| old(trees)@.contains(x) ==> #[trigger] final(trees)@.contains(x),
        unary_done(final(trees)@, *c),
        old(trees)@.no_duplicates() && (forall|i: int| 0 <= i < old(trees)@.len() ==> !unary_on(#[trigger] old(trees)@[i], **c))
            ==> final(trees)@.no_duplicates(),
{
    let ghost rank = |f: SyntaxTree| unary_rank(f);
    let ghost good = |f: SyntaxTree| kept_unary_on(f, **c);
    let ghost s0 = trees@;
    if check_not(c) {
        add_candidate(trees, SyntaxTree::Not(c.clone()));
    }
    let ghost s1 = trees@;
    if check_next(c) {
        add_candidate(trees, SyntaxTree::Next(c.clone()));
    }
    let ghost s2 = trees@;
    if check_globally(c) {
        add_candidate(trees, SyntaxTree::Globally(c.clone()));
    }
    let ghost s3 = trees@;
    if check_finally(c) {
        add_candidate(trees, SyntaxTree::Finally(c.clone()));
    }
    proof {
        lemma_four_steps(s0, s1, s2, s3, trees@, rank, good);
        if s0.no_duplicates() && (forall|i: int| 0 <= i < s0.len() ==> !unary_on(#[trigger] s0[i], **c)) {
            assert forall|i: int| 0 <= i < s0.len() implies !good(#[trigger] s0[i]) by {
                assert(!unary_on(s0[i], **c));
            }
        }
    }
}

/// Appends every binary formula over `l` and `r` that the pruning rules keep.
fn push_binary_formulae(l: &Arc<SyntaxTree>, r: &Arc<SyntaxTree>, trees: &mut Vec<SyntaxTree>)
    ensures
        old(trees)@.len() <= final(trees)@.len(),
        forall|i: int| 0 <= i < old(trees)@.len() ==> #[trigger] final(trees)@[i] == old(trees)@[i],
        forall|i: int| old(trees)@.len() <= i < final(trees)@.len() ==> kept_binary_on(#[trigger] final(trees)@[i], **l, **r),
        forall|x: SyntaxTree| old(trees)@.contains(x) ==> #[trigger] final(trees)@.contains(x),
        binary_done(final(trees)@, *l, *r),
        old(trees)@.no_duplicates() && (forall|i: int| 0 <= i < old(trees)@.len() ==> !binary_on(#[trigger] old(trees)@[i], **l, **r))
            ==> final(trees)@.no_duplicates(),
{
    let ghost rank = |f: SyntaxTree| binary_rank(f);
    let ghost good = |f: SyntaxTree| kept_binary_on(f, **l, **r);
    let ghost s0 = trees@;
    if check_and(l, r) {
        add_candidate(trees, SyntaxTree::And(l.clone(), r.clone()));
    }
    let ghost s1 = trees@;
    if check_or(l, r) {
        add_candidate(trees, SyntaxTree::Or(l.clone(), r.clone()));
    }
    let ghost s2 = trees@;
    if check_implies(l, r) {
        add_candidate(trees, SyntaxTree::Implies(l.clone(), r.clone()));
    }
    let ghost s3 = trees@;
    if check_until(l, r) {
        add_candidate(trees, SyntaxTree::Until(l.clone(), r.clone()));
    }
    proof {
        lemma_four_steps(s0, s1, s2, s3, trees@, rank, good);
        if s0.no_duplicates() && (forall|i: int| 0 <= i < s0.len() ==> !binary_on(#[trigger] s0[i], **l, **r)) {
            assert forall|i: int| 0 <= i < s0.len() implies !good(#[trigger] s0[i]) by {
                assert(!binary_on(s0[i], **l, **r));
            }
        }
    }
}

impl SkeletonTree {
    /// Generates all canonical LTL formulae whose structure fits that of the `SkeletonTree`:
    /// leaves of the `SkeletonTree` become propositional variables of `vars`, unary nodes
    /// unary operators and binary nodes binary operators. A formula that the pruning rules
    /// reject is discarded, being equivalent to one that is included anyway. Sub-formulae
    /// are built once and shared among the formulae that contain them.
    pub fn gen_formulae(&self, vars: &[Idx]) -> (r: Vec<SyntaxTree>)
        ensures
            forall|i: int| 0 <= i < r@.len() ==> labels(#[trigger] r@[i], *self, vars@),
            forall|f: SyntaxTree| labels(f, *self, vars@) ==> #[trigger] r@.contains(f),
            vars@.no_duplicates() ==> r@.no_duplicates(),
        decreases self,
    {
        match self {
            SkeletonTree::Leaf => {
                let mut trees: Vec<SyntaxTree> = Vec::new();
                let mut i: usize = 0;
                while i < vars.len()
                    invariant
                        *self is Leaf,
                        i <= vars@.len(),
                        trees@.len() == i,
                        forall|j: int| 0 <= j < i ==> #[trigger] trees@[j] == SyntaxTree::Atom(vars@[j]),
                    decreases vars@.len() - i,
                {
                    trees.push(SyntaxTree::Atom(vars[i]));
                    i = i + 1;
                }
                assert forall|j: int| 0 <= j < trees@.len() implies labels(#[trigger] trees@[j], *self, vars@) by {
                    assert(vars@.contains(vars@[j]));
                }
                assert forall|f: SyntaxTree| labels(f, *self, vars@) implies #[trigger] trees@.contains(f) by {
                    if let SyntaxTree::Atom(v) = f {
                        let j = choose|j: int| 0 <= j < vars@.len() && vars@[j] == v;
                        assert(trees@[j] == f);
                    }
                }
                proof {
                    if vars@.no_duplicates() {
                        assert forall|j: int, k: int| 0 <= j < trees@.len() && 0 <= k < trees@.len() && j != k
                            implies trees@[j] != trees@[k] by {
                            assert(vars@[j] != vars@[k]);
                        }
                    }
                }
                trees
            },
            SkeletonTree::UnaryNode(child) => {
                let kids = child.gen_formulae(vars);
                let children = shared(&kids);
                assert forall|f: SyntaxTree| labels(f, **child, vars@) implies exists|i: int|
                    0 <= i < children@.len() && *#[trigger] children@[i] == f by {
                    assert(kids@.contains(f));
                }
                let ghost distinct = vars@.no_duplicates();
                let mut trees: Vec<SyntaxTree> = Vec::new();
                let mut j: usize = 0;
                while j < children.len()
                    invariant
                        j <= children@.len(),
                        *self is UnaryNode,
                        *self->UnaryNode_0 == **child,
                        distinct == vars@.no_duplicates(),
                        distinct ==> kids@.no_duplicates(),
                        children@.len() == kids@.len(),
                        forall|i: int| 0 <= i < children@.len() ==> *#[trigger] children@[i] == kids@[i],
                        forall|i: int| 0 <= i < children@.len() ==> labels(*#[trigger] children@[i], **child, vars@),
                        forall|f: SyntaxTree| labels(f, **child, vars@) ==> exists|i: int|
                            0 <= i < children@.len() && *#[trigger] children@[i] == f,
                        forall|i: int| 0 <= i < trees@.len() ==> labels(#[trigger] trees@[i], *self, vars@),
                        forall|i: int| 0 <= i < j ==> unary_done(trees@, #[trigger] children@[i]),
                        distinct ==> trees@.no_duplicates(),
                        distinct ==> forall|i: int, k: int| 0 <= i < trees@.len() && j <= k < children@.len()
                            ==> !unary_on(#[trigger] trees@[i], *#[trigger] children@[k]),
                    decreases children@.len() - j,
                {
                    let c = &children[j];
                    assert(labels(**c, **child, vars@));
                    let ghost before = trees@;
                    push_unaries(c, &mut trees);
                    proof {
                        assert forall|i: int| 0 <= i < trees@.len() implies labels(#[trigger] trees@[i], *self, vars@) by {
                            if i < before.len() {
                                assert(trees@[i] == before[i]);
                            } else {
                                assert(kept_unary_on(trees@[i], **c));
                            }
                        }
                        if distinct {
                            assert forall|i: int, k: int| 0 <= i < trees@.len() && j + 1 <= k < children@.len()
                                implies !unary_on(#[trigger] trees@[i], *#[trigger] children@[k]) by {
                                if i < before.len() {
                                    assert(trees@[i] == before[i]);
                                } else {
                                    assert(kept_unary_on(trees@[i], **c));
                                    assert(kids@[j as int] != kids@[k]);
                                }
                            }
                        }
                    }
                    j = j + 1;
                }
                assert forall|f: SyntaxTree| labels(f, *self, vars@) implies #[trigger] trees@.contains(f) by {
                    match f {
                        SyntaxTree::Not(x) | SyntaxTree::Next(x) | SyntaxTree::Globally(x)
                        | SyntaxTree::Finally(x) => {
                            assert(labels(*x, **child, vars@));
                            let i = choose|i: int| 0 <= i < children@.len() && *#[trigger] children@[i] == *x;
                            assert(unary_done(trees@, children@[i]));
                        },
                        _ => {},
                    }
                }
                trees
            },
            SkeletonTree::BinaryNode(pair) => {
                let left_kids = pair.0.gen_formulae(vars);
                let right_kids = pair.1.gen_formulae(vars);
                let lefts = shared(&left_kids);
                let rights = shared(&right_kids);
                let ghost distinct = vars@.no_duplicates();
                let mut trees: Vec<SyntaxTree> = Vec::new();
                let mut a: usize = 0;
                while a < lefts.len()
                    invariant
                        a <= lefts@.len(),
                        *self is BinaryNode,
                        *self->BinaryNode_0 == **pair,
                        distinct == vars@.no_duplicates(),
                        distinct ==> left_kids@.no_duplicates() && right_kids@.no_duplicates(),
                        lefts@.len() == left_kids@.len(),
                        rights@.len() == right_kids@.len(),
                        forall|i: int| 0 <= i < lefts@.len() ==> *#[trigger] lefts@[i] == left_kids@[i],
                        forall|i: int| 0 <= i < rights@.len() ==> *#[trigger] rights@[i] == right_kids@[i],
                        forall|i: int| 0 <= i < lefts@.len() ==> labels(*#[trigger] lefts@[i], pair.0, vars@),
                        forall|i: int| 0 <= i < rights@.len() ==> labels(*#[trigger] rights@[i], pair.1, vars@),
                        forall|i: int| 0 <= i < trees@.len() ==> labels(#[trigger] trees@[i], *self, vars@),
                        forall|i: int, k: int| 0 <= i < a && 0 <= k < rights@.len() ==>
                            binary_done(trees@, #[trigger] lefts@[i], #[trigger] rights@[k]),
                        distinct ==> trees@.no_duplicates(),
                        distinct ==> forall|i: int, x: int, y: int| 0 <= i < trees@.len() && a <= x < lefts@.len()
                            && 0 <= y < rights@.len() ==> !binary_on(#[trigger] trees@[i], *#[trigger] lefts@[x], *#[trigger] rights@[y]),
                    decreases lefts@.len() - a,
                {
                    let mut b: usize = 0;
                    while b < rights.len()
                        invariant
                            a < lefts@.len(),
                            b <= rights@.len(),
                            *self is BinaryNode,
                            *self->BinaryNode_0 == **pair,
                            distinct == vars@.no_duplicates(),
                            distinct ==> left_kids@.no_duplicates() && right_kids@.no_duplicates(),
                            lefts@.len() == left_kids@.len(),
                            rights@.len() == right_kids@.len(),
                            forall|i: int| 0 <= i < lefts@.len() ==> *#[trigger] lefts@[i] == left_kids@[i],
                            forall|i: int| 0 <= i < rights@.len() ==> *#[trigger] rights@[i] == right_kids@[i],
                            forall|i: int| 0 <= i < lefts@.len() ==> labels(*#[trigger] lefts@[i], pair.0, vars@),
                            forall|i: int| 0 <= i < rights@.len() ==> labels(*#[trigger] rights@[i], pair.1, vars@),
                            forall|i: int| 0 <= i < trees@.len() ==> labels(#[trigger] trees@[i], *self, vars@),
                            forall|i: int, k: int| 0 <= i < a && 0 <= k < rights@.len() ==>
                                binary_done(trees@, #[trigger] lefts@[i], #[trigger] rights@[k]),
                            forall|k: int| 0 <= k < b ==> binary_done(trees@, lefts@[a as int], #[trigger] rights@[k]),
                            distinct ==> trees@.no_duplicates(),
                            distinct ==> forall|i: int, x: int, y: int| 0 <= i < trees@.len() && a < x < lefts@.len()
                                && 0 <= y < rights@.len() ==> !binary_on(#[trigger] trees@[i], *#[trigger] lefts@[x], *#[trigger] rights@[y]),
                            distinct ==> forall|i: int, y: int| 0 <= i < trees@.len() && b <= y < rights@.len()
                                ==> !binary_on(#[trigger] trees@[i], *lefts@[a as int], *#[trigger] rights@[y]),
                        decreases rights@.len() - b,
                    {
                        let l = &lefts[a];
                        let r = &rights[b];
                        assert(labels(**l, pair.0, vars@));
                        assert(labels(**r, pair.1, vars@));
                        let ghost before = trees@;
                        push_binary_formulae(l, r, &mut trees);
                        proof {
                            assert forall|i: int| 0 <= i < trees@.len() implies labels(#[trigger] trees@[i], *self, vars@) by {
                                if i < before.len() {
                                    assert(trees@[i] == before[i]);
                                } else {
                                    assert(kept_binary_on(trees@[i], **l, **r));
                                }
                            }
                            if distinct {
                                assert forall|i: int, x: int, y: int| 0 <= i < trees@.len() && a < x < lefts@.len()
                                    && 0 <= y < rights@.len() implies !binary_on(#[trigger] trees@[i], *#[trigger] lefts@[x], *#[trigger] rights@[y]) by {
                                    if i < before.len() {
                                        assert(trees@[i] == before[i]);
                                    } else {
                                        assert(kept_binary_on(trees@[i], **l, **r));
                                        assert(left_kids@[a as int] != left_kids@[x]);
                                    }
                                }
                                assert forall|i: int, y: int| 0 <= i < trees@.len() && b + 1 <= y < rights@.len()
                                    implies !binary_on(#[trigger] trees@[i], *lefts@[a as int], *#[trigger] rights@[y]) by {
                                    if i < before.len() {
                                        assert(trees@[i] == before[i]);
                                    } else {
                                        assert(kept_binary_on(trees@[i], **l, **r));
                                        assert(right_kids@[b as int] != right_kids@[y]);
                                    }
                                }
                            }
                        }
                        b = b + 1;
                    }
                    a = a + 1;
                }
                assert forall|f: SyntaxTree| labels(f, *self, vars@) implies #[trigger] trees@.contains(f) by {
                    match f {
                        SyntaxTree::And(x, y) | SyntaxTree::Or(x, y) | SyntaxTree::Implies(x, y)
                        | SyntaxTree::Until(x, y) => {
                            assert(labels(*x, pair.0, vars@));
                            assert(labels(*y, pair.1, vars@));
                            assert(left_kids@.contains(*x));
                            assert(right_kids@.contains(*y));
                            let i = choose|i: int| 0 <= i < lefts@.len() && *#[trigger] lefts@[i] == *x;
                            let k = choose|k: int| 0 <= k < rights@.len() && *#[trigger] rights@[k] == *y;
                            assert(binary_done(trees@, lefts@[i], rights@[k]));
                        },
                        _ => {},
                    }
                }
                trees
            },
        }
    }
}

/// A formula has a single shape.
pub proof fn lemma_shape_unique(f: SyntaxTree, k1: SkeletonTree, k2: SkeletonTree)
    requires
        fits_shape(f, k1),
        fits_shape(f, k2),
    ensures
        k1 == k2,
    decreases k1,
{
    match (k1, k2) {
        (SkeletonTree::UnaryNode(c1), SkeletonTree::UnaryNode(c2)) => match f {
            SyntaxTree::Not(x) | SyntaxTree::Next(x) | SyntaxTree::Globally(x)
            | SyntaxTree::Finally(x) => lemma_shape_unique(arc_content(x), arc_content(c1), arc_content(c2)),
            _ => {},
        },
        (SkeletonTree::BinaryNode(p1), SkeletonTree::BinaryNode(p2)) => match f {
            SyntaxTree::And(x, y) | SyntaxTree::Or(x, y) | SyntaxTree::Implies(x, y)
            | SyntaxTree::Until(x, y) => {
                lemma_shape_unique(arc_content(x), arc_content(p1).0, arc_content(p2).0);
                lemma_shape_unique(arc_content(y), arc_content(p1).1, arc_content(p2).1);
            },
            _ => {},
        },
        _ => {},
    }
}

/// Generates all canonical formulae of the given size over the variables `vars`: every
/// one it returns has that size and is canonical, every such formula is among them, and
/// none comes twice when `vars` has no repetition.
pub fn gen_formulae(size: usize, vars: &[Idx]) -> (r: Vec<SyntaxTree>)
    requires
        size >= 1,
    ensures
        forall|i: int| 0 <= i < r@.len() ==> (#[trigger] r@[i]).size() == size && canonical(r@[i], vars@),
        forall|f: SyntaxTree| f.size() == size && canonical(f, vars@) ==> #[trigger] r@.contains(f),
        vars@.no_duplicates() ==> r@.no_duplicates(),
{
    let skeletons = SkeletonTree::gen(size);
    let ghost distinct = vars@.no_duplicates();
    let mut formulae: Vec<SyntaxTree> = Vec::new();
    let mut k: usize = 0;
    while k < skeletons.len()
        invariant
            k <= skeletons@.len(),
            distinct == vars@.no_duplicates(),
            skeletons@.no_duplicates(),
            forall|i: int| 0 <= i < skeletons@.len() ==> (#[trigger] skeletons@[i]).size() == size,
            forall|i: int| 0 <= i < formulae@.len() ==> (#[trigger] formulae@[i]).size() == size
                && canonical(formulae@[i], vars@),
            forall|f: SyntaxTree, i: int| 0 <= i < k && labels(f, #[trigger] skeletons@[i], vars@)
                ==> #[trigger] formulae@.contains(f),
            distinct ==> formulae@.no_duplicates(),
            forall|i: int, m: int| 0 <= i < formulae@.len() && k <= m < skeletons@.len()
                ==> !fits_shape(#[trigger] formulae@[i], #[trigger] skeletons@[m]),
        decreases skeletons@.len() - k,
    {
        let fs = skeletons[k].gen_formulae(vars);
        let ghost start = formulae@;
        let mut j: usize = 0;
        while j < fs.len()
            invariant
                k < skeletons@.len(),
                j <= fs@.len(),
                distinct == vars@.no_duplicates(),
                distinct ==> fs@.no_duplicates(),
                skeletons@.no_duplicates(),
                forall|i: int| 0 <= i < skeletons@.len() ==> (#[trigger] skeletons@[i]).size() == size,
                forall|i: int| 0 <= i < fs@.len() ==> labels(#[trigger] fs@[i], skeletons@[k as int], vars@),
                forall|i: int| 0 <= i < formulae@.len() ==> (#[trigger] formulae@[i]).size() == size
                    && canonical(formulae@[i], vars@),
                forall|f: SyntaxTree, i: int| 0 <= i < k && labels(f, #[trigger] skeletons@[i], vars@)
                    ==> #[trigger] formulae@.contains(f),
                forall|i: int| 0 <= i < j ==> formulae@.contains(#[trigger] fs@[i]),
                formulae@.len() == start.len() + j,
                forall|i: int| 0 <= i < start.len() ==> #[trigger] formulae@[i] == start[i],
                forall|i: int| 0 <= i < j ==> #[trigger] formulae@[start.len() + i] == fs@[i],
                distinct ==> formulae@.no_duplicates(),
                forall|i: int, m: int| 0 <= i < start.len() && k <= m < skeletons@.len()
                    ==> !fits_shape(#[trigger] start[i], #[trigger] skeletons@[m]),
            decreases fs@.len() - j,
        {
            proof {
                lemma_fits_size(fs@[j as int], skeletons@[k as int]);
            }
            let ghost before = formulae@;
            add_candidate(&mut formulae, fs[j].share());
            proof {
                if distinct {
                    assert forall|x: int, y: int| 0 <= x < formulae@.len() && 0 <= y < formulae@.len() && x != y
                        implies formulae@[x] != formulae@[y] by {
                        if x < before.len() && y < before.len() {
                            assert(before[x] != before[y]);
                        } else {
                            let old_index = if x < before.len() { x } else { y };
                            if old_index < start.len() {
                                assert(formulae@[old_index] == start[old_index]);
                                assert(!fits_shape(start[old_index], skeletons@[k as int]));
                            } else {
                                let t = old_index - start.len();
                                assert(before[start.len() + t] == fs@[t]);
                                assert(formulae@[old_index] == before[old_index]);
                                assert(fs@[t] != fs@[j as int]);
                            }
                        }
                    }
                }
            }
            j = j + 1;
        }
        assert forall|f: SyntaxTree, i: int| 0 <= i < k + 1 && labels(f, #[trigger] skeletons@[i], vars@)
            implies #[trigger] formulae@.contains(f) by {
            if i == k {
                assert(fs@.contains(f));
                let j = choose|j: int| 0 <= j < fs@.len() && fs@[j] == f;
                assert(formulae@.contains(fs@[j]));
            }
        }
        assert forall|i: int, m: int| 0 <= i < formulae@.len() && k + 1 <= m < skeletons@.len()
            implies !fits_shape(#[trigger] formulae@[i], #[trigger] skeletons@[m]) by {
            if i < start.len() {
                assert(formulae@[i] == start[i]);
            } else {
                let t = i - start.len();
                assert(formulae@[start.len() + t] == fs@[t]);
                assert(skeletons@[k as int] != skeletons@[m]);
                if fits_shape(formulae@[i], skeletons@[m]) {
                    lemma_shape_unique(formulae@[i], skeletons@[k as int], skeletons@[m]);
                }
            }
        }
        k = k + 1;
    }
    assert forall|f: SyntaxTree| f.size() == size && canonical(f, vars@) implies #[trigger] formulae@.contains(f) by {
        assert(covers(skeletons@, f));
        let i = choose|i: int| 0 <= i < skeletons@.len() && fits_shape(f, #[trigger] skeletons@[i]);
        assert(labels(f, skeletons@[i], vars@));
    }
    formulae
}

/// The variables of a canonical formula over `vars` are below any bound on `vars`.
pub proof fn lemma_canonical_bound(f: SyntaxTree, vars: Seq<Idx>, n: nat)
    requires
        canonical(f, vars),
        forall|k: int| 0 <= k < vars.len() ==> #[trigger] vars[k] < n,
    ensures
        f.var_bound() <= n,
    decreases f,
{
    match f {
        SyntaxTree::Atom(v) => {
            let k = choose|k: int| 0 <= k < vars.len() && vars[k] == v;
            assert(vars[k] < n);
        },
        SyntaxTree::Not(c) | SyntaxTree::Next(c) | SyntaxTree::Globally(c)
        | SyntaxTree::Finally(c) => lemma_canonical_bound(arc_content(c), vars, n),
        SyntaxTree::And(l, r) | SyntaxTree::Or(l, r) | SyntaxTree::Implies(l, r)
        | SyntaxTree::Until(l, r) => {
            lemma_canonical_bound(arc_content(l), vars, n);
            lemma_canonical_bound(arc_content(r), vars, n);
        },
    }
}

/// Relies on rayon's `par_iter` over a slice and `IndexedParallelIterator::position_any`:
/// the index of some candidate on which the predicate holds, or `None` when it holds on
/// none of them. Which index comes back, when several qualify, depends on the scheduling.
#[verifier::external_body]
fn position_any_consistent(sample: &Sample, candidates: &Vec<SyntaxTree>) -> (r: Option<usize>)
    requires
        sample.wf(),
        forall|i: int| 0 <= i < candidates@.len() ==> (#[trigger] candidates@[i]).var_bound() <= sample.width(),
    ensures
        match r {
            Some(i) => i < candidates@.len() && sample.consistent_with(candidates@[i as int]),
            None => forall|i: int| 0 <= i < candidates@.len() ==> !sample.consistent_with(#[trigger] candidates@[i]),
        },
{
    candidates.par_iter().position_any(|formula| sample.is_consistent(formula))
}

/// The size from which a multithreaded search spreads the candidates of a size over
/// threads: below it the overhead is not worth it.
pub const PARALLEL_FROM_SIZE: usize = 6;

/// Searches the canonical formulae of one size for one consistent with the sample.
/// Single-threaded, the first consistent formula in the order of enumeration is returned;
/// multithreaded, any consistent one.
pub fn solve_size(sample: &Sample, size: usize, multithread: bool) -> (r: Option<SyntaxTree>)
    requires
        sample.wf(),
        size >= 1,
    ensures
        r matches Some(f) ==> f.size() == size && canonical(f, sample.visible()) && sample.consistent_with(f),
        r is None ==> forall|f: SyntaxTree| f.size() == size && canonical(f, sample.visible())
            ==> !sample.consistent_with(f),
{
    let vars = sample.vars();
    let candidates = gen_formulae(size, vars.as_slice());
    proof {
        crate::trace::lemma_visible_below(sample.names(), sample.width());
        assert forall|i: int| 0 <= i < candidates@.len() implies (#[trigger] candidates@[i]).var_bound() <= sample.width() by {
            lemma_canonical_bound(candidates@[i], vars@, sample.width());
        }
    }
    if multithread && size >= PARALLEL_FROM_SIZE {
        match position_any_consistent(sample, &candidates) {
            Some(i) => Some(candidates[i].share()),
            None => {
                assert forall|f: SyntaxTree| f.size() == size && canonical(f, sample.visible())
                    implies !sample.consistent_with(f) by {
                    assert(candidates@.contains(f));
                }
                None
            },
        }
    } else {
        let mut i: usize = 0;
        while i < candidates.len()
            invariant
                sample.wf(),
                vars@ == sample.visible(),
                i <= candidates@.len(),
                forall|j: int| 0 <= j < candidates@.len() ==> (#[trigger] candidates@[j]).size() == size
                    && canonical(candidates@[j], vars@),
                forall|j: int| 0 <= j < candidates@.len() ==> (#[trigger] candidates@[j]).var_bound() <= sample.width(),
                forall|j: int| 0 <= j < i ==> !sample.consistent_with(#[trigger] candidates@[j]),
            decreases candidates@.len() - i,
        {
            if sample.is_consistent(&candidates[i]) {
                return Some(candidates[i].share());
            }
            i = i + 1;
        }
        assert forall|f: SyntaxTree| f.size() == size && canonical(f, sample.visible())
            implies !sample.consistent_with(f) by {
            assert(candidates@.contains(f));
        }
        None
    }
}

/// Finds a formula consistent with the given `Sample`, of the least size among the
/// canonical formulae over its visible variables, trying sizes 1, 2, 3, ... in turn.
/// A sample that is not solvable gives `None` at once, before any enumeration.
pub fn solve(sample: &Sample, multithread: bool) -> (r: Option<SyntaxTree>)
    requires
        sample.wf(),
    ensures
        !sample.solvable() ==> r is None,
        r matches Some(f) ==> canonical(f, sample.visible()) && sample.consistent_with(f),
        r matches Some(f) ==> forall|g: SyntaxTree| g.size() < f.size() && canonical(g, sample.visible())
            ==> !sample.consistent_with(g),
        r is None && sample.solvable() ==> forall|g: SyntaxTree| g.size() < usize::MAX && canonical(g, sample.visible())
            ==> !sample.consistent_with(g),
{
    if !sample.is_solvable() {
        return None;
    }
    assert forall|g: SyntaxTree| g.size() < 1 && canonical(g, sample.visible()) implies !sample.consistent_with(g) by {
        lemma_size_positive(g);
    }
    let mut size: usize = 1;
    while size < usize::MAX
        invariant
            sample.wf(),
            sample.solvable(),
            1 <= size <= usize::MAX,
            forall|g: SyntaxTree| g.size() < size && canonical(g, sample.visible()) ==> !sample.consistent_with(g),
        decreases usize::MAX - size,
    {
        if let Some(f) = solve_size(sample, size, multithread) {
            return Some(f);
        }
        size = size + 1;
    }
    None
}

} // verus!
