use crate::syntax::SyntaxTree;
use std::sync::Arc;
use vstd::prelude::*;

verus! {

// Equivalences behind the pruning rules that hold on finite traces: the formula a rule
// rejects has the same meaning, on every suffix of every trace, as a formula of no
// greater size. Whether that formula is itself enumerated is not stated here.

pub open spec fn not(a: SyntaxTree) -> SyntaxTree {
    SyntaxTree::Not(Arc::new(a))
}

pub open spec fn next(a: SyntaxTree) -> SyntaxTree {
    SyntaxTree::Next(Arc::new(a))
}

pub open spec fn globally(a: SyntaxTree) -> SyntaxTree {
    SyntaxTree::Globally(Arc::new(a))
}

pub open spec fn finally(a: SyntaxTree) -> SyntaxTree {
    SyntaxTree::Finally(Arc::new(a))
}

pub open spec fn and(a: SyntaxTree, b: SyntaxTree) -> SyntaxTree {
    SyntaxTree::And(Arc::new(a), Arc::new(b))
}

pub open spec fn or(a: SyntaxTree, b: SyntaxTree) -> SyntaxTree {
    SyntaxTree::Or(Arc::new(a), Arc::new(b))
}

pub open spec fn implies(a: SyntaxTree, b: SyntaxTree) -> SyntaxTree {
    SyntaxTree::Implies(Arc::new(a), Arc::new(b))
}

pub open spec fn until(a: SyntaxTree, b: SyntaxTree) -> SyntaxTree {
    SyntaxTree::Until(Arc::new(a), Arc::new(b))
}

/// Two formulae hold on the same suffixes of every trace.
pub open spec fn equivalent(f: SyntaxTree, g: SyntaxTree) -> bool {
    forall|t: Seq<Seq<bool>>, i: int| 0 <= i <= t.len() ==> #[trigger] f.holds_at(t, i) == g.holds_at(t, i)
}

/// The Boolean rules: `¬¬a` is `a`; `¬(a → b)` is `a ∧ ¬b`; De Morgan's laws turn a
/// negated conjunction or disjunction with a negated operand into one without the outer
/// negation; `¬a ∨ b` and `¬a → b` are `a → b` and `a ∨ b`; `a → ¬b` is `¬(b ∧ a)`;
/// `a → (b → c)` is `(a ∧ b) → c`; `a ∧ b` and `a ∨ b` do not depend on the order of
/// their operands; `(a ∨ b) ∧ a` and `(a ∧ b) ∨ a` are `a`. Each rewritten formula is
/// no larger than the rejected one.
pub proof fn lemma_boolean_rules(a: SyntaxTree, b: SyntaxTree, c: SyntaxTree)
    ensures
        equivalent(not(not(a)), a) && a.size() < not(not(a)).size(),
        equivalent(not(implies(a, b)), and(a, not(b))) && and(a, not(b)).size() == not(implies(a, b)).size(),
        equivalent(not(and(not(a), b)), or(a, not(b))) && or(a, not(b)).size() < not(and(not(a), b)).size(),
        equivalent(not(and(a, not(b))), or(not(a), b)) && or(not(a), b).size() < not(and(a, not(b))).size(),
        equivalent(not(or(not(a), b)), and(a, not(b))) && and(a, not(b)).size() < not(or(not(a), b)).size(),
        equivalent(not(or(a, not(b))), and(not(a), b)) && and(not(a), b).size() < not(or(a, not(b))).size(),
        equivalent(or(not(a), b), implies(a, b)) && implies(a, b).size() < or(not(a), b).size(),
        equivalent(implies(not(a), b), or(a, b)) && or(a, b).size() < implies(not(a), b).size(),
        equivalent(implies(a, not(b)), not(and(b, a))) && not(and(b, a)).size() == implies(a, not(b)).size(),
        equivalent(implies(a, implies(b, c)), implies(and(a, b), c))
            && implies(and(a, b), c).size() == implies(a, implies(b, c)).size(),
        equivalent(and(a, b), and(b, a)) && equivalent(or(a, b), or(b, a)),
        equivalent(and(or(a, b), a), a) && a.size() < and(or(a, b), a).size(),
        equivalent(or(and(a, b), a), a) && a.size() < or(and(a, b), a).size(),
{
    reveal_with_fuel(SyntaxTree::holds_at, 4);
    reveal_with_fuel(SyntaxTree::temporal_from, 3);
    reveal_with_fuel(SyntaxTree::size, 4);
    crate::learn::lemma_size_positive(a);
    crate::learn::lemma_size_positive(b);
}

/// The rules on pairs of binary formulae: `∧` and `∨` are associative; two implications
/// with the same premise or the same conclusion combine into one; a conjunction of two
/// disjunctions sharing an operand, or a disjunction of two conjunctions sharing one, is
/// a smaller formula by distributivity. Each rewritten formula is no larger.
pub proof fn lemma_pair_rules(a: SyntaxTree, b: SyntaxTree, c: SyntaxTree)
    ensures
        equivalent(and(and(a, b), c), and(a, and(b, c))) && and(a, and(b, c)).size() == and(and(a, b), c).size(),
        equivalent(or(or(a, b), c), or(a, or(b, c))) && or(a, or(b, c)).size() == or(or(a, b), c).size(),
        equivalent(and(implies(a, b), implies(a, c)), implies(a, and(b, c)))
            && implies(a, and(b, c)).size() < and(implies(a, b), implies(a, c)).size(),
        equivalent(and(implies(a, c), implies(b, c)), implies(or(a, b), c))
            && implies(or(a, b), c).size() < and(implies(a, c), implies(b, c)).size(),
        equivalent(or(implies(a, b), implies(a, c)), implies(a, or(b, c)))
            && implies(a, or(b, c)).size() < or(implies(a, b), implies(a, c)).size(),
        equivalent(or(implies(a, c), implies(b, c)), implies(and(a, b), c))
            && implies(and(a, b), c).size() < or(implies(a, c), implies(b, c)).size(),
        equivalent(and(or(a, b), or(a, c)), or(a, and(b, c)))
            && or(a, and(b, c)).size() < and(or(a, b), or(a, c)).size(),
        equivalent(or(and(a, b), and(a, c)), and(a, or(b, c)))
            && and(a, or(b, c)).size() < or(and(a, b), and(a, c)).size(),
{
    reveal_with_fuel(SyntaxTree::holds_at, 4);
    reveal_with_fuel(SyntaxTree::size, 4);
    crate::learn::lemma_size_positive(a);
    crate::learn::lemma_size_positive(c);
}

proof fn lemma_untils_same_right_at(a: SyntaxTree, b: SyntaxTree, c: SyntaxTree, t: Seq<Seq<bool>>, i: int)
    requires
        0 <= i <= t.len(),
    ensures
        and(until(a, c), until(b, c)).holds_at(t, i) == until(and(a, b), c).holds_at(t, i),
    decreases t.len() - i,
{
    reveal_with_fuel(SyntaxTree::holds_at, 4);
    reveal_with_fuel(SyntaxTree::temporal_from, 3);
    if i < t.len() {
        lemma_untils_same_right_at(a, b, c, t, i + 1);
    }
}

proof fn lemma_untils_same_left_at(a: SyntaxTree, b: SyntaxTree, c: SyntaxTree, t: Seq<Seq<bool>>, i: int)
    requires
        0 <= i <= t.len(),
    ensures
        or(until(a, b), until(a, c)).holds_at(t, i) == until(a, or(b, c)).holds_at(t, i),
    decreases t.len() - i,
{
    reveal_with_fuel(SyntaxTree::holds_at, 4);
    reveal_with_fuel(SyntaxTree::temporal_from, 3);
    if i < t.len() {
        lemma_untils_same_left_at(a, b, c, t, i + 1);
    }
}

proof fn lemma_until_absorbs_at(a: SyntaxTree, c: SyntaxTree, t: Seq<Seq<bool>>, i: int)
    requires
        0 <= i <= t.len(),
    ensures
        until(a, until(a, c)).holds_at(t, i) == until(a, c).holds_at(t, i),
    decreases t.len() - i,
{
    reveal_with_fuel(SyntaxTree::holds_at, 4);
    reveal_with_fuel(SyntaxTree::temporal_from, 3);
    if i < t.len() {
        lemma_until_absorbs_at(a, c, t, i + 1);
    }
}

/// The rules on until: `(a U c) ∧ (b U c)` is `(a ∧ b) U c`, `(a U b) ∨ (a U c)` is
/// `a U (b ∨ c)` and `a U (a U c)` is `a U c`, each smaller.
pub proof fn lemma_until_rules(a: SyntaxTree, b: SyntaxTree, c: SyntaxTree)
    ensures
        equivalent(and(until(a, c), until(b, c)), until(and(a, b), c))
            && until(and(a, b), c).size() < and(until(a, c), until(b, c)).size(),
        equivalent(or(until(a, b), until(a, c)), until(a, or(b, c)))
            && until(a, or(b, c)).size() < or(until(a, b), until(a, c)).size(),
        equivalent(until(a, until(a, c)), until(a, c)) && until(a, c).size() < until(a, until(a, c)).size(),
{
    reveal_with_fuel(SyntaxTree::size, 4);
    assert forall|t: Seq<Seq<bool>>, i: int| 0 <= i <= t.len() implies
        #[trigger] and(until(a, c), until(b, c)).holds_at(t, i) == until(and(a, b), c).holds_at(t, i) by {
        lemma_untils_same_right_at(a, b, c, t, i);
    }
    assert forall|t: Seq<Seq<bool>>, i: int| 0 <= i <= t.len() implies
        #[trigger] or(until(a, b), until(a, c)).holds_at(t, i) == until(a, or(b, c)).holds_at(t, i) by {
        lemma_untils_same_left_at(a, b, c, t, i);
    }
    assert forall|t: Seq<Seq<bool>>, i: int| 0 <= i <= t.len() implies
        #[trigger] until(a, until(a, c)).holds_at(t, i) == until(a, c).holds_at(t, i) by {
        lemma_until_absorbs_at(a, c, t, i);
    }
    crate::learn::lemma_size_positive(a);
    crate::learn::lemma_size_positive(b);
    crate::learn::lemma_size_positive(c);
}

/// `X` distributes over `∧` and `∨`: `X a ∧ X b` is `X(a ∧ b)` and `X a ∨ X b` is
/// `X(a ∨ b)`, both smaller.
pub proof fn lemma_next_rules(a: SyntaxTree, b: SyntaxTree)
    ensures
        equivalent(and(next(a), next(b)), next(and(a, b))) && next(and(a, b)).size() < and(next(a), next(b)).size(),
        equivalent(or(next(a), next(b)), next(or(a, b))) && next(or(a, b)).size() < or(next(a), next(b)).size(),
{
    reveal_with_fuel(SyntaxTree::holds_at, 4);
    reveal_with_fuel(SyntaxTree::temporal_from, 3);
    reveal_with_fuel(SyntaxTree::size, 4);
}

proof fn lemma_globally_twice_at(a: SyntaxTree, t: Seq<Seq<bool>>, i: int)
    requires
        0 <= i <= t.len(),
    ensures
        globally(globally(a)).holds_at(t, i) == globally(a).holds_at(t, i),
    decreases t.len() - i,
{
    reveal_with_fuel(SyntaxTree::holds_at, 4);
    reveal_with_fuel(SyntaxTree::temporal_from, 3);
    if i < t.len() {
        lemma_globally_twice_at(a, t, i + 1);
    }
}

proof fn lemma_finally_twice_at(a: SyntaxTree, t: Seq<Seq<bool>>, i: int)
    requires
        0 <= i <= t.len(),
    ensures
        finally(finally(a)).holds_at(t, i) == finally(a).holds_at(t, i),
    decreases t.len() - i,
{
    reveal_with_fuel(SyntaxTree::holds_at, 4);
    reveal_with_fuel(SyntaxTree::temporal_from, 3);
    if i < t.len() {
        lemma_finally_twice_at(a, t, i + 1);
    }
}

proof fn lemma_not_finally_at(a: SyntaxTree, t: Seq<Seq<bool>>, i: int)
    requires
        0 <= i <= t.len(),
    ensures
        not(finally(a)).holds_at(t, i) == globally(not(a)).holds_at(t, i),
    decreases t.len() - i,
{
    reveal_with_fuel(SyntaxTree::holds_at, 4);
    reveal_with_fuel(SyntaxTree::temporal_from, 3);
    if i < t.len() {
        lemma_not_finally_at(a, t, i + 1);
    }
}

proof fn lemma_globally_and_at(a: SyntaxTree, b: SyntaxTree, t: Seq<Seq<bool>>, i: int)
    requires
        0 <= i <= t.len(),
    ensures
        and(globally(a), globally(b)).holds_at(t, i) == globally(and(a, b)).holds_at(t, i),
    decreases t.len() - i,
{
    reveal_with_fuel(SyntaxTree::holds_at, 4);
    reveal_with_fuel(SyntaxTree::temporal_from, 3);
    if i < t.len() {
        lemma_globally_and_at(a, b, t, i + 1);
    }
}

proof fn lemma_finally_or_at(a: SyntaxTree, b: SyntaxTree, t: Seq<Seq<bool>>, i: int)
    requires
        0 <= i <= t.len(),
    ensures
        or(finally(a), finally(b)).holds_at(t, i) == finally(or(a, b)).holds_at(t, i),
    decreases t.len() - i,
{
    reveal_with_fuel(SyntaxTree::holds_at, 4);
    reveal_with_fuel(SyntaxTree::temporal_from, 3);
    if i < t.len() {
        lemma_finally_or_at(a, b, t, i + 1);
    }
}

/// The temporal rules that hold on finite traces: `G G a` is `G a`, `F F a` is `F a`,
/// `¬F a` is `G ¬a`, `G a ∧ G b` is `G(a ∧ b)` and `F a ∨ F b` is `F(a ∨ b)`; each
/// rewritten formula is no larger than the rejected one.
pub proof fn lemma_temporal_rules(a: SyntaxTree, b: SyntaxTree)
    ensures
        equivalent(globally(globally(a)), globally(a)) && globally(a).size() < globally(globally(a)).size(),
        equivalent(finally(finally(a)), finally(a)) && finally(a).size() < finally(finally(a)).size(),
        equivalent(not(finally(a)), globally(not(a))) && globally(not(a)).size() == not(finally(a)).size(),
        equivalent(and(globally(a), globally(b)), globally(and(a, b)))
            && globally(and(a, b)).size() < and(globally(a), globally(b)).size(),
        equivalent(or(finally(a), finally(b)), finally(or(a, b)))
            && finally(or(a, b)).size() < or(finally(a), finally(b)).size(),
{
    reveal_with_fuel(SyntaxTree::holds_at, 4);
    reveal_with_fuel(SyntaxTree::temporal_from, 3);
    reveal_with_fuel(SyntaxTree::size, 4);
    assert forall|t: Seq<Seq<bool>>, i: int| 0 <= i <= t.len() implies
        #[trigger] globally(globally(a)).holds_at(t, i) == globally(a).holds_at(t, i) by {
        lemma_globally_twice_at(a, t, i);
    }
    assert forall|t: Seq<Seq<bool>>, i: int| 0 <= i <= t.len() implies
        #[trigger] finally(finally(a)).holds_at(t, i) == finally(a).holds_at(t, i) by {
        lemma_finally_twice_at(a, t, i);
    }
    assert forall|t: Seq<Seq<bool>>, i: int| 0 <= i <= t.len() implies
        #[trigger] not(finally(a)).holds_at(t, i) == globally(not(a)).holds_at(t, i) by {
        lemma_not_finally_at(a, t, i);
    }
    assert forall|t: Seq<Seq<bool>>, i: int| 0 <= i <= t.len() implies
        #[trigger] and(globally(a), globally(b)).holds_at(t, i) == globally(and(a, b)).holds_at(t, i) by {
        lemma_globally_and_at(a, b, t, i);
    }
    assert forall|t: Seq<Seq<bool>>, i: int| 0 <= i <= t.len() implies
        #[trigger] or(finally(a), finally(b)).holds_at(t, i) == finally(or(a, b)).holds_at(t, i) by {
        lemma_finally_or_at(a, b, t, i);
    }
    crate::learn::lemma_size_positive(a);
    crate::learn::lemma_size_positive(b);
}

} // verus!
