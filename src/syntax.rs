use std::sync::Arc;
use vstd::prelude::*;
use vstd::string::StringExecFns;

verus! {

/// The type representing time instants.
pub type Time = u8;

/// The type of indexes of propositional variables.
pub type Idx = u8;

/// A formula represented via its syntax tree.
/// Sub-formulas are shared through `Arc`, so that a formula can be handed to other threads.
#[derive(Debug, Clone)]
pub enum SyntaxTree {
    Atom(Idx),
    Not(Arc<SyntaxTree>),
    Next(Arc<SyntaxTree>),
    Globally(Arc<SyntaxTree>),
    Finally(Arc<SyntaxTree>),
    And(Arc<SyntaxTree>, Arc<SyntaxTree>),
    Or(Arc<SyntaxTree>, Arc<SyntaxTree>),
    Implies(Arc<SyntaxTree>, Arc<SyntaxTree>),
    Until(Arc<SyntaxTree>, Arc<SyntaxTree>),
}

/// The valuations of a trace, one sequence of booleans per time instant.
pub open spec fn steps(trace: Seq<Vec<bool>>) -> Seq<Seq<bool>> {
    trace.map_values(|step: Vec<bool>| step@)
}

/// The text `op(inner)`.
pub open spec fn unary_text(op: char, inner: Seq<char>) -> Seq<char> {
    seq![op, '('] + inner + seq![')']
}

/// The text `(left)op(right)`.
pub open spec fn binary_text(op: char, left: Seq<char>, right: Seq<char>) -> Seq<char> {
    seq!['('] + left + seq![')', op, '('] + right + seq![')']
}

/// The decimal digit of value `d`, for `d` below ten.
pub open spec fn digit(d: nat) -> char {
    if d == 0 { '0' }
    else if d == 1 { '1' }
    else if d == 2 { '2' }
    else if d == 3 { '3' }
    else if d == 4 { '4' }
    else if d == 5 { '5' }
    else if d == 6 { '6' }
    else if d == 7 { '7' }
    else if d == 8 { '8' }
    else { '9' }
}

/// The decimal digits of `n`, most significant first.
pub open spec fn decimal(n: nat) -> Seq<char>
    decreases n,
{
    if n < 10 {
        seq![digit(n)]
    } else {
        decimal(n / 10).push(digit(n % 10))
    }
}

impl SyntaxTree {
    /// The size of a formula: each atom and each unary operator counts one,
    /// a binary operator counts the sizes of its two sides.
    pub open spec fn size(&self) -> nat
        decreases self,
    {
        match self {
            SyntaxTree::Atom(_) => 1,
            SyntaxTree::Not(c) | SyntaxTree::Next(c) | SyntaxTree::Globally(c)
            | SyntaxTree::Finally(c) => c.size() + 1,
            SyntaxTree::And(l, r) | SyntaxTree::Or(l, r) | SyntaxTree::Implies(l, r)
            | SyntaxTree::Until(l, r) => l.size() + r.size(),
        }
    }

    /// The highest variable index occurring in the formula, plus one.
    pub open spec fn var_bound(&self) -> nat
        decreases self,
    {
        match self {
            SyntaxTree::Atom(v) => (*v + 1) as nat,
            SyntaxTree::Not(c) | SyntaxTree::Next(c) | SyntaxTree::Globally(c)
            | SyntaxTree::Finally(c) => c.var_bound(),
            SyntaxTree::And(l, r) | SyntaxTree::Or(l, r) | SyntaxTree::Implies(l, r)
            | SyntaxTree::Until(l, r) => if l.var_bound() >= r.var_bound() {
                l.var_bound()
            } else {
                r.var_bound()
            },
        }
    }

    /// Every variable of the formula has a value at every instant of the trace.
    pub open spec fn fits(&self, trace: Seq<Seq<bool>>) -> bool {
        forall|k: int| 0 <= k < trace.len() ==> self.var_bound() <= #[trigger] trace[k].len()
    }

    /// The formula holds on the suffix of `trace` that starts at instant `i`.
    pub open spec fn holds_at(&self, trace: Seq<Seq<bool>>, i: int) -> bool
        decreases self, 1int, 0int,
    {
        match self {
            SyntaxTree::Atom(v) => 0 <= i < trace.len() && trace[i][*v as int],
            SyntaxTree::Not(c) => !c.holds_at(trace, i),
            SyntaxTree::Next(c) => 0 <= i < trace.len() && c.holds_at(trace, i + 1),
            SyntaxTree::And(l, r) => l.holds_at(trace, i) && r.holds_at(trace, i),
            SyntaxTree::Or(l, r) => l.holds_at(trace, i) || r.holds_at(trace, i),
            SyntaxTree::Implies(l, r) => !l.holds_at(trace, i) || r.holds_at(trace, i),
            SyntaxTree::Globally(_) | SyntaxTree::Finally(_) | SyntaxTree::Until(_, _) => {
                self.temporal_from(trace, i)
            },
        }
    }

    /// The meaning of `G c`, `F c` and `l U r` on the suffix from instant `i`, by their
    /// fix-point unfolding: `G c` holds on the empty suffix and otherwise when `c` holds
    /// now and `G c` from the next instant; `F c` fails on the empty suffix and otherwise
    /// holds when `c` holds now or `F c` from the next instant; `l U r` fails on the empty
    /// suffix and otherwise holds when `r` holds now, or `l` holds now and `l U r` from
    /// the next instant.
    pub open spec fn temporal_from(&self, trace: Seq<Seq<bool>>, i: int) -> bool
        decreases self, 0int, trace.len() - i,
    {
        if 0 <= i < trace.len() {
            match self {
                SyntaxTree::Globally(c) => c.holds_at(trace, i) && self.temporal_from(trace, i + 1),
                SyntaxTree::Finally(c) => c.holds_at(trace, i) || self.temporal_from(trace, i + 1),
                SyntaxTree::Until(l, r) => r.holds_at(trace, i) || (l.holds_at(trace, i)
                    && self.temporal_from(trace, i + 1)),
                _ => false,
            }
        } else {
            self is Globally
        }
    }

    /// The formula holds on the whole trace.
    pub open spec fn holds(&self, trace: Seq<Seq<bool>>) -> bool {
        self.holds_at(trace, 0)
    }

    /// The formula as text, with each atom written as the name it indexes in `names`.
    pub open spec fn named_text(&self, names: Seq<Seq<char>>) -> Seq<char>
        decreases self,
    {
        match self {
            SyntaxTree::Atom(v) => names[*v as int],
            SyntaxTree::Not(c) => unary_text('¬', c.named_text(names)),
            SyntaxTree::Next(c) => unary_text('X', c.named_text(names)),
            SyntaxTree::Globally(c) => unary_text('G', c.named_text(names)),
            SyntaxTree::Finally(c) => unary_text('F', c.named_text(names)),
            SyntaxTree::And(l, r) => binary_text('∧', l.named_text(names), r.named_text(names)),
            SyntaxTree::Or(l, r) => binary_text('∨', l.named_text(names), r.named_text(names)),
            SyntaxTree::Implies(l, r) => binary_text('→', l.named_text(names), r.named_text(names)),
            SyntaxTree::Until(l, r) => binary_text('U', l.named_text(names), r.named_text(names)),
        }
    }

    /// The formula as text, with the atom of index `n` written `xn`.
    pub open spec fn text(&self) -> Seq<char>
        decreases self,
    {
        match self {
            SyntaxTree::Atom(v) => seq!['x'] + decimal(*v as nat),
            SyntaxTree::Not(c) => unary_text('¬', c.text()),
            SyntaxTree::Next(c) => unary_text('X', c.text()),
            SyntaxTree::Globally(c) => unary_text('G', c.text()),
            SyntaxTree::Finally(c) => unary_text('F', c.text()),
            SyntaxTree::And(l, r) => binary_text('∧', l.text(), r.text()),
            SyntaxTree::Or(l, r) => binary_text('∨', l.text(), r.text()),
            SyntaxTree::Implies(l, r) => binary_text('→', l.text(), r.text()),
            SyntaxTree::Until(l, r) => binary_text('U', l.text(), r.text()),
        }
    }
}

impl SyntaxTree {
    /// Evaluates the formula on the suffix of `trace` that starts at instant `i`.
    #[verifier::loop_isolation(false)]
    fn eval_at(&self, trace: &[Vec<bool>], i: usize) -> (r: bool)
        requires
            i <= trace@.len(),
            self.fits(steps(trace@)),
        ensures
            r == self.holds_at(steps(trace@), i as int),
        decreases self,
    {
        let ghost t = steps(trace@);
        proof {
            reveal_with_fuel(SyntaxTree::holds_at, 2);
        }
        match self {
            SyntaxTree::Atom(v) => {
                if i < trace.len() {
                    assert(t[i as int] == trace@[i as int]@);
                    trace[i][*v as usize]
                } else {
                    false
                }
            },
            SyntaxTree::Not(c) => !c.eval_at(trace, i),
            SyntaxTree::Next(c) => i < trace.len() && c.eval_at(trace, i + 1),
            // Shorter suffixes are evaluated first: they are generally faster to decide.
            SyntaxTree::Globally(c) => {
                let mut k: usize = trace.len();
                while k > i
                    invariant
                        i <= k <= trace@.len(),
                        self.temporal_from(t, k as int),
                    decreases k,
                {
                    k = k - 1;
                    if !c.eval_at(trace, k) {
                        proof {
                            if self.temporal_from(t, i as int) {
                                self.lemma_globally_later(t, i as int, k as int);
                            }
                        }
                        return false;
                    }
                }
                true
            },
            SyntaxTree::Finally(c) => {
                let mut k: usize = trace.len();
                while k > i
                    invariant
                        i <= k <= trace@.len(),
                        !self.temporal_from(t, k as int),
                    decreases k,
                {
                    k = k - 1;
                    if c.eval_at(trace, k) {
                        proof {
                            self.lemma_finally_earlier(t, i as int, k as int);
                        }
                        return true;
                    }
                }
                false
            },
            SyntaxTree::And(l, r) => l.eval_at(trace, i) && r.eval_at(trace, i),
            SyntaxTree::Or(l, r) => l.eval_at(trace, i) || r.eval_at(trace, i),
            SyntaxTree::Implies(l, r) => !l.eval_at(trace, i) || r.eval_at(trace, i),
            SyntaxTree::Until(l, r) => {
                let mut k: usize = i;
                while k < trace.len()
                    invariant
                        i <= k <= trace@.len(),
                        self.temporal_from(t, i as int) == self.temporal_from(t, k as int),
                    decreases trace@.len() - k,
                {
                    if r.eval_at(trace, k) {
                        return true;
                    } else if !l.eval_at(trace, k) {
                        return false;
                    }
                    k = k + 1;
                }
                // Until does not hold if its right-hand side never becomes true.
                false
            },
        }
    }

    proof fn lemma_globally_later(&self, trace: Seq<Seq<bool>>, i: int, j: int)
        requires
            self is Globally,
            0 <= i <= j,
            self.temporal_from(trace, i),
        ensures
            self.temporal_from(trace, j),
        decreases j - i,
    {
        if i < j && i < trace.len() {
            self.lemma_globally_later(trace, i + 1, j);
        }
    }

    proof fn lemma_finally_earlier(&self, trace: Seq<Seq<bool>>, i: int, j: int)
        requires
            self is Finally,
            0 <= i <= j,
            self.temporal_from(trace, j),
        ensures
            self.temporal_from(trace, i),
        decreases j - i,
    {
        if i < j {
            self.lemma_finally_earlier(trace, i + 1, j);
        }
    }

    /// Evaluates the formula on a trace: the result is `holds` of the formula and the trace
    /// alone, so repeated calls agree. Every atom must index a value of every instant.
    pub fn eval(&self, trace: &[Vec<bool>]) -> (r: bool)
        requires
            self.fits(steps(trace@)),
        ensures
            r == self.holds(steps(trace@)),
    {
        self.eval_at(trace, 0)
    }

    /// Returns the highest propositional variable index appearing in the formula, plus 1.
    /// Used to count how many variables are needed to interpret the formula.
    pub fn vars(&self) -> (r: Idx)
        requires
            self.var_bound() <= Idx::MAX,
        ensures
            r == self.var_bound(),
        decreases self,
    {
        match self {
            SyntaxTree::Atom(n) => *n + 1,
            SyntaxTree::Not(c) | SyntaxTree::Next(c) | SyntaxTree::Globally(c)
            | SyntaxTree::Finally(c) => c.vars(),
            SyntaxTree::And(l, r) | SyntaxTree::Or(l, r) | SyntaxTree::Implies(l, r)
            | SyntaxTree::Until(l, r) => {
                let a = l.vars();
                let b = r.vars();
                if a >= b {
                    a
                } else {
                    b
                }
            },
        }
    }
}

/// Relies on String::push: appends one character.
#[verifier::external_body]
pub(crate) fn push_char(s: &mut String, c: char)
    ensures
        final(s)@ == old(s)@.push(c),
{
    s.push(c)
}

fn digit_char(d: usize) -> (c: char)
    requires
        d < 10,
    ensures
        c == digit(d as nat),
{
    if d == 0 { '0' }
    else if d == 1 { '1' }
    else if d == 2 { '2' }
    else if d == 3 { '3' }
    else if d == 4 { '4' }
    else if d == 5 { '5' }
    else if d == 6 { '6' }
    else if d == 7 { '7' }
    else if d == 8 { '8' }
    else { '9' }
}

/// Appends the decimal digits of `n`.
pub(crate) fn push_decimal(s: &mut String, n: usize)
    ensures
        final(s)@ == old(s)@ + decimal(n as nat),
    decreases n,
{
    if n >= 10 {
        push_decimal(s, n / 10);
    }
    push_char(s, digit_char(n % 10));
    assert(final(s)@ =~= old(s)@ + decimal(n as nat));
}

fn push_str(s: &mut String, t: &String)
    ensures
        final(s)@ == old(s)@ + t@,
{
    s.append(t.as_str());
}

fn unary_string(op: char, inner: &String) -> (r: String)
    ensures
        r@ == unary_text(op, inner@),
{
    let mut r = String::new();
    push_char(&mut r, op);
    push_char(&mut r, '(');
    push_str(&mut r, inner);
    push_char(&mut r, ')');
    assert(r@ =~= unary_text(op, inner@));
    r
}

fn binary_string(op: char, left: &String, right: &String) -> (r: String)
    ensures
        r@ == binary_text(op, left@, right@),
{
    let mut r = String::new();
    push_char(&mut r, '(');
    push_str(&mut r, left);
    push_char(&mut r, ')');
    push_char(&mut r, op);
    push_char(&mut r, '(');
    push_str(&mut r, right);
    push_char(&mut r, ')');
    assert(r@ =~= binary_text(op, left@, right@));
    r
}

/// The names of a table of variable names, as sequences of characters.
pub open spec fn name_seqs(names: Seq<String>) -> Seq<Seq<char>> {
    names.map_values(|n: String| n@)
}

/// The rank of each kind of node in the order on formulas.
pub open spec fn tag(f: SyntaxTree) -> int {
    match f {
        SyntaxTree::Atom(_) => 0,
        SyntaxTree::Not(_) => 1,
        SyntaxTree::Next(_) => 2,
        SyntaxTree::Globally(_) => 3,
        SyntaxTree::Finally(_) => 4,
        SyntaxTree::And(_, _) => 5,
        SyntaxTree::Or(_, _) => 6,
        SyntaxTree::Implies(_, _) => 7,
        SyntaxTree::Until(_, _) => 8,
    }
}

/// The total order on formulas: first by kind of the root, then by the variable index
/// of an atom, or lexicographically by the operands; `-1`, `0` or `1` as `a` is less than,
/// equal to or greater than `b`.
pub open spec fn order(a: SyntaxTree, b: SyntaxTree) -> int
    decreases a,
{
    if tag(a) != tag(b) {
        if tag(a) < tag(b) { -1 } else { 1 }
    } else {
        match (a, b) {
            (SyntaxTree::Atom(x), SyntaxTree::Atom(y)) => if x < y { -1 } else if x == y { 0 } else { 1 },
            (SyntaxTree::Not(x), SyntaxTree::Not(y)) | (SyntaxTree::Next(x), SyntaxTree::Next(y))
            | (SyntaxTree::Globally(x), SyntaxTree::Globally(y))
            | (SyntaxTree::Finally(x), SyntaxTree::Finally(y)) => order(*x, *y),
            (SyntaxTree::And(x0, x1), SyntaxTree::And(y0, y1)) | (SyntaxTree::Or(x0, x1), SyntaxTree::Or(y0, y1))
            | (SyntaxTree::Implies(x0, x1), SyntaxTree::Implies(y0, y1))
            | (SyntaxTree::Until(x0, x1), SyntaxTree::Until(y0, y1)) => {
                let c = order(*x0, *y0);
                if c != 0 { c } else { order(*x1, *y1) }
            },
            _ => 0,
        }
    }
}

/// `a` comes strictly before `b` in the order on formulas.
pub open spec fn precedes(a: SyntaxTree, b: SyntaxTree) -> bool {
    order(a, b) < 0
}

/// The order on formulas is antisymmetric and separates formulas: comparing `b` with `a`
/// gives the opposite of comparing `a` with `b`, and 0 exactly when they are the same
/// formula. So of two different formulas exactly one precedes the other.
pub proof fn lemma_order_antisymmetric(a: SyntaxTree, b: SyntaxTree)
    ensures
        order(a, b) == -order(b, a),
        (order(a, b) == 0) == (a == b),
        a != b ==> (precedes(a, b) != precedes(b, a)),
    decreases a,
{
    if tag(a) == tag(b) {
        match (a, b) {
            (SyntaxTree::Not(x), SyntaxTree::Not(y)) | (SyntaxTree::Next(x), SyntaxTree::Next(y))
            | (SyntaxTree::Globally(x), SyntaxTree::Globally(y))
            | (SyntaxTree::Finally(x), SyntaxTree::Finally(y)) => {
                lemma_order_antisymmetric(arc_content(x), arc_content(y));
            },
            (SyntaxTree::And(x0, x1), SyntaxTree::And(y0, y1)) | (SyntaxTree::Or(x0, x1), SyntaxTree::Or(y0, y1))
            | (SyntaxTree::Implies(x0, x1), SyntaxTree::Implies(y0, y1))
            | (SyntaxTree::Until(x0, x1), SyntaxTree::Until(y0, y1)) => {
                lemma_order_antisymmetric(arc_content(x0), arc_content(y0));
                lemma_order_antisymmetric(arc_content(x1), arc_content(y1));
            },
            _ => {},
        }
    }
}

/// The value behind a shared handle.
pub open spec fn arc_content<T>(a: Arc<T>) -> T {
    *a
}

impl SyntaxTree {
    fn rank(&self) -> (r: u8)
        ensures
            r == tag(*self),
    {
        match self {
            SyntaxTree::Atom(_) => 0,
            SyntaxTree::Not(_) => 1,
            SyntaxTree::Next(_) => 2,
            SyntaxTree::Globally(_) => 3,
            SyntaxTree::Finally(_) => 4,
            SyntaxTree::And(_, _) => 5,
            SyntaxTree::Or(_, _) => 6,
            SyntaxTree::Implies(_, _) => 7,
            SyntaxTree::Until(_, _) => 8,
        }
    }

    /// The size of the formula: each atom and each unary operator counts one.
    pub fn count_size(&self) -> (r: usize)
        requires
            self.size() <= usize::MAX,
        ensures
            r == self.size(),
        decreases self,
    {
        match self {
            SyntaxTree::Atom(_) => 1,
            SyntaxTree::Not(c) | SyntaxTree::Next(c) | SyntaxTree::Globally(c)
            | SyntaxTree::Finally(c) => c.count_size() + 1,
            SyntaxTree::And(l, r) | SyntaxTree::Or(l, r) | SyntaxTree::Implies(l, r)
            | SyntaxTree::Until(l, r) => l.count_size() + r.count_size(),
        }
    }

    /// A copy of the formula that shares its sub-formulas.
    pub fn share(&self) -> (r: SyntaxTree)
        ensures
            r == *self,
    {
        match self {
            SyntaxTree::Atom(v) => SyntaxTree::Atom(*v),
            SyntaxTree::Not(c) => SyntaxTree::Not(c.clone()),
            SyntaxTree::Next(c) => SyntaxTree::Next(c.clone()),
            SyntaxTree::Globally(c) => SyntaxTree::Globally(c.clone()),
            SyntaxTree::Finally(c) => SyntaxTree::Finally(c.clone()),
            SyntaxTree::And(l, r) => SyntaxTree::And(l.clone(), r.clone()),
            SyntaxTree::Or(l, r) => SyntaxTree::Or(l.clone(), r.clone()),
            SyntaxTree::Implies(l, r) => SyntaxTree::Implies(l.clone(), r.clone()),
            SyntaxTree::Until(l, r) => SyntaxTree::Until(l.clone(), r.clone()),
        }
    }

    /// Compares two formulas in the order on formulas.
    pub fn compare(&self, other: &SyntaxTree) -> (r: i8)
        ensures
            r == order(*self, *other),
        decreases self,
    {
        let a = self.rank();
        let b = other.rank();
        if a != b {
            if a < b { -1 } else { 1 }
        } else {
            match (self, other) {
                (SyntaxTree::Atom(x), SyntaxTree::Atom(y)) => if *x < *y { -1 } else if *x == *y { 0 } else { 1 },
                (SyntaxTree::Not(x), SyntaxTree::Not(y)) | (SyntaxTree::Next(x), SyntaxTree::Next(y))
                | (SyntaxTree::Globally(x), SyntaxTree::Globally(y))
                | (SyntaxTree::Finally(x), SyntaxTree::Finally(y)) => x.compare(y),
                (SyntaxTree::And(x0, x1), SyntaxTree::And(y0, y1)) | (SyntaxTree::Or(x0, x1), SyntaxTree::Or(y0, y1))
                | (SyntaxTree::Implies(x0, x1), SyntaxTree::Implies(y0, y1))
                | (SyntaxTree::Until(x0, x1), SyntaxTree::Until(y0, y1)) => {
                    let c = x0.compare(y0);
                    if c != 0 { c } else { x1.compare(y1) }
                },
                _ => 0,
            }
        }
    }

    /// Whether two formulas are the same tree.
    pub fn same(&self, other: &SyntaxTree) -> (r: bool)
        ensures
            r == (*self == *other),
        decreases self,
    {
        match (self, other) {
            (SyntaxTree::Atom(x), SyntaxTree::Atom(y)) => *x == *y,
            (SyntaxTree::Not(x), SyntaxTree::Not(y)) | (SyntaxTree::Next(x), SyntaxTree::Next(y))
            | (SyntaxTree::Globally(x), SyntaxTree::Globally(y))
            | (SyntaxTree::Finally(x), SyntaxTree::Finally(y)) => x.same(y),
            (SyntaxTree::And(x0, x1), SyntaxTree::And(y0, y1)) | (SyntaxTree::Or(x0, x1), SyntaxTree::Or(y0, y1))
            | (SyntaxTree::Implies(x0, x1), SyntaxTree::Implies(y0, y1))
            | (SyntaxTree::Until(x0, x1), SyntaxTree::Until(y0, y1)) => x0.same(y0) && x1.same(y1),
            _ => false,
        }
    }

    /// Writes the formula with each variable index replaced by its name in `vars`.
    pub fn print_w_named_vars(&self, vars: &[String]) -> (r: String)
        requires
            self.var_bound() <= vars@.len(),
        ensures
            r@ == self.named_text(name_seqs(vars@)),
        decreases self,
    {
        match self {
            SyntaxTree::Atom(var) => vars[*var as usize].clone(),
            SyntaxTree::Not(c) => unary_string('¬', &c.print_w_named_vars(vars)),
            SyntaxTree::Next(c) => unary_string('X', &c.print_w_named_vars(vars)),
            SyntaxTree::Globally(c) => unary_string('G', &c.print_w_named_vars(vars)),
            SyntaxTree::Finally(c) => unary_string('F', &c.print_w_named_vars(vars)),
            SyntaxTree::And(l, r) => binary_string('∧', &l.print_w_named_vars(vars), &r.print_w_named_vars(vars)),
            SyntaxTree::Or(l, r) => binary_string('∨', &l.print_w_named_vars(vars), &r.print_w_named_vars(vars)),
            SyntaxTree::Implies(l, r) => binary_string('→', &l.print_w_named_vars(vars), &r.print_w_named_vars(vars)),
            SyntaxTree::Until(l, r) => binary_string('U', &l.print_w_named_vars(vars), &r.print_w_named_vars(vars)),
        }
    }

    /// Writes the formula with the variable of index `n` as `xn`.
    pub fn to_text(&self) -> (r: String)
        ensures
            r@ == self.text(),
        decreases self,
    {
        match self {
            SyntaxTree::Atom(var) => {
                let mut s = String::new();
                push_char(&mut s, 'x');
                push_decimal(&mut s, *var as usize);
                assert(s@ =~= seq!['x'] + decimal(*var as nat));
                s
            },
            SyntaxTree::Not(c) => unary_string('¬', &c.to_text()),
            SyntaxTree::Next(c) => unary_string('X', &c.to_text()),
            SyntaxTree::Globally(c) => unary_string('G', &c.to_text()),
            SyntaxTree::Finally(c) => unary_string('F', &c.to_text()),
            SyntaxTree::And(l, r) => binary_string('∧', &l.to_text(), &r.to_text()),
            SyntaxTree::Or(l, r) => binary_string('∨', &l.to_text(), &r.to_text()),
            SyntaxTree::Implies(l, r) => binary_string('→', &l.to_text(), &r.to_text()),
            SyntaxTree::Until(l, r) => binary_string('U', &l.to_text(), &r.to_text()),
        }
    }
}

impl PartialEq for SyntaxTree {
    fn eq(&self, other: &SyntaxTree) -> (r: bool) {
        self.same(other)
    }
}

impl vstd::std_specs::cmp::PartialEqSpecImpl for SyntaxTree {
    open spec fn obeys_eq_spec() -> bool {
        true
    }

    open spec fn eq_spec(&self, other: &SyntaxTree) -> bool {
        *self == *other
    }
}

impl Eq for SyntaxTree {
}

} // verus!
