use crate::syntax::{name_seqs, push_char, push_decimal, steps, Idx, SyntaxTree, Time};
use vstd::prelude::*;
use vstd::string::StrSliceExecFns;

verus! {

/// A finite trace: one valuation of the variables per time instant.
pub type Trace = Vec<Vec<bool>>;

/// The valuations of every trace of a list.
pub open spec fn traces(ts: Seq<Trace>) -> Seq<Seq<Seq<bool>>> {
    ts.map_values(|t: Trace| steps(t@))
}

/// A name that starts with `~` marks a variable hidden from the search.
pub open spec fn hidden(name: Seq<char>) -> bool {
    name.len() > 0 && name[0] == '~'
}

/// The indexes, in increasing order, of the visible names among the first `n`.
pub open spec fn visible_upto(names: Seq<Seq<char>>, n: nat) -> Seq<Idx>
    decreases n,
{
    if n == 0 {
        Seq::empty()
    } else if hidden(names[n - 1]) {
        visible_upto(names, (n - 1) as nat)
    } else {
        visible_upto(names, (n - 1) as nat).push((n - 1) as Idx)
    }
}

/// Two traces have the same length and the same values of the variables `vars`
/// at every instant.
pub open spec fn agree(a: Seq<Seq<bool>>, b: Seq<Seq<bool>>, vars: Seq<Idx>) -> bool {
    &&& a.len() == b.len()
    &&& forall|t: int, k: int|
        0 <= t < a.len() && 0 <= k < vars.len() ==> #[trigger] a[t][vars[k] as int] == #[trigger] b[t][vars[k] as int]
}

/// The formula holds on every positive trace and fails on every negative one.
pub open spec fn consistent(
    positive: Seq<Seq<Seq<bool>>>,
    negative: Seq<Seq<Seq<bool>>>,
    formula: SyntaxTree,
) -> bool {
    &&& forall|i: int| 0 <= i < positive.len() ==> formula.holds(#[trigger] positive[i])
    &&& forall|i: int| 0 <= i < negative.len() ==> !formula.holds(#[trigger] negative[i])
}

/// The list of traces once `t` is added to it: unchanged when `t` is already there.
pub open spec fn added(ts: Seq<Seq<Seq<bool>>>, t: Seq<Seq<bool>>) -> Seq<Seq<Seq<bool>>> {
    if ts.contains(t) {
        ts
    } else {
        ts.push(t)
    }
}

/// No trace occurs twice in the list.
pub open spec fn distinct(ts: Seq<Seq<Seq<bool>>>) -> bool {
    forall|i: int, j: int| 0 <= i < j < ts.len() ==> ts[i] != ts[j]
}

/// Adding a trace keeps a list without repetitions so.
proof fn lemma_added_distinct(ts: Seq<Seq<Seq<bool>>>, t: Seq<Seq<bool>>)
    requires
        distinct(ts),
    ensures
        distinct(added(ts, t)),
        forall|x: Seq<Seq<bool>>| #[trigger] added(ts, t).contains(x) <==> ts.contains(x) || x == t,
{
    if !ts.contains(t) {
        assert forall|i: int, j: int| 0 <= i < j < ts.push(t).len() implies ts.push(t)[i] != ts.push(t)[j] by {
            if j == ts.len() {
                assert(ts.push(t)[i] == ts[i]);
            }
        }
        assert forall|x: Seq<Seq<bool>>| #[trigger] ts.push(t).contains(x) <==> ts.contains(x) || x == t by {
            if ts.push(t).contains(x) {
                let i = choose|i: int| 0 <= i < ts.push(t).len() && ts.push(t)[i] == x;
                if i < ts.len() {
                    assert(ts[i] == x);
                }
            }
            if ts.contains(x) {
                let i = choose|i: int| 0 <= i < ts.len() && ts[i] == x;
                assert(ts.push(t)[i] == x);
            }
            if x == t {
                assert(ts.push(t)[ts.len() as int] == x);
            }
        }
    }
}

/// The length of the longest trace, 0 for none.
pub open spec fn longest(ts: Seq<Seq<Seq<bool>>>) -> nat
    decreases ts.len(),
{
    if ts.len() == 0 {
        0
    } else {
        let m = longest(ts.drop_last());
        if ts.last().len() > m {
            ts.last().len()
        } else {
            m
        }
    }
}

/// The default name of the variable of index `n`: `xn`.
pub open spec fn default_name(n: nat) -> Seq<char> {
    seq!['x'] + crate::syntax::decimal(n)
}

/// A sample of positive and negative traces over `var_names.len()` variables.
#[derive(Debug)]
pub struct Sample {
    pub var_names: Vec<String>,
    pub positive_traces: Vec<Trace>,
    pub negative_traces: Vec<Trace>,
}

/// Every instant of the trace gives a value to exactly `width` variables.
pub open spec fn of_width(t: Seq<Seq<bool>>, width: nat) -> bool {
    forall|u: int| 0 <= u < t.len() ==> #[trigger] t[u].len() == width
}

/// Every instant of every trace gives a value to exactly `width` variables.
pub open spec fn all_of_width(ts: Seq<Seq<Seq<bool>>>, width: nat) -> bool {
    forall|i: int| 0 <= i < ts.len() ==> of_width(#[trigger] ts[i], width)
}

impl Sample {
    /// The number of variables.
    pub open spec fn width(&self) -> nat {
        self.var_names@.len()
    }

    pub open spec fn names(&self) -> Seq<Seq<char>> {
        name_seqs(self.var_names@)
    }

    pub open spec fn positive(&self) -> Seq<Seq<Seq<bool>>> {
        traces(self.positive_traces@)
    }

    pub open spec fn negative(&self) -> Seq<Seq<Seq<bool>>> {
        traces(self.negative_traces@)
    }

    /// The indexes of the visible variables, in increasing order.
    pub open spec fn visible(&self) -> Seq<Idx> {
        visible_upto(self.names(), self.width())
    }

    /// Every variable has an index of type `Idx`, and every trace has a value for each
    /// variable at each instant.
    pub open spec fn wf(&self) -> bool {
        &&& self.width() <= Idx::MAX + 1
        &&& all_of_width(self.positive(), self.width())
        &&& all_of_width(self.negative(), self.width())
    }

    /// Neither list holds a trace twice, and no trace is both positive and negative.
    pub open spec fn as_sets(&self) -> bool {
        &&& distinct(self.positive())
        &&& distinct(self.negative())
        &&& forall|i: int| 0 <= i < self.positive().len() ==> !self.negative().contains(#[trigger] self.positive()[i])
    }

    /// The formula is consistent with the sample.
    pub open spec fn consistent_with(&self, formula: SyntaxTree) -> bool {
        consistent(self.positive(), self.negative(), formula)
    }

    /// No positive trace agrees on the visible variables with a negative trace.
    pub open spec fn solvable(&self) -> bool {
        forall|p: int, n: int|
            0 <= p < self.positive().len() && 0 <= n < self.negative().len() ==> !agree(
                #[trigger] self.positive()[p],
                #[trigger] self.negative()[n],
                self.visible(),
            )
    }

    /// The default variable names `x0`, `x1`, ... for `n` variables.
    pub fn var_names(n: usize) -> (r: Vec<String>)
        ensures
            r@.len() == n,
            forall|i: int| 0 <= i < n ==> #[trigger] r@[i]@ == default_name(i as nat),
    {
        let mut r: Vec<String> = Vec::new();
        let mut i: usize = 0;
        while i < n
            invariant
                i <= n,
                r@.len() == i,
                forall|j: int| 0 <= j < i ==> #[trigger] r@[j]@ == default_name(j as nat),
            decreases n - i,
        {
            let mut name = String::new();
            push_char(&mut name, 'x');
            push_decimal(&mut name, i);
            assert(name@ =~= default_name(i as nat));
            r.push(name);
            i = i + 1;
        }
        r
    }

    /// An empty sample over `n` variables with the default names.
    pub fn new(n: usize) -> (r: Sample)
        requires
            n <= Idx::MAX + 1,
        ensures
            r.wf(),
            r.width() == n,
            forall|i: int| 0 <= i < n ==> #[trigger] r.names()[i] == default_name(i as nat),
            r.positive().len() == 0,
            r.negative().len() == 0,
            r.as_sets(),
    {
        Sample { var_names: Self::var_names(n), positive_traces: Vec::new(), negative_traces: Vec::new() }
    }

    /// The indexes of the variables whose name does not start with `~`, in increasing order.
    pub fn vars(&self) -> (r: Vec<Idx>)
        requires
            self.width() <= Idx::MAX + 1,
        ensures
            r@ == self.visible(),
    {
        let mut r: Vec<Idx> = Vec::new();
        let mut i: usize = 0;
        while i < self.var_names.len()
            invariant
                i <= self.width(),
                self.width() <= Idx::MAX + 1,
                r@ == visible_upto(self.names(), i as nat),
            decreases self.width() - i,
        {
            let name = self.var_names[i].as_str();
            assert(name@ == self.names()[i as int]);
            let is_hidden = !name.is_empty() && name.get_char(0) == '~';
            if !is_hidden {
                r.push(i as Idx);
            }
            i = i + 1;
        }
        r
    }

    /// Whether the formula holds on every positive trace and fails on every negative one.
    /// The two lists are scanned in turn, so that a counterexample in either stops the scan early.
    pub fn is_consistent(&self, formula: &SyntaxTree) -> (r: bool)
        requires
            self.wf(),
            formula.var_bound() <= self.width(),
        ensures
            r == self.consistent_with(*formula),
    {
        let ghost pos = self.positive();
        let ghost neg = self.negative();
        let mut i: usize = 0;
        while i < self.positive_traces.len() || i < self.negative_traces.len()
            invariant
                self.wf(),
                formula.var_bound() <= self.width(),
                pos == self.positive(),
                neg == self.negative(),
                forall|j: int| 0 <= j < i && j < pos.len() ==> formula.holds(#[trigger] pos[j]),
                forall|j: int| 0 <= j < i && j < neg.len() ==> !formula.holds(#[trigger] neg[j]),
            decreases self.positive_traces@.len() + self.negative_traces@.len() - i,
        {
            if i < self.positive_traces.len() {
                assert(pos[i as int] == steps(self.positive_traces@[i as int]@));
                assert(formula.fits(pos[i as int]));
                if !formula.eval(self.positive_traces[i].as_slice()) {
                    return false;
                }
            }
            if i < self.negative_traces.len() {
                assert(neg[i as int] == steps(self.negative_traces@[i as int]@));
                assert(formula.fits(neg[i as int]));
                if formula.eval(self.negative_traces[i].as_slice()) {
                    return false;
                }
            }
            i = i + 1;
        }
        true
    }

    /// Whether no positive trace has the same length and the same values of the visible
    /// variables at every instant as a negative trace.
    pub fn is_solvable(&self) -> (r: bool)
        requires
            self.wf(),
        ensures
            r == self.solvable(),
    {
        let vars = self.vars();
        proof {
            lemma_visible_below(self.names(), self.width());
        }
        let ghost pos = self.positive();
        let ghost neg = self.negative();
        let mut p: usize = 0;
        while p < self.positive_traces.len()
            invariant
                self.wf(),
                vars@ == self.visible(),
                forall|k: int| 0 <= k < vars@.len() ==> #[trigger] vars@[k] < self.width(),
                pos == self.positive(),
                neg == self.negative(),
                p <= pos.len(),
                forall|q: int, n: int|
                    0 <= q < p && 0 <= n < neg.len() ==> !agree(#[trigger] pos[q], #[trigger] neg[n], vars@),
            decreases pos.len() - p,
        {
            let pos_trace = &self.positive_traces[p];
            assert(pos[p as int] == steps(pos_trace@));
            let mut n: usize = 0;
            while n < self.negative_traces.len()
                invariant
                    self.wf(),
                    vars@ == self.visible(),
                    forall|k: int| 0 <= k < vars@.len() ==> #[trigger] vars@[k] < self.width(),
                    pos == self.positive(),
                    neg == self.negative(),
                    p < pos.len(),
                    pos[p as int] == steps(pos_trace@),
                    n <= neg.len(),
                    forall|q: int, m: int|
                        0 <= q < p && 0 <= m < neg.len() ==> !agree(#[trigger] pos[q], #[trigger] neg[m], vars@),
                    forall|m: int| 0 <= m < n ==> !agree(pos[p as int], #[trigger] neg[m], vars@),
                decreases neg.len() - n,
            {
                let neg_trace = &self.negative_traces[n];
                assert(neg[n as int] == steps(neg_trace@));
                if pos_trace.len() == neg_trace.len() {
                    if !differ_on(pos_trace, neg_trace, &vars, Ghost(self.width())) {
                        return false;
                    }
                } else {
                    assert(steps(pos_trace@).len() != steps(neg_trace@).len());
                }
                n = n + 1;
            }
            p = p + 1;
        }
        true
    }

    /// The length of the longest trace of the sample, as a `Time` (modulo 256).
    pub fn time_lenght(&self) -> (r: Time)
        ensures
            r as nat == (if longest(self.positive()) >= longest(self.negative()) {
                longest(self.positive())
            } else {
                longest(self.negative())
            }) % 256,
    {
        let a = longest_of(&self.positive_traces);
        let b = longest_of(&self.negative_traces);
        let m = if a >= b { a } else { b };
        (m % 256) as Time
    }

    /// Adds a positive trace, unless a negative trace has the same valuations: then the
    /// sample is left as it is and `Err(())` returned. A trace that is already positive is
    /// not added twice.
    pub fn add_positive_trace(&mut self, trace: Trace) -> (r: Result<(), ()>)
        requires
            old(self).wf(),
            of_width(steps(trace@), old(self).width()),
        ensures
            final(self).wf(),
            final(self).var_names@ == old(self).var_names@,
            r is Err <==> old(self).negative().contains(steps(trace@)),
            final(self).positive() == (if r is Ok {
                added(old(self).positive(), steps(trace@))
            } else {
                old(self).positive()
            }),
            final(self).negative() == old(self).negative(),
            old(self).as_sets() ==> final(self).as_sets(),
    {
        proof {
            if old(self).as_sets() {
                lemma_added_distinct(self.positive(), steps(trace@));
            }
        }
        if !has_trace(&self.negative_traces, &trace) {
            if !has_trace(&self.positive_traces, &trace) {
                let ghost t = steps(trace@);
                let ghost before = self.positive();
                self.positive_traces.push(trace);
                assert(self.positive() =~= before.push(t));
                assert(all_of_width(self.positive(), self.width())) by {
                    assert forall|i: int| 0 <= i < self.positive().len()
                        implies of_width(#[trigger] self.positive()[i], self.width()) by {
                        if i < before.len() {
                            assert(of_width(before[i], self.width()));
                        }
                    }
                }
            }
            Ok(())
        } else {
            Err(())
        }
    }

    /// Adds a negative trace, unless a positive trace has the same valuations: then the
    /// sample is left as it is and `Err(())` returned. A trace that is already negative is
    /// not added twice.
    pub fn add_negative_trace(&mut self, trace: Trace) -> (r: Result<(), ()>)
        requires
            old(self).wf(),
            of_width(steps(trace@), old(self).width()),
        ensures
            final(self).wf(),
            final(self).var_names@ == old(self).var_names@,
            r is Err <==> old(self).positive().contains(steps(trace@)),
            final(self).negative() == (if r is Ok {
                added(old(self).negative(), steps(trace@))
            } else {
                old(self).negative()
            }),
            final(self).positive() == old(self).positive(),
            old(self).as_sets() ==> final(self).as_sets(),
    {
        proof {
            if old(self).as_sets() {
                lemma_added_distinct(self.negative(), steps(trace@));
            }
        }
        if !has_trace(&self.positive_traces, &trace) {
            if !has_trace(&self.negative_traces, &trace) {
                let ghost t = steps(trace@);
                let ghost before = self.negative();
                self.negative_traces.push(trace);
                assert(self.negative() =~= before.push(t));
                assert(all_of_width(self.negative(), self.width())) by {
                    assert forall|i: int| 0 <= i < self.negative().len()
                        implies of_width(#[trigger] self.negative()[i], self.width()) by {
                        if i < before.len() {
                            assert(of_width(before[i], self.width()));
                        }
                    }
                }
            }
            Ok(())
        } else {
            Err(())
        }
    }

    /// Files a trace drawn for a sample of `formula`: as positive when the formula holds on
    /// it and fewer than `positives` positive traces are there, as negative when it fails on
    /// it and fewer than `negatives` negative traces are there; else the trace is dropped.
    /// The formula stays consistent with the sample.
    pub fn file_trace(&mut self, formula: &SyntaxTree, trace: Trace, positives: usize, negatives: usize)
        requires
            old(self).wf(),
            of_width(steps(trace@), old(self).width()),
            formula.var_bound() <= old(self).width(),
            old(self).consistent_with(*formula),
        ensures
            final(self).wf(),
            final(self).var_names@ == old(self).var_names@,
            final(self).consistent_with(*formula),
            old(self).as_sets() ==> final(self).as_sets(),
            final(self).positive() == (if formula.holds(steps(trace@)) && old(self).positive().len() < positives {
                added(old(self).positive(), steps(trace@))
            } else {
                old(self).positive()
            }),
            final(self).negative() == (if !formula.holds(steps(trace@)) && old(self).negative().len() < negatives {
                added(old(self).negative(), steps(trace@))
            } else {
                old(self).negative()
            }),
    {
        let ghost t = steps(trace@);
        proof {
            lemma_consistency_monotone(self.positive(), self.negative(), *formula, t);
        }
        let satisfaction = formula.eval(trace.as_slice());
        if satisfaction && self.positive_traces() < positives {
            assert(!self.negative().contains(t));
            let _ = self.add_positive_trace(trace);
        } else if !satisfaction && self.negative_traces() < negatives {
            assert(!self.positive().contains(t));
            let _ = self.add_negative_trace(trace);
        }
    }

    /// The number of positive traces.
    pub fn positive_traces(&self) -> (r: usize)
        ensures
            r == self.positive().len(),
    {
        self.positive_traces.len()
    }

    /// The number of negative traces.
    pub fn negative_traces(&self) -> (r: usize)
        ensures
            r == self.negative().len(),
    {
        self.negative_traces.len()
    }
}

/// The length of the longest trace of the list, 0 for none.
fn longest_of(ts: &Vec<Trace>) -> (r: usize)
    ensures
        r == longest(traces(ts@)),
{
    let mut m: usize = 0;
    let mut i: usize = 0;
    while i < ts.len()
        invariant
            i <= ts@.len(),
            m == longest(traces(ts@).take(i as int)),
        decreases ts@.len() - i,
    {
        assert(traces(ts@).take(i + 1).drop_last() =~= traces(ts@).take(i as int));
        if ts[i].len() > m {
            m = ts[i].len();
        }
        i = i + 1;
    }
    assert(traces(ts@).take(i as int) =~= traces(ts@));
    m
}

/// Whether two traces have the same valuations at every instant.
fn same_trace(a: &Trace, b: &Trace) -> (r: bool)
    ensures
        r == (steps(a@) == steps(b@)),
{
    if a.len() != b.len() {
        assert(steps(a@).len() != steps(b@).len());
        return false;
    }
    let mut t: usize = 0;
    while t < a.len()
        invariant
            a@.len() == b@.len(),
            t <= a@.len(),
            forall|j: int| 0 <= j < t ==> #[trigger] a@[j]@ == b@[j]@,
        decreases a@.len() - t,
    {
        let x = &a[t];
        let y = &b[t];
        assert(steps(a@)[t as int] == x@ && steps(b@)[t as int] == y@);
        if x.len() != y.len() {
            assert(steps(a@)[t as int].len() != steps(b@)[t as int].len());
            return false;
        }
        let mut v: usize = 0;
        while v < x.len()
            invariant
                a@.len() == b@.len(),
                t < a@.len(),
                forall|j: int| 0 <= j < t ==> #[trigger] a@[j]@ == b@[j]@,
                steps(a@)[t as int] == x@,
                steps(b@)[t as int] == y@,
                x@.len() == y@.len(),
                v <= x@.len(),
                forall|w: int| 0 <= w < v ==> x@[w] == y@[w],
            decreases x@.len() - v,
        {
            if x[v] != y[v] {
                assert(steps(a@)[t as int][v as int] != steps(b@)[t as int][v as int]);
                return false;
            }
            v = v + 1;
        }
        assert(x@ =~= y@);
        t = t + 1;
    }
    assert(steps(a@) =~= steps(b@));
    true
}

/// Whether the list holds a trace with the same valuations as `t`.
fn has_trace(ts: &Vec<Trace>, t: &Trace) -> (r: bool)
    ensures
        r == traces(ts@).contains(steps(t@)),
{
    let mut i: usize = 0;
    while i < ts.len()
        invariant
            i <= ts@.len(),
            forall|j: int| 0 <= j < i ==> #[trigger] traces(ts@)[j] != steps(t@),
        decreases ts@.len() - i,
    {
        if same_trace(&ts[i], t) {
            assert(traces(ts@)[i as int] == steps(t@));
            return true;
        }
        i = i + 1;
    }
    false
}

/// The variables of `visible_upto(names, n)` are below `n`.
pub(crate) proof fn lemma_visible_below(names: Seq<Seq<char>>, n: nat)
    requires
        n <= Idx::MAX + 1,
    ensures
        forall|k: int| 0 <= k < visible_upto(names, n).len() ==> #[trigger] visible_upto(names, n)[k] < n,
    decreases n,
{
    if n > 0 {
        let m = (n - 1) as nat;
        lemma_visible_below(names, m);
        if !hidden(names[m as int]) {
            let v = visible_upto(names, m);
            assert(((n - 1) as Idx) as nat == m);
            assert(visible_upto(names, n) == v.push(m as Idx));
            assert forall|k: int| 0 <= k < v.push(m as Idx).len() implies #[trigger] v.push(m as Idx)[k] < n by {
                if k < v.len() {
                    assert(v[k] < m);
                }
            }
        } else {
            assert(visible_upto(names, n) == visible_upto(names, m));
        }
    }
}

/// Whether two traces of equal length differ on one of the variables `vars` at some instant.
fn differ_on(a: &Trace, b: &Trace, vars: &Vec<Idx>, width: Ghost<nat>) -> (r: bool)
    requires
        a@.len() == b@.len(),
        of_width(steps(a@), width@),
        of_width(steps(b@), width@),
        forall|k: int| 0 <= k < vars@.len() ==> #[trigger] vars@[k] < width@,
    ensures
        r == !agree(steps(a@), steps(b@), vars@),
{
    let ghost sa = steps(a@);
    let ghost sb = steps(b@);
    let mut t: usize = 0;
    while t < a.len()
        invariant
            a@.len() == b@.len(),
            t <= a@.len(),
            sa == steps(a@),
            sb == steps(b@),
            of_width(sa, width@),
            of_width(sb, width@),
            forall|k: int| 0 <= k < vars@.len() ==> #[trigger] vars@[k] < width@,
            forall|u: int, k: int|
                0 <= u < t && 0 <= k < vars@.len() ==> #[trigger] sa[u][vars@[k] as int] == #[trigger] sb[u][vars@[k] as int],
        decreases a@.len() - t,
    {
        let mut k: usize = 0;
        while k < vars.len()
            invariant
                a@.len() == b@.len(),
                t < a@.len(),
                sa == steps(a@),
                sb == steps(b@),
                of_width(sa, width@),
                of_width(sb, width@),
                forall|k: int| 0 <= k < vars@.len() ==> #[trigger] vars@[k] < width@,
                k <= vars@.len(),
                forall|u: int, j: int|
                    0 <= u < t && 0 <= j < vars@.len() ==> #[trigger] sa[u][vars@[j] as int] == #[trigger] sb[u][vars@[j] as int],
                forall|j: int| 0 <= j < k ==> sa[t as int][#[trigger] vars@[j] as int] == sb[t as int][vars@[j] as int],
            decreases vars@.len() - k,
        {
            let v = vars[k] as usize;
            assert(sa[t as int].len() == width@);
            assert(sb[t as int].len() == width@);
            assert(sa[t as int] == a@[t as int]@);
            assert(sb[t as int] == b@[t as int]@);
            if a[t][v] != b[t][v] {
                return true;
            }
            k = k + 1;
        }
        t = t + 1;
    }
    false
}

/// Adding to a sample a positive trace on which a formula holds, or a negative trace on
/// which it fails, keeps the formula consistent with the sample.
pub proof fn lemma_consistency_monotone(
    positive: Seq<Seq<Seq<bool>>>,
    negative: Seq<Seq<Seq<bool>>>,
    formula: SyntaxTree,
    t: Seq<Seq<bool>>,
)
    requires
        consistent(positive, negative, formula),
    ensures
        formula.holds(t) ==> consistent(added(positive, t), negative, formula),
        !formula.holds(t) ==> consistent(positive, added(negative, t), formula),
{
}

} // verus!
