//! Problem model: weighted 3-CNF formulas and candidate truth assignments.

use vstd::prelude::*;

verus! {

/// One clause: an unordered triple of signed literals. A literal's absolute
/// value is a 1-based variable index; a negative sign means the variable must
/// be false for the literal to hold.
#[derive(Debug, Copy, Clone, PartialEq, Eq, Structural)]
pub struct Clause3 {
    pub a: i64,
    pub b: i64,
    pub c: i64,
}

/// A weighted 3-CNF formula: `vars_n` variables, one non-negative weight per
/// variable (insertion order = variable order), and an ordered clause list.
#[derive(Debug, PartialEq)]
pub struct Formula {
    pub vars_n: u32,
    pub weights: Vec<u32>,
    pub clauses: Vec<Clause3>,
}

/// A candidate truth assignment: one boolean per variable, index 0 holding
/// variable 1.
#[derive(Debug, Clone, PartialEq)]
pub struct TruthAssignment {
    pub assignments: Vec<bool>,
}

impl View for TruthAssignment {
    type V = Seq<bool>;

    open spec fn view(&self) -> Seq<bool> {
        self.assignments@
    }
}

/// Zero-based index of the variable a literal names: `|lit| - 1`.
pub open spec fn spec_lit_index(lit: i64) -> int {
    if lit < 0 {
        -(lit as int) - 1
    } else {
        (lit as int) - 1
    }
}

/// The literal names a variable that the assignment covers. A zero literal
/// names no variable and is never in bounds.
pub open spec fn lit_in_bounds(a: Seq<bool>, lit: i64) -> bool {
    0 <= spec_lit_index(lit) < a.len()
}

/// Truth of a literal under an assignment: the indexed boolean, negated for a
/// negative literal.
pub open spec fn spec_lit_true(a: Seq<bool>, lit: i64) -> bool
    recommends
        lit_in_bounds(a, lit),
{
    if lit < 0 {
        !a[spec_lit_index(lit)]
    } else {
        a[spec_lit_index(lit)]
    }
}

/// Clause satisfaction: `None` when some literal is out of bounds for the
/// assignment (a malformed instance), else whether some literal holds.
pub open spec fn spec_satisfies(a: Seq<bool>, c: Clause3) -> Option<bool> {
    if lit_in_bounds(a, c.a) && lit_in_bounds(a, c.b) && lit_in_bounds(a, c.c) {
        Some(spec_lit_true(a, c.a) || spec_lit_true(a, c.b) || spec_lit_true(a, c.c))
    } else {
        None
    }
}

/// Formula satisfaction: `None` when any single clause check is `None`, else
/// whether every clause is satisfied.
pub open spec fn spec_satisfies_formula(a: Seq<bool>, cls: Seq<Clause3>) -> Option<bool> {
    if exists|i: int| 0 <= i < cls.len() && spec_satisfies(a, cls[i]) is None {
        None
    } else {
        Some(forall|i: int| 0 <= i < cls.len() ==> spec_satisfies(a, cls[i]) == Some(true))
    }
}

/// Applies a literal's sign: the boolean as is for a positive literal, negated
/// for a negative one.
pub fn negate_if_negation(variable: i64, value: bool) -> (r: bool)
    ensures
        r == (if variable < 0 {
            !value
        } else {
            value
        }),
{
    if variable < 0 {
        return !value;
    }
    return value;
}

/// Looks up the boolean a literal names, or `None` when the literal is out of
/// bounds for the assignment.
fn lit_slot(assignments: &Vec<bool>, lit: i64) -> (r: Option<bool>)
    ensures
        r == (if lit_in_bounds(assignments@, lit) {
            Some(assignments@[spec_lit_index(lit)])
        } else {
            None::<bool>
        }),
{
    let wide: i128 = lit as i128;
    let mag: i128 = if wide < 0 {
        -wide
    } else {
        wide
    };
    if 1 <= mag && mag <= assignments.len() as i128 {
        let idx: usize = (mag - 1) as usize;
        Some(assignments[idx])
    } else {
        None
    }
}

impl TruthAssignment {
    /// Whether this assignment satisfies the clause; `None` signals a literal
    /// out of bounds (a malformed instance), never a crash.
    pub fn satisfies(&self, clause: &Clause3) -> (r: Option<bool>)
        ensures
            r == spec_satisfies(self@, *clause),
    {
        match (
            lit_slot(&self.assignments, clause.a),
            lit_slot(&self.assignments, clause.b),
            lit_slot(&self.assignments, clause.c),
        ) {
            (Some(a), Some(b), Some(c)) => Some(
                negate_if_negation(clause.a, a) || negate_if_negation(clause.b, b)
                    || negate_if_negation(clause.c, c),
            ),
            _ => None,
        }
    }

    /// Whether this assignment satisfies every clause of the formula; `None`
    /// as soon as any single clause check is `None`.
    pub fn satisfies_formula(&self, formula: &Formula) -> (r: Option<bool>)
        ensures
            r == spec_satisfies_formula(self@, formula.clauses@),
    {
        let n = formula.clauses.len();
        let mut all_true = true;
        let mut i: usize = 0;
        while i < n
            invariant
                0 <= i <= n,
                n == formula.clauses@.len(),
                forall|j: int| 0 <= j < i ==> spec_satisfies(self@, formula.clauses@[j]) is Some,
                all_true == (forall|j: int|
                    0 <= j < i ==> spec_satisfies(self@, formula.clauses@[j]) == Some(true)),
            decreases n - i,
        {
            match self.satisfies(&formula.clauses[i]) {
                Some(sat) => {
                    if !sat {
                        all_true = false;
                    }
                },
                None => {
                    return None;
                },
            }
            i += 1;
        }
        Some(all_true)
    }
}

/// The predicate a clause must meet to be kept by `satisfied_clauses`.
pub open spec fn sat_clause(a: Seq<bool>) -> spec_fn(Clause3) -> bool {
    |c: Clause3| spec_satisfies(a, c) == Some(true)
}

/// The clauses of `cls` satisfied under `a`, in the input's order.
pub open spec fn spec_satisfied_clauses(a: Seq<bool>, cls: Seq<Clause3>) -> Seq<Clause3> {
    cls.filter(sat_clause(a))
}

/// The sequence with the boolean at `i` toggled.
pub open spec fn flipped_at(a: Seq<bool>, i: int) -> Seq<bool>
    recommends
        0 <= i < a.len(),
{
    a.update(i, !a[i])
}

/// The assignment with one variable's boolean toggled.
pub open spec fn spec_flipped(a: Seq<bool>, variable: i64) -> Seq<bool>
    recommends
        lit_in_bounds(a, variable),
{
    flipped_at(a, spec_lit_index(variable))
}

/// Both variable indices a literal can name lie in `[0, vars_n)`.
pub open spec fn clause_ok(c: Clause3, vars_n: u32) -> bool {
    &&& 0 <= spec_lit_index(c.a) < vars_n
    &&& 0 <= spec_lit_index(c.b) < vars_n
    &&& 0 <= spec_lit_index(c.c) < vars_n
}

/// Whether `lit` names a variable in `[1, vars_n]`.
fn lit_ok_exec(lit: i64, vars_n: u32) -> (r: bool)
    ensures
        r == (0 <= spec_lit_index(lit) < vars_n),
{
    let wide: i128 = lit as i128;
    let mag: i128 = if wide < 0 {
        -wide
    } else {
        wide
    };
    1 <= mag && mag <= vars_n as i128
}

impl Formula {
    /// The formula invariant: every literal's absolute value lies in
    /// `[1, vars_n]`.
    pub open spec fn wf(self) -> bool {
        forall|i: int|
            0 <= i < self.clauses@.len() ==> clause_ok(#[trigger] self.clauses@[i], self.vars_n)
    }

    /// Checks the formula invariant, so a caller can reject a malformed
    /// instance before searching.
    pub fn wf_exec(&self) -> (r: bool)
        ensures
            r == self.wf(),
    {
        let mut i: usize = 0;
        while i < self.clauses.len()
            invariant
                0 <= i <= self.clauses@.len(),
                forall|j: int| 0 <= j < i ==> clause_ok(#[trigger] self.clauses@[j], self.vars_n),
            decreases self.clauses@.len() - i,
        {
            let c = self.clauses[i];
            if !(lit_ok_exec(c.a, self.vars_n) && lit_ok_exec(c.b, self.vars_n) && lit_ok_exec(
                c.c,
                self.vars_n,
            )) {
                return false;
            }
            i += 1;
        }
        true
    }
}

/// A well-formed formula's clauses all evaluate to `Some` under any assignment
/// sized to `vars_n`.
pub proof fn lemma_wf_satisfies_some(a: Seq<bool>, f: Formula)
    requires
        f.wf(),
        a.len() == f.vars_n,
    ensures
        forall|i: int| 0 <= i < f.clauses@.len() ==> spec_satisfies(a, #[trigger] f.clauses@[i])
            is Some,
{
}

/// Filtering one more element keeps it exactly when the predicate holds of it.
pub(crate) proof fn lemma_filter_push<A>(s: Seq<A>, x: A, pred: spec_fn(A) -> bool)
    ensures
        s.push(x).filter(pred) == (if pred(x) {
            s.filter(pred).push(x)
        } else {
            s.filter(pred)
        }),
{
    reveal(Seq::filter);
    assert(s.push(x).drop_last() =~= s);
}

/// A filtered sequence is a subsequence: no longer than the input, every
/// element drawn from it, and duplicate-free whenever the input is.
proof fn lemma_filter_subset<A>(s: Seq<A>, pred: spec_fn(A) -> bool)
    ensures
        s.filter(pred).len() <= s.len(),
        forall|i: int| 0 <= i < s.filter(pred).len() ==> s.contains(#[trigger] s.filter(pred)[i]),
        s.no_duplicates() ==> s.filter(pred).no_duplicates(),
    decreases s.len(),
{
    reveal(Seq::filter);
    if s.len() == 0 {
    } else {
        let t = s.drop_last();
        lemma_filter_subset(t, pred);
        assert forall|i: int| 0 <= i < s.filter(pred).len() implies s.contains(
            #[trigger] s.filter(pred)[i],
        ) by {
            if i < t.filter(pred).len() {
                let e = t.filter(pred)[i];
                assert(t.contains(e));
                let j = choose|j: int| 0 <= j < t.len() && t[j] == e;
                assert(s[j] == e);
            } else {
                assert(s.filter(pred)[i] == s.last());
                assert(s[s.len() - 1] == s.last());
            }
        }
        if s.no_duplicates() {
            assert(t.no_duplicates());
            if pred(s.last()) {
                assert(!t.filter(pred).contains(s.last())) by {
                    if t.filter(pred).contains(s.last()) {
                        let i = choose|i: int|
                            0 <= i < t.filter(pred).len() && t.filter(pred)[i] == s.last();
                        assert(t.contains(s.last()));
                        let j = choose|j: int| 0 <= j < t.len() && t[j] == s.last();
                        assert(s[j] == s[s.len() - 1]);
                    }
                }
            }
        }
    }
}

/// Law: `satisfied_clauses` returns a subsequence of its input — never longer,
/// every returned clause occurring in the input, and duplicate-free whenever
/// the input is. (Its order is the input's: the result is the input filtered.)
pub proof fn lemma_satisfied_clauses_subsequence(a: Seq<bool>, cls: Seq<Clause3>)
    ensures
        spec_satisfied_clauses(a, cls).len() <= cls.len(),
        forall|i: int|
            0 <= i < spec_satisfied_clauses(a, cls).len() ==> cls.contains(
                #[trigger] spec_satisfied_clauses(a, cls)[i],
            ),
        cls.no_duplicates() ==> spec_satisfied_clauses(a, cls).no_duplicates(),
{
    lemma_filter_subset(cls, sat_clause(a));
}

/// Law: flipping the same variable twice restores the assignment.
pub proof fn lemma_flip_involution(a: Seq<bool>, variable: i64)
    requires
        lit_in_bounds(a, variable),
    ensures
        spec_flipped(spec_flipped(a, variable), variable) == a,
{
    assert(spec_flipped(spec_flipped(a, variable), variable) =~= a);
}

impl TruthAssignment {
    /// The clauses this assignment satisfies, kept in the input's order.
    /// Requires every literal in bounds: an out-of-range literal is an
    /// invariant violation, not a normal control path.
    pub fn satisfied_clauses(&self, clauses: &Vec<Clause3>) -> (r: Vec<Clause3>)
        requires
            forall|i: int|
                0 <= i < clauses@.len() ==> spec_satisfies(self@, #[trigger] clauses@[i]) is Some,
        ensures
            r@ == spec_satisfied_clauses(self@, clauses@),
    {
        let mut kept: Vec<Clause3> = Vec::new();
        let mut i: usize = 0;
        while i < clauses.len()
            invariant
                0 <= i <= clauses@.len(),
                forall|j: int|
                    0 <= j < clauses@.len() ==> spec_satisfies(self@, #[trigger] clauses@[j])
                        is Some,
                kept@ == spec_satisfied_clauses(self@, clauses@.subrange(0, i as int)),
            decreases clauses@.len() - i,
        {
            let c = clauses[i];
            match self.satisfies(&c) {
                Some(sat) => {
                    if sat {
                        kept.push(c);
                    }
                },
                None => {},
            }
            proof {
                assert(clauses@.subrange(0, i + 1 as int) =~= clauses@.subrange(
                    0,
                    i as int,
                ).push(c));
                lemma_filter_push(clauses@.subrange(0, i as int), c, sat_clause(self@));
            }
            i += 1;
        }
        proof {
            assert(clauses@.subrange(0, clauses@.len() as int) =~= clauses@);
        }
        kept
    }

    /// Draws a fresh assignment of `vars_n` random booleans.
    pub fn new_random(vars_n: u32) -> (r: TruthAssignment)
        ensures
            r@.len() == vars_n,
    {
        let n = vars_n as usize;
        let mut assignments: Vec<bool> = Vec::new();
        while assignments.len() < n
            invariant
                assignments@.len() <= n,
            decreases n - assignments@.len(),
        {
            assignments.push(crate::rng::sample_bool());
        }
        TruthAssignment { assignments }
    }

    /// Toggles the boolean of the variable the literal names, in place.
    /// An out-of-range literal is a programmer error, ruled out up front.
    pub fn flip(&mut self, variable: i64)
        requires
            lit_in_bounds(old(self)@, variable),
        ensures
            final(self)@ == spec_flipped(old(self)@, variable),
    {
        let wide: i128 = variable as i128;
        let mag: i128 = if wide < 0 {
            -wide
        } else {
            wide
        };
        proof {
            assert(mag - 1 == spec_lit_index(variable));
            assert(spec_lit_index(variable) < self.assignments@.len());
        }
        let index: usize = (mag - 1) as usize;
        let val = self.assignments[index];
        self.assignments.set(index, !val);
    }

    /// An independently owned copy with the same booleans.
    pub fn duplicate(&self) -> (r: TruthAssignment)
        ensures
            r@ == self@,
    {
        let assignments = self.assignments.clone();
        proof {
            assert(assignments@ =~= self.assignments@);
        }
        TruthAssignment { assignments }
    }
}

impl From<Vec<bool>> for TruthAssignment {
    fn from(assignments: Vec<bool>) -> (r: TruthAssignment) {
        TruthAssignment { assignments }
    }
}

impl vstd::std_specs::convert::FromSpecImpl<Vec<bool>> for TruthAssignment {
    open spec fn obeys_from_spec() -> bool {
        true
    }

    open spec fn from_spec(v: Vec<bool>) -> TruthAssignment {
        TruthAssignment { assignments: v }
    }
}

} // verus!
