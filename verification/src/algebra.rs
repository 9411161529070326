//! Equations between places, and the search that decides whether one place
//! can be reached from another through them.
//!
//! A term is a base (a place without projections) under a sequence of
//! operators, innermost first. An equality says that two terms may denote
//! overlapping storage. The search starts at a base, follows equalities in
//! both directions, keeps track of the operators that relate the start to the
//! base it has reached, and gives up a path whose operators cannot be
//! reconciled.

use vstd::prelude::*;

verus! {

/// Names a field of an aggregate.
pub type Field = u32;

/// One step between a place and a place derived from it.
#[derive(Clone, Copy, PartialEq, Eq, Structural, Debug, Hash)]
pub enum Operator {
    /// A reference to the place.
    RefOf,
    /// What the place points to.
    DerefOf,
    /// The field of the place.
    MemberOf(Field),
    /// An aggregate that holds the place in the field.
    ContainsAt(Field),
    /// Some projection that is not known.
    Unknown,
}

impl Operator {
    /// The operator that undoes this one.
    pub open spec fn flipped(self) -> Operator {
        match self {
            Operator::RefOf => Operator::DerefOf,
            Operator::DerefOf => Operator::RefOf,
            Operator::MemberOf(f) => Operator::ContainsAt(f),
            Operator::ContainsAt(f) => Operator::MemberOf(f),
            Operator::Unknown => Operator::Unknown,
        }
    }

    /// The operator that undoes this one.
    pub fn flip(self) -> (r: Operator)
        ensures
            r == self.flipped(),
    {
        match self {
            Operator::RefOf => Operator::DerefOf,
            Operator::DerefOf => Operator::RefOf,
            Operator::MemberOf(f) => Operator::ContainsAt(f),
            Operator::ContainsAt(f) => Operator::MemberOf(f),
            Operator::Unknown => Operator::Unknown,
        }
    }

    /// Whether `outer` applied after `self` gives back the place that `self`
    /// was applied to.
    pub open spec fn cancelled_by(self, outer: Operator) -> bool {
        self != Operator::Unknown && outer == self.flipped()
    }

    /// Whether `outer` applied after `self` denotes no storage at all: the
    /// field of an aggregate that holds the place in another field.
    pub open spec fn disjoint_from(self, outer: Operator) -> bool {
        match (self, outer) {
            (Operator::ContainsAt(f), Operator::MemberOf(g)) => f != g,
            _ => false,
        }
    }

    /// Whether `outer` undoes this operator.
    pub fn cancels(self, outer: Operator) -> (r: bool)
        ensures
            r == self.cancelled_by(outer),
    {
        match (self, outer) {
            (Operator::RefOf, Operator::DerefOf) => true,
            (Operator::DerefOf, Operator::RefOf) => true,
            (Operator::MemberOf(f), Operator::ContainsAt(g)) => f == g,
            (Operator::ContainsAt(f), Operator::MemberOf(g)) => f == g,
            _ => false,
        }
    }

    /// Whether `outer` after this operator denotes no storage.
    pub fn excludes(self, outer: Operator) -> (r: bool)
        ensures
            r == self.disjoint_from(outer),
    {
        match (self, outer) {
            (Operator::ContainsAt(f), Operator::MemberOf(g)) => f != g,
            _ => false,
        }
    }
}

/// The operators that undo `ops`: each flipped, in reverse order.
pub open spec fn inverted(ops: Seq<Operator>) -> Seq<Operator> {
    Seq::new(ops.len(), |i: int| ops[ops.len() - 1 - i].flipped())
}

/// Puts one more operator on top of operators that are already reduced.
/// None if the new operator denotes no storage.
pub open spec fn pushed(reduced: Seq<Operator>, op: Operator) -> Option<Seq<Operator>> {
    if reduced.len() > 0 && reduced.last().cancelled_by(op) {
        Some(reduced.drop_last())
    } else if reduced.len() > 0 && reduced.last().disjoint_from(op) {
        None
    } else {
        Some(reduced.push(op))
    }
}

/// Cancels every operator against the one that undoes it, from the
/// innermost outwards. None if an operator denotes no storage.
pub open spec fn reduced(ops: Seq<Operator>) -> Option<Seq<Operator>>
    decreases ops.len(),
{
    if ops.len() == 0 {
        Some(Seq::empty())
    } else {
        match reduced(ops.drop_last()) {
            None => None,
            Some(r) => pushed(r, ops.last()),
        }
    }
}

/// The simplest way to write `ops`. Operators of which one is unknown are
/// unknown as a whole; others are reduced. None if the operators denote no
/// storage.
pub open spec fn simplified(ops: Seq<Operator>) -> Option<Seq<Operator>> {
    if ops.contains(Operator::Unknown) {
        Some(seq![Operator::Unknown])
    } else {
        reduced(ops)
    }
}

/// The simplest way to write `ops`, or None if they denote no storage.
pub fn simplify(ops: &Vec<Operator>) -> (r: Option<Vec<Operator>>)
    ensures
        r is Some == simplified(ops@) is Some,
        r matches Some(v) ==> simplified(ops@) == Some(v@),
{
    let mut k: usize = 0;
    while k < ops.len()
        invariant
            k <= ops.len(),
            forall|j: int| 0 <= j < k ==> ops[j] != Operator::Unknown,
        decreases ops.len() - k,
    {
        if ops[k] == Operator::Unknown {
            let mut v: Vec<Operator> = Vec::new();
            v.push(Operator::Unknown);
            proof {
                assert(ops@.contains(ops@[k as int]));
                assert(v@ =~= seq![Operator::Unknown]);
            }
            return Some(v);
        }
        k = k + 1;
    }
    let mut stack: Vec<Operator> = Vec::new();
    let mut i: usize = 0;
    proof {
        assert(ops@.take(0) =~= Seq::<Operator>::empty());
        assert(!ops@.contains(Operator::Unknown));
    }
    while i < ops.len()
        invariant
            i <= ops.len(),
            !ops@.contains(Operator::Unknown),
            reduced(ops@.take(i as int)) == Some(stack@),
        decreases ops.len() - i,
    {
        let op = ops[i];
        proof {
            assert(ops@.take(i as int + 1).drop_last() =~= ops@.take(i as int));
            assert(ops@.take(i as int + 1).last() == op);
        }
        let n = stack.len();
        if n > 0 && stack[n - 1].cancels(op) {
            stack.pop();
        } else if n > 0 && stack[n - 1].excludes(op) {
            proof {
                lemma_reduced_prefix_none(ops@, i as int + 1);
            }
            return None;
        } else {
            stack.push(op);
        }
        i = i + 1;
    }
    proof {
        assert(ops@.take(ops.len() as int) =~= ops@);
    }
    Some(stack)
}

/// Operators of which a prefix denotes no storage denote no storage.
pub proof fn lemma_reduced_prefix_none(ops: Seq<Operator>, k: int)
    requires
        0 <= k <= ops.len(),
        reduced(ops.take(k)) is None,
    ensures
        reduced(ops) is None,
    decreases ops.len() - k,
{
    if k < ops.len() {
        assert(ops.take(k + 1).drop_last() =~= ops.take(k));
        lemma_reduced_prefix_none(ops, k + 1);
    } else {
        assert(ops.take(k) =~= ops);
    }
}

/// A base under a sequence of operators.
pub struct TermView<B> {
    pub base: B,
    /// The operators, innermost first.
    pub terms: Seq<Operator>,
}

/// Two terms that may denote overlapping storage.
pub struct EqualityView<B> {
    pub lhs: TermView<B>,
    pub rhs: TermView<B>,
}

impl<B> TermView<B> {
    /// The term that is the base alone.
    pub open spec fn of_base(base: B) -> Self {
        TermView { base, terms: Seq::empty() }
    }
}

impl<B> EqualityView<B> {
    /// Whether one of the two sides is built on `base`.
    pub open spec fn mentions(self, base: B) -> bool {
        self.lhs.base == base || self.rhs.base == base
    }

    /// The side that is built on `base`: the left one if both are.
    pub open spec fn here(self, base: B) -> TermView<B> {
        if self.lhs.base == base {
            self.lhs
        } else {
            self.rhs
        }
    }

    /// The side other than [`Self::here`].
    pub open spec fn there(self, base: B) -> TermView<B> {
        if self.lhs.base == base {
            self.rhs
        } else {
            self.lhs
        }
    }

    /// What the term `t` becomes when its base is replaced by what this
    /// equality says of the base. None if the result denotes no storage.
    pub open spec fn applied(self, t: TermView<B>) -> Option<TermView<B>> {
        match simplified(self.there(t.base).terms + inverted(self.here(t.base).terms) + t.terms) {
            Some(ops) => Some(TermView { base: self.there(t.base).base, terms: ops }),
            None => None,
        }
    }
}

/// What a base of terms has to offer: a mathematical value, a test for the
/// same value, and a way to make another base with the same value.
pub trait Base: View + Sized {
    /// Whether the two bases have the same value.
    fn same(&self, other: &Self) -> (r: bool)
        ensures
            r == (self@ == other@),
    ;

    /// Another base with the same value.
    fn duplicate(&self) -> (r: Self)
        ensures
            r@ == self@,
    ;
}

impl Base for u32 {
    fn same(&self, other: &Self) -> (r: bool) {
        *self == *other
    }

    fn duplicate(&self) -> (r: Self) {
        *self
    }
}

/// A base under a sequence of operators.
pub struct Term<B> {
    base: B,
    terms: Vec<Operator>,
}

impl<B: View> View for Term<B> {
    type V = TermView<B::V>;

    closed spec fn view(&self) -> Self::V {
        TermView { base: self.base@, terms: self.terms@ }
    }
}

impl<B: View> Term<B> {
    /// The term that is the base alone.
    pub fn new_base(base: B) -> (t: Self)
        ensures
            t@ == TermView::of_base(base@),
    {
        Term { base, terms: Vec::new() }
    }

    /// The term under one more operator.
    pub fn add_operator(self, op: Operator) -> (t: Self)
        ensures
            t@ == (TermView { base: self@.base, terms: self@.terms.push(op) }),
    {
        let mut t = self;
        t.terms.push(op);
        t
    }

    /// What the term points to.
    pub fn add_deref_of(self) -> (t: Self)
        ensures
            t@ == (TermView { base: self@.base, terms: self@.terms.push(Operator::DerefOf) }),
    {
        self.add_operator(Operator::DerefOf)
    }

    /// A reference to the term.
    pub fn add_ref_of(self) -> (t: Self)
        ensures
            t@ == (TermView { base: self@.base, terms: self@.terms.push(Operator::RefOf) }),
    {
        self.add_operator(Operator::RefOf)
    }

    /// The field of the term.
    pub fn add_member_of(self, field: Field) -> (t: Self)
        ensures
            t@ == (TermView { base: self@.base, terms: self@.terms.push(Operator::MemberOf(field)) }),
    {
        self.add_operator(Operator::MemberOf(field))
    }

    /// An aggregate that holds the term in the field.
    pub fn add_contains_at(self, field: Field) -> (t: Self)
        ensures
            t@ == (TermView {
                base: self@.base,
                terms: self@.terms.push(Operator::ContainsAt(field)),
            }),
    {
        self.add_operator(Operator::ContainsAt(field))
    }

    /// Some unknown projection of the term.
    pub fn add_unknown(self) -> (t: Self)
        ensures
            t@ == (TermView { base: self@.base, terms: self@.terms.push(Operator::Unknown) }),
    {
        self.add_operator(Operator::Unknown)
    }

    /// The base of the term.
    pub fn base(&self) -> (b: &B)
        ensures
            b@ == self@.base,
    {
        &self.base
    }

    /// The operators of the term, innermost first.
    pub fn terms(&self) -> (ops: &Vec<Operator>)
        ensures
            ops@ == self@.terms,
    {
        &self.terms
    }

    /// The same operators on another base.
    pub fn map_base<C: View>(&self, base: C) -> (t: Term<C>)
        ensures
            t@ == (TermView { base: base@, terms: self@.terms }),
    {
        let mut terms: Vec<Operator> = Vec::new();
        let mut i: usize = 0;
        while i < self.terms.len()
            invariant
                i <= self.terms.len(),
                terms@ == self.terms@.take(i as int),
            decreases self.terms.len() - i,
        {
            terms.push(self.terms[i]);
            proof {
                assert(self.terms@.take(i as int + 1) =~= self.terms@.take(i as int).push(
                    self.terms@[i as int],
                ));
            }
            i = i + 1;
        }
        proof {
            assert(self.terms@.take(self.terms.len() as int) =~= self.terms@);
        }
        Term { base, terms }
    }
}

/// Two terms that may denote overlapping storage.
pub struct Equality<B> {
    lhs: Term<B>,
    rhs: Term<B>,
}

impl<B: View> View for Equality<B> {
    type V = EqualityView<B::V>;

    closed spec fn view(&self) -> Self::V {
        EqualityView { lhs: self.lhs@, rhs: self.rhs@ }
    }
}

impl<B: View> Equality<B> {
    /// The equality of the two terms.
    pub fn new(lhs: Term<B>, rhs: Term<B>) -> (e: Self)
        ensures
            e@ == (EqualityView { lhs: lhs@, rhs: rhs@ }),
    {
        Equality { lhs, rhs }
    }

    /// The left-hand side.
    pub fn lhs(&self) -> (t: &Term<B>)
        ensures
            t@ == self@.lhs,
    {
        &self.lhs
    }

    /// The right-hand side.
    pub fn rhs(&self) -> (t: &Term<B>)
        ensures
            t@ == self@.rhs,
    {
        &self.rhs
    }

    /// The same equality between other bases.
    pub fn map_bases<C: View>(&self, lhs_base: C, rhs_base: C) -> (e: Equality<C>)
        ensures
            e@ == (EqualityView {
                lhs: TermView { base: lhs_base@, terms: self@.lhs.terms },
                rhs: TermView { base: rhs_base@, terms: self@.rhs.terms },
            }),
    {
        Equality { lhs: self.lhs.map_base(lhs_base), rhs: self.rhs.map_base(rhs_base) }
    }
}

impl<B: Base> Equality<B> {
    /// Whether one of the two sides is built on `base`.
    pub fn mentions(&self, base: &B) -> (r: bool)
        ensures
            r == self@.mentions(base@),
    {
        self.lhs.base.same(base) || self.rhs.base.same(base)
    }

    /// What the term `t` becomes when its base is replaced by what this
    /// equality says of the base. None if the result denotes no storage.
    pub fn apply(&self, t: &Term<B>) -> (r: Option<Term<B>>)
        ensures
            r is Some == self@.applied(t@) is Some,
            r matches Some(n) ==> self@.applied(t@) == Some(n@),
    {
        let forward = self.lhs.base.same(&t.base);
        let here = if forward {
            &self.lhs
        } else {
            &self.rhs
        };
        let there = if forward {
            &self.rhs
        } else {
            &self.lhs
        };
        let mut ops: Vec<Operator> = Vec::new();
        let mut i: usize = 0;
        while i < there.terms.len()
            invariant
                i <= there.terms.len(),
                ops@ == there.terms@.take(i as int),
            decreases there.terms.len() - i,
        {
            ops.push(there.terms[i]);
            proof {
                assert(there.terms@.take(i as int + 1) =~= there.terms@.take(i as int).push(
                    there.terms@[i as int],
                ));
            }
            i = i + 1;
        }
        proof {
            assert(there.terms@.take(there.terms.len() as int) =~= there.terms@);
        }
        let n = here.terms.len();
        let mut j: usize = 0;
        while j < n
            invariant
                j <= n,
                n == here.terms.len(),
                ops@ == there.terms@ + inverted(here.terms@).take(j as int),
            decreases n - j,
        {
            ops.push(here.terms[n - 1 - j].flip());
            proof {
                assert(inverted(here.terms@).take(j as int + 1) =~= inverted(here.terms@).take(
                    j as int,
                ).push(here.terms@[n - 1 - j].flipped()));
                assert(ops@ =~= there.terms@ + inverted(here.terms@).take(j as int + 1));
            }
            j = j + 1;
        }
        proof {
            assert(inverted(here.terms@).take(n as int) =~= inverted(here.terms@));
        }
        let mut k: usize = 0;
        while k < t.terms.len()
            invariant
                k <= t.terms.len(),
                ops@ == there.terms@ + inverted(here.terms@) + t.terms@.take(k as int),
            decreases t.terms.len() - k,
        {
            ops.push(t.terms[k]);
            proof {
                assert(t.terms@.take(k as int + 1) =~= t.terms@.take(k as int).push(
                    t.terms@[k as int],
                ));
                assert(ops@ =~= there.terms@ + inverted(here.terms@) + t.terms@.take(k as int + 1));
            }
            k = k + 1;
        }
        proof {
            assert(t.terms@.take(t.terms.len() as int) =~= t.terms@);
        }
        match simplify(&ops) {
            Some(terms) => Some(Term { base: there.base.duplicate(), terms }),
            None => None,
        }
    }
}

/// Number of equalities that the search has not used yet.
pub open spec fn unused(used: Seq<bool>) -> nat
    decreases used.len(),
{
    if used.len() == 0 {
        0
    } else {
        unused(used.drop_last()) + if used.last() {
            0nat
        } else {
            1nat
        }
    }
}

/// The equalities that are used once the search has been at `base`: those
/// that were used before and those that mention `base`.
pub open spec fn marked<B>(eqs: Seq<EqualityView<B>>, used: Seq<bool>, base: B) -> Seq<bool> {
    Seq::new(eqs.len(), |i: int| used[i] || eqs[i].mentions(base))
}

/// The terms that the first `k` equalities lead to from the term `t`: one
/// for each unused equality that mentions the base of `t` and whose
/// operators can be reconciled with those of `t`, in the order of the
/// equalities.
pub open spec fn successors<B>(
    eqs: Seq<EqualityView<B>>,
    used: Seq<bool>,
    t: TermView<B>,
    k: nat,
) -> Seq<TermView<B>>
    decreases k,
{
    if k == 0 {
        Seq::empty()
    } else {
        let before = successors(eqs, used, t, (k - 1) as nat);
        if !used[k - 1] && eqs[k - 1].mentions(t.base) && eqs[k - 1].applied(t) is Some {
            before.push(eqs[k - 1].applied(t)->0)
        } else {
            before
        }
    }
}

/// Whether the search finds a term on one of the targets. The search takes
/// the term on top of the stack; if its base is a target, it is found.
/// Otherwise every unused equality that mentions its base is used up, and the
/// terms that those equalities lead to take its place on the stack.
pub open spec fn search<B>(
    eqs: Seq<EqualityView<B>>,
    used: Seq<bool>,
    stack: Seq<TermView<B>>,
    targets: Set<B>,
) -> bool
    decreases unused(used), stack.len(),
{
    if used.len() != eqs.len() || stack.len() == 0 {
        false
    } else if targets.contains(stack.last().base) {
        true
    } else {
        proof {
            lemma_marked(eqs, used, stack.last());
        }
        search(
            eqs,
            marked(eqs, used, stack.last().base),
            stack.drop_last() + successors(eqs, used, stack.last(), eqs.len()),
            targets,
        )
    }
}

/// Whether a term on one of the targets can be reached from `from` through
/// the equalities, each of which the search uses at most once.
pub open spec fn reachable<B>(eqs: Seq<EqualityView<B>>, from: B, targets: Set<B>) -> bool {
    search(eqs, Seq::new(eqs.len(), |i: int| false), seq![TermView::of_base(from)], targets)
}

/// Using more equalities leaves fewer unused.
pub proof fn lemma_unused_monotone(a: Seq<bool>, b: Seq<bool>)
    requires
        a.len() == b.len(),
        forall|i: int| 0 <= i < a.len() ==> (a[i] ==> b[i]),
    ensures
        unused(b) <= unused(a),
        (exists|i: int| 0 <= i < a.len() && !a[i] && b[i]) ==> unused(b) < unused(a),
        unused(b) == unused(a) ==> a == b,
    decreases a.len(),
{
    if a.len() > 0 {
        lemma_unused_monotone(a.drop_last(), b.drop_last());
        if exists|i: int| 0 <= i < a.len() && !a[i] && b[i] {
            let i = choose|i: int| 0 <= i < a.len() && !a[i] && b[i];
            if i < a.len() - 1 {
                assert(!a.drop_last()[i] && b.drop_last()[i]);
            }
        }
        if unused(b) == unused(a) {
            assert(a.drop_last() == b.drop_last());
            assert(a =~= a.drop_last().push(a.last()));
            assert(b =~= b.drop_last().push(b.last()));
        }
    } else {
        assert(a =~= b);
    }
}

/// Only unused equalities that mention the base lead anywhere.
pub proof fn lemma_successors_none<B>(
    eqs: Seq<EqualityView<B>>,
    used: Seq<bool>,
    t: TermView<B>,
    k: nat,
)
    requires
        k <= eqs.len(),
        used.len() == eqs.len(),
        forall|i: int| 0 <= i < k ==> used[i] || !eqs[i].mentions(t.base),
    ensures
        successors(eqs, used, t, k).len() == 0,
    decreases k,
{
    if k > 0 {
        lemma_successors_none(eqs, used, t, (k - 1) as nat);
    }
}

/// One step of the search either uses up an equality, or leaves the
/// equalities as they were and puts nothing on the stack.
pub proof fn lemma_marked<B>(eqs: Seq<EqualityView<B>>, used: Seq<bool>, t: TermView<B>)
    requires
        used.len() == eqs.len(),
    ensures
        unused(marked(eqs, used, t.base)) <= unused(used),
        unused(marked(eqs, used, t.base)) == unused(used) ==> successors(
            eqs,
            used,
            t,
            eqs.len(),
        ).len() == 0,
{
    let m = marked(eqs, used, t.base);
    lemma_unused_monotone(used, m);
    if unused(m) == unused(used) {
        assert(used == m);
        assert forall|i: int| 0 <= i < eqs.len() implies used[i] || !eqs[i].mentions(t.base) by {
            assert(m[i] == (used[i] || eqs[i].mentions(t.base)));
        }
        lemma_successors_none(eqs, used, t, eqs.len());
    }
}

/// The values of the equalities of a vector.
pub open spec fn equality_views<B: View>(eqs: Seq<Equality<B>>) -> Seq<EqualityView<B::V>> {
    Seq::new(eqs.len(), |i: int| eqs[i]@)
}

/// The values of the terms of a vector.
pub open spec fn term_views<B: View>(terms: Seq<Term<B>>) -> Seq<TermView<B::V>> {
    Seq::new(terms.len(), |i: int| terms[i]@)
}

/// The values of the bases of a vector, as a set.
pub open spec fn base_views<B: View>(bases: Seq<B>) -> Set<B::V> {
    Set::new(|v: B::V| exists|i: int| 0 <= i < bases.len() && (#[trigger] bases[i])@ == v)
}

/// Whether a base with the same value is in the vector.
pub fn contains_base<B: Base>(bases: &Vec<B>, base: &B) -> (r: bool)
    ensures
        r == base_views(bases@).contains(base@),
{
    let mut i: usize = 0;
    while i < bases.len()
        invariant
            i <= bases.len(),
            forall|j: int| 0 <= j < i ==> (#[trigger] bases[j])@ != base@,
        decreases bases.len() - i,
    {
        if bases[i].same(base) {
            return true;
        }
        i = i + 1;
    }
    false
}

/// Decides whether a term on one of the targets can be reached from `from`
/// through the equalities.
pub fn solve_reachable<B: Base>(equations: &Vec<Equality<B>>, from: &B, targets: &Vec<B>) -> (r:
    bool)
    ensures
        r == reachable(equality_views(equations@), from@, base_views(targets@)),
{
    let ghost eqs = equality_views(equations@);
    let ghost goal = base_views(targets@);
    let n = equations.len();
    let mut used: Vec<bool> = Vec::new();
    while used.len() < n
        invariant
            used.len() <= n,
            forall|i: int| 0 <= i < used.len() ==> !used[i],
        decreases n - used.len(),
    {
        used.push(false);
    }
    let mut stack: Vec<Term<B>> = Vec::new();
    stack.push(Term::new_base(from.duplicate()));
    proof {
        assert(used@ =~= Seq::new(eqs.len(), |i: int| false));
        assert(term_views(stack@) =~= seq![TermView::of_base(from@)]);
    }
    loop
        invariant
            n == equations.len(),
            eqs == equality_views(equations@),
            goal == base_views(targets@),
            used.len() == n,
            search(eqs, used@, term_views(stack@), goal) == reachable(eqs, from@, goal),
        decreases unused(used@), stack.len(),
    {
        let ghost stack_before = term_views(stack@);
        let ghost used_before = used@;
        let t = match stack.pop() {
            Some(t) => t,
            None => {
                return false;
            },
        };
        proof {
            assert(stack_before.last() == t@);
            assert(term_views(stack@) =~= stack_before.drop_last());
        }
        if contains_base(targets, &t.base) {
            return true;
        }
        let ghost rest = term_views(stack@);
        let mut i: usize = 0;
        while i < n
            invariant
                i <= n,
                n == equations.len(),
                eqs == equality_views(equations@),
                used.len() == n,
                used_before.len() == n,
                forall|j: int| 0 <= j < i ==> used[j] == marked(eqs, used_before, t@.base)[j],
                forall|j: int| i <= j < n ==> used[j] == used_before[j],
                term_views(stack@) == rest + successors(eqs, used_before, t@, i as nat),
            decreases n - i,
        {
            if !used[i] && equations[i].mentions(&t.base) {
                used.set(i, true);
                let ghost stack_now = stack@;
                match equations[i].apply(&t) {
                    Some(next) => {
                        stack.push(next);
                        proof {
                            assert(term_views(stack@) =~= term_views(stack_now).push(next@));
                            assert(term_views(stack@) =~= rest + successors(
                                eqs,
                                used_before,
                                t@,
                                (i + 1) as nat,
                            ));
                        }
                    },
                    None => {},
                }
            }
            i = i + 1;
        }
        proof {
            assert(used@ =~= marked(eqs, used_before, t@.base));
            lemma_marked(eqs, used_before, t@);
        }
    }
}

/// The search finds a target that lies on its stack.
pub proof fn lemma_search_finds_stacked<B>(
    eqs: Seq<EqualityView<B>>,
    used: Seq<bool>,
    stack: Seq<TermView<B>>,
    targets: Set<B>,
    j: int,
)
    requires
        used.len() == eqs.len(),
        0 <= j < stack.len(),
        targets.contains(stack[j].base),
    ensures
        search(eqs, used, stack, targets),
    decreases unused(used), stack.len(),
{
    if !targets.contains(stack.last().base) {
        lemma_marked(eqs, used, stack.last());
        let rest = stack.drop_last() + successors(eqs, used, stack.last(), eqs.len());
        assert(rest[j] == stack[j]);
        lemma_search_finds_stacked(eqs, marked(eqs, used, stack.last().base), rest, targets, j);
    }
}

/// An unused equality that mentions the base of a term, and whose operators
/// can be reconciled with those of the term, leads to a successor of the term.
pub proof fn lemma_successor<B>(
    eqs: Seq<EqualityView<B>>,
    used: Seq<bool>,
    t: TermView<B>,
    k: nat,
    i: int,
)
    requires
        0 <= i < k <= eqs.len(),
        used.len() == eqs.len(),
        !used[i],
        eqs[i].mentions(t.base),
        eqs[i].applied(t) is Some,
    ensures
        successors(eqs, used, t, k).contains(eqs[i].applied(t)->0),
    decreases k,
{
    let before = successors(eqs, used, t, (k - 1) as nat);
    if i == k - 1 {
        let all = successors(eqs, used, t, k);
        assert(all[all.len() - 1] == eqs[i].applied(t)->0);
    } else {
        lemma_successor(eqs, used, t, (k - 1) as nat, i);
        let w = choose|w: int| 0 <= w < before.len() && before[w] == eqs[i].applied(t)->0;
        let all = successors(eqs, used, t, k);
        assert(all[w] == eqs[i].applied(t)->0);
    }
}

/// An equality between two bases, without operators on either side, makes
/// each base reachable from the other.
pub proof fn lemma_direct_equality_reachable<B>(
    eqs: Seq<EqualityView<B>>,
    i: int,
    from: B,
    to: B,
    targets: Set<B>,
)
    requires
        0 <= i < eqs.len(),
        targets.contains(to),
        eqs[i] == (EqualityView { lhs: TermView::of_base(from), rhs: TermView::of_base(to) })
            || eqs[i] == (EqualityView { lhs: TermView::of_base(to), rhs: TermView::of_base(from) }),
    ensures
        reachable(eqs, from, targets),
{
    let used = Seq::new(eqs.len(), |k: int| false);
    let start = TermView::of_base(from);
    let stack = seq![start];
    if !targets.contains(from) {
        let ops = eqs[i].there(from).terms + inverted(eqs[i].here(from).terms) + start.terms;
        assert(ops =~= Seq::<Operator>::empty());
        assert(!ops.contains(Operator::Unknown));
        assert(eqs[i].applied(start) == Some(TermView::of_base(to)));
        lemma_successor(eqs, used, start, eqs.len(), i);
        let succ = successors(eqs, used, start, eqs.len());
        let w = choose|w: int| 0 <= w < succ.len() && succ[w] == TermView::of_base(to);
        let rest = stack.drop_last() + succ;
        assert(rest[w] == succ[w]);
        lemma_marked(eqs, used, start);
        lemma_search_finds_stacked(eqs, marked(eqs, used, from), rest, targets, w);
    }
}

/// Without equalities a place is reachable only from itself.
pub proof fn lemma_no_equalities<B>(from: B, targets: Set<B>)
    ensures
        reachable(Seq::<EqualityView<B>>::empty(), from, targets) == targets.contains(from),
{
    let eqs = Seq::<EqualityView<B>>::empty();
    let used = Seq::new(eqs.len(), |k: int| false);
    let start = TermView::of_base(from);
    assert(seq![start].last() == start);
    if !targets.contains(from) {
        let rest = seq![start].drop_last() + successors(eqs, used, start, eqs.len());
        assert(rest =~= Seq::<TermView<B>>::empty());
        assert(!search(eqs, marked(eqs, used, from), rest, targets));
        assert(!search(eqs, used, seq![start], targets));
    } else {
        assert(search(eqs, used, seq![start], targets));
    }
}

} // verus!
