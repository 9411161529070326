//! Granular flows: for every point of a procedure, and of the callees that
//! are inlined into it, the dependency matrix at that point.
//!
//! The flow of a procedure is made from what a dataflow analysis of the
//! single procedure found: for each point a matrix from places to the points
//! that last wrote them. A call of a procedure that is inlined brings the
//! flow of the callee, nested under the call site, and matrices that
//! translate places across the boundary of the call.

use crate::algebra::Base;
use crate::args::AnalysisCtrl;
use crate::assoc::{distinct_keys, lemma_mapped_set, mapped, seq_get, seq_set, ListMap};
use crate::dep_matrix::{
    copy_locations, lemma_matrix_distinct, lemma_matrix_extends, lemma_row_of, matrix_view, matrix_wf, relativized_matrix, set_row, GlobalDepMatrix, MatrixView, TranslatedDepMatrix, TranslatedView, TranslatorView,
};
use crate::flows::{all_valid, chains, extend_locations, lemma_chains_extends};
use crate::global_location::{BodyId, GlobalLocation, GlobalLocationInterner, Link, Location};
use crate::graph::DefId;
use crate::inliner::Oracle;
use crate::mir::{argument_views, FnAndArgsView, MirBody, Place, PlaceView, StmtAt, TerminatorKind, place_views};
use crate::translate::{
    destination_view, parent_translation_rows, translation_matrix, Aliases,
};
use crate::translate::{add_parent_translations, create_translation_matrix};
use crate::dep_matrix::{relativize_global_dep_matrix, translator_view, Translator};
use crate::global_location::GliAt;
use crate::utils::{locations_below, locations_of_body, CacheEntry, RecursionBreakingCache};
use vstd::prelude::*;

verus! {

/// The matrix that a dataflow analysis found at one point: for each place
/// the points of the same procedure that last wrote it.
pub type State = Vec<(Place, Vec<Location>)>;

/// What a dataflow analysis of a single procedure found.
pub struct FlowFacts {
    /// For each point the matrix at that point.
    pub states: Vec<(Location, State)>,
    /// For each place the places that may denote the same storage.
    pub aliases: Aliases,
    /// For each place the places whose values can be reached from it.
    pub reachable_values: Aliases,
}

/// A procedure with a body: the body and what was found about it.
pub struct Procedure {
    pub body: MirBody,
    pub facts: FlowFacts,
}

/// The procedures of a program that have a body. The position of a
/// procedure is its number.
pub struct Procedures {
    pub procedures: Vec<Procedure>,
}

/// Why the flow of a procedure could not be made.
#[derive(Clone, Copy, PartialEq, Eq, Structural, Debug)]
pub enum AnalysisError {
    /// Nothing was found about a point of a procedure.
    MissingFacts { function: BodyId, location: Location },
}

/// Position of the first matrix for the point among the first `n`, or `n`.
pub open spec fn first_state(states: Seq<(Location, State)>, l: Location, n: nat) -> int
    decreases n,
{
    if n == 0 {
        0
    } else if first_state(states, l, (n - 1) as nat) < n - 1 {
        first_state(states, l, (n - 1) as nat)
    } else if states[n - 1].0 == l {
        n - 1
    } else {
        n as int
    }
}

/// The position of the first matrix for a point lies among the positions
/// looked at, or just past them.
pub proof fn lemma_first_state(states: Seq<(Location, State)>, l: Location, n: nat)
    ensures
        0 <= first_state(states, l, n) <= n,
    decreases n,
{
    if n > 0 {
        lemma_first_state(states, l, (n - 1) as nat);
    }
}

/// A matrix that is the first for a point among some is the first among
/// more.
pub proof fn lemma_first_state_stable(states: Seq<(Location, State)>, l: Location, k: nat, n: nat)
    requires
        k <= n <= states.len(),
        first_state(states, l, k) < k,
    ensures
        first_state(states, l, n) == first_state(states, l, k),
    decreases n - k,
{
    if k < n {
        lemma_first_state_stable(states, l, k, (n - 1) as nat);
    }
}

/// Whether no two rows of the matrix are for the same place.
pub open spec fn state_wf(state: Seq<(Place, Vec<Location>)>) -> bool {
    forall|i: int, j: int|
        0 <= i < j < state.len() ==> (#[trigger] state[i]).0@ != (#[trigger] state[j]).0@
}

impl FlowFacts {
    /// The invariant of the facts: no matrix has two rows for one place.
    pub open spec fn wf(&self) -> bool {
        forall|i: int| 0 <= i < self.states.len() ==> state_wf((#[trigger] self.states[i]).1@)
    }

    /// The matrix at the point, if one was found.
    pub open spec fn state(&self, l: Location) -> Option<State> {
        if first_state(self.states@, l, self.states.len() as nat) < self.states.len() {
            Some(self.states[first_state(self.states@, l, self.states.len() as nat)].1)
        } else {
            None
        }
    }

    /// The matrix at the point, if one was found.
    pub fn state_at(&self, l: Location) -> (r: Option<&State>)
        ensures
            match r {
                Some(s) => self.state(l) == Some(*s),
                None => self.state(l) is None,
            },
    {
        let mut i: usize = 0;
        while i < self.states.len()
            invariant
                i <= self.states.len(),
                first_state(self.states@, l, i as nat) == i,
            decreases self.states.len() - i,
        {
            if self.states[i].0 == l {
                proof {
                    lemma_first_state_stable(
                        self.states@,
                        l,
                        (i + 1) as nat,
                        self.states.len() as nat,
                    );
                }
                return Some(&self.states[i].1);
            }
            i = i + 1;
        }
        None
    }

    /// Whether the facts meet their invariant.
    pub fn check(&self) -> (r: bool)
        ensures
            r == self.wf(),
    {
        let mut i: usize = 0;
        while i < self.states.len()
            invariant
                i <= self.states.len(),
                forall|k: int| 0 <= k < i ==> state_wf((#[trigger] self.states[k]).1@),
            decreases self.states.len() - i,
        {
            let state = &self.states[i].1;
            let mut b: usize = 0;
            while b < state.len()
                invariant
                    b <= state.len(),
                    i < self.states.len(),
                    state == &self.states[i as int].1,
                    forall|x: int, y: int|
                        0 <= x < y < b ==> (#[trigger] state[x]).0@ != (#[trigger] state[y]).0@,
                decreases state.len() - b,
            {
                let mut a: usize = 0;
                while a < b
                    invariant
                        a <= b < state.len(),
                        i < self.states.len(),
                        state == &self.states[i as int].1,
                        forall|x: int| 0 <= x < a ==> (#[trigger] state[x]).0@ != state[b as int].0@,
                    decreases b - a,
                {
                    if state[a].0.same(&state[b].0) {
                        proof {
                            assert(state@[a as int].0@ == state@[b as int].0@);
                            assert(!state_wf(self.states[i as int].1@));
                        }
                        return false;
                    }
                    a = a + 1;
                }
                b = b + 1;
            }
            i = i + 1;
        }
        true
    }
}

impl Procedures {
    /// The invariant of the procedures: the facts about each meet their
    /// invariant, and the number of the blocks of each body fits its type.
    pub open spec fn wf(&self) -> bool {
        forall|b: int|
            0 <= b < self.procedures.len() ==> (#[trigger] self.procedures[b]).facts.wf()
                && self.procedures[b].body.basic_blocks.len() <= u32::MAX
    }

    /// The body of a procedure, if it has one.
    pub open spec fn local(&self, function: DefId) -> Option<BodyId> {
        if function < self.procedures.len() {
            Some(function as usize)
        } else {
            None
        }
    }

    /// The body of a procedure, if it has one.
    pub fn as_local(&self, function: DefId) -> (r: Option<BodyId>)
        ensures
            r == self.local(function),
    {
        if function < self.procedures.len() as u64 {
            Some(function as usize)
        } else {
            None
        }
    }

    /// Whether the procedures meet their invariant.
    pub fn check(&self) -> (r: bool)
        ensures
            r == self.wf(),
    {
        let mut b: usize = 0;
        while b < self.procedures.len()
            invariant
                b <= self.procedures.len(),
                forall|k: int|
                    0 <= k < b ==> (#[trigger] self.procedures[k]).facts.wf()
                        && self.procedures[k].body.basic_blocks.len() <= u32::MAX,
            decreases self.procedures.len() - b,
        {
            if !self.procedures[b].facts.check() || self.procedures[b].body.basic_blocks.len()
                > u32::MAX as usize {
                return false;
            }
            b = b + 1;
        }
        true
    }
}

/// The chains of the given points of the procedure `body_id`, none of them
/// nested.
pub open spec fn root_chains(body_id: BodyId, points: Seq<Location>) -> Set<Seq<Link>> {
    Set::new(
        |c: Seq<Link>|
            exists|j: int|
                0 <= j < points.len() && c == seq![
                    Link { function: body_id, location: #[trigger] points[j] },
                ],
    )
}

/// The matrix of the procedure `body_id` with its points as locations.
pub open spec fn regular_state(state: Seq<(Place, Vec<Location>)>, body_id: BodyId) -> MatrixView {
    Seq::new(state.len(), |i: int| (state[i].0@, root_chains(body_id, state[i].1@)))
}

/// The points of the procedure `body_id` as locations.
pub fn make_row_global(gli: &mut GlobalLocationInterner, body_id: BodyId, dep_set: &Vec<Location>) -> (r:
    Vec<GlobalLocation>)
    requires
        old(gli).wf(),
    ensures
        final(gli).wf(),
        final(gli).extends(old(gli)),
        all_valid(final(gli), r@),
        chains(final(gli), r@) == root_chains(body_id, dep_set@),
{
    let mut r: Vec<GlobalLocation> = Vec::new();
    let mut k: usize = 0;
    while k < dep_set.len()
        invariant
            k <= dep_set.len(),
            r.len() == k,
            gli.wf(),
            gli.extends(old(gli)),
            forall|j: int|
                0 <= j < k ==> gli.valid(#[trigger] r[j]) && gli.chain(r[j]) == seq![
                    Link { function: body_id, location: dep_set[j] },
                ],
        decreases dep_set.len() - k,
    {
        let ghost gli_before = *gli;
        let ghost before = r@;
        let l = gli.globalize_location(dep_set[k], body_id);
        r.push(l);
        proof {
            assert forall|j: int| 0 <= j < k + 1 implies gli.valid(#[trigger] r[j]) && gli.chain(
                r[j],
            ) == seq![Link { function: body_id, location: dep_set[j] }] by {
                if j < k {
                    assert(r[j] == before[j]);
                    gli.lemma_extends_chain(&gli_before, before[j]);
                }
            }
        }
        k = k + 1;
    }
    proof {
        let want = root_chains(body_id, dep_set@);
        assert forall|c: Seq<Link>| chains(gli, r@).contains(c) == want.contains(c) by {
            if chains(gli, r@).contains(c) {
                let j = choose|j: int| 0 <= j < r.len() && gli.chain(#[trigger] r@[j]) == c;
                assert(c == seq![Link { function: body_id, location: dep_set@[j] }]);
            }
            if want.contains(c) {
                let j = choose|j: int|
                    0 <= j < dep_set.len() && c == seq![
                        Link { function: body_id, location: #[trigger] dep_set@[j] },
                    ];
                assert(gli.chain(r@[j]) == c);
            }
        }
        assert(chains(gli, r@) =~= want);
    }
    r
}

/// The matrix at a point of the procedure `body_id`, with the points as
/// locations.
pub fn handle_regular_location(
    gli: &mut GlobalLocationInterner,
    facts: &FlowFacts,
    body_id: BodyId,
    loc: Location,
) -> (r: Result<GlobalDepMatrix, AnalysisError>)
    requires
        old(gli).wf(),
        facts.wf(),
    ensures
        final(gli).wf(),
        final(gli).extends(old(gli)),
        match r {
            Ok(m) => facts.state(loc) is Some && matrix_wf(final(gli), &m) && matrix_view(
                final(gli),
                &m,
            ) == regular_state(facts.state(loc)->0@, body_id),
            Err(e) => facts.state(loc) is None && e == (AnalysisError::MissingFacts {
                function: body_id,
                location: loc,
            }),
        },
{
    let state = match facts.state_at(loc) {
        Some(s) => s,
        None => {
            return Err(AnalysisError::MissingFacts { function: body_id, location: loc });
        },
    };
    proof {
        lemma_first_state(facts.states@, loc, facts.states.len() as nat);
        let i = first_state(facts.states@, loc, facts.states.len() as nat);
        assert(state_wf(facts.states[i].1@));
    }
    let mut m: GlobalDepMatrix = ListMap::new();
    let mut k: usize = 0;
    while k < state.len()
        invariant
            k <= state.len(),
            state_wf(state@),
            gli.wf(),
            gli.extends(old(gli)),
            matrix_wf(gli, &m),
            m.entries().len() == k,
            forall|j: int|
                0 <= j < k ==> (#[trigger] m.entries()[j]).0@ == state[j].0@ && chains(
                    gli,
                    m.entries()[j].1@,
                ) == root_chains(body_id, state[j].1@),
        decreases state.len() - k,
    {
        let ghost gli_before = *gli;
        let ghost m_before = m;
        let row = make_row_global(gli, body_id, &state[k].1);
        let place = state[k].0.duplicate();
        proof {
            lemma_matrix_extends(gli, &gli_before, &m);
            if m.has(place@) {
                let j = m.index(place@);
                assert(state[j].0@ != state[k as int].0@);
            }
        }
        m.push_new(place, row);
        proof {
            assert forall|j: int| 0 <= j < k + 1 implies (#[trigger] m.entries()[j]).0@
                == state[j].0@ && chains(gli, m.entries()[j].1@) == root_chains(
                body_id,
                state[j].1@,
            ) by {
                if j < k {
                    assert(m.entries()[j] == m_before.entries()[j]);
                    lemma_chains_extends(gli, &gli_before, m_before.entries()[j].1@);
                }
            }
            assert forall|i: int| 0 <= i < m.entries().len() implies all_valid(
                gli,
                (#[trigger] m.entries()[i]).1@,
            ) by {
                if i < k {
                    assert(m.entries()[i] == m_before.entries()[i]);
                }
            }
        }
        k = k + 1;
    }
    proof {
        assert(matrix_view(gli, &m) =~= regular_state(state@, body_id));
    }
    Ok(m)
}

/// The states of a flow: for each location the matrix at that location, in
/// the order in which the locations were first given one.
pub type StatesView = Seq<(Seq<Link>, TranslatedView)>;

/// The value of a [`GlobalFlowGraph`].
pub struct GlobalFlowView {
    pub states: StatesView,
    pub return_state: MatrixView,
}

/// The dependency matrices at all points of a procedure and of the callees
/// inlined into it, and the matrix that holds when the procedure returns.
pub struct GlobalFlowGraph {
    location_states: ListMap<GlobalLocation, TranslatedDepMatrix>,
    return_state: GlobalDepMatrix,
}

/// The first `n` rows merged into the matrix: a row for a place that the
/// matrix knows adds its locations to those of the matrix, a row for a new
/// place becomes a row of the matrix.
pub open spec fn merged_rows(m: MatrixView, rows: MatrixView, n: nat) -> MatrixView
    decreases n,
{
    if n == 0 {
        m
    } else {
        let before = merged_rows(m, rows, (n - 1) as nat);
        match seq_get(before, rows[n - 1].0) {
            Some(s) => seq_set(before, rows[n - 1].0, s.union(rows[n - 1].1)),
            None => seq_set(before, rows[n - 1].0, rows[n - 1].1),
        }
    }
}

impl GlobalFlowGraph {
    /// The invariant of the flow with respect to the interner.
    pub closed spec fn wf(&self, gli: &GlobalLocationInterner) -> bool {
        &&& self.location_states.wf()
        &&& forall|i: int|
            0 <= i < self.location_states.entries().len() ==> gli.valid(
                (#[trigger] self.location_states.entries()[i]).0,
            ) && self.location_states.entries()[i].1.wf(gli)
        &&& matrix_wf(gli, &self.return_state)
    }

    /// The value of the flow.
    pub closed spec fn view(&self, gli: &GlobalLocationInterner) -> GlobalFlowView {
        GlobalFlowView {
            states: Seq::new(
                self.location_states.entries().len(),
                |i: int|
                    (
                        gli.chain(self.location_states.entries()[i].0),
                        self.location_states.entries()[i].1.view(gli),
                    ),
            ),
            return_state: matrix_view(gli, &self.return_state),
        }
    }

    /// A flow keeps its invariant and its value when the interner grows.
    pub proof fn lemma_extends(
        &self,
        gli: &GlobalLocationInterner,
        before: &GlobalLocationInterner,
    )
        requires
            gli.extends(before),
            self.wf(before),
        ensures
            self.wf(gli),
            self.view(gli) == self.view(before),
    {
        lemma_matrix_extends(gli, before, &self.return_state);
        assert forall|i: int| 0 <= i < self.location_states.entries().len() implies gli.valid(
            (#[trigger] self.location_states.entries()[i]).0,
        ) && self.location_states.entries()[i].1.wf(gli) && gli.chain(
            self.location_states.entries()[i].0,
        ) == before.chain(self.location_states.entries()[i].0)
            && self.location_states.entries()[i].1.view(gli)
            == self.location_states.entries()[i].1.view(before) by {
            gli.lemma_extends_chain(before, self.location_states.entries()[i].0);
            self.location_states.entries()[i].1.lemma_extends(gli, before);
        }
        assert(self.view(gli).states =~= self.view(before).states);
    }

    /// Every location that a state of the flow names as one that last wrote
    /// a place is a location of the interner.
    pub proof fn lemma_deps_known(
        &self,
        gli: &GlobalLocationInterner,
        i: int,
        q: PlaceView,
        c: Seq<Link>,
    )
        requires
            gli.wf(),
            self.wf(gli),
            0 <= i < self.view(gli).states.len(),
            self.view(gli).states[i].1.deps(q).contains(c),
        ensures
            gli.find(c) is Some,
    {
        self.location_states.entries()[i].1.lemma_deps_known(gli, q, c);
    }

    /// The states of a flow are for distinct locations.
    pub proof fn lemma_distinct(&self, gli: &GlobalLocationInterner)
        requires
            gli.wf(),
            self.wf(gli),
        ensures
            distinct_keys(self.view(gli).states),
            distinct_keys(self.view(gli).return_state),
    {
        lemma_matrix_distinct(gli, &self.return_state);
        let s = self.view(gli).states;
        let e = self.location_states.entries();
        assert forall|i: int, j: int| 0 <= i < j < s.len() implies (#[trigger] s[i]).0 != (
        #[trigger] s[j]).0 by {
            assert(e[i].0@ != e[j].0@);
            gli.lemma_equal_iff_same_chain(e[i].0, e[j].0);
        }
    }

    /// A flow without states.
    pub fn new() -> (r: Self)
        ensures
            forall|gli: &GlobalLocationInterner|
                #[trigger] r.wf(gli) && r.view(gli) == (GlobalFlowView {
                    states: Seq::empty(),
                    return_state: Seq::empty(),
                }),
    {
        let r = GlobalFlowGraph { location_states: ListMap::new(), return_state: ListMap::new() };
        proof {
            assert forall|gli: &GlobalLocationInterner|
                #[trigger] r.wf(gli) && r.view(gli) == (GlobalFlowView {
                    states: Seq::empty(),
                    return_state: Seq::empty(),
                }) by {
                assert(r.view(gli).states =~= Seq::empty());
                assert(r.view(gli).return_state =~= Seq::empty());
            }
        }
        r
    }

    /// The states of the flow.
    pub fn location_states(&self) -> (r: &ListMap<GlobalLocation, TranslatedDepMatrix>)
        ensures
            forall|gli: &GlobalLocationInterner|
                #[trigger] self.wf(gli) ==> r.wf() && r.entries().len() == self.view(
                    gli,
                ).states.len() && forall|i: int|
                    0 <= i < r.entries().len() ==> gli.valid((#[trigger] r.entries()[i]).0)
                        && r.entries()[i].1.wf(gli) && self.view(gli).states[i] == (
                        gli.chain(r.entries()[i].0),
                        r.entries()[i].1.view(gli),
                    ),
    {
        &self.location_states
    }

    /// The matrix that holds when the procedure returns.
    pub fn return_state(&self) -> (r: &GlobalDepMatrix)
        ensures
            forall|gli: &GlobalLocationInterner|
                #[trigger] self.wf(gli) ==> matrix_wf(gli, r) && matrix_view(gli, r) == self.view(
                    gli,
                ).return_state,
    {
        &self.return_state
    }

    /// Gives the location the matrix as its state.
    pub fn set_state(
        &mut self,
        gli: &GlobalLocationInterner,
        location: GlobalLocation,
        matrix: TranslatedDepMatrix,
    )
        requires
            gli.wf(),
            old(self).wf(gli),
            gli.valid(location),
            matrix.wf(gli),
        ensures
            final(self).wf(gli),
            final(self).view(gli).return_state == old(self).view(gli).return_state,
            final(self).view(gli).states == seq_set(
                old(self).view(gli).states,
                gli.chain(location),
                matrix.view(gli),
            ),
    {
        let ghost before = self.location_states.entries();
        let ghost v = matrix;
        proof {
            self.lemma_distinct(gli);
        }
        self.location_states.set(location, matrix);
        proof {
            let kf = |l: GlobalLocation| gli.chain(l);
            let vf = |m: TranslatedDepMatrix| m.view(gli);
            let after = self.location_states.entries();
            assert(mapped(before, kf, vf) =~= old(self).view(gli).states);
            assert(mapped(after, kf, vf) =~= self.view(gli).states);
            if exists|i: int| 0 <= i < before.len() && (#[trigger] before[i]).0@ == location@ {
                let i = choose|i: int|
                    0 <= i < before.len() && (#[trigger] before[i]).0@ == location@;
                assert(kf(before[i].0) == kf(location));
            } else {
                assert forall|i: int| 0 <= i < before.len() implies kf((#[trigger] before[i]).0)
                    != kf(location) by {
                    gli.lemma_equal_iff_same_chain(before[i].0, location);
                    assert(before[i].0@ != location@);
                }
            }
            lemma_mapped_set(before, after, location, v, kf, vf);
            assert forall|i: int| 0 <= i < after.len() implies gli.valid((#[trigger] after[i]).0)
                && after[i].1.wf(gli) by {
                if i < before.len() && after[i] == before[i] {
                }
            }
        }
    }

    /// Merges the matrix into the matrix that holds when the procedure
    /// returns.
    pub fn merge_return_state(&mut self, gli: &GlobalLocationInterner, state: &GlobalDepMatrix)
        requires
            gli.wf(),
            old(self).wf(gli),
            matrix_wf(gli, state),
        ensures
            final(self).wf(gli),
            final(self).view(gli).states == old(self).view(gli).states,
            final(self).view(gli).return_state == merged_rows(
                old(self).view(gli).return_state,
                matrix_view(gli, state),
                state.entries().len() as nat,
            ),
    {
        let rows = state.as_vec();
        let ghost want = matrix_view(gli, state);
        let mut n: usize = 0;
        while n < rows.len()
            invariant
                n <= rows.len(),
                rows@ == state.entries(),
                gli.wf(),
                self.wf(gli),
                matrix_wf(gli, state),
                want == matrix_view(gli, state),
                self.view(gli).states == old(self).view(gli).states,
                self.view(gli).return_state == merged_rows(
                    old(self).view(gli).return_state,
                    want,
                    n as nat,
                ),
            decreases rows.len() - n,
        {
            let place = &rows[n].0;
            proof {
                lemma_row_of(gli, &self.return_state, place@);
            }
            let mut row = match self.return_state.get(place) {
                Some(existing) => {
                    proof {
                        self.return_state.lemma_entry(self.return_state.index(place@));
                    }
                    copy_locations(existing)
                },
                None => {
                    let r: Vec<GlobalLocation> = Vec::new();
                    proof {
                        assert(chains(gli, r@) =~= Set::<Seq<Link>>::empty());
                    }
                    r
                },
            };
            extend_locations(&mut row, gli, &rows[n].1);
            proof {
                assert(want[n as int] == (place@, chains(gli, rows[n as int].1@)));
                assert(Set::<Seq<Link>>::empty().union(chains(gli, rows[n as int].1@)) =~= chains(
                    gli,
                    rows[n as int].1@,
                ));
            }
            set_row(&mut self.return_state, gli, place.duplicate(), row);
            n = n + 1;
        }
    }
}

/// The numbers of the statements of the blocks of a body.
pub open spec fn shape(body: &MirBody) -> Seq<usize> {
    Seq::new(body.basic_blocks.len() as nat, |i: int| body.basic_blocks[i].statements.len())
}

/// The points of a body, block by block, the statements of each block
/// followed by its terminator.
pub open spec fn body_locations(body: &MirBody) -> Seq<Location> {
    locations_below(shape(body), body.basic_blocks.len() as nat)
}

/// The points of a body.
pub fn locations_of(body: &MirBody) -> (r: Vec<Location>)
    requires
        body.basic_blocks.len() <= u32::MAX,
    ensures
        r@ == body_locations(body),
{
    let mut statements: Vec<usize> = Vec::new();
    let mut i: usize = 0;
    while i < body.basic_blocks.len()
        invariant
            i <= body.basic_blocks.len(),
            statements.len() == i,
            forall|j: int| 0 <= j < i ==> statements[j] == body.basic_blocks[j].statements.len(),
        decreases body.basic_blocks.len() - i,
    {
        statements.push(body.basic_blocks[i].statements.len());
        i = i + 1;
    }
    proof {
        assert(statements@ =~= shape(body));
    }
    locations_of_body(&statements)
}

/// What is known of the flow of a procedure.
pub enum FlowMemoView {
    NotStarted,
    InProgress,
    Done(GlobalFlowView),
}

/// What is known of the flow of a procedure.
pub type FlowMemo = CacheEntry<GlobalFlowGraph>;

/// The invariant of an entry with respect to the interner.
pub open spec fn flow_entry_wf(e: FlowMemo, gli: &GlobalLocationInterner) -> bool {
    e matches CacheEntry::Done(f) ==> f.wf(gli)
}

/// The value of an entry.
pub open spec fn flow_entry_view(e: FlowMemo, gli: &GlobalLocationInterner) -> FlowMemoView {
    match e {
        CacheEntry::NotStarted => FlowMemoView::NotStarted,
        CacheEntry::InProgress => FlowMemoView::InProgress,
        CacheEntry::Done(f) => FlowMemoView::Done(f.view(gli)),
    }
}

/// Whether every entry meets its invariant.
pub open spec fn flow_memo_wf(gli: &GlobalLocationInterner, memo: Seq<FlowMemo>) -> bool {
    forall|i: int| 0 <= i < memo.len() ==> flow_entry_wf(#[trigger] memo[i], gli)
}

/// The values of the entries.
pub open spec fn flow_memo_views(gli: &GlobalLocationInterner, memo: Seq<FlowMemo>) -> Seq<
    FlowMemoView,
> {
    Seq::new(memo.len(), |i: int| flow_entry_view(memo[i], gli))
}

/// Number of procedures whose flow nobody has asked for.
pub open spec fn flows_not_started(memo: Seq<FlowMemoView>) -> nat
    decreases memo.len(),
{
    if memo.len() == 0 {
        0
    } else {
        flows_not_started(memo.drop_last()) + if memo.last() is NotStarted {
            1nat
        } else {
            0nat
        }
    }
}

/// What changing an entry does to the number of procedures whose flow
/// nobody has asked for.
pub proof fn lemma_flows_not_started_update(memo: Seq<FlowMemoView>, b: int, v: FlowMemoView)
    requires
        0 <= b < memo.len(),
    ensures
        flows_not_started(memo.update(b, v)) + if memo[b] is NotStarted {
            1nat
        } else {
            0nat
        } == flows_not_started(memo) + if v is NotStarted {
            1nat
        } else {
            0nat
        },
    decreases memo.len(),
{
    if b == memo.len() - 1 {
        assert(memo.update(b, v).drop_last() =~= memo.drop_last());
    } else {
        assert(memo.update(b, v).drop_last() =~= memo.drop_last().update(b, v));
        lemma_flows_not_started_update(memo.drop_last(), b, v);
    }
}

/// Entries keep their invariant and their value when the interner grows.
pub proof fn lemma_flow_memo_extends(
    gli: &GlobalLocationInterner,
    before: &GlobalLocationInterner,
    memo: Seq<FlowMemo>,
)
    requires
        gli.extends(before),
        flow_memo_wf(before, memo),
    ensures
        flow_memo_wf(gli, memo),
        flow_memo_views(gli, memo) == flow_memo_views(before, memo),
{
    assert forall|i: int| 0 <= i < memo.len() implies flow_entry_wf(#[trigger] memo[i], gli)
        && flow_entry_view(memo[i], gli) == flow_entry_view(memo[i], before) by {
        match memo[i] {
            CacheEntry::Done(f) => {
                f.lemma_extends(gli, before);
            },
            _ => {},
        }
    }
    assert(flow_memo_views(gli, memo) =~= flow_memo_views(before, memo));
}

/// The procedure whose flow is inlined at a point, and the call that
/// stands there: the point is a terminator that calls a known procedure with
/// a body, and that procedure is to be inlined.
pub open spec fn inlined_callee<O: Oracle>(
    procedures: &Procedures,
    ctrl: &AnalysisCtrl,
    oracle: &O,
    b: int,
    l: Location,
) -> Option<(BodyId, FnAndArgsView)> {
    if procedures.procedures[b].body.at(l) == Ok::<StmtAt, crate::mir::StmtAtErr>(StmtAt::Terminator) {
        match procedures.procedures[b].body.basic_blocks[l.block as int].terminator.call_of() {
            Ok(call) => match procedures.local(call.function) {
                Some(c) => if ctrl.use_recursive_analysis && oracle.inlines(c) {
                    Some((c, call))
                } else {
                    None
                },
                None => None,
            },
            Err(_) => None,
        }
    } else {
        None
    }
}

/// The matrix at a point of a procedure, with the points as locations, if
/// anything was found about the point.
pub open spec fn regular_at(procedures: &Procedures, b: int, l: Location) -> Option<MatrixView> {
    match procedures.procedures[b].facts.state(l) {
        Some(s) => Some(regular_state(s@, b as usize)),
        None => None,
    }
}

/// A matrix without translation.
pub open spec fn untranslated(m: MatrixView) -> TranslatedView {
    TranslatedView { matrix: m, translator: None }
}

/// The flow once a point that is not inlined was looked at: the point has
/// its matrix as state, and if it returns from the procedure, its matrix is
/// merged into the matrix that holds on return.
pub open spec fn after_regular(
    flow: GlobalFlowView,
    procedures: &Procedures,
    b: int,
    l: Location,
    regular: MatrixView,
) -> GlobalFlowView {
    GlobalFlowView {
        states: seq_set(
            flow.states,
            seq![Link { function: b as usize, location: l }],
            untranslated(regular),
        ),
        return_state: if procedures.procedures[b].body.at(l) == Ok::<StmtAt, crate::mir::StmtAtErr>(
            StmtAt::Terminator,
        ) && procedures.procedures[b].body.basic_blocks[l.block as int].terminator is Return {
            merged_rows(flow.return_state, regular, regular.len())
        } else {
            flow.return_state
        },
    }
}

/// The places of the rows of a matrix.
pub open spec fn row_places(m: MatrixView) -> Seq<PlaceView> {
    Seq::new(m.len(), |i: int| m[i].0)
}

/// The states with the first `n` states of the callee, nested under the
/// call site.
pub open spec fn nested_states(states: StatesView, site: Link, inner: StatesView, n: nat) -> StatesView
    decreases n,
{
    if n == 0 {
        states
    } else {
        seq_set(
            nested_states(states, site, inner, (n - 1) as nat),
            seq![site] + inner[n - 1].0,
            TranslatedView {
                matrix: relativized_matrix(site, inner[n - 1].1.matrix),
                translator: inner[n - 1].1.translator,
            },
        )
    }
}

/// The location that stands for the formal argument at position `a`,
/// counted from 1, of the callee `c` inlined at the call site.
pub open spec fn argument_chain(site: Link, c: BodyId, arg_block: u32, a: nat) -> Seq<Link> {
    seq![site, Link { function: c, location: Location { block: arg_block, statement_index: a as usize } }]
}

/// The states with the matrix of the caller as the state of the first `n`
/// formal arguments of the callee.
pub open spec fn argument_states(
    states: StatesView,
    site: Link,
    c: BodyId,
    arg_block: u32,
    parent: TranslatedView,
    n: nat,
) -> StatesView
    decreases n,
{
    if n == 0 {
        states
    } else {
        seq_set(
            argument_states(states, site, c, arg_block, parent, (n - 1) as nat),
            argument_chain(site, c, arg_block, n),
            parent,
        )
    }
}

/// The translation of the places in the rows of the first `n` states of
/// the callee to the places of the caller that they stand for.
pub open spec fn parent_translation_states(
    args: Seq<Option<PlaceView>>,
    destination: Option<PlaceView>,
    arg_count: usize,
    returns_unit: bool,
    inner: StatesView,
    n: nat,
) -> TranslatorView
    decreases n,
{
    if n == 0 {
        Seq::empty()
    } else {
        parent_translation_rows(
            parent_translation_states(
                args,
                destination,
                arg_count,
                returns_unit,
                inner,
                (n - 1) as nat,
            ),
            args,
            destination,
            arg_count,
            returns_unit,
            row_places(inner[n - 1].1.matrix),
            inner[n - 1].1.matrix.len(),
        )
    }
}

/// The flow once the flow of the callee `c` was inlined at the call at
/// `l`. The states of the callee come nested under the call site. Each
/// formal argument of the callee gets the matrix of the caller at the call,
/// with the translation that takes places of the callee to places of the caller.
/// The call site itself gets the matrix that holds when the callee returns,
/// nested under the call site, with the translation that takes places of the
/// caller to places of the callee.
pub open spec fn after_inlined(
    flow: GlobalFlowView,
    procedures: &Procedures,
    b: int,
    l: Location,
    c: BodyId,
    call: FnAndArgsView,
    regular: MatrixView,
    inner: GlobalFlowView,
) -> GlobalFlowView {
    let site = Link { function: b as usize, location: l };
    let callee = procedures.procedures[c as int].body;
    let destination = match call.destination {
        Some(d) => Some(d.0),
        None => None,
    };
    let parent = TranslatedView {
        matrix: regular,
        translator: Some(
            parent_translation_states(
                call.args,
                destination,
                callee.arg_count,
                callee.returns_unit,
                inner.states,
                inner.states.len(),
            ),
        ),
    };
    let boundary = TranslatedView {
        matrix: relativized_matrix(site, inner.return_state),
        translator: Some(
            translation_matrix(
                call.args,
                destination,
                callee.arg_count,
                callee.returns_unit,
                row_places(inner.return_state),
                procedures.procedures[b].facts.aliases@,
                inner.return_state.len(),
            ),
        ),
    };
    GlobalFlowView {
        states: seq_set(
            argument_states(
                nested_states(flow.states, site, inner.states, inner.states.len()),
                site,
                c,
                callee.basic_blocks.len() as u32,
                parent,
                call.args.len(),
            ),
            seq![site],
            boundary,
        ),
        return_state: flow.return_state,
    }
}

/// What asking for the flow of the procedure `b` gives: the entries
/// afterwards, and the flow unless the procedure is in progress, or the
/// reason why the flow could not be made. A flow that could not be made
/// leaves the procedure as if nobody had asked.
pub open spec fn flow_for<O: Oracle>(
    procedures: &Procedures,
    ctrl: &AnalysisCtrl,
    oracle: &O,
    memo: Seq<FlowMemoView>,
    b: nat,
) -> (Seq<FlowMemoView>, Result<Option<GlobalFlowView>, AnalysisError>)
    decreases flows_not_started(memo), 0int, 0int,
{
    if b >= memo.len() || b >= procedures.procedures.len() {
        (memo, Ok(None))
    } else {
        match memo[b as int] {
            FlowMemoView::Done(f) => (memo, Ok(Some(f))),
            FlowMemoView::InProgress => (memo, Ok(None)),
            FlowMemoView::NotStarted => {
                proof {
                    lemma_flows_not_started_update(memo, b as int, FlowMemoView::InProgress);
                }
                let r = visit(
                    procedures,
                    ctrl,
                    oracle,
                    memo.update(b as int, FlowMemoView::InProgress),
                    b,
                    GlobalFlowView { states: Seq::empty(), return_state: Seq::empty() },
                    0,
                );
                match r.1 {
                    Ok(f) => (r.0.update(b as int, FlowMemoView::Done(f)), Ok(Some(f))),
                    Err(e) => (r.0.update(b as int, FlowMemoView::NotStarted), Err(e)),
                }
            },
        }
    }
}

/// What looking at the points of the procedure `b` from position `k` on
/// makes of the flow. A point about which nothing was found ends the visit
/// with an error. At a call of a procedure that is to be inlined the flow of
/// the callee is asked for; if the callee is in progress the call is treated
/// like any other point.
pub open spec fn visit<O: Oracle>(
    procedures: &Procedures,
    ctrl: &AnalysisCtrl,
    oracle: &O,
    memo: Seq<FlowMemoView>,
    b: nat,
    flow: GlobalFlowView,
    k: nat,
) -> (Seq<FlowMemoView>, Result<GlobalFlowView, AnalysisError>)
    decreases flows_not_started(memo), 1int, body_locations(
        &procedures.procedures[b as int].body,
    ).len() - k,
{
    let locations = body_locations(&procedures.procedures[b as int].body);
    if k >= locations.len() {
        (memo, Ok(flow))
    } else {
        let l = locations[k as int];
        match regular_at(procedures, b as int, l) {
            None => (
                memo,
                Err(AnalysisError::MissingFacts { function: b as usize, location: l }),
            ),
            Some(regular) => match inlined_callee(procedures, ctrl, oracle, b as int, l) {
                None => visit(
                    procedures,
                    ctrl,
                    oracle,
                    memo,
                    b,
                    after_regular(flow, procedures, b as int, l, regular),
                    k + 1,
                ),
                Some(c) => {
                    let r = flow_for(procedures, ctrl, oracle, memo, c.0 as nat);
                    if flows_not_started(r.0) > flows_not_started(memo) {
                        (r.0, Ok(flow))
                    } else {
                        match r.1 {
                            Err(e) => (r.0, Err(e)),
                            Ok(None) => visit(
                                procedures,
                                ctrl,
                                oracle,
                                r.0,
                                b,
                                after_regular(flow, procedures, b as int, l, regular),
                                k + 1,
                            ),
                            Ok(Some(inner)) => visit(
                                procedures,
                                ctrl,
                                oracle,
                                r.0,
                                b,
                                after_inlined(flow, procedures, b as int, l, c.0, c.1, regular, inner),
                                k + 1,
                            ),
                        }
                    }
                },
            },
        }
    }
}

/// Looks at a point that is not inlined: gives it its matrix as state,
/// and merges the matrix into the matrix that holds on return if the point
/// returns from the procedure.
pub fn visit_regular(
    flow: &mut GlobalFlowGraph,
    gli: &mut GlobalLocationInterner,
    procedures: &Procedures,
    b: BodyId,
    l: Location,
    state: GlobalDepMatrix,
)
    requires
        old(gli).wf(),
        old(flow).wf(old(gli)),
        matrix_wf(old(gli), &state),
        b < procedures.procedures.len(),
    ensures
        final(gli).wf(),
        final(gli).extends(old(gli)),
        final(flow).wf(final(gli)),
        final(flow).view(final(gli)) == after_regular(
            old(flow).view(old(gli)),
            procedures,
            b as int,
            l,
            matrix_view(old(gli), &state),
        ),
{
    let body = &procedures.procedures[b].body;
    let is_return = match body.maybe_stmt_at(l) {
        Ok(StmtAt::Terminator) => matches!(
            body.basic_blocks[l.block as usize].terminator,
            TerminatorKind::Return
        ),
        _ => false,
    };
    let ghost regular = matrix_view(gli, &state);
    if is_return {
        flow.merge_return_state(gli, &state);
    }
    let ghost gli_before = *gli;
    let ghost mid = flow.view(gli);
    let key = gli.globalize_location(l, b);
    proof {
        flow.lemma_extends(gli, &gli_before);
        lemma_matrix_extends(gli, &gli_before, &state);
        assert(mid.states == old(flow).view(old(gli)).states);
        assert(mid.return_state == after_regular(
            old(flow).view(old(gli)),
            procedures,
            b as int,
            l,
            regular,
        ).return_state);
    }
    let matrix = TranslatedDepMatrix::untranslated(state);
    proof {
        assert(matrix.wf(gli));
        assert(matrix.view(gli) == untranslated(regular));
    }
    flow.set_state(gli, key, matrix);
    proof {
        assert(flow.view(gli).states == after_regular(
            old(flow).view(old(gli)),
            procedures,
            b as int,
            l,
            regular,
        ).states);
    }
}

/// The translation of the places in the rows of the states of the callee
/// to the places of the caller that they stand for.
fn parent_translation(
    gli: &GlobalLocationInterner,
    args: &Vec<Option<Place>>,
    destination: &Option<(Place, u32)>,
    inner_body: &MirBody,
    inner: &GlobalFlowGraph,
) -> (t: Translator)
    requires
        gli.wf(),
        inner.wf(gli),
    ensures
        t.wf(),
        translator_view(&t) == parent_translation_states(
            argument_views(args@),
            destination_view(*destination),
            inner_body.arg_count,
            inner_body.returns_unit,
            inner.view(gli).states,
            inner.view(gli).states.len(),
        ),
{
    let states = inner.location_states().as_vec();
    let mut t: Translator = ListMap::new();
    let mut n: usize = 0;
    proof {
        assert(translator_view(&t) =~= Seq::<(PlaceView, PlaceView)>::empty());
    }
    while n < states.len()
        invariant
            n <= states.len(),
            gli.wf(),
            inner.wf(gli),
            t.wf(),
            states@.len() == inner.view(gli).states.len(),
            forall|i: int|
                0 <= i < states.len() ==> (#[trigger] states[i]).1.wf(gli) && inner.view(
                    gli,
                ).states[i].1 == states[i].1.view(gli),
            translator_view(&t) == parent_translation_states(
                argument_views(args@),
                destination_view(*destination),
                inner_body.arg_count,
                inner_body.returns_unit,
                inner.view(gli).states,
                n as nat,
            ),
        decreases states.len() - n,
    {
        let rows = states[n].1.keys(gli);
        proof {
            assert(place_views(rows@) =~= row_places(inner.view(gli).states[n as int].1.matrix));
        }
        add_parent_translations(&mut t, args, destination, inner_body, &rows);
        n = n + 1;
    }
    t
}

/// The places of the rows of a matrix.
fn places_of(gli: &GlobalLocationInterner, m: &GlobalDepMatrix) -> (r: Vec<Place>)
    ensures
        place_views(r@) == row_places(matrix_view(gli, m)),
{
    let rows = m.as_vec();
    let mut r: Vec<Place> = Vec::new();
    let mut i: usize = 0;
    while i < rows.len()
        invariant
            i <= rows.len(),
            r.len() == i,
            forall|j: int| 0 <= j < i ==> (#[trigger] r[j])@ == rows[j].0@,
        decreases rows.len() - i,
    {
        r.push(rows[i].0.duplicate());
        i = i + 1;
    }
    proof {
        assert(place_views(r@) =~= row_places(matrix_view(gli, m)));
    }
    r
}

/// Puts the states of the callee into the flow, nested under the call
/// site.
fn nest_states(
    flow: &mut GlobalFlowGraph,
    gli: &mut GlobalLocationInterner,
    site: GliAt,
    inner: &GlobalFlowGraph,
)
    requires
        old(gli).wf(),
        old(flow).wf(old(gli)),
        inner.wf(old(gli)),
    ensures
        final(gli).wf(),
        final(gli).extends(old(gli)),
        final(flow).wf(final(gli)),
        final(flow).view(final(gli)).return_state == old(flow).view(old(gli)).return_state,
        final(flow).view(final(gli)).states == nested_states(
            old(flow).view(old(gli)).states,
            site.link(),
            inner.view(old(gli)).states,
            inner.view(old(gli)).states.len(),
        ),
{
    let states = inner.location_states().as_vec();
    let ghost inner_states = inner.view(gli).states;
    let mut n: usize = 0;
    while n < states.len()
        invariant
            n <= states.len(),
            gli.wf(),
            gli.extends(old(gli)),
            flow.wf(gli),
            inner.wf(gli),
            inner_states == inner.view(gli).states,
            inner_states == inner.view(old(gli)).states,
            states@.len() == inner_states.len(),
            forall|i: int|
                0 <= i < states.len() ==> gli.valid((#[trigger] states[i]).0) && states[i].1.wf(gli)
                    && inner_states[i] == (gli.chain(states[i].0), states[i].1.view(gli)),
            flow.view(gli).return_state == old(flow).view(old(gli)).return_state,
            flow.view(gli).states == nested_states(
                old(flow).view(old(gli)).states,
                site.link(),
                inner_states,
                n as nat,
            ),
        decreases states.len() - n,
    {
        let ghost gli_before = *gli;
        let key = site.relativize(gli, states[n].0);
        let ghost gli_mid = *gli;
        proof {
            states[n as int].1.lemma_extends(gli, &gli_before);
        }
        let matrix = states[n].1.relativize(gli, site);
        proof {
            gli.lemma_extends_chain(&gli_mid, key);
            flow.lemma_extends(&gli_mid, &gli_before);
            flow.lemma_extends(gli, &gli_mid);
            inner.lemma_extends(&gli_mid, &gli_before);
            inner.lemma_extends(gli, &gli_mid);
            assert forall|i: int| 0 <= i < states.len() implies gli.valid((#[trigger] states[i]).0)
                && states[i].1.wf(gli) && inner_states[i] == (
                gli.chain(states[i].0),
                states[i].1.view(gli),
            ) by {
                gli.lemma_extends_chain(&gli_before, states[i].0);
                gli_mid.lemma_extends_chain(&gli_before, states[i].0);
                gli.lemma_extends_chain(&gli_mid, states[i].0);
                states[i].1.lemma_extends(&gli_mid, &gli_before);
                states[i].1.lemma_extends(gli, &gli_mid);
            }
        }
        flow.set_state(gli, key, matrix);
        n = n + 1;
    }
}

/// Gives each formal argument of the callee the matrix of the caller as
/// its state.
fn add_argument_states(
    flow: &mut GlobalFlowGraph,
    gli: &mut GlobalLocationInterner,
    site: GliAt,
    c: BodyId,
    arg_block: u32,
    parent: &TranslatedDepMatrix,
    count: usize,
)
    requires
        old(gli).wf(),
        old(flow).wf(old(gli)),
        parent.wf(old(gli)),
    ensures
        final(gli).wf(),
        final(gli).extends(old(gli)),
        final(flow).wf(final(gli)),
        final(flow).view(final(gli)).return_state == old(flow).view(old(gli)).return_state,
        final(flow).view(final(gli)).states == argument_states(
            old(flow).view(old(gli)).states,
            site.link(),
            c,
            arg_block,
            parent.view(old(gli)),
            count as nat,
        ),
{
    let mut a: usize = 0;
    while a < count
        invariant
            a <= count,
            gli.wf(),
            gli.extends(old(gli)),
            flow.wf(gli),
            parent.wf(gli),
            parent.view(gli) == parent.view(old(gli)),
            flow.view(gli).return_state == old(flow).view(old(gli)).return_state,
            flow.view(gli).states == argument_states(
                old(flow).view(old(gli)).states,
                site.link(),
                c,
                arg_block,
                parent.view(old(gli)),
                a as nat,
            ),
        decreases count - a,
    {
        a = a + 1;
        let ghost gli_before = *gli;
        let inner_location = gli.globalize_location(
            Location { block: arg_block, statement_index: a },
            c,
        );
        let ghost gli_mid = *gli;
        let key = site.relativize(gli, inner_location);
        proof {
            flow.lemma_extends(&gli_mid, &gli_before);
            flow.lemma_extends(gli, &gli_mid);
            parent.lemma_extends(&gli_mid, &gli_before);
            parent.lemma_extends(gli, &gli_mid);
            assert(gli.chain(key) =~= argument_chain(site.link(), c, arg_block, a as nat));
        }
        flow.set_state(gli, key, parent.duplicate(gli));
    }
}

/// Inlines the flow of the callee `c` at the call at `l` of the procedure
/// `b`.
pub fn inline_flow(
    flow: &mut GlobalFlowGraph,
    gli: &mut GlobalLocationInterner,
    procedures: &Procedures,
    b: BodyId,
    l: Location,
    c: BodyId,
    function: Ghost<DefId>,
    args: &Vec<Option<Place>>,
    destination: &Option<(Place, u32)>,
    state: GlobalDepMatrix,
    inner: &GlobalFlowGraph,
)
    requires
        old(gli).wf(),
        old(flow).wf(old(gli)),
        inner.wf(old(gli)),
        matrix_wf(old(gli), &state),
        b < procedures.procedures.len(),
        c < procedures.procedures.len(),
        procedures.procedures[c as int].body.basic_blocks.len() <= u32::MAX,
    ensures
        final(gli).wf(),
        final(gli).extends(old(gli)),
        final(flow).wf(final(gli)),
        final(flow).view(final(gli)) == after_inlined(
            old(flow).view(old(gli)),
            procedures,
            b as int,
            l,
            c,
            FnAndArgsView {
                function: function@,
                args: argument_views(args@),
                destination: match *destination {
                    Some(d) => Some((d.0@, d.1)),
                    None => None,
                },
            },
            matrix_view(old(gli), &state),
            inner.view(old(gli)),
        ),
{
    let inner_body = &procedures.procedures[c].body;
    let site = GliAt::at(l, b);
    let ghost flow0 = flow.view(gli);
    let ghost inner_v = inner.view(gli);
    let ghost regular = matrix_view(gli, &state);
    let ghost args_v = argument_views(args@);
    let ghost dest_v = destination_view(*destination);
    let translator = parent_translation(gli, args, destination, inner_body, inner);
    let parent = TranslatedDepMatrix::translated(state, translator);
    let children = places_of(gli, inner.return_state());
    let ghost gli0 = *gli;
    let ghost parent_v = TranslatedView {
        matrix: regular,
        translator: Some(
            parent_translation_states(
                args_v,
                dest_v,
                inner_body.arg_count,
                inner_body.returns_unit,
                inner_v.states,
                inner_v.states.len(),
            ),
        ),
    };
    proof {
        assert(parent.wf(gli));
        assert(parent.view(gli) == parent_v);
        assert(inner.wf(gli));
        assert(place_views(children@) == row_places(inner_v.return_state));
        assert(place_views(children@).len() == children.len());
        assert(row_places(inner_v.return_state).len() == inner_v.return_state.len());
        assert(children.len() == inner_v.return_state.len());
    }
    nest_states(flow, gli, site, inner);
    let ghost gli1 = *gli;
    let ghost states1 = flow.view(gli).states;
    proof {
        parent.lemma_extends(gli, &gli0);
        inner.lemma_extends(gli, &gli0);
        assert(states1 == nested_states(flow0.states, site.link(), inner_v.states, inner_v.states.len()));
    }
    add_argument_states(
        flow,
        gli,
        site,
        c,
        inner_body.basic_blocks.len() as u32,
        &parent,
        args.len(),
    );
    let ghost gli2 = *gli;
    let ghost states2 = flow.view(gli).states;
    proof {
        inner.lemma_extends(gli, &gli1);
        assert(inner.wf(gli));
        assert(states2 == argument_states(
            states1,
            site.link(),
            c,
            inner_body.basic_blocks.len() as u32,
            parent_v,
            args_v.len(),
        ));
    }
    let matrix = relativize_global_dep_matrix(gli, site, inner.return_state());
    let ghost gli3 = *gli;
    let boundary = create_translation_matrix(
        args,
        destination,
        inner_body,
        &children,
        &procedures.procedures[b].facts.aliases,
    );
    let key = gli.globalize_location(l, b);
    let ghost boundary_v = TranslatedView {
        matrix: relativized_matrix(site.link(), inner_v.return_state),
        translator: Some(
            translation_matrix(
                args_v,
                dest_v,
                inner_body.arg_count,
                inner_body.returns_unit,
                row_places(inner_v.return_state),
                procedures.procedures[b as int].facts.aliases@,
                inner_v.return_state.len(),
            ),
        ),
    };
    proof {
        flow.lemma_extends(&gli3, &gli2);
        flow.lemma_extends(gli, &gli3);
        lemma_matrix_extends(gli, &gli3, &matrix);
        assert(dest_v == match *destination {
            Some(d) => Some(d.0@),
            None => None::<PlaceView>,
        });
    }
    let state_here = TranslatedDepMatrix::translated(matrix, boundary);
    proof {
        assert(state_here.wf(gli));
        assert(state_here.view(gli) == boundary_v);
        assert(gli.chain(key) == seq![site.link()]);
    }
    flow.set_state(gli, key, state_here);
    proof {
        assert(flow.view(gli).states == seq_set(states2, seq![site.link()], boundary_v));
        assert(flow.view(gli).return_state == flow0.return_state);
    }
}

/// The value of the result of a visit.
pub open spec fn visit_result(
    gli: &GlobalLocationInterner,
    r: Result<GlobalFlowGraph, AnalysisError>,
) -> Result<GlobalFlowView, AnalysisError> {
    match r {
        Ok(f) => Ok(f.view(gli)),
        Err(e) => Err(e),
    }
}

/// Makes the flow of the procedure `b`: looks at every point of its body
/// in order, and inlines the flows of the callees that are to be inlined.
pub fn visit_body<O: Oracle>(
    procedures: &Procedures,
    ctrl: &AnalysisCtrl,
    oracle: &O,
    gli: &mut GlobalLocationInterner,
    memo: &mut RecursionBreakingCache<GlobalFlowGraph>,
    b: BodyId,
) -> (r: Result<GlobalFlowGraph, AnalysisError>)
    requires
        procedures.wf(),
        old(gli).wf(),
        flow_memo_wf(old(gli), old(memo)@),
        old(memo)@.len() == procedures.procedures.len(),
        b < procedures.procedures.len(),
    ensures
        final(gli).wf(),
        final(gli).extends(old(gli)),
        flow_memo_wf(final(gli), final(memo)@),
        final(memo)@.len() == procedures.procedures.len(),
        r matches Ok(f) ==> f.wf(final(gli)),
        flows_not_started(flow_memo_views(final(gli), final(memo)@)) <= flows_not_started(
            flow_memo_views(old(gli), old(memo)@),
        ),
        visit(
            procedures,
            ctrl,
            oracle,
            flow_memo_views(old(gli), old(memo)@),
            b as nat,
            GlobalFlowView { states: Seq::empty(), return_state: Seq::empty() },
            0,
        ) == (flow_memo_views(final(gli), final(memo)@), visit_result(final(gli), r)),
    decreases flows_not_started(flow_memo_views(old(gli), old(memo)@)), 1int, 0int,
{
    let body = &procedures.procedures[b].body;
    let facts = &procedures.procedures[b].facts;
    let locations = locations_of(body);
    let mut flow = GlobalFlowGraph::new();
    let mut k: usize = 0;
    proof {
        assert(flow.wf(gli));
    }
    while k < locations.len()
        invariant
            k <= locations.len(),
            locations@ == body_locations(&procedures.procedures[b as int].body),
            body == &procedures.procedures[b as int].body,
            facts == &procedures.procedures[b as int].facts,
            procedures.wf(),
            b < procedures.procedures.len(),
            gli.wf(),
            gli.extends(old(gli)),
            flow_memo_wf(gli, memo@),
            memo@.len() == procedures.procedures.len(),
            flow.wf(gli),
            flows_not_started(flow_memo_views(gli, memo@)) <= flows_not_started(
                flow_memo_views(old(gli), old(memo)@),
            ),
            visit(
                procedures,
                ctrl,
                oracle,
                flow_memo_views(gli, memo@),
                b as nat,
                flow.view(gli),
                k as nat,
            ) == visit(
                procedures,
                ctrl,
                oracle,
                flow_memo_views(old(gli), old(memo)@),
                b as nat,
                GlobalFlowView { states: Seq::empty(), return_state: Seq::empty() },
                0,
            ),
        decreases locations.len() - k,
    {
        let l = locations[k];
        let ghost gli_before = *gli;
        let state = match handle_regular_location(gli, facts, b, l) {
            Ok(s) => s,
            Err(e) => {
                proof {
                    lemma_flow_memo_extends(gli, &gli_before, memo@);
                }
                return Err(e);
            },
        };
        proof {
            lemma_flow_memo_extends(gli, &gli_before, memo@);
            flow.lemma_extends(gli, &gli_before);
        }
        let target = match body.maybe_stmt_at(l) {
            Ok(StmtAt::Terminator) => match body.basic_blocks[l.block as usize].terminator.as_fn_and_args() {
                Ok(call) => match procedures.as_local(call.0) {
                    Some(c) => if ctrl.use_recursive_analysis() && oracle.should_inline(c) {
                        Some((c, call))
                    } else {
                        None
                    },
                    None => None,
                },
                Err(_) => None,
            },
            _ => None,
        };
        match target {
            None => {
                visit_regular(&mut flow, gli, procedures, b, l, state);
                proof {
                    lemma_flow_memo_extends(gli, &gli_before, memo@);
                }
            },
            Some((c, call)) => {
                let ghost gli_mid = *gli;
                let available = match compute_granular_global_flows(
                    procedures,
                    ctrl,
                    oracle,
                    gli,
                    memo,
                    c,
                ) {
                    Ok(a) => a,
                    Err(e) => {
                        return Err(e);
                    },
                };
                proof {
                    flow.lemma_extends(gli, &gli_mid);
                    lemma_matrix_extends(gli, &gli_mid, &state);
                }
                let ghost gli_late = *gli;
                if available {
                    match memo.get(c) {
                        Some(inner) => {
                            proof {
                                assert(flow_entry_wf(memo@[c as int], gli));
                            }
                            inline_flow(
                                &mut flow,
                                gli,
                                procedures,
                                b,
                                l,
                                c,
                                Ghost(call.0),
                                &call.1,
                                &call.2,
                                state,
                                inner,
                            );
                        },
                        None => {},
                    }
                } else {
                    visit_regular(&mut flow, gli, procedures, b, l, state);
                }
                proof {
                    lemma_flow_memo_extends(gli, &gli_late, memo@);
                }
            },
        }
        k = k + 1;
    }
    Ok(flow)
}

/// Asks for the flow of the procedure `b`, and makes it if nobody has
/// asked before. Says whether the flow is there; it is not if the procedure
/// is in progress. If the flow cannot be made, the procedure is left as if
/// nobody had asked.
pub fn compute_granular_global_flows<O: Oracle>(
    procedures: &Procedures,
    ctrl: &AnalysisCtrl,
    oracle: &O,
    gli: &mut GlobalLocationInterner,
    memo: &mut RecursionBreakingCache<GlobalFlowGraph>,
    b: BodyId,
) -> (r: Result<bool, AnalysisError>)
    requires
        procedures.wf(),
        old(gli).wf(),
        flow_memo_wf(old(gli), old(memo)@),
        old(memo)@.len() == procedures.procedures.len(),
        b < procedures.procedures.len(),
    ensures
        final(gli).wf(),
        final(gli).extends(old(gli)),
        flow_memo_wf(final(gli), final(memo)@),
        final(memo)@.len() == procedures.procedures.len(),
        r == Ok::<bool, AnalysisError>(true) ==> final(memo)@[b as int] is Done,
        r == Ok::<bool, AnalysisError>(false) ==> final(memo)@[b as int] is InProgress,
        r is Err ==> final(memo)@[b as int] is NotStarted,
        flows_not_started(flow_memo_views(final(gli), final(memo)@)) <= flows_not_started(
            flow_memo_views(old(gli), old(memo)@),
        ),
        flow_for(procedures, ctrl, oracle, flow_memo_views(old(gli), old(memo)@), b as nat) == (
            flow_memo_views(final(gli), final(memo)@),
            match r {
                Ok(true) => Ok(Some(final(memo)@[b as int]->Done_0.view(final(gli)))),
                Ok(false) => Ok(None),
                Err(e) => Err(e),
            },
        ),
    decreases flows_not_started(flow_memo_views(old(gli), old(memo)@)), 0int, 0int,
{
    let ghost before = flow_memo_views(gli, memo@);
    if !memo.start(b) {
        return Ok(memo.get(b).is_some());
    }
    proof {
        assert(flow_memo_views(gli, memo@) =~= before.update(b as int, FlowMemoView::InProgress));
        lemma_flows_not_started_update(before, b as int, FlowMemoView::InProgress);
    }
    let r = visit_body(procedures, ctrl, oracle, gli, memo, b);
    let ghost after = flow_memo_views(gli, memo@);
    match r {
        Ok(flow) => {
            proof {
                lemma_flows_not_started_update(after, b as int, FlowMemoView::Done(flow.view(gli)));
            }
            memo.finish(b, flow);
            proof {
                assert(flow_memo_views(gli, memo@) =~= after.update(
                    b as int,
                    FlowMemoView::Done(memo@[b as int]->Done_0.view(gli)),
                ));
            }
            Ok(true)
        },
        Err(e) => {
            memo.reset(b);
            proof {
                assert(flow_memo_views(gli, memo@) =~= after.update(
                    b as int,
                    FlowMemoView::NotStarted,
                ));
                lemma_flows_not_started_update(after, b as int, FlowMemoView::NotStarted);
            }
            Err(e)
        },
    }
}

} // verus!
