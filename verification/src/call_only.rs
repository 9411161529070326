//! The calls of a flow and the locations that their arguments depend on,
//! found by following the matrices of the flow from a call backwards.

use crate::algebra::Base;
use crate::ana::{
    compute_granular_global_flows, flow_for, flow_memo_views, flow_memo_wf, AnalysisError,
    FlowMemoView, GlobalFlowGraph, Procedures, StatesView,
};
use crate::args::AnalysisCtrl;
use crate::inliner::Oracle;
use crate::utils::RecursionBreakingCache;
use crate::assoc::{lemma_seq_get, seq_get};
use crate::dep_matrix::{translator_view, TranslatedDepMatrix, TranslatedView, Translator};
use crate::flows::{all_valid, chains, insert_location, CallDeps, CallDepsView, CallOnlyFlow, CallOnlyFlowView};
use crate::translate::{aliases_of, find_aliases, Aliases};
use crate::global_location::{BodyId, GlobalLocation, GlobalLocationInterner, Link, Location};
use crate::mir::{argument_views, place_views, MirBody, Place, PlaceView, StmtAt};
use crate::search::{adjacency_wf, has_edge, is_path, reachable, reached, reaches};
use vstd::pervasive::unreached;
use vstd::prelude::*;

verus! {

/// The value of a [`Keep`].
pub enum KeepView {
    Keep(Seq<Option<PlaceView>>, Option<(PlaceView, u32)>),
    Argument(usize),
    Reject(Option<StmtAt>),
}

/// What a location is to the reduction of a flow: a call of a known
/// procedure, which is kept with its arguments and its destination; a formal
/// argument of the procedure that the flow is for, which is kept too; or
/// anything else, which is passed over, with what stands there.
#[derive(Debug)]
pub enum Keep {
    Keep(Vec<Option<Place>>, Option<(Place, u32)>),
    Argument(usize),
    Reject(Option<StmtAt>),
}

/// What the point `location` of the procedure `body_id` is to the
/// reduction. A point outside the body stands for a formal argument; it
/// counts only in the procedure that the flow is for. A procedure without a
/// body has nothing to keep.
pub open spec fn classified(
    procedures: &Procedures,
    body_id: BodyId,
    location: Location,
    top_level: bool,
) -> KeepView {
    if body_id >= procedures.procedures.len() {
        KeepView::Reject(None)
    } else {
        let body = procedures.procedures[body_id as int].body;
        match body.at(location) {
            Err(_) => if top_level {
                KeepView::Argument(location.statement_index)
            } else {
                KeepView::Reject(None)
            },
            Ok(StmtAt::Terminator) => match body.basic_blocks[location.block as int].terminator.call_of() {
                Ok(c) => KeepView::Keep(c.args, c.destination),
                Err(_) => KeepView::Reject(Some(StmtAt::Terminator)),
            },
            Ok(s) => KeepView::Reject(Some(s)),
        }
    }
}

/// What the innermost point of a location is to the reduction.
pub open spec fn classified_chain(procedures: &Procedures, c: Seq<Link>) -> KeepView {
    classified(procedures, c.last().function, c.last().location, c.len() == 1)
}

impl Keep {
    /// The value of the classification.
    pub open spec fn view(&self) -> KeepView {
        match self {
            Keep::Keep(args, destination) => KeepView::Keep(
                argument_views(args@),
                match destination {
                    Some(d) => Some((d.0@, d.1)),
                    None => None,
                },
            ),
            Keep::Argument(a) => KeepView::Argument(*a),
            Keep::Reject(s) => KeepView::Reject(*s),
        }
    }

    /// What the point `location` of the procedure `body_id` is to the
    /// reduction.
    pub fn from_location(
        procedures: &Procedures,
        body_id: BodyId,
        location: Location,
        loc_is_top_level: bool,
    ) -> (r: Keep)
        ensures
            r.view() == classified(procedures, body_id, location, loc_is_top_level),
    {
        if body_id >= procedures.procedures.len() {
            return Keep::Reject(None);
        }
        let body = &procedures.procedures[body_id].body;
        match body.maybe_stmt_at(location) {
            Err(_) => {
                if loc_is_top_level {
                    Keep::Argument(location.statement_index)
                } else {
                    Keep::Reject(None)
                }
            },
            Ok(StmtAt::Terminator) => {
                match body.basic_blocks[location.block as usize].terminator.as_fn_and_args() {
                    Ok(c) => Keep::Keep(c.1, c.2),
                    Err(_) => Keep::Reject(Some(StmtAt::Terminator)),
                }
            },
            Ok(s) => Keep::Reject(Some(s)),
        }
    }

    /// What the innermost point of the location is to the reduction.
    pub fn from_global_location(
        procedures: &Procedures,
        gli: &GlobalLocationInterner,
        location: GlobalLocation,
    ) -> (r: Keep)
        requires
            gli.wf(),
            gli.valid(location),
        ensures
            r.view() == classified_chain(procedures, gli.chain(location)),
    {
        let inner = location.innermost_location_and_body(gli);
        Keep::from_location(procedures, inner.1, inner.0, location.is_at_root(gli))
    }

    /// The arguments and the destination of a call that is kept.
    pub fn into_keep(self) -> (r: Option<(Vec<Option<Place>>, Option<(Place, u32)>)>)
        ensures
            match r {
                Some(c) => self == Keep::Keep(c.0, c.1),
                None => !(self is Keep),
            },
    {
        match self {
            Keep::Keep(args, destination) => Some((args, destination)),
            _ => None,
        }
    }
}

/// The first `n` places, each followed by the pointers through which it is
/// reached.
pub open spec fn with_provenance(places: Seq<PlaceView>, n: nat) -> Seq<PlaceView>
    decreases n,
{
    if n == 0 {
        Seq::empty()
    } else {
        with_provenance(places, (n - 1) as nat) + Place::provenance_of(places[n - 1])
    }
}

/// The places, each followed by the pointers through which it is reached.
pub fn read_places_with_provenance(places: &Vec<Place>) -> (r: Vec<Place>)
    ensures
        place_views(r@) == with_provenance(place_views(places@), places.len() as nat),
{
    let mut r: Vec<Place> = Vec::new();
    let mut i: usize = 0;
    proof {
        assert(place_views(r@) =~= Seq::<PlaceView>::empty());
    }
    while i < places.len()
        invariant
            i <= places.len(),
            place_views(r@) == with_provenance(place_views(places@), i as nat),
        decreases places.len() - i,
    {
        let mut more = places[i].provenance();
        let ghost before = r@;
        let ghost added = more@;
        r.append(&mut more);
        proof {
            assert(place_views(r@) =~= place_views(before) + place_views(added));
        }
        i = i + 1;
    }
    r
}

/// A step of the search: a place and the location that wrote it.
pub type SearchNode = (PlaceView, Seq<Link>);

/// Whether the matrix says that the location of `m` last wrote the place
/// `q`, and `m` has the place that `q` is looked up as.
pub open spec fn writes(s: TranslatedView, q: PlaceView, m: SearchNode) -> bool {
    m.0 == s.resolved(q) && s.deps(q).contains(m.1)
}

/// Whether the state at the location `c` says that the location of `m`
/// last wrote one of the places, or a pointer through which one of them is
/// reached.
pub open spec fn writers(states: StatesView, c: Seq<Link>, places: Seq<PlaceView>, m: SearchNode) -> bool {
    match seq_get(states, c) {
        Some(s) => exists|k: int|
            0 <= k < with_provenance(places, places.len()).len() && writes(
                s,
                #[trigger] with_provenance(places, places.len())[k],
                m,
            ),
        None => false,
    }
}

/// Whether the state at the location is there to translate places at the
/// boundary of an inlined callee.
pub open spec fn is_boundary(states: StatesView, c: Seq<Link>) -> bool {
    seq_get(states, c) matches Some(s) && s.translator is Some
}

/// The places whose writers the search looks for when it has come to the
/// location of `n` for the place of `n`: at a boundary the place itself; at
/// a location that is kept, none, for there the search ends; elsewhere what
/// is read at the location.
pub open spec fn expanded(procedures: &Procedures, states: StatesView, n: SearchNode) -> Seq<PlaceView> {
    if is_boundary(states, n.1) {
        seq![n.0]
    } else {
        match classified_chain(procedures, n.1) {
            KeepView::Reject(_) => if n.1.last().function < procedures.procedures.len() {
                procedures.procedures[n.1.last().function as int].body.reads(n.1.last().location)
            } else {
                Seq::empty()
            },
            _ => Seq::empty(),
        }
    }
}

/// Whether the search goes from `n` to `m` in one step.
pub open spec fn steps(procedures: &Procedures, states: StatesView, n: SearchNode, m: SearchNode) -> bool {
    writers(states, n.1, expanded(procedures, states, n), m)
}

/// Whether the search can go through the nodes one after the other.
pub open spec fn is_search_path(procedures: &Procedures, states: StatesView, p: Seq<SearchNode>) -> bool {
    &&& p.len() >= 1
    &&& forall|i: int| 0 <= i < p.len() - 1 ==> steps(procedures, states, #[trigger] p[i], p[i + 1])
}

/// Whether the search ends at the location with a dependency: the location
/// is no boundary, and it is kept.
pub open spec fn found(procedures: &Procedures, states: StatesView, c: Seq<Link>) -> bool {
    !is_boundary(states, c) && !(classified_chain(procedures, c) is Reject)
}

/// The locations that the places depend on at the location `c`: the calls
/// and formal arguments that the search comes to when it starts with the
/// writers of the places at `c` and passes over everything else.
pub open spec fn deep_dependencies(
    procedures: &Procedures,
    states: StatesView,
    c: Seq<Link>,
    places: Seq<PlaceView>,
) -> Set<Seq<Link>> {
    Set::new(
        |d: Seq<Link>|
            exists|p: Seq<SearchNode>|
                is_search_path(procedures, states, p) && writers(states, c, places, #[trigger] p[0])
                    && p.last().1 == d && found(procedures, states, d),
    )
}

/// Whether the pairs hold a place and a location with the values of `m`.
pub open spec fn listed(
    gli: &GlobalLocationInterner,
    out: Seq<(Place, GlobalLocation)>,
    m: SearchNode,
) -> bool {
    exists|k: int| 0 <= k < out.len() && (#[trigger] out[k]).0@ == m.0 && gli.chain(out[k].1) == m.1
}

/// Whether every location of the pairs is valid for the interner.
pub open spec fn pairs_valid(gli: &GlobalLocationInterner, out: Seq<(Place, GlobalLocation)>) -> bool {
    forall|k: int| 0 <= k < out.len() ==> gli.valid((#[trigger] out[k]).1)
}

/// The state of the flow at the location, if it has one.
fn state_at<'a>(
    gli: &GlobalLocationInterner,
    g: &'a GlobalFlowGraph,
    loc: GlobalLocation,
) -> (r: Option<&'a TranslatedDepMatrix>)
    requires
        gli.wf(),
        g.wf(gli),
        gli.valid(loc),
    ensures
        match r {
            Some(s) => s.wf(gli) && seq_get(g.view(gli).states, gli.chain(loc)) == Some(s.view(gli)),
            None => seq_get(g.view(gli).states, gli.chain(loc)) is None,
        },
{
    let entries = g.location_states();
    let ghost states = g.view(gli).states;
    let r = entries.position(&loc);
    proof {
        let e = entries.entries();
        assert forall|i: int, j: int| 0 <= i < states.len() && 0 <= j < states.len() && (
        #[trigger] states[i]).0 == (#[trigger] states[j]).0 implies i == j by {
            gli.lemma_equal_iff_same_chain(e[i].0, e[j].0);
            if i < j {
                assert(e[i].0@ != e[j].0@);
            } else if j < i {
                assert(e[j].0@ != e[i].0@);
            }
        }
        match r {
            Some(i) => {
                assert(states[i as int].0 == gli.chain(loc));
            },
            None => {
                if exists|i: int| 0 <= i < states.len() && (#[trigger] states[i]).0 == gli.chain(loc) {
                    let i = choose|i: int|
                        0 <= i < states.len() && (#[trigger] states[i]).0 == gli.chain(loc);
                    gli.lemma_equal_iff_same_chain(e[i].0, loc);
                    assert(e[i].0@ == loc@);
                }
            },
        }
    }
    match r {
        Some(i) => Some(&entries.as_vec()[i].1),
        None => None,
    }
}

/// Adds the locations that last wrote the place `q` according to the
/// matrix, each with the place that `q` is looked up as.
fn add_writers(
    gli: &GlobalLocationInterner,
    state: &TranslatedDepMatrix,
    q: &Place,
    out: &mut Vec<(Place, GlobalLocation)>,
)
    requires
        gli.wf(),
        state.wf(gli),
        pairs_valid(gli, old(out)@),
    ensures
        pairs_valid(gli, final(out)@),
        forall|m: SearchNode| #[trigger]
            listed(gli, final(out)@, m) == (listed(gli, old(out)@, m) || writes(
                state.view(gli),
                q@,
                m,
            )),
{
    let resolved = state.resolve(gli, q);
    let target = match resolved.0 {
        Some(p) => p,
        None => q.duplicate(),
    };
    let deps = resolved.1;
    let mut i: usize = 0;
    while i < deps.len()
        invariant
            i <= deps.len(),
            gli.wf(),
            pairs_valid(gli, out@),
            all_valid(gli, deps@),
            forall|m: SearchNode| #[trigger]
                listed(gli, out@, m) == (listed(gli, old(out)@, m) || (m.0 == target@ && exists|j: int|
                    0 <= j < i && gli.chain(#[trigger] deps[j]) == m.1)),
        decreases deps.len() - i,
    {
        let ghost before = out@;
        out.push((target.duplicate(), deps[i]));
        proof {
            assert forall|m: SearchNode| #[trigger]
                listed(gli, out@, m) == (listed(gli, old(out)@, m) || (m.0 == target@ && exists|
                j: int,
            | 0 <= j < i + 1 && gli.chain(#[trigger] deps[j]) == m.1)) by {
                if listed(gli, out@, m) {
                    let k = choose|k: int|
                        0 <= k < out.len() && (#[trigger] out[k]).0@ == m.0 && gli.chain(out[k].1)
                            == m.1;
                    if k < before.len() {
                        assert(before[k] == out@[k]);
                        assert(listed(gli, before, m));
                        if !listed(gli, old(out)@, m) {
                            let j = choose|j: int|
                                0 <= j < i && gli.chain(#[trigger] deps[j]) == m.1;
                            assert(0 <= j < i + 1);
                        }
                    } else {
                        assert(gli.chain(deps[i as int]) == m.1);
                    }
                }
                if listed(gli, before, m) {
                    let k = choose|k: int|
                        0 <= k < before.len() && (#[trigger] before[k]).0@ == m.0 && gli.chain(
                            before[k].1,
                        ) == m.1;
                    assert(out@[k] == before[k]);
                }
                if m.0 == target@ && exists|j: int|
                    0 <= j < i + 1 && gli.chain(#[trigger] deps[j]) == m.1 {
                    let j = choose|j: int| 0 <= j < i + 1 && gli.chain(#[trigger] deps[j]) == m.1;
                    if j < i {
                        assert(listed(gli, before, m));
                    } else {
                        assert(out@[before.len() as int].0@ == m.0);
                    }
                }
            }
            assert forall|k: int| 0 <= k < out.len() implies gli.valid((#[trigger] out[k]).1) by {
                if k < before.len() {
                    assert(out@[k] == before[k]);
                }
            }
        }
        i = i + 1;
    }
    proof {
        let s = state.view(gli);
        assert forall|m: SearchNode| #[trigger]
            listed(gli, out@, m) == (listed(gli, old(out)@, m) || writes(s, q@, m)) by {
            if writes(s, q@, m) {
                assert(chains(gli, deps@).contains(m.1));
            }
            if m.0 == target@ && exists|j: int| 0 <= j < i && gli.chain(#[trigger] deps[j]) == m.1 {
                let j = choose|j: int| 0 <= j < i && gli.chain(#[trigger] deps[j]) == m.1;
                assert(chains(gli, deps@).contains(m.1));
            }
        }
    }
}

/// The locations that last wrote one of the places at the location `loc`,
/// or a pointer through which one of them is reached, each with the place
/// that was looked up.
pub fn deps_for_places(
    gli: &GlobalLocationInterner,
    g: &GlobalFlowGraph,
    loc: GlobalLocation,
    places: &Vec<Place>,
) -> (r: Vec<(Place, GlobalLocation)>)
    requires
        gli.wf(),
        g.wf(gli),
        gli.valid(loc),
    ensures
        pairs_valid(gli, r@),
        forall|m: SearchNode| #[trigger]
            listed(gli, r@, m) == writers(g.view(gli).states, gli.chain(loc), place_views(places@), m),
{
    let mut out: Vec<(Place, GlobalLocation)> = Vec::new();
    match state_at(gli, g, loc) {
        Some(state) => {
            let candidates = read_places_with_provenance(places);
            let ghost s = state.view(gli);
            let ghost views = place_views(candidates@);
            let mut k: usize = 0;
            while k < candidates.len()
                invariant
                    k <= candidates.len(),
                    gli.wf(),
                    state.wf(gli),
                    s == state.view(gli),
                    views == place_views(candidates@),
                    pairs_valid(gli, out@),
                    forall|m: SearchNode| #[trigger]
                        listed(gli, out@, m) == exists|j: int|
                            0 <= j < k && writes(s, #[trigger] views[j], m),
                decreases candidates.len() - k,
            {
                let ghost before = out@;
                add_writers(gli, state, &candidates[k], &mut out);
                proof {
                    assert forall|m: SearchNode| #[trigger]
                        listed(gli, out@, m) == exists|j: int|
                            0 <= j < k + 1 && writes(s, #[trigger] views[j], m) by {
                        assert(views[k as int] == candidates[k as int]@);
                        if listed(gli, before, m) {
                            let j = choose|j: int| 0 <= j < k && writes(s, #[trigger] views[j], m);
                            assert(0 <= j < k + 1);
                        }
                        if exists|j: int| 0 <= j < k + 1 && writes(s, #[trigger] views[j], m) {
                            let j = choose|j: int|
                                0 <= j < k + 1 && writes(s, #[trigger] views[j], m);
                            if j < k {
                                assert(listed(gli, before, m));
                            }
                        }
                    }
                }
                k = k + 1;
            }
            proof {
                let all = with_provenance(place_views(places@), place_views(places@).len());
                assert(place_views(places@).len() == places.len());
                assert(views == all);
                assert(seq_get(g.view(gli).states, gli.chain(loc)) == Some(s));
                assert forall|m: SearchNode| #[trigger]
                    listed(gli, out@, m) == writers(
                        g.view(gli).states,
                        gli.chain(loc),
                        place_views(places@),
                        m,
                    ) by {
                    if listed(gli, out@, m) {
                        let j = choose|j: int|
                            0 <= j < views.len() && writes(s, #[trigger] views[j], m);
                        assert(writes(s, all[j], m));
                    }
                    if writers(g.view(gli).states, gli.chain(loc), place_views(places@), m) {
                        let j = choose|j: int| 0 <= j < all.len() && writes(s, #[trigger] all[j], m);
                        assert(writes(s, views[j], m));
                    }
                }
            }
        },
        None => {
            proof {
                assert forall|m: SearchNode| !#[trigger] listed(gli, out@, m) by {}
            }
        },
    }
    out
}

/// The steps of the search from the place `place` at the location `loc`.
pub fn expand(
    procedures: &Procedures,
    gli: &GlobalLocationInterner,
    g: &GlobalFlowGraph,
    place: &Place,
    loc: GlobalLocation,
) -> (r: Vec<(Place, GlobalLocation)>)
    requires
        gli.wf(),
        g.wf(gli),
        gli.valid(loc),
    ensures
        pairs_valid(gli, r@),
        forall|m: SearchNode| #[trigger]
            listed(gli, r@, m) == steps(procedures, g.view(gli).states, (place@, gli.chain(loc)), m),
{
    let boundary = match state_at(gli, g, loc) {
        Some(s) => s.is_translated(),
        None => false,
    };
    if boundary {
        let mut places: Vec<Place> = Vec::new();
        places.push(place.duplicate());
        proof {
            assert(place_views(places@) =~= seq![place@]);
        }
        return deps_for_places(gli, g, loc, &places);
    }
    match Keep::from_global_location(procedures, gli, loc) {
        Keep::Reject(Some(stmt)) => {
            let inner = loc.innermost_location_and_body(gli);
            let reads = procedures.procedures[inner.1].body.places_read(inner.0, stmt, None);
            deps_for_places(gli, g, loc, &reads)
        },
        Keep::Reject(None) => {
            let places: Vec<Place> = Vec::new();
            proof {
                assert(place_views(places@) =~= Seq::<PlaceView>::empty());
                let c = gli.chain(loc);
                if c.last().function < procedures.procedures.len() {
                    assert(procedures.procedures[c.last().function as int].body.reads(
                        c.last().location,
                    ) =~= Seq::<PlaceView>::empty());
                }
            }
            deps_for_places(gli, g, loc, &places)
        },
        _ => {
            let places: Vec<Place> = Vec::new();
            proof {
                assert(place_views(places@) =~= Seq::<PlaceView>::empty());
            }
            deps_for_places(gli, g, loc, &places)
        },
    }
}

/// Whether the list has a place with the value.
spec fn has_place(places: Seq<Place>, q: PlaceView) -> bool {
    exists|i: int| 0 <= i < places.len() && (#[trigger] places[i])@ == q
}

/// Whether no two places of the list have the same value.
spec fn distinct_places(places: Seq<Place>) -> bool {
    forall|i: int, j: int| 0 <= i < j < places.len() ==> (#[trigger] places[i])@ != (#[trigger] places[j])@
}

/// Whether the list has, with each place, the places that the first steps
/// of its projection lead to.
spec fn prefix_closed(places: Seq<Place>) -> bool {
    forall|i: int, n: int|
        0 <= i < places.len() && 0 <= n <= places[i]@.projection.len() ==> has_place(
            places,
            #[trigger] Place::prefix(places[i]@, n),
        )
}

/// Whether the second list has every place of the first.
spec fn grown(before: Seq<Place>, after: Seq<Place>) -> bool {
    forall|q: PlaceView| has_place(before, q) ==> #[trigger] has_place(after, q)
}

/// Whether the list has each of the places.
spec fn has_places(places: Seq<Place>, some: Seq<Place>) -> bool {
    forall|k: int| 0 <= k < some.len() ==> has_place(places, (#[trigger] some[k])@)
}

/// Where the list has a place with the value of `q`.
fn place_position(places: &Vec<Place>, q: &Place) -> (r: Option<usize>)
    ensures
        match r {
            Some(i) => i < places.len() && places[i as int]@ == q@,
            None => !has_place(places@, q@),
        },
{
    let mut i: usize = 0;
    while i < places.len()
        invariant
            i <= places.len(),
            forall|j: int| 0 <= j < i ==> (#[trigger] places[j])@ != q@,
        decreases places.len() - i,
    {
        if places[i].same(q) {
            return Some(i);
        }
        i = i + 1;
    }
    None
}

/// Adds the place that the first `n` steps of the projection of `p` lead
/// to, if the list does not have it.
fn add_prefix(universe: &mut Vec<Place>, p: &Place, n: usize)
    requires
        n <= p.projection.len(),
        distinct_places(old(universe)@),
        prefix_closed(old(universe)@),
        forall|k: int| 0 <= k < n ==> has_place(old(universe)@, #[trigger] Place::prefix(p@, k)),
    ensures
        distinct_places(final(universe)@),
        prefix_closed(final(universe)@),
        grown(old(universe)@, final(universe)@),
        forall|k: int| 0 <= k <= n ==> has_place(final(universe)@, #[trigger] Place::prefix(p@, k)),
{
    let q = p.truncated(n);
    if place_position(universe, &q).is_none() {
        let ghost before = universe@;
        universe.push(q);
        proof {
            let last = before.len() as int;
            assert(universe@[last]@ == Place::prefix(p@, n as int));
            assert forall|x: PlaceView| has_place(before, x) implies #[trigger] has_place(
                universe@,
                x,
            ) by {
                let i = choose|i: int| 0 <= i < before.len() && (#[trigger] before[i])@ == x;
                assert(universe@[i] == before[i]);
            }
            assert forall|i: int, j: int| 0 <= i < j < universe.len() implies (
            #[trigger] universe@[i])@ != (#[trigger] universe@[j])@ by {
                assert(universe@[i] == before[i]);
                if j < last {
                    assert(universe@[j] == before[j]);
                }
            }
            assert forall|i: int, m: int|
                0 <= i < universe.len() && 0 <= m <= universe@[i]@.projection.len() implies has_place(
                universe@,
                #[trigger] Place::prefix(universe@[i]@, m),
            ) by {
                if i < last {
                    assert(universe@[i] == before[i]);
                    assert(has_place(before, Place::prefix(before[i]@, m)));
                } else {
                    assert(p@.projection.take(n as int).take(m) =~= p@.projection.take(m));
                    assert(Place::prefix(universe@[i]@, m) == Place::prefix(p@, m));
                    if m < n {
                        assert(has_place(before, Place::prefix(p@, m)));
                    } else {
                        assert(p@.projection.take(n as int).len() == n);
                    }
                }
            }
            assert forall|k: int| 0 <= k <= n implies has_place(
                universe@,
                #[trigger] Place::prefix(p@, k),
            ) by {
                if k < n {
                    assert(has_place(before, Place::prefix(p@, k)));
                }
            }
        }
    }
}

/// Adds the place and the places that the first steps of its projection
/// lead to, as far as the list does not have them.
fn add_place(universe: &mut Vec<Place>, p: &Place)
    requires
        distinct_places(old(universe)@),
        prefix_closed(old(universe)@),
    ensures
        distinct_places(final(universe)@),
        prefix_closed(final(universe)@),
        grown(old(universe)@, final(universe)@),
        has_place(final(universe)@, p@),
{
    let mut n: usize = 0;
    while n < p.projection.len()
        invariant
            n <= p.projection.len(),
            distinct_places(universe@),
            prefix_closed(universe@),
            grown(old(universe)@, universe@),
            forall|k: int| 0 <= k < n ==> has_place(universe@, #[trigger] Place::prefix(p@, k)),
        decreases p.projection.len() - n,
    {
        add_prefix(universe, p, n);
        n = n + 1;
    }
    add_prefix(universe, p, n);
    proof {
        assert(p@.projection.take(p@.projection.len() as int) =~= p@.projection);
        assert(Place::prefix(p@, p@.projection.len() as int) == p@);
    }
}

/// Adds the places and the places that the first steps of their projections
/// lead to.
fn add_places(universe: &mut Vec<Place>, places: &Vec<Place>)
    requires
        distinct_places(old(universe)@),
        prefix_closed(old(universe)@),
    ensures
        distinct_places(final(universe)@),
        prefix_closed(final(universe)@),
        grown(old(universe)@, final(universe)@),
        has_places(final(universe)@, places@),
{
    let mut k: usize = 0;
    while k < places.len()
        invariant
            k <= places.len(),
            distinct_places(universe@),
            prefix_closed(universe@),
            grown(old(universe)@, universe@),
            forall|j: int| 0 <= j < k ==> has_place(universe@, (#[trigger] places[j])@),
        decreases places.len() - k,
    {
        add_place(universe, &places[k]);
        k = k + 1;
    }
}

/// Whether the list has each of the places.
spec fn has_views(universe: Seq<Place>, places: Seq<PlaceView>) -> bool {
    forall|k: int| 0 <= k < places.len() ==> has_place(universe, #[trigger] places[k])
}

/// Whether the list has every place that is read at a point of the body.
spec fn body_covered(universe: Seq<Place>, body: &MirBody) -> bool {
    forall|l: Location| has_views(universe, #[trigger] body.reads(l))
}

/// Whether the list has every place that is read in a procedure.
spec fn reads_covered(universe: Seq<Place>, procedures: &Procedures) -> bool {
    forall|b: int|
        0 <= b < procedures.procedures.len() ==> body_covered(
            universe,
            &(#[trigger] procedures.procedures[b]).body,
        )
}

/// Whether the list has every place that a state of the flow translates a
/// place to.
spec fn translations_covered(universe: Seq<Place>, states: StatesView) -> bool {
    forall|i: int, k: int|
        0 <= i < states.len() && (#[trigger] states[i]).1.translator is Some && 0 <= k
            < states[i].1.translator->0.len() ==> has_place(
            universe,
            (#[trigger] states[i].1.translator->0[k]).1,
        )
}

/// A list that has grown still has the places that it had.
proof fn lemma_grown_has(before: Seq<Place>, after: Seq<Place>, some: Seq<Place>)
    requires
        grown(before, after),
        has_places(before, some),
    ensures
        has_places(after, some),
{
    assert forall|k: int| 0 <= k < some.len() implies has_place(after, (#[trigger] some[k])@) by {
        assert(has_place(before, some[k]@));
    }
}

/// A list that has grown still has the places that it had.
proof fn lemma_grown_views(before: Seq<Place>, after: Seq<Place>, some: Seq<PlaceView>)
    requires
        grown(before, after),
        has_views(before, some),
    ensures
        has_views(after, some),
{
    assert forall|k: int| 0 <= k < some.len() implies has_place(after, #[trigger] some[k]) by {
        assert(has_place(before, some[k]));
    }
}

/// Whether the list has every place that is read at a point of the body
/// before the point `i` of the block `j`.
spec fn covered_before(universe: Seq<Place>, body: &MirBody, j: int, i: int) -> bool {
    forall|l: Location|
        l.block < j || (l.block == j && l.statement_index < i) ==> has_views(
            universe,
            #[trigger] body.reads(l),
        )
}

/// A list that has grown still has the places that are read at the first
/// points of a body.
proof fn lemma_grown_covers(before: Seq<Place>, after: Seq<Place>, body: &MirBody, j: int, i: int)
    requires
        grown(before, after),
        covered_before(before, body, j, i),
    ensures
        covered_before(after, body, j, i),
{
    assert forall|l: Location|
        l.block < j || (l.block == j && l.statement_index < i) implies has_views(
        after,
        #[trigger] body.reads(l),
    ) by {
        lemma_grown_views(before, after, body.reads(l));
    }
}

/// Adds the places that are read at the point of the body.
fn add_reads_at(universe: &mut Vec<Place>, body: &MirBody, j: usize, i: usize)
    requires
        j < body.basic_blocks.len(),
        j <= u32::MAX,
        i <= body.basic_blocks[j as int].statements.len(),
        distinct_places(old(universe)@),
        prefix_closed(old(universe)@),
        covered_before(old(universe)@, body, j as int, i as int),
    ensures
        distinct_places(final(universe)@),
        prefix_closed(final(universe)@),
        grown(old(universe)@, final(universe)@),
        covered_before(final(universe)@, body, j as int, i + 1),
{
    let here = Location { block: j as u32, statement_index: i };
    let stmt = if i < body.basic_blocks[j].statements.len() {
        StmtAt::Statement(i)
    } else {
        StmtAt::Terminator
    };
    let reads = body.places_read(here, stmt, None);
    let ghost before = universe@;
    add_places(universe, &reads);
    proof {
        lemma_grown_covers(before, universe@, body, j as int, i as int);
        assert forall|l: Location|
            l.block < j || (l.block == j && l.statement_index < i + 1) implies has_views(
            universe@,
            #[trigger] body.reads(l),
        ) by {
            if l.block == j && l.statement_index == i {
                assert(l == here);
                assert forall|k: int| 0 <= k < body.reads(l).len() implies has_place(
                    universe@,
                    #[trigger] body.reads(l)[k],
                ) by {
                    assert(has_place(universe@, reads[k]@));
                }
            }
        }
    }
}

/// Adds the places that are read in the body.
fn add_reads(universe: &mut Vec<Place>, body: &MirBody)
    requires
        distinct_places(old(universe)@),
        prefix_closed(old(universe)@),
    ensures
        distinct_places(final(universe)@),
        prefix_closed(final(universe)@),
        grown(old(universe)@, final(universe)@),
        body_covered(final(universe)@, body),
{
    let mut j: usize = 0;
    while j < body.basic_blocks.len() && j <= u32::MAX as usize
        invariant
            j <= body.basic_blocks.len(),
            distinct_places(universe@),
            prefix_closed(universe@),
            grown(old(universe)@, universe@),
            covered_before(universe@, body, j as int, 0),
        decreases body.basic_blocks.len() - j,
    {
        let n = body.basic_blocks[j].statements.len();
        let mut i: usize = 0;
        while i < n
            invariant
                i <= n,
                j < body.basic_blocks.len(),
                j <= u32::MAX,
                n == body.basic_blocks[j as int].statements.len(),
                distinct_places(universe@),
                prefix_closed(universe@),
                grown(old(universe)@, universe@),
                covered_before(universe@, body, j as int, i as int),
            decreases n - i,
        {
            add_reads_at(universe, body, j, i);
            i = i + 1;
        }
        add_reads_at(universe, body, j, n);
        proof {
            assert forall|l: Location|
                l.block < j + 1 || (l.block == j + 1 && l.statement_index < 0) implies has_views(
                universe@,
                #[trigger] body.reads(l),
            ) by {
                if l.block == j && l.statement_index > n {
                    assert(body.reads(l) =~= Seq::<PlaceView>::empty());
                }
            }
        }
        j = j + 1;
    }
    proof {
        assert forall|l: Location| has_views(universe@, #[trigger] body.reads(l)) by {
            if l.block >= j {
                assert(body.reads(l) =~= Seq::<PlaceView>::empty());
            }
        }
    }
}

/// A list that has grown still has the places that are read in the first
/// procedures.
proof fn lemma_grown_covers_procedures(
    before: Seq<Place>,
    after: Seq<Place>,
    procedures: &Procedures,
    b: int,
)
    requires
        grown(before, after),
        0 <= b <= procedures.procedures.len(),
        forall|x: int| 0 <= x < b ==> body_covered(before, &(#[trigger] procedures.procedures[x]).body),
    ensures
        forall|x: int| 0 <= x < b ==> body_covered(after, &(#[trigger] procedures.procedures[x]).body),
{
    assert forall|x: int| 0 <= x < b implies body_covered(
        after,
        &(#[trigger] procedures.procedures[x]).body,
    ) by {
        let body = &procedures.procedures[x].body;
        assert(body_covered(before, body));
        assert forall|l: Location| has_views(after, #[trigger] body.reads(l)) by {
            lemma_grown_views(before, after, body.reads(l));
        }
    }
}

/// Adds the places that the translation translates places to.
fn add_translations(universe: &mut Vec<Place>, t: &Translator)
    requires
        distinct_places(old(universe)@),
        prefix_closed(old(universe)@),
    ensures
        distinct_places(final(universe)@),
        prefix_closed(final(universe)@),
        grown(old(universe)@, final(universe)@),
        forall|k: int|
            0 <= k < translator_view(t).len() ==> has_place(
                final(universe)@,
                (#[trigger] translator_view(t)[k]).1,
            ),
{
    let entries = t.as_vec();
    let mut k: usize = 0;
    while k < entries.len()
        invariant
            k <= entries.len(),
            entries@ == t.entries(),
            distinct_places(universe@),
            prefix_closed(universe@),
            grown(old(universe)@, universe@),
            forall|j: int| 0 <= j < k ==> has_place(universe@, (#[trigger] entries[j]).1@),
        decreases entries.len() - k,
    {
        add_place(universe, &entries[k].1);
        k = k + 1;
    }
    proof {
        assert forall|j: int| 0 <= j < translator_view(t).len() implies has_place(
            universe@,
            (#[trigger] translator_view(t)[j]).1,
        ) by {
            assert(has_place(universe@, entries[j].1@));
        }
    }
}

/// The places that the search can come to: the places to start with, the
/// places that are read anywhere, the places that a state of the flow
/// translates a place to, and the places that the first steps of their
/// projections lead to. No place is listed twice.
fn universe_of(
    procedures: &Procedures,
    gli: &GlobalLocationInterner,
    g: &GlobalFlowGraph,
    start: &Vec<Place>,
) -> (u: Vec<Place>)
    requires
        g.wf(gli),
    ensures
        distinct_places(u@),
        prefix_closed(u@),
        has_places(u@, start@),
        reads_covered(u@, procedures),
        translations_covered(u@, g.view(gli).states),
{
    let mut u: Vec<Place> = Vec::new();
    add_places(&mut u, start);
    let mut b: usize = 0;
    while b < procedures.procedures.len()
        invariant
            b <= procedures.procedures.len(),
            distinct_places(u@),
            prefix_closed(u@),
            has_places(u@, start@),
            forall|x: int|
                0 <= x < b ==> body_covered(u@, &(#[trigger] procedures.procedures[x]).body),
        decreases procedures.procedures.len() - b,
    {
        let ghost before = u@;
        add_reads(&mut u, &procedures.procedures[b].body);
        proof {
            lemma_grown_has(before, u@, start@);
            lemma_grown_covers_procedures(before, u@, procedures, b as int);
        }
        b = b + 1;
    }
    let entries = g.location_states().as_vec();
    let ghost states = g.view(gli).states;
    let mut i: usize = 0;
    while i < entries.len()
        invariant
            i <= entries.len(),
            entries.len() == states.len(),
            forall|x: int|
                0 <= x < entries.len() ==> (#[trigger] entries[x]).1.wf(gli) && states[x].1
                    == entries[x].1.view(gli),
            distinct_places(u@),
            prefix_closed(u@),
            has_places(u@, start@),
            reads_covered(u@, procedures),
            forall|x: int, k: int|
                0 <= x < i && (#[trigger] states[x]).1.translator is Some && 0 <= k
                    < states[x].1.translator->0.len() ==> has_place(
                    u@,
                    (#[trigger] states[x].1.translator->0[k]).1,
                ),
        decreases entries.len() - i,
    {
        match entries[i].1.translator() {
            Some(t) => {
                let ghost before = u@;
                add_translations(&mut u, t);
                proof {
                    lemma_grown_has(before, u@, start@);
                    lemma_grown_covers_procedures(
                        before,
                        u@,
                        procedures,
                        procedures.procedures.len() as int,
                    );
                    assert(states[i as int].1.translator == Some(translator_view(t)));
                    assert forall|x: int, k: int|
                        0 <= x < i + 1 && (#[trigger] states[x]).1.translator is Some && 0 <= k
                            < states[x].1.translator->0.len() implies has_place(
                        u@,
                        (#[trigger] states[x].1.translator->0[k]).1,
                    ) by {
                        if x < i {
                            assert(has_place(before, states[x].1.translator->0[k].1));
                        }
                    }
                }
            },
            None => {
                proof {
                    assert(states[i as int].1.translator is None);
                }
            },
        }
        i = i + 1;
    }
    u
}

/// Each of the pointers through which a place is reached is the place that
/// some of the first steps of its projection lead to.
proof fn lemma_pointers_are_prefixes(p: PlaceView, n: nat, j: int)
    requires
        0 <= j < Place::pointers_from(p, n).len(),
    ensures
        exists|m: int|
            0 <= m <= p.projection.len() && Place::pointers_from(p, n)[j] == #[trigger] Place::prefix(
                p,
                m,
            ),
    decreases p.projection.len() - n,
{
    if n < p.projection.len() {
        let rest = Place::pointers_from(p, n + 1);
        if j < rest.len() {
            lemma_pointers_are_prefixes(p, n + 1, j);
        } else {
            assert(Place::pointers_from(p, n)[j] == Place::prefix(p, n as int));
        }
    }
}

/// A place of the first `n` places with their pointers is one of the
/// places, or the place that some of the first steps of the projection of
/// one of them lead to.
proof fn lemma_with_provenance(places: Seq<PlaceView>, n: nat, k: int)
    requires
        n <= places.len(),
        0 <= k < with_provenance(places, n).len(),
    ensures
        exists|x: int, m: int|
            0 <= x < n && 0 <= m <= places[x].projection.len() && with_provenance(places, n)[k]
                == #[trigger] Place::prefix(places[x], m),
    decreases n,
{
    if n > 0 {
        let before = with_provenance(places, (n - 1) as nat);
        if k < before.len() {
            lemma_with_provenance(places, (n - 1) as nat, k);
            let (x, m) = choose|x: int, m: int|
                0 <= x < n - 1 && 0 <= m <= places[x].projection.len() && before[k]
                    == #[trigger] Place::prefix(places[x], m);
            assert(0 <= x < n);
        } else {
            let p = places[n - 1];
            let j = k - before.len();
            assert(with_provenance(places, n)[k] == Place::provenance_of(p)[j]);
            if j == 0 {
                assert(p.projection.take(p.projection.len() as int) =~= p.projection);
                assert(Place::provenance_of(p)[0] == Place::prefix(p, p.projection.len() as int));
            } else {
                lemma_pointers_are_prefixes(p, 0, j - 1);
                let m = choose|m: int|
                    0 <= m <= p.projection.len() && Place::pointers_from(p, 0)[j - 1]
                        == #[trigger] Place::prefix(p, m);
                assert(with_provenance(places, n)[k] == Place::prefix(places[n - 1], m));
            }
        }
    }
}

/// Whether the list has the place of the node and the interner the
/// location.
spec fn known(gli: &GlobalLocationInterner, universe: Seq<Place>, m: SearchNode) -> bool {
    has_place(universe, m.0) && gli.find(m.1) is Some
}

/// The writers of places that the list has are known.
proof fn lemma_writers_known(
    gli: &GlobalLocationInterner,
    g: &GlobalFlowGraph,
    universe: Seq<Place>,
    c: Seq<Link>,
    places: Seq<PlaceView>,
    m: SearchNode,
)
    requires
        gli.wf(),
        g.wf(gli),
        prefix_closed(universe),
        translations_covered(universe, g.view(gli).states),
        has_views(universe, places),
        writers(g.view(gli).states, c, places, m),
    ensures
        known(gli, universe, m),
{
    let states = g.view(gli).states;
    lemma_seq_get(states, c);
    let s = seq_get(states, c)->0;
    let i = choose|i: int| 0 <= i < states.len() && #[trigger] states[i] == (c, s);
    let all = with_provenance(places, places.len());
    let k = choose|k: int| 0 <= k < all.len() && writes(s, #[trigger] all[k], m);
    let q = all[k];
    lemma_with_provenance(places, places.len(), k);
    let (x, n) = choose|x: int, n: int|
        0 <= x < places.len() && 0 <= n <= places[x].projection.len() && all[k]
            == #[trigger] Place::prefix(places[x], n);
    assert(has_place(universe, places[x]));
    let y = choose|y: int| 0 <= y < universe.len() && (#[trigger] universe[y])@ == places[x];
    assert(has_place(universe, Place::prefix(universe[y]@, n)));
    assert(has_place(universe, q));
    match s.translation(q) {
        Some(v) => {
            let t = s.translator->0;
            let j = choose|j: int| 0 <= j < t.len() && (#[trigger] t[j]).0 == q;
            assert(has_place(universe, states[i].1.translator->0[j].1));
        },
        None => {},
    }
    g.lemma_deps_known(gli, i, q, m.1);
}

/// What a step of the search leads to from a known node is known.
proof fn lemma_steps_known(
    procedures: &Procedures,
    gli: &GlobalLocationInterner,
    g: &GlobalFlowGraph,
    universe: Seq<Place>,
    n: SearchNode,
    m: SearchNode,
)
    requires
        gli.wf(),
        g.wf(gli),
        prefix_closed(universe),
        translations_covered(universe, g.view(gli).states),
        reads_covered(universe, procedures),
        has_place(universe, n.0),
        steps(procedures, g.view(gli).states, n, m),
    ensures
        known(gli, universe, m),
{
    let states = g.view(gli).states;
    let places = expanded(procedures, states, n);
    assert forall|k: int| 0 <= k < places.len() implies has_place(universe, #[trigger] places[k]) by {
        if !is_boundary(states, n.1) {
            let f = n.1.last().function;
            let l = n.1.last().location;
            let body = &procedures.procedures[f as int].body;
            assert(body_covered(universe, body));
            assert(has_views(universe, body.reads(l)));
        }
    }
    lemma_writers_known(gli, g, universe, n.1, places, m);
}

/// Every node of a path of the search that starts at a known node is known.
proof fn lemma_path_known(
    procedures: &Procedures,
    gli: &GlobalLocationInterner,
    g: &GlobalFlowGraph,
    universe: Seq<Place>,
    p: Seq<SearchNode>,
    i: int,
)
    requires
        gli.wf(),
        g.wf(gli),
        prefix_closed(universe),
        translations_covered(universe, g.view(gli).states),
        reads_covered(universe, procedures),
        is_search_path(procedures, g.view(gli).states, p),
        known(gli, universe, p[0]),
        0 <= i < p.len(),
    ensures
        known(gli, universe, p[i]),
    decreases i,
{
    if i > 0 {
        lemma_path_known(procedures, gli, g, universe, p, i - 1);
        assert(steps(procedures, g.view(gli).states, p[i - 1], p[i - 1 + 1]));
        lemma_steps_known(procedures, gli, g, universe, p[i - 1], p[i]);
    }
}

/// Where the pair of `a` and `b` stands among all pairs with a second part
/// below `n`, ordered by their first and then by their second part.
spec fn flat(a: int, n: int, b: int) -> int {
    a * n + b
}

/// A pair stands before the first pair with a larger first part.
proof fn lemma_flat_bound(a: int, p: int, n: int, b: int)
    requires
        0 <= a < p,
        0 <= b < n,
    ensures
        0 <= flat(a, n, b) < p * n,
        flat(a, n, b) < flat(a + 1, n, 0),
        flat(a + 1, n, 0) <= p * n,
{
    assert(0 <= a * n + b < p * n && a * n + b < (a + 1) * n + 0 && (a + 1) * n + 0 <= p * n)
        by (nonlinear_arith)
        requires
            0 <= a < p,
            0 <= b < n,
    ;
}

/// Distinct pairs stand at distinct places.
proof fn lemma_flat_injective(a: int, b: int, c: int, d: int, n: int)
    requires
        0 <= a,
        0 <= c,
        0 <= b < n,
        0 <= d < n,
        flat(a, n, b) == flat(c, n, d),
    ensures
        a == c,
        b == d,
{
    assert(a == c && b == d) by (nonlinear_arith)
        requires
            0 <= a,
            0 <= c,
            0 <= b < n,
            0 <= d < n,
            a * n + b == c * n + d,
    ;
}

/// The node of the search with the place at `a` of the list and the
/// location with the handle `b`.
spec fn node_at(gli: &GlobalLocationInterner, universe: Seq<Place>, a: int, b: int) -> SearchNode {
    (universe[a]@, gli.chain(GlobalLocation { id: b as usize }))
}

/// Whether the list holds every pair of a place of the list and a location
/// of the interner, at the place where it stands among them.
spec fn all_pairs(nodes: Seq<(usize, usize)>, places: int, locations: int) -> bool {
    &&& nodes.len() == places * locations
    &&& forall|i: int|
        0 <= i < nodes.len() ==> (#[trigger] nodes[i]).0 < places && nodes[i].1 < locations && i == flat(
            nodes[i].0 as int,
            locations,
            nodes[i].1 as int,
        )
}

/// Every pair of a place of the list and a location of the interner.
fn pairs_of(places: usize, locations: usize) -> (nodes: Vec<(usize, usize)>)
    ensures
        all_pairs(nodes@, places as int, locations as int),
{
    let mut nodes: Vec<(usize, usize)> = Vec::new();
    let mut a: usize = 0;
    while a < places
        invariant
            a <= places,
            nodes.len() == flat(a as int, locations as int, 0),
            forall|i: int|
                0 <= i < nodes.len() ==> (#[trigger] nodes[i]).0 < a && nodes[i].1 < locations && i
                    == flat(nodes[i].0 as int, locations as int, nodes[i].1 as int),
        decreases places - a,
    {
        let mut b: usize = 0;
        while b < locations
            invariant
                a < places,
                b <= locations,
                nodes.len() == flat(a as int, locations as int, b as int),
                forall|i: int|
                    0 <= i < nodes.len() ==> ((#[trigger] nodes[i]).0 < a || (nodes[i].0 == a
                        && nodes[i].1 < b)) && nodes[i].1 < locations && i == flat(
                        nodes[i].0 as int,
                        locations as int,
                        nodes[i].1 as int,
                    ),
            decreases locations - b,
        {
            let ghost before = nodes@;
            nodes.push((a, b));
            proof {
                assert forall|i: int| 0 <= i < nodes.len() implies ((#[trigger] nodes[i]).0 < a || (
                nodes[i].0 == a && nodes[i].1 < b + 1)) && nodes[i].1 < locations && i == flat(
                    nodes[i].0 as int,
                    locations as int,
                    nodes[i].1 as int,
                ) by {
                    if i < before.len() {
                        assert(nodes@[i] == before[i]);
                    }
                }
            }
            b = b + 1;
        }
        proof {
            assert(flat(a as int, locations as int, locations as int) == flat(
                a as int + 1,
                locations as int,
                0,
            )) by (nonlinear_arith);
        }
        a = a + 1;
    }
    proof {
        assert(flat(places as int, locations as int, 0) == places * locations);
    }
    nodes
}

/// The pair at the place where a pair stands is that pair.
proof fn lemma_pair_at(nodes: Seq<(usize, usize)>, places: int, locations: int, a: int, b: int)
    requires
        all_pairs(nodes, places, locations),
        0 <= a < places,
        0 <= b < locations,
    ensures
        0 <= flat(a, locations, b) < nodes.len(),
        nodes[flat(a, locations, b)].0 == a,
        nodes[flat(a, locations, b)].1 == b,
{
    lemma_flat_bound(a, places, locations, b);
    let i = flat(a, locations, b);
    lemma_flat_injective(nodes[i].0 as int, nodes[i].1 as int, a, b, locations);
}

/// Where the pairs stand among all pairs of a place of the list and a
/// location of the interner.
fn flat_indices(
    gli: &GlobalLocationInterner,
    universe: &Vec<Place>,
    pairs: &Vec<(Place, GlobalLocation)>,
) -> (r: Vec<usize>)
    requires
        gli.wf(),
        distinct_places(universe@),
        pairs_valid(gli, pairs@),
        universe.len() * gli@.len() <= usize::MAX,
        forall|k: int| 0 <= k < pairs.len() ==> has_place(universe@, (#[trigger] pairs[k]).0@),
    ensures
        forall|x: int| 0 <= x < r.len() ==> (#[trigger] r[x]) < universe.len() * gli@.len(),
        forall|a: int, b: int|
            0 <= a < universe.len() && 0 <= b < gli@.len() ==> (listed(
                gli,
                pairs@,
                #[trigger] node_at(gli, universe@, a, b),
            ) <==> exists|x: int| 0 <= x < r.len() && #[trigger] r[x] == flat(a, gli@.len() as int, b)),
{
    let n = gli.len();
    let mut r: Vec<usize> = Vec::new();
    let mut k: usize = 0;
    while k < pairs.len()
        invariant
            k <= pairs.len(),
            n == gli@.len(),
            gli.wf(),
            distinct_places(universe@),
            pairs_valid(gli, pairs@),
            universe.len() * gli@.len() <= usize::MAX,
            forall|j: int| 0 <= j < pairs.len() ==> has_place(universe@, (#[trigger] pairs[j]).0@),
            r.len() == k,
            forall|x: int|
                0 <= x < k ==> (#[trigger] r[x]) < universe.len() * n && exists|a: int|
                    0 <= a < universe.len() && (#[trigger] universe[a])@ == pairs[x].0@ && r[x]
                        == flat(a, n as int, pairs[x].1.id as int),
        decreases pairs.len() - k,
    {
        let ghost before = r@;
        match place_position(universe, &pairs[k].0) {
            Some(a) => {
                proof {
                    assert(gli.valid(pairs[k as int].1));
                    lemma_flat_bound(a as int, universe.len() as int, n as int, pairs[k as int].1.id as int);
                    assert(a * n <= flat(a as int, n as int, pairs[k as int].1.id as int));
                }
                r.push(a * n + pairs[k].1.id);
            },
            None => {
                proof {
                    assert(has_place(universe@, pairs[k as int].0@));
                }
                r.push(0);
            },
        }
        proof {
            assert forall|x: int| 0 <= x < k + 1 implies (#[trigger] r[x]) < universe.len() * n
                && exists|a: int|
                0 <= a < universe.len() && (#[trigger] universe[a])@ == pairs[x].0@ && r[x] == flat(
                    a,
                    n as int,
                    pairs[x].1.id as int,
                ) by {
                if x < k {
                    assert(r@[x] == before[x]);
                }
            }
        }
        k = k + 1;
    }
    proof {
        assert forall|a: int, b: int| 0 <= a < universe.len() && 0 <= b < gli@.len() implies (listed(
            gli,
            pairs@,
            #[trigger] node_at(gli, universe@, a, b),
        ) <==> exists|x: int| 0 <= x < r.len() && #[trigger] r[x] == flat(a, gli@.len() as int, b)) by {
            let m = node_at(gli, universe@, a, b);
            let here = GlobalLocation { id: b as usize };
            if listed(gli, pairs@, m) {
                let x = choose|x: int|
                    0 <= x < pairs.len() && (#[trigger] pairs[x]).0@ == m.0 && gli.chain(pairs[x].1)
                        == m.1;
                gli.lemma_equal_iff_same_chain(pairs[x].1, here);
                let c = choose|c: int|
                    0 <= c < universe.len() && (#[trigger] universe[c])@ == pairs[x].0@ && r[x]
                        == flat(c, n as int, pairs[x].1.id as int);
                if c < a {
                    assert(universe@[c]@ != universe@[a]@);
                } else if a < c {
                    assert(universe@[a]@ != universe@[c]@);
                }
                assert(r[x] == flat(a, gli@.len() as int, b));
            }
            if exists|x: int| 0 <= x < r.len() && #[trigger] r[x] == flat(a, gli@.len() as int, b) {
                let x = choose|x: int|
                    0 <= x < r.len() && #[trigger] r[x] == flat(a, gli@.len() as int, b);
                let c = choose|c: int|
                    0 <= c < universe.len() && (#[trigger] universe[c])@ == pairs[x].0@ && r[x]
                        == flat(c, n as int, pairs[x].1.id as int);
                assert(gli.valid(pairs[x].1));
                lemma_flat_injective(c, pairs[x].1.id as int, a, b, n as int);
                assert(pairs[x].1 == here);
                assert(pairs[x].0@ == m.0 && gli.chain(pairs[x].1) == m.1);
            }
        }
    }
    r
}

/// Whether the row holds the places at which the nodes stand to which the
/// search steps from the node of the pair, and nothing else.
spec fn row_ok(
    procedures: &Procedures,
    gli: &GlobalLocationInterner,
    states: StatesView,
    universe: Seq<Place>,
    pair: (usize, usize),
    row: Seq<usize>,
) -> bool {
    &&& forall|x: int| 0 <= x < row.len() ==> (#[trigger] row[x]) < universe.len() * gli@.len()
    &&& forall|c: int, d: int|
        0 <= c < universe.len() && 0 <= d < gli@.len() ==> (steps(
            procedures,
            states,
            node_at(gli, universe, pair.0 as int, pair.1 as int),
            #[trigger] node_at(gli, universe, c, d),
        ) <==> exists|x: int| 0 <= x < row.len() && #[trigger] row[x] == flat(c, gli@.len() as int, d))
}

/// Whether the lists of successors are those of the search: from the place
/// where one node stands there is an edge to the place where another stands
/// exactly if the search steps from the one to the other.
spec fn graph_of_search(
    procedures: &Procedures,
    gli: &GlobalLocationInterner,
    states: StatesView,
    universe: Seq<Place>,
    nodes: Seq<(usize, usize)>,
    succ: Seq<Vec<usize>>,
) -> bool {
    &&& succ.len() == nodes.len()
    &&& forall|i: int|
        0 <= i < succ.len() ==> row_ok(procedures, gli, states, universe, nodes[i], (#[trigger] succ[i])@)
}

/// The steps of the search from every node, as lists of successors.
fn search_graph(
    procedures: &Procedures,
    gli: &GlobalLocationInterner,
    g: &GlobalFlowGraph,
    universe: &Vec<Place>,
    nodes: &Vec<(usize, usize)>,
) -> (succ: Vec<Vec<usize>>)
    requires
        gli.wf(),
        g.wf(gli),
        distinct_places(universe@),
        prefix_closed(universe@),
        translations_covered(universe@, g.view(gli).states),
        reads_covered(universe@, procedures),
        all_pairs(nodes@, universe.len() as int, gli@.len() as int),
    ensures
        graph_of_search(procedures, gli, g.view(gli).states, universe@, nodes@, succ@),
{
    let mut succ: Vec<Vec<usize>> = Vec::new();
    let mut i: usize = 0;
    while i < nodes.len()
        invariant
            i <= nodes.len(),
            succ.len() == i,
            gli.wf(),
            g.wf(gli),
            distinct_places(universe@),
            prefix_closed(universe@),
            translations_covered(universe@, g.view(gli).states),
            reads_covered(universe@, procedures),
            all_pairs(nodes@, universe.len() as int, gli@.len() as int),
            forall|j: int|
                0 <= j < i ==> row_ok(
                    procedures,
                    gli,
                    g.view(gli).states,
                    universe@,
                    nodes[j],
                    (#[trigger] succ[j])@,
                ),
        decreases nodes.len() - i,
    {
        let pair = nodes[i];
        let here = GlobalLocation { id: pair.1 };
        let targets = expand(procedures, gli, g, &universe[pair.0], here);
        proof {
            let n = node_at(gli, universe@, pair.0 as int, pair.1 as int);
            assert forall|k: int| 0 <= k < targets.len() implies has_place(
                universe@,
                (#[trigger] targets[k]).0@,
            ) by {
                let m = (targets[k].0@, gli.chain(targets[k].1));
                assert(listed(gli, targets@, m));
                lemma_steps_known(procedures, gli, g, universe@, n, m);
            }
        }
        let row = flat_indices(gli, universe, &targets);
        let ghost before = succ@;
        succ.push(row);
        proof {
            assert forall|j: int| 0 <= j < i + 1 implies row_ok(
                procedures,
                gli,
                g.view(gli).states,
                universe@,
                nodes[j],
                (#[trigger] succ[j])@,
            ) by {
                if j < i {
                    assert(succ@[j] == before[j]);
                }
            }
        }
        i = i + 1;
    }
    succ
}

/// The node of the search that stands at the place `i` of the pairs.
spec fn node_of(
    gli: &GlobalLocationInterner,
    universe: Seq<Place>,
    nodes: Seq<(usize, usize)>,
    i: int,
) -> SearchNode {
    node_at(gli, universe, nodes[i].0 as int, nodes[i].1 as int)
}

/// The lists of successors name places of nodes only.
proof fn lemma_search_graph_wf(
    procedures: &Procedures,
    gli: &GlobalLocationInterner,
    states: StatesView,
    universe: Seq<Place>,
    nodes: Seq<(usize, usize)>,
    succ: Seq<Vec<usize>>,
)
    requires
        all_pairs(nodes, universe.len() as int, gli@.len() as int),
        graph_of_search(procedures, gli, states, universe, nodes, succ),
    ensures
        adjacency_wf(succ),
{
    assert forall|n: int, j: int| 0 <= n < succ.len() && 0 <= j < succ[n].len() implies (
    #[trigger] succ[n][j]) < succ.len() by {
        assert(row_ok(procedures, gli, states, universe, nodes[n], succ[n]@));
        assert(succ[n]@[j] < universe.len() * gli@.len());
    }
}

/// An edge of the lists of successors is a step of the search.
proof fn lemma_edge_steps(
    procedures: &Procedures,
    gli: &GlobalLocationInterner,
    states: StatesView,
    universe: Seq<Place>,
    nodes: Seq<(usize, usize)>,
    succ: Seq<Vec<usize>>,
    i: int,
    j: int,
)
    requires
        all_pairs(nodes, universe.len() as int, gli@.len() as int),
        graph_of_search(procedures, gli, states, universe, nodes, succ),
        0 <= i < nodes.len(),
        0 <= j < nodes.len(),
    ensures
        has_edge(succ, i, j) == steps(
            procedures,
            states,
            node_of(gli, universe, nodes, i),
            node_of(gli, universe, nodes, j),
        ),
{
    let n = gli@.len() as int;
    let row = succ[i]@;
    assert(row_ok(procedures, gli, states, universe, nodes[i], row));
    let c = nodes[j].0 as int;
    let d = nodes[j].1 as int;
    assert(j == flat(c, n, d));
    let m = node_at(gli, universe, c, d);
    if has_edge(succ, i, j) {
        let x = choose|x: int| 0 <= x < succ[i].len() && #[trigger] succ[i][x] == j;
        assert(row[x] == flat(c, n, d));
    }
    if exists|x: int| 0 <= x < row.len() && #[trigger] row[x] == flat(c, n, d) {
        let x = choose|x: int| 0 <= x < row.len() && #[trigger] row[x] == flat(c, n, d);
        assert(succ[i][x] == j);
    }
}

/// A path of the lists of successors is a path of the search.
proof fn lemma_index_path(
    procedures: &Procedures,
    gli: &GlobalLocationInterner,
    states: StatesView,
    universe: Seq<Place>,
    nodes: Seq<(usize, usize)>,
    succ: Seq<Vec<usize>>,
    p: Seq<int>,
)
    requires
        all_pairs(nodes, universe.len() as int, gli@.len() as int),
        graph_of_search(procedures, gli, states, universe, nodes, succ),
        is_path(succ, p),
    ensures
        forall|x: int| 0 <= x < p.len() ==> 0 <= #[trigger] p[x] < nodes.len(),
        is_search_path(
            procedures,
            states,
            Seq::new(p.len(), |x: int| node_of(gli, universe, nodes, p[x])),
        ),
{
    lemma_search_graph_wf(procedures, gli, states, universe, nodes, succ);
    assert forall|x: int| 0 <= x < p.len() implies 0 <= #[trigger] p[x] < nodes.len() by {
        if x > 0 {
            assert(has_edge(succ, p[x - 1], p[x - 1 + 1]));
        }
    }
    let q = Seq::new(p.len(), |x: int| node_of(gli, universe, nodes, p[x]));
    assert forall|x: int| 0 <= x < q.len() - 1 implies steps(
        procedures,
        states,
        #[trigger] q[x],
        q[x + 1],
    ) by {
        assert(has_edge(succ, p[x], p[x + 1]));
        assert(0 <= p[x + 1] < nodes.len());
        lemma_edge_steps(procedures, gli, states, universe, nodes, succ, p[x], p[x + 1]);
    }
}

/// Where a known node stands among the pairs.
spec fn place_of(gli: &GlobalLocationInterner, universe: Seq<Place>, m: SearchNode) -> int {
    flat(
        choose|a: int| 0 <= a < universe.len() && (#[trigger] universe[a])@ == m.0,
        gli@.len() as int,
        gli.find(m.1)->0.id as int,
    )
}

/// A known node stands among the pairs, where it is said to stand.
proof fn lemma_place_of(
    gli: &GlobalLocationInterner,
    universe: Seq<Place>,
    nodes: Seq<(usize, usize)>,
    m: SearchNode,
)
    requires
        gli.wf(),
        all_pairs(nodes, universe.len() as int, gli@.len() as int),
        known(gli, universe, m),
    ensures
        0 <= place_of(gli, universe, m) < nodes.len(),
        node_of(gli, universe, nodes, place_of(gli, universe, m)) == m,
{
    let a = choose|a: int| 0 <= a < universe.len() && (#[trigger] universe[a])@ == m.0;
    gli.lemma_found(m.1);
    let b = gli.find(m.1)->0.id as int;
    lemma_pair_at(nodes, universe.len() as int, gli@.len() as int, a, b);
    assert(GlobalLocation { id: b as usize } == gli.find(m.1)->0);
    let i = place_of(gli, universe, m);
    assert(i == flat(a, gli@.len() as int, b));
    let n = node_of(gli, universe, nodes, i);
    assert(n.0 == m.0);
    assert(n.1 == m.1);
}

/// A path of the search through known nodes is a path of the lists of
/// successors.
proof fn lemma_node_path(
    procedures: &Procedures,
    gli: &GlobalLocationInterner,
    states: StatesView,
    universe: Seq<Place>,
    nodes: Seq<(usize, usize)>,
    succ: Seq<Vec<usize>>,
    p: Seq<SearchNode>,
)
    requires
        gli.wf(),
        all_pairs(nodes, universe.len() as int, gli@.len() as int),
        graph_of_search(procedures, gli, states, universe, nodes, succ),
        is_search_path(procedures, states, p),
        forall|x: int| 0 <= x < p.len() ==> known(gli, universe, #[trigger] p[x]),
    ensures
        is_path(succ, Seq::new(p.len(), |x: int| place_of(gli, universe, p[x]))),
{
    let q = Seq::new(p.len(), |x: int| place_of(gli, universe, p[x]));
    assert forall|x: int| 0 <= x < p.len() implies 0 <= #[trigger] q[x] < nodes.len() && node_of(
        gli,
        universe,
        nodes,
        q[x],
    ) == p[x] by {
        assert(known(gli, universe, p[x]));
        lemma_place_of(gli, universe, nodes, p[x]);
    }
    assert(0 <= q[0] < nodes.len());
    assert forall|x: int| 0 <= x < q.len() - 1 implies has_edge(succ, #[trigger] q[x], q[x + 1]) by {
        assert(steps(procedures, states, p[x], p[x + 1]));
        assert(0 <= q[x + 1] < nodes.len() && node_of(gli, universe, nodes, q[x + 1]) == p[x + 1]);
        lemma_edge_steps(procedures, gli, states, universe, nodes, succ, q[x], q[x + 1]);
    }
}

/// Whether the search ends at the location with a dependency.
fn is_found(
    procedures: &Procedures,
    gli: &GlobalLocationInterner,
    g: &GlobalFlowGraph,
    loc: GlobalLocation,
) -> (r: bool)
    requires
        gli.wf(),
        g.wf(gli),
        gli.valid(loc),
    ensures
        r == found(procedures, g.view(gli).states, gli.chain(loc)),
{
    let boundary = match state_at(gli, g, loc) {
        Some(s) => s.is_translated(),
        None => false,
    };
    if boundary {
        return false;
    }
    match Keep::from_global_location(procedures, gli, loc) {
        Keep::Reject(_) => false,
        _ => true,
    }
}

/// The locations that the places depend on at the location `loc`.
pub fn search_dependencies(
    procedures: &Procedures,
    gli: &GlobalLocationInterner,
    g: &GlobalFlowGraph,
    loc: GlobalLocation,
    places: &Vec<Place>,
) -> (deps: Vec<GlobalLocation>)
    requires
        gli.wf(),
        g.wf(gli),
        gli.valid(loc),
    ensures
        all_valid(gli, deps@),
        chains(gli, deps@) == deep_dependencies(
            procedures,
            g.view(gli).states,
            gli.chain(loc),
            place_views(places@),
        ),
{
    let ghost states = g.view(gli).states;
    let ghost start = place_views(places@);
    let universe = universe_of(procedures, gli, g, places);
    let nodes = pairs_of(universe.len(), gli.len());
    let succ = search_graph(procedures, gli, g, &universe, &nodes);
    let first = deps_for_places(gli, g, loc, places);
    proof {
        assert(has_views(universe@, start)) by {
            assert forall|k: int| 0 <= k < start.len() implies has_place(
                universe@,
                #[trigger] start[k],
            ) by {
                assert(has_place(universe@, places[k]@));
            }
        }
        assert forall|k: int| 0 <= k < first.len() implies has_place(
            universe@,
            (#[trigger] first[k]).0@,
        ) by {
            let m = (first[k].0@, gli.chain(first[k].1));
            assert(listed(gli, first@, m));
            lemma_writers_known(gli, g, universe@, gli.chain(loc), start, m);
        }
    }
    proof {
        assert(universe.len() * gli@.len() == nodes.len());
    }
    let starts = flat_indices(gli, &universe, &first);
    proof {
        lemma_search_graph_wf(procedures, gli, states, universe@, nodes@, succ@);
    }
    let visited = reachable(&succ, &starts);
    let mut deps: Vec<GlobalLocation> = Vec::new();
    let mut i: usize = 0;
    proof {
        assert(chains(gli, deps@) =~= Set::<Seq<Link>>::empty());
    }
    while i < nodes.len()
        invariant
            i <= nodes.len(),
            gli.wf(),
            g.wf(gli),
            states == g.view(gli).states,
            visited.len() == nodes.len(),
            all_pairs(nodes@, universe.len() as int, gli@.len() as int),
            all_valid(gli, deps@),
            forall|c: Seq<Link>| #[trigger]
                chains(gli, deps@).contains(c) <==> found(procedures, states, c) && exists|j: int|
                    0 <= j < i && visited[j] && gli.chain(
                        GlobalLocation { id: (#[trigger] nodes[j]).1 },
                    ) == c,
        decreases nodes.len() - i,
    {
        if visited[i] {
            let here = GlobalLocation { id: nodes[i].1 };
            if is_found(procedures, gli, g, here) {
                insert_location(&mut deps, gli, here);
            }
        }
        i = i + 1;
    }
    proof {
        let all = deep_dependencies(procedures, states, gli.chain(loc), start);
        assert forall|d: Seq<Link>| chains(gli, deps@).contains(d) == all.contains(d) by {
            if chains(gli, deps@).contains(d) {
                let j = choose|j: int|
                    0 <= j < nodes.len() && visited[j] && gli.chain(
                        GlobalLocation { id: (#[trigger] nodes[j]).1 },
                    ) == d;
                assert(reached(succ@, starts@, j));
                let s = choose|s: int|
                    0 <= s < starts.len() && reaches(succ@, #[trigger] starts[s] as int, j);
                let p = choose|p: Seq<int>|
                    is_path(succ@, p) && p[0] == starts[s] as int && p.last() == j;
                lemma_index_path(procedures, gli, states, universe@, nodes@, succ@, p);
                let q = Seq::new(p.len(), |x: int| node_of(gli, universe@, nodes@, p[x]));
                let a = nodes[p[0]].0 as int;
                let b = nodes[p[0]].1 as int;
                assert(starts[s] == flat(a, gli@.len() as int, b));
                assert(listed(gli, first@, node_at(gli, universe@, a, b)));
                assert(q[0] == node_at(gli, universe@, a, b));
                assert(writers(states, gli.chain(loc), start, q[0]));
                assert(q.last().1 == d);
                assert(is_search_path(procedures, states, q) && writers(
                    states,
                    gli.chain(loc),
                    start,
                    q[0],
                ) && q.last().1 == d && found(procedures, states, d));
            }
            if all.contains(d) {
                let p = choose|p: Seq<SearchNode>|
                    is_search_path(procedures, states, p) && writers(
                        states,
                        gli.chain(loc),
                        start,
                        #[trigger] p[0],
                    ) && p.last().1 == d && found(procedures, states, d);
                lemma_writers_known(gli, g, universe@, gli.chain(loc), start, p[0]);
                assert forall|x: int| 0 <= x < p.len() implies known(gli, universe@, #[trigger] p[x]) by {
                    lemma_path_known(procedures, gli, g, universe@, p, x);
                }
                lemma_node_path(procedures, gli, states, universe@, nodes@, succ@, p);
                let q = Seq::new(p.len(), |x: int| place_of(gli, universe@, p[x]));
                lemma_place_of(gli, universe@, nodes@, p[0]);
                lemma_place_of(gli, universe@, nodes@, p.last());
                let a = nodes[q[0]].0 as int;
                let b = nodes[q[0]].1 as int;
                assert(node_at(gli, universe@, a, b) == p[0]);
                assert(listed(gli, first@, node_at(gli, universe@, a, b)));
                assert(q[0] == flat(a, gli@.len() as int, b));
                let x = choose|x: int|
                    0 <= x < starts.len() && #[trigger] starts[x] == flat(a, gli@.len() as int, b);
                assert(is_path(succ@, q) && q[0] == starts[x] as int && q.last() == q.last());
                assert(reaches(succ@, starts[x] as int, q.last()));
                assert(reached(succ@, starts@, q.last()));
                assert(visited[q.last()]);
                assert(gli.chain(GlobalLocation { id: nodes[q.last()].1 }) == d);
            }
        }
        assert(chains(gli, deps@) =~= all);
    }
    deps
}

/// The places to start the search with for the place `p`: the place alone,
/// or the places whose values can be reached from it.
pub open spec fn start_places(
    reachable_values: Seq<(Place, Vec<Place>)>,
    p: PlaceView,
    use_reachable_places: bool,
) -> Seq<PlaceView> {
    if use_reachable_places {
        aliases_of(reachable_values, p)
    } else {
        seq![p]
    }
}

/// The locations that the place `p` depends on at the location `loc`: the
/// calls and formal arguments that the search comes to when it starts with
/// the writers of the place, or of the places whose values can be reached
/// from it, and passes over everything else.
pub fn deep_dependencies_of(
    procedures: &Procedures,
    gli: &GlobalLocationInterner,
    reachable_values: &Aliases,
    loc: GlobalLocation,
    g: &GlobalFlowGraph,
    p: &Place,
    use_reachable_places: bool,
) -> (deps: Vec<GlobalLocation>)
    requires
        gli.wf(),
        g.wf(gli),
        gli.valid(loc),
    ensures
        all_valid(gli, deps@),
        chains(gli, deps@) == deep_dependencies(
            procedures,
            g.view(gli).states,
            gli.chain(loc),
            start_places(reachable_values@, p@, use_reachable_places),
        ),
{
    if use_reachable_places {
        match find_aliases(reachable_values, p) {
            Some(places) => search_dependencies(procedures, gli, g, loc, places),
            None => {
                let places: Vec<Place> = Vec::new();
                proof {
                    assert(place_views(places@) =~= Seq::<PlaceView>::empty());
                }
                search_dependencies(procedures, gli, g, loc, &places)
            },
        }
    } else {
        let mut places: Vec<Place> = Vec::new();
        places.push(p.duplicate());
        proof {
            assert(place_views(places@) =~= seq![p@]);
        }
        search_dependencies(procedures, gli, g, loc, &places)
    }
}

/// What the call at the location `c` depends on: nothing decides whether
/// it executes, and each argument that is a place depends on what the search
/// finds for it.
pub open spec fn call_dependencies(
    procedures: &Procedures,
    states: StatesView,
    c: Seq<Link>,
    args: Seq<Option<PlaceView>>,
    use_reachable_places: bool,
) -> CallDepsView {
    CallDepsView {
        ctrl_deps: Set::empty(),
        input_deps: Seq::new(
            args.len(),
            |i: int|
                match args[i] {
                    Some(p) => deep_dependencies(
                        procedures,
                        states,
                        c,
                        start_places(
                            procedures.procedures[c.last().function as int].facts.reachable_values@,
                            p,
                            use_reachable_places,
                        ),
                    ),
                    None => Set::empty(),
                },
        ),
    }
}

/// Whether the flow has a state at the location that is no boundary, and
/// the location is a call of a known procedure.
pub open spec fn is_kept_call(procedures: &Procedures, states: StatesView, c: Seq<Link>) -> bool {
    classified_chain(procedures, c) is Keep && exists|i: int|
        0 <= i < states.len() && #[trigger] states[i].0 == c && states[i].1.translator is None
}

/// The call-only flow of a flow: its calls of known procedures, each with
/// what its arguments depend on.
pub open spec fn reduced(
    procedures: &Procedures,
    states: StatesView,
    use_reachable_places: bool,
) -> CallOnlyFlowView {
    CallOnlyFlowView {
        location_dependencies: Map::new(
            |c: Seq<Link>| is_kept_call(procedures, states, c),
            |c: Seq<Link>|
                call_dependencies(
                    procedures,
                    states,
                    c,
                    classified_chain(procedures, c)->Keep_0,
                    use_reachable_places,
                ),
        ),
        return_dependencies: Set::empty(),
    }
}

/// What the call at the location `loc` with the arguments `args` depends
/// on.
fn call_deps(
    procedures: &Procedures,
    gli: &GlobalLocationInterner,
    g: &GlobalFlowGraph,
    loc: GlobalLocation,
    args: &Vec<Option<Place>>,
    use_reachable_places: bool,
) -> (r: CallDeps)
    requires
        gli.wf(),
        g.wf(gli),
        gli.valid(loc),
        gli.chain(loc).last().function < procedures.procedures.len(),
    ensures
        r.wf(gli),
        r.view(gli) == call_dependencies(
            procedures,
            g.view(gli).states,
            gli.chain(loc),
            argument_views(args@),
            use_reachable_places,
        ),
{
    let inner = loc.innermost_location_and_body(gli);
    let reachable_values = &procedures.procedures[inner.1].facts.reachable_values;
    let ghost expected = call_dependencies(
        procedures,
        g.view(gli).states,
        gli.chain(loc),
        argument_views(args@),
        use_reachable_places,
    );
    let mut input_deps: Vec<Vec<GlobalLocation>> = Vec::new();
    let mut k: usize = 0;
    while k < args.len()
        invariant
            k <= args.len(),
            input_deps.len() == k,
            gli.wf(),
            g.wf(gli),
            gli.valid(loc),
            inner.1 < procedures.procedures.len(),
            inner.1 == gli.chain(loc).last().function,
            reachable_values == &procedures.procedures[inner.1 as int].facts.reachable_values,
            expected == call_dependencies(
                procedures,
                g.view(gli).states,
                gli.chain(loc),
                argument_views(args@),
                use_reachable_places,
            ),
            forall|j: int|
                0 <= j < k ==> all_valid(gli, (#[trigger] input_deps[j])@) && chains(
                    gli,
                    input_deps[j]@,
                ) == expected.input_deps[j],
        decreases args.len() - k,
    {
        let deps = match &args[k] {
            Some(p) => deep_dependencies_of(
                procedures,
                gli,
                reachable_values,
                loc,
                g,
                p,
                use_reachable_places,
            ),
            None => {
                let d: Vec<GlobalLocation> = Vec::new();
                proof {
                    assert(chains(gli, d@) =~= Set::<Seq<Link>>::empty());
                }
                d
            },
        };
        proof {
            assert(argument_views(args@)[k as int] == match args[k as int] {
                Some(p) => Some(p@),
                None => None,
            });
        }
        input_deps.push(deps);
        k = k + 1;
    }
    let r = CallDeps { ctrl_deps: Vec::new(), input_deps };
    proof {
        assert(chains(gli, r.ctrl_deps@) =~= Set::<Seq<Link>>::empty());
        assert(r.view(gli).input_deps =~= expected.input_deps);
    }
    r
}

/// The call-only flow of the flow `g`: every location with a state that is
/// a call of a known procedure, with what its arguments depend on. The
/// states that are there to translate places at the boundary of an inlined
/// callee are no calls.
pub fn compute_call_only_flow(
    procedures: &Procedures,
    gli: &GlobalLocationInterner,
    g: &GlobalFlowGraph,
    use_reachable_places: bool,
) -> (flow: CallOnlyFlow)
    requires
        gli.wf(),
        g.wf(gli),
    ensures
        flow.wf(gli),
        flow.view(gli) == reduced(procedures, g.view(gli).states, use_reachable_places),
{
    let entries = g.location_states().as_vec();
    let ghost states = g.view(gli).states;
    let mut out: Vec<(GlobalLocation, CallDeps)> = Vec::new();
    let mut i: usize = 0;
    while i < entries.len()
        invariant
            i <= entries.len(),
            gli.wf(),
            g.wf(gli),
            states == g.view(gli).states,
            entries.len() == states.len(),
            forall|x: int|
                0 <= x < entries.len() ==> gli.valid((#[trigger] entries[x]).0) && states[x] == (
                    gli.chain(entries[x].0),
                    entries[x].1.view(gli),
                ),
            forall|x: int, y: int|
                0 <= x < y < entries.len() ==> (#[trigger] entries[x]).0 != (#[trigger] entries[y]).0,
            forall|k: int|
                0 <= k < out.len() ==> gli.valid((#[trigger] out[k]).0) && out[k].1.wf(gli)
                    && is_kept_call(procedures, states, gli.chain(out[k].0)) && out[k].1.view(gli)
                    == call_dependencies(
                    procedures,
                    states,
                    gli.chain(out[k].0),
                    classified_chain(procedures, gli.chain(out[k].0))->Keep_0,
                    use_reachable_places,
                ) && exists|x: int| 0 <= x < i && (#[trigger] entries[x]).0 == out[k].0,
            forall|k: int, l: int| 0 <= k < l < out.len() ==> (#[trigger] out[k]).0 != (#[trigger] out[l]).0,
            forall|x: int|
                0 <= x < i && is_kept_call(procedures, states, gli.chain((#[trigger] entries[x]).0))
                    ==> exists|k: int| 0 <= k < out.len() && (#[trigger] out[k]).0 == entries[x].0,
        decreases entries.len() - i,
    {
        let loc = entries[i].0;
        let ghost c = gli.chain(loc);
        let ghost before = out@;
        let mut kept = false;
        if !entries[i].1.is_translated() {
            let inner = loc.innermost_location_and_body(gli);
            let keep = Keep::from_location(procedures, inner.1, inner.0, loc.is_at_root(gli));
            match keep.into_keep() {
                Some(call) => {
                    let deps = call_deps(procedures, gli, g, loc, &call.0, use_reachable_places);
                    proof {
                        assert(states[i as int].0 == c && states[i as int].1.translator is None);
                        assert(is_kept_call(procedures, states, c));
                    }
                    out.push((loc, deps));
                    kept = true;
                },
                None => {},
            }
        }
        proof {
            if !kept {
                if is_kept_call(procedures, states, c) {
                    let x = choose|x: int|
                        0 <= x < states.len() && #[trigger] states[x].0 == c
                            && states[x].1.translator is None;
                    gli.lemma_equal_iff_same_chain(entries[x].0, loc);
                }
            }
            assert forall|k: int| 0 <= k < out.len() implies gli.valid((#[trigger] out[k]).0)
                && out[k].1.wf(gli) && is_kept_call(procedures, states, gli.chain(out[k].0))
                && out[k].1.view(gli) == call_dependencies(
                procedures,
                states,
                gli.chain(out[k].0),
                classified_chain(procedures, gli.chain(out[k].0))->Keep_0,
                use_reachable_places,
            ) && exists|x: int| 0 <= x < i + 1 && (#[trigger] entries[x]).0 == out[k].0 by {
                if k < before.len() {
                    assert(out@[k] == before[k]);
                    let x = choose|x: int| 0 <= x < i && (#[trigger] entries[x]).0 == before[k].0;
                    assert(0 <= x < i + 1);
                } else {
                    assert(entries[i as int].0 == out[k].0);
                }
            }
            assert forall|k: int, l: int| 0 <= k < l < out.len() implies (#[trigger] out[k]).0 != (
            #[trigger] out[l]).0 by {
                assert(out@[k] == before[k]);
                if l < before.len() {
                    assert(out@[l] == before[l]);
                } else {
                    let x = choose|x: int| 0 <= x < i && (#[trigger] entries[x]).0 == before[k].0;
                    assert(entries[x].0 != entries[i as int].0);
                }
            }
            assert forall|x: int|
                0 <= x < i + 1 && is_kept_call(
                    procedures,
                    states,
                    gli.chain((#[trigger] entries[x]).0),
                ) implies exists|k: int| 0 <= k < out.len() && (#[trigger] out[k]).0 == entries[x].0 by {
                if x < i {
                    let k = choose|k: int|
                        0 <= k < before.len() && (#[trigger] before[k]).0 == entries[x].0;
                    assert(out@[k] == before[k]);
                } else {
                    assert(out@[before.len() as int].0 == entries[x].0);
                }
            }
        }
        i = i + 1;
    }
    let flow = CallOnlyFlow { location_dependencies: out, return_dependencies: Vec::new() };
    proof {
        let expected = reduced(procedures, states, use_reachable_places);
        let got = flow.view(gli);
        assert(chains(gli, flow.return_dependencies@) =~= Set::<Seq<Link>>::empty());
        assert forall|c: Seq<Link>| got.location_dependencies.dom().contains(c)
            == expected.location_dependencies.dom().contains(c) by {
            if is_kept_call(procedures, states, c) {
                let x = choose|x: int|
                    0 <= x < states.len() && #[trigger] states[x].0 == c
                        && states[x].1.translator is None;
                assert(gli.chain(entries[x].0) == c);
                let k = choose|k: int| 0 <= k < out.len() && (#[trigger] out[k]).0 == entries[x].0;
                assert(gli.chain(flow.location_dependencies[k].0) == c);
            }
        }
        assert forall|c: Seq<Link>| got.location_dependencies.dom().contains(c) implies got.location_dependencies[c]
            == expected.location_dependencies[c] by {
            let k = flow.index_of(gli, c);
            assert(gli.chain(out[k].0) == c);
        }
        assert(got.location_dependencies =~= expected.location_dependencies);
    }
    flow
}

/// What the analysis of a procedure gives.
pub struct Flow {
    /// The procedure that was analysed.
    pub root_function: BodyId,
    /// The flows of the procedure and of the callees inlined into it, by
    /// procedure.
    pub function_flows: RecursionBreakingCache<GlobalFlowGraph>,
    /// The call-only flow of the procedure.
    pub reduced_flow: CallOnlyFlow,
}

/// The entries of a cache that nobody has asked anything.
pub open spec fn nothing_started(n: nat) -> Seq<FlowMemoView> {
    Seq::new(n, |i: int| FlowMemoView::NotStarted)
}

impl Flow {
    /// Analyses the procedure `body_id`: makes its flow, with the callees
    /// that are to be inlined, and from it the call-only flow. Fails if
    /// nothing was found about a point of the procedure or of a callee.
    pub fn compute<O: Oracle>(
        opts: &AnalysisCtrl,
        procedures: &Procedures,
        body_id: BodyId,
        gli: &mut GlobalLocationInterner,
        inline_selector: &O,
    ) -> (r: Result<Flow, AnalysisError>)
        requires
            procedures.wf(),
            old(gli).wf(),
            body_id < procedures.procedures.len(),
        ensures
            final(gli).wf(),
            final(gli).extends(old(gli)),
            match flow_for(
                procedures,
                opts,
                inline_selector,
                nothing_started(procedures.procedures.len() as nat),
                body_id as nat,
            ).1 {
                Ok(Some(f)) => r matches Ok(flow) && flow.root_function == body_id
                    && flow.reduced_flow.wf(final(gli)) && flow.reduced_flow.view(final(gli))
                    == reduced(procedures, f.states, opts.use_reachable_values_in_dfs)
                    && flow_memo_wf(final(gli), flow.function_flows@) && flow_memo_views(
                    final(gli),
                    flow.function_flows@,
                ) == flow_for(
                    procedures,
                    opts,
                    inline_selector,
                    nothing_started(procedures.procedures.len() as nat),
                    body_id as nat,
                ).0,
                Ok(None) => false,
                Err(e) => r == Err::<Flow, AnalysisError>(e),
            },
    {
        let mut function_flows: RecursionBreakingCache<GlobalFlowGraph> = RecursionBreakingCache::new(
            procedures.procedures.len(),
        );
        proof {
            assert(flow_memo_views(gli, function_flows@) =~= nothing_started(
                procedures.procedures.len() as nat,
            ));
        }
        match compute_granular_global_flows(
            procedures,
            opts,
            inline_selector,
            gli,
            &mut function_flows,
            body_id,
        ) {
            Ok(_) => {
                match function_flows.get(body_id) {
                    Some(g) => {
                        let reduced_flow = compute_call_only_flow(
                            procedures,
                            gli,
                            g,
                            opts.use_reachable_values_in_dfs,
                        );
                        Ok(Flow { root_function: body_id, function_flows, reduced_flow })
                    },
                    None => unreached(),
                }
            },
            Err(e) => Err(e),
        }
    }
}

} // verus!
