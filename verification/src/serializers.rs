//! Forms of locations and flows that stand on their own: the chain of every
//! location is written out, so that they can be stored and compared without
//! the interner that made them.

use crate::flows::{all_valid, chains, CallDeps, CallDepsView, CallOnlyFlow};
use crate::global_location::{BodyId, GlobalLocation, GlobalLocationInterner, Link, Location};
use vstd::prelude::*;

verus! {

/// A program point with the number of its block as a plain index.
#[derive(Clone, Copy, PartialEq, Eq, Structural, Debug, Hash)]
pub struct LocationProxy {
    pub block: usize,
    pub statement_index: usize,
}

impl LocationProxy {
    /// The proxy of a location.
    pub fn from_location(l: Location) -> (p: Self)
        ensures
            p.block == l.block,
            p.statement_index == l.statement_index,
    {
        LocationProxy { block: l.block as usize, statement_index: l.statement_index }
    }

    /// The location of a proxy, if the number of its block fits.
    pub fn into_location(self) -> (l: Option<Location>)
        ensures
            l is Some == (self.block <= u32::MAX),
            l matches Some(x) ==> x.block == self.block && x.statement_index
                == self.statement_index,
    {
        if self.block <= u32::MAX as usize {
            Some(Location { block: self.block as u32, statement_index: self.statement_index })
        } else {
            None
        }
    }
}

/// A global location with its chain written out, outermost link first.
#[derive(Debug)]
pub struct RawGlobalLocation {
    chain: Vec<Link>,
}

impl View for RawGlobalLocation {
    type V = Seq<Link>;

    closed spec fn view(&self) -> Seq<Link> {
        self.chain@
    }
}

impl RawGlobalLocation {
    /// The invariant of a location: its chain has at least one link.
    pub open spec fn wf(&self) -> bool {
        self@.len() >= 1
    }

    /// The location with the chain of `loc`.
    pub fn from(gli: &GlobalLocationInterner, loc: GlobalLocation) -> (r: Self)
        requires
            gli.wf(),
            gli.valid(loc),
        ensures
            r.wf(),
            r@ == gli.chain(loc),
    {
        proof {
            gli.lemma_chain_head(loc);
        }
        RawGlobalLocation { chain: loc.links(gli) }
    }

    /// The location with the given chain, if the chain has a link.
    pub fn from_links(chain: Vec<Link>) -> (r: Option<Self>)
        ensures
            r is Some == (chain.len() >= 1),
            r matches Some(l) ==> l.wf() && l@ == chain@,
    {
        if chain.len() >= 1 {
            Some(RawGlobalLocation { chain })
        } else {
            None
        }
    }

    /// The links of the chain, outermost first.
    pub fn links(&self) -> (l: &Vec<Link>)
        ensures
            l@ == self@,
    {
        &self.chain
    }

    /// The handle of the location in the interner.
    pub fn intern(&self, gli: &mut GlobalLocationInterner) -> (r: GlobalLocation)
        requires
            old(gli).wf(),
            self.wf(),
        ensures
            final(gli).wf(),
            final(gli).extends(old(gli)),
            final(gli).valid(r),
            final(gli).chain(r) == self@,
    {
        gli.intern_chain(&self.chain)
    }

    /// The procedure of the outermost link.
    pub fn function(&self) -> (f: BodyId)
        requires
            self.wf(),
        ensures
            f == self@[0].function,
    {
        self.chain[0].function
    }

    /// The point of the outermost link.
    pub fn location(&self) -> (l: Location)
        requires
            self.wf(),
        ensures
            l == self@[0].location,
    {
        self.chain[0].location
    }

    /// The chain without its outermost link, if more than one link is left.
    pub fn next(&self) -> (n: Option<RawGlobalLocation>)
        requires
            self.wf(),
        ensures
            n is None <==> self@.len() == 1,
            n matches Some(m) ==> m.wf() && m@ == self@.drop_first(),
    {
        if self.chain.len() == 1 {
            return None;
        }
        Some(RawGlobalLocation { chain: self.suffix(1) })
    }

    /// The links from position `from` on.
    fn suffix(&self, from: usize) -> (v: Vec<Link>)
        requires
            from <= self.chain.len(),
        ensures
            v@ == self@.subrange(from as int, self@.len() as int),
    {
        let mut v: Vec<Link> = Vec::new();
        let mut i: usize = from;
        while i < self.chain.len()
            invariant
                from <= i <= self.chain.len(),
                v@ == self.chain@.subrange(from as int, i as int),
            decreases self.chain.len() - i,
        {
            v.push(self.chain[i]);
            proof {
                assert(self.chain@.subrange(from as int, i as int + 1) =~= self.chain@.subrange(
                    from as int,
                    i as int,
                ).push(self.chain@[i as int]));
            }
            i = i + 1;
        }
        v
    }

    /// The second-to-last link of the chain, as the location that starts
    /// there. None for a location that is not nested.
    pub fn parent(&self) -> (p: Option<RawGlobalLocation>)
        requires
            self.wf(),
        ensures
            p is None <==> self@.len() == 1,
            p matches Some(q) ==> q.wf() && q@ == self@.subrange(
                self@.len() - 2,
                self@.len() as int,
            ),
    {
        if self.chain.len() == 1 {
            return None;
        }
        Some(RawGlobalLocation { chain: self.suffix(self.chain.len() - 2) })
    }

    /// The point and the procedure of the last link.
    pub fn innermost_location_and_body(&self) -> (r: (Location, BodyId))
        requires
            self.wf(),
        ensures
            r.0 == self@.last().location,
            r.1 == self@.last().function,
    {
        let last = self.chain[self.chain.len() - 1];
        (last.location, last.function)
    }

    /// The location is not nested in a call.
    pub fn is_at_root(&self) -> (b: bool)
        ensures
            b == (self@.len() == 1),
    {
        self.chain.len() == 1
    }

    /// The point of a location that is not nested in a call.
    pub fn as_local(&self) -> (l: Option<Location>)
        ensures
            l == if self@.len() == 1 {
                Some(self@[0].location)
            } else {
                None
            },
    {
        if self.chain.len() == 1 {
            Some(self.chain[0].location)
        } else {
            None
        }
    }

    /// Whether the two locations have the same chain.
    pub fn same(&self, other: &RawGlobalLocation) -> (r: bool)
        ensures
            r == (self@ == other@),
    {
        if self.chain.len() != other.chain.len() {
            return false;
        }
        let mut i: usize = 0;
        while i < self.chain.len()
            invariant
                i <= self.chain.len(),
                self.chain.len() == other.chain.len(),
                forall|j: int| 0 <= j < i ==> self.chain[j] == other.chain[j],
            decreases self.chain.len() - i,
        {
            if self.chain[i] != other.chain[i] {
                return false;
            }
            i = i + 1;
        }
        proof {
            assert(self@ =~= other@);
        }
        true
    }
}

/// The chains of the locations of a vector.
pub open spec fn raw_chains(v: Seq<RawGlobalLocation>) -> Set<Seq<Link>> {
    Set::new(|c: Seq<Link>| exists|k: int| 0 <= k < v.len() && (#[trigger] v[k])@ == c)
}

/// The locations with the chains of the given ones.
pub fn raw_locations(gli: &GlobalLocationInterner, v: &Vec<GlobalLocation>) -> (r: Vec<
    RawGlobalLocation,
>)
    requires
        gli.wf(),
        all_valid(gli, v@),
    ensures
        r.len() == v.len(),
        forall|k: int| 0 <= k < r.len() ==> (#[trigger] r[k]).wf() && r[k]@ == gli.chain(v[k]),
        raw_chains(r@) == chains(gli, v@),
{
    let mut r: Vec<RawGlobalLocation> = Vec::new();
    let mut k: usize = 0;
    while k < v.len()
        invariant
            k <= v.len(),
            r.len() == k,
            gli.wf(),
            all_valid(gli, v@),
            forall|j: int| 0 <= j < k ==> (#[trigger] r[j]).wf() && r[j]@ == gli.chain(v[j]),
        decreases v.len() - k,
    {
        r.push(RawGlobalLocation::from(gli, v[k]));
        k = k + 1;
    }
    proof {
        assert forall|c: Seq<Link>| raw_chains(r@).contains(c) == chains(gli, v@).contains(c) by {
            if raw_chains(r@).contains(c) {
                let j = choose|j: int| 0 <= j < r.len() && (#[trigger] r@[j])@ == c;
                assert(gli.chain(v@[j]) == c);
            }
            if chains(gli, v@).contains(c) {
                let j = choose|j: int| 0 <= j < v.len() && gli.chain(#[trigger] v@[j]) == c;
                assert(r@[j]@ == c);
            }
        }
        assert(raw_chains(r@) =~= chains(gli, v@));
    }
    r
}

/// What a call depends on, with the chains of all locations written out.
#[derive(Debug)]
pub struct RawCallDeps {
    pub ctrl_deps: Vec<RawGlobalLocation>,
    pub input_deps: Vec<Vec<RawGlobalLocation>>,
}

/// A call-only flow with the chains of all locations written out.
#[derive(Debug)]
pub struct SerializableCallOnlyFlow {
    /// The calls, in the order of the flow, each with what it depends on.
    pub location_dependencies: Vec<(RawGlobalLocation, RawCallDeps)>,
    /// The locations that the return value comes from.
    pub return_dependencies: Vec<RawGlobalLocation>,
}

impl RawCallDeps {
    /// The value of the dependencies.
    pub open spec fn view(&self) -> CallDepsView {
        CallDepsView {
            ctrl_deps: raw_chains(self.ctrl_deps@),
            input_deps: Seq::new(
                self.input_deps.len() as nat,
                |i: int| raw_chains(self.input_deps[i]@),
            ),
        }
    }

    /// The dependencies with the chains of the given ones.
    pub fn from(gli: &GlobalLocationInterner, deps: &CallDeps) -> (r: Self)
        requires
            gli.wf(),
            deps.wf(gli),
        ensures
            r.view() == deps.view(gli),
    {
        let ctrl_deps = raw_locations(gli, &deps.ctrl_deps);
        let mut input_deps: Vec<Vec<RawGlobalLocation>> = Vec::new();
        let mut i: usize = 0;
        while i < deps.input_deps.len()
            invariant
                i <= deps.input_deps.len(),
                input_deps.len() == i,
                gli.wf(),
                deps.wf(gli),
                forall|j: int|
                    0 <= j < i ==> raw_chains((#[trigger] input_deps[j])@) == chains(
                        gli,
                        deps.input_deps[j]@,
                    ),
            decreases deps.input_deps.len() - i,
        {
            input_deps.push(raw_locations(gli, &deps.input_deps[i]));
            i = i + 1;
        }
        let r = RawCallDeps { ctrl_deps, input_deps };
        proof {
            assert(r.view().input_deps =~= deps.view(gli).input_deps);
        }
        r
    }
}

/// The chains of the locations, in their order.
pub open spec fn raw_views(v: Seq<RawGlobalLocation>) -> Seq<Seq<Link>> {
    Seq::new(v.len(), |i: int| v[i]@)
}

/// The chains of the locations of the first `k` vectors, in their order.
pub open spec fn flattened(v: Seq<Vec<RawGlobalLocation>>, k: nat) -> Seq<Seq<Link>>
    decreases k,
{
    if k == 0 {
        Seq::empty()
    } else {
        flattened(v, (k - 1) as nat) + raw_views(v[k - 1]@)
    }
}

/// The chains of the locations that the first `k` entries mention, in their
/// order: of each entry the call, what decides whether it executes, and what
/// its arguments come from, argument by argument.
pub open spec fn mentioned(entries: Seq<(RawGlobalLocation, RawCallDeps)>, k: nat) -> Seq<
    Seq<Link>,
>
    decreases k,
{
    if k == 0 {
        Seq::empty()
    } else {
        mentioned(entries, (k - 1) as nat) + seq![entries[k - 1].0@] + raw_views(
            entries[k - 1].1.ctrl_deps@,
        ) + flattened(entries[k - 1].1.input_deps@, entries[k - 1].1.input_deps.len() as nat)
    }
}

/// The chains of the referenced locations, in their order.
pub open spec fn ref_views(v: Seq<&RawGlobalLocation>) -> Seq<Seq<Link>> {
    Seq::new(v.len(), |i: int| v[i]@)
}

/// Adds the locations of the vector to the list.
fn push_all<'a>(list: &mut Vec<&'a RawGlobalLocation>, v: &'a Vec<RawGlobalLocation>)
    ensures
        ref_views(final(list)@) == ref_views(old(list)@) + raw_views(v@),
{
    let mut i: usize = 0;
    while i < v.len()
        invariant
            i <= v.len(),
            ref_views(list@) == ref_views(old(list)@) + raw_views(v@.take(i as int)),
        decreases v.len() - i,
    {
        let ghost before = list@;
        list.push(&v[i]);
        proof {
            assert(ref_views(list@) =~= ref_views(before) + seq![v[i as int]@]);
            assert(raw_views(v@.take(i + 1)) =~= raw_views(v@.take(i as int)) + seq![v[i as int]@]);
        }
        i = i + 1;
    }
    proof {
        assert(v@.take(v.len() as int) =~= v@);
    }
}

impl SerializableCallOnlyFlow {
    /// The flow with the chains of the given one.
    pub fn from(gli: &GlobalLocationInterner, flow: &CallOnlyFlow) -> (r: Self)
        requires
            gli.wf(),
            flow.wf(gli),
        ensures
            raw_chains(r.return_dependencies@) == flow.view(gli).return_dependencies,
            r.location_dependencies.len() == flow.location_dependencies.len(),
            forall|k: int|
                0 <= k < r.location_dependencies.len() ==> (#[trigger] r.location_dependencies[k]).0@
                    == gli.chain(flow.location_dependencies[k].0)
                    && r.location_dependencies[k].1.view() == flow.location_dependencies[k].1.view(
                    gli,
                ),
    {
        let return_dependencies = raw_locations(gli, &flow.return_dependencies);
        let mut location_dependencies: Vec<(RawGlobalLocation, RawCallDeps)> = Vec::new();
        let mut k: usize = 0;
        while k < flow.location_dependencies.len()
            invariant
                k <= flow.location_dependencies.len(),
                location_dependencies.len() == k,
                gli.wf(),
                flow.wf(gli),
                forall|j: int|
                    0 <= j < k ==> (#[trigger] location_dependencies[j]).0@ == gli.chain(
                        flow.location_dependencies[j].0,
                    ) && location_dependencies[j].1.view() == flow.location_dependencies[j].1.view(
                        gli,
                    ),
            decreases flow.location_dependencies.len() - k,
        {
            let entry = &flow.location_dependencies[k];
            location_dependencies.push(
                (RawGlobalLocation::from(gli, entry.0), RawCallDeps::from(gli, &entry.1)),
            );
            k = k + 1;
        }
        SerializableCallOnlyFlow { location_dependencies, return_dependencies }
    }

    /// Every location that the calls of the flow mention, as often as it is
    /// mentioned and in the order of the flow.
    pub fn all_locations_iter(&self) -> (r: Vec<&RawGlobalLocation>)
        ensures
            ref_views(r@) == mentioned(
                self.location_dependencies@,
                self.location_dependencies.len() as nat,
            ),
    {
        let mut r: Vec<&RawGlobalLocation> = Vec::new();
        let mut k: usize = 0;
        proof {
            assert(ref_views(r@) =~= Seq::<Seq<Link>>::empty());
        }
        while k < self.location_dependencies.len()
            invariant
                k <= self.location_dependencies.len(),
                ref_views(r@) == mentioned(self.location_dependencies@, k as nat),
            decreases self.location_dependencies.len() - k,
        {
            let entry = &self.location_dependencies[k];
            let ghost before = r@;
            r.push(&entry.0);
            proof {
                assert(ref_views(r@) =~= ref_views(before) + seq![entry.0@]);
            }
            push_all(&mut r, &entry.1.ctrl_deps);
            let ghost base = ref_views(r@);
            let mut i: usize = 0;
            while i < entry.1.input_deps.len()
                invariant
                    i <= entry.1.input_deps.len(),
                    ref_views(r@) == base + flattened(entry.1.input_deps@, i as nat),
                decreases entry.1.input_deps.len() - i,
            {
                push_all(&mut r, &entry.1.input_deps[i]);
                i = i + 1;
            }
            k = k + 1;
        }
        r
    }
}

} // verus!
