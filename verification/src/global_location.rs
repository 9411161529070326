//! Global locations: program points qualified by the chain of calls that
//! leads to them.
//!
//! A global location is a chain of links, outermost first. Each link names a
//! procedure and a point inside its body; every link but the last is the call
//! site through which the next link's procedure was entered. Locations are
//! interned: the interner hands out small copyable handles and guarantees that
//! two handles are equal exactly if the chains they stand for are equal.

use std::cmp::Ordering;
use vstd::prelude::*;

verus! {

/// Identifies a procedure with a body by its position in declaration order.
pub type BodyId = usize;

/// A program point inside the body of one procedure.
#[derive(Clone, Copy, PartialEq, Eq, Structural, Debug, Hash)]
pub struct Location {
    pub block: u32,
    pub statement_index: usize,
}

/// One link of a call chain: a point inside a procedure.
#[derive(Clone, Copy, PartialEq, Eq, Structural, Debug, Hash)]
pub struct Link {
    pub function: BodyId,
    pub location: Location,
}

/// Handle of an interned global location.
#[derive(Clone, Copy, PartialEq, Eq, Structural, Debug, Hash)]
pub struct GlobalLocation {
    pub id: usize,
}

/// The payload of a global location: its outermost link and the handle of
/// the rest of the chain.
#[derive(Clone, Copy, Debug)]
pub struct GlobalLocationS {
    /// The procedure in which this link's point lies.
    pub function: BodyId,
    /// The point itself.
    pub location: Location,
    /// The rest of the chain. If there is one, `location` is a call and the
    /// rest lies in the called procedure.
    pub next: Option<GlobalLocation>,
}

impl GlobalLocationS {
    /// The link that this payload starts with.
    pub open spec fn link(self) -> Link {
        Link { function: self.function, location: self.location }
    }

    /// Whether two payloads are the same.
    pub fn same(&self, other: &GlobalLocationS) -> (r: bool)
        ensures
            r == (*self == *other),
    {
        self.function == other.function && self.location == other.location && match (
            self.next,
            other.next,
        ) {
            (Some(a), Some(b)) => a == b,
            (None, None) => true,
            _ => false,
        }
    }
}

/// Each payload refers only to payloads stored before it, and no payload is
/// stored twice.
pub open spec fn arena_wf(a: Seq<GlobalLocationS>) -> bool {
    &&& forall|i: int|
        0 <= i < a.len() ==> ((#[trigger] a[i]).next matches Some(n) ==> n.id < i)
    &&& forall|i: int, j: int| 0 <= i < j < a.len() ==> a[i] != a[j]
}

/// The chain of links that the payload at position `id` stands for.
pub open spec fn chain_at(a: Seq<GlobalLocationS>, id: nat) -> Seq<Link>
    decreases id,
{
    if id >= a.len() {
        Seq::empty()
    } else {
        match a[id as int].next {
            Some(n) => if n.id < id {
                seq![a[id as int].link()] + chain_at(a, n.id as nat)
            } else {
                seq![a[id as int].link()]
            },
            None => seq![a[id as int].link()],
        }
    }
}

/// Order of two links: by procedure, then by block, then by statement.
/// Negative, zero or positive as the first is less than, equal to or greater
/// than the second.
pub open spec fn link_order(a: Link, b: Link) -> int {
    if a.function != b.function {
        if a.function < b.function {
            -1
        } else {
            1
        }
    } else if a.location.block != b.location.block {
        if a.location.block < b.location.block {
            -1
        } else {
            1
        }
    } else if a.location.statement_index != b.location.statement_index {
        if a.location.statement_index < b.location.statement_index {
            -1
        } else {
            1
        }
    } else {
        0
    }
}

/// Order of two chains: link by link from the outermost; a chain that ends
/// first is the lesser.
pub open spec fn chain_order(a: Seq<Link>, b: Seq<Link>) -> int
    decreases a.len(),
{
    if a.len() == 0 {
        if b.len() == 0 {
            0
        } else {
            -1
        }
    } else if b.len() == 0 {
        1
    } else if link_order(a[0], b[0]) != 0 {
        link_order(a[0], b[0])
    } else {
        chain_order(a.drop_first(), b.drop_first())
    }
}

/// Chains are ordered as equal exactly if they are the same chain.
pub proof fn lemma_chain_order_equal(a: Seq<Link>, b: Seq<Link>)
    ensures
        (chain_order(a, b) == 0) == (a == b),
    decreases a.len(),
{
    if a.len() == 0 || b.len() == 0 {
        if a.len() == 0 && b.len() == 0 {
            assert(a =~= b);
        }
    } else {
        lemma_chain_order_equal(a.drop_first(), b.drop_first());
        if link_order(a[0], b[0]) == 0 && a.drop_first() == b.drop_first() {
            assert(a[0] == b[0]);
            assert(a =~= seq![a[0]] + a.drop_first());
            assert(b =~= seq![b[0]] + b.drop_first());
        }
    }
}

/// Swapping the two chains reverses their order.
pub proof fn lemma_chain_order_antisymmetric(a: Seq<Link>, b: Seq<Link>)
    ensures
        chain_order(a, b) == -chain_order(b, a),
    decreases a.len(),
{
    if a.len() != 0 && b.len() != 0 {
        lemma_chain_order_antisymmetric(a.drop_first(), b.drop_first());
    }
}

/// The order of chains is transitive.
pub proof fn lemma_chain_order_transitive(a: Seq<Link>, b: Seq<Link>, c: Seq<Link>)
    requires
        chain_order(a, b) <= 0,
        chain_order(b, c) <= 0,
    ensures
        chain_order(a, c) <= 0,
        chain_order(a, b) < 0 || chain_order(b, c) < 0 ==> chain_order(a, c) < 0,
    decreases a.len(),
{
    if a.len() != 0 && b.len() != 0 && c.len() != 0 {
        if link_order(a[0], b[0]) == 0 && link_order(b[0], c[0]) == 0 {
            lemma_chain_order_transitive(a.drop_first(), b.drop_first(), c.drop_first());
        }
    }
}

/// Payloads at different valid positions of a well-formed arena stand for
/// different chains.
pub proof fn lemma_chain_injective(a: Seq<GlobalLocationS>, i: nat, j: nat)
    requires
        arena_wf(a),
        i < a.len(),
        j < a.len(),
        chain_at(a, i) == chain_at(a, j),
    ensures
        i == j,
    decreases i,
{
    let x = a[i as int];
    let y = a[j as int];
    assert(chain_at(a, i)[0] == x.link());
    assert(chain_at(a, j)[0] == y.link());
    match (x.next, y.next) {
        (Some(n), Some(m)) => {
            assert(chain_at(a, n.id as nat) =~= chain_at(a, i).drop_first());
            assert(chain_at(a, m.id as nat) =~= chain_at(a, j).drop_first());
            lemma_chain_injective(a, n.id as nat, m.id as nat);
        },
        (Some(n), None) => {
            lemma_chain_nonempty(a, n.id as nat);
        },
        (None, Some(m)) => {
            lemma_chain_nonempty(a, m.id as nat);
        },
        (None, None) => {},
    }
    assert(x == y);
}

/// A payload at a valid position stands for a chain of at least one link.
pub proof fn lemma_chain_nonempty(a: Seq<GlobalLocationS>, i: nat)
    requires
        i < a.len(),
    ensures
        chain_at(a, i).len() >= 1,
        chain_at(a, i)[0] == a[i as int].link(),
{
}

/// Appending payloads to an arena leaves the chains of the earlier payloads
/// as they were.
pub proof fn lemma_chain_prefix(a: Seq<GlobalLocationS>, b: Seq<GlobalLocationS>, i: nat)
    requires
        a.len() <= b.len(),
        forall|k: int| 0 <= k < a.len() ==> a[k] == b[k],
        i < a.len(),
    ensures
        chain_at(b, i) == chain_at(a, i),
    decreases i,
{
    match a[i as int].next {
        Some(n) => {
            if n.id < i {
                lemma_chain_prefix(a, b, n.id as nat);
            }
        },
        None => {},
    }
}

/// Interns global locations.
pub struct GlobalLocationInterner {
    arena: Vec<GlobalLocationS>,
}

impl GlobalLocationInterner {
    /// The payloads that were interned, in the order of their handles.
    pub closed spec fn view(&self) -> Seq<GlobalLocationS> {
        self.arena@
    }

    /// The invariant of the interner.
    pub open spec fn wf(&self) -> bool {
        arena_wf(self@)
    }

    /// Whether the handle was handed out by this interner.
    pub open spec fn valid(&self, loc: GlobalLocation) -> bool {
        loc.id < self@.len()
    }

    /// The chain of links that the handle stands for, outermost first.
    pub open spec fn chain(&self, loc: GlobalLocation) -> Seq<Link> {
        chain_at(self@, loc.id as nat)
    }

    /// Whether this interner holds everything that `before` held, under the
    /// same handles.
    pub open spec fn extends(&self, before: &Self) -> bool {
        &&& before@.len() <= self@.len()
        &&& forall|k: int| 0 <= k < before@.len() ==> before@[k] == self@[k]
    }

    /// The handle of a chain, if the interner holds the chain.
    pub open spec fn find(&self, chain: Seq<Link>) -> Option<GlobalLocation> {
        if exists|l: GlobalLocation| self.valid(l) && self.chain(l) == chain {
            Some(choose|l: GlobalLocation| self.valid(l) && self.chain(l) == chain)
        } else {
            None
        }
    }

    /// Handles are equal exactly if their chains are equal.
    pub proof fn lemma_equal_iff_same_chain(&self, a: GlobalLocation, b: GlobalLocation)
        requires
            self.wf(),
            self.valid(a),
            self.valid(b),
        ensures
            (a == b) == (self.chain(a) == self.chain(b)),
    {
        if self.chain(a) == self.chain(b) {
            lemma_chain_injective(self@, a.id as nat, b.id as nat);
        }
    }

    /// The handle of a chain is found again from the chain.
    pub proof fn lemma_find_chain(&self, a: GlobalLocation)
        requires
            self.wf(),
            self.valid(a),
        ensures
            self.find(self.chain(a)) == Some(a),
    {
        let l = choose|l: GlobalLocation| self.valid(l) && self.chain(l) == self.chain(a);
        self.lemma_equal_iff_same_chain(a, l);
    }

    /// A handle that was found stands for the chain it was found by.
    pub proof fn lemma_found(&self, chain: Seq<Link>)
        requires
            self.find(chain) is Some,
        ensures
            self.valid(self.find(chain)->0),
            self.chain(self.find(chain)->0) == chain,
    {
    }

    /// An interner that extends another keeps the chains of its handles.
    pub proof fn lemma_extends_chain(&self, before: &Self, a: GlobalLocation)
        requires
            self.extends(before),
            before.valid(a),
        ensures
            self.valid(a),
            self.chain(a) == before.chain(a),
    {
        lemma_chain_prefix(before@, self@, a.id as nat);
    }

    /// An interner that extends another finds what the other found.
    pub proof fn lemma_extends_find(&self, before: &Self, chain: Seq<Link>)
        requires
            self.wf(),
            self.extends(before),
            before.find(chain) is Some,
        ensures
            self.find(chain) == before.find(chain),
    {
        let a = before.find(chain)->0;
        self.lemma_extends_chain(before, a);
        self.lemma_find_chain(a);
    }

    /// Every chain has at least one link, and starts with the link of its
    /// payload.
    pub proof fn lemma_chain_head(&self, a: GlobalLocation)
        requires
            self.valid(a),
        ensures
            self.chain(a).len() >= 1,
            self.chain(a)[0] == self@[a.id as int].link(),
    {
        lemma_chain_nonempty(self@, a.id as nat);
    }

    /// The chain of a handle is its link followed by the chain of its rest.
    pub proof fn lemma_chain_unfold(&self, a: GlobalLocation)
        requires
            self.wf(),
            self.valid(a),
        ensures
            self@[a.id as int].next matches Some(n) ==> n.id < a.id && self.valid(n)
                && self.chain(a) == seq![self@[a.id as int].link()] + self.chain(n),
            self@[a.id as int].next is None ==> self.chain(a) == seq![self@[a.id as int].link()],
    {
    }

    /// An interner that holds no location.
    pub fn new() -> (gli: Self)
        ensures
            gli.wf(),
            gli@.len() == 0,
    {
        GlobalLocationInterner { arena: Vec::new() }
    }

    /// Number of locations that were interned.
    pub fn len(&self) -> (n: usize)
        ensures
            n == self@.len(),
    {
        self.arena.len()
    }

    /// Whether the handle was handed out by this interner.
    pub fn is_valid(&self, loc: GlobalLocation) -> (b: bool)
        ensures
            b == self.valid(loc),
    {
        loc.id < self.arena.len()
    }

    /// The handle of the payload: the one handed out before for an equal
    /// payload, or else a new one.
    pub fn intern_location(&mut self, loc: GlobalLocationS) -> (r: GlobalLocation)
        requires
            old(self).wf(),
            loc.next matches Some(n) ==> old(self).valid(n),
        ensures
            final(self).wf(),
            final(self).extends(old(self)),
            final(self).valid(r),
            final(self)@[r.id as int] == loc,
            final(self)@.len() <= old(self)@.len() + 1,
            final(self).chain(r) == seq![loc.link()] + match loc.next {
                Some(n) => old(self).chain(n),
                None => Seq::<Link>::empty(),
            },
    {
        let mut i: usize = 0;
        let mut found: Option<usize> = None;
        while i < self.arena.len()
            invariant_except_break
                found is None,
            invariant
                i <= self.arena.len(),
                self.arena@ == old(self).arena@,
                forall|k: int| 0 <= k < i ==> self.arena@[k] != loc,
            ensures
                found matches Some(k) ==> k < self.arena.len() && self.arena@[k as int] == loc,
                found is None ==> forall|k: int| 0 <= k < self.arena.len() ==> self.arena@[k] != loc,
            decreases self.arena.len() - i,
        {
            if self.arena[i].same(&loc) {
                found = Some(i);
                break ;
            }
            i = i + 1;
        }
        let r = match found {
            Some(k) => GlobalLocation { id: k },
            None => {
                let k = self.arena.len();
                self.arena.push(loc);
                GlobalLocation { id: k }
            },
        };
        proof {
            self.lemma_chain_unfold(r);
            match loc.next {
                Some(n) => {
                    self.lemma_extends_chain(old(self), n);
                },
                None => {},
            }
        }
        r
    }

    /// The location of a point of a procedure's body that no call chain
    /// leads to.
    pub fn globalize_location(&mut self, location: Location, function: BodyId) -> (r:
        GlobalLocation)
        requires
            old(self).wf(),
        ensures
            final(self).wf(),
            final(self).extends(old(self)),
            final(self).valid(r),
            final(self).chain(r) == seq![Link { function, location }],
    {
        self.intern_location(GlobalLocationS { function, location, next: None })
    }

    /// The location `relative_location` as reached through the call at
    /// `root_location` in `root_function`.
    pub fn global_location_from_relative(
        &mut self,
        relative_location: GlobalLocation,
        root_location: Location,
        root_function: BodyId,
    ) -> (r: GlobalLocation)
        requires
            old(self).wf(),
            old(self).valid(relative_location),
        ensures
            final(self).wf(),
            final(self).extends(old(self)),
            final(self).valid(r),
            final(self).chain(r) == seq![Link { function: root_function, location: root_location }]
                + old(self).chain(relative_location),
    {
        self.intern_location(
            GlobalLocationS {
                function: root_function,
                location: root_location,
                next: Some(relative_location),
            },
        )
    }

    /// The location that the chain stands for.
    pub fn intern_chain(&mut self, chain: &Vec<Link>) -> (r: GlobalLocation)
        requires
            old(self).wf(),
            chain.len() >= 1,
        ensures
            final(self).wf(),
            final(self).extends(old(self)),
            final(self).valid(r),
            final(self).chain(r) == chain@,
    {
        let mut k: usize = chain.len() - 1;
        let mut r = self.globalize_location(chain[k].location, chain[k].function);
        proof {
            assert(chain@.subrange(k as int, chain.len() as int) =~= seq![chain@[k as int]]);
        }
        while k > 0
            invariant
                k < chain.len(),
                self.wf(),
                self.extends(old(self)),
                self.valid(r),
                self.chain(r) == chain@.subrange(k as int, chain.len() as int),
            decreases k,
        {
            k = k - 1;
            let ghost before = *self;
            r = self.global_location_from_relative(r, chain[k].location, chain[k].function);
            proof {
                assert(chain@.subrange(k as int, chain.len() as int) =~= seq![chain@[k as int]]
                    + chain@.subrange(k as int + 1, chain.len() as int));
            }
        }
        proof {
            assert(chain@.subrange(0, chain.len() as int) =~= chain@);
        }
        r
    }
}

impl GlobalLocation {
    /// The payload of the location.
    pub fn as_global_location_s(self, gli: &GlobalLocationInterner) -> (s: GlobalLocationS)
        requires
            gli.valid(self),
        ensures
            s == gli@[self.id as int],
    {
        gli.arena[self.id]
    }

    /// The procedure of the outermost link.
    pub fn function(self, gli: &GlobalLocationInterner) -> (f: BodyId)
        requires
            gli.valid(self),
        ensures
            f == gli.chain(self)[0].function,
    {
        proof {
            gli.lemma_chain_head(self);
        }
        gli.arena[self.id].function
    }

    /// The point of the outermost link.
    pub fn location(self, gli: &GlobalLocationInterner) -> (l: Location)
        requires
            gli.valid(self),
        ensures
            l == gli.chain(self)[0].location,
    {
        proof {
            gli.lemma_chain_head(self);
        }
        gli.arena[self.id].location
    }

    /// The chain without its outermost link, if more than one link is left.
    pub fn next(self, gli: &GlobalLocationInterner) -> (n: Option<GlobalLocation>)
        requires
            gli.wf(),
            gli.valid(self),
        ensures
            n is None <==> gli.chain(self).len() == 1,
            n matches Some(m) ==> gli.valid(m) && m.id < self.id && gli.chain(m) == gli.chain(
                self,
            ).drop_first(),
    {
        proof {
            gli.lemma_chain_unfold(self);
            match gli@[self.id as int].next {
                Some(m) => {
                    gli.lemma_chain_head(m);
                    assert(gli.chain(m) =~= gli.chain(self).drop_first());
                },
                None => {},
            }
        }
        gli.arena[self.id].next
    }

    /// The location is not nested in a call.
    pub fn is_at_root(self, gli: &GlobalLocationInterner) -> (b: bool)
        requires
            gli.wf(),
            gli.valid(self),
        ensures
            b == (gli.chain(self).len() == 1),
    {
        self.next(gli).is_none()
    }

    /// The point of a location that is not nested in a call.
    pub fn as_local(self, gli: &GlobalLocationInterner) -> (l: Option<Location>)
        requires
            gli.wf(),
            gli.valid(self),
        ensures
            l == if gli.chain(self).len() == 1 {
                Some(gli.chain(self)[0].location)
            } else {
                None
            },
    {
        if self.next(gli).is_none() {
            Some(self.location(gli))
        } else {
            None
        }
    }

    /// The point and the procedure of the last link: where the instruction
    /// that this location names actually stands.
    pub fn innermost_location_and_body(self, gli: &GlobalLocationInterner) -> (r: (
        Location,
        BodyId,
    ))
        requires
            gli.wf(),
            gli.valid(self),
        ensures
            r.0 == gli.chain(self).last().location,
            r.1 == gli.chain(self).last().function,
    {
        let mut cur = self;
        loop
            invariant
                gli.wf(),
                gli.valid(cur),
                gli.chain(cur).len() >= 1,
                gli.chain(cur).last() == gli.chain(self).last(),
            decreases cur.id,
        {
            proof {
                gli.lemma_chain_head(cur);
            }
            match cur.next(gli) {
                Some(n) => {
                    proof {
                        gli.lemma_chain_head(n);
                    }
                    cur = n;
                },
                None => {
                    return (cur.location(gli), cur.function(gli));
                },
            }
        }
    }

    /// The point of the last link.
    pub fn innermost_location(self, gli: &GlobalLocationInterner) -> (l: Location)
        requires
            gli.wf(),
            gli.valid(self),
        ensures
            l == gli.chain(self).last().location,
    {
        self.innermost_location_and_body(gli).0
    }

    /// The procedure of the last link.
    pub fn innermost_function(self, gli: &GlobalLocationInterner) -> (f: BodyId)
        requires
            gli.wf(),
            gli.valid(self),
        ensures
            f == gli.chain(self).last().function,
    {
        self.innermost_location_and_body(gli).1
    }

    /// The outermost link.
    pub fn outermost(self, gli: &GlobalLocationInterner) -> (l: Link)
        requires
            gli.valid(self),
        ensures
            l == gli.chain(self)[0],
    {
        Link { function: self.function(gli), location: self.location(gli) }
    }

    /// The point of the outermost link.
    pub fn outermost_location(self, gli: &GlobalLocationInterner) -> (l: Location)
        requires
            gli.valid(self),
        ensures
            l == gli.chain(self)[0].location,
    {
        self.location(gli)
    }

    /// The second-to-last link of the chain, as the location that starts
    /// there: the call site that encloses the innermost point. None for a
    /// location that is not nested.
    pub fn parent(self, gli: &GlobalLocationInterner) -> (p: Option<GlobalLocation>)
        requires
            gli.wf(),
            gli.valid(self),
        ensures
            p is None <==> gli.chain(self).len() == 1,
            p matches Some(q) ==> gli.valid(q) && gli.chain(q) == gli.chain(self).subrange(
                gli.chain(self).len() - 2,
                gli.chain(self).len() as int,
            ),
    {
        let mut cur = self;
        let mut after = match self.next(gli) {
            Some(n) => n,
            None => {
                return None;
            },
        };
        let ghost full = gli.chain(self);
        proof {
            gli.lemma_chain_head(after);
            assert(gli.chain(self).subrange(0, full.len() as int) =~= full);
        }
        loop
            invariant
                gli.wf(),
                gli.valid(cur),
                gli.valid(after),
                full == gli.chain(self),
                full.len() >= 2,
                after.id < cur.id,
                gli.chain(after) == gli.chain(cur).drop_first(),
                gli.chain(cur).len() <= full.len(),
                gli.chain(cur) == full.subrange(full.len() - gli.chain(cur).len(), full.len() as int),
            decreases cur.id,
        {
            match after.next(gli) {
                Some(n) => {
                    proof {
                        gli.lemma_chain_head(n);
                        gli.lemma_chain_head(after);
                        assert(gli.chain(after) =~= full.subrange(
                            full.len() - gli.chain(after).len(),
                            full.len() as int,
                        ));
                    }
                    cur = after;
                    after = n;
                },
                None => {
                    return Some(cur);
                },
            }
        }
    }

    /// The chain of the location as a vector of its links, outermost first.
    pub fn links(self, gli: &GlobalLocationInterner) -> (v: Vec<Link>)
        requires
            gli.wf(),
            gli.valid(self),
        ensures
            v@ == gli.chain(self),
    {
        let mut v: Vec<Link> = Vec::new();
        let mut cur = self;
        loop
            invariant
                gli.wf(),
                gli.valid(cur),
                v@ + gli.chain(cur) == gli.chain(self),
            decreases cur.id,
        {
            proof {
                gli.lemma_chain_head(cur);
            }
            let ghost before = v@;
            v.push(cur.outermost(gli));
            match cur.next(gli) {
                Some(n) => {
                    proof {
                        assert(v@ + gli.chain(n) =~= before + gli.chain(cur));
                    }
                    cur = n;
                },
                None => {
                    proof {
                        assert(v@ =~= before + gli.chain(cur));
                    }
                    return v;
                },
            }
        }
    }

    /// The chain of the calls that enclose the innermost point: the chain
    /// without its last link.
    pub fn call_stack(self, gli: &GlobalLocationInterner) -> (v: Vec<Link>)
        requires
            gli.wf(),
            gli.valid(self),
        ensures
            v@ == gli.chain(self).drop_last(),
    {
        let mut v = self.links(gli);
        proof {
            gli.lemma_chain_head(self);
        }
        v.pop();
        v
    }

    /// This location and each location that is left when outermost links are
    /// taken away one by one.
    pub fn iter(self, gli: &GlobalLocationInterner) -> (v: Vec<GlobalLocation>)
        requires
            gli.wf(),
            gli.valid(self),
        ensures
            v.len() == gli.chain(self).len(),
            forall|i: int|
                0 <= i < v.len() ==> gli.valid(#[trigger] v[i]) && gli.chain(v[i]) == gli.chain(
                    self,
                ).subrange(i, gli.chain(self).len() as int),
    {
        let mut v: Vec<GlobalLocation> = Vec::new();
        let mut cur = self;
        let ghost full = gli.chain(self);
        proof {
            assert(full.subrange(0, full.len() as int) =~= full);
        }
        loop
            invariant
                gli.wf(),
                gli.valid(cur),
                full == gli.chain(self),
                v.len() + gli.chain(cur).len() == full.len(),
                gli.chain(cur) == full.subrange(v.len() as int, full.len() as int),
                forall|i: int|
                    0 <= i < v.len() ==> gli.valid(#[trigger] v[i]) && gli.chain(v[i])
                        == full.subrange(i, full.len() as int),
            decreases cur.id,
        {
            proof {
                gli.lemma_chain_head(cur);
            }
            v.push(cur);
            match cur.next(gli) {
                Some(n) => {
                    proof {
                        assert(gli.chain(n) =~= full.subrange(v.len() as int, full.len() as int));
                    }
                    cur = n;
                },
                None => {
                    return v;
                },
            }
        }
    }

    /// Compares two locations by their chains.
    pub fn cmp(self, other: GlobalLocation, gli: &GlobalLocationInterner) -> (o: Ordering)
        requires
            gli.wf(),
            gli.valid(self),
            gli.valid(other),
        ensures
            o is Less <==> chain_order(gli.chain(self), gli.chain(other)) < 0,
            o is Equal <==> chain_order(gli.chain(self), gli.chain(other)) == 0,
            o is Greater <==> chain_order(gli.chain(self), gli.chain(other)) > 0,
            o is Equal <==> self == other,
    {
        proof {
            lemma_chain_order_equal(gli.chain(self), gli.chain(other));
            gli.lemma_equal_iff_same_chain(self, other);
        }
        let mut a = self;
        let mut b = other;
        loop
            invariant
                gli.wf(),
                gli.valid(a),
                gli.valid(b),
                chain_order(gli.chain(a), gli.chain(b)) == chain_order(
                    gli.chain(self),
                    gli.chain(other),
                ),
                (chain_order(gli.chain(self), gli.chain(other)) == 0) == (self == other),
            decreases a.id,
        {
            proof {
                gli.lemma_chain_head(a);
                gli.lemma_chain_head(b);
            }
            let la = a.outermost(gli);
            let lb = b.outermost(gli);
            if la.function != lb.function {
                return if la.function < lb.function {
                    Ordering::Less
                } else {
                    Ordering::Greater
                };
            }
            if la.location.block != lb.location.block {
                return if la.location.block < lb.location.block {
                    Ordering::Less
                } else {
                    Ordering::Greater
                };
            }
            if la.location.statement_index != lb.location.statement_index {
                return if la.location.statement_index < lb.location.statement_index {
                    Ordering::Less
                } else {
                    Ordering::Greater
                };
            }
            match (a.next(gli), b.next(gli)) {
                (Some(na), Some(nb)) => {
                    a = na;
                    b = nb;
                },
                (None, None) => {
                    proof {
                        assert(chain_order(gli.chain(a).drop_first(), gli.chain(b).drop_first())
                            == 0);
                    }
                    return Ordering::Equal;
                },
                (None, Some(nb)) => {
                    proof {
                        gli.lemma_chain_head(nb);
                        assert(chain_order(gli.chain(a).drop_first(), gli.chain(b).drop_first())
                            == -1);
                    }
                    return Ordering::Less;
                },
                (Some(na), None) => {
                    proof {
                        gli.lemma_chain_head(na);
                        assert(chain_order(gli.chain(a).drop_first(), gli.chain(b).drop_first())
                            == 1);
                    }
                    return Ordering::Greater;
                },
            }
        }
    }

    /// Compares two locations by their chains. Any two locations compare.
    pub fn partial_cmp(self, other: GlobalLocation, gli: &GlobalLocationInterner) -> (o: Option<
        Ordering,
    >)
        requires
            gli.wf(),
            gli.valid(self),
            gli.valid(other),
        ensures
            o is Some,
            o->0 is Less <==> chain_order(gli.chain(self), gli.chain(other)) < 0,
            o->0 is Equal <==> chain_order(gli.chain(self), gli.chain(other)) == 0,
            o->0 is Greater <==> chain_order(gli.chain(self), gli.chain(other)) > 0,
    {
        Some(self.cmp(other, gli))
    }

    /// A number that is the same for two locations exactly if they are the
    /// same location.
    pub fn stable_id(self) -> (id: usize)
        ensures
            id == self.id,
    {
        self.id
    }
}

/// A call site, under which the locations of the called procedure are
/// nested.
#[derive(Clone, Copy, Debug)]
pub struct GliAt {
    pub location: Location,
    pub function: BodyId,
}

impl GliAt {
    /// The link of the call site.
    pub open spec fn link(self) -> Link {
        Link { function: self.function, location: self.location }
    }

    /// The call site at `location` in `function`.
    pub fn at(location: Location, function: BodyId) -> (r: GliAt)
        ensures
            r.location == location,
            r.function == function,
    {
        GliAt { location, function }
    }

    /// The call site itself as a location.
    pub fn as_global_location(&self, gli: &mut GlobalLocationInterner) -> (r: GlobalLocation)
        requires
            old(gli).wf(),
        ensures
            final(gli).wf(),
            final(gli).extends(old(gli)),
            final(gli).valid(r),
            final(gli).chain(r) == seq![self.link()],
    {
        gli.globalize_location(self.location, self.function)
    }

    /// The location `relative` as reached through this call site.
    pub fn relativize(&self, gli: &mut GlobalLocationInterner, relative: GlobalLocation) -> (r:
        GlobalLocation)
        requires
            old(gli).wf(),
            old(gli).valid(relative),
        ensures
            final(gli).wf(),
            final(gli).extends(old(gli)),
            final(gli).valid(r),
            final(gli).chain(r) == seq![self.link()] + old(gli).chain(relative),
    {
        gli.global_location_from_relative(relative, self.location, self.function)
    }
}

} // verus!
