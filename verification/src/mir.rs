//! A procedure's body as far as the analysis reads it: places, the shape
//! of the blocks, and what each terminator calls.

use crate::algebra::Base;
use crate::global_location::Location;
use crate::graph::DefId;
use crate::regal::Local;
use vstd::prelude::*;

verus! {

/// One step from a place to a part of it, or to what it points to.
#[derive(Clone, Copy, PartialEq, Eq, Structural, Debug, Hash)]
pub enum ProjectionElem {
    Deref,
    Field(u32),
    Index(Local),
    ConstantIndex { offset: u64, min_length: u64, from_end: bool },
    Subslice { from: u64, to: u64, from_end: bool },
    Downcast(u32),
}

/// What can be asked of one step of a projection.
pub trait ProjectionElemExt {
    /// Whether the step selects a part of an aggregate.
    spec fn selects_part(self) -> bool;

    /// Whether the step selects a part of an aggregate, so that writing
    /// through it leaves the rest of the aggregate as it was.
    fn may_be_indirect(self) -> (r: bool)
        ensures
            r == self.selects_part(),
    ;
}

impl ProjectionElemExt for ProjectionElem {
    open spec fn selects_part(self) -> bool {
        self is Field || self is Index || self is ConstantIndex || self is Subslice
    }

    fn may_be_indirect(self) -> (r: bool) {
        matches!(
            self,
            ProjectionElem::Field(..) | ProjectionElem::Index(..) | ProjectionElem::ConstantIndex { .. }
                | ProjectionElem::Subslice { .. }
        )
    }
}

/// The value of a [`Place`].
pub struct PlaceView {
    pub local: Local,
    pub projection: Seq<ProjectionElem>,
}

/// A variable, or a part of a variable, or what a part of it points to.
#[derive(Debug)]
pub struct Place {
    pub local: Local,
    pub projection: Vec<ProjectionElem>,
}

impl View for Place {
    type V = PlaceView;

    open spec fn view(&self) -> PlaceView {
        PlaceView { local: self.local, projection: self.projection@ }
    }
}

/// A copy of the steps.
pub fn copy_projection(projection: &Vec<ProjectionElem>) -> (r: Vec<ProjectionElem>)
    ensures
        r@ == projection@,
{
    let mut r: Vec<ProjectionElem> = Vec::new();
    let mut i: usize = 0;
    while i < projection.len()
        invariant
            i <= projection.len(),
            r@ == projection@.take(i as int),
        decreases projection.len() - i,
    {
        r.push(projection[i]);
        proof {
            assert(projection@.take(i as int + 1) =~= projection@.take(i as int).push(
                projection@[i as int],
            ));
        }
        i = i + 1;
    }
    proof {
        assert(projection@.take(projection.len() as int) =~= projection@);
    }
    r
}

impl Base for Place {
    fn same(&self, other: &Place) -> (r: bool) {
        if self.local != other.local || self.projection.len() != other.projection.len() {
            return false;
        }
        let mut i: usize = 0;
        while i < self.projection.len()
            invariant
                i <= self.projection.len(),
                self.projection.len() == other.projection.len(),
                forall|j: int| 0 <= j < i ==> self.projection[j] == other.projection[j],
            decreases self.projection.len() - i,
        {
            if self.projection[i] != other.projection[i] {
                return false;
            }
            i = i + 1;
        }
        proof {
            assert(self.projection@ =~= other.projection@);
        }
        true
    }

    fn duplicate(&self) -> (r: Place) {
        Place { local: self.local, projection: copy_projection(&self.projection) }
    }
}

impl Place {
    /// The variable itself.
    pub fn from_local(local: Local) -> (p: Self)
        ensures
            p@ == (PlaceView { local, projection: Seq::empty() }),
    {
        Place { local, projection: Vec::new() }
    }

    /// Whether the place is reached through a pointer.
    pub fn is_indirect(&self) -> (r: bool)
        ensures
            r == self@.projection.contains(ProjectionElem::Deref),
    {
        let mut i: usize = 0;
        while i < self.projection.len()
            invariant
                i <= self.projection.len(),
                forall|j: int| 0 <= j < i ==> self.projection[j] != ProjectionElem::Deref,
            decreases self.projection.len() - i,
        {
            if self.projection[i] == ProjectionElem::Deref {
                return true;
            }
            i = i + 1;
        }
        false
    }

    /// Whether the place lies in one of the first `arg_count` formal
    /// arguments.
    pub fn is_arg(&self, arg_count: usize) -> (r: bool)
        ensures
            r == (0 < self.local <= arg_count),
    {
        self.local > 0 && (self.local as usize) <= arg_count
    }

    /// The place that the first `n` steps lead to.
    pub open spec fn prefix(p: PlaceView, n: int) -> PlaceView {
        PlaceView { local: p.local, projection: p.projection.take(n) }
    }

    /// The place that the first `n` steps lead to.
    pub fn truncated(&self, n: usize) -> (r: Place)
        requires
            n <= self.projection.len(),
        ensures
            r@ == Place::prefix(self@, n as int),
    {
        let mut projection: Vec<ProjectionElem> = Vec::new();
        let mut i: usize = 0;
        while i < n
            invariant
                i <= n <= self.projection.len(),
                projection@ == self.projection@.take(i as int),
            decreases n - i,
        {
            projection.push(self.projection[i]);
            proof {
                assert(self.projection@.take(i as int + 1) =~= self.projection@.take(i as int).push(
                    self.projection@[i as int],
                ));
            }
            i = i + 1;
        }
        Place { local: self.local, projection }
    }

    /// The place under further steps.
    pub fn project_deeper(&self, more: &Vec<ProjectionElem>) -> (r: Place)
        ensures
            r@ == (PlaceView { local: self@.local, projection: self@.projection + more@ }),
    {
        let mut projection = copy_projection(&self.projection);
        let mut i: usize = 0;
        while i < more.len()
            invariant
                i <= more.len(),
                projection@ == self.projection@ + more@.take(i as int),
            decreases more.len() - i,
        {
            projection.push(more[i]);
            proof {
                assert(more@.take(i as int + 1) =~= more@.take(i as int).push(more@[i as int]));
                assert(projection@ =~= self.projection@ + more@.take(i as int + 1));
            }
            i = i + 1;
        }
        proof {
            assert(more@.take(more.len() as int) =~= more@);
        }
        Place { local: self.local, projection }
    }

    /// The pointers through which the place is reached from step `n` on,
    /// from the innermost to the one nearest to step `n`.
    pub open spec fn pointers_from(p: PlaceView, n: nat) -> Seq<PlaceView>
        decreases p.projection.len() - n,
    {
        if n >= p.projection.len() {
            Seq::empty()
        } else if p.projection[n as int] == ProjectionElem::Deref {
            Place::pointers_from(p, n + 1).push(Place::prefix(p, n as int))
        } else {
            Place::pointers_from(p, n + 1)
        }
    }

    /// The place itself and the pointers through which it is reached: first
    /// the place, then the pointers from the innermost to the variable.
    pub open spec fn provenance_of(p: PlaceView) -> Seq<PlaceView> {
        seq![p] + Place::pointers_from(p, 0)
    }

    /// The place itself and the pointers through which it is reached.
    pub fn provenance(&self) -> (r: Vec<Place>)
        ensures
            place_views(r@) == Place::provenance_of(self@),
    {
        let mut r: Vec<Place> = Vec::new();
        r.push(self.duplicate());
        let mut n: usize = self.projection.len();
        proof {
            assert(place_views(r@) =~= seq![self@] + Place::pointers_from(self@, n as nat));
        }
        while n > 0
            invariant
                n <= self.projection.len(),
                place_views(r@) == seq![self@] + Place::pointers_from(self@, n as nat),
            decreases n,
        {
            n = n - 1;
            if self.projection[n] == ProjectionElem::Deref {
                let ghost before = r@;
                let p = self.truncated(n);
                r.push(p);
                proof {
                    assert(place_views(r@) =~= place_views(before).push(p@));
                    assert(place_views(r@) =~= seq![self@] + Place::pointers_from(self@, n as nat));
                }
            }
        }
        r
    }
}

/// The values of the places.
pub open spec fn place_views(places: Seq<Place>) -> Seq<PlaceView> {
    Seq::new(places.len(), |i: int| places[i]@)
}

/// Why a terminator is not a call of a known procedure.
#[derive(Clone, Copy, PartialEq, Eq, Structural, Debug)]
pub enum AsFnAndArgsErr {
    /// What is called is not a constant.
    NotAConstant,
    /// What is called is a constant that is not of a function type.
    NotFunctionType,
    /// What is called is not a constant at the level of values.
    NotValueLevelConstant,
    /// The terminator is no call.
    NotAFunctionCall,
}

/// What a call terminator calls.
#[derive(Clone, Copy, PartialEq, Eq, Structural, Debug)]
pub enum Callee {
    /// A procedure that is known.
    Function(DefId),
    /// A closure that is known.
    Closure(DefId),
    /// A constant of another type.
    OtherConstant,
    /// Something that is computed when the program runs.
    Computed,
}

/// How a block ends.
#[derive(Debug)]
pub enum TerminatorKind {
    /// A call: what is called, the arguments (None for a constant), and the
    /// place that receives the result together with the block that follows.
    Call { func: Callee, args: Vec<Option<Place>>, destination: Option<(Place, u32)> },
    /// The procedure returns.
    Return,
    /// Anything else.
    Other,
}

/// What a call of a known procedure consists of: the procedure, the
/// arguments, and the destination.
pub struct FnAndArgsView {
    pub function: DefId,
    pub args: Seq<Option<PlaceView>>,
    pub destination: Option<(PlaceView, u32)>,
}

/// The values of the arguments.
pub open spec fn argument_views(args: Seq<Option<Place>>) -> Seq<Option<PlaceView>> {
    Seq::new(
        args.len(),
        |i: int|
            match args[i] {
                Some(p) => Some(p@),
                None => None,
            },
    )
}

/// Copies of the arguments.
pub fn copy_arguments(args: &Vec<Option<Place>>) -> (r: Vec<Option<Place>>)
    ensures
        argument_views(r@) == argument_views(args@),
{
    let mut r: Vec<Option<Place>> = Vec::new();
    let mut i: usize = 0;
    while i < args.len()
        invariant
            i <= args.len(),
            r.len() == i,
            forall|j: int| 0 <= j < i ==> argument_views(r@)[j] == argument_views(args@)[j],
        decreases args.len() - i,
    {
        let ghost before = r@;
        match &args[i] {
            Some(p) => {
                r.push(Some(p.duplicate()));
            },
            None => {
                r.push(None);
            },
        }
        proof {
            assert forall|j: int| 0 <= j < i + 1 implies argument_views(r@)[j] == argument_views(
                args@,
            )[j] by {
                if j < i {
                    assert(r@[j] == before[j]);
                    assert(argument_views(before)[j] == argument_views(args@)[j]);
                }
            }
        }
        i = i + 1;
    }
    proof {
        assert(argument_views(r@) =~= argument_views(args@));
    }
    r
}

impl TerminatorKind {
    /// What the terminator is as a call of a known procedure, or why it is
    /// none.
    pub open spec fn call_of(&self) -> Result<FnAndArgsView, AsFnAndArgsErr> {
        match self {
            TerminatorKind::Call { func, args, destination } => match func {
                Callee::Function(d) | Callee::Closure(d) => Ok(
                    FnAndArgsView {
                        function: *d,
                        args: argument_views(args@),
                        destination: match destination {
                            Some(d) => Some((d.0@, d.1)),
                            None => None,
                        },
                    },
                ),
                Callee::OtherConstant => Err(AsFnAndArgsErr::NotFunctionType),
                Callee::Computed => Err(AsFnAndArgsErr::NotAConstant),
            },
            _ => Err(AsFnAndArgsErr::NotAFunctionCall),
        }
    }

    /// Takes a call of a known procedure apart: the procedure, the
    /// arguments and the destination.
    pub fn as_fn_and_args(&self) -> (r: Result<
        (DefId, Vec<Option<Place>>, Option<(Place, u32)>),
        AsFnAndArgsErr,
    >)
        ensures
            match r {
                Ok(c) => self.call_of() == Ok::<FnAndArgsView, AsFnAndArgsErr>(
                    FnAndArgsView {
                        function: c.0,
                        args: argument_views(c.1@),
                        destination: match c.2 {
                            Some(d) => Some((d.0@, d.1)),
                            None => None,
                        },
                    },
                ),
                Err(e) => self.call_of() == Err::<FnAndArgsView, AsFnAndArgsErr>(e),
            },
    {
        match self {
            TerminatorKind::Call { func, args, destination } => {
                let function = match func {
                    Callee::Function(d) => *d,
                    Callee::Closure(d) => *d,
                    Callee::OtherConstant => {
                        return Err(AsFnAndArgsErr::NotFunctionType);
                    },
                    Callee::Computed => {
                        return Err(AsFnAndArgsErr::NotAConstant);
                    },
                };
                let destination = match destination {
                    Some(d) => Some((d.0.duplicate(), d.1)),
                    None => None,
                };
                Ok((function, copy_arguments(args), destination))
            },
            _ => Err(AsFnAndArgsErr::NotAFunctionCall),
        }
    }
}

/// What an assignment computes.
#[derive(Debug)]
pub enum Rvalue {
    /// A value built from parts, one for each field; None for a part that
    /// is a constant.
    Aggregate(Vec<Option<Place>>),
    /// Anything else, with the places that it mentions.
    Other(Vec<Place>),
}

/// A statement of a block.
#[derive(Debug)]
pub enum Statement {
    /// Gives the place the value.
    Assign(Place, Rvalue),
    /// A statement that mentions no place.
    Other,
}

/// Why no single part of an aggregate stands for what is read later.
#[derive(Clone, Copy, PartialEq, Eq, Structural, Debug)]
pub enum AggregateErr {
    /// It is not known what is read later.
    NoReadAfter,
    /// What is read later is the whole aggregate.
    ProjectionTooShort,
    /// What is read later is not a field of the aggregate.
    NotAFieldProjection,
    /// The part for the field is a constant.
    Constant,
}

/// One block of a body: its statements, and how it ends.
#[derive(Debug)]
pub struct BasicBlockData {
    pub statements: Vec<Statement>,
    /// How the block ends.
    pub terminator: TerminatorKind,
    /// The places that the terminator mentions.
    pub terminator_reads: Vec<Place>,
}

/// Position of the last among the first `n` steps that selects a part of
/// an aggregate, if there is one.
pub open spec fn last_part(projection: Seq<ProjectionElem>, n: nat) -> Option<int>
    decreases n,
{
    if n == 0 {
        None
    } else if projection[n - 1].selects_part() {
        Some(n - 1)
    } else {
        last_part(projection, (n - 1) as nat)
    }
}

/// The places that are read when `dest` is written: where writing goes
/// through a step that selects a part of an aggregate, the rest of the
/// aggregate stays, so the aggregate counts as read, and so does every
/// place on the way to it.
pub open spec fn written_through(dest: PlaceView) -> Seq<PlaceView> {
    match last_part(dest.projection, dest.projection.len()) {
        Some(i) => Seq::new((i + 1) as nat, |k: int| Place::prefix(dest, k)),
        None => Seq::empty(),
    }
}

/// The places among the first `n` parts.
pub open spec fn operand_places(ops: Seq<Option<Place>>, n: nat) -> Seq<PlaceView>
    decreases n,
{
    if n == 0 {
        Seq::empty()
    } else {
        match ops[n - 1] {
            Some(p) => operand_places(ops, (n - 1) as nat).push(p@),
            None => operand_places(ops, (n - 1) as nat),
        }
    }
}

/// The part of the aggregate `ops`, assigned to `place`, that stands for
/// the place `read_after`, which is read later: if `read_after` is a field
/// of `place`, or lies in one, it is the part for that field, under the
/// steps that lead on from the field.
pub open spec fn aggregate_part(
    place: PlaceView,
    ops: Seq<Option<Place>>,
    read_after: Option<PlaceView>,
) -> Result<PlaceView, AggregateErr> {
    match read_after {
        None => Err(AggregateErr::NoReadAfter),
        Some(r) => if r.projection.len() <= place.projection.len() {
            Err(AggregateErr::ProjectionTooShort)
        } else {
            match r.projection[place.projection.len() as int] {
                ProjectionElem::Field(f) => match ops[f as int] {
                    Some(p) => Ok(
                        PlaceView {
                            local: p@.local,
                            projection: p@.projection + r.projection.skip(
                                place.projection.len() as int + 1,
                            ),
                        },
                    ),
                    None => Err(AggregateErr::Constant),
                },
                _ => Err(AggregateErr::NotAFieldProjection),
            }
        },
    }
}

/// Whether the part of an aggregate can be looked for: what is read later
/// has at least as many steps as the place that the aggregate is assigned
/// to, and if the next step is a field, the aggregate has a part for it.
pub open spec fn aggregate_fits(
    place: PlaceView,
    ops: Seq<Option<Place>>,
    read_after: Option<PlaceView>,
) -> bool {
    read_after matches Some(r) ==> r.projection.len() >= place.projection.len() && (
    r.projection.len() > place.projection.len() ==> (r.projection[place.projection.len() as int] matches ProjectionElem::Field(
        f,
    ) ==> f < ops.len()))
}

/// The places that a statement reads. Of an aggregate only the part that
/// stands for what is read later is read, if there is one.
pub open spec fn statement_reads(s: &Statement, read_after: Option<PlaceView>) -> Seq<PlaceView> {
    match s {
        Statement::Assign(dest, rvalue) => written_through(dest@) + match rvalue {
            Rvalue::Aggregate(ops) => match aggregate_part(dest@, ops@, read_after) {
                Ok(p) => seq![p],
                Err(_) => operand_places(ops@, ops.len() as nat),
            },
            Rvalue::Other(places) => place_views(places@),
        },
        Statement::Other => Seq::empty(),
    }
}

/// The part of the aggregate `ops`, assigned to `place`, that stands for
/// the place `read_after`.
pub fn handle_aggregate_assign(
    place: &Place,
    ops: &Vec<Option<Place>>,
    read_after: Option<&Place>,
) -> (r: Result<Place, AggregateErr>)
    requires
        aggregate_fits(
            place@,
            ops@,
            match read_after {
                Some(p) => Some(p@),
                None => None,
            },
        ),
    ensures
        match r {
            Ok(p) => aggregate_part(
                place@,
                ops@,
                match read_after {
                    Some(p) => Some(p@),
                    None => None,
                },
            ) == Ok::<PlaceView, AggregateErr>(p@),
            Err(e) => aggregate_part(
                place@,
                ops@,
                match read_after {
                    Some(p) => Some(p@),
                    None => None,
                },
            ) == Err::<PlaceView, AggregateErr>(e),
        },
{
    let read_after = match read_after {
        Some(p) => p,
        None => {
            return Err(AggregateErr::NoReadAfter);
        },
    };
    let n = place.projection.len();
    if read_after.projection.len() <= n {
        return Err(AggregateErr::ProjectionTooShort);
    }
    let f = match read_after.projection[n] {
        ProjectionElem::Field(f) => f,
        _ => {
            return Err(AggregateErr::NotAFieldProjection);
        },
    };
    match &ops[f as usize] {
        Some(p) => {
            let mut rest: Vec<ProjectionElem> = Vec::new();
            let mut i: usize = n + 1;
            while i < read_after.projection.len()
                invariant
                    n + 1 <= i <= read_after.projection.len(),
                    rest@ == read_after.projection@.subrange(n + 1, i as int),
                decreases read_after.projection.len() - i,
            {
                rest.push(read_after.projection[i]);
                proof {
                    assert(read_after.projection@.subrange(n + 1, i + 1)
                        =~= read_after.projection@.subrange(n + 1, i as int).push(
                        read_after.projection@[i as int],
                    ));
                }
                i = i + 1;
            }
            proof {
                assert(rest@ =~= read_after.projection@.skip(n + 1));
            }
            Ok(p.project_deeper(&rest))
        },
        None => Err(AggregateErr::Constant),
    }
}

/// The places that are read when `dest` is written.
fn places_written_through(dest: &Place) -> (r: Vec<Place>)
    ensures
        place_views(r@) == written_through(dest@),
{
    let mut n: usize = dest.projection.len();
    while n > 0
        invariant
            n <= dest.projection.len(),
            last_part(dest@.projection, dest@.projection.len()) == last_part(
                dest@.projection,
                n as nat,
            ),
        decreases n,
    {
        if dest.projection[n - 1].may_be_indirect() {
            let mut r: Vec<Place> = Vec::new();
            let mut k: usize = 0;
            while k < n
                invariant
                    k <= n <= dest.projection.len(),
                    r.len() == k,
                    forall|j: int| 0 <= j < k ==> (#[trigger] r[j])@ == Place::prefix(dest@, j),
                decreases n - k,
            {
                r.push(dest.truncated(k));
                k = k + 1;
            }
            proof {
                assert(place_views(r@) =~= written_through(dest@));
            }
            return r;
        }
        n = n - 1;
    }
    let r: Vec<Place> = Vec::new();
    proof {
        assert(place_views(r@) =~= written_through(dest@));
    }
    r
}

/// Adds copies of the parts that are places.
fn push_operands(r: &mut Vec<Place>, ops: &Vec<Option<Place>>)
    ensures
        place_views(final(r)@) == place_views(old(r)@) + operand_places(ops@, ops.len() as nat),
{
    let mut k: usize = 0;
    proof {
        assert(place_views(r@) =~= place_views(old(r)@) + operand_places(ops@, 0));
    }
    while k < ops.len()
        invariant
            k <= ops.len(),
            place_views(r@) == place_views(old(r)@) + operand_places(ops@, k as nat),
        decreases ops.len() - k,
    {
        let ghost mid = r@;
        match &ops[k] {
            Some(p) => {
                r.push(p.duplicate());
                proof {
                    assert(place_views(r@) =~= place_views(mid).push(p@));
                    assert(place_views(r@) =~= place_views(old(r)@) + operand_places(
                        ops@,
                        (k + 1) as nat,
                    ));
                }
            },
            None => {},
        }
        k = k + 1;
    }
}

/// Adds copies of the places.
fn push_places(r: &mut Vec<Place>, places: &Vec<Place>)
    ensures
        place_views(final(r)@) == place_views(old(r)@) + place_views(places@),
{
    let mut i: usize = 0;
    proof {
        assert(place_views(r@) =~= place_views(old(r)@) + place_views(places@.take(0)));
    }
    while i < places.len()
        invariant
            i <= places.len(),
            place_views(r@) == place_views(old(r)@) + place_views(places@.take(i as int)),
        decreases places.len() - i,
    {
        let ghost before = r@;
        r.push(places[i].duplicate());
        proof {
            assert(place_views(r@) =~= place_views(before).push(places[i as int]@));
            assert(place_views(places@.take(i + 1)) =~= place_views(places@.take(i as int)).push(
                places[i as int]@,
            ));
        }
        i = i + 1;
    }
    proof {
        assert(places@.take(places.len() as int) =~= places@);
    }
}

/// The body of a procedure.
#[derive(Debug)]
pub struct MirBody {
    pub basic_blocks: Vec<BasicBlockData>,
    /// Number of formal arguments.
    pub arg_count: usize,
    /// Whether the procedure returns nothing.
    pub returns_unit: bool,
}

/// Why there is nothing at a point of a body.
#[derive(Clone, Copy, PartialEq, Eq, Structural, Debug)]
pub enum StmtAtErr {
    /// The body has no such block.
    BasicBlockOutOfBound(u32),
    /// The block has no such statement.
    StatementIndexOutOfBounds(usize),
}

/// What stands at a point of a body: the statement with that index, or the
/// terminator.
#[derive(Clone, Copy, PartialEq, Eq, Structural, Debug)]
pub enum StmtAt {
    Statement(usize),
    Terminator,
}

impl MirBody {
    /// What stands at the point, or why nothing does.
    pub open spec fn at(&self, l: Location) -> Result<StmtAt, StmtAtErr> {
        if l.block >= self.basic_blocks.len() {
            Err(StmtAtErr::BasicBlockOutOfBound(l.block))
        } else if l.statement_index == self.basic_blocks[l.block as int].statements.len() {
            Ok(StmtAt::Terminator)
        } else if l.statement_index < self.basic_blocks[l.block as int].statements.len() {
            Ok(StmtAt::Statement(l.statement_index))
        } else {
            Err(StmtAtErr::StatementIndexOutOfBounds(l.statement_index))
        }
    }

    /// What stands at the point, or why nothing does.
    pub fn maybe_stmt_at(&self, l: Location) -> (r: Result<StmtAt, StmtAtErr>)
        ensures
            r == self.at(l),
    {
        if (l.block as usize) >= self.basic_blocks.len() {
            return Err(StmtAtErr::BasicBlockOutOfBound(l.block));
        }
        let n = self.basic_blocks[l.block as usize].statements.len();
        if l.statement_index == n {
            Ok(StmtAt::Terminator)
        } else if l.statement_index < n {
            Ok(StmtAt::Statement(l.statement_index))
        } else {
            Err(StmtAtErr::StatementIndexOutOfBounds(l.statement_index))
        }
    }

    /// The places that are read at the point when `read_after` is read
    /// later; none where nothing stands.
    pub open spec fn reads_before(&self, l: Location, read_after: Option<PlaceView>) -> Seq<PlaceView> {
        match self.at(l) {
            Ok(StmtAt::Statement(i)) => statement_reads(
                &self.basic_blocks[l.block as int].statements[i as int],
                read_after,
            ),
            Ok(StmtAt::Terminator) => place_views(self.basic_blocks[l.block as int].terminator_reads@),
            Err(_) => Seq::empty(),
        }
    }

    /// The places that are read at the point; none where nothing stands.
    pub open spec fn reads(&self, l: Location) -> Seq<PlaceView> {
        self.reads_before(l, None)
    }

    /// Whether the places that are read at the point can be looked for.
    pub open spec fn read_fits(&self, l: Location, read_after: Option<PlaceView>) -> bool {
        match self.at(l) {
            Ok(StmtAt::Statement(i)) => match self.basic_blocks[l.block as int].statements[i as int] {
                Statement::Assign(dest, Rvalue::Aggregate(ops)) => aggregate_fits(
                    dest@,
                    ops@,
                    read_after,
                ),
                _ => true,
            },
            _ => true,
        }
    }

    /// The places that the statement or terminator at the point reads; a
    /// place that is only assigned is not among them.
    pub fn places_read(&self, l: Location, stmt: StmtAt, read_after: Option<&Place>) -> (r: Vec<Place>)
        requires
            self.at(l) == Ok::<StmtAt, StmtAtErr>(stmt),
            self.read_fits(
                l,
                match read_after {
                    Some(p) => Some(p@),
                    None => None,
                },
            ),
        ensures
            place_views(r@) == self.reads_before(
                l,
                match read_after {
                    Some(p) => Some(p@),
                    None => None,
                },
            ),
    {
        match stmt {
            StmtAt::Statement(i) => match &self.basic_blocks[l.block as usize].statements[i] {
                Statement::Assign(dest, rvalue) => {
                    let mut r = places_written_through(dest);
                    match rvalue {
                        Rvalue::Aggregate(ops) => match handle_aggregate_assign(dest, ops, read_after) {
                            Ok(p) => {
                                let ghost before = r@;
                                r.push(p);
                                proof {
                                    assert(place_views(r@) =~= place_views(before) + seq![p@]);
                                }
                            },
                            Err(_) => {
                                push_operands(&mut r, ops);
                            },
                        },
                        Rvalue::Other(places) => {
                            push_places(&mut r, places);
                        },
                    }
                    r
                },
                Statement::Other => {
                    let r: Vec<Place> = Vec::new();
                    proof {
                        assert(place_views(r@) =~= Seq::<PlaceView>::empty());
                    }
                    r
                },
            },
            StmtAt::Terminator => {
                let mut r: Vec<Place> = Vec::new();
                proof {
                    assert(place_views(r@) =~= Seq::<PlaceView>::empty());
                }
                push_places(&mut r, &self.basic_blocks[l.block as usize].terminator_reads);
                proof {
                    assert(Seq::<PlaceView>::empty() + place_views(
                        self.basic_blocks[l.block as int].terminator_reads@,
                    ) =~= place_views(self.basic_blocks[l.block as int].terminator_reads@));
                }
                r
            },
        }
    }

    /// The places that are mentioned at the point, read or assigned. Of a
    /// call only the arguments are mentioned if the place that receives the
    /// result is to be left out.
    pub open spec fn mentions(&self, l: Location, exclude_return_places_from_call: bool) -> Seq<
        PlaceView,
    > {
        match self.at(l) {
            Ok(StmtAt::Statement(i)) => match self.basic_blocks[l.block as int].statements[i as int] {
                Statement::Assign(dest, Rvalue::Aggregate(ops)) => seq![dest@] + operand_places(
                    ops@,
                    ops.len() as nat,
                ),
                Statement::Assign(dest, Rvalue::Other(places)) => seq![dest@] + place_views(places@),
                Statement::Other => Seq::empty(),
            },
            Ok(StmtAt::Terminator) => match self.basic_blocks[l.block as int].terminator {
                TerminatorKind::Call { func, args, destination } => if exclude_return_places_from_call {
                    operand_places(args@, args.len() as nat)
                } else {
                    place_views(self.basic_blocks[l.block as int].terminator_reads@)
                },
                _ => place_views(self.basic_blocks[l.block as int].terminator_reads@),
            },
            Err(_) => Seq::empty(),
        }
    }

    /// The places that are mentioned at the point, read or assigned.
    pub fn extract_places(&self, l: Location, exclude_return_places_from_call: bool) -> (r: Vec<Place>)
        requires
            self.at(l) is Ok,
        ensures
            place_views(r@) == self.mentions(l, exclude_return_places_from_call),
    {
        let mut r: Vec<Place> = Vec::new();
        proof {
            assert(place_views(r@) =~= Seq::<PlaceView>::empty());
        }
        let block = &self.basic_blocks[l.block as usize];
        if l.statement_index < block.statements.len() {
            match &block.statements[l.statement_index] {
                Statement::Assign(dest, rvalue) => {
                    r.push(dest.duplicate());
                    proof {
                        assert(place_views(r@) =~= seq![dest@]);
                    }
                    match rvalue {
                        Rvalue::Aggregate(ops) => push_operands(&mut r, ops),
                        Rvalue::Other(places) => push_places(&mut r, places),
                    }
                },
                Statement::Other => {},
            }
        } else {
            match &block.terminator {
                TerminatorKind::Call { func, args, destination } => {
                    if exclude_return_places_from_call {
                        push_operands(&mut r, args);
                        proof {
                            assert(Seq::<PlaceView>::empty() + operand_places(args@, args.len() as nat)
                                =~= operand_places(args@, args.len() as nat));
                        }
                    } else {
                        push_places(&mut r, &block.terminator_reads);
                        proof {
                            assert(Seq::<PlaceView>::empty() + place_views(block.terminator_reads@)
                                =~= place_views(block.terminator_reads@));
                        }
                    }
                },
                _ => {
                    push_places(&mut r, &block.terminator_reads);
                    proof {
                        assert(Seq::<PlaceView>::empty() + place_views(block.terminator_reads@)
                            =~= place_views(block.terminator_reads@));
                    }
                },
            }
        }
        r
    }

    /// Whether the point lies in the body. Points past the last block stand
    /// for the formal arguments.
    pub fn is_real(&self, l: Location) -> (r: bool)
        ensures
            r == self.at(l) is Ok,
    {
        self.maybe_stmt_at(l).is_ok()
    }
}

} // verus!
