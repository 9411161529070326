//! Inlining of callees into the graph of their caller.
//!
//! Every call of a procedure is looked at once. A call of a procedure that
//! is to be inlined is replaced by the graph of that procedure; the callee's
//! equations come along, nested under the call site, together with equations
//! that tie the actual arguments and the result to the callee's formal
//! arguments and return value. A call that stays gets equations that say, of
//! everything the callee may write, that it may stem from anything the callee
//! reads.

use crate::algebra::{equality_views, Equality, EqualityView, Operator, Term, TermView};
use crate::args::AnalysisCtrl;
use crate::edge::EdgeType;
use crate::global_location::{BodyId, GliAt, GlobalLocationInterner, Link};
use crate::graph::{DefId, Node, NodeView};
use crate::graph::{FlowView, FlowGraph};
use crate::inline::{
    call_node, Equation, EquationView, GlobalLocal, GlobalLocalView, GraphView, InlinedGraph, InlinedGraphView,
};
use crate::args::InconsequentialCallRemovalPolicy;
use crate::global_location::Location;
use crate::regal::Body;
use crate::reduce::{bypass, bypassed};
use crate::regal::{arg_num_to_local, argument_local, Call, Local, Program, RETURN_PLACE};
use crate::splice::{boundary, ends_valid, inlined_flows, inlined_nodes, listed_ends, splice};
use vstd::prelude::*;

verus! {

/// Decides which procedures are inlined and which calls carry meaning of
/// their own.
pub trait Oracle {
    /// Whether calls of the procedure are replaced by its graph.
    spec fn inlines(&self, did: BodyId) -> bool;

    /// Whether calls of the procedure must stay in the graph.
    spec fn meaningful(&self, did: DefId) -> bool;

    /// Whether calls of the procedure are replaced by its graph.
    fn should_inline(&self, did: BodyId) -> (r: bool)
        ensures
            r == self.inlines(did),
    ;

    /// Whether calls of the procedure must stay in the graph.
    fn is_semantically_meaningful(&self, did: DefId) -> (r: bool)
        ensures
            r == self.meaningful(did),
    ;
}

/// Inlines every procedure but the marked ones, whose calls carry meaning.
pub struct SkipAnnotatedFunctionSelector {
    /// The marked procedures.
    pub marked: Vec<DefId>,
}

impl SkipAnnotatedFunctionSelector {
    /// Whether the procedure is marked.
    pub open spec fn is_marked(&self, did: DefId) -> bool {
        self.marked@.contains(did)
    }

    /// Whether the procedure is marked.
    pub fn marks(&self, did: DefId) -> (r: bool)
        ensures
            r == self.is_marked(did),
    {
        let mut i: usize = 0;
        while i < self.marked.len()
            invariant
                i <= self.marked.len(),
                forall|j: int| 0 <= j < i ==> self.marked[j] != did,
            decreases self.marked.len() - i,
        {
            if self.marked[i] == did {
                return true;
            }
            i = i + 1;
        }
        false
    }
}

impl Oracle for SkipAnnotatedFunctionSelector {
    open spec fn inlines(&self, did: BodyId) -> bool {
        !self.is_marked(did as u64)
    }

    open spec fn meaningful(&self, did: DefId) -> bool {
        self.is_marked(did)
    }

    fn should_inline(&self, did: BodyId) -> (r: bool) {
        !self.marks(did as u64)
    }

    fn is_semantically_meaningful(&self, did: DefId) -> (r: bool) {
        self.marks(did)
    }
}

/// What is done with a call that does not stay as it is.
#[derive(Clone, Copy, PartialEq, Eq, Structural, Debug)]
pub enum InlineAction {
    /// The call is replaced by the graph of the procedure.
    SimpleInline(BodyId),
    /// The call turns a generator into a future: it is replaced by the graph
    /// of the generator, which receives the variable as its only argument.
    InlineAsyncClosure(BodyId, Local),
    /// The call polls a future: it is taken out, and what fed its first
    /// argument feeds what it fed.
    Drop,
}

/// The generator that a call hands over as its only argument, and the
/// variable that holds it.
pub open spec fn async_closure(program: &Program, call: &Call) -> Option<(BodyId, Local)> {
    if call.arguments.len() == 1 && call.arguments[0] is Some && call.generator is Some
        && program.local(call.generator->0) is Some {
        Some((program.local(call.generator->0)->0, call.arguments[0]->0.local))
    } else {
        None
    }
}

/// What is done with a call; None if it stays as it is.
pub open spec fn action_of<O: Oracle>(
    program: &Program,
    ctrl: &AnalysisCtrl,
    oracle: &O,
    call: &Call,
) -> Option<InlineAction> {
    if !ctrl.use_recursive_analysis {
        None
    } else if program.local(call.function) is Some && oracle.inlines(
        program.local(call.function)->0,
    ) {
        Some(InlineAction::SimpleInline(program.local(call.function)->0))
    } else if Some(call.function) == program.from_generator_fn && async_closure(program, call)
        is Some {
        match async_closure(program, call) {
            Some(c) => Some(InlineAction::InlineAsyncClosure(c.0, c.1)),
            None => None,
        }
    } else if Some(call.function) == program.future_poll_fn && ctrl.drop_poll {
        Some(InlineAction::Drop)
    } else {
        None
    }
}

/// Whether the optional procedure is the given one.
fn is_function(item: Option<DefId>, function: DefId) -> (r: bool)
    ensures
        r == (Some(function) == item),
{
    match item {
        Some(f) => f == function,
        None => false,
    }
}

/// The generator that a call hands over as its only argument.
fn closure_of(program: &Program, call: &Call) -> (r: Option<(BodyId, Local)>)
    ensures
        r == async_closure(program, call),
{
    if call.arguments.len() != 1 {
        return None;
    }
    match (&call.arguments[0], call.generator) {
        (Some(arg), Some(generator)) => match program.as_local(generator) {
            Some(b) => Some((b, arg.local)),
            None => None,
        },
        _ => None,
    }
}

/// Decides what is done with a call.
pub fn classify<O: Oracle>(program: &Program, ctrl: &AnalysisCtrl, oracle: &O, call: &Call) -> (r:
    Option<InlineAction>)
    ensures
        r == action_of(program, ctrl, oracle, call),
{
    if !ctrl.use_recursive_analysis() {
        return None;
    }
    match program.as_local(call.function) {
        Some(local) => {
            if oracle.should_inline(local) {
                return Some(InlineAction::SimpleInline(local));
            }
        },
        None => {},
    }
    if is_function(program.from_generator_fn, call.function) {
        match closure_of(program, call) {
            Some((b, local)) => {
                return Some(InlineAction::InlineAsyncClosure(b, local));
            },
            None => {},
        }
    }
    if is_function(program.future_poll_fn, call.function) && ctrl.drop_poll() {
        return Some(InlineAction::Drop);
    }
    None
}

/// A variable of the procedure whose graph is being made.
pub open spec fn at_root(local: Local) -> GlobalLocalView {
    GlobalLocalView { local, location: Seq::empty() }
}

/// The equation that says that `write` may stem from `read` in some unknown
/// way.
pub open spec fn may_write(write: Local, read: Local) -> EquationView {
    EqualityView {
        lhs: TermView { base: at_root(write), terms: seq![Operator::Unknown] },
        rhs: TermView::of_base(at_root(read)),
    }
}

/// The equation that says that two variables are the same.
pub open spec fn same_place(a: GlobalLocalView, b: GlobalLocalView) -> EquationView {
    EqualityView { lhs: TermView::of_base(a), rhs: TermView::of_base(b) }
}

/// The variables behind the first `k` arguments of a call through which the
/// callee may write.
pub open spec fn writeable_below(call: &Call, k: nat) -> Seq<Local>
    decreases k,
{
    if k == 0 {
        Seq::empty()
    } else {
        match call.arguments[k - 1] {
            Some(a) => if a.writeable {
                writeable_below(call, (k - 1) as nat).push(a.local)
            } else {
                writeable_below(call, (k - 1) as nat)
            },
            None => writeable_below(call, (k - 1) as nat),
        }
    }
}

/// The variables that the callee may write: the arguments through which it
/// may write, and the variable that receives the result.
pub open spec fn writeables(call: &Call) -> Seq<Local> {
    match call.return_to {
        Some(r) => writeable_below(call, call.arguments.len() as nat).push(r),
        None => writeable_below(call, call.arguments.len() as nat),
    }
}

/// The equations that tie `write` to each of the first `k` variables read,
/// but for itself.
pub open spec fn write_equations(write: Local, reads: Seq<Local>, k: nat) -> Seq<EquationView>
    decreases k,
{
    if k == 0 {
        Seq::empty()
    } else if reads[k - 1] != write {
        write_equations(write, reads, (k - 1) as nat).push(may_write(write, reads[k - 1]))
    } else {
        write_equations(write, reads, (k - 1) as nat)
    }
}

/// The equations for the first `k` variables that the callee may write.
pub open spec fn opaque_equations_below(writes: Seq<Local>, reads: Seq<Local>, k: nat) -> Seq<
    EquationView,
>
    decreases k,
{
    if k == 0 {
        Seq::empty()
    } else {
        opaque_equations_below(writes, reads, (k - 1) as nat) + write_equations(
            writes[k - 1],
            reads,
            reads.len(),
        )
    }
}

/// The equations of a call that stays as it is: whatever the callee may
/// write may stem, in some unknown way, from any argument that it reads.
pub open spec fn opaque_equations(call: &Call) -> Seq<EquationView> {
    opaque_equations_below(
        writeables(call),
        call.argument_locals_below(call.arguments.len() as nat),
        writeables(call).len(),
    )
}

/// The variables that the callee may write.
fn writeable_locals(call: &Call) -> (v: Vec<Local>)
    ensures
        v@ == writeables(call),
{
    let mut v: Vec<Local> = Vec::new();
    let mut k: usize = 0;
    while k < call.arguments.len()
        invariant
            k <= call.arguments.len(),
            v@ == writeable_below(call, k as nat),
        decreases call.arguments.len() - k,
    {
        match &call.arguments[k] {
            Some(a) => {
                if a.writeable {
                    v.push(a.local);
                }
            },
            None => {},
        }
        k = k + 1;
    }
    match call.return_to {
        Some(r) => {
            v.push(r);
        },
        None => {},
    }
    v
}

/// Appends the equations of a call that stays as it is.
pub fn add_opaque_equations(eqs: &mut Vec<Equation>, call: &Call)
    ensures
        equality_views(final(eqs)@) == equality_views(old(eqs)@) + opaque_equations(call),
{
    let writes = writeable_locals(call);
    let reads = call.argument_locals();
    let ghost start = equality_views(eqs@);
    let mut i: usize = 0;
    proof {
        assert(equality_views(eqs@) =~= start + opaque_equations_below(writes@, reads@, 0));
    }
    while i < writes.len()
        invariant
            i <= writes.len(),
            equality_views(eqs@) == start + opaque_equations_below(writes@, reads@, i as nat),
        decreases writes.len() - i,
    {
        let write = writes[i];
        let ghost before = equality_views(eqs@);
        let mut j: usize = 0;
        proof {
            assert(equality_views(eqs@) =~= before + write_equations(write, reads@, 0));
        }
        while j < reads.len()
            invariant
                j <= reads.len(),
                equality_views(eqs@) == before + write_equations(write, reads@, j as nat),
            decreases reads.len() - j,
        {
            let read = reads[j];
            if read != write {
                let ghost sofar = eqs@;
                let eq = Equality::new(
                    Term::new_base(GlobalLocal::at_root(write)).add_unknown(),
                    Term::new_base(GlobalLocal::at_root(read)),
                );
                eqs.push(eq);
                proof {
                    assert(Seq::<Operator>::empty().push(Operator::Unknown) =~= seq![
                        Operator::Unknown,
                    ]);
                    assert(eq@ == may_write(write, read));
                    assert(equality_views(eqs@) =~= equality_views(sofar).push(eq@));
                    assert(equality_views(eqs@) =~= before + write_equations(
                        write,
                        reads@,
                        (j + 1) as nat,
                    ));
                }
            }
            j = j + 1;
        }
        proof {
            assert(equality_views(eqs@) =~= start + opaque_equations_below(
                writes@,
                reads@,
                (i + 1) as nat,
            ));
        }
        i = i + 1;
    }
}

/// An equation of the callee, between variables seen from the caller.
pub open spec fn relativized_equation(e: EquationView, site: Link) -> EquationView {
    EqualityView {
        lhs: TermView {
            base: GlobalLocalView {
                local: e.lhs.base.local,
                location: seq![site] + e.lhs.base.location,
            },
            terms: e.lhs.terms,
        },
        rhs: TermView {
            base: GlobalLocalView {
                local: e.rhs.base.local,
                location: seq![site] + e.rhs.base.location,
            },
            terms: e.rhs.terms,
        },
    }
}

/// The equations of the callee, between variables seen from the caller.
pub open spec fn relativized_equations(eqs: Seq<EquationView>, site: Link) -> Seq<EquationView> {
    Seq::new(eqs.len(), |i: int| relativized_equation(eqs[i], site))
}

/// Appends the equations of the callee, seen from the caller.
pub fn relativize_eqs(eqs: &mut Vec<Equation>, equations: &Vec<Equation>, site: Link)
    ensures
        equality_views(final(eqs)@) == equality_views(old(eqs)@) + relativized_equations(
            equality_views(equations@),
            site,
        ),
{
    let ghost start = equality_views(eqs@);
    let ghost inner = equality_views(equations@);
    let mut i: usize = 0;
    proof {
        assert(equality_views(eqs@) =~= start + relativized_equations(inner, site).take(0));
    }
    while i < equations.len()
        invariant
            i <= equations.len(),
            inner == equality_views(equations@),
            equality_views(eqs@) == start + relativized_equations(inner, site).take(i as int),
        decreases equations.len() - i,
    {
        let eq = &equations[i];
        let lhs = eq.lhs().base().relativize(site);
        let rhs = eq.rhs().base().relativize(site);
        let ghost sofar = eqs@;
        let moved = eq.map_bases(lhs, rhs);
        eqs.push(moved);
        proof {
            assert(moved@ == relativized_equation(inner[i as int], site));
            assert(equality_views(eqs@) =~= equality_views(sofar).push(moved@));
            assert(relativized_equations(inner, site).take(i as int + 1)
                =~= relativized_equations(inner, site).take(i as int).push(moved@));
            assert(equality_views(eqs@) =~= start + relativized_equations(inner, site).take(
                i as int + 1,
            ));
        }
        i = i + 1;
    }
    proof {
        assert(relativized_equations(inner, site).take(equations.len() as int)
            =~= relativized_equations(inner, site));
    }
}

/// The equation that ties a variable of the caller to a variable of the
/// callee.
pub open spec fn parameter_equation(actual: Local, formal: Local, site: Link) -> EquationView {
    same_place(at_root(actual), GlobalLocalView { local: formal, location: seq![site] })
}

/// The equations that tie the first `k` arguments of a call to the formal
/// arguments of the callee.
pub open spec fn argument_equations(call: &Call, site: Link, k: nat) -> Seq<EquationView>
    decreases k,
{
    if k == 0 {
        Seq::empty()
    } else {
        match call.arguments[k - 1] {
            Some(a) => argument_equations(call, site, (k - 1) as nat).push(
                parameter_equation(a.local, argument_local((k - 1) as u32), site),
            ),
            None => argument_equations(call, site, (k - 1) as nat),
        }
    }
}

/// The equation that ties the variable that receives the result of a call
/// to the return value of the callee, if the call has such a variable.
pub open spec fn return_equations(call: &Call, site: Link) -> Seq<EquationView> {
    match call.return_to {
        Some(r) => seq![parameter_equation(r, RETURN_PLACE, site)],
        None => Seq::empty(),
    }
}

/// The equations that tie the arguments and the result of an inlined call
/// to the formal arguments and the return value of the callee. A generator
/// receives the variable that holds it as its only argument.
pub open spec fn parameter_equations(call: &Call, closure: Option<Local>, site: Link) -> Seq<
    EquationView,
> {
    match closure {
        Some(c) => seq![parameter_equation(c, argument_local(0), site)] + return_equations(
            call,
            site,
        ),
        None => argument_equations(call, site, call.arguments.len() as nat) + return_equations(
            call,
            site,
        ),
    }
}

/// Appends the equation that ties a variable of the caller to a variable of
/// the callee.
fn push_parameter_equation(eqs: &mut Vec<Equation>, actual: Local, formal: Local, site: Link)
    ensures
        equality_views(final(eqs)@) == equality_views(old(eqs)@).push(
            parameter_equation(actual, formal, site),
        ),
{
    let mut location: Vec<Link> = Vec::new();
    location.push(site);
    let ghost sofar = eqs@;
    let eq = Equality::new(
        Term::new_base(GlobalLocal::at_root(actual)),
        Term::new_base(GlobalLocal::relative(formal, location)),
    );
    eqs.push(eq);
    proof {
        assert(location@ =~= seq![site]);
        assert(eq@ == parameter_equation(actual, formal, site));
        assert(equality_views(eqs@) =~= equality_views(sofar).push(eq@));
    }
}

/// Appends the equations that tie the arguments and the result of an
/// inlined call to the formal arguments and the return value of the callee.
pub fn add_parameter_equations(
    eqs: &mut Vec<Equation>,
    call: &Call,
    closure: Option<Local>,
    site: Link,
)
    requires
        call.arguments.len() <= u32::MAX,
    ensures
        equality_views(final(eqs)@) == equality_views(old(eqs)@) + parameter_equations(
            call,
            closure,
            site,
        ),
{
    let ghost start = equality_views(eqs@);
    match closure {
        Some(c) => {
            push_parameter_equation(eqs, c, arg_num_to_local(0), site);
            proof {
                assert(equality_views(eqs@) =~= start + seq![
                    parameter_equation(c, argument_local(0), site),
                ]);
            }
        },
        None => {
            let mut k: usize = 0;
            proof {
                assert(equality_views(eqs@) =~= start + argument_equations(call, site, 0));
            }
            while k < call.arguments.len()
                invariant
                    k <= call.arguments.len(),
                    call.arguments.len() <= u32::MAX,
                    equality_views(eqs@) == start + argument_equations(call, site, k as nat),
                decreases call.arguments.len() - k,
            {
                match &call.arguments[k] {
                    Some(a) => {
                        push_parameter_equation(eqs, a.local, arg_num_to_local(k as u32), site);
                        proof {
                            assert(equality_views(eqs@) =~= start + argument_equations(
                                call,
                                site,
                                (k + 1) as nat,
                            ));
                        }
                    },
                    None => {},
                }
                k = k + 1;
            }
        },
    }
    let ghost middle = equality_views(eqs@);
    match call.return_to {
        Some(r) => {
            push_parameter_equation(eqs, r, RETURN_PLACE, site);
            proof {
                assert(equality_views(eqs@) =~= middle + return_equations(call, site));
            }
        },
        None => {
            proof {
                assert(equality_views(eqs@) =~= middle + return_equations(call, site));
            }
        },
    }
    proof {
        assert(equality_views(eqs@) =~= start + parameter_equations(call, closure, site));
    }
}

/// The sum of two counts, or the largest count if the sum is too large.
pub open spec fn saturating_sum(a: usize, b: usize) -> usize {
    if a + b > usize::MAX {
        usize::MAX
    } else {
        (a + b) as usize
    }
}

/// The sum of two counts, or the largest count if the sum is too large.
pub fn saturating_add(a: usize, b: usize) -> (r: usize)
    ensures
        r == saturating_sum(a, b),
{
    if a > usize::MAX - b {
        usize::MAX
    } else {
        a + b
    }
}

/// The graph of a caller once the graph of a callee has taken the place of
/// the call `t` at `site`.
pub open spec fn inlined_view(
    caller: InlinedGraphView,
    callee: InlinedGraphView,
    call: &Call,
    closure: Option<Local>,
    site: Link,
    t: NodeView,
) -> InlinedGraphView {
    InlinedGraphView {
        graph: GraphView {
            nodes: inlined_nodes(caller.graph.nodes, callee.graph.nodes, site, t),
            flows: inlined_flows(caller.graph.flows, callee.graph.flows, site, t),
        },
        equations: caller.equations + relativized_equations(callee.equations, site)
            + parameter_equations(call, closure, site),
        num_inlined: saturating_sum(caller.num_inlined, saturating_sum(1, callee.num_inlined)),
        max_call_stack_depth: if caller.max_call_stack_depth >= saturating_sum(
            callee.max_call_stack_depth,
            1,
        ) {
            caller.max_call_stack_depth
        } else {
            saturating_sum(callee.max_call_stack_depth, 1)
        },
    }
}

/// The equation of a dropped poll: the variable that receives the result is
/// the first argument.
pub open spec fn drop_equations(call: &Call) -> Seq<EquationView> {
    if call.return_to is Some && call.arguments.len() > 0 && call.arguments[0] is Some {
        seq![same_place(at_root(call.return_to->0), at_root(call.arguments[0]->0.local))]
    } else {
        Seq::empty()
    }
}

/// The graph of a caller once the call `t`, which polls a future, is taken
/// out: what fed its first argument feeds what it fed.
pub open spec fn dropped_view(caller: InlinedGraphView, call: &Call, t: NodeView) -> InlinedGraphView {
    InlinedGraphView {
        graph: GraphView {
            nodes: caller.graph.nodes.remove(t),
            flows: bypassed(caller.graph.flows, t, Some(EdgeType::Data(0))),
        },
        equations: caller.equations + drop_equations(call),
        num_inlined: caller.num_inlined,
        max_call_stack_depth: caller.max_call_stack_depth,
    }
}

impl InlinedGraph {
    /// Replaces the call node `t`, which stands for `call` at `site`, by the
    /// graph of the callee, and lists the ends of the flows that cross the
    /// boundary of the callee.
    pub fn inline_callee(
        &mut self,
        gli: &mut GlobalLocationInterner,
        queue: &mut Vec<(Node, Node)>,
        callee: &InlinedGraph,
        call: &Call,
        closure: Option<Local>,
        site: GliAt,
        t: Node,
    )
        requires
            old(gli).wf(),
            old(self).wf(old(gli)),
            callee.wf(old(gli)),
            t.valid(old(gli)),
            ends_valid(old(gli), old(queue)@),
            call.arguments.len() <= u32::MAX,
        ensures
            final(gli).wf(),
            final(gli).extends(old(gli)),
            final(self).wf(final(gli)),
            ends_valid(final(gli), final(queue)@),
            final(self).view(final(gli)) == inlined_view(
                old(self).view(old(gli)),
                callee.view(old(gli)),
                call,
                closure,
                site.link(),
                t.view(old(gli)),
            ),
            listed_ends(final(gli), final(queue)@) == listed_ends(old(gli), old(queue)@).union(
                boundary(
                    old(self).view(old(gli)).graph.flows,
                    callee.view(old(gli)).graph.flows,
                    site.link(),
                    t.view(old(gli)),
                ),
            ),
    {
        self.num_inlined = saturating_add(self.num_inlined, saturating_add(1, callee.num_inlined));
        let depth = saturating_add(callee.max_call_stack_depth, 1);
        if depth > self.max_call_stack_depth {
            self.max_call_stack_depth = depth;
        }
        let link = Link { function: site.function, location: site.location };
        relativize_eqs(&mut self.equations, &callee.equations, link);
        add_parameter_equations(&mut self.equations, call, closure, link);
        splice(&mut self.graph, gli, queue, &callee.graph, site, t);
    }

    /// Takes out the call node `t`, which stands for the poll `call`: what
    /// fed its first argument feeds what it fed.
    pub fn drop_call(&mut self, gli: &GlobalLocationInterner, call: &Call, t: Node)
        requires
            gli.wf(),
            old(self).wf(gli),
            t.valid(gli),
        ensures
            final(self).wf(gli),
            final(self).view(gli) == dropped_view(old(self).view(gli), call, t.view(gli)),
    {
        bypass(&mut self.graph, gli, t, Some(EdgeType::Data(0)));
        let ghost sofar = self.equations@;
        match call.return_to {
            Some(r) => {
                if call.arguments.len() > 0 {
                    match &call.arguments[0] {
                        Some(arg) => {
                            let eq = Equality::new(
                                Term::new_base(GlobalLocal::at_root(r)),
                                Term::new_base(GlobalLocal::at_root(arg.local)),
                            );
                            self.equations.push(eq);
                            proof {
                                assert(equality_views(self.equations@) =~= equality_views(
                                    sofar,
                                ).push(eq@));
                            }
                        },
                        None => {},
                    }
                }
            },
            None => {},
        }
        proof {
            assert(equality_views(self.equations@) =~= equality_views(sofar) + drop_equations(
                call,
            ));
        }
    }
}

/// Whether the node `n` can be taken out without loss: a value flows into
/// it, something flows out of it, and it governs no control flow, unless the
/// policy lets such nodes go.
pub open spec fn no_significant_edge(
    flows: Set<FlowView>,
    n: NodeView,
    policy: InconsequentialCallRemovalPolicy,
) -> bool {
    &&& exists|x: NodeView, i: u32| flows.contains((x, n, EdgeType::Data(i)))
    &&& policy != InconsequentialCallRemovalPolicy::Aggressive ==> forall|y: NodeView|
        !flows.contains((n, y, EdgeType::Control))
    &&& exists|y: NodeView, ty: EdgeType| flows.contains((n, y, ty))
}

/// Whether the call can be taken out of the graph: its node is in the
/// graph, the call carries no meaning of its own, it is none of the calls that
/// are inlined, and its node can be taken out without loss.
pub open spec fn inconsequential<O: Oracle>(
    program: &Program,
    oracle: &O,
    policy: InconsequentialCallRemovalPolicy,
    g: GraphView,
    body_id: BodyId,
    location: Location,
    call: &Call,
) -> bool {
    &&& g.nodes.contains(call_node(body_id, location, call.function))
    &&& !oracle.meaningful(call.function)
    &&& Some(call.function) != program.from_generator_fn
    &&& !(program.local(call.function) is Some && oracle.inlines(program.local(call.function)->0))
    &&& no_significant_edge(g.flows, call_node(body_id, location, call.function), policy)
}

/// The graph once those of the calls from position `k` on are taken out
/// that could be taken out of the graph `before`.
pub open spec fn without_calls<O: Oracle>(
    program: &Program,
    oracle: &O,
    policy: InconsequentialCallRemovalPolicy,
    before: GraphView,
    body: &Body,
    body_id: BodyId,
    g: GraphView,
    k: nat,
) -> GraphView
    decreases body.calls.len() - k,
{
    if k >= body.calls.len() {
        g
    } else if inconsequential(
        program,
        oracle,
        policy,
        before,
        body_id,
        body.calls[k as int].0,
        &body.calls[k as int].1,
    ) {
        without_calls(
            program,
            oracle,
            policy,
            before,
            body,
            body_id,
            GraphView {
                nodes: g.nodes.remove(
                    call_node(body_id, body.calls[k as int].0, body.calls[k as int].1.function),
                ),
                flows: bypassed(
                    g.flows,
                    call_node(body_id, body.calls[k as int].0, body.calls[k as int].1.function),
                    None,
                ),
            },
            k + 1,
        )
    } else {
        without_calls(program, oracle, policy, before, body, body_id, g, k + 1)
    }
}

/// Whether the node can be taken out without loss.
fn check_no_significant_edge(
    g: &FlowGraph,
    gli: &GlobalLocationInterner,
    n: Node,
    policy: InconsequentialCallRemovalPolicy,
) -> (r: bool)
    requires
        gli.wf(),
        g.wf(),
        g.valid(gli),
        g.no_empty_edges(),
        n.valid(gli),
    ensures
        r == no_significant_edge(g.flows(gli), n.view(gli), policy),
{
    let ghost flows = g.flows(gli);
    let ghost nv = n.view(gli);
    let incoming = g.incoming_at(gli, n);
    let mut has_data = false;
    let mut i: usize = 0;
    while i < incoming.len()
        invariant
            i <= incoming.len(),
            has_data == exists|k: int|
                0 <= k < i && exists|a: u32|
                    (#[trigger] incoming[k]).1.types().contains(EdgeType::Data(a)),
        decreases incoming.len() - i,
    {
        if incoming[i].1.is_data() {
            has_data = true;
        }
        i = i + 1;
    }
    proof {
        if has_data {
            let k = choose|k: int|
                0 <= k < incoming.len() && exists|a: u32|
                    (#[trigger] incoming[k]).1.types().contains(EdgeType::Data(a));
            let a = choose|a: u32| incoming[k].1.types().contains(EdgeType::Data(a));
            assert(flows.contains((incoming[k].0.view(gli), nv, EdgeType::Data(a))));
        }
        if exists|x: NodeView, a: u32| flows.contains((x, nv, EdgeType::Data(a))) {
            let (x, a) = choose|x: NodeView, a: u32| flows.contains((x, nv, EdgeType::Data(a)));
            assert(flows.contains((x, nv, EdgeType::Data(a))));
            let k = choose|k: int|
                0 <= k < incoming.len() && (#[trigger] incoming[k]).0.view(gli) == x
                    && incoming[k].1.types().contains(EdgeType::Data(a));
            assert(incoming[k].1.types().contains(EdgeType::Data(a)));
        }
    }
    if !has_data {
        return false;
    }
    let outgoing = g.outgoing_at(gli, n);
    let mut j: usize = 0;
    while j < outgoing.len()
        invariant
            j <= outgoing.len(),
            crate::graph::targets_listed(gli, flows, nv, outgoing@),
            flows == g.flows(gli),
            nv == n.view(gli),
            has_data,
            has_data == exists|x: NodeView, i: u32| flows.contains((x, nv, EdgeType::Data(i))),
            forall|k: int|
                0 <= k < j ==> !((#[trigger] outgoing[k]).1.types().contains(EdgeType::Control)
                    && policy != InconsequentialCallRemovalPolicy::Aggressive),
        decreases outgoing.len() - j,
    {
        if outgoing[j].1.is_control() && !policy.remove_ctrl_flow_source() {
            proof {
                assert(flows.contains((nv, outgoing[j as int].0.view(gli), EdgeType::Control)));
            }
            return false;
        }
        j = j + 1;
    }
    proof {
        if policy != InconsequentialCallRemovalPolicy::Aggressive {
            assert forall|y: NodeView| !flows.contains((nv, y, EdgeType::Control)) by {
                if flows.contains((nv, y, EdgeType::Control)) {
                    let k = choose|k: int|
                        0 <= k < outgoing.len() && (#[trigger] outgoing[k]).0.view(gli) == y
                            && outgoing[k].1.types().contains(EdgeType::Control);
                    assert(false);
                }
            }
        }
        if outgoing.len() > 0 {
            assert(!(outgoing[0].1.types() =~= Set::<EdgeType>::empty()));
            let ty = choose|ty: EdgeType| outgoing[0].1.types().contains(ty);
            assert(flows.contains((nv, outgoing[0].0.view(gli), ty)));
        }
        if exists|y: NodeView, ty: EdgeType| flows.contains((nv, y, ty)) {
            let (y, ty) = choose|y: NodeView, ty: EdgeType| flows.contains((nv, y, ty));
            assert(flows.contains((nv, y, ty)));
        }
    }
    outgoing.len() > 0
}

impl InlinedGraph {
    /// Takes out of the graph of the procedure `body_id` every call that
    /// carries no meaning of its own, is none of the calls that are inlined
    /// and whose node can be taken out without loss. Whether a call can be
    /// taken out is decided on the graph as it is at first.
    pub fn remove_inconsequential_calls<O: Oracle>(
        &mut self,
        program: &Program,
        oracle: &O,
        policy: InconsequentialCallRemovalPolicy,
        gli: &mut GlobalLocationInterner,
        body_id: BodyId,
    )
        requires
            old(gli).wf(),
            old(self).wf(old(gli)),
            body_id < program.bodies.len(),
        ensures
            final(gli).wf(),
            final(gli).extends(old(gli)),
            final(self).wf(final(gli)),
            final(self).view(final(gli)).equations == old(self).view(old(gli)).equations,
            final(self).view(final(gli)).num_inlined == old(self).view(old(gli)).num_inlined,
            final(self).view(final(gli)).max_call_stack_depth == old(self).view(
                old(gli),
            ).max_call_stack_depth,
            final(self).view(final(gli)).graph == without_calls(
                program,
                oracle,
                policy,
                old(self).view(old(gli)).graph,
                &program.bodies[body_id as int],
                body_id,
                old(self).view(old(gli)).graph,
                0,
            ),
    {
        let body = &program.bodies[body_id];
        let ghost before = self.view(gli).graph;
        let mut nodes: Vec<Node> = Vec::new();
        let mut remove: Vec<bool> = Vec::new();
        let mut k: usize = 0;
        while k < body.calls.len()
            invariant
                k <= body.calls.len(),
                body == &program.bodies[body_id as int],
                gli.wf(),
                gli.extends(old(gli)),
                self.wf(gli),
                self.view(gli) == old(self).view(old(gli)),
                *self == *old(self),
                before == self.view(gli).graph,
                nodes.len() == k,
                remove.len() == k,
                forall|j: int|
                    0 <= j < k ==> (#[trigger] nodes[j]).valid(gli) && nodes[j].view(gli)
                        == call_node(body_id, body.calls[j].0, body.calls[j].1.function),
                forall|j: int|
                    0 <= j < k ==> #[trigger] remove[j] == inconsequential(
                        program,
                        oracle,
                        policy,
                        before,
                        body_id,
                        body.calls[j].0,
                        &body.calls[j].1,
                    ),
            decreases body.calls.len() - k,
        {
            let call = &body.calls[k].1;
            let ghost gli_before = *gli;
            let ghost nodes_before = nodes@;
            let n = Node::Call(gli.globalize_location(body.calls[k].0, body_id), call.function);
            proof {
                self.lemma_extends(gli, &gli_before);
                self.graph.lemma_node_view(gli, n);
                assert forall|j: int| 0 <= j < k implies (#[trigger] nodes[j]).valid(gli)
                    && nodes[j].view(gli) == call_node(
                    body_id,
                    body.calls[j].0,
                    body.calls[j].1.function,
                ) by {
                    nodes[j].lemma_extends_view(gli, &gli_before);
                }
            }
            let candidate = self.graph.contains_node(n) && !oracle.is_semantically_meaningful(
                call.function,
            ) && !is_function(program.from_generator_fn, call.function) && !(match program.as_local(
                call.function,
            ) {
                Some(local) => oracle.should_inline(local),
                None => false,
            }) && check_no_significant_edge(&self.graph, gli, n, policy);
            nodes.push(n);
            remove.push(candidate);
            k = k + 1;
        }
        let mut i: usize = 0;
        while i < body.calls.len()
            invariant
                i <= body.calls.len(),
                body == &program.bodies[body_id as int],
                gli.wf(),
                self.wf(gli),
                self.view(gli).equations == old(self).view(old(gli)).equations,
                self.view(gli).num_inlined == old(self).view(old(gli)).num_inlined,
                self.view(gli).max_call_stack_depth == old(self).view(old(gli)).max_call_stack_depth,
                nodes.len() == body.calls.len(),
                remove.len() == body.calls.len(),
                forall|j: int|
                    0 <= j < nodes.len() ==> (#[trigger] nodes[j]).valid(gli) && nodes[j].view(gli)
                        == call_node(body_id, body.calls[j].0, body.calls[j].1.function),
                forall|j: int|
                    0 <= j < remove.len() ==> #[trigger] remove[j] == inconsequential(
                        program,
                        oracle,
                        policy,
                        before,
                        body_id,
                        body.calls[j].0,
                        &body.calls[j].1,
                    ),
                without_calls(
                    program,
                    oracle,
                    policy,
                    before,
                    body,
                    body_id,
                    self.view(gli).graph,
                    i as nat,
                ) == without_calls(program, oracle, policy, before, body, body_id, before, 0),
            decreases body.calls.len() - i,
        {
            if remove[i] {
                bypass(&mut self.graph, gli, nodes[i], None);
            }
            i = i + 1;
        }
    }
}

} // verus!
