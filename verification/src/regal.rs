//! Summaries of single procedures: for every call of a procedure, what its
//! arguments and its execution depend on, and which places the procedure's
//! statements equate.

use crate::algebra::Equality;
use crate::edge::MAX_ARGUMENTS;
use crate::global_location::{BodyId, Location};
use crate::graph::DefId;
use vstd::prelude::*;

verus! {

/// A variable of a procedure's body.
pub type Local = u32;

/// The variable that holds a procedure's return value.
pub const RETURN_PLACE: Local = 0;

/// The variable that holds the formal argument at a position.
pub open spec fn argument_local(position: u32) -> Local {
    if position < u32::MAX {
        (position + 1) as u32
    } else {
        u32::MAX
    }
}

/// The variable that holds the formal argument at a position.
pub fn arg_num_to_local(position: u32) -> (l: Local)
    ensures
        l == argument_local(position),
{
    if position < u32::MAX {
        position + 1
    } else {
        u32::MAX
    }
}

/// Where a value that a procedure reads comes from.
#[derive(Clone, Copy, PartialEq, Eq, Structural, Debug, Hash)]
pub enum Target {
    /// From the call at this point of the procedure.
    Call(Location),
    /// From the formal argument at this position.
    Argument(u32),
}

/// An argument of a call that is not a constant.
#[derive(Debug)]
pub struct Argument {
    /// The variable that is handed to the callee.
    pub local: Local,
    /// Where the value of the variable comes from.
    pub dependencies: Vec<Target>,
    /// Whether the callee may write through the argument.
    pub writeable: bool,
}

/// A call inside a procedure.
#[derive(Debug)]
pub struct Call {
    /// The procedure that is called.
    pub function: DefId,
    /// The arguments of the call, by position; None for a constant.
    pub arguments: Vec<Option<Argument>>,
    /// The variable that receives the result, if any.
    pub return_to: Option<Local>,
    /// What decides whether the call executes.
    pub ctrl_deps: Vec<Target>,
    /// For a call that turns a generator into a future: the generator.
    pub generator: Option<DefId>,
}

/// The summary of one procedure.
pub struct Body {
    /// The calls of the procedure, each with the point at which it stands.
    pub calls: Vec<(Location, Call)>,
    /// Where the return value comes from.
    pub return_deps: Vec<Target>,
    /// For each formal argument, where the value comes from that the
    /// procedure leaves in it.
    pub return_arg_deps: Vec<Vec<Target>>,
    /// The places that the statements of the procedure equate.
    pub equations: Vec<Equality<Local>>,
}

/// Position of the first call that stands at `location`, among the first
/// `k` calls.
pub open spec fn position_below(calls: Seq<(Location, Call)>, location: Location, k: nat) -> Option<
    int,
>
    decreases k,
{
    if k == 0 {
        None
    } else if position_below(calls, location, (k - 1) as nat) is Some {
        position_below(calls, location, (k - 1) as nat)
    } else if calls[k - 1].0 == location {
        Some(k - 1)
    } else {
        None
    }
}

/// What the position of a call tells: the call stands at the location, and
/// no earlier call does.
pub proof fn lemma_position_below(calls: Seq<(Location, Call)>, location: Location, k: nat)
    requires
        k <= calls.len(),
    ensures
        position_below(calls, location, k) matches Some(i) ==> 0 <= i < k && calls[i].0 == location
            && forall|j: int| 0 <= j < i ==> calls[j].0 != location,
        position_below(calls, location, k) is None ==> forall|j: int|
            0 <= j < k ==> calls[j].0 != location,
    decreases k,
{
    if k > 0 {
        lemma_position_below(calls, location, (k - 1) as nat);
    }
}

impl Call {
    /// Whether every dependency of the call names a call of `body`, and the
    /// arguments are few enough for an edge to record them. The limit of
    /// [`MAX_ARGUMENTS`] is that of the weight of an edge, which keeps the
    /// argument positions as the bits of a 16-bit number; a call with more
    /// arguments has no graph.
    pub open spec fn wf(&self, body: &Body) -> bool {
        &&& self.arguments.len() <= MAX_ARGUMENTS
        &&& body.targets_known(self.ctrl_deps@)
        &&& forall|j: int|
            0 <= j < self.arguments.len() ==> (#[trigger] self.arguments[j] matches Some(a)
                ==> body.targets_known(a.dependencies@))
    }

    /// The variables that the call hands to the callee, by position.
    pub open spec fn argument_locals_below(&self, k: nat) -> Seq<Local>
        decreases k,
    {
        if k == 0 {
            Seq::empty()
        } else {
            match self.arguments[k - 1] {
                Some(a) => self.argument_locals_below((k - 1) as nat).push(a.local),
                None => self.argument_locals_below((k - 1) as nat),
            }
        }
    }

    /// The variables that the call hands to the callee, by position.
    pub fn argument_locals(&self) -> (v: Vec<Local>)
        ensures
            v@ == self.argument_locals_below(self.arguments.len() as nat),
    {
        let mut v: Vec<Local> = Vec::new();
        let mut k: usize = 0;
        while k < self.arguments.len()
            invariant
                k <= self.arguments.len(),
                v@ == self.argument_locals_below(k as nat),
            decreases self.arguments.len() - k,
        {
            match &self.arguments[k] {
                Some(a) => {
                    v.push(a.local);
                },
                None => {},
            }
            k = k + 1;
        }
        v
    }
}

impl Body {
    /// Position of the call that stands at `location`.
    pub open spec fn position(&self, location: Location) -> Option<int> {
        position_below(self.calls@, location, self.calls.len() as nat)
    }

    /// The procedure that the call at `location` calls.
    pub open spec fn function_at(&self, location: Location) -> DefId {
        self.calls[self.position(location)->0].1.function
    }

    /// Whether every call that the targets name is a call of the procedure.
    pub open spec fn targets_known(&self, targets: Seq<Target>) -> bool {
        forall|k: int|
            0 <= k < targets.len() ==> (#[trigger] targets[k] matches Target::Call(c)
                ==> self.position(c) is Some)
    }

    /// The invariant of a summary: no two calls stand at one point, every
    /// dependency names a call of the procedure, no call has more arguments
    /// than an edge can record, and the positions of the formal arguments
    /// fit their type.
    pub open spec fn wf(&self) -> bool {
        &&& forall|i: int, j: int|
            0 <= i < j < self.calls.len() ==> (#[trigger] self.calls[i]).0 != (
            #[trigger] self.calls[j]).0
        &&& forall|i: int| 0 <= i < self.calls.len() ==> (#[trigger] self.calls[i]).1.wf(self)
        &&& self.targets_known(self.return_deps@)
        &&& forall|a: int|
            0 <= a < self.return_arg_deps.len() ==> self.targets_known(
                (#[trigger] self.return_arg_deps[a])@,
            )
        &&& self.return_arg_deps.len() <= u32::MAX
    }

    /// Position of the call that stands at `location`.
    pub fn call_at(&self, location: Location) -> (r: Option<usize>)
        ensures
            r is Some == self.position(location) is Some,
            r matches Some(i) ==> self.position(location) == Some(i as int) && i < self.calls.len()
                && self.calls[i as int].0 == location,
    {
        let mut i: usize = 0;
        while i < self.calls.len()
            invariant
                i <= self.calls.len(),
                position_below(self.calls@, location, i as nat) is None,
            decreases self.calls.len() - i,
        {
            if self.calls[i].0 == location {
                proof {
                    lemma_position_stable(self.calls@, location, (i + 1) as nat, self.calls.len() as nat);
                }
                return Some(i);
            }
            i = i + 1;
        }
        None
    }

    /// Whether every call that the targets name is a call of the procedure.
    pub fn knows_targets(&self, targets: &Vec<Target>) -> (r: bool)
        ensures
            r == self.targets_known(targets@),
    {
        let mut k: usize = 0;
        while k < targets.len()
            invariant
                k <= targets.len(),
                forall|j: int|
                    0 <= j < k ==> (#[trigger] targets[j] matches Target::Call(c) ==> self.position(
                        c,
                    ) is Some),
            decreases targets.len() - k,
        {
            match targets[k] {
                Target::Call(c) => {
                    if self.call_at(c).is_none() {
                        return false;
                    }
                },
                Target::Argument(_) => {},
            }
            k = k + 1;
        }
        true
    }

    /// Whether the call at position `i` meets its invariant.
    fn check_call(&self, i: usize) -> (r: bool)
        requires
            i < self.calls.len(),
        ensures
            r == self.calls[i as int].1.wf(self),
    {
        let call = &self.calls[i].1;
        if call.arguments.len() > MAX_ARGUMENTS as usize {
            return false;
        }
        if !self.knows_targets(&call.ctrl_deps) {
            return false;
        }
        let mut j: usize = 0;
        while j < call.arguments.len()
            invariant
                j <= call.arguments.len(),
                call == &self.calls[i as int].1,
                forall|k: int|
                    0 <= k < j ==> (#[trigger] call.arguments[k] matches Some(a)
                        ==> self.targets_known(a.dependencies@)),
            decreases call.arguments.len() - j,
        {
            match &call.arguments[j] {
                Some(a) => {
                    if !self.knows_targets(&a.dependencies) {
                        return false;
                    }
                },
                None => {},
            }
            j = j + 1;
        }
        true
    }

    /// Whether the summary meets its invariant.
    pub fn check(&self) -> (r: bool)
        ensures
            r == self.wf(),
    {
        if self.return_arg_deps.len() > u32::MAX as usize {
            return false;
        }
        let mut i: usize = 0;
        while i < self.calls.len()
            invariant
                i <= self.calls.len(),
                forall|a: int, b: int|
                    0 <= a < b < i ==> (#[trigger] self.calls[a]).0 != (#[trigger] self.calls[b]).0,
                forall|a: int| 0 <= a < i ==> (#[trigger] self.calls[a]).1.wf(self),
            decreases self.calls.len() - i,
        {
            let mut j: usize = 0;
            while j < i
                invariant
                    j <= i,
                    i < self.calls.len(),
                    forall|a: int| 0 <= a < j ==> (#[trigger] self.calls[a]).0 != self.calls[i as int].0,
                decreases i - j,
            {
                if self.calls[j].0 == self.calls[i].0 {
                    return false;
                }
                j = j + 1;
            }
            if !self.check_call(i) {
                return false;
            }
            i = i + 1;
        }
        if !self.knows_targets(&self.return_deps) {
            return false;
        }
        let mut a: usize = 0;
        while a < self.return_arg_deps.len()
            invariant
                a <= self.return_arg_deps.len(),
                forall|k: int|
                    0 <= k < a ==> self.targets_known((#[trigger] self.return_arg_deps[k])@),
            decreases self.return_arg_deps.len() - a,
        {
            if !self.knows_targets(&self.return_arg_deps[a]) {
                return false;
            }
            a = a + 1;
        }
        true
    }
}

/// A call that was found among the first calls is found among all.
pub proof fn lemma_position_stable(calls: Seq<(Location, Call)>, location: Location, k: nat, n: nat)
    requires
        k <= n,
        position_below(calls, location, k) is Some,
    ensures
        position_below(calls, location, n) == position_below(calls, location, k),
    decreases n - k,
{
    if k < n {
        lemma_position_stable(calls, location, k, (n - 1) as nat);
    }
}

/// The procedures of a program that have a body, and the procedures with a
/// special role.
pub struct Program {
    /// The summaries of the procedures with a body. The position of a
    /// summary is the number of its procedure.
    pub bodies: Vec<Body>,
    /// The procedure that turns a generator into a future, if the program
    /// has it.
    pub from_generator_fn: Option<DefId>,
    /// The procedure that polls a future, if the program has it.
    pub future_poll_fn: Option<DefId>,
}

impl Program {
    /// The invariant of a program: every summary meets its invariant.
    pub open spec fn wf(&self) -> bool {
        forall|b: int| 0 <= b < self.bodies.len() ==> (#[trigger] self.bodies[b]).wf()
    }

    /// The body of a procedure, if it has one.
    pub open spec fn local(&self, function: DefId) -> Option<BodyId> {
        if function < self.bodies.len() {
            Some(function as usize)
        } else {
            None
        }
    }

    /// The body of a procedure, if it has one.
    pub fn as_local(&self, function: DefId) -> (r: Option<BodyId>)
        ensures
            r == self.local(function),
    {
        if function < self.bodies.len() as u64 {
            Some(function as usize)
        } else {
            None
        }
    }

    /// Whether every summary meets its invariant.
    pub fn check(&self) -> (r: bool)
        ensures
            r == self.wf(),
    {
        let mut b: usize = 0;
        while b < self.bodies.len()
            invariant
                b <= self.bodies.len(),
                forall|k: int| 0 <= k < b ==> (#[trigger] self.bodies[k]).wf(),
            decreases self.bodies.len() - b,
        {
            if !self.bodies[b].check() {
                return false;
            }
            b = b + 1;
        }
        true
    }
}

} // verus!
