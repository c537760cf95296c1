//! The host seam.

use vstd::prelude::*;

use crate::fuel::Fuel;

verus! {

/// The `func_id` of parameter resolution: `args[0]` is the parameter identifier
/// and `args[1..]` are its arguments.
pub const HOST_RESOLVE_PARAMETER: u16 = 0;

/// The whole of the machine's coupling to its surroundings: an identifier it does
/// not interpret, and a callback it does not implement.
///
/// The entry point is general rather than parameter-specific so that later host
/// capabilities are new `func_id` values rather than new trait methods: an added
/// method breaks every implementor, an added identifier does not.
///
/// # The host validates the argument count
///
/// `GETPARAM` declares how many operands it passes, so `args.len() - 1` is what
/// the *program* claims the parameter's arity to be. The host owns the registry
/// and is the only party that can tell the two apart: a program declaring the
/// wrong count should be declined, which reaches the program as
/// `HostCallUnresolved`. The machine neither knows nor checks.
pub trait VmHost {
    /// Whether this host may answer `reply` to `func_id` over `args`, turning the
    /// budget from `before` into `after`. A relation rather than a function: a
    /// host may keep state of its own. Unless a host says more, it may answer
    /// anything.
    open spec fn answers(
        &self,
        func_id: u16,
        args: Seq<u64>,
        before: Fuel,
        after: Fuel,
        reply: Option<u64>,
    ) -> bool {
        true
    }

    /// Invokes `func_id` over `args`, drawing from the caller's remaining budget.
    ///
    /// `None` propagates as a failed evaluation of the calling program. A host may
    /// spend fuel but not add any, and it hands the budget back at the nesting
    /// depth at which it was given.
    fn call(&self, func_id: u16, args: &[u64], fuel: &mut Fuel) -> (reply: Option<u64>)
        ensures
            final(fuel).remaining <= old(fuel).remaining,
            final(fuel).depth == old(fuel).depth,
            self.answers(func_id, args@, *old(fuel), *final(fuel), reply),
    ;
}

/// One host call, as the machine saw it: what it passed and what came back.
pub struct Exchange {
    /// The host function invoked.
    pub func_id: u16,
    /// The arguments handed over.
    pub args: Seq<u64>,
    /// The budget handed over.
    pub before: Fuel,
    /// The budget handed back.
    pub after: Fuel,
    /// The answer.
    pub reply: Option<u64>,
}

impl Exchange {
    /// The host spent fuel at most, and returned at the depth it was called at.
    pub open spec fn within_budget(self) -> bool {
        self.after.remaining <= self.before.remaining && self.after.depth == self.before.depth
    }

    /// `host` may have produced this exchange.
    pub open spec fn given_by<H: VmHost + ?Sized>(self, host: &H) -> bool {
        host.answers(self.func_id, self.args, self.before, self.after, self.reply)
    }
}

/// Every exchange of `trace` is one that `host` may have given.
pub open spec fn all_given_by<H: VmHost + ?Sized>(trace: Seq<Exchange>, host: &H) -> bool {
    forall|i: int| 0 <= i < trace.len() ==> (#[trigger] trace[i]).given_by(host)
}

/// A record holds what the host may have answered, all of it: each call with its
/// arguments, both budgets and the reply.
pub proof fn records_hold_what_the_host_may_answer<H: VmHost + ?Sized>(
    trace: Seq<Exchange>,
    host: &H,
    i: int,
)
    requires
        all_given_by(trace, host),
        0 <= i < trace.len(),
    ensures
        host.answers(
            trace[i].func_id,
            trace[i].args,
            trace[i].before,
            trace[i].after,
            trace[i].reply,
        ),
{
    assert(trace[i].given_by(host));
}

} // verus!
