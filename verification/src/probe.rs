//! The engine's simplest client: a no-op operation that records its
//! completion in the shared context and can submit a chain of follow-up
//! operations from inside its own completion callback.

use vstd::prelude::*;

verus! {

use crate::RingError;
use crate::ring::{RingCtx, RingOp, Sqe, SqeView};

/// Shared context that records every completion it sees: the operation's
/// caller-chosen id together with the translated result it received.
pub struct OpLog {
    pub completions: Vec<(u64, Result<i32, RingError>)>,
}

impl OpLog {
    /// An empty log.
    pub fn new() -> (r: Self)
        ensures
            r.completions@ == Seq::<(u64, Result<i32, RingError>)>::empty(),
    {
        OpLog { completions: Vec::new() }
    }
}

/// A no-op operation: it asks the kernel for no work, records its completion
/// in the [`OpLog`], and — while `follow_ups` is positive and the completion
/// was a success — submits one follow-up no-op (with the same id and one
/// fewer remaining follow-up) from inside its completion callback.
pub struct NopOp {
    pub id: u64,
    pub follow_ups: u32,
}

impl RingOp<OpLog> for NopOp {
    open spec fn sqe_spec(&self) -> SqeView {
        SqeView::Nop
    }

    open spec fn result_spec(&self, res: i32) -> Result<i32, RingError> {
        crate::default_result_spec(res)
    }

    fn result(&self, res: i32) -> (r: Result<i32, RingError>) {
        crate::default_result(res)
    }

    fn entry(&mut self) -> (d: Sqe) {
        Sqe::Nop
    }

    fn complete(self, res: Result<i32, RingError>, ctx: &mut RingCtx<OpLog, Self>) -> (r: Result<
        (),
        RingError,
    >) {
        let ghost pre = *ctx;
        let log = ctx.ctx_mut();
        log.completions.push((self.id, res));
        let ghost mid = *ctx;
        proof {
            assert(RingCtx::extends(pre, mid));
        }
        if res.is_ok() && self.follow_ups > 0 {
            let next = NopOp { id: self.id, follow_ups: self.follow_ups - 1 };
            let pushed = ctx.push_prepared(next, Sqe::Nop);
            proof {
                RingCtx::lemma_extends_trans(pre, mid, *ctx);
            }
            match pushed {
                Ok(_) => Ok(()),
                Err(e) => Err(e),
            }
        } else {
            Ok(())
        }
    }
}

} // verus!
