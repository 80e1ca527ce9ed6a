//! The completion-ring engine.
//!
//! Operations are pushed into the engine, which assigns each one a slot key in
//! the in-flight table, stages a submission descriptor tagged with that key,
//! and later — when the driver hands back the kernel's completion entries —
//! removes the operation by its tag and invokes its completion callback
//! exactly once, with a context that permits reentrant submission.
//!
//! The kernel queue pair itself is owned by an unverified driver. The driver
//! drains staged descriptors with [`Ring::pop_staged`], performs the kernel
//! calls, classifies their raw outcomes with [`classify_submit`],
//! [`classify_wait`] and [`classify_drain_wait`], and feeds harvested
//! completion entries back through [`Ring::process_completions`].
//!
//! Every submission is identified by a ghost ticket (a monotone counter),
//! distinct from its reusable slot key. The engine's invariant partitions the
//! tickets issued so far into the delivered ones and the in-flight ones, which
//! is what makes exactly-once delivery a theorem rather than a convention.

use vstd::prelude::*;

verus! {

use crate::RingError;
use crate::slot_table::SlotTable;

/// Linux errno for a device or resource that is busy; the kernel reports it
/// when the completion queue is saturated and must be drained before more
/// submissions are accepted.
pub const ERRNO_BUSY: i64 = 16;

/// Linux errno for an interrupted system call.
pub const ERRNO_INTERRUPTED: i64 = 4;

/// Linux errno for an expired timer; the kernel reports it when a bounded
/// wait for completions reaches its timeout.
pub const ERRNO_TIMER_EXPIRED: i64 = 62;

/// A submission descriptor: the closed set of request shapes an operation can
/// hand to the kernel.
#[derive(Debug)]
pub enum Sqe {
    /// A request that completes without performing any work.
    Nop,
    /// A hard-link request: create `new_path` (relative to the directory open
    /// at `new_dir_fd`) as a link to `old_path` (relative to `old_dir_fd`).
    /// The paths are NUL-free byte strings.
    LinkAt { old_dir_fd: i32, old_path: Vec<u8>, new_dir_fd: i32, new_path: Vec<u8> },
}

/// The mathematical value of a submission descriptor: as [`Sqe`], with the
/// path buffers read as byte sequences.
pub enum SqeView {
    Nop,
    LinkAt { old_dir_fd: i32, old_path: Seq<u8>, new_dir_fd: i32, new_path: Seq<u8> },
}

impl View for Sqe {
    type V = SqeView;

    open spec fn view(&self) -> SqeView {
        match self {
            Sqe::Nop => SqeView::Nop,
            Sqe::LinkAt { old_dir_fd, old_path, new_dir_fd, new_path } => SqeView::LinkAt {
                old_dir_fd: *old_dir_fd,
                old_path: old_path@,
                new_dir_fd: *new_dir_fd,
                new_path: new_path@,
            },
        }
    }
}

/// A staged submission descriptor, tagged with the slot key of its operation
/// as the correlation value the kernel echoes back on completion.
#[derive(Debug)]
pub struct TaggedSqe {
    pub user_data: u64,
    pub sqe: Sqe,
}

/// A completion entry harvested from the kernel: the echoed correlation tag
/// and the raw result (negative values encode a negated OS error code).
#[derive(Clone, Copy, Debug, PartialEq, Eq, Structural)]
pub struct Cqe {
    pub user_data: u64,
    pub result: i32,
}

/// What the engine does next after one kernel submission call, as dictated by
/// the raw outcome (`Ok(submitted_count)` or `Err(errno)`).
#[derive(Clone, Copy, Debug, PartialEq, Eq, Structural)]
pub enum SubmitDirective {
    /// The submissions were accepted; the count is the kernel's answer.
    Accepted(usize),
    /// The completion queue is saturated: process completions, then retry.
    ProcessCompletionsAndRetry,
    /// The call was interrupted: retry immediately with no other action.
    RetryNow,
    /// A genuine kernel failure: propagate it to the caller.
    Fail(i64),
}

/// Classifies the raw outcome of the kernel submission call. Queue saturation
/// and interruption are retried — transparently to the submitting caller —
/// and only any other error is surfaced.
pub fn classify_submit(res: Result<usize, i64>) -> (d: SubmitDirective)
    ensures
        res matches Ok(n) ==> d == SubmitDirective::Accepted(n),
        res == Result::<usize, i64>::Err(ERRNO_BUSY) ==> d
            == SubmitDirective::ProcessCompletionsAndRetry,
        res == Result::<usize, i64>::Err(ERRNO_INTERRUPTED) ==> d == SubmitDirective::RetryNow,
        res matches Err(e) ==> ((e != ERRNO_BUSY && e != ERRNO_INTERRUPTED) ==> d
            == SubmitDirective::Fail(e)),
{
    match res {
        Ok(n) => SubmitDirective::Accepted(n),
        Err(e) => {
            if e == ERRNO_BUSY {
                SubmitDirective::ProcessCompletionsAndRetry
            } else if e == ERRNO_INTERRUPTED {
                SubmitDirective::RetryNow
            } else {
                SubmitDirective::Fail(e)
            }
        },
    }
}

/// Classifies the raw outcome of a bounded wait for completions: a timeout is
/// a normal answer (`Ok(None)`), not an error; any other failure is surfaced.
pub fn classify_wait(res: Result<usize, i64>) -> (r: Result<Option<usize>, RingError>)
    ensures
        res matches Ok(n) ==> r == Result::<Option<usize>, RingError>::Ok(Some(n)),
        res == Result::<usize, i64>::Err(ERRNO_TIMER_EXPIRED) ==> r == Result::<
            Option<usize>,
            RingError,
        >::Ok(None),
        res matches Err(e) ==> (e != ERRNO_TIMER_EXPIRED ==> r == Result::<
            Option<usize>,
            RingError,
        >::Err(RingError::Os(e))),
{
    match res {
        Ok(n) => Ok(Some(n)),
        Err(e) => {
            if e == ERRNO_TIMER_EXPIRED {
                Ok(None)
            } else {
                Err(RingError::Os(e))
            }
        },
    }
}

/// Classifies the raw outcome of the short bounded wait inside a drain loop:
/// both success and a timeout mean "look at the completion queue again", and
/// only a genuine failure stops the drain.
pub fn classify_drain_wait(res: Result<usize, i64>) -> (r: Result<(), RingError>)
    ensures
        res is Ok ==> r is Ok,
        res == Result::<usize, i64>::Err(ERRNO_TIMER_EXPIRED) ==> r is Ok,
        res matches Err(e) ==> (e != ERRNO_TIMER_EXPIRED ==> r == Result::<(), RingError>::Err(
            RingError::Os(e),
        )),
{
    match res {
        Ok(_) => Ok(()),
        Err(e) => {
            if e == ERRNO_TIMER_EXPIRED {
                Ok(())
            } else {
                Err(RingError::Os(e))
            }
        },
    }
}

/// The tickets that a batch of completion entries resolves, under the given
/// key-to-ticket assignment.
pub open spec fn batch_tickets(tickets: Map<int, nat>, cqes: Seq<Cqe>) -> Set<nat> {
    Set::new(
        |t: nat|
            exists|j: int|
                0 <= j < cqes.len() && tickets.dom().contains(#[trigger] cqes[j].user_data as int)
                    && tickets[cqes[j].user_data as int] == t,
    )
}

/// Contract for operations that can be submitted to a [`Ring`].
///
/// `T` is the ring's shared context type, reachable from the completion
/// callback through [`RingCtx`].
pub trait RingOp<T>: Sized {
    /// The submission descriptor this operation stands for.
    spec fn sqe_spec(&self) -> SqeView;

    /// How this operation translates a raw kernel result. Most operations
    /// use the default mapping, [`crate::default_result_spec`]; an operation
    /// may define its own.
    spec fn result_spec(&self, res: i32) -> Result<i32, RingError>;

    /// Builds the operation's submission descriptor. It must be stable: the
    /// operation is unchanged and the descriptor is determined by it, so a
    /// retry after backpressure resubmits the identical request.
    fn entry(&mut self) -> (d: Sqe)
        ensures
            *final(self) == *old(self),
            d@ == old(self).sqe_spec(),
    ;

    /// Consumes the operation with the translated result of its completion.
    /// The callback may submit follow-up operations through `ctx`; it must
    /// leave the engine state well-formed and may only extend it (it cannot
    /// deliver or drop other in-flight operations).
    fn complete(self, res: Result<i32, RingError>, ctx: &mut RingCtx<T, Self>) -> (r: Result<
        (),
        RingError,
    >)
        requires
            old(ctx).wf(),
        ensures
            RingCtx::extends(*old(ctx), *final(ctx)),
    ;

    /// Translates a raw kernel result for this operation, exactly as
    /// [`Self::result_spec`] says. An operation with the default mapping
    /// implements this by calling [`crate::default_result`].
    fn result(&self, res: i32) -> (r: Result<i32, RingError>)
        ensures
            r == self.result_spec(res),
    ;
}

/// The engine state reachable from a completion callback: the in-flight
/// table, the staged descriptors, the shared context, and the ghost delivery
/// accounting. A callback may push follow-up operations and read or change
/// the shared context; the engine wraps this same state as [`Ring`].
pub struct RingCtx<T, E> {
    entries: SlotTable<E>,
    staged: Vec<TaggedSqe>,
    shared: T,
    tickets: Ghost<Map<int, nat>>,
    next_ticket: Ghost<nat>,
    delivered: Ghost<Set<nat>>,
    trace: Ghost<Seq<(nat, Result<i32, RingError>)>>,
}

impl<T, E> RingCtx<T, E> {
    /// The in-flight table: each occupied slot key maps to the operation
    /// awaiting completion under that key.
    pub closed spec fn inflight(&self) -> Map<int, E> {
        self.entries.contents()
    }

    /// The ghost ticket of each in-flight slot key. Tickets are issued in
    /// submission order and are never reused, so they identify operations
    /// across slot-key reuse.
    pub closed spec fn ticket_map(&self) -> Map<int, nat> {
        self.tickets@
    }

    /// How many operations have ever been accepted; equivalently, the next
    /// ticket to issue.
    pub closed spec fn submitted(&self) -> nat {
        self.next_ticket@
    }

    /// The tickets whose completion callback has been invoked.
    pub closed spec fn delivered(&self) -> Set<nat> {
        self.delivered@
    }

    /// The delivery history, in the order the callbacks ran: for each
    /// delivered completion, its operation's ticket and the translated
    /// result its callback received.
    pub closed spec fn delivered_trace(&self) -> Seq<(nat, Result<i32, RingError>)> {
        self.trace@
    }

    /// The staged submission descriptors the driver has not yet drained.
    pub closed spec fn staged(&self) -> Seq<TaggedSqe> {
        self.staged@
    }

    /// The shared context value.
    pub closed spec fn shared(&self) -> T {
        self.shared
    }

    /// Whether the in-flight table can accept one more operation: always,
    /// short of exhausting every representable slot key.
    pub closed spec fn can_accept(&self) -> bool {
        self.entries.room()
    }

    /// Well-formedness: the ticket assignment covers exactly the in-flight
    /// keys, injectively, with tickets below the issue counter and disjoint
    /// from the delivered set — and every issued ticket is either delivered
    /// or in flight.
    pub closed spec fn wf(&self) -> bool {
        &&& self.entries.wf()
        &&& self.tickets@.dom() == self.entries.contents().dom()
        &&& forall|k: int| #[trigger]
            self.tickets@.dom().contains(k) ==> self.tickets@[k] < self.next_ticket@
        &&& forall|k1: int, k2: int|
            self.tickets@.dom().contains(k1) && self.tickets@.dom().contains(k2) && #[trigger]
            self.tickets@[k1] == #[trigger] self.tickets@[k2] ==> k1 == k2
        &&& forall|k: int| #[trigger]
            self.tickets@.dom().contains(k) ==> !self.delivered@.contains(self.tickets@[k])
        &&& forall|t: nat| #[trigger] self.delivered@.contains(t) ==> t < self.next_ticket@
        &&& forall|t: nat|
            t < self.next_ticket@ && !(#[trigger] self.delivered@.contains(t)) ==> exists|k: int|
                #[trigger] self.tickets@.dom().contains(k) && self.tickets@[k] == t
    }

    /// What a completion callback may do to the engine state: extend it.
    /// Existing in-flight operations keep their keys and tickets, nothing is
    /// delivered — the delivery history is untouched — and the ticket
    /// counter only moves forward. The shared context and the staged
    /// descriptors are free to change.
    pub open spec fn extends(pre: Self, post: Self) -> bool {
        &&& post.wf()
        &&& forall|k: int| #[trigger]
            pre.inflight().dom().contains(k) ==> post.inflight().dom().contains(k)
                && post.inflight()[k] == pre.inflight()[k] && post.ticket_map()[k]
                == pre.ticket_map()[k]
        &&& post.delivered() == pre.delivered()
        &&& post.delivered_trace() == pre.delivered_trace()
        &&& pre.submitted() <= post.submitted()
    }

    /// Extension is transitive.
    pub proof fn lemma_extends_trans(a: Self, b: Self, c: Self)
        requires
            Self::extends(a, b),
            Self::extends(b, c),
        ensures
            Self::extends(a, c),
    {
    }

    /// Returns a reference to the shared context value.
    pub fn ctx(&self) -> (r: &T)
        ensures
            *r == self.shared(),
    {
        &self.shared
    }

    /// Returns a mutable reference to the shared context value. Nothing else
    /// about the engine state changes.
    pub fn ctx_mut(&mut self) -> (r: &mut T)
        ensures
            *r == old(self).shared(),
            final(self).shared() == *final(r),
            final(self).inflight() == old(self).inflight(),
            final(self).ticket_map() == old(self).ticket_map(),
            final(self).delivered() == old(self).delivered(),
            final(self).delivered_trace() == old(self).delivered_trace(),
            final(self).submitted() == old(self).submitted(),
            final(self).staged() == old(self).staged(),
            old(self).wf() ==> final(self).wf(),
    {
        &mut self.shared
    }

    /// The facts a caller may use of a well-formed engine's accounting: the
    /// tickets cover exactly the in-flight keys; each in-flight ticket was
    /// issued and is not yet delivered; every delivered ticket was issued.
    pub proof fn lemma_ticket_accounting(&self)
        requires
            self.wf(),
        ensures
            self.ticket_map().dom() == self.inflight().dom(),
            forall|k: int| #[trigger]
                self.inflight().dom().contains(k) ==> self.ticket_map()[k] < self.submitted()
                    && !self.delivered().contains(self.ticket_map()[k]),
            forall|t: nat| #[trigger] self.delivered().contains(t) ==> t < self.submitted(),
    {
        assert forall|k: int| #[trigger]
            self.inflight().dom().contains(k) implies self.ticket_map()[k] < self.submitted()
            && !self.delivered().contains(self.ticket_map()[k]) by {
            assert(self.tickets@.dom().contains(k));
        }
    }

    /// Pushes an operation whose submission descriptor the caller has
    /// already built. This is the entry point a completion callback uses to
    /// submit follow-up operations reentrantly: it makes no call back into
    /// the operation contract. The operation takes a slot key that no
    /// in-flight operation holds, receives the next ticket, and the
    /// descriptor — tagged with the key — is staged for the driver. This
    /// never fails for capacity reasons the caller could observe; the single
    /// error case is the exhaustion of every representable slot key.
    pub fn push_prepared(&mut self, op: E, d: Sqe) -> (r: Result<(), RingError>)
        requires
            old(self).wf(),
        ensures
            final(self).wf(),
            Self::extends(*old(self), *final(self)),
            final(self).shared() == old(self).shared(),
            final(self).delivered_trace() == old(self).delivered_trace(),
            r is Ok <==> old(self).can_accept(),
            r is Err ==> *final(self) == *old(self) && r == Result::<(), RingError>::Err(
                RingError::TableFull,
            ),
            r is Ok ==> final(self).submitted() == old(self).submitted() + 1,
            r is Ok ==> exists|key: int|
                (#[trigger] final(self).inflight().dom().contains(key)) && !old(self).inflight().dom().contains(key) && final(self).inflight() == old(self).inflight().insert(key, op) && final(self).ticket_map() == old(self).ticket_map().insert(key, old(self).submitted() as nat) && 0 <= key <= u64::MAX
                    && final(self).staged() == old(self).staged().push(
                    TaggedSqe { user_data: key as u64, sqe: d },
                ),
    {
        if !self.entries.has_room() {
            return Err(RingError::TableFull);
        }
        let ghost op0 = op;
        let key = self.entries.insert(op);
        self.staged.push(TaggedSqe { user_data: key as u64, sqe: d });
        proof {
            self.entries.lemma_keys_in_range();
        }
        self.tickets = Ghost(self.tickets@.insert(key as int, self.next_ticket@));
        self.next_ticket = Ghost((self.next_ticket@ + 1) as nat);
        proof {
            let pre = *old(self);
            let kk = key as int;
            let nt = pre.next_ticket@;
            assert(self.tickets@.dom() =~= self.entries.contents().dom());
            assert forall|t: nat|
                t < self.next_ticket@ && !(#[trigger] self.delivered@.contains(t)) implies exists|
                k: int,
            |
                #[trigger] self.tickets@.dom().contains(k) && self.tickets@[k] == t by {
                if t == nt {
                    assert(self.tickets@.dom().contains(kk) && self.tickets@[kk] == t);
                } else {
                    let k0 = choose|k0: int| #[trigger]
                        pre.tickets@.dom().contains(k0) && pre.tickets@[k0] == t;
                    assert(self.tickets@.dom().contains(k0) && self.tickets@[k0] == t);
                }
            }
            assert(self.wf());
            assert((#[trigger] self.inflight().dom().contains(kk)) && !pre.inflight().dom().contains(
                kk,
            ) && self.inflight() == pre.inflight().insert(kk, op0) && self.ticket_map()
                == pre.ticket_map().insert(kk, pre.submitted() as nat) && 0 <= kk <= u64::MAX
                && self.staged() == pre.staged().push(TaggedSqe { user_data: key as u64, sqe: d }));
        }
        Ok(())
    }

}

impl<T, E: RingOp<T>> RingCtx<T, E> {
    /// The delivery-trace extension processing a batch of completion entries
    /// produces: for each entry in batch order, the in-flight operation's
    /// ticket and the translated result its callback receives.
    pub open spec fn batch_trace(&self, cqes: Seq<Cqe>) -> Seq<(nat, Result<i32, RingError>)> {
        Seq::new(
            cqes.len(),
            |j: int|
                (
                    self.ticket_map()[cqes[j].user_data as int],
                    self.inflight()[cqes[j].user_data as int].result_spec(cqes[j].result),
                ),
        )
    }

    /// Pushes an operation: builds its descriptor through the operation
    /// contract, then stages it as [`Self::push_prepared`] does; the staged
    /// descriptor is exactly the one the operation stands for.
    pub fn push(&mut self, op: E) -> (r: Result<(), RingError>)
        requires
            old(self).wf(),
        ensures
            final(self).wf(),
            Self::extends(*old(self), *final(self)),
            final(self).shared() == old(self).shared(),
            final(self).delivered_trace() == old(self).delivered_trace(),
            r is Ok <==> old(self).can_accept(),
            r is Err ==> *final(self) == *old(self) && r == Result::<(), RingError>::Err(
                RingError::TableFull,
            ),
            r is Ok ==> final(self).submitted() == old(self).submitted() + 1,
            r is Ok ==> final(self).staged().len() == old(self).staged().len() + 1 && final(self).staged().subrange(0, old(self).staged().len() as int) == old(self).staged() && final(self).staged().last().sqe@ == op.sqe_spec(),
            r is Ok ==> exists|key: int|
                (#[trigger] final(self).inflight().dom().contains(key)) && !old(self).inflight().dom().contains(key) && final(self).inflight() == old(self).inflight().insert(key, op) && final(self).ticket_map() == old(self).ticket_map().insert(key, old(self).submitted() as nat) && 0 <= key <= u64::MAX
                    && final(self).staged().last().user_data == key as u64,
    {
        let mut op = op;
        let d = op.entry();
        let r = self.push_prepared(op, d);
        proof {
            if r is Ok {
                let key = choose|key: int|
                    (#[trigger] self.inflight().dom().contains(key)) && !old(self).inflight().dom().contains(key) && self.inflight() == old(self).inflight().insert(key, op) && self.ticket_map() == old(self).ticket_map().insert(key, old(self).submitted() as nat) && 0 <= key
                        <= u64::MAX && self.staged() == old(self).staged().push(
                        TaggedSqe { user_data: key as u64, sqe: d },
                    );
                assert(self.staged().last() == (TaggedSqe { user_data: key as u64, sqe: d }));
                assert(self.staged().subrange(0, old(self).staged().len() as int) =~= old(self).staged());
                assert((#[trigger] self.inflight().dom().contains(key)) && !old(self).inflight().dom().contains(key) && self.inflight() == old(self).inflight().insert(
                    key,
                    op,
                ) && self.ticket_map() == old(self).ticket_map().insert(
                    key,
                    old(self).submitted() as nat,
                ) && 0 <= key <= u64::MAX && self.staged().last().user_data == key as u64);
            }
        }
        r
    }

    /// Processes a batch of completion entries harvested from the kernel: for
    /// each entry in batch order, removes the operation under the echoed
    /// tag, translates the raw result as that operation's own
    /// [`RingOp::result_spec`] says, and invokes the operation's completion
    /// callback with it — the delivery trace records exactly this. The whole
    /// visible batch is processed in one call; an empty batch always
    /// succeeds, and an error can only be a callback's refusal, which aborts
    /// the pass after delivering the entries before it and the failing one.
    ///
    /// Every tag must belong to an in-flight operation and no tag may repeat
    /// in one batch: the kernel reports exactly one completion for each
    /// accepted submission, so anything else is an invariant violation.
    pub fn process_completions(&mut self, cqes: &Vec<Cqe>) -> (r: Result<(), RingError>)
        requires
            old(self).wf(),
            forall|j: int|
                0 <= j < cqes@.len() ==> old(self).inflight().dom().contains(
                    #[trigger] cqes@[j].user_data as int,
                ),
            forall|j1: int, j2: int|
                0 <= j1 < j2 < cqes@.len() ==> (#[trigger] cqes@[j1].user_data) != (
                #[trigger] cqes@[j2].user_data),
        ensures
            final(self).wf(),
            old(self).submitted() <= final(self).submitted(),
            old(self).delivered().subset_of(final(self).delivered()),
            final(self).delivered().subset_of(
                old(self).delivered() + batch_tickets(old(self).ticket_map(), cqes@),
            ),
            r is Ok ==> final(self).delivered() == old(self).delivered() + batch_tickets(
                old(self).ticket_map(),
                cqes@,
            ),
            cqes@.len() == 0 ==> r is Ok,
            r is Ok ==> final(self).delivered_trace() == old(self).delivered_trace() + old(
                self,
            ).batch_trace(cqes@),
            r is Err ==> exists|i: int|
                0 <= i < cqes@.len() && final(self).delivered_trace() == old(
                    self,
                ).delivered_trace() + (#[trigger] old(self).batch_trace(cqes@).subrange(0, i + 1))
                    && final(self).delivered() == old(self).delivered() + batch_tickets(
                    old(self).ticket_map(),
                    cqes@.subrange(0, i + 1),
                ),
            forall|j: int|
                0 <= j < cqes@.len() ==> !old(self).delivered().contains(
                    old(self).ticket_map()[#[trigger] cqes@[j].user_data as int],
                ),
    {
        let ghost pre = *old(self);
        proof {
            assert forall|j: int| 0 <= j < cqes@.len() implies !pre.delivered().contains(
                pre.ticket_map()[#[trigger] cqes@[j].user_data as int],
            ) by {
                assert(pre.tickets@.dom().contains(cqes@[j].user_data as int));
            }
            assert(batch_tickets(pre.ticket_map(), cqes@.subrange(0, 0)) =~= Set::<nat>::empty());
            assert(pre.delivered() + batch_tickets(pre.ticket_map(), cqes@.subrange(0, 0))
                =~= pre.delivered());
            assert(pre.delivered_trace() + pre.batch_trace(cqes@).subrange(0, 0)
                =~= pre.delivered_trace());
        }
        let mut i: usize = 0;
        while i < cqes.len()
            invariant
                pre == *old(self),
                self.wf(),
                i <= cqes@.len(),
                forall|j: int|
                    0 <= j < cqes@.len() ==> pre.inflight().dom().contains(
                        #[trigger] cqes@[j].user_data as int,
                    ),
                forall|j1: int, j2: int|
                    0 <= j1 < j2 < cqes@.len() ==> (#[trigger] cqes@[j1].user_data) != (
                    #[trigger] cqes@[j2].user_data),
                forall|j: int|
                    i <= j < cqes@.len() ==> self.inflight().dom().contains(
                        #[trigger] cqes@[j].user_data as int,
                    ) && self.ticket_map()[cqes@[j].user_data as int] == pre.ticket_map()[cqes@[j].user_data as int]
                        && self.inflight()[cqes@[j].user_data as int] == pre.inflight()[cqes@[j].user_data as int],
                self.delivered() == pre.delivered() + batch_tickets(
                    pre.ticket_map(),
                    cqes@.subrange(0, i as int),
                ),
                self.delivered_trace() == pre.delivered_trace() + pre.batch_trace(
                    cqes@,
                ).subrange(0, i as int),
                pre.submitted() <= self.submitted(),
                pre.wf(),
            decreases cqes@.len() - i,
        {
            let ghost iter0 = *self;
            let cqe = cqes[i];
            proof {
                self.entries.lemma_keys_in_range();
            }
            let key = cqe.user_data as usize;
            let op = self.entries.remove(key);
            let res = op.result(cqe.result);
            let ghost tk = iter0.tickets@[key as int];
            self.tickets = Ghost(self.tickets@.remove(key as int));
            self.delivered = Ghost(self.delivered@.insert(tk));
            self.trace = Ghost(self.trace@.push((tk, res)));
            proof {
                assert(self.tickets@.dom() =~= self.entries.contents().dom());
                assert forall|t: nat|
                    t < self.next_ticket@ && !(#[trigger] self.delivered@.contains(t)) implies
                    exists|k: int|
                    #[trigger] self.tickets@.dom().contains(k) && self.tickets@[k] == t by {
                    assert(!iter0.delivered@.contains(t));
                    let k0 = choose|k0: int| #[trigger]
                        iter0.tickets@.dom().contains(k0) && iter0.tickets@[k0] == t;
                    assert(k0 != key as int);
                    assert(self.tickets@.dom().contains(k0) && self.tickets@[k0] == t);
                }
                assert(self.wf());
                assert(cqes@[i as int] == cqe);
                assert(tk == pre.ticket_map()[cqe.user_data as int]);
                let big = batch_tickets(pre.ticket_map(), cqes@.subrange(0, i + 1));
                let small = batch_tickets(pre.ticket_map(), cqes@.subrange(0, i as int));
                let sub = cqes@.subrange(0, i + 1);
                assert forall|t: nat|
                    (pre.delivered() + big).contains(t) implies self.delivered@.contains(t) by {
                    if pre.delivered().contains(t) {
                        assert(iter0.delivered@.contains(t));
                    } else {
                        let j = choose|j: int|
                            0 <= j < sub.len() && pre.ticket_map().dom().contains(
                                #[trigger] sub[j].user_data as int,
                            ) && pre.ticket_map()[sub[j].user_data as int] == t;
                        if j < i {
                            assert(cqes@.subrange(0, i as int)[j] == sub[j]);
                            assert(small.contains(t));
                            assert(iter0.delivered@.contains(t));
                        } else {
                            assert(sub[j] == cqe);
                            assert(t == tk);
                        }
                    }
                }
                assert forall|t: nat|
                    self.delivered@.contains(t) implies (pre.delivered() + big).contains(t) by {
                    if t == tk {
                        assert(sub[i as int] == cqe);
                        assert(pre.ticket_map().dom().contains(sub[i as int].user_data as int)
                            && pre.ticket_map()[sub[i as int].user_data as int] == t);
                        assert(big.contains(t));
                    } else {
                        assert(iter0.delivered@.contains(t));
                        if !pre.delivered().contains(t) {
                            assert(small.contains(t));
                            let j = choose|j: int|
                                0 <= j < cqes@.subrange(0, i as int).len()
                                    && pre.ticket_map().dom().contains(
                                    #[trigger] cqes@.subrange(0, i as int)[j].user_data as int,
                                ) && pre.ticket_map()[cqes@.subrange(0, i as int)[j].user_data as int]
                                    == t;
                            assert(sub[j] == cqes@.subrange(0, i as int)[j]);
                            assert(pre.ticket_map().dom().contains(sub[j].user_data as int)
                                && pre.ticket_map()[sub[j].user_data as int] == t);
                            assert(big.contains(t));
                        }
                    }
                }
                assert(self.delivered@ =~= pre.delivered() + big);
                assert(op == pre.inflight()[cqe.user_data as int]);
                assert(pre.batch_trace(cqes@)[i as int] == (tk, res));
                assert(pre.batch_trace(cqes@).subrange(0, i + 1) =~= pre.batch_trace(
                    cqes@,
                ).subrange(0, i as int).push((tk, res)));
                assert(self.trace@ =~= pre.delivered_trace() + pre.batch_trace(cqes@).subrange(
                    0,
                    i + 1,
                ));
            }
            let ghost before_cb = *self;
            let r = op.complete(res, self);
            proof {
                assert forall|j: int|
                    i + 1 <= j < cqes@.len() implies self.inflight().dom().contains(
                    #[trigger] cqes@[j].user_data as int,
                ) && self.ticket_map()[cqes@[j].user_data as int] == pre.ticket_map()[cqes@[j].user_data as int]
                    && self.inflight()[cqes@[j].user_data as int] == pre.inflight()[cqes@[j].user_data as int] by {
                    assert(cqes@[i as int].user_data != cqes@[j].user_data);
                    assert(before_cb.inflight().dom().contains(cqes@[j].user_data as int));
                    assert(before_cb.ticket_map()[cqes@[j].user_data as int] == iter0.ticket_map()[cqes@[j].user_data as int]);
                    assert(before_cb.inflight()[cqes@[j].user_data as int] == iter0.inflight()[cqes@[j].user_data as int]);
                }
                assert(self.delivered() == before_cb.delivered());
                assert(self.delivered_trace() == before_cb.delivered_trace());
            }
            match r {
                Ok(_) => {},
                Err(e) => {
                    proof {
                        lemma_batch_tickets_prefix(pre.ticket_map(), cqes@, i + 1);
                        let all = batch_tickets(pre.ticket_map(), cqes@);
                        let part = batch_tickets(pre.ticket_map(), cqes@.subrange(0, i + 1));
                        assert(self.delivered() == pre.delivered() + part);
                        assert forall|t: nat|
                            self.delivered().contains(t) implies (pre.delivered() + all).contains(
                            t,
                        ) by {
                            if !pre.delivered().contains(t) {
                                assert(part.contains(t));
                                assert(all.contains(t));
                            }
                        }
                        assert forall|t: nat|
                            pre.delivered().contains(t) implies self.delivered().contains(t) by {}
                        assert((i as int) < cqes@.len() && self.delivered_trace()
                            == pre.delivered_trace() + pre.batch_trace(cqes@).subrange(0, i + 1)
                            && self.delivered() == pre.delivered() + batch_tickets(
                            pre.ticket_map(),
                            cqes@.subrange(0, i + 1),
                        ));
                    }
                    return Err(e);
                },
            }
            i = i + 1;
        }
        proof {
            assert(cqes@.subrange(0, cqes@.len() as int) =~= cqes@);
            assert forall|t: nat|
                pre.delivered().contains(t) implies self.delivered().contains(t) by {}
            assert(pre.batch_trace(cqes@).subrange(0, cqes@.len() as int) =~= pre.batch_trace(
                cqes@,
            ));
        }
        Ok(())
    }
}

/// The tickets resolved by a prefix of a batch are among those resolved by
/// the whole batch.
proof fn lemma_batch_tickets_prefix(tickets: Map<int, nat>, cqes: Seq<Cqe>, n: int)
    requires
        0 <= n <= cqes.len(),
    ensures
        batch_tickets(tickets, cqes.subrange(0, n)).subset_of(batch_tickets(tickets, cqes)),
{
    let prefix = cqes.subrange(0, n);
    assert forall|t: nat|
        batch_tickets(tickets, prefix).contains(t) implies batch_tickets(tickets, cqes).contains(
        t,
    ) by {
        let j = choose|j: int|
            0 <= j < prefix.len() && tickets.dom().contains(#[trigger] prefix[j].user_data as int)
                && tickets[prefix[j].user_data as int] == t;
        assert(cqes[j] == prefix[j]);
        assert(tickets.dom().contains(cqes[j].user_data as int) && tickets[cqes[j].user_data as int]
            == t);
    }
}

/// The engine: owns the in-flight table, the staged descriptors, and the
/// shared context, and guarantees that every accepted operation receives its
/// completion callback exactly once.
pub struct Ring<T, E> {
    inner: RingCtx<T, E>,
}

impl<T, E> Ring<T, E> {
    /// The in-flight table.
    pub closed spec fn inflight(&self) -> Map<int, E> {
        self.inner.inflight()
    }

    /// The ghost ticket of each in-flight slot key.
    pub closed spec fn ticket_map(&self) -> Map<int, nat> {
        self.inner.ticket_map()
    }

    /// How many operations have ever been accepted.
    pub closed spec fn submitted(&self) -> nat {
        self.inner.submitted()
    }

    /// The tickets whose completion callback has been invoked.
    pub closed spec fn delivered(&self) -> Set<nat> {
        self.inner.delivered()
    }

    /// The delivery history, in the order the callbacks ran: for each
    /// delivered completion, its operation's ticket and the translated
    /// result its callback received.
    pub closed spec fn delivered_trace(&self) -> Seq<(nat, Result<i32, RingError>)> {
        self.inner.delivered_trace()
    }

    /// The staged submission descriptors not yet drained by the driver.
    pub closed spec fn staged(&self) -> Seq<TaggedSqe> {
        self.inner.staged()
    }

    /// The shared context value.
    pub closed spec fn shared(&self) -> T {
        self.inner.shared()
    }

    /// Whether the engine can accept one more operation.
    pub closed spec fn can_accept(&self) -> bool {
        self.inner.can_accept()
    }

    /// Well-formedness of the engine state.
    pub closed spec fn wf(&self) -> bool {
        self.inner.wf()
    }

    /// Creates a new engine around a shared context value. The kernel queue
    /// pair is configured and owned by the driver.
    pub fn new(shared: T) -> (r: Self)
        ensures
            r.wf(),
            r.inflight() == Map::<int, E>::empty(),
            r.ticket_map() == Map::<int, nat>::empty(),
            r.submitted() == 0,
            r.delivered() == Set::<nat>::empty(),
            r.delivered_trace() == Seq::<(nat, Result<i32, RingError>)>::empty(),
            r.staged() == Seq::<TaggedSqe>::empty(),
            r.shared() == shared,
    {
        let r = Ring {
            inner: RingCtx {
                entries: SlotTable::new(),
                staged: Vec::new(),
                shared,
                tickets: Ghost(Map::empty()),
                next_ticket: Ghost(0nat),
                delivered: Ghost(Set::empty()),
                trace: Ghost(Seq::empty()),
            },
        };
        proof {
            assert(r.inner.tickets@.dom() =~= r.inner.entries.contents().dom());
        }
        r
    }

    /// Returns a reference to the shared context value.
    pub fn ctx(&self) -> (r: &T)
        ensures
            *r == self.shared(),
    {
        self.inner.ctx()
    }

    /// Returns a mutable reference to the shared context value.
    pub fn ctx_mut(&mut self) -> (r: &mut T)
        ensures
            *r == old(self).shared(),
            final(self).shared() == *final(r),
            final(self).inflight() == old(self).inflight(),
            final(self).ticket_map() == old(self).ticket_map(),
            final(self).delivered() == old(self).delivered(),
            final(self).delivered_trace() == old(self).delivered_trace(),
            final(self).submitted() == old(self).submitted(),
            final(self).staged() == old(self).staged(),
            old(self).wf() ==> final(self).wf(),
    {
        self.inner.ctx_mut()
    }

    /// The facts a caller may use of a well-formed engine's accounting: the
    /// tickets cover exactly the in-flight keys; each in-flight ticket was
    /// issued and is not yet delivered; every delivered ticket was issued.
    pub proof fn lemma_ticket_accounting(&self)
        requires
            self.wf(),
        ensures
            self.ticket_map().dom() == self.inflight().dom(),
            forall|k: int| #[trigger]
                self.inflight().dom().contains(k) ==> self.ticket_map()[k] < self.submitted()
                    && !self.delivered().contains(self.ticket_map()[k]),
            forall|t: nat| #[trigger] self.delivered().contains(t) ==> t < self.submitted(),
    {
        self.inner.lemma_ticket_accounting();
        assert forall|k: int| #[trigger]
            self.inflight().dom().contains(k) implies self.ticket_map()[k] < self.submitted()
            && !self.delivered().contains(self.ticket_map()[k]) by {
            assert(self.inner.inflight().dom().contains(k));
        }
        assert forall|t: nat| #[trigger] self.delivered().contains(t) implies t
            < self.submitted() by {
            assert(self.inner.delivered().contains(t));
        }
    }
}

impl<T, E: RingOp<T>> Ring<T, E> {
    /// Pushes an operation to the engine. See [`RingCtx::push`]: the key it
    /// takes is one no in-flight operation holds, and the tagged descriptor
    /// is staged for the driver.
    pub fn push(&mut self, op: E) -> (r: Result<(), RingError>)
        requires
            old(self).wf(),
        ensures
            final(self).wf(),
            final(self).shared() == old(self).shared(),
            r is Ok <==> old(self).can_accept(),
            r is Err ==> *final(self) == *old(self) && r == Result::<(), RingError>::Err(
                RingError::TableFull,
            ),
            r is Ok ==> final(self).submitted() == old(self).submitted() + 1,
            r is Ok ==> final(self).delivered() == old(self).delivered(),
            final(self).delivered_trace() == old(self).delivered_trace(),
            r is Ok ==> final(self).staged().len() == old(self).staged().len() + 1 && final(self).staged().subrange(0, old(self).staged().len() as int) == old(self).staged() && final(self).staged().last().sqe@ == op.sqe_spec(),
            r is Ok ==> exists|key: int|
                (#[trigger] final(self).inflight().dom().contains(key)) && !old(self).inflight().dom().contains(key) && final(self).inflight() == old(self).inflight().insert(key, op) && final(self).ticket_map() == old(self).ticket_map().insert(key, old(self).submitted() as nat) && 0 <= key <= u64::MAX
                    && final(self).staged().last().user_data == key as u64,
    {
        let r = self.inner.push(op);
        proof {
            if r is Ok {
                let key = choose|key: int|
                    (#[trigger] self.inner.inflight().dom().contains(key)) && !old(self).inner.inflight().dom().contains(key) && self.inner.inflight() == old(self).inner.inflight().insert(key, op) && self.inner.ticket_map() == old(self).inner.ticket_map().insert(key, old(self).inner.submitted() as nat) && 0 <= key
                        <= u64::MAX && self.inner.staged().last().user_data == key as u64;
                assert((#[trigger] self.inflight().dom().contains(key)) && !old(self).inflight().dom().contains(key) && self.inflight() == old(self).inflight().insert(
                    key,
                    op,
                ) && self.ticket_map() == old(self).ticket_map().insert(
                    key,
                    old(self).submitted() as nat,
                ) && 0 <= key <= u64::MAX && self.staged().last().user_data == key as u64);
            }
        }
        r
    }

    /// The number of in-flight operations.
    pub fn in_flight(&self) -> (n: usize)
        requires
            self.wf(),
        ensures
            n == self.inflight().dom().len(),
    {
        self.inner.entries.len()
    }

    /// Whether the engine is drained: no operation is in flight.
    pub fn is_drained(&self) -> (b: bool)
        requires
            self.wf(),
        ensures
            b <==> self.inflight().dom() == Set::<int>::empty(),
    {
        self.inner.entries.is_empty()
    }

    /// Whether the correlation tag belongs to an in-flight operation: a
    /// driver checks a harvested completion entry against this before
    /// handing it to [`Self::process_completions`].
    pub fn is_in_flight(&self, user_data: u64) -> (b: bool)
        ensures
            b <==> self.inflight().dom().contains(user_data as int),
    {
        if user_data > usize::MAX as u64 {
            proof {
                self.inner.entries.lemma_keys_in_range();
            }
            return false;
        }
        self.inner.entries.contains_key(user_data as usize)
    }

    /// The number of staged descriptors the driver has not yet drained.
    pub fn staged_len(&self) -> (n: usize)
        ensures
            n == self.staged().len(),
    {
        self.inner.staged.len()
    }

    /// Hands the driver the next staged descriptor, in the order the
    /// operations were pushed, or `None` if nothing is staged.
    pub fn pop_staged(&mut self) -> (r: Option<TaggedSqe>)
        ensures
            final(self).inflight() == old(self).inflight(),
            final(self).ticket_map() == old(self).ticket_map(),
            final(self).delivered() == old(self).delivered(),
            final(self).delivered_trace() == old(self).delivered_trace(),
            final(self).submitted() == old(self).submitted(),
            final(self).shared() == old(self).shared(),
            old(self).wf() ==> final(self).wf(),
            old(self).staged().len() == 0 ==> r is None && final(self).staged() == old(self).staged(),
            old(self).staged().len() > 0 ==> r == Some(old(self).staged()[0]) && final(self).staged() == old(self).staged().subrange(1, old(self).staged().len() as int),
    {
        if self.inner.staged.len() == 0 {
            None
        } else {
            Some(self.inner.staged.remove(0))
        }
    }

    /// The delivery-trace extension processing a batch of completion entries
    /// produces: for each entry in batch order, the in-flight operation's
    /// ticket and the translated result its callback receives.
    pub open spec fn batch_trace(&self, cqes: Seq<Cqe>) -> Seq<(nat, Result<i32, RingError>)> {
        Seq::new(
            cqes.len(),
            |j: int|
                (
                    self.ticket_map()[cqes[j].user_data as int],
                    self.inflight()[cqes[j].user_data as int].result_spec(cqes[j].result),
                ),
        )
    }

    /// Processes a batch of completion entries. See
    /// [`RingCtx::process_completions`]: each callback receives its own
    /// operation's translated result, in batch order; an empty batch always
    /// succeeds; an error is a callback's refusal and still consumes the
    /// batch prefix through the failing entry.
    pub fn process_completions(&mut self, cqes: &Vec<Cqe>) -> (r: Result<(), RingError>)
        requires
            old(self).wf(),
            forall|j: int|
                0 <= j < cqes@.len() ==> old(self).inflight().dom().contains(
                    #[trigger] cqes@[j].user_data as int,
                ),
            forall|j1: int, j2: int|
                0 <= j1 < j2 < cqes@.len() ==> (#[trigger] cqes@[j1].user_data) != (
                #[trigger] cqes@[j2].user_data),
        ensures
            final(self).wf(),
            old(self).submitted() <= final(self).submitted(),
            old(self).delivered().subset_of(final(self).delivered()),
            final(self).delivered().subset_of(
                old(self).delivered() + batch_tickets(old(self).ticket_map(), cqes@),
            ),
            r is Ok ==> final(self).delivered() == old(self).delivered() + batch_tickets(
                old(self).ticket_map(),
                cqes@,
            ),
            cqes@.len() == 0 ==> r is Ok,
            r is Ok ==> final(self).delivered_trace() == old(self).delivered_trace() + old(
                self,
            ).batch_trace(cqes@),
            r is Err ==> exists|i: int|
                0 <= i < cqes@.len() && final(self).delivered_trace() == old(
                    self,
                ).delivered_trace() + (#[trigger] old(self).batch_trace(cqes@).subrange(0, i + 1))
                    && final(self).delivered() == old(self).delivered() + batch_tickets(
                    old(self).ticket_map(),
                    cqes@.subrange(0, i + 1),
                ),
            forall|j: int|
                0 <= j < cqes@.len() ==> !old(self).delivered().contains(
                    old(self).ticket_map()[#[trigger] cqes@[j].user_data as int],
                ),
    {
        let r = self.inner.process_completions(cqes);
        proof {
            assert(old(self).batch_trace(cqes@) =~= old(self).inner.batch_trace(cqes@));
            if r is Err {
                let i = choose|i: int|
                    0 <= i < cqes@.len() && self.inner.delivered_trace() == old(
                        self,
                    ).inner.delivered_trace() + (#[trigger] old(self).inner.batch_trace(
                        cqes@,
                    ).subrange(0, i + 1)) && self.inner.delivered() == old(self).inner.delivered()
                        + batch_tickets(old(self).inner.ticket_map(), cqes@.subrange(0, i + 1));
                assert(old(self).batch_trace(cqes@).subrange(0, i + 1) =~= old(
                    self,
                ).inner.batch_trace(cqes@).subrange(0, i + 1));
                assert(0 <= i < cqes@.len() && self.delivered_trace() == old(
                    self,
                ).delivered_trace() + old(self).batch_trace(cqes@).subrange(0, i + 1)
                    && self.delivered() == old(self).delivered() + batch_tickets(
                    old(self).ticket_map(),
                    cqes@.subrange(0, i + 1),
                ));
            }
        }
        r
    }

    /// Exactly-once delivery: every ticket issued so far is either delivered
    /// or held by exactly one in-flight operation, never both. In particular
    /// no completion can be delivered twice, and after a drain (no operation
    /// in flight) every issued ticket has been delivered exactly once.
    pub proof fn lemma_ticket_partition(&self, t: nat)
        requires
            self.wf(),
            t < self.submitted(),
        ensures
            self.delivered().contains(t) <==> !(exists|k: int|
                (#[trigger] self.inflight().dom().contains(k)) && self.ticket_map()[k] == t),
            forall|k1: int, k2: int|
                self.inflight().dom().contains(k1) && self.inflight().dom().contains(k2)
                    && self.ticket_map()[k1] == t && self.ticket_map()[k2] == t ==> k1 == k2,
    {
        if !self.delivered().contains(t) {
            let k = choose|k: int| #[trigger]
                self.inner.tickets@.dom().contains(k) && self.inner.tickets@[k] == t;
            assert(self.inflight().dom().contains(k) && self.ticket_map()[k] == t);
        }
    }

    /// Drain completeness: when no operation is in flight, every operation
    /// ever accepted has received its completion callback; no callback for
    /// them can fire again.
    pub proof fn lemma_drained_all_delivered(&self)
        requires
            self.wf(),
            self.inflight().dom() == Set::<int>::empty(),
        ensures
            forall|t: nat| t < self.submitted() ==> #[trigger] self.delivered().contains(t),
    {
        assert forall|t: nat| t < self.submitted() implies #[trigger] self.delivered().contains(
            t,
        ) by {
            if !self.delivered().contains(t) {
                let k = choose|k: int| #[trigger]
                    self.inner.tickets@.dom().contains(k) && self.inner.tickets@[k] == t;
                assert(self.inflight().dom().contains(k));
            }
        }
    }
}

} // verus!
