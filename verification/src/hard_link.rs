//! A hard linker built on the completion ring: its one operation asks the
//! kernel to create a hard link, identified by directory file descriptors and
//! NUL-free path byte strings that the operation owns for its whole in-flight
//! lifetime.

use vstd::prelude::*;

verus! {

use crate::RingError;
use crate::ring::{batch_tickets, Cqe, Ring, RingCtx, RingOp, Sqe, SqeView, TaggedSqe};

/// Whether a path byte string holds an interior NUL byte, which no C string
/// handed to the kernel may contain.
pub open spec fn has_nul(s: Seq<u8>) -> bool {
    exists|i: int| 0 <= i < s.len() && s[i] == 0u8
}

/// Whether a path byte string is absolute: it starts with a slash.
pub open spec fn is_absolute(s: Seq<u8>) -> bool {
    s.len() > 0 && s[0] == 47u8
}

/// Exec test for [`has_nul`].
fn contains_nul(s: &Vec<u8>) -> (b: bool)
    ensures
        b == has_nul(s@),
{
    let mut i: usize = 0;
    while i < s.len()
        invariant
            i <= s@.len(),
            forall|j: int| 0 <= j < i ==> s@[j] != 0u8,
        decreases s@.len() - i,
    {
        if s[i] == 0 {
            return true;
        }
        i = i + 1;
    }
    false
}

/// Exec test for [`is_absolute`].
fn starts_with_slash(s: &Vec<u8>) -> (b: bool)
    ensures
        b == is_absolute(s@),
{
    s.len() > 0 && s[0] == 47
}

/// The shared context of the hard linker's ring. The linker needs no shared
/// state between completions.
#[derive(Debug)]
pub struct State;

/// One hard-link request. It owns the path buffers its submission descriptor
/// refers to, from submission until its completion is processed.
#[derive(Debug)]
pub struct HardLinkOp {
    pub old_dir_fd: i32,
    pub old_path: Vec<u8>,
    pub new_dir_fd: i32,
    pub new_path: Vec<u8>,
}

impl HardLinkOp {
    /// Builds a request to link `new_path` (relative to the directory open at
    /// `new_dir_fd`) to the existing `old_path` (relative to `old_dir_fd`).
    /// Rejects a path holding an interior NUL byte, which cannot be passed to
    /// the kernel as a C string.
    pub fn new(old_dir_fd: i32, old_path: Vec<u8>, new_dir_fd: i32, new_path: Vec<u8>) -> (r:
        Result<Self, RingError>)
        ensures
            r is Ok <==> !has_nul(old_path@) && !has_nul(new_path@),
            r matches Ok(op) ==> op == (HardLinkOp { old_dir_fd, old_path, new_dir_fd, new_path }),
            r is Err ==> r == Result::<Self, RingError>::Err(RingError::NulInPath),
    {
        if contains_nul(&old_path) || contains_nul(&new_path) {
            return Err(RingError::NulInPath);
        }
        Ok(HardLinkOp { old_dir_fd, old_path, new_dir_fd, new_path })
    }

    /// Builds a request from two absolute paths; the directory descriptors
    /// are then ignored by the kernel and carry the conventional `-1`.
    /// Rejects non-absolute paths first, then paths holding a NUL byte.
    pub fn with_absolute_paths(old_path: Vec<u8>, new_path: Vec<u8>) -> (r: Result<
        Self,
        RingError,
    >)
        ensures
            !(is_absolute(old_path@) && is_absolute(new_path@)) ==> r == Result::<
                Self,
                RingError,
            >::Err(RingError::NotAbsolute),
            is_absolute(old_path@) && is_absolute(new_path@) ==> (r is Ok <==> !has_nul(old_path@)
                && !has_nul(new_path@)),
            is_absolute(old_path@) && is_absolute(new_path@) && (has_nul(old_path@) || has_nul(
                new_path@,
            )) ==> r == Result::<Self, RingError>::Err(RingError::NulInPath),
            r matches Ok(op) ==> op == (HardLinkOp {
                old_dir_fd: -1i32,
                old_path,
                new_dir_fd: -1i32,
                new_path,
            }),
    {
        if !starts_with_slash(&old_path) || !starts_with_slash(&new_path) {
            return Err(RingError::NotAbsolute);
        }
        Self::new(-1, old_path, -1, new_path)
    }
}

/// The closed set of operations the hard linker submits.
#[derive(Debug)]
pub enum Op {
    HardLink(HardLinkOp),
}

impl RingOp<State> for Op {
    open spec fn result_spec(&self, res: i32) -> Result<i32, RingError> {
        crate::default_result_spec(res)
    }

    fn result(&self, res: i32) -> (r: Result<i32, RingError>) {
        crate::default_result(res)
    }

    open spec fn sqe_spec(&self) -> SqeView {
        match self {
            Op::HardLink(op) => SqeView::LinkAt {
                old_dir_fd: op.old_dir_fd,
                old_path: op.old_path@,
                new_dir_fd: op.new_dir_fd,
                new_path: op.new_path@,
            },
        }
    }

    fn entry(&mut self) -> (d: Sqe) {
        match self {
            Op::HardLink(op) => Sqe::LinkAt {
                old_dir_fd: op.old_dir_fd,
                old_path: clone_bytes(&op.old_path),
                new_dir_fd: op.new_dir_fd,
                new_path: clone_bytes(&op.new_path),
            },
        }
    }

    /// A hard link either succeeded or it did not: a success payload is
    /// discarded, any error result is passed through unchanged — aborting
    /// the completion-processing pass — and the completion context is not
    /// otherwise touched.
    fn complete(self, res: Result<i32, RingError>, ctx: &mut RingCtx<State, Self>) -> (r: Result<
        (),
        RingError,
    >)
        ensures
            r is Ok <==> res is Ok,
            res matches Err(e) ==> r == Result::<(), RingError>::Err(e),
            *final(ctx) == *old(ctx),
    {
        match res {
            Ok(_) => Ok(()),
            Err(e) => Err(e),
        }
    }
}

/// Byte-for-byte copy of a path buffer.
fn clone_bytes(s: &Vec<u8>) -> (r: Vec<u8>)
    ensures
        r@ == s@,
{
    let mut r: Vec<u8> = Vec::new();
    let mut i: usize = 0;
    while i < s.len()
        invariant
            i <= s@.len(),
            r@ == s@.subrange(0, i as int),
        decreases s@.len() - i,
    {
        r.push(s[i]);
        proof {
            assert(r@ =~= s@.subrange(0, i + 1));
        }
        i = i + 1;
    }
    proof {
        assert(r@ =~= s@);
    }
    r
}

/// A hard linker driving hard-link operations through a completion ring. The
/// kernel queue pair itself is owned by the unverified driver, which drains
/// the staged descriptors and feeds completions back.
pub struct RingHardLinker {
    ring: Ring<State, Op>,
}

impl RingHardLinker {
    /// The underlying engine state.
    pub closed spec fn engine(&self) -> Ring<State, Op> {
        self.ring
    }

    /// Creates a new hard linker around a fresh engine.
    pub fn new() -> (r: Self)
        ensures
            r.engine().wf(),
            r.engine().inflight() == Map::<int, Op>::empty(),
            r.engine().submitted() == 0,
            r.engine().delivered() == Set::<nat>::empty(),
            r.engine().staged() == Seq::<TaggedSqe>::empty(),
    {
        Self::with_ring(Ring::new(State))
    }

    /// Creates a new hard linker using the provided engine.
    pub fn with_ring(ring: Ring<State, Op>) -> (r: Self)
        ensures
            r.engine() == ring,
    {
        RingHardLinker { ring }
    }

    /// Submits an already-built operation to the engine.
    pub fn submit(&mut self, op: Op) -> (r: Result<(), RingError>)
        requires
            old(self).engine().wf(),
        ensures
            final(self).engine().wf(),
            r is Ok <==> old(self).engine().can_accept(),
            r is Err ==> *final(self) == *old(self),
            r is Ok ==> final(self).engine().submitted() == old(self).engine().submitted() + 1,
            r is Ok ==> final(self).engine().delivered() == old(self).engine().delivered(),
            r is Ok ==> final(self).engine().staged().len() == old(self).engine().staged().len()
                + 1 && final(self).engine().staged().subrange(
                0,
                old(self).engine().staged().len() as int,
            ) == old(self).engine().staged() && final(self).engine().staged().last().sqe@
                == op.sqe_spec(),
            r is Ok ==> exists|key: int|
                (#[trigger] final(self).engine().inflight().dom().contains(key)) && !old(self).engine().inflight().dom().contains(key) && final(self).engine().inflight() == old(self).engine().inflight().insert(key, op) && final(self).engine().ticket_map() == old(self).engine().ticket_map().insert(key, old(self).engine().submitted() as nat) && 0 <= key <= u64::MAX
                    && final(self).engine().staged().last().user_data == key as u64,
    {
        let r = self.ring.push(op);
        proof {
            if r is Ok {
                let key = choose|key: int|
                    (#[trigger] self.ring.inflight().dom().contains(key)) && !old(self).ring.inflight().dom().contains(key) && self.ring.inflight() == old(self).ring.inflight().insert(key, op) && self.ring.ticket_map() == old(self).ring.ticket_map().insert(key, old(self).ring.submitted() as nat) && 0 <= key <= u64::MAX
                        && self.ring.staged().last().user_data == key as u64;
                assert((#[trigger] self.engine().inflight().dom().contains(key)) && !old(self).engine().inflight().dom().contains(key) && self.engine().inflight() == old(self).engine().inflight().insert(key, op) && self.engine().ticket_map() == old(self).engine().ticket_map().insert(key, old(self).engine().submitted() as nat) && 0 <= key <= u64::MAX
                    && self.engine().staged().last().user_data == key as u64);
            }
        }
        r
    }

    /// Builds and submits a hard-link request with paths relative to two
    /// directory descriptors. Fails only on a path holding a NUL byte (the
    /// request cannot be expressed) or on slot-key exhaustion; kernel-side
    /// backpressure never surfaces here.
    pub fn hard_link_rel(
        &mut self,
        original_dir_fd: i32,
        original_path: Vec<u8>,
        link_dir_fd: i32,
        link_path: Vec<u8>,
    ) -> (r: Result<(), RingError>)
        requires
            old(self).engine().wf(),
        ensures
            final(self).engine().wf(),
            has_nul(original_path@) || has_nul(link_path@) ==> r == Result::<(), RingError>::Err(
                RingError::NulInPath,
            ) && *final(self) == *old(self),
            !has_nul(original_path@) && !has_nul(link_path@) ==> (r is Ok <==> old(self).engine().can_accept()),
            r is Ok ==> final(self).engine().submitted() == old(self).engine().submitted() + 1,
            r is Ok ==> final(self).engine().delivered() == old(self).engine().delivered(),
            r is Ok ==> final(self).engine().staged().len() == old(self).engine().staged().len()
                + 1 && final(self).engine().staged().subrange(
                0,
                old(self).engine().staged().len() as int,
            ) == old(self).engine().staged() && final(self).engine().staged().last().sqe@ == (
            SqeView::LinkAt {
                old_dir_fd: original_dir_fd,
                old_path: original_path@,
                new_dir_fd: link_dir_fd,
                new_path: link_path@,
            }),
            r is Ok ==> exists|key: int|
                (#[trigger] final(self).engine().inflight().dom().contains(key)) && !old(self).engine().inflight().dom().contains(key) && final(self).engine().inflight() == old(self).engine().inflight().insert(
                    key,
                    Op::HardLink(
                        HardLinkOp {
                            old_dir_fd: original_dir_fd,
                            old_path: original_path,
                            new_dir_fd: link_dir_fd,
                            new_path: link_path,
                        },
                    ),
                ) && final(self).engine().ticket_map() == old(self).engine().ticket_map().insert(key, old(self).engine().submitted() as nat) && 0 <= key <= u64::MAX
                    && final(self).engine().staged().last().user_data == key as u64,
    {
        let op = match HardLinkOp::new(original_dir_fd, original_path, link_dir_fd, link_path) {
            Ok(op) => op,
            Err(e) => {
                return Err(e);
            },
        };
        let wrapped = Op::HardLink(op);
        let ghost op0 = wrapped;
        let r = self.submit(wrapped);
        proof {
            if r is Ok {
                let key = choose|key: int|
                    (#[trigger] self.engine().inflight().dom().contains(key)) && !old(self).engine().inflight().dom().contains(key) && self.engine().inflight() == old(self).engine().inflight().insert(key, op0) && self.engine().ticket_map() == old(self).engine().ticket_map().insert(key, old(self).engine().submitted() as nat) && 0 <= key <= u64::MAX
                        && self.engine().staged().last().user_data == key as u64;
                assert((#[trigger] self.engine().inflight().dom().contains(key)) && !old(self).engine().inflight().dom().contains(key) && self.engine().inflight() == old(self).engine().inflight().insert(
                    key,
                    Op::HardLink(
                        HardLinkOp {
                            old_dir_fd: original_dir_fd,
                            old_path: original_path,
                            new_dir_fd: link_dir_fd,
                            new_path: link_path,
                        },
                    ),
                ) && self.engine().ticket_map() == old(self).engine().ticket_map().insert(key, old(self).engine().submitted() as nat) && 0 <= key <= u64::MAX
                    && self.engine().staged().last().user_data == key as u64);
            }
        }
        r
    }

    /// Builds and submits a hard-link request from two absolute paths.
    /// Rejects non-absolute paths, then paths holding a NUL byte; kernel-side
    /// backpressure never surfaces here.
    pub fn hard_link_abs(&mut self, original: Vec<u8>, link: Vec<u8>) -> (r: Result<
        (),
        RingError,
    >)
        requires
            old(self).engine().wf(),
        ensures
            final(self).engine().wf(),
            !(is_absolute(original@) && is_absolute(link@)) ==> r == Result::<(), RingError>::Err(
                RingError::NotAbsolute,
            ) && *final(self) == *old(self),
            is_absolute(original@) && is_absolute(link@) && (has_nul(original@) || has_nul(link@))
                ==> r == Result::<(), RingError>::Err(RingError::NulInPath) && *final(self) == *old(self),
            is_absolute(original@) && is_absolute(link@) && !has_nul(original@) && !has_nul(link@)
                ==> (r is Ok <==> old(self).engine().can_accept()),
            r is Ok ==> final(self).engine().submitted() == old(self).engine().submitted() + 1,
            r is Ok ==> final(self).engine().staged().len() == old(self).engine().staged().len()
                + 1 && final(self).engine().staged().subrange(
                0,
                old(self).engine().staged().len() as int,
            ) == old(self).engine().staged() && final(self).engine().staged().last().sqe@ == (
            SqeView::LinkAt {
                old_dir_fd: -1i32,
                old_path: original@,
                new_dir_fd: -1i32,
                new_path: link@,
            }),
            r is Ok ==> exists|key: int|
                (#[trigger] final(self).engine().inflight().dom().contains(key)) && !old(self).engine().inflight().dom().contains(key) && final(self).engine().inflight() == old(self).engine().inflight().insert(
                    key,
                    Op::HardLink(
                        HardLinkOp {
                            old_dir_fd: -1i32,
                            old_path: original,
                            new_dir_fd: -1i32,
                            new_path: link,
                        },
                    ),
                ) && final(self).engine().ticket_map() == old(self).engine().ticket_map().insert(key, old(self).engine().submitted() as nat) && 0 <= key <= u64::MAX
                    && final(self).engine().staged().last().user_data == key as u64,
    {
        let op = match HardLinkOp::with_absolute_paths(original, link) {
            Ok(op) => op,
            Err(e) => {
                return Err(e);
            },
        };
        let wrapped = Op::HardLink(op);
        let ghost op0 = wrapped;
        let r = self.submit(wrapped);
        proof {
            if r is Ok {
                let key = choose|key: int|
                    (#[trigger] self.engine().inflight().dom().contains(key)) && !old(self).engine().inflight().dom().contains(key) && self.engine().inflight() == old(self).engine().inflight().insert(key, op0) && self.engine().ticket_map() == old(self).engine().ticket_map().insert(key, old(self).engine().submitted() as nat) && 0 <= key <= u64::MAX
                        && self.engine().staged().last().user_data == key as u64;
                assert((#[trigger] self.engine().inflight().dom().contains(key)) && !old(self).engine().inflight().dom().contains(key) && self.engine().inflight() == old(self).engine().inflight().insert(
                    key,
                    Op::HardLink(
                        HardLinkOp {
                            old_dir_fd: -1i32,
                            old_path: original,
                            new_dir_fd: -1i32,
                            new_path: link,
                        },
                    ),
                ) && self.engine().ticket_map() == old(self).engine().ticket_map().insert(key, old(self).engine().submitted() as nat) && 0 <= key <= u64::MAX
                    && self.engine().staged().last().user_data == key as u64);
            }
        }
        r
    }

    /// The number of operations awaiting completion.
    pub fn in_flight(&self) -> (n: usize)
        requires
            self.engine().wf(),
        ensures
            n == self.engine().inflight().dom().len(),
    {
        self.ring.in_flight()
    }

    /// Whether every submitted link has completed.
    pub fn is_drained(&self) -> (b: bool)
        requires
            self.engine().wf(),
        ensures
            b <==> self.engine().inflight().dom() == Set::<int>::empty(),
    {
        self.ring.is_drained()
    }

    /// Whether the correlation tag belongs to an in-flight link request.
    pub fn is_in_flight(&self, user_data: u64) -> (b: bool)
        ensures
            b <==> self.engine().inflight().dom().contains(user_data as int),
    {
        self.ring.is_in_flight(user_data)
    }

    /// Hands the driver the next staged descriptor.
    pub fn pop_staged(&mut self) -> (r: Option<TaggedSqe>)
        ensures
            final(self).engine().inflight() == old(self).engine().inflight(),
            final(self).engine().ticket_map() == old(self).engine().ticket_map(),
            final(self).engine().delivered() == old(self).engine().delivered(),
            final(self).engine().delivered_trace() == old(self).engine().delivered_trace(),
            final(self).engine().submitted() == old(self).engine().submitted(),
            old(self).engine().wf() ==> final(self).engine().wf(),
            old(self).engine().staged().len() == 0 ==> r is None && final(self).engine().staged()
                == old(self).engine().staged(),
            old(self).engine().staged().len() > 0 ==> r == Some(old(self).engine().staged()[0])
                && final(self).engine().staged() == old(self).engine().staged().subrange(
                1,
                old(self).engine().staged().len() as int,
            ),
    {
        self.ring.pop_staged()
    }

    /// Processes a batch of completion entries for the submitted links: each
    /// link's callback receives its own translated result, in batch order,
    /// and an empty batch always succeeds. A failed link aborts the pass
    /// with its error; the links through the failing one are still
    /// delivered.
    pub fn process_completions(&mut self, cqes: &Vec<Cqe>) -> (r: Result<(), RingError>)
        requires
            old(self).engine().wf(),
            forall|j: int|
                0 <= j < cqes@.len() ==> old(self).engine().inflight().dom().contains(
                    #[trigger] cqes@[j].user_data as int,
                ),
            forall|j1: int, j2: int|
                0 <= j1 < j2 < cqes@.len() ==> (#[trigger] cqes@[j1].user_data) != (
                #[trigger] cqes@[j2].user_data),
        ensures
            final(self).engine().wf(),
            old(self).engine().delivered().subset_of(final(self).engine().delivered()),
            final(self).engine().delivered().subset_of(
                old(self).engine().delivered() + batch_tickets(
                    old(self).engine().ticket_map(),
                    cqes@,
                ),
            ),
            old(self).engine().submitted() <= final(self).engine().submitted(),
            cqes@.len() == 0 ==> r is Ok,
            r is Ok ==> final(self).engine().delivered() == old(self).engine().delivered()
                + batch_tickets(old(self).engine().ticket_map(), cqes@),
            r is Ok ==> final(self).engine().delivered_trace() == old(
                self,
            ).engine().delivered_trace() + old(self).engine().batch_trace(cqes@),
            r is Err ==> exists|i: int|
                0 <= i < cqes@.len() && final(self).engine().delivered_trace() == old(
                    self,
                ).engine().delivered_trace() + (#[trigger] old(self).engine().batch_trace(
                    cqes@,
                ).subrange(0, i + 1)) && final(self).engine().delivered() == old(
                    self,
                ).engine().delivered() + batch_tickets(
                    old(self).engine().ticket_map(),
                    cqes@.subrange(0, i + 1),
                ),
    {
        let r = self.ring.process_completions(cqes);
        proof {
            if r is Err {
                let i = choose|i: int|
                    0 <= i < cqes@.len() && self.ring.delivered_trace() == old(
                        self,
                    ).ring.delivered_trace() + (#[trigger] old(self).ring.batch_trace(
                        cqes@,
                    ).subrange(0, i + 1)) && self.ring.delivered() == old(self).ring.delivered()
                        + batch_tickets(old(self).ring.ticket_map(), cqes@.subrange(0, i + 1));
                assert((i as int) < cqes@.len() && self.engine().delivered_trace() == old(
                    self,
                ).engine().delivered_trace() + old(self).engine().batch_trace(cqes@).subrange(
                    0,
                    i + 1,
                ) && self.engine().delivered() == old(self).engine().delivered() + batch_tickets(
                    old(self).engine().ticket_map(),
                    cqes@.subrange(0, i + 1),
                ));
            }
        }
        r
    }
}

} // verus!
