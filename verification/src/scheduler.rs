//! The scheduler: owns the ready queue, interprets trap results and
//! dispatches privileged services.
//!
//! The ready queue is a ring of externally constructed execution contexts;
//! the intrusive linking of the target is replaced by an arena the scheduler
//! owns, with the head at index zero. One turn of the control loop is
//! `exec`: the head context runs until it traps, the request in its frame is
//! decoded and dispatched, and the queue rotates only when the request was
//! an explicit yield — data-plane calls never cost a task its turn.

use vstd::prelude::*;

use crate::process::{trapped, same_task, ContextFrame, Process};

verus! {

/// Request code for surrendering the CPU.
pub const SYSCALL_YIELD: u32 = 0;

/// Request code for driving the LED; the frame's `r1` is nonzero for "on".
pub const SYSCALL_SET_LED: u32 = 1;

/// Request code for polling the button; the result lands in the frame's
/// `r0`, overwriting the request code.
pub const SYSCALL_GET_BUTTON: u32 = 2;

/// The frame after the kernel has dispatched the request it holds, given
/// the polled button state: `get_button` writes its boolean result into the
/// return-value slot `r0`; every other request leaves the frame untouched.
pub open spec fn dispatched_frame(f: ContextFrame, button: bool) -> ContextFrame {
    if f.r0 == SYSCALL_GET_BUTTON {
        ContextFrame { r0: if button { 1 } else { 0 }, ..f }
    } else {
        f
    }
}

/// The command the kernel forwards to the LED driver while dispatching the
/// request in `f`, if any.
pub open spec fn led_command(f: ContextFrame) -> Option<bool> {
    if f.r0 == SYSCALL_SET_LED {
        Some(f.r1 > 0)
    } else {
        None
    }
}

/// Whether dispatching the request in `f` rotates the ready queue: only the
/// explicit yield expresses cooperative-scheduling intent.
pub open spec fn rotates(f: ContextFrame) -> bool {
    f.r0 == SYSCALL_YIELD
}

/// The ready queue after one full turn of the control loop on queue `q`:
/// the head context traps with `(code, arg)`, the request is dispatched
/// against the polled `button` state, and the old head moves to the tail
/// exactly when the request was a yield.
pub open spec fn sched_step(q: Seq<Process>, code: u32, arg: u32, button: bool) -> Seq<Process>
    recommends
        q.len() >= 1,
{
    let h = trapped(q[0], code, arg);
    let d = Process { frame: dispatched_frame(h.frame, button), ..h };
    if rotates(h.frame) {
        q.subrange(1, q.len() as int).push(d)
    } else {
        q.update(0, d)
    }
}

/// The ready queue after `args.len()` consecutive turns of the control loop
/// in which each head context in turn traps with an explicit yield (the
/// argument register is free to carry anything; a yield takes no argument).
pub open spec fn yield_steps(q: Seq<Process>, args: Seq<u32>, button: bool) -> Seq<Process>
    decreases args.len(),
{
    if args.len() == 0 {
        q
    } else {
        yield_steps(sched_step(q, SYSCALL_YIELD, args[0], button), args.drop_first(), button)
    }
}

pub proof fn lemma_yield_steps(q: Seq<Process>, args: Seq<u32>, button: bool)
    requires
        1 <= q.len(),
        args.len() <= q.len(),
    ensures
        yield_steps(q, args, button) =~= q.subrange(args.len() as int, q.len() as int) + Seq::new(
            args.len(),
            |i: int| trapped(q[i], SYSCALL_YIELD, args[i]),
        ),
    decreases args.len(),
{
    if args.len() > 0 {
        let t0 = trapped(q[0], SYSCALL_YIELD, args[0]);
        let q1 = sched_step(q, SYSCALL_YIELD, args[0], button);
        assert(q1 =~= q.subrange(1, q.len() as int).push(t0));
        lemma_yield_steps(q1, args.drop_first(), button);
        let m = args.len() as int;
        let n = q.len() as int;
        let rest = args.drop_first();
        let lhs = q1.subrange(m - 1, n) + Seq::new(rest.len(), |i: int| trapped(q1[i], SYSCALL_YIELD, rest[i]));
        let rhs = q.subrange(m, n) + Seq::new(args.len(), |i: int| trapped(q[i], SYSCALL_YIELD, args[i]));
        assert forall|i: int| 0 <= i < n implies lhs[i] == rhs[i] by {
            if i < n - m {
                assert(lhs[i] == q1[m - 1 + i]);
                assert(q1[m - 1 + i] == q[m + i]);
            } else if i == n - m {
                assert(lhs[i] == q1[n - 1]);
                assert(q1[n - 1] == t0);
                assert(rhs[i] == trapped(q[0], SYSCALL_YIELD, args[0]));
            } else {
                let j = i - (n - m);
                assert(lhs[i] == trapped(q1[j - 1], SYSCALL_YIELD, rest[j - 1]));
                assert(q1[j - 1] == q[j]);
                assert(rest[j - 1] == args[j]);
                assert(rhs[i] == trapped(q[j], SYSCALL_YIELD, args[j]));
            }
        }
        assert(lhs =~= rhs);
    }
}

/// Law: round-robin closure. For any ready queue of N >= 1 contexts, after N
/// consecutive yield dispatches every context sits at its original queue
/// position again; in particular the head is the original first context.
pub proof fn lemma_round_robin_closure(q: Seq<Process>, args: Seq<u32>, button: bool)
    requires
        1 <= q.len(),
        args.len() == q.len(),
    ensures
        yield_steps(q, args, button).len() == q.len(),
        forall|i: int|
            0 <= i < q.len() ==> yield_steps(q, args, button)[i] == trapped(
                q[i],
                SYSCALL_YIELD,
                args[i],
            ),
        forall|i: int| 0 <= i < q.len() ==> same_task(#[trigger] yield_steps(q, args, button)[i], q[i]),
        same_task(yield_steps(q, args, button)[0], q[0]),
{
    lemma_yield_steps(q, args, button);
    assert(q.subrange(q.len() as int, q.len() as int).len() == 0);
}

/// Law: a `get_button` dispatch never rotates the queue. The head context
/// before and after the dispatch is the same context — only its frame's
/// result register has been written — and every other position is untouched.
pub proof fn lemma_get_button_keeps_head(q: Seq<Process>, arg: u32, button: bool)
    requires
        1 <= q.len(),
    ensures
        sched_step(q, SYSCALL_GET_BUTTON, arg, button).len() == q.len(),
        same_task(sched_step(q, SYSCALL_GET_BUTTON, arg, button)[0], q[0]),
        forall|i: int| 1 <= i < q.len() ==> sched_step(q, SYSCALL_GET_BUTTON, arg, button)[i] == q[i],
{
}

/// Law: dispatch writes at most the designated result register. For every
/// frame, the dispatch writeback preserves `r1`, `r2`, `r3`, `r12`, `lr`,
/// the resume address and the status word; only a `get_button` request has
/// a result, which lands in `r0`, and every other request — `set_led` and
/// `yield` included — leaves the whole frame unchanged.
pub proof fn lemma_dispatch_preserves_registers(f: ContextFrame, button: bool)
    ensures
        dispatched_frame(f, button).r1 == f.r1,
        dispatched_frame(f, button).r2 == f.r2,
        dispatched_frame(f, button).r3 == f.r3,
        dispatched_frame(f, button).r12 == f.r12,
        dispatched_frame(f, button).lr == f.lr,
        dispatched_frame(f, button).return_addr == f.return_addr,
        dispatched_frame(f, button).xpsr == f.xpsr,
        f.r0 != SYSCALL_GET_BUTTON ==> dispatched_frame(f, button) == f,
        f.r0 == SYSCALL_GET_BUTTON ==> dispatched_frame(f, button).r0 == (
        if button {
            1u32
        } else {
            0u32
        }),
{
}

/// Law: forward compatibility. A request code the kernel does not recognize
/// is ignored, never treated as fatal: the dispatch writes nothing back,
/// commands no driver, and does not rotate the queue — the trapped context
/// simply resumes, its frame exactly as it wrote it.
pub proof fn lemma_unknown_request_ignored(q: Seq<Process>, code: u32, arg: u32, button: bool)
    requires
        1 <= q.len(),
        code != SYSCALL_YIELD,
        code != SYSCALL_SET_LED,
        code != SYSCALL_GET_BUTTON,
    ensures
        sched_step(q, code, arg, button) == q.update(0, trapped(q[0], code, arg)),
        led_command(trapped(q[0], code, arg).frame) is None,
{
    assert(sched_step(q, code, arg, button) =~= q.update(0, trapped(q[0], code, arg)));
}

/// The scheduler: the ready queue of execution contexts, head first.
pub struct Scheduler {
    procs: Vec<Process>,
}

impl View for Scheduler {
    type V = Seq<Process>;

    closed spec fn view(&self) -> Seq<Process> {
        self.procs@
    }
}

impl Scheduler {
    /// An empty ready queue.
    pub fn new() -> (s: Scheduler)
        ensures
            s@ == Seq::<Process>::empty(),
    {
        Scheduler { procs: Vec::new() }
    }

    /// Adds a context at the tail of the ready queue. The caller keeps
    /// contexts distinct; the queue itself never allocates or frees one.
    pub fn push(&mut self, p: Process)
        ensures
            final(self)@ == old(self)@.push(p),
    {
        self.procs.push(p);
    }

    /// Moves the head context to the tail, so that the next ready context
    /// becomes head: one round-robin rotation.
    pub fn schedule_next(&mut self)
        requires
            old(self)@.len() >= 1,
        ensures
            final(self)@ == old(self)@.subrange(1, old(self)@.len() as int).push(old(self)@[0]),
    {
        let head = self.procs.remove(0);
        self.procs.push(head);
    }

    /// How many contexts the ready queue holds.
    pub fn len(&self) -> (n: usize)
        ensures
            n == self@.len(),
    {
        self.procs.len()
    }

    /// Read access to the context at queue position `i` (0 is the head).
    pub fn get(&self, i: usize) -> (p: &Process)
        requires
            i < self@.len(),
        ensures
            *p == self@[i as int],
    {
        &self.procs[i]
    }

    /// One turn of the control loop. The head context runs until it traps
    /// with request `(code, arg)`; the kernel decodes the request out of the
    /// saved frame, performs it against the polled `button` state, writes
    /// any result back into the frame's return-value slot, and rotates the
    /// queue only on a yield. The returned command, if any, is what the
    /// kernel forwards to the LED driver; unrecognized request codes are
    /// ignored by design, never treated as fatal.
    ///
    /// An empty ready queue is a fatal configuration error on the target
    /// (report and halt), so it is excluded here.
    pub fn exec(&mut self, code: u32, arg: u32, button: bool) -> (led: Option<bool>)
        requires
            old(self)@.len() >= 1,
        ensures
            final(self)@ == sched_step(old(self)@, code, arg, button),
            final(self)@.len() == old(self)@.len(),
            led == led_command(trapped(old(self)@[0], code, arg).frame),
    {
        let mut head = self.procs.remove(0);
        head.exec(code, arg);
        let mut led: Option<bool> = None;
        let mut should_schedule_next = false;
        if head.frame.r0 == SYSCALL_YIELD {
            should_schedule_next = true;
        } else if head.frame.r0 == SYSCALL_SET_LED {
            led = Some(head.frame.r1 > 0);
        } else if head.frame.r0 == SYSCALL_GET_BUTTON {
            head.frame.r0 = if button {
                1
            } else {
                0
            };
        }
        if should_schedule_next {
            self.procs.push(head);
        } else {
            self.procs.insert(0, head);
        }
        proof {
            assert(self@ =~= sched_step(old(self)@, code, arg, button));
        }
        led
    }
}

} // verus!
