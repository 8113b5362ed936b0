//! Execution contexts: per-task saved CPU state and stack ownership.
//!
//! On the target, a context's trap frame lives at the top of its stack and is
//! laid out by the trap hardware. Here the frame and the callee-saved
//! register set are held as plain values, and the context switch itself (an
//! architecture-specific instruction sequence) is replaced by its observable
//! effect: the task runs until it traps, leaving its request in the frame's
//! argument registers.

use vstd::prelude::*;

verus! {

/// Bytes of stack owned by one execution context.
pub const STACK_SIZE: usize = 1024;

/// Bytes the hardware pushes for one trap frame (eight 32-bit words).
pub const FRAME_SIZE: usize = 32;

/// The processor-status word that marks ordinary Thumb/task-mode execution.
pub const INITIAL_XPSR: u32 = 0x0100_0000;

/// The hardware-defined exception frame: four argument/return registers, a
/// scratch register, the return-address register, the address at which the
/// task resumes, and the processor-status word. Register `r0` carries the
/// syscall request code on entry to the kernel and, for requests with a
/// result, the result on exit; `r1` carries a request-specific argument.
#[derive(Clone, Copy, PartialEq, Eq, Structural, Debug)]
pub struct ContextFrame {
    pub r0: u32,
    pub r1: u32,
    pub r2: u32,
    pub r3: u32,
    pub r12: u32,
    pub lr: u32,
    pub return_addr: u32,
    pub xpsr: u32,
}

/// A fixed-size, suitably aligned stack region, exclusively owned by exactly
/// one execution context for the lifetime of the program. Only its placement
/// matters to the kernel logic, so it is carried as the region's base
/// address.
#[derive(Clone, Copy, PartialEq, Eq, Structural, Debug)]
pub struct AlignedStack {
    pub base: usize,
}

impl AlignedStack {
    /// The region is 8-byte aligned and lies within the address space.
    pub open spec fn wf(self) -> bool {
        &&& self.base % 8 == 0
        &&& self.base + STACK_SIZE <= usize::MAX
    }

    pub fn new(base: usize) -> (s: AlignedStack)
        requires
            base % 8 == 0,
            base + STACK_SIZE <= usize::MAX,
        ensures
            s.wf(),
            s.base == base,
    {
        AlignedStack { base }
    }
}

/// One execution context: the stack pointer at which its CPU state resides
/// while it is not running, the callee-saved registers that the trap
/// hardware does not capture, and the trap frame at the top of its stack.
#[derive(Clone, Copy, Debug)]
pub struct Process {
    pub sp: usize,
    pub regs: [u32; 8],
    pub frame: ContextFrame,
}

/// The initial trap frame of a context that will start at `entry`: argument
/// registers zeroed, resume address set to the entry point, and the status
/// word marking ordinary task-mode execution.
pub open spec fn initial_frame(entry: u32) -> ContextFrame {
    ContextFrame {
        r0: 0,
        r1: 0,
        r2: 0,
        r3: 0,
        r12: 0,
        lr: 0,
        return_addr: entry,
        xpsr: INITIAL_XPSR,
    }
}

/// `p` after its task has run and trapped with request code `code` and
/// argument `arg`: the task wrote the request into its own argument
/// registers before issuing the trap, and the trap mechanism preserved the
/// rest of its state.
pub open spec fn trapped(p: Process, code: u32, arg: u32) -> Process {
    Process { frame: ContextFrame { r0: code, r1: arg, ..p.frame }, ..p }
}

/// All eight callee-saved registers hold zero.
pub open spec fn regs_zeroed(regs: [u32; 8]) -> bool {
    forall|i: int| 0 <= i < 8 ==> regs@[i] == 0
}

/// Two values describe the same execution context: same stack position and
/// same callee-saved registers, whatever its trap frame currently holds.
pub open spec fn same_task(a: Process, b: Process) -> bool {
    a.sp == b.sp && a.regs == b.regs
}

impl Process {
    /// Constructs a context whose first resume starts it at `entry`: the
    /// initial trap frame is laid out at the top of the stack, the saved
    /// stack pointer points at that frame, and the callee-saved registers
    /// are zeroed.
    pub fn new(stack: &AlignedStack, entry: u32) -> (p: Process)
        requires
            stack.wf(),
        ensures
            p.sp == stack.base + STACK_SIZE - FRAME_SIZE,
            regs_zeroed(p.regs),
            p.frame == initial_frame(entry),
    {
        Process {
            sp: stack.base + STACK_SIZE - FRAME_SIZE,
            regs: [0u32; 8],
            frame: initial_frame_exec(entry),
        }
    }

    /// Hands the CPU to this context until it traps back, requesting the
    /// service `(code, arg)`. On the target this is the context-switch
    /// primitive; its observable effect on the saved state is exactly that
    /// the task wrote its request into the frame's argument registers.
    pub fn exec(&mut self, code: u32, arg: u32)
        ensures
            *final(self) == trapped(*old(self), code, arg),
    {
        self.frame.r0 = code;
        self.frame.r1 = arg;
    }

    /// Read access to the saved trap frame, for syscall dispatch.
    pub fn get_context_frame(&self) -> (f: &ContextFrame)
        ensures
            *f == self.frame,
    {
        &self.frame
    }
}

fn initial_frame_exec(entry: u32) -> (f: ContextFrame)
    ensures
        f == initial_frame(entry),
{
    ContextFrame {
        r0: 0,
        r1: 0,
        r2: 0,
        r3: 0,
        r12: 0,
        lr: 0,
        return_addr: entry,
        xpsr: INITIAL_XPSR,
    }
}

} // verus!
