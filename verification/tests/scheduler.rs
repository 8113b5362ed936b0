use coopkern::process::{AlignedStack, Process, FRAME_SIZE, INITIAL_XPSR, STACK_SIZE};
use coopkern::scheduler::{Scheduler, SYSCALL_GET_BUTTON, SYSCALL_SET_LED, SYSCALL_YIELD};

const BASE: usize = 0x2000_0000;

fn three_contexts() -> Scheduler {
    let mut s = Scheduler::new();
    for k in 0..3usize {
        let stack = AlignedStack::new(BASE + k * STACK_SIZE);
        let p = Process::new(&stack, 0x100 * (k as u32 + 1));
        s.push(p);
    }
    s
}

fn head_sp(s: &Scheduler) -> usize {
    s.get(0).sp
}

#[test]
fn push_appends_to_tail() {
    let s = three_contexts();
    assert_eq!(s.len(), 3);
    assert_eq!(s.get(0).sp, BASE + STACK_SIZE - FRAME_SIZE);
    assert_eq!(s.get(1).sp, BASE + 2 * STACK_SIZE - FRAME_SIZE);
    assert_eq!(s.get(2).sp, BASE + 3 * STACK_SIZE - FRAME_SIZE);
}

#[test]
fn schedule_next_rotates_head_to_tail() {
    let mut s = three_contexts();
    let a = head_sp(&s);
    s.schedule_next();
    assert_eq!(s.get(2).sp, a);
}

#[test]
fn round_robin_closes_after_n_yields() {
    let mut s = three_contexts();
    let first = head_sp(&s);
    for arg in [7u32, 0, 3] {
        let led = s.exec(SYSCALL_YIELD, arg, false);
        assert_eq!(led, None);
    }
    // after as many yields as contexts, the head is the first context again
    assert_eq!(head_sp(&s), first);
}

#[test]
fn single_yield_hands_cpu_to_next_context() {
    let mut s = three_contexts();
    let second = s.get(1).sp;
    s.exec(SYSCALL_YIELD, 0, false);
    assert_eq!(head_sp(&s), second);
}

#[test]
fn get_button_never_rotates() {
    let mut s = three_contexts();
    let before = head_sp(&s);
    s.exec(SYSCALL_GET_BUTTON, 0, true);
    assert_eq!(head_sp(&s), before);
    s.exec(SYSCALL_GET_BUTTON, 0, false);
    assert_eq!(head_sp(&s), before);
}

#[test]
fn get_button_writes_result_into_r0() {
    let mut s = three_contexts();
    s.exec(SYSCALL_GET_BUTTON, 0, true);
    assert_eq!(s.get(0).frame.r0, 1);
    s.exec(SYSCALL_GET_BUTTON, 0, false);
    assert_eq!(s.get(0).frame.r0, 0);
}

#[test]
fn set_led_reports_command_and_keeps_turn() {
    let mut s = three_contexts();
    let before = head_sp(&s);
    assert_eq!(s.exec(SYSCALL_SET_LED, 1, false), Some(true));
    assert_eq!(head_sp(&s), before);
    assert_eq!(s.exec(SYSCALL_SET_LED, 0, false), Some(false));
    assert_eq!(head_sp(&s), before);
}

#[test]
fn dispatch_preserves_other_trap_frame_registers() {
    let mut s = three_contexts();
    let before = *s.get(0).get_context_frame();
    s.exec(SYSCALL_SET_LED, 1, true);
    let after = *s.get(0).get_context_frame();
    // the task itself wrote r0/r1 when trapping; the kernel wrote nothing
    assert_eq!(after.r0, SYSCALL_SET_LED);
    assert_eq!(after.r1, 1);
    assert_eq!(after.r2, before.r2);
    assert_eq!(after.r3, before.r3);
    assert_eq!(after.r12, before.r12);
    assert_eq!(after.lr, before.lr);
    assert_eq!(after.return_addr, before.return_addr);
    assert_eq!(after.xpsr, before.xpsr);

    s.exec(SYSCALL_GET_BUTTON, 5, true);
    let polled = *s.get(0).get_context_frame();
    // only the designated result register changed during dispatch
    assert_eq!(polled.r0, 1);
    assert_eq!(polled.r1, 5);
    assert_eq!(polled.r2, before.r2);
    assert_eq!(polled.r3, before.r3);
    assert_eq!(polled.r12, before.r12);
    assert_eq!(polled.lr, before.lr);
    assert_eq!(polled.return_addr, before.return_addr);
    assert_eq!(polled.xpsr, before.xpsr);
}

#[test]
fn unknown_request_codes_are_ignored() {
    let mut s = three_contexts();
    let before = head_sp(&s);
    let led = s.exec(42, 9, true);
    assert_eq!(led, None);
    assert_eq!(head_sp(&s), before);
    // the request code stays in r0: no result was written
    assert_eq!(s.get(0).frame.r0, 42);
}

#[test]
fn three_task_scenario_rotates_a_b_c_a() {
    // contexts A, B, C pushed in that order
    let mut s = three_contexts();
    let a = s.get(0).sp;
    let b = s.get(1).sp;
    let c = s.get(2).sp;
    let mut led_on_count = 0;

    // A yields
    assert_eq!(s.exec(SYSCALL_YIELD, 0, false), None);
    assert_eq!(head_sp(&s), b);

    // B issues get_button with the button released, then yields
    assert_eq!(s.exec(SYSCALL_GET_BUTTON, 0, false), None);
    assert_eq!(head_sp(&s), b);
    assert_eq!(s.get(0).frame.r0, 0);
    assert_eq!(s.exec(SYSCALL_YIELD, 0, false), None);
    assert_eq!(head_sp(&s), c);

    // C switches the LED on, then yields
    match s.exec(SYSCALL_SET_LED, 1, false) {
        Some(true) => led_on_count += 1,
        Some(false) => {}
        None => {}
    }
    assert_eq!(head_sp(&s), c);
    assert_eq!(s.exec(SYSCALL_YIELD, 0, false), None);

    // the observed head rotation was A -> B -> C -> A
    assert_eq!(head_sp(&s), a);
    assert_eq!(led_on_count, 1);
}

#[test]
fn initial_xpsr_marks_task_mode() {
    assert_eq!(INITIAL_XPSR, 0x0100_0000);
}
