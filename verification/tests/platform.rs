use rtsched::platform::{
    init_cortex_m_thread_stack, EXC_RETURN_THREAD_MODE_PSP, INITIAL_XPSR_THUMB_STATE,
};
use rtsched::{
    critical_section, dwt_cycle_count, AlignedStack, ContextSwitchPort, CycleCounterPort,
    HostPlatform, SchedulerTimerPort, VERSION,
};

#[test]
fn host_critical_section_allows_nested_calls() {
    let value = critical_section(|| critical_section(|| 42));

    assert_eq!(value, 42);
}

#[test]
fn initial_frame_is_laid_out_below_the_top() {
    let mut stack = AlignedStack([7; 20]);

    let context = init_cortex_m_thread_stack(&mut stack, 0x1000, 0x1_0203, 0x55);

    assert_eq!(context.sp, 0x1000 + 4 * 4);
    assert_eq!(context.exc_return, EXC_RETURN_THREAD_MODE_PSP);
    assert_eq!(stack.0[..4], [7; 4]);
    assert_eq!(stack.0[4..12], [0; 8]);
    assert_eq!(stack.0[12], 0x55);
    assert_eq!(stack.0[13..17], [0; 4]);
    assert_eq!(stack.0[17], EXC_RETURN_THREAD_MODE_PSP);
    assert_eq!(stack.0[18], 0x1_0203);
    assert_eq!(stack.0[19], INITIAL_XPSR_THUMB_STATE);
}

#[test]
fn initial_frame_skips_a_word_below_an_unaligned_top() {
    let mut stack = AlignedStack([9; 17]);

    let context = init_cortex_m_thread_stack(&mut stack, 0x2000, 0x10, 0);

    assert_eq!(context.sp, 0x2000);
    assert_eq!(stack.0[16], 9);
    assert_eq!(stack.0[15], INITIAL_XPSR_THUMB_STATE);
}

#[test]
fn stack_top_is_behind_the_last_word() {
    let stack = AlignedStack([0; 16]);
    assert_eq!(stack.top(0x100), 0x140);
}

#[test]
fn host_platform_has_no_timer_and_no_counter() {
    assert_eq!(HostPlatform::reload(), None);
    assert_eq!(HostPlatform::current(), None);
    assert!(!HostPlatform::program_reload(1));
    assert_eq!(HostPlatform::cycle_count(), 0);
    assert_eq!(dwt_cycle_count::<HostPlatform>(), 0);
    HostPlatform::request_context_switch();
    assert_eq!(VERSION, "0.1.0");
}
