use rtsched::{
    get_elapse_cycles, get_elapse_msec, get_elapse_msec_since, reset_elapse_counter, sys_clk_freq,
    ticks_per_ms, update_sys_clk_freq, Clock, ElapseCounter,
};

#[test]
fn update_sys_clk_freq_updates_ticks_per_ms() {
    let mut clock = Clock::new();

    update_sys_clk_freq(&mut clock, 12_000_000);

    assert_eq!(sys_clk_freq(&clock), 12_000_000);
    assert_eq!(ticks_per_ms(&clock), 12_000);
}

#[test]
fn ticks_per_ms_truncates_sub_millisecond_remainder() {
    let mut clock = Clock::new();

    update_sys_clk_freq(&mut clock, 12_345);

    assert_eq!(ticks_per_ms(&clock), 12);
}

#[test]
fn elapsed_cycles_wrap_around_the_counter() {
    let mut counter = ElapseCounter { start_cycle: 0 };

    reset_elapse_counter(&mut counter, 0xffff_fff0);
    assert_eq!(get_elapse_cycles(&counter, 0xffff_fff0), 0);
    assert_eq!(get_elapse_cycles(&counter, 0xffff_ffff), 15);
    assert_eq!(get_elapse_cycles(&counter, 0x10), 32);
}

#[test]
fn elapsed_milliseconds_are_whole_and_need_a_clock() {
    let mut counter = ElapseCounter { start_cycle: 0 };

    reset_elapse_counter(&mut counter, 1_000);
    assert_eq!(get_elapse_msec(&counter, 37_999, 12_000), 3);
    assert_eq!(get_elapse_msec(&counter, 37_000, 12_000), 3);
    assert_eq!(get_elapse_msec(&counter, 36_999, 12_000), 2);
    assert_eq!(get_elapse_msec(&counter, 36_999, 0), 0);
    assert_eq!(get_elapse_msec_since(5, 24_005, 12_000), 2);
}
