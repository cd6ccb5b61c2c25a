use nicompiler_backend::channel::Channel;
use nicompiler_backend::experiment::Experiment;

fn bits(x: f64) -> u64 {
    x.to_bits()
}

fn ticks(t: f64, rate: f64) -> usize {
    (t * rate).round() as usize
}

/// The constant value a compiled channel plays at position `pos`.
fn value_at(chan: &Channel, pos: usize) -> f64 {
    let plan = chan.signal_plan(pos, pos + 1, 1);
    let (idx, _, _) = *plan.iter().find(|(_, from, to)| from < to).unwrap();
    f64::from_bits(chan.instr_val()[idx].const_value().unwrap())
}

/// Compiles every device of `exp` to `stop_time` seconds, the way the experiment interface
/// does: each device rounds the time to its own clock grid.
fn compile_all(exp: &mut Experiment, stop_time: f64) {
    let names: Vec<String> = exp.devices().keys().cloned().collect();
    for name in names {
        let dev = exp.dev_(&name);
        let rate = f64::from_bits(dev.samp_rate());
        let stop_tick = ticks(stop_time, rate);
        assert!(stop_tick >= dev.last_instr_end_pos());
        assert!(dev.lines_mergeable());
        dev.compile(stop_tick);
    }
}

/// The latest end of an instruction over all devices, in seconds.
fn last_instr_end_time(exp: &Experiment) -> f64 {
    exp.devices()
        .values()
        .map(|dev| dev.last_instr_end_pos() as f64 / f64::from_bits(dev.samp_rate()))
        .fold(0.0, f64::max)
}

#[test]
fn empty_compile() {
    let mut exp = Experiment::new();
    // Define devices and associated channels
    exp.add_do_device("PXI1Slot6", bits(1e7));
    exp.add_do_channel("PXI1Slot6", 0, 0, bits(0.0)).unwrap();

    let stop = last_instr_end_time(&exp);
    compile_all(&mut exp, stop);
    assert!(!exp.is_compiled());
    println!("Compiled!");
}

#[test]
fn test_reset_tick() {
    let rate = 10.0;
    let mut exp = Experiment::new();
    // Define devices and associated channels
    exp.add_do_device("PXI1Slot6", bits(rate));
    exp.add_do_channel("PXI1Slot6", 0, 0, bits(0.0)).unwrap();
    exp.add_do_channel("PXI1Slot6", 0, 1, bits(0.0)).unwrap();

    // high on line 0 over t = 0..1; go_high on line 1 at t = 0
    exp.dev_("PXI1Slot6").chan_("port0/line0").constant(bits(1.0), ticks(0.0, rate), Some((ticks(1.0, rate), false)));
    exp.dev_("PXI1Slot6").chan_("port0/line1").constant(bits(1.0), ticks(0.0, rate), None);
    compile_all(&mut exp, 5.0);

    // Calculate from t=0 ~ 5: go_high takes effect on the tick corresponding to the given time.
    let dev = exp.dev("PXI1Slot6");
    let chans = dev.compiled_channels(false, true);
    assert!(value_at(chans[0], 9) == 1. && value_at(chans[0], 10) == 0.);
    assert!(value_at(chans[1], 9) == 1. && value_at(chans[1], 10) == 1.);

    // Reset happens at the latest end of all instructions
    let reset_tick_time = last_instr_end_time(&exp);
    assert!(reset_tick_time == 1.0);
    let dev = exp.dev_("PXI1Slot6");
    dev.add_reset_instr(ticks(reset_tick_time, rate));
    compile_all(&mut exp, 5.0);
    let dev = exp.dev("PXI1Slot6");
    let chans = dev.compiled_channels(false, true);
    assert!(value_at(chans[0], 9) == 1. && value_at(chans[0], 10) == 0.);
    // Also zeros channel 1 at t=1
    assert!(value_at(chans[1], 9) == 1. && value_at(chans[1], 10) == 0.);
}

/// Adds `func` at `t` seconds on every editable channel of every device, for `dur` seconds
/// (then keeping its value or not) or, with `None`, until the next instruction.
fn add_everywhere(exp: &mut Experiment, func: nicompiler_backend::instruction::Instruction, t: f64, end: Option<(f64, bool)>) {
    let names: Vec<String> = exp.devices().keys().cloned().collect();
    for name in names {
        let dev = exp.dev_(&name);
        let rate = f64::from_bits(dev.samp_rate());
        let chan_names: Vec<String> = dev.editable_channels().iter().map(|c| c.name().to_string()).collect();
        for chan_name in chan_names {
            let start_pos = ticks(t, rate);
            let end_spec = end.map(|(dur, keep)| (ticks(t + dur, rate), keep));
            let value = func.const_value().unwrap();
            let chan = dev.chan_(&chan_name);
            assert!(chan.can_add(&nicompiler_backend::instruction::InstrBook::new(start_pos, end_spec, func, value)));
            chan.add_instr(func, start_pos, end_spec, value);
        }
    }
}

/// The longest run time over the compiled devices, in seconds.
fn total_run_time(exp: &Experiment) -> f64 {
    exp.devices()
        .values()
        .map(|dev| dev.total_samps() as f64 / f64::from_bits(dev.samp_rate()))
        .fold(0.0, f64::max)
}

fn two_device_experiment() -> Experiment {
    let mut exp = Experiment::new();
    exp.add_do_device("Dev1", bits(1000.0));
    exp.add_do_device("Dev2", bits(123.0));
    exp.dev_("Dev1").add_channel("port0/line0", bits(0.0)).unwrap();
    exp.dev_("Dev2").add_channel("port0/line0", bits(0.0)).unwrap();
    exp
}

#[test]
fn compile_incommensurate_clocks() {
    let mut exp = two_device_experiment();
    let mock_func = nicompiler_backend::instruction::Instruction::new_const(bits(1.0));
    let interv = 100e-3;
    let dur = 50e-3;
    for i in 1..101 {
        let stop_time = interv * i as f64;
        add_everywhere(&mut exp, mock_func, stop_time - dur, Some((dur, false)));
        // Compiling to the last instruction end must not cut any instruction on either grid.
        let stop = last_instr_end_time(&exp);
        compile_all(&mut exp, stop);
        for name in ["Dev1", "Dev2"] {
            let dev = exp.dev(name);
            let rate = f64::from_bits(dev.samp_rate());
            assert!(dev.last_instr_end_pos() as f64 / rate - 1e-10 < dev.total_samps() as f64 / rate);
        }
    }
}

#[test]
fn predictable_total_run_time() {
    let mut exp = two_device_experiment();
    let mock_func = nicompiler_backend::instruction::Instruction::new_const(bits(0.0));
    add_everywhere(&mut exp, mock_func, 0.0, Some((0.5, false)));
    compile_all(&mut exp, 1.0);
    assert!(f64::abs(total_run_time(&exp) - 1.0) < 1e-10);
}

#[test]
fn reset_incommensurate_clocks() {
    let mut exp = two_device_experiment();
    let mock_func = nicompiler_backend::instruction::Instruction::new_const(bits(0.0));
    let interv = 100e-3;
    let dur = 50e-3;
    for i in 1..101 {
        let stop_time = interv * i as f64;
        exp.clear_edit_cache();
        add_everywhere(&mut exp, mock_func, stop_time - dur, Some((dur, true)));
        // The reset goes at the last instruction end, which on each grid is not below that
        // grid's last end.
        let reset_time = last_instr_end_time(&exp);
        let names: Vec<String> = exp.devices().keys().cloned().collect();
        for name in names {
            let dev = exp.dev_(&name);
            let pos = ticks(reset_time, f64::from_bits(dev.samp_rate()));
            assert!(pos >= dev.last_instr_end_pos());
            dev.add_reset_instr(pos);
        }
        let stop = last_instr_end_time(&exp);
        compile_all(&mut exp, stop);
    }
}

#[test]
fn predictable_reset_time() {
    let mut exp = two_device_experiment();
    let mock_func = nicompiler_backend::instruction::Instruction::new_const(bits(1.0));
    add_everywhere(&mut exp, mock_func, 0.0, None);
    // In this test, clock grids align at `t = 1.0s`
    let reset_time = 1.0;
    let names: Vec<String> = exp.devices().keys().cloned().collect();
    for name in &names {
        let dev = exp.dev_(name);
        let pos = ticks(reset_time, f64::from_bits(dev.samp_rate()));
        dev.add_reset_instr(pos);
    }
    let stop = last_instr_end_time(&exp);
    compile_all(&mut exp, stop);
    for name in &names {
        let dev = exp.dev(name);
        for chan in dev.editable_channels() {
            // The reset is the last instruction: it starts where the previous one ends.
            let actual_reset_pos = chan.instr_end()[chan.instr_end().len() - 2];
            let expected_reset_pos = ticks(reset_time, f64::from_bits(chan.samp_rate()));
            assert_eq!(actual_reset_pos, expected_reset_pos);
            // The reset instruction gives the reset value.
            let reset_func = chan.instr_val().last().unwrap();
            assert_eq!(reset_func.const_value(), Some(chan.reset_value()));
        }
    }
}
