use nicompiler_backend::channel::{Channel, TaskType};
use nicompiler_backend::device::{AddChannelError, Device};
use nicompiler_backend::instruction::{InstrArgs, InstrType, Instruction};

/// Rounds a time in seconds to the clock grid of a device running at `rate` Hz.
fn ticks(t: f64, rate: f64) -> usize {
    (t * rate).round() as usize
}

/// Adds `func` at time `t`, either for `dur` seconds (then keeping its value or not) or, with
/// `None`, until the next instruction; times are put on the clock grid of `rate`.
fn add_instr_t(chan: &mut Channel, func: Instruction, t: f64, end: Option<(f64, bool)>, rate: f64) {
    let start_pos = ticks(t, rate);
    let end_spec = end.map(|(dur, keep_val)| (ticks(t + dur, rate), keep_val));
    let end_val = func.const_value().unwrap_or(0);
    assert!(chan.can_add(&nicompiler_backend::instruction::InstrBook::new(
        start_pos,
        end_spec,
        func,
        end_val
    )));
    chan.add_instr(func, start_pos, end_spec, end_val);
}

fn bits(x: f64) -> u64 {
    x.to_bits()
}

#[test]
fn last_instr_end_pos() {
    let rate = 1e3;
    let mut dev = Device::new("Dev1", TaskType::AO, bits(rate));
    dev.add_channel("ao0", bits(0.0)).unwrap();
    dev.add_channel("ao1", bits(0.0)).unwrap();
    let mock_func = Instruction::new_const(bits(0.0));

    // No instructions
    assert_eq!(dev.last_instr_end_pos(), 0);

    // Instruction t=0..1 on ao0
    add_instr_t(dev.chan_("ao0"), mock_func.clone(), 0.0, Some((1.0, false)), rate);
    assert_eq!(dev.last_instr_end_pos(), 1000);

    // Instruction t=1..2 on ao1
    add_instr_t(dev.chan_("ao1"), mock_func.clone(), 1.0, Some((1.0, false)), rate);
    assert_eq!(dev.last_instr_end_pos(), 2000);

    // "Go-something" instruction on ao1 at t=2
    add_instr_t(dev.chan_("ao1"), mock_func.clone(), 2.0, None, rate);
    assert_eq!(dev.last_instr_end_pos(), 2001);

    dev.clear_edit_cache();
    assert_eq!(dev.last_instr_end_pos(), 0);
}

#[test]
fn check_end_clipped() {
    let rate = 1.0;
    let mut dev = Device::new("Dev1", TaskType::AO, bits(rate));
    dev.add_channel("ao0", bits(0.0)).unwrap();
    let mock_func = Instruction::new_const(bits(0.0));

    // (1) No instructions
    assert_eq!(dev.check_end_clipped(0), false);

    // (2) Finite duration instruction t = 0..1s
    add_instr_t(dev.chan_("ao0"), mock_func.clone(), 0.0, Some((1.0, false)), rate);
    assert_eq!(dev.chan("ao0").last_instr_end_pos(), 1);
    assert_eq!(dev.check_end_clipped(2), false);
    assert_eq!(dev.check_end_clipped(1), true);
    dev.clear_edit_cache();

    // (3) "Go-something" instruction at t = 0s: not meant to have a closing edge
    add_instr_t(dev.chan_("ao0"), mock_func.clone(), 0.0, None, rate);
    assert_eq!(dev.chan("ao0").last_instr_end_pos(), 1);
    assert_eq!(dev.check_end_clipped(1), false);
}

#[test]
fn compile() {
    let rate = 1e3;
    let mut dev = Device::new("Dev1", TaskType::AO, bits(rate));
    dev.add_channel("ao0", bits(0.0)).unwrap();
    dev.add_channel("ao1", bits(0.0)).unwrap();
    let mock_func = Instruction::new_const(bits(0.0));

    // Not compiled yet
    assert_eq!(dev.total_samps(), 0);

    add_instr_t(dev.chan_("ao0"), mock_func.clone(), 0.0, Some((1.0, false)), rate);
    add_instr_t(dev.chan_("ao1"), mock_func.clone(), 1.0, Some((1.0, false)), rate);
    assert_eq!(dev.last_instr_end_pos(), 2000);

    // Compile without clipping of the closing edge: no extra sample
    dev.compile(ticks(3.0, rate));
    assert_eq!(dev.total_samps(), 3000);

    // Compile with the stop matching the end of an instruction on ao1: one extra sample
    dev.compile(ticks(2.0, rate));
    assert_eq!(dev.total_samps(), 2001);
}

#[test]
fn compile_returns_total_samps() {
    let mut dev = Device::new("Dev1", TaskType::AO, bits(10.0));
    dev.add_channel("ao0", bits(0.0)).unwrap();
    dev.chan_("ao0").constant(bits(2.0), 3, Some((7, false)));
    assert_eq!(dev.compile(7), Some(8));
    assert_eq!(dev.compile(20), Some(20));
    assert_eq!(dev.checked_total_samps(), Some(20));
}

#[test]
fn compile_empty_device() {
    let mut dev = Device::new("Dev1", TaskType::DO, bits(10.0));
    dev.add_channel("port0/line0", bits(0.0)).unwrap();
    assert_eq!(dev.compile(0), Some(0));
    assert!(!dev.is_compiled());
    assert_eq!(dev.num_channels(), 1);
}

#[test]
fn channel_compile_pads_and_merges() {
    let mut chan = Channel::new(TaskType::AO, "ao0", bits(1.0), bits(0.5));
    // [2, 5) at 1.0, kept afterwards; [5, 8) at 1.0 again, not kept.
    chan.constant(bits(1.0), 2, Some((5, true)));
    chan.constant(bits(1.0), 5, Some((8, false)));
    chan.compile(10);
    assert!(chan.is_fresh_compiled());
    // Default before, one merged segment for the equal constants, default after.
    assert_eq!(chan.instr_end(), &vec![2, 8, 10]);
    assert_eq!(
        chan.instr_val(),
        &vec![
            Instruction::new_const(bits(0.5)),
            Instruction::new_const(bits(1.0)),
            Instruction::new_const(bits(0.5)),
        ]
    );
    assert_eq!(chan.total_samps(), 10);
}

#[test]
fn channel_open_ended_runs_until_next() {
    let mut chan = Channel::new(TaskType::AO, "ao0", bits(1.0), bits(0.0));
    let sine = Instruction::new_sine(bits(7.0), None, None, Some(bits(1.0)));
    chan.add_instr(sine, 0, None, 0);
    chan.constant(bits(3.0), 4, None);
    assert_eq!(chan.last_instr_end_pos(), 5);
    chan.compile(6);
    assert_eq!(chan.instr_end(), &vec![4, 6]);
    assert_eq!(chan.instr_val(), &vec![sine, Instruction::new_const(bits(3.0))]);
}

#[test]
fn channel_keep_value_after_sine() {
    let mut chan = Channel::new(TaskType::AO, "ao0", bits(1.0), bits(0.0));
    let sine = Instruction::new_sine(bits(1.0), Some(bits(2.0)), None, None);
    chan.add_instr(sine, 1, Some((3, true)), bits(-1.5));
    chan.compile(5);
    assert_eq!(chan.instr_end(), &vec![1, 3, 5]);
    assert_eq!(
        chan.instr_val(),
        &vec![Instruction::new_const(bits(0.0)), sine, Instruction::new_const(bits(-1.5))]
    );
}

#[test]
fn channel_overlap_is_detected() {
    let mut chan = Channel::new(TaskType::AO, "ao0", bits(1.0), bits(0.0));
    chan.constant(bits(1.0), 2, Some((5, false)));
    let f = Instruction::new_const(bits(2.0));
    let inside = nicompiler_backend::instruction::InstrBook::new(4, Some((6, false)), f, bits(2.0));
    let after = nicompiler_backend::instruction::InstrBook::new(5, Some((6, false)), f, bits(2.0));
    let open_before = nicompiler_backend::instruction::InstrBook::new(1, None, f, bits(2.0));
    assert!(!chan.can_add(&inside));
    assert!(chan.can_add(&after));
    assert!(chan.can_add(&open_before));
}

#[test]
fn channel_caches() {
    let mut chan = Channel::new(TaskType::AO, "ao0", bits(1.0), bits(0.0));
    assert!(chan.is_fresh_compiled());
    chan.constant(bits(1.0), 0, Some((2, false)));
    assert!(chan.is_edited() && !chan.is_fresh_compiled() && !chan.is_compiled());
    chan.compile(4);
    assert!(chan.is_compiled() && chan.is_fresh_compiled());
    chan.clear_compile_cache();
    assert!(!chan.is_compiled() && !chan.is_fresh_compiled());
    chan.compile(4);
    chan.clear_edit_cache();
    assert!(!chan.is_edited() && chan.is_compiled() && !chan.is_fresh_compiled());
}

#[test]
fn channel_binfind_and_plan() {
    let mut chan = Channel::new(TaskType::AO, "ao0", bits(1.0), bits(0.0));
    chan.constant(bits(1.0), 10, Some((20, false)));
    chan.compile(40);
    assert_eq!(chan.instr_end(), &vec![10, 20, 40]);
    assert_eq!(chan.binfind_first_intersect_instr(0), 0);
    assert_eq!(chan.binfind_first_intersect_instr(10), 0);
    assert_eq!(chan.binfind_first_intersect_instr(11), 1);
    assert_eq!(chan.binfind_first_intersect_instr(40), 2);
    // Window [5, 25) into 10 slots: positions map to slots by (pos - 5) * 10 / 20, rounding down.
    assert_eq!(chan.signal_plan(5, 25, 10), vec![(0, 0, 2), (1, 2, 7), (2, 7, 10)]);
    // Window [10, 20) exactly on segment 1 (segment 0 ends at the window's start).
    assert_eq!(chan.signal_plan(10, 20, 5), vec![(0, 0, 0), (1, 0, 5)]);
}

#[test]
fn channel_reset_instr() {
    let mut chan = Channel::new(TaskType::AO, "ao0", bits(1.0), bits(0.25));
    chan.constant(bits(1.0), 0, Some((3, true)));
    chan.add_reset_instr(5);
    assert_eq!(chan.instr_list().len(), 2);
    chan.compile(8);
    // The kept value continues the constant until the reset returns it to the default.
    assert_eq!(chan.instr_end(), &vec![5, 8]);
    assert_eq!(chan.instr_val(), &vec![Instruction::new_const(bits(1.0)), Instruction::new_const(bits(0.25))]);
}

#[test]
fn device_add_channel_errors() {
    let mut ao = Device::new("Dev1", TaskType::AO, bits(1e6));
    assert_eq!(ao.add_channel("ao0", bits(0.0)), Ok(()));
    assert_eq!(ao.add_channel("ao0", bits(1.0)), Err(AddChannelError::Duplicate));
    assert_eq!(ao.add_channel("port0/line0", bits(0.0)), Err(AddChannelError::BadName));
    assert_eq!(ao.add_channel("ao", bits(0.0)), Err(AddChannelError::BadName));
    assert_eq!(ao.add_channel("ao12", bits(0.0)), Ok(()));
    assert_eq!(ao.num_channels(), 2);
    assert_eq!(ao.channel_index("ao12"), Some(1));
    assert_eq!(ao.channel_index("ao3"), None);

    let mut dio = Device::new("Dev2", TaskType::DO, bits(1e6));
    assert_eq!(dio.add_channel("ao0", bits(0.0)), Err(AddChannelError::BadName));
    assert_eq!(dio.add_channel("port0/line7", bits(0.0)), Ok(()));
    assert_eq!(dio.add_channel("port0/line", bits(0.0)), Err(AddChannelError::BadName));
    assert_eq!(dio.num_channels(), 1);
}

#[test]
fn device_add_channel_pattern_edges() {
    let mut ao = Device::new("Dev1", TaskType::AO, bits(1e6));
    // the pattern is anchored at both ends
    assert_eq!(ao.add_channel("ao1x", bits(0.0)), Err(AddChannelError::BadName));
    assert_eq!(ao.add_channel("xao1", bits(0.0)), Err(AddChannelError::BadName));
    assert_eq!(ao.add_channel("ao1\n", bits(0.0)), Err(AddChannelError::BadName));
    // `\d` takes in every Unicode decimal digit, not only ASCII ones
    assert_eq!(ao.add_channel("ao\u{0663}", bits(0.0)), Ok(()));
    let mut dio = Device::new("Dev2", TaskType::DO, bits(1e6));
    assert_eq!(dio.add_channel("port0/line1/x", bits(0.0)), Err(AddChannelError::BadName));
    assert_eq!(dio.add_channel("port00/line01", bits(0.0)), Ok(()));
    // an added channel is an editable one
    assert!(dio.chan("port00/line01").editable());
    assert!(ao.chan("ao\u{0663}").editable());
}

#[test]
fn device_sync_settings() {
    let mut dev = Device::new("Dev1", TaskType::AO, bits(1e6));
    assert_eq!(dev.trig_line(), None);
    dev.cfg_trig("PXI1_Trig0", true);
    dev.cfg_ref_clk("PXI1_Trig7", bits(1e7), true);
    dev.cfg_samp_clk_src("PXI1_Trig6");
    assert_eq!(dev.trig_line(), Some("PXI1_Trig0"));
    assert_eq!(dev.export_trig(), Some(true));
    assert_eq!(dev.ref_clk_line(), Some("PXI1_Trig7"));
    assert_eq!(dev.ref_clk_rate(), Some(bits(1e7)));
    assert_eq!(dev.export_ref_clk(), Some(true));
    assert_eq!(dev.samp_clk_src(), Some("PXI1_Trig6"));
    assert_eq!(dev.name(), "Dev1");
    assert_eq!(dev.samp_rate(), bits(1e6));
}

#[test]
fn device_reset_instr() {
    let mut dev = Device::new("Dev1", TaskType::AO, bits(1.0));
    dev.add_channel("ao0", bits(0.0)).unwrap();
    dev.add_channel("ao1", bits(2.0)).unwrap();
    dev.chan_("ao0").constant(bits(1.0), 0, Some((4, true)));
    assert_eq!(dev.last_instr_end_pos(), 4);
    dev.add_reset_instr(6);
    assert_eq!(dev.last_instr_end_pos(), 7);
    dev.compile(10);
    assert_eq!(dev.chan("ao0").instr_end(), &vec![6, 10]);
    assert_eq!(
        dev.chan("ao0").instr_val(),
        &vec![Instruction::new_const(bits(1.0)), Instruction::new_const(bits(0.0))]
    );
    // ao1 only holds its reset: its default all along.
    assert_eq!(dev.chan("ao1").instr_end(), &vec![10]);
    assert_eq!(dev.chan("ao1").instr_val(), &vec![Instruction::new_const(bits(2.0))]);
}

#[test]
fn device_closing_edge_value() {
    let mut dev = Device::new("Dev1", TaskType::AO, bits(1.0));
    dev.add_channel("ao0", bits(-1.0)).unwrap();
    dev.chan_("ao0").constant(bits(3.0), 2, Some((5, false)));
    assert!(dev.check_end_clipped(5));
    assert_eq!(dev.compile(5), Some(6));
    // The extra sample at position 5 carries the default value: the closing edge.
    assert_eq!(dev.chan("ao0").instr_end(), &vec![2, 5, 6]);
    assert_eq!(dev.chan("ao0").instr_val()[2], Instruction::new_const(bits(-1.0)));
}

#[test]
fn do_device_merges_ports() {
    let mut dev = Device::new("Dev1", TaskType::DO, bits(1.0));
    dev.add_channel("port0/line0", bits(0.0)).unwrap();
    dev.add_channel("port0/line1", bits(0.0)).unwrap();
    dev.add_channel("port1/line3", bits(1.0)).unwrap();
    dev.chan_("port0/line0").constant(bits(1.0), 0, Some((10, false)));
    dev.chan_("port0/line1").constant(bits(1.0), 5, Some((20, false)));
    dev.chan_("port1/line3").constant(bits(0.0), 8, Some((12, false)));
    assert!(dev.lines_mergeable());
    assert_eq!(dev.unique_port_numbers(), Vec::<usize>::new());
    assert_eq!(dev.compile(30), Some(30));
    assert_eq!(dev.unique_port_numbers(), vec![0, 1]);
    assert_eq!(dev.num_channels(), 5);

    let port0 = dev.chan("port0");
    assert!(!port0.editable() && port0.streamable());
    assert_eq!(port0.instr_end(), &vec![5, 10, 20, 30]);
    assert_eq!(
        port0.instr_val(),
        &vec![
            Instruction::new_const(bits(1.0)),
            Instruction::new_const(bits(3.0)),
            Instruction::new_const(bits(2.0)),
            Instruction::new_const(bits(0.0)),
        ]
    );
    let port1 = dev.chan("port1");
    assert_eq!(port1.instr_end(), &vec![8, 12, 30]);
    assert_eq!(
        port1.instr_val(),
        &vec![
            Instruction::new_const(bits(8.0)),
            Instruction::new_const(bits(0.0)),
            Instruction::new_const(bits(8.0)),
        ]
    );

    // The streamable compiled channels are the ports; the editable ones are the lines.
    let names: Vec<&str> = dev.compiled_channels(true, false).iter().map(|c| c.name()).collect();
    assert_eq!(names, vec!["port0", "port1"]);
    let names: Vec<&str> = dev.compiled_channels(false, true).iter().map(|c| c.name()).collect();
    assert_eq!(names, vec!["port0/line0", "port0/line1", "port1/line3"]);

    // Compiling again replaces the ports rather than adding more.
    assert_eq!(dev.compile(30), Some(30));
    assert_eq!(dev.num_channels(), 5);

    // Clearing the compile cache drops the ports.
    dev.clear_compile_cache();
    assert_eq!(dev.num_channels(), 3);
    assert!(!dev.is_compiled());
}

#[test]
fn do_lines_must_be_levels() {
    let mut dev = Device::new("Dev1", TaskType::DO, bits(1.0));
    dev.add_channel("port0/line0", bits(0.0)).unwrap();
    dev.chan_("port0/line0").constant(bits(0.5), 0, Some((10, false)));
    assert!(!dev.lines_mergeable());
    let mut dev = Device::new("Dev1", TaskType::DO, bits(1.0));
    dev.add_channel("port0/line40", bits(0.0)).unwrap();
    assert!(!dev.lines_mergeable());
}

#[test]
fn device_state_queries() {
    let mut dev = Device::new("Dev1", TaskType::AO, bits(1.0));
    dev.add_channel("ao0", bits(0.0)).unwrap();
    dev.add_channel("ao1", bits(0.0)).unwrap();
    assert!(!dev.is_edited() && !dev.is_compiled() && dev.is_fresh_compiled());
    dev.chan_("ao1").constant(bits(1.0), 0, Some((3, false)));
    assert!(dev.is_edited() && !dev.is_compiled() && !dev.is_fresh_compiled());
    dev.compile(3);
    assert!(dev.is_compiled() && dev.is_fresh_compiled());
    assert_eq!(dev.compiled_channels(false, false).len(), 1);
}

#[test]
fn instruction_constructors() {
    let c = Instruction::new_const(bits(2.5));
    assert_eq!(c.instr_type, InstrType::CONST);
    assert_eq!(c.const_value(), Some(bits(2.5)));
    let s = Instruction::new_sine(bits(7.5), None, None, Some(bits(1.0)));
    assert_eq!(s.instr_type, InstrType::SINE);
    assert_eq!(s.args.freq, Some(bits(7.5)));
    assert_eq!(s.args.offset, Some(bits(1.0)));
    assert_eq!(s.args.amplitude, None);
    assert_eq!(s.const_value(), None);
    let mut args = InstrArgs::new();
    args.value = Some(bits(1.0));
    assert_eq!(Instruction::new(InstrType::CONST, args), Instruction::new_const(bits(1.0)));
}

#[test]
fn compile_is_repeatable() {
    let mut chan = Channel::new(TaskType::AO, "ao0", bits(1.0), bits(0.0));
    let sine = Instruction::new_sine(bits(3.0), None, Some(bits(0.5)), None);
    chan.add_instr(sine, 2, Some((6, true)), bits(0.75));
    chan.constant(bits(0.75), 9, None);
    chan.compile(12);
    let (ends, vals) = (chan.instr_end().clone(), chan.instr_val().clone());
    chan.clear_compile_cache();
    chan.compile(12);
    assert_eq!(chan.instr_end(), &ends);
    assert_eq!(chan.instr_val(), &vals);
    // The kept value and the next constant are the same instruction, so they merge.
    assert_eq!(ends, vec![2, 6, 12]);
}

#[test]
fn editable_channels_after_port_merge() {
    let mut dev = Device::new("Dev1", TaskType::DO, bits(1.0));
    dev.add_channel("port2/line0", bits(0.0)).unwrap();
    dev.add_channel("port2/line5", bits(0.0)).unwrap();
    dev.chan_("port2/line5").constant(bits(1.0), 1, Some((3, false)));
    dev.compile(4);
    let editable: Vec<&str> = dev.editable_channels().iter().map(|c| c.name()).collect();
    assert_eq!(editable, vec!["port2/line0", "port2/line5"]);
    // Bit 5 of the port value follows line 5.
    let port = dev.chan("port2");
    assert_eq!(port.instr_end(), &vec![1, 3, 4]);
    assert_eq!(
        port.instr_val(),
        &vec![
            Instruction::new_const(bits(0.0)),
            Instruction::new_const(bits(32.0)),
            Instruction::new_const(bits(0.0)),
        ]
    );
}

#[test]
fn port_channel_doc_example() {
    // line0 high over t = 1..3 and line4 high over t = 2..4 give the port values
    // 0, 1, 17, 16, 0 over t = 0..1, 1..2, 2..3, 3..4, 4..5.
    let mut dev = Device::new("Dev1", TaskType::DO, bits(1.0));
    dev.add_channel("port0/line0", bits(0.0)).unwrap();
    dev.add_channel("port0/line4", bits(0.0)).unwrap();
    dev.chan_("port0/line0").constant(bits(1.0), 1, Some((3, false)));
    dev.chan_("port0/line4").constant(bits(1.0), 2, Some((4, false)));
    assert_eq!(dev.compile(5), Some(5));
    let port = dev.chan("port0");
    assert_eq!(port.instr_end(), &vec![1, 2, 3, 4, 5]);
    let values: Vec<f64> = port.instr_val().iter().map(|i| f64::from_bits(i.const_value().unwrap())).collect();
    assert_eq!(values, vec![0.0, 1.0, 17.0, 16.0, 0.0]);
}

#[test]
fn binfind_doc_example() {
    let vals: Vec<Instruction> = (0..5).map(|k| Instruction::new_const(bits(k as f64))).collect();
    let chan = Channel::new_compiled(TaskType::DO, "port0/line0".to_string(), bits(1e7), bits(0.0), vec![10, 20, 30, 40, 50], vals);
    assert_eq!(chan.binfind_first_intersect_instr(15), 1);
    assert_eq!(chan.binfind_first_intersect_instr(20), 1);
    assert_eq!(chan.binfind_first_intersect_instr(25), 2);
    assert_eq!(chan.binfind_first_intersect_instr(55), 5);
    assert_eq!(chan.binfind_first_intersect_instr(5), 0);
}
