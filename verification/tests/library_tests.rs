use nicompiler_backend::channel::TaskType;
use nicompiler_backend::device::AddChannelError;
use nicompiler_backend::experiment::{Experiment, TrigConfigError};
use nicompiler_backend::instruction::Instruction;
use nicompiler_backend::ports::merge_sorted;
use nicompiler_backend::utils::{
    extract_port_line_numbers, make_port_name, parse_port_line, str_contains, AcquireStep, Semaphore,
    StreamCounter,
};
use nicompiler_backend::value::{f64_bits_from_u64, is_level, level, line_weight};
use nicompiler_backend::worker::{
    plan_start_sync, CmdChan, DAQmxError, RecvStep, StartSync, StartSyncError, WorkerCmd, WorkerError,
};

fn bits(x: f64) -> u64 {
    x.to_bits()
}

#[test]
fn port_line_numbers() {
    assert_eq!(extract_port_line_numbers("port0/line32"), (0, 32));
    assert_eq!(extract_port_line_numbers("port3/line7"), (3, 7));
    assert_eq!(parse_port_line("port12/line5/extra"), Some((12, 5)));
    assert_eq!(parse_port_line("port0line1"), None);
    assert_eq!(parse_port_line("portx/line1"), None);
    assert_eq!(parse_port_line("port+4/line+2"), Some((4, 2)));
}

#[test]
fn port_line_round_trip() {
    for (p, l) in [(0usize, 0usize), (1, 31), (17, 4), (123456, 9)] {
        let name = format!("port{}/line{}", p, l);
        assert_eq!(parse_port_line(&name), Some((p, l)));
    }
}

#[test]
fn port_names() {
    assert_eq!(make_port_name(0), "port0");
    assert_eq!(make_port_name(12), "port12");
    assert!(!str_contains(&make_port_name(12), "line"));
}

#[test]
fn substring_search() {
    assert!(str_contains("port0/line3", "line"));
    assert!(!str_contains("port0", "line"));
    assert!(str_contains("abc", ""));
    assert!(!str_contains("li", "line"));
}

#[test]
fn stream_counter_chunks() {
    let mut counter = StreamCounter::new(10, 3);
    assert_eq!(counter.tick_next(), Some((0, 3)));
    assert_eq!(counter.tick_next(), Some((3, 6)));
    assert_eq!(counter.tick_next(), Some((6, 9)));
    assert_eq!(counter.tick_next(), Some((9, 10)));
    assert!(counter.reached_end());
    assert_eq!(counter.pos(), 10);
    // the fifth call wraps around to the beginning
    assert_eq!(counter.tick_next(), Some((0, 3)));
    assert_eq!(counter.pos(), 3);
    counter.reset();
    assert_eq!(counter.pos(), 0);
    assert_eq!(counter.next_pos(), 3);
    assert_eq!(counter.tick_next(), Some((0, 3)));
}

#[test]
fn stream_counter_empty_range() {
    let mut counter = StreamCounter::new(0, 3);
    assert!(counter.reached_end());
    assert_eq!(counter.tick_next(), None);
    assert_eq!(counter.pos(), 0);
}

#[test]
fn semaphore_steps() {
    let mut sem = Semaphore::new(1);
    assert!(matches!(sem.acquire(), AcquireStep::Acquired));
    assert_eq!(sem.count(), 0);
    assert!(matches!(sem.acquire(), AcquireStep::Wait));
    assert_eq!(sem.count(), 0);
    sem.release();
    sem.release();
    assert_eq!(sem.count(), 2);
}

#[test]
fn float_bits_of_integers() {
    for n in [0u64, 1, 2, 3, 5, 255, 1 << 31, (1 << 32) - 1, (1 << 52) + 1, (1 << 53) - 1] {
        assert_eq!(f64_bits_from_u64(n), (n as f64).to_bits());
    }
}

#[test]
fn digital_levels() {
    assert!(is_level(bits(0.0)) && is_level(bits(-0.0)) && is_level(bits(1.0)));
    assert!(!is_level(bits(0.5)) && !is_level(bits(2.0)));
    assert_eq!(level(bits(1.0)), 1);
    assert_eq!(level(bits(-0.0)), 0);
    assert_eq!(line_weight(0), 1);
    assert_eq!(line_weight(31), 1 << 31);
}

#[test]
fn sorted_union() {
    assert_eq!(merge_sorted(&vec![1, 4, 9], &vec![2, 4, 10]), vec![1, 2, 4, 9, 10]);
    assert_eq!(merge_sorted(&vec![], &vec![3]), vec![3]);
    assert_eq!(merge_sorted(&vec![5], &vec![]), vec![5]);
}

#[test]
fn command_protocol() {
    let mut chan = CmdChan::new();
    let mut recvr = chan.new_recvr();
    assert_eq!(recvr.check(&chan), RecvStep::Wait);
    chan.send(WorkerCmd::Stream);
    assert_eq!(chan.msg_num(), 1);
    assert_eq!(recvr.check(&chan), RecvStep::Read);
    assert_eq!(recvr.read(&chan), WorkerCmd::Stream);
    assert_eq!(recvr.viewed_msg_num(), 1);
    assert_eq!(recvr.check(&chan), RecvStep::Wait);
    chan.send(WorkerCmd::Clear);
    chan.send(WorkerCmd::Stream);
    assert_eq!(recvr.check(&chan), RecvStep::Diverged);
    // A receiver made now reacts from the next post on.
    let late = chan.new_recvr();
    assert_eq!(late.viewed_msg_num(), 3);
    assert_eq!(late.check(&chan), RecvStep::Wait);
}

#[test]
fn start_sync_roles() {
    let running = vec!["Dev1".to_string(), "Dev2".to_string(), "Dev3".to_string()];
    assert_eq!(
        plan_start_sync(&running, None, false),
        Ok(vec![StartSync::NoSync, StartSync::NoSync, StartSync::NoSync])
    );
    assert_eq!(
        plan_start_sync(&running, Some("Dev2"), true),
        Ok(vec![StartSync::Secondary, StartSync::Primary(2), StartSync::Secondary])
    );
    assert_eq!(plan_start_sync(&running, Some("Dev9"), true), Err(StartSyncError::PrimaryNotRunning));
    assert_eq!(plan_start_sync(&running, Some("Dev1"), false), Err(StartSyncError::NoTrigOut));
}

#[test]
fn error_messages() {
    let e = DAQmxError::new("driver failure".to_string());
    assert_eq!(e.to_string(), "driver failure");
    assert_eq!(WorkerError::from_daqmx(e.clone()).to_string(), "driver failure");
    assert_eq!(WorkerError::send_failed().to_string(), "Worker thread encountered SendError");
    assert_eq!(WorkerError::recv_failed().to_string(), "Worker encountered RecvError");
    assert_eq!(
        WorkerError::from_msg("oops".to_string()).to_string(),
        "Worker thread encountered the following error: \noops"
    );
}

#[test]
fn experiment_registry() {
    let mut exp = Experiment::new();
    exp.add_ao_device("PXI1Slot3", bits(1e6));
    exp.add_do_device("PXI1Slot6", bits(1e7));
    assert!(exp.has_device("PXI1Slot3") && exp.has_device("PXI1Slot6"));
    assert!(!exp.has_device("PXI1Slot5"));
    assert_eq!(exp.dev("PXI1Slot6").task_type(), TaskType::DO);

    assert_eq!(exp.add_ao_channel("PXI1Slot3", 0, bits(0.0)), Ok(()));
    assert_eq!(exp.add_ao_channel("PXI1Slot3", 0, bits(0.0)), Err(AddChannelError::Duplicate));
    assert_eq!(exp.add_do_channel("PXI1Slot6", 0, 4, bits(0.0)), Ok(()));
    assert_eq!(exp.add_do_channel("PXI1Slot6", 1, 12, bits(1.0)), Ok(()));
    assert_eq!(exp.dev("PXI1Slot3").channel_index("ao0"), Some(0));
    assert_eq!(exp.dev("PXI1Slot6").channel_index("port1/line12"), Some(1));

    assert!(!exp.is_edited() && !exp.is_compiled() && exp.is_fresh_compiled());
    exp.dev_("PXI1Slot6").chan_("port0/line4").constant(bits(1.0), 5, None);
    assert!(exp.is_edited() && !exp.is_fresh_compiled());
    assert_eq!(exp.dev_("PXI1Slot6").compile(10), Some(10));
    assert!(exp.is_compiled());
    let compiled: Vec<&str> = exp.compiled_devices().iter().map(|d| d.name()).collect();
    assert_eq!(compiled, vec!["PXI1Slot6"]);

    exp.clear_compile_cache();
    assert!(!exp.is_compiled() && exp.is_edited());
    exp.clear_edit_cache();
    assert!(!exp.is_edited());
    assert_eq!(exp.dev("PXI1Slot6").num_channels(), 2);
    assert_eq!(exp.dev("PXI1Slot6").last_instr_end_pos(), 0);
}

#[test]
fn experiment_port_channel_values() {
    let mut exp = Experiment::new();
    exp.add_do_device("PXI1Slot6", bits(10.0));
    exp.add_do_channel("PXI1Slot6", 0, 0, bits(0.0)).unwrap();
    exp.add_do_channel("PXI1Slot6", 0, 1, bits(0.0)).unwrap();
    // port0/line0 high over [0, 10); port0/line1 goes high at 0 and stays.
    exp.dev_("PXI1Slot6").chan_("port0/line0").constant(bits(1.0), 0, Some((10, false)));
    exp.dev_("PXI1Slot6").chan_("port0/line1").constant(bits(1.0), 0, None);
    assert_eq!(exp.dev_("PXI1Slot6").compile(50), Some(50));
    let port = exp.dev("PXI1Slot6").chan("port0");
    assert_eq!(port.instr_end(), &vec![10, 50]);
    assert_eq!(port.instr_val(), &vec![Instruction::new_const(bits(3.0)), Instruction::new_const(bits(2.0))]);
}


#[test]
fn trig_config_roles() {
    let mut exp = Experiment::new();
    assert_eq!(exp.check_trig_config(), Ok(()));
    exp.add_ao_device("PXI1Slot6", bits(1e6));
    exp.add_do_device("PXI1Slot7", bits(1e6));
    assert_eq!(exp.check_trig_config(), Ok(()));
    // a device waiting for a start trigger with nobody exporting one
    exp.dev_("PXI1Slot6").cfg_trig("PXI_Trig0", false);
    assert_eq!(exp.check_trig_config(), Err(TrigConfigError::NoPrimary));
    // one primary device makes the configuration consistent
    exp.dev_("PXI1Slot7").cfg_trig("PXI_Trig0", true);
    assert_eq!(exp.check_trig_config(), Ok(()));
    assert!(exp.dev("PXI1Slot7").exports_start_trig());
    assert!(!exp.dev("PXI1Slot6").exports_start_trig());
    // two primaries are refused
    exp.dev_("PXI1Slot6").cfg_trig("PXI_Trig0", true);
    assert_eq!(exp.check_trig_config(), Err(TrigConfigError::MultiplePrimaries));
}

#[test]
fn registry_hands_out_devices() {
    let mut exp = Experiment::new();
    exp.add_ao_device("PXI1Slot3", bits(1e6));
    exp.add_do_device("PXI1Slot6", bits(1e7));
    let devices = exp.into_devices();
    assert_eq!(devices.len(), 2);
    assert_eq!(devices.get_index(0).map(|(k, _)| k.as_str()), Some("PXI1Slot3"));
    assert_eq!(devices.get_index(1).map(|(k, _)| k.as_str()), Some("PXI1Slot6"));
}
