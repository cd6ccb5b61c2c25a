//! The decisions of the streaming workers: the command broadcast protocol between the
//! controller and its per-device worker threads, the start-trigger roles of the running
//! devices, and the workers' error messages.
//!
//! The threads, locks and driver calls live with the caller; the types here hold the state
//! those mechanisms protect and decide each step.
use vstd::prelude::*;

verus! {

/// A command broadcast to all workers.
#[derive(Clone, Copy, PartialEq, Eq, Structural, Debug)]
pub enum WorkerCmd {
    Stream,
    Clear,
}

/// The posted command and the number of commands posted so far.
pub struct CmdChan {
    msg_num: usize,
    cmd: WorkerCmd,
}

/// A worker's view of the command channel: how many commands it has read.
pub struct CmdRecvr {
    viewed_msg_num: usize,
}

/// What a receiver should do when it looks at the channel.
#[derive(Clone, Copy, PartialEq, Eq, Structural, Debug)]
pub enum RecvStep {
    /// No new command yet: wait for the next post.
    Wait,
    /// Exactly one new command is posted: read it.
    Read,
    /// The receiver missed commands; this is an error.
    Diverged,
}

impl CmdChan {
    pub closed spec fn posted(&self) -> nat {
        self.msg_num as nat
    }

    pub closed spec fn last_cmd(&self) -> WorkerCmd {
        self.cmd
    }

    /// A fresh channel: nothing posted, the placeholder command `Clear`.
    pub fn new() -> (c: Self)
        ensures
            c.posted() == 0,
            c.last_cmd() == WorkerCmd::Clear,
    {
        CmdChan { msg_num: 0, cmd: WorkerCmd::Clear }
    }

    /// The number of commands posted so far.
    pub fn msg_num(&self) -> (r: usize)
        ensures
            r == self.posted(),
    {
        self.msg_num
    }

    /// The last posted command.
    pub fn cmd(&self) -> (r: WorkerCmd)
        ensures
            r == self.last_cmd(),
    {
        self.cmd
    }

    /// A receiver that reacts from the next post on.
    pub fn new_recvr(&self) -> (r: CmdRecvr)
        ensures
            r.viewed() == self.posted(),
    {
        CmdRecvr { viewed_msg_num: self.msg_num }
    }

    /// Posts `cmd`: it replaces the last command and the count grows by one.
    pub fn send(&mut self, cmd: WorkerCmd)
        requires
            old(self).posted() < usize::MAX,
        ensures
            final(self).posted() == old(self).posted() + 1,
            final(self).last_cmd() == cmd,
    {
        self.cmd = cmd;
        self.msg_num = self.msg_num + 1;
    }
}

impl CmdRecvr {
    pub closed spec fn viewed(&self) -> nat {
        self.viewed_msg_num as nat
    }

    /// The number of commands this receiver has read.
    pub fn viewed_msg_num(&self) -> (r: usize)
        ensures
            r == self.viewed(),
    {
        self.viewed_msg_num
    }

    /// What to do on looking at `chan`: wait while nothing new is posted, read when exactly
    /// one new command is there, and report divergence otherwise.
    pub fn check(&self, chan: &CmdChan) -> (r: RecvStep)
        ensures
            chan.posted() == self.viewed() ==> r == RecvStep::Wait,
            chan.posted() == self.viewed() + 1 ==> r == RecvStep::Read,
            chan.posted() != self.viewed() && chan.posted() != self.viewed() + 1 ==> r
                == RecvStep::Diverged,
    {
        if chan.msg_num == self.viewed_msg_num {
            RecvStep::Wait
        } else if self.viewed_msg_num < usize::MAX && chan.msg_num == self.viewed_msg_num + 1 {
            RecvStep::Read
        } else {
            RecvStep::Diverged
        }
    }

    /// Reads the new command: the receiver has now seen one more.
    pub fn read(&mut self, chan: &CmdChan) -> (r: WorkerCmd)
        requires
            chan.posted() == old(self).viewed() + 1,
        ensures
            r == chan.last_cmd(),
            final(self).viewed() == old(self).viewed() + 1,
            final(self).viewed() == chan.posted(),
    {
        self.viewed_msg_num = self.viewed_msg_num + 1;
        chan.cmd
    }
}

/// The start-trigger role of a running device: the primary waits until each of its
/// secondaries (their number is given) is listening for the trigger before it starts; a
/// secondary signals that it listens; without a primary every device starts on its own.
#[derive(Clone, Copy, PartialEq, Eq, Structural, Debug)]
pub enum StartSync {
    Primary(usize),
    Secondary,
    NoSync,
}

/// Why the start-trigger roles could not be assigned.
#[derive(Clone, Copy, PartialEq, Eq, Structural, Debug)]
pub enum StartSyncError {
    /// The designated primary is not among the running devices.
    PrimaryNotRunning,
    /// The designated primary has no start-trigger output terminal.
    NoTrigOut,
}

/// The roles of the running devices `running` when `primary` (if any) exports the start
/// trigger: the primary waits for all the others, which are its secondaries.
pub open spec fn start_roles(running: Seq<Seq<char>>, primary: Option<Seq<char>>) -> Seq<StartSync> {
    Seq::new(
        running.len(),
        |i: int|
            match primary {
                None => StartSync::NoSync,
                Some(p) => if running[i] == p {
                    StartSync::Primary((running.len() - 1) as usize)
                } else {
                    StartSync::Secondary
                },
            },
    )
}

/// Assigns the start-trigger roles of the running devices. With a designated primary, it
/// must be running and have a trigger output (`primary_trig_out`).
pub fn plan_start_sync(running: &Vec<String>, primary: Option<&str>, primary_trig_out: bool) -> (r: Result<Vec<StartSync>, StartSyncError>)
    ensures
        ({
            let names = running@.map_values(|s: String| s@);
            match primary {
                None => r == Ok::<Vec<StartSync>, StartSyncError>(r->Ok_0) && r->Ok_0@ == start_roles(names, None),
                Some(p) => {
                    &&& !names.contains(p@) ==> r == Err::<Vec<StartSync>, StartSyncError>(StartSyncError::PrimaryNotRunning)
                    &&& names.contains(p@) && !primary_trig_out ==> r == Err::<Vec<StartSync>, StartSyncError>(StartSyncError::NoTrigOut)
                    &&& names.contains(p@) && primary_trig_out ==> r is Ok && r->Ok_0@ == start_roles(names, Some(p@))
                },
            }
        }),
{
    let ghost names = running@.map_values(|s: String| s@);
    let n = running.len();
    match primary {
        None => {
            let mut roles: Vec<StartSync> = Vec::new();
            let mut i: usize = 0;
            while i < n
                invariant
                    i <= n,
                    n == running@.len(),
                    names == running@.map_values(|s: String| s@),
                    roles@ == start_roles(names, None).take(i as int),
                decreases n - i,
            {
                roles.push(StartSync::NoSync);
                i += 1;
                proof {
                    assert(roles@ =~= start_roles(names, None).take(i as int));
                }
            }
            proof {
                assert(roles@ =~= start_roles(names, None));
            }
            Ok(roles)
        },
        Some(p) => {
            let ps = String::from_str(p);
            let mut found = false;
            let mut i: usize = 0;
            while i < n
                invariant
                    i <= n,
                    n == running@.len(),
                    names == running@.map_values(|s: String| s@),
                    ps@ == p@,
                    found == exists|j: int| 0 <= j < i && names[j] == p@,
                decreases n - i,
            {
                proof {
                    assert(names[i as int] == running@[i as int]@);
                }
                if running[i] == ps {
                    found = true;
                }
                i += 1;
                proof {
                    if found {
                        if names[i - 1] == p@ {
                            assert(exists|j: int| 0 <= j < i && names[j] == p@);
                        }
                    }
                }
            }
            if !found {
                proof {
                    if names.contains(p@) {
                        let j = choose|j: int| 0 <= j < names.len() && names[j] == p@;
                        assert(names[j] == p@);
                    }
                }
                return Err(StartSyncError::PrimaryNotRunning);
            }
            proof {
                let j = choose|j: int| 0 <= j < i && names[j] == p@;
                assert(names.contains(p@));
            }
            if !primary_trig_out {
                return Err(StartSyncError::NoTrigOut);
            }
            let mut roles: Vec<StartSync> = Vec::new();
            let mut i: usize = 0;
            while i < n
                invariant
                    i <= n,
                    n == running@.len(),
                    n > 0,
                    ps@ == p@,
                    names == running@.map_values(|s: String| s@),
                    roles@ == start_roles(names, Some(p@)).take(i as int),
                decreases n - i,
            {
                proof {
                    assert(names[i as int] == running@[i as int]@);
                }
                if running[i] == ps {
                    roles.push(StartSync::Primary(n - 1));
                } else {
                    roles.push(StartSync::Secondary);
                }
                i += 1;
                proof {
                    assert(roles@ =~= start_roles(names, Some(p@)).take(i as int));
                }
            }
            proof {
                assert(roles@ =~= start_roles(names, Some(p@)));
            }
            Ok(roles)
        },
    }
}

/// An error of the NI-DAQmx driver, with its message.
#[derive(Clone, Debug)]
pub struct DAQmxError {
    msg: String,
}

impl DAQmxError {
    pub closed spec fn message(&self) -> Seq<char> {
        self.msg@
    }

    pub fn new(msg: String) -> (e: Self)
        ensures
            e.message() == msg@,
    {
        DAQmxError { msg }
    }

    /// The message.
    pub fn to_string(&self) -> (r: String)
        ensures
            r@ == self.message(),
    {
        self.msg.clone()
    }
}

/// An error that stops a streaming worker, with its message.
#[derive(Debug)]
pub struct WorkerError {
    msg: String,
}

impl WorkerError {
    pub closed spec fn message(&self) -> Seq<char> {
        self.msg@
    }

    /// The worker could not report to the controller.
    pub fn send_failed() -> (e: Self)
        ensures
            e.message() == "Worker thread encountered SendError"@,
    {
        WorkerError { msg: String::from_str("Worker thread encountered SendError") }
    }

    /// The worker could not receive from the controller.
    pub fn recv_failed() -> (e: Self)
        ensures
            e.message() == "Worker encountered RecvError"@,
    {
        WorkerError { msg: String::from_str("Worker encountered RecvError") }
    }

    /// A driver error, with the driver's message.
    pub fn from_daqmx(err: DAQmxError) -> (e: Self)
        ensures
            e.message() == err.message(),
    {
        WorkerError { msg: err.to_string() }
    }

    /// Any other error, described by `msg`.
    pub fn from_msg(msg: String) -> (e: Self)
        ensures
            e.message() == "Worker thread encountered the following error: \n"@ + msg@,
    {
        let mut text = String::from_str("Worker thread encountered the following error: \n");
        text.append(msg.as_str());
        WorkerError { msg: text }
    }

    /// The message.
    pub fn to_string(&self) -> (r: String)
        ensures
            r@ == self.message(),
    {
        self.msg.clone()
    }
}

} // verus!
