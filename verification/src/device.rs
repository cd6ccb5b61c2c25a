//! Devices: the channels of one NI device task and the device-wide settings.
//!
//! A device compiles all of its editable channels to a common stop position. When the last
//! instruction of some channel ends exactly at the requested stop, one more sample is
//! generated so that this instruction's closing edge is formed. A DO device then merges the
//! line channels of each port into one streamable port channel whose constant values carry
//! the state of line `n` in bit `n`.
use vstd::prelude::*;
use indexmap::IndexMap;
use crate::channel::{Channel, TaskType, last_end_of, closes_at, books_are_levels, lemma_compiled_levels};
use crate::maps::{
    chan_entries, chan_map_new, chan_map_len, chan_map_get, chan_map_get_mut, chan_map_index_of,
    chan_map_insert, chan_map_retain_editable, regex_is_match, regex_matches, prefix_then_digits,
    port_line_ascii, starts_before_more,
};
use crate::instruction::{Instruction, const_instr};
use crate::ports::{
    strictly_increasing, merge_sorted, add_line_levels, on_port, line_of, port_sum, port_value,
    port_has_end, port_ready, const_in, lemma_le_last, lemma_port_sum_take,
};
use crate::stream::{stream_end, stream_wf};
use crate::utils::{lemma_contains_slash_line, parse_port_line, extract_port_line_numbers, port_line_of, port_name, make_port_name, lemma_port_name_no_line, lemma_port_name_injective};
use crate::value::{bits_is_level, is_level, level_of, line_weight, f64_bits_from_u64, TEN_MHZ_BITS};

verus! {

/// The pattern that a channel name of a device of this type must match.
pub open spec fn name_pattern(task_type: TaskType) -> Seq<char> {
    match task_type {
        TaskType::AO => "^ao\\d+$"@,
        TaskType::DO => "^port\\d+/line\\d+$"@,
    }
}

/// A channel name of this type written with ASCII digits: `ao<digits>` or
/// `port<digits>/line<digits>`. Such a name matches the type's pattern.
pub open spec fn ascii_channel_name(task_type: TaskType, name: Seq<char>) -> bool {
    match task_type {
        TaskType::AO => prefix_then_digits("ao"@, name),
        TaskType::DO => port_line_ascii(name),
    }
}

/// The literal text that every channel name of this type begins with.
pub open spec fn name_prefix(task_type: TaskType) -> Seq<char> {
    match task_type {
        TaskType::AO => "ao"@,
        TaskType::DO => "port"@,
    }
}

/// Why a channel could not be added to a device.
#[derive(Clone, Copy, PartialEq, Eq, Structural, Debug)]
pub enum AddChannelError {
    /// The name does not follow the device's naming pattern (`ao<n>` or `port<n>/line<m>`).
    BadName,
    /// A channel with this name is already registered.
    Duplicate,
}

/// A National Instruments device task: its channels (in the order they were added) and
/// its synchronisation settings. The sample rate and the reference clock rate are binary64
/// bit patterns.
pub struct Device {
    channels: IndexMap<String, Channel>,
    name: String,
    task_type: TaskType,
    samp_rate: u64,
    samp_clk_src: Option<String>,
    trig_line: Option<String>,
    export_trig: Option<bool>,
    ref_clk_line: Option<String>,
    export_ref_clk: Option<bool>,
    ref_clk_rate: Option<u64>,
}

/// The settings other than the channels.
pub struct DeviceSettings {
    pub name: Seq<char>,
    pub task_type: TaskType,
    pub samp_rate: u64,
    pub samp_clk_src: Option<Seq<char>>,
    pub trig_line: Option<Seq<char>>,
    pub export_trig: Option<bool>,
    pub ref_clk_line: Option<Seq<char>>,
    pub export_ref_clk: Option<bool>,
    pub ref_clk_rate: Option<u64>,
}

pub open spec fn opt_view(s: Option<String>) -> Option<Seq<char>> {
    match s {
        Some(s) => Some(s@),
        None => None,
    }
}

impl Device {
    pub closed spec fn entries(&self) -> Seq<(Seq<char>, Channel)> {
        chan_entries(self.channels)
    }

    pub closed spec fn settings(&self) -> DeviceSettings {
        DeviceSettings {
            name: self.name@,
            task_type: self.task_type,
            samp_rate: self.samp_rate,
            samp_clk_src: opt_view(self.samp_clk_src),
            trig_line: opt_view(self.trig_line),
            export_trig: self.export_trig,
            ref_clk_line: opt_view(self.ref_clk_line),
            export_ref_clk: self.export_ref_clk,
            ref_clk_rate: self.ref_clk_rate,
        }
    }

    pub open spec fn kind(&self) -> TaskType {
        self.settings().task_type
    }

    pub open spec fn n_chans(&self) -> nat {
        self.entries().len()
    }

    pub open spec fn chan_at(&self, i: int) -> Channel {
        self.entries()[i].1
    }

    /// Every channel is well formed, registered under its own name, of the device's type and
    /// rate; names are distinct.
    pub open spec fn wf(&self) -> bool {
        entries_wf(self.entries(), self.kind(), self.settings().samp_rate)
    }

    /// Some channel is registered under `name`.
    pub open spec fn has_chan(&self, name: Seq<char>) -> bool {
        exists|i: int| 0 <= i < self.n_chans() && (#[trigger] self.entries()[i]).0 == name
    }

    /// The largest end of the last instruction over the editable channels (0 if none).
    pub open spec fn last_end_upto(&self, k: int) -> int
        decreases k,
    {
        if k <= 0 {
            0
        } else {
            let rest = self.last_end_upto(k - 1);
            let c = self.chan_at(k - 1);
            if c.is_editable() && last_end_of(c.list()) > rest {
                last_end_of(c.list())
            } else {
                rest
            }
        }
    }

    pub open spec fn last_end(&self) -> int {
        self.last_end_upto(self.n_chans() as int)
    }

    /// Some edited editable channel has a last instruction with a given end equal to
    /// `stop_tick`.
    pub open spec fn end_clipped(&self, stop_tick: int) -> bool {
        exists|i: int|
            0 <= i < self.n_chans() && (#[trigger] self.chan_at(i)).is_editable() && closes_at(
                self.chan_at(i).list(),
                stop_tick,
            )
    }

    /// A DO device whose line channels can be merged into ports (see [`line_chan_ready`]);
    /// the number of channels bounds the port values below `2^53`.
    pub open spec fn do_ready(&self) -> bool {
        &&& self.n_chans() < 0x20_0000
        &&& forall|i: int|
            0 <= i < self.n_chans() && (#[trigger] self.chan_at(i)).is_editable() ==> line_chan_ready(
                self.entries()[i],
            )
    }

    /// The position to which `compile(stop_tick)` compiles: one more than `stop_tick` when
    /// an instruction ends exactly there, so that its closing edge is generated.
    pub open spec fn compile_stop(&self, stop_tick: int) -> int {
        if self.end_clipped(stop_tick) {
            stop_tick + 1
        } else {
            stop_tick
        }
    }

    /// Creates a device without channels and without synchronisation settings.
    pub fn new(name: &str, task_type: TaskType, samp_rate: u64) -> (d: Self)
        ensures
            d.wf(),
            d.n_chans() == 0,
            d.settings() == (DeviceSettings {
                name: name@,
                task_type,
                samp_rate,
                samp_clk_src: None,
                trig_line: None,
                export_trig: None,
                ref_clk_line: None,
                export_ref_clk: None,
                ref_clk_rate: None,
            }),
    {
        Device {
            channels: chan_map_new(),
            name: String::from_str(name),
            task_type,
            samp_rate,
            samp_clk_src: None,
            trig_line: None,
            export_trig: None,
            ref_clk_line: None,
            export_ref_clk: None,
            ref_clk_rate: None,
        }
    }

    pub fn name(&self) -> (r: &str)
        ensures
            r@ == self.settings().name,
    {
        self.name.as_str()
    }

    pub fn task_type(&self) -> (r: TaskType)
        ensures
            r == self.kind(),
    {
        self.task_type
    }

    /// Sample rate (binary64 bit pattern).
    pub fn samp_rate(&self) -> (r: u64)
        ensures
            r == self.settings().samp_rate,
    {
        self.samp_rate
    }

    /// The channel map.
    pub fn channels(&self) -> (r: &IndexMap<String, Channel>)
        ensures
            chan_entries(*r) == self.entries(),
    {
        &self.channels
    }

    pub fn num_channels(&self) -> (r: usize)
        ensures
            r == self.n_chans(),
    {
        chan_map_len(&self.channels)
    }

    /// The channel at position `i` in insertion order.
    pub fn channel_at(&self, i: usize) -> (r: &Channel)
        requires
            i < self.n_chans(),
        ensures
            *r == self.chan_at(i as int),
    {
        chan_map_get(&self.channels, i).1
    }

    /// Position of the channel named `name`, if any.
    pub fn channel_index(&self, name: &str) -> (r: Option<usize>)
        requires
            self.wf(),
        ensures
            r matches Some(i) ==> i < self.n_chans() && self.chan_at(i as int).name_view() == name@,
            r is None ==> !self.has_chan(name@),
    {
        chan_map_index_of(&self.channels, name)
    }

    /// The channel named `name`, which must exist.
    pub fn chan(&self, name: &str) -> (r: &Channel)
        requires
            self.wf(),
            self.has_chan(name@),
        ensures
            exists|i: int| 0 <= i < self.n_chans() && *r == self.chan_at(i) && r.name_view() == name@,
    {
        let i = match chan_map_index_of(&self.channels, name) {
            Some(i) => i,
            None => {
                proof {
                    let j = choose|j: int| 0 <= j < self.n_chans() && (#[trigger] self.entries()[j]).0 == name@;
                    assert(chan_entries(self.channels)[j].0 == name@);
                }
                0
            },
        };
        proof {
            assert(self.entries()[i as int].0 == self.entries()[i as int].1.name_view());
        }
        let r = chan_map_get(&self.channels, i).1;
        assert(*r == self.chan_at(i as int));
        r
    }

    /// The channel named `name` (which must exist), to modify in place. It stays registered
    /// under its name at its place.
    pub fn chan_(&mut self, name: &str) -> (r: &mut Channel)
        requires
            old(self).wf(),
            old(self).has_chan(name@),
        ensures
            exists|i: int|
                0 <= i < old(self).n_chans() && *r == old(self).chan_at(i) && r.name_view() == name@
                    && final(self).entries() == old(self).entries().update(
                    i,
                    (old(self).entries()[i].0, *final(r)),
                ),
            final(self).settings() == old(self).settings(),
    {
        let i = match chan_map_index_of(&self.channels, name) {
            Some(i) => i,
            None => {
                proof {
                    let j = choose|j: int| 0 <= j < self.n_chans() && (#[trigger] self.entries()[j]).0 == name@;
                    assert(chan_entries(self.channels)[j].0 == name@);
                }
                0
            },
        };
        proof {
            assert(self.entries()[i as int].0 == self.entries()[i as int].1.name_view());
        }
        let r = chan_map_get_mut(&mut self.channels, i);
        assert(*r == old(self).chan_at(i as int));
        r
    }

    // -----------------------------------------------------------------------
    // Synchronisation settings
    // -----------------------------------------------------------------------
    pub fn samp_clk_src(&self) -> (r: Option<&str>)
        ensures
            match r {
                Some(s) => self.settings().samp_clk_src == Some(s@),
                None => self.settings().samp_clk_src is None,
            },
    {
        match &self.samp_clk_src {
            Some(s) => Some(s.as_str()),
            None => None,
        }
    }

    /// Whether the device exports its start trigger: it has a trigger line and is set to
    /// export through it.
    pub fn exports_start_trig(&self) -> (r: bool)
        ensures
            r == (self.settings().trig_line is Some && self.settings().export_trig == Some(true)),
    {
        self.trig_line.is_some() && match self.export_trig {
            Some(b) => b,
            None => false,
        }
    }

    pub fn trig_line(&self) -> (r: Option<&str>)
        ensures
            match r {
                Some(s) => self.settings().trig_line == Some(s@),
                None => self.settings().trig_line is None,
            },
    {
        match &self.trig_line {
            Some(s) => Some(s.as_str()),
            None => None,
        }
    }

    pub fn export_trig(&self) -> (r: Option<bool>)
        ensures
            r == self.settings().export_trig,
    {
        self.export_trig
    }

    pub fn ref_clk_line(&self) -> (r: Option<&str>)
        ensures
            match r {
                Some(s) => self.settings().ref_clk_line == Some(s@),
                None => self.settings().ref_clk_line is None,
            },
    {
        match &self.ref_clk_line {
            Some(s) => Some(s.as_str()),
            None => None,
        }
    }

    pub fn export_ref_clk(&self) -> (r: Option<bool>)
        ensures
            r == self.settings().export_ref_clk,
    {
        self.export_ref_clk
    }

    /// Reference clock rate (binary64 bit pattern).
    pub fn ref_clk_rate(&self) -> (r: Option<u64>)
        ensures
            r == self.settings().ref_clk_rate,
    {
        self.ref_clk_rate
    }

    /// Sets the sample clock source.
    pub fn cfg_samp_clk_src(&mut self, src: &str)
        ensures
            final(self).entries() == old(self).entries(),
            final(self).settings() == (DeviceSettings { samp_clk_src: Some(src@), ..old(self).settings() }),
    {
        self.samp_clk_src = Some(String::from_str(src));
    }

    /// Exports (`export_trig`) or imports the task's start trigger through `trig_line`.
    pub fn cfg_trig(&mut self, trig_line: &str, export_trig: bool)
        ensures
            final(self).entries() == old(self).entries(),
            final(self).settings() == (DeviceSettings {
                trig_line: Some(trig_line@),
                export_trig: Some(export_trig),
                ..old(self).settings()
            }),
    {
        self.trig_line = Some(String::from_str(trig_line));
        self.export_trig = Some(export_trig);
    }

    /// Exports the on-board 10 MHz reference clock to `ref_clk_line` (`export_ref_clk`; the
    /// rate must then be 1e7) or phase-locks to the reference at `ref_clk_line` of rate
    /// `ref_clk_rate`.
    pub fn cfg_ref_clk(&mut self, ref_clk_line: &str, ref_clk_rate: u64, export_ref_clk: bool)
        requires
            export_ref_clk ==> ref_clk_rate == TEN_MHZ_BITS,
        ensures
            final(self).entries() == old(self).entries(),
            final(self).settings() == (DeviceSettings {
                ref_clk_line: Some(ref_clk_line@),
                ref_clk_rate: Some(ref_clk_rate),
                export_ref_clk: Some(export_ref_clk),
                ..old(self).settings()
            }),
    {
        self.ref_clk_line = Some(String::from_str(ref_clk_line));
        self.ref_clk_rate = Some(ref_clk_rate);
        self.export_ref_clk = Some(export_ref_clk);
    }

    // -----------------------------------------------------------------------
    // Channels
    // -----------------------------------------------------------------------
    /// Adds a channel named `name` with default value `default_value` (a binary64 bit
    /// pattern), given whether the name matches the device's naming pattern
    /// (`name_matches`): a name that does not match is refused, then a name already
    /// registered; otherwise the channel is appended.
    pub fn add_channel_checked(&mut self, name: &str, default_value: u64, name_matches: bool) -> (r: Result<(), AddChannelError>)
        requires
            old(self).wf(),
        ensures
            final(self).wf(),
            final(self).settings() == old(self).settings(),
            !name_matches ==> r == Err::<(), AddChannelError>(AddChannelError::BadName)
                && final(self).entries() == old(self).entries(),
            name_matches && old(self).has_chan(name@) ==> r == Err::<(), AddChannelError>(
                AddChannelError::Duplicate,
            ) && final(self).entries() == old(self).entries(),
            name_matches && !old(self).has_chan(name@) ==> r is Ok && final(self).n_chans()
                == old(self).n_chans() + 1 && final(self).entries().take(
                old(self).n_chans() as int,
            ) == old(self).entries() && ({
                let c = final(self).chan_at(old(self).n_chans() as int);
                &&& final(self).entries().last().0 == name@
                &&& c.name_view() == name@
                &&& c.kind() == old(self).kind()
                &&& c.rate_bits() == old(self).settings().samp_rate
                &&& c.default_bits() == default_value
                &&& c.list().len() == 0
                &&& c.ends().len() == 0
                &&& c.fresh()
            }),
    {
        if !name_matches {
            return Err(AddChannelError::BadName);
        }
        match chan_map_index_of(&self.channels, name) {
            Some(_) => {
                return Err(AddChannelError::Duplicate);
            },
            None => {},
        }
        let chan = Channel::new(self.task_type, name, self.samp_rate, default_value);
        let ghost e0 = self.entries();
        let _ = chan_map_insert(&mut self.channels, String::from_str(name), chan);
        proof {
            let e = self.entries();
            assert(e == e0.push((name@, chan)));
            assert(e.take(e0.len() as int) =~= e0);
            assert forall|i: int| 0 <= i < e.len() implies {
                &&& (#[trigger] e[i]).0 == e[i].1.name_view()
                &&& e[i].1.wf()
                &&& e[i].1.kind() == self.kind()
                &&& e[i].1.rate_bits() == self.settings().samp_rate
            } by {
                if i < e0.len() {
                    assert(e[i] == e0[i]);
                    assert(old(self).entries()[i] == e0[i]);
                }
            }
            assert forall|i: int, j: int| 0 <= i < j < e.len() implies (#[trigger] e[i]).0 != (
            #[trigger] e[j]).0 by {
                assert(e[i] == e0[i]);
                if j < e0.len() {
                    assert(e[j] == e0[j]);
                    assert(old(self).entries()[i] == e0[i] && old(self).entries()[j] == e0[j]);
                }
            }
        }
        Ok(())
    }

    /// Adds a channel named `name` with default value `default_value` (a binary64 bit
    /// pattern). The name must match `ao<number>` on an AO device and `port<number>/line<number>`
    /// on a DO device, and must not be registered yet.
    pub fn add_channel(&mut self, name: &str, default_value: u64) -> (r: Result<(), AddChannelError>)
        requires
            old(self).wf(),
        ensures
            channel_added(*old(self), *final(self), name@, default_value, r),
    {
        let pattern = match self.task_type {
            TaskType::AO => "^ao\\d+$",
            TaskType::DO => "^port\\d+/line\\d+$",
        };
        match regex_is_match(pattern, name) {
            Ok(m) => {
                proof {
                    if m && self.task_type == TaskType::DO {
                        lemma_contains_slash_line(name@);
                    }
                }
                self.add_channel_checked(name, default_value, m)
            },
            // Both patterns compile, so this arm is never taken.
            Err(_) => Err(AddChannelError::BadName),
        }
    }

    // -----------------------------------------------------------------------
    // Queries over the editable channels
    // -----------------------------------------------------------------------
    /// End of the last instruction over all editable channels (0 if there is none).
    pub fn last_instr_end_pos(&self) -> (r: usize)
        requires
            self.wf(),
        ensures
            r == self.last_end(),
    {
        let n = chan_map_len(&self.channels);
        let mut acc: usize = 0;
        let mut k: usize = 0;
        while k < n
            invariant
                k <= n,
                n == self.n_chans(),
                self.wf(),
                acc == self.last_end_upto(k as int),
            decreases n - k,
        {
            let c = chan_map_get(&self.channels, k).1;
            proof {
                assert(self.entries()[k as int].1.wf());
            }
            if c.editable() {
                let e = c.last_instr_end_pos();
                if e > acc {
                    acc = e;
                }
            }
            k += 1;
        }
        acc
    }

    /// Whether some edited editable channel's last instruction has a given end equal to
    /// `stop_tick`; `stop_tick` must not cut any instruction.
    pub fn check_end_clipped(&self, stop_tick: usize) -> (r: bool)
        requires
            self.wf(),
            stop_tick >= self.last_end(),
        ensures
            r == self.end_clipped(stop_tick as int),
    {
        let n = chan_map_len(&self.channels);
        let mut k: usize = 0;
        while k < n
            invariant
                k <= n,
                n == self.n_chans(),
                self.wf(),
                forall|i: int|
                    0 <= i < k ==> !((#[trigger] self.chan_at(i)).is_editable() && closes_at(
                        self.chan_at(i).list(),
                        stop_tick as int,
                    )),
            decreases n - k,
        {
            let c = chan_map_get(&self.channels, k).1;
            if c.editable() {
                let l = c.instr_list();
                let m = l.len();
                if m > 0 {
                    match l[m - 1].end_pos() {
                        Some(e) => {
                            if e == stop_tick {
                                assert(self.chan_at(k as int).is_editable());
                                return true;
                            }
                        },
                        None => {},
                    }
                }
            }
            k += 1;
        }
        false
    }

    /// A device is compiled when some editable channel is compiled.
    pub fn is_compiled(&self) -> (r: bool)
        requires
            self.wf(),
        ensures
            r == exists|i: int|
                0 <= i < self.n_chans() && (#[trigger] self.chan_at(i)).is_editable() && self.chan_at(
                    i,
                ).ends().len() > 0,
    {
        let n = chan_map_len(&self.channels);
        let mut k: usize = 0;
        while k < n
            invariant
                k <= n,
                n == self.n_chans(),
                forall|i: int|
                    0 <= i < k ==> !((#[trigger] self.chan_at(i)).is_editable() && self.chan_at(
                        i,
                    ).ends().len() > 0),
            decreases n - k,
        {
            let c = chan_map_get(&self.channels, k).1;
            if c.editable() && c.is_compiled() {
                assert(self.chan_at(k as int).is_editable());
                return true;
            }
            k += 1;
        }
        false
    }

    /// A device is edited when some editable channel is edited.
    pub fn is_edited(&self) -> (r: bool)
        requires
            self.wf(),
        ensures
            r == exists|i: int|
                0 <= i < self.n_chans() && (#[trigger] self.chan_at(i)).is_editable() && self.chan_at(
                    i,
                ).list().len() > 0,
    {
        let n = chan_map_len(&self.channels);
        let mut k: usize = 0;
        while k < n
            invariant
                k <= n,
                n == self.n_chans(),
                forall|i: int|
                    0 <= i < k ==> !((#[trigger] self.chan_at(i)).is_editable() && self.chan_at(
                        i,
                    ).list().len() > 0),
            decreases n - k,
        {
            let c = chan_map_get(&self.channels, k).1;
            if c.editable() && c.is_edited() {
                assert(self.chan_at(k as int).is_editable());
                return true;
            }
            k += 1;
        }
        false
    }

    /// A device is freshly compiled when all of its editable channels are.
    pub fn is_fresh_compiled(&self) -> (r: bool)
        requires
            self.wf(),
        ensures
            r == forall|i: int|
                0 <= i < self.n_chans() && (#[trigger] self.chan_at(i)).is_editable() ==> self.chan_at(
                    i,
                ).fresh(),
    {
        let n = chan_map_len(&self.channels);
        let mut k: usize = 0;
        while k < n
            invariant
                k <= n,
                n == self.n_chans(),
                forall|i: int|
                    0 <= i < k && (#[trigger] self.chan_at(i)).is_editable() ==> self.chan_at(i).fresh(),
            decreases n - k,
        {
            let c = chan_map_get(&self.channels, k).1;
            if c.editable() && !c.is_fresh_compiled() {
                assert(self.chan_at(k as int).is_editable());
                return false;
            }
            k += 1;
        }
        true
    }

    // -----------------------------------------------------------------------
    // Caches
    // -----------------------------------------------------------------------
    /// Removes the channels that are not editable (the DO port channels made by `compile`) and
    /// empties the edit cache (`edit`) or the compiled stream (`!edit`) of every channel left.
    fn retain_and_clear(&mut self, edit: bool)
        requires
            old(self).wf(),
        ensures
            final(self).wf(),
            final(self).settings() == old(self).settings(),
            final(self).n_chans() == editable_entries(old(self).entries()).len(),
            forall|i: int|
                0 <= i < final(self).n_chans() ==> #[trigger] cleared_entry(
                    editable_entries(old(self).entries())[i],
                    final(self).entries()[i],
                    edit,
                ),
            forall|i: int| 0 <= i < final(self).n_chans() ==> (#[trigger] final(self).chan_at(i)).is_editable(),
    {
        chan_map_retain_editable(&mut self.channels);
        proof {
            lemma_editable_entries(old(self).entries(), old(self).kind(), old(self).settings().samp_rate);
        }
        let ghost mid = self.entries();
        let n = chan_map_len(&self.channels);
        let mut k: usize = 0;
        while k < n
            invariant
                k <= n,
                n == mid.len(),
                mid == editable_entries(old(self).entries()),
                self.n_chans() == n,
                entries_wf(mid, old(self).kind(), old(self).settings().samp_rate),
                forall|i: int| 0 <= i < mid.len() ==> (#[trigger] mid[i]).1.is_editable(),
                self.settings() == old(self).settings(),
                forall|j: int| k <= j < n ==> #[trigger] self.entries()[j] == mid[j],
                forall|j: int| 0 <= j < k ==> #[trigger] cleared_entry(mid[j], self.entries()[j], edit),
            decreases n - k,
        {
            proof {
                assert(self.entries()[k as int] == mid[k as int]);
            }
            let ghost prev = self.entries();
            let ghost mut c_new: Channel;
            {
                let c = chan_map_get_mut(&mut self.channels, k);
                if edit {
                    c.clear_edit_cache();
                } else {
                    c.clear_compile_cache();
                }
                proof {
                    c_new = *c;
                }
            }
            k += 1;
            proof {
                let ki = k - 1;
                assert(self.entries() == prev.update(ki, (prev[ki].0, c_new)));
                assert forall|j: int| 0 <= j < k implies #[trigger] cleared_entry(
                    mid[j],
                    self.entries()[j],
                    edit,
                ) by {
                    if j < ki {
                        assert(self.entries()[j] == prev[j]);
                        assert(cleared_entry(mid[j], prev[j], edit));
                    } else {
                        assert(self.entries()[j] == (prev[ki].0, c_new));
                    }
                }
                assert forall|j: int| k <= j < n implies #[trigger] self.entries()[j] == mid[j] by {
                    assert(self.entries()[j] == prev[j]);
                }
            }
        }
        proof {
            assert forall|j: int| 0 <= j < mid.len() implies {
                &&& (#[trigger] self.entries()[j]).0 == mid[j].0
                &&& self.entries()[j].1.wf()
                &&& self.entries()[j].1.same_identity(&mid[j].1)
            } by {
                assert(cleared_entry(mid[j], self.entries()[j], edit));
            }
            lemma_entries_wf_pointwise(mid, self.entries(), self.kind(), self.settings().samp_rate);
            assert forall|i: int| 0 <= i < self.n_chans() implies (#[trigger] self.chan_at(i)).is_editable() by {
                assert(cleared_entry(mid[i], self.entries()[i], edit));
                assert(mid[i].1.is_editable());
            }
        }
    }

    /// Removes the DO port channels made by `compile` and empties the edit cache of every
    /// remaining channel.
    pub fn clear_edit_cache(&mut self)
        requires
            old(self).wf(),
        ensures
            final(self).wf(),
            final(self).settings() == old(self).settings(),
            final(self).n_chans() == editable_entries(old(self).entries()).len(),
            forall|i: int|
                0 <= i < final(self).n_chans() ==> #[trigger] cleared_entry(
                    editable_entries(old(self).entries())[i],
                    final(self).entries()[i],
                    true,
                ),
            final(self).last_end() == 0,
    {
        self.retain_and_clear(true);
        proof {
            assert forall|i: int| 0 <= i < self.n_chans() implies (#[trigger] self.chan_at(i)).list().len() == 0 by {
                assert(cleared_entry(editable_entries(old(self).entries())[i], self.entries()[i], true));
            }
            lemma_last_end_zero(self, self.n_chans() as int);
        }
    }

    /// Removes the DO port channels made by `compile` and empties the compiled stream of every
    /// remaining channel.
    pub fn clear_compile_cache(&mut self)
        requires
            old(self).wf(),
        ensures
            final(self).wf(),
            final(self).settings() == old(self).settings(),
            final(self).n_chans() == editable_entries(old(self).entries()).len(),
            forall|i: int|
                0 <= i < final(self).n_chans() ==> #[trigger] cleared_entry(
                    editable_entries(old(self).entries())[i],
                    final(self).entries()[i],
                    false,
                ),
    {
        self.retain_and_clear(false);
    }

    // -----------------------------------------------------------------------
    // Compilation
    // -----------------------------------------------------------------------
    /// Compiles every editable channel to `stop_pos`.
    fn compile_editable(&mut self, stop_pos: usize)
        requires
            old(self).wf(),
            old(self).last_end() <= stop_pos,
        ensures
            final(self).wf(),
            final(self).settings() == old(self).settings(),
            final(self).n_chans() == old(self).n_chans(),
            forall|i: int|
                0 <= i < old(self).n_chans() ==> #[trigger] compiled_entry(
                    old(self).entries()[i],
                    final(self).entries()[i],
                    stop_pos as int,
                ),
    {
        let n = chan_map_len(&self.channels);
        let mut k: usize = 0;
        while k < n
            invariant
                k <= n,
                n == old(self).n_chans(),
                self.n_chans() == n,
                old(self).wf(),
                old(self).last_end() <= stop_pos,
                self.settings() == old(self).settings(),
                forall|j: int| k <= j < n ==> #[trigger] self.entries()[j] == old(self).entries()[j],
                forall|j: int|
                    0 <= j < k ==> #[trigger] compiled_entry(
                        old(self).entries()[j],
                        self.entries()[j],
                        stop_pos as int,
                    ),
            decreases n - k,
        {
            proof {
                assert(self.entries()[k as int] == old(self).entries()[k as int]);
                assert(old(self).entries()[k as int].1.wf());
            }
            let ghost prev = self.entries();
            let ghost mut c_new: Channel;
            {
                let c = chan_map_get_mut(&mut self.channels, k);
                // A channel already compiled to `stop_pos` and unedited since keeps its stream.
                let current = c.is_edited() && c.is_fresh_compiled() && c.is_compiled() && c.total_samps() == stop_pos;
                if c.editable() && !current {
                    proof {
                        lemma_last_end_bound(old(self), n as int, k as int);
                    }
                    c.compile(stop_pos);
                }
                proof {
                    c_new = *c;
                }
            }
            k += 1;
            proof {
                let ki = k - 1;
                assert(self.entries() == prev.update(ki, (prev[ki].0, c_new)));
                assert forall|j: int| 0 <= j < k implies #[trigger] compiled_entry(
                    old(self).entries()[j],
                    self.entries()[j],
                    stop_pos as int,
                ) by {
                    if j < ki {
                        assert(self.entries()[j] == prev[j]);
                        assert(compiled_entry(old(self).entries()[j], prev[j], stop_pos as int));
                    } else {
                        assert(self.entries()[j] == (prev[ki].0, c_new));
                    }
                }
                assert forall|j: int| k <= j < n implies #[trigger] self.entries()[j] == old(
                    self,
                ).entries()[j] by {
                    assert(self.entries()[j] == prev[j]);
                }
            }
        }
        proof {
            assert forall|j: int| 0 <= j < old(self).n_chans() implies {
                &&& (#[trigger] self.entries()[j]).0 == old(self).entries()[j].0
                &&& self.entries()[j].1.wf()
                &&& self.entries()[j].1.same_identity(&old(self).entries()[j].1)
            } by {
                assert(old(self).entries()[j].1.wf());
                assert(compiled_entry(old(self).entries()[j], self.entries()[j], stop_pos as int));
            }
            lemma_entries_wf_pointwise(old(self).entries(), self.entries(), self.kind(), self.settings().samp_rate);
        }
    }

    /// The number of samples that the card generates: that of the compiled channels, which
    /// must all agree (`None` when they do not), or 0 when no channel is compiled.
    pub fn checked_total_samps(&self) -> (r: Option<usize>)
        requires
            self.wf(),
        ensures
            r is Some <==> samps_consistent(self.entries()),
            r matches Some(v) ==> v == compiled_end_upto(self.entries(), self.n_chans() as int),
    {
        let ghost s = self.entries();
        let n = chan_map_len(&self.channels);
        let mut v: usize = 0;
        let mut ok = true;
        let mut k: usize = 0;
        while k < n
            invariant
                k <= n,
                n == s.len(),
                s == self.entries(),
                self.wf(),
                v == compiled_end_upto(s, k as int),
                v == 0 <==> forall|i: int| 0 <= i < k ==> (#[trigger] s[i]).1.ends().len() == 0,
                ok ==> forall|i: int| 0 <= i < k && (#[trigger] s[i]).1.ends().len() > 0 ==> stream_end(s[i].1.ends()) == v,
                ok == forall|i: int, j: int|
                    0 <= i < k && 0 <= j < k && (#[trigger] s[i]).1.ends().len() > 0 && (
                    #[trigger] s[j]).1.ends().len() > 0 ==> stream_end(s[i].1.ends()) == stream_end(
                        s[j].1.ends(),
                    ),
            decreases n - k,
        {
            let c = chan_map_get(&self.channels, k).1;
            proof {
                assert(s[k as int].1.wf());
            }
            if c.is_compiled() {
                let e = c.total_samps();
                proof {
                    let ends = s[k as int].1.ends();
                    assert(ends[0] > 0);
                    if ends.len() > 1 {
                        assert(ends[0] < ends[ends.len() - 1]);
                    }
                    assert(e > 0);
                    if v != 0 {
                        let w = choose|i: int| 0 <= i < k && (#[trigger] s[i]).1.ends().len() > 0;
                        assert(s[w].1.ends().len() > 0);
                    }
                }
                if v != 0 && v != e {
                    ok = false;
                }
                v = e;
            }
            k += 1;
            proof {
                let ki = k - 1;
                if ok {
                    assert forall|i: int| 0 <= i < k && (#[trigger] s[i]).1.ends().len() > 0 implies stream_end(
                        s[i].1.ends(),
                    ) == v by {}
                }
            }
        }
        proof {
            assert(s.len() == n);
        }
        if ok {
            Some(v)
        } else {
            None
        }
    }

    /// The number of samples that the card generates (see [`Device::checked_total_samps`]);
    /// the compiled channels must agree on it.
    pub fn total_samps(&self) -> (r: usize)
        requires
            self.wf(),
            samps_consistent(self.entries()),
        ensures
            r == compiled_end_upto(self.entries(), self.n_chans() as int),
    {
        match self.checked_total_samps() {
            Some(v) => v,
            None => 0,
        }
    }

    /// Compiles every editable channel to a common stop position and returns the number of
    /// samples the card generates (`None` when the compiled channels disagree on it).
    ///
    /// The stop position is `stop_tick`, or `stop_tick + 1` when the last instruction of some
    /// channel ends exactly at `stop_tick`, so that its closing edge is generated. A DO
    /// device then drops the port channels of a previous compilation and merges the line
    /// channels of each port into one port channel (see [`do_compiled`]).
    pub fn compile(&mut self, stop_tick: usize) -> (r: Option<usize>)
        requires
            old(self).wf(),
            old(self).last_end() <= stop_tick,
            stop_tick < usize::MAX,
            old(self).kind() == TaskType::DO ==> old(self).do_ready(),
        ensures
            final(self).wf(),
            final(self).settings() == old(self).settings(),
            r is Some <==> samps_consistent(final(self).entries()),
            r matches Some(v) ==> v == compiled_end_upto(final(self).entries(), final(self).n_chans() as int),
            old(self).kind() == TaskType::AO ==> final(self).n_chans() == old(self).n_chans() && forall|i: int|
                0 <= i < old(self).n_chans() ==> #[trigger] compiled_entry(
                    old(self).entries()[i],
                    final(self).entries()[i],
                    old(self).compile_stop(stop_tick as int),
                ),
            old(self).kind() == TaskType::DO ==> do_compiled(
                editable_entries(old(self).entries()),
                final(self).entries(),
                old(self).compile_stop(stop_tick as int),
                old(self).settings().samp_rate,
            ),
    {
        let clipped = self.check_end_clipped(stop_tick);
        let stop_pos = if clipped {
            stop_tick + 1
        } else {
            stop_tick
        };
        let ghost s0 = self.entries();
        let ghost rate = self.settings().samp_rate;
        let ghost kind = self.kind();
        self.compile_editable(stop_pos);
        match self.task_type {
            TaskType::AO => {},
            TaskType::DO => {
                let ghost s1 = self.entries();
                chan_map_retain_editable(&mut self.channels);
                proof {
                    lemma_editable_entries(s1, kind, rate);
                    lemma_editable_compiled(s0, s1, stop_pos as int);
                    let lines0 = editable_entries(s0);
                    let s2 = self.entries();
                    assert(s2 == editable_entries(s1));
                    s1.lemma_filter_len(|e: (Seq<char>, Channel)| e.1.is_editable());
                    assert forall|i: int| 0 <= i < self.n_chans() implies (#[trigger] self.chan_at(i)).is_editable() by {
                        assert(s2[i].1.is_editable());
                    }
                    // Every remaining channel comes from an editable channel of the device before compiling.
                    assert forall|i: int| 0 <= i < s2.len() implies #[trigger] line_chan_ready(lines0[i]) by {
                        assert(lines0[i].1.is_editable()) by {
                            lemma_editable_entries(s0, kind, rate);
                        }
                        let pred = |e: (Seq<char>, Channel)| e.1.is_editable();
                        assert(lines0.contains(lines0[i]));
                        s0.lemma_filter_contains_rev(pred, lines0[i]);
                        let j = choose|j: int| 0 <= j < s0.len() && s0[j] == lines0[i];
                        assert(old(self).chan_at(j).is_editable());
                    }
                    assert(names_readable(s2)) by {
                        assert forall|i: int| 0 <= i < s2.len() && (#[trigger] s2[i]).1.ends().len() > 0
                            && s2[i].1.is_editable() implies port_line_of(s2[i].0) is Some by {
                            assert(compiled_entry(lines0[i], s2[i], stop_pos as int));
                            assert(line_chan_ready(lines0[i]));
                        }
                    }
                    assert forall|p: nat| #[trigger] port_ready(s2, p) by {
                        assert forall|i: int| 0 <= i < s2.len() && on_port(s2[i], p) implies {
                            &&& stream_wf((#[trigger] s2[i]).1.ends(), s2[i].1.vals())
                            &&& s2[i].1.ends().len() > 0
                            &&& crate::ports::vals_are_levels(s2[i].1.vals())
                            &&& line_of(s2[i]) < 32
                        } by {
                            assert(compiled_entry(lines0[i], s2[i], stop_pos as int));
                            assert(line_chan_ready(lines0[i]));
                            assert(lines0[i].1.is_editable());
                            lemma_compiled_levels(s2[i].1, stop_pos as int);
                        }
                        assert forall|i: int, j: int|
                            0 <= i < s2.len() && 0 <= j < s2.len() && on_port(s2[i], p) && on_port(s2[j], p) implies stream_end(
                            (#[trigger] s2[i]).1.ends(),
                        ) == stream_end((#[trigger] s2[j]).1.ends()) by {
                            assert(compiled_entry(lines0[i], s2[i], stop_pos as int));
                            assert(compiled_entry(lines0[j], s2[j], stop_pos as int));
                            assert(lines0[i].1.is_editable());
                            assert(lines0[j].1.is_editable());
                        }
                    }
                }
                self.build_port_channels();
                proof {
                    let lines0 = editable_entries(s0);
                    let s2 = editable_entries(s1);
                    let m = lines0.len() as int;
                    assert(self.entries().take(m) == s2);
                    assert forall|i: int| 0 <= i < m implies #[trigger] compiled_entry(lines0[i], self.entries()[i], stop_pos as int) by {
                        assert(self.entries()[i] == self.entries().take(m)[i]);
                    }
                    assert forall|p: nat| #[trigger] port_ready(self.entries().take(m), p) by {
                        assert(port_ready(s2, p));
                    }
                }
            },
        }
        self.checked_total_samps()
    }

    // -----------------------------------------------------------------------
    // DO ports
    // -----------------------------------------------------------------------
    /// The line number of an edited line channel of port `port`; `None` for any other channel.
    fn line_on_port(c: &Channel, port: usize) -> (r: Option<usize>)
        ensures
            r is Some <==> on_port((c.name_view(), *c), port as nat),
            r matches Some(l) ==> l == line_of((c.name_view(), *c)),
    {
        if !c.editable() || !c.is_edited() {
            return None;
        }
        match parse_port_line(c.name()) {
            Some((p, l)) => if p == port {
                Some(l)
            } else {
                None
            },
            None => None,
        }
    }

    /// The merged stream of port `port`: its segment ends are those of the port's edited line
    /// channels, in increasing order, and each segment holds the constant whose value is the
    /// sum of `level * 2^line` over those channels.
    fn port_stream(&self, port: usize) -> (r: (Vec<usize>, Vec<Instruction>))
        requires
            self.wf(),
            self.n_chans() < 0x20_0000,
            port_ready(self.entries(), port as nat),
        ensures
            strictly_increasing(r.0@),
            r.1@.len() == r.0@.len(),
            r.0@.len() > 0 ==> r.0@[0] > 0,
            forall|x: usize| r.0@.contains(x) <==> port_has_end(self.entries(), port as nat, x),
            forall|i: int|
                0 <= i < r.0@.len() ==> #[trigger] r.1@[i] == const_instr(
                    port_value(self.entries(), port as nat, r.0@[i] - 1),
                ),
    {
        let ghost s = self.entries();
        let ghost pn = port as nat;
        let n = chan_map_len(&self.channels);
        let mut ends: Vec<usize> = Vec::new();
        let mut k: usize = 0;
        while k < n
            invariant
                k <= n,
                n == s.len(),
                s == self.entries(),
                self.wf(),
                port_ready(s, pn),
                pn == port,
                strictly_increasing(ends@),
                forall|x: usize| ends@.contains(x) <==> port_has_end(s.take(k as int), pn, x),
            decreases n - k,
        {
            let c = chan_map_get(&self.channels, k).1;
            proof {
                assert(s[k as int].0 == s[k as int].1.name_view());
            }
            let ghost ends0 = ends@;
            match Self::line_on_port(c, port) {
                Some(_) => {
                    proof {
                        assert(stream_wf(s[k as int].1.ends(), s[k as int].1.vals()));
                    }
                    ends = merge_sorted(&ends, c.instr_end());
                },
                None => {},
            }
            k += 1;
            proof {
                let t = s.take(k as int);
                let t0 = s.take(k - 1);
                assert forall|x: usize| ends@.contains(x) <==> port_has_end(t, pn, x) by {
                    if port_has_end(t, pn, x) {
                        let i = choose|i: int| 0 <= i < t.len() && on_port(t[i], pn) && (#[trigger] t[i]).1.ends().contains(x);
                        if i < k - 1 {
                            assert(t0[i] == t[i]);
                            assert(port_has_end(t0, pn, x));
                        } else {
                            assert(t[i] == s[k - 1]);
                        }
                    }
                    if port_has_end(t0, pn, x) {
                        let i = choose|i: int| 0 <= i < t0.len() && on_port(t0[i], pn) && (#[trigger] t0[i]).1.ends().contains(x);
                        assert(t[i] == t0[i]);
                        assert(port_has_end(t, pn, x));
                    }
                    if on_port(s[k - 1], pn) && s[k - 1].1.ends().contains(x) {
                        assert(t[k - 1] == s[k - 1]);
                        assert(port_has_end(t, pn, x));
                    }
                }
            }
        }
        proof {
            assert(s.take(n as int) =~= s);
        }
        let m = ends.len();
        // Every edited line channel of the port stops where the merged stream stops, and its
        // boundaries are among the merged ones.
        proof {
            assert forall|i: int| 0 <= i < s.len() && on_port(s[i], pn) implies {
                &&& #[trigger] stream_end(s[i].1.ends()) == stream_end(ends@)
                &&& forall|x: usize| s[i].1.ends().contains(x) ==> ends@.contains(x)
            } by {
                let ce = s[i].1.ends();
                assert(stream_wf(ce, s[i].1.vals()));
                assert(ce.len() > 0);
                assert forall|x: usize| ce.contains(x) implies ends@.contains(x) by {
                    assert(port_has_end(s, pn, x));
                }
                let last = ce[ce.len() - 1];
                assert(ce.contains(last));
                assert(ends@.contains(last));
                lemma_le_last(ends@, last);
                let el = ends@[ends@.len() - 1];
                assert(ends@.contains(el));
                assert(port_has_end(s, pn, el));
                let j = choose|j: int| 0 <= j < s.len() && on_port(s[j], pn) && (#[trigger] s[j]).1.ends().contains(el);
                assert(stream_wf(s[j].1.ends(), s[j].1.vals()));
                lemma_le_last(s[j].1.ends(), el);
                assert(stream_end(s[j].1.ends()) == stream_end(ce));
            }
            if m > 0 {
                let e0 = ends@[0];
                assert(ends@.contains(e0));
                assert(port_has_end(s, pn, e0));
                let j = choose|j: int| 0 <= j < s.len() && on_port(s[j], pn) && (#[trigger] s[j]).1.ends().contains(e0);
                let cj = s[j].1.ends();
                assert(stream_wf(cj, s[j].1.vals()));
                let q = choose|q: int| 0 <= q < cj.len() && cj[q] == e0;
                if q > 0 {
                    assert(cj[0] < cj[q]);
                }
            }
        }
        let mut sums: Vec<u64> = Vec::new();
        let mut i: usize = 0;
        while i < m
            invariant
                i <= m,
                sums@.len() == i,
                forall|j: int| 0 <= j < i ==> sums@[j] == 0,
            decreases m - i,
        {
            sums.push(0);
            i += 1;
        }
        proof {
            assert forall|j: int| 0 <= j < m implies #[trigger] sums@[j] == port_sum(s.take(0), pn, ends@[j] - 1) by {
                assert(s.take(0).len() == 0);
            }
        }
        let mut k: usize = 0;
        while k < n
            invariant
                k <= n,
                n == s.len(),
                n < 0x20_0000,
                s == self.entries(),
                self.wf(),
                port_ready(s, pn),
                pn == port,
                m == ends@.len(),
                strictly_increasing(ends@),
                m > 0 ==> ends@[0] > 0,
                forall|i: int| 0 <= i < s.len() && on_port(s[i], pn) ==> {
                    &&& #[trigger] stream_end(s[i].1.ends()) == stream_end(ends@)
                    &&& forall|x: usize| s[i].1.ends().contains(x) ==> ends@.contains(x)
                },
                sums@.len() == m,
                forall|j: int| 0 <= j < m ==> #[trigger] sums@[j] == port_sum(s.take(k as int), pn, ends@[j] - 1),
                forall|j: int| 0 <= j < m ==> sums@[j] <= k * 0x1_0000_0000,
            decreases n - k,
        {
            let c = chan_map_get(&self.channels, k).1;
            let ghost ki = k as int;
            let ghost sums0 = sums@;
            proof {
                assert(s[ki].0 == s[ki].1.name_view());
                assert(k * 0x1_0000_0000 <= 0xFFFF_FFFF_0000_0000);
            }
            match Self::line_on_port(c, port) {
                Some(l) => {
                    proof {
                        assert(stream_wf(s[ki].1.ends(), s[ki].1.vals()));
                        assert(stream_end(s[ki].1.ends()) == stream_end(ends@));
                    }
                    let w = line_weight(l);
                    add_line_levels(&mut sums, &ends, c.instr_end(), c.instr_val(), w);
                    proof {
                        assert forall|j: int| 0 <= j < m implies #[trigger] sums@[j] == port_sum(
                            s.take(k + 1),
                            pn,
                            ends@[j] - 1,
                        ) by {
                            lemma_port_sum_take(s, pn, ends@[j] - 1, ki);
                            assert(sums@[j] == sums0[j] + level_of(const_in(s[ki].1.ends(), s[ki].1.vals(), ends@[j] - 1)) * w);
                        }
                        assert forall|j: int| 0 <= j < m implies sums@[j] <= (k + 1) * 0x1_0000_0000 by {
                            let lv = level_of(const_in(s[ki].1.ends(), s[ki].1.vals(), ends@[j] - 1));
                            assert(lv <= 1);
                            assert(lv * w <= 0x8000_0000) by (nonlinear_arith)
                                requires
                                    lv <= 1,
                                    w <= 0x8000_0000,
                            ;
                            assert(sums@[j] == sums0[j] + lv * w);
                        }
                    }
                },
                None => {
                    proof {
                        assert forall|j: int| 0 <= j < m implies #[trigger] sums@[j] == port_sum(
                            s.take(k + 1),
                            pn,
                            ends@[j] - 1,
                        ) by {
                            lemma_port_sum_take(s, pn, ends@[j] - 1, ki);
                        }
                    }
                },
            }
            k += 1;
        }
        proof {
            assert(s.take(n as int) =~= s);
        }
        let mut vals: Vec<Instruction> = Vec::new();
        let mut i: usize = 0;
        while i < m
            invariant
                i <= m,
                m == ends@.len(),
                sums@.len() == m,
                n < 0x20_0000,
                forall|j: int| 0 <= j < m ==> #[trigger] sums@[j] == port_sum(s, pn, ends@[j] - 1),
                forall|j: int| 0 <= j < m ==> sums@[j] <= n * 0x1_0000_0000,
                vals@.len() == i,
                forall|j: int| 0 <= j < i ==> #[trigger] vals@[j] == const_instr(port_value(s, pn, ends@[j] - 1)),
            decreases m - i,
        {
            proof {
                assert(sums@[i as int] <= n * 0x1_0000_0000);
                assert(n * 0x1_0000_0000 < 0x20_0000_0000_0000);
            }
            let b = f64_bits_from_u64(sums[i]);
            vals.push(Instruction::new_const(b));
            i += 1;
        }
        (ends, vals)
    }

    /// The port numbers of the compiled editable channels, each once, in increasing order.
    /// Only for DO devices, whose compiled channel names read as `port<n>/line<m>`.
    pub fn unique_port_numbers(&self) -> (r: Vec<usize>)
        requires
            self.wf(),
            self.kind() == TaskType::DO,
            names_readable(self.entries()),
        ensures
            strictly_increasing(r@),
            forall|p: usize| r@.contains(p) <==> port_in_use(self.entries(), p as nat),
    {
        let ghost s = self.entries();
        let n = chan_map_len(&self.channels);
        let mut ports: Vec<usize> = Vec::new();
        let mut k: usize = 0;
        while k < n
            invariant
                k <= n,
                n == s.len(),
                s == self.entries(),
                self.wf(),
                names_readable(s),
                strictly_increasing(ports@),
                forall|p: usize| ports@.contains(p) <==> port_in_use(s.take(k as int), p as nat),
            decreases n - k,
        {
            let c = chan_map_get(&self.channels, k).1;
            let ghost ports0 = ports@;
            if c.is_compiled() && c.editable() {
                proof {
                    assert(s[k as int].0 == s[k as int].1.name_view());
                }
                let (p, _) = extract_port_line_numbers(c.name());
                let single = vec![p];
                ports = merge_sorted(&ports, &single);
                proof {
                    assert(single@.contains(p) ==> true);
                    assert forall|x: usize| single@.contains(x) <==> x == p by {
                        if x == p {
                            assert(single@[0] == p);
                        }
                    }
                }
            }
            k += 1;
            proof {
                let t = s.take(k as int);
                let t0 = s.take(k - 1);
                assert forall|p: usize| ports@.contains(p) <==> port_in_use(t, p as nat) by {
                    if port_in_use(t, p as nat) {
                        let i = choose|i: int|
                            0 <= i < t.len() && (#[trigger] t[i]).1.ends().len() > 0 && t[i].1.is_editable()
                                && port_line_of(t[i].0) is Some && port_line_of(t[i].0).unwrap().0 == p;
                        if i < k - 1 {
                            assert(t0[i] == t[i]);
                            assert(port_in_use(t0, p as nat));
                        } else {
                            assert(t[i] == s[k - 1]);
                        }
                    }
                    if port_in_use(t0, p as nat) {
                        let i = choose|i: int|
                            0 <= i < t0.len() && (#[trigger] t0[i]).1.ends().len() > 0 && t0[i].1.is_editable()
                                && port_line_of(t0[i].0) is Some && port_line_of(t0[i].0).unwrap().0 == p;
                        assert(t[i] == t0[i]);
                        assert(port_in_use(t, p as nat));
                    }
                    let e = s[k - 1];
                    if e.1.ends().len() > 0 && e.1.is_editable() && port_line_of(e.0) is Some && port_line_of(
                        e.0,
                    ).unwrap().0 == p {
                        assert(t[k - 1] == e);
                        assert(port_in_use(t, p as nat));
                    }
                }
            }
        }
        proof {
            assert(s.take(n as int) =~= s);
        }
        ports
    }

    /// Appends, for each port in use, the merged channel of that port (see
    /// [`port_entry_ok`]), in increasing port order.
    fn build_port_channels(&mut self)
        requires
            old(self).wf(),
            old(self).kind() == TaskType::DO,
            old(self).n_chans() < 0x20_0000,
            forall|i: int| 0 <= i < old(self).n_chans() ==> (#[trigger] old(self).chan_at(i)).is_editable(),
            names_readable(old(self).entries()),
            forall|p: nat| port_in_use(old(self).entries(), p) ==> #[trigger] port_ready(old(self).entries(), p),
        ensures
            final(self).wf(),
            final(self).settings() == old(self).settings(),
            exists|ports: Seq<usize>|
                #![trigger strictly_increasing(ports)]
                {
                    &&& strictly_increasing(ports)
                    &&& forall|p: usize| ports.contains(p) <==> port_in_use(old(self).entries(), p as nat)
                    &&& final(self).n_chans() == old(self).n_chans() + ports.len()
                    &&& final(self).entries().take(old(self).n_chans() as int) == old(self).entries()
                    &&& forall|j: int|
                        0 <= j < ports.len() ==> #[trigger] port_entry_ok(
                            old(self).entries(),
                            ports[j] as nat,
                            final(self).entries()[old(self).n_chans() + j],
                            old(self).settings().samp_rate,
                        )
                },
    {
        let ports = self.unique_port_numbers();
        let ghost s0 = self.entries();
        let ghost n0 = s0.len();
        let rate = self.samp_rate;
        let np = ports.len();
        let mut chans: Vec<Channel> = Vec::new();
        let mut j: usize = 0;
        while j < np
            invariant
                j <= np,
                np == ports@.len(),
                s0 == self.entries(),
                self.wf(),
                self.n_chans() < 0x20_0000,
                rate == self.settings().samp_rate,
                strictly_increasing(ports@),
                forall|p: usize| ports@.contains(p) <==> port_in_use(s0, p as nat),
                forall|p: nat| port_in_use(s0, p) ==> #[trigger] port_ready(s0, p),
                chans@.len() == j,
                forall|q: int|
                    0 <= q < j ==> #[trigger] port_entry_ok(
                        s0,
                        ports@[q] as nat,
                        (port_name(ports@[q] as nat), chans@[q]),
                        rate,
                    ),
            decreases np - j,
        {
            let p = ports[j];
            proof {
                assert(ports@.contains(p));
                assert(port_ready(s0, p as nat));
            }
            let (ends, vals) = self.port_stream(p);
            let c = Channel::new_compiled(TaskType::DO, make_port_name(p), rate, 0, ends, vals);
            chans.push(c);
            j += 1;
        }
        let ghost all = chans@;
        proof {
            assert forall|i: int| 0 <= i < n0 implies (#[trigger] s0[i]).1.is_editable() by {
                assert(old(self).chan_at(i).is_editable());
            }
            assert(self.entries().take(n0 as int) =~= s0);
            assert(chans@ =~= all.skip(0));
        }
        let mut j: usize = 0;
        while j < np
            invariant
                j <= np,
                np == ports@.len(),
                all.len() == np,
                chans@ == all.skip(j as int),
                self.n_chans() == n0 + j,
                self.entries().take(n0 as int) == s0,
                self.settings() == old(self).settings(),
                old(self).entries() == s0,
                n0 == s0.len(),
                self.kind() == TaskType::DO,
                rate == self.settings().samp_rate,
                strictly_increasing(ports@),
                forall|i: int| 0 <= i < n0 ==> (#[trigger] s0[i]).1.is_editable(),
                entries_wf(self.entries(), self.kind(), self.settings().samp_rate),
                forall|q: int|
                    0 <= q < np ==> #[trigger] port_entry_ok(
                        s0,
                        ports@[q] as nat,
                        (port_name(ports@[q] as nat), all[q]),
                        rate,
                    ),
                forall|q: int| 0 <= q < j ==> #[trigger] self.entries()[n0 + q] == (port_name(ports@[q] as nat), all[q]),
            decreases np - j,
        {
            let ghost e0 = self.entries();
            let p = ports[j];
            let c = chans.remove(0);
            proof {
                assert(c == all[j as int]);
                assert(port_entry_ok(s0, p as nat, (port_name(p as nat), c), rate));
                assert forall|i: int| 0 <= i < e0.len() implies #[trigger] e0[i].0 != port_name(p as nat) by {
                    if i < n0 {
                        assert(e0[i] == e0.take(n0 as int)[i]);
                        assert(e0[i] == s0[i]);
                        assert(s0[i].1.is_editable());
                        assert(s0[i].0 == s0[i].1.name_view());
                        lemma_port_name_no_line(p as nat);
                    } else {
                        let q = i - n0;
                        assert(e0[n0 + q] == (port_name(ports@[q] as nat), all[q]));
                        assert(ports@[q] < ports@[j as int]);
                        lemma_port_name_injective(ports@[q], p);
                    }
                }
            }
            let _ = chan_map_insert(&mut self.channels, make_port_name(p), c);
            j += 1;
            proof {
                let e = self.entries();
                assert(e == e0.push((port_name(p as nat), c)));
                assert(e.take(n0 as int) =~= e0.take(n0 as int));
                assert(chans@ =~= all.skip(j as int));
                assert forall|q: int| 0 <= q < j implies #[trigger] self.entries()[n0 + q] == (
                    port_name(ports@[q] as nat),
                    all[q],
                ) by {
                    if q < j - 1 {
                        assert(e[n0 + q] == e0[n0 + q]);
                    }
                }
                assert(entries_wf(e, self.kind(), self.settings().samp_rate)) by {
                    assert forall|i: int| 0 <= i < e.len() implies {
                        &&& (#[trigger] e[i]).0 == e[i].1.name_view()
                        &&& e[i].1.wf()
                        &&& e[i].1.kind() == self.kind()
                        &&& e[i].1.rate_bits() == self.settings().samp_rate
                    } by {
                        if i < e0.len() {
                            assert(e[i] == e0[i]);
                        }
                    }
                    assert forall|a: int, b: int| 0 <= a < b < e.len() implies (#[trigger] e[a]).0 != (
                    #[trigger] e[b]).0 by {
                        assert(e[a] == e0[a]);
                        if b < e0.len() {
                            assert(e[b] == e0[b]);
                        }
                    }
                }
            }
        }
        proof {
            let e = self.entries();
            assert forall|q: int| 0 <= q < np implies #[trigger] port_entry_ok(
                old(self).entries(),
                ports@[q] as nat,
                e[n0 + q],
                old(self).settings().samp_rate,
            ) by {
                assert(e[n0 + q] == (port_name(ports@[q] as nat), all[q]));
            }
            assert(strictly_increasing(ports@));
        }
    }

    // -----------------------------------------------------------------------
    // Channel selections
    // -----------------------------------------------------------------------
    /// The compiled channels, in order, keeping only the streamable ones when
    /// `require_streamable` and only the editable ones when `require_editable`.
    pub fn compiled_channels(&self, require_streamable: bool, require_editable: bool) -> (r: Vec<&Channel>)
        requires
            self.wf(),
        ensures
            r@.len() == selected_entries(self.entries(), require_streamable, require_editable).len(),
            forall|i: int|
                0 <= i < r@.len() ==> *(#[trigger] r@[i]) == selected_entries(
                    self.entries(),
                    require_streamable,
                    require_editable,
                )[i].1,
    {
        let ghost s = self.entries();
        let ghost p = |e: (Seq<char>, Channel)| selected_entry(e, require_streamable, require_editable);
        let n = chan_map_len(&self.channels);
        let mut r: Vec<&Channel> = Vec::new();
        let mut k: usize = 0;
        proof {
            assert(s.take(0).filter(p) =~= Seq::<(Seq<char>, Channel)>::empty()) by {
                reveal(Seq::filter);
            }
        }
        while k < n
            invariant
                k <= n,
                n == s.len(),
                s == self.entries(),
                self.wf(),
                p == |e: (Seq<char>, Channel)| selected_entry(e, require_streamable, require_editable),
                r@.len() == s.take(k as int).filter(p).len(),
                forall|i: int| 0 <= i < r@.len() ==> *(#[trigger] r@[i]) == s.take(k as int).filter(p)[i].1,
            decreases n - k,
        {
            let c = chan_map_get(&self.channels, k).1;
            proof {
                lemma_take_filter(s, p, k as int);
            }
            if c.is_compiled() && (!require_streamable || c.streamable()) && (!require_editable || c.editable()) {
                r.push(c);
            }
            k += 1;
        }
        proof {
            assert(s.take(n as int) =~= s);
        }
        r
    }

    /// Whether a DO device's line channels can be merged into ports (see
    /// [`Device::do_ready`]).
    pub fn lines_mergeable(&self) -> (r: bool)
        requires
            self.wf(),
        ensures
            r == self.do_ready(),
    {
        let n = chan_map_len(&self.channels);
        if n >= 0x20_0000 {
            return false;
        }
        let mut k: usize = 0;
        while k < n
            invariant
                k <= n,
                n == self.n_chans(),
                n < 0x20_0000,
                self.wf(),
                forall|i: int|
                    0 <= i < k && (#[trigger] self.chan_at(i)).is_editable() ==> line_chan_ready(
                        self.entries()[i],
                    ),
            decreases n - k,
        {
            let c = chan_map_get(&self.channels, k).1;
            proof {
                assert(self.entries()[k as int].0 == self.entries()[k as int].1.name_view());
            }
            if c.editable() {
                let ok_name = match parse_port_line(c.name()) {
                    Some((_, l)) => l < 32,
                    None => false,
                };
                assert(self.chan_at(k as int).is_editable());
                if !ok_name || !is_level(c.default_value()) {
                    assert(!line_chan_ready(self.entries()[k as int]));
                    return false;
                }
                let list = c.instr_list();
                let m = list.len();
                let mut j: usize = 0;
                while j < m
                    invariant
                        j <= m,
                        m == list@.len(),
                        list@ == c.list(),
                        k < self.n_chans(),
                        *c == self.entries()[k as int].1,
                        self.chan_at(k as int).is_editable(),
                        forall|q: int| 0 <= q < j ==> (#[trigger] list@[q]).func.const_value_spec() is Some && bits_is_level(
                            list@[q].func.const_value_spec().unwrap(),
                        ),
                    decreases m - j,
                {
                    match list[j].func.const_value() {
                        Some(v) => {
                            if !is_level(v) {
                                assert(c.list()[j as int] == list@[j as int]);
                                assert(!books_are_levels(c.list()));
                                assert(!line_chan_ready(self.entries()[k as int]));
                                return false;
                            }
                        },
                        None => {
                            assert(c.list()[j as int] == list@[j as int]);
                            assert(!books_are_levels(c.list()));
                            assert(!line_chan_ready(self.entries()[k as int]));
                            return false;
                        },
                    }
                    j += 1;
                }
                assert(line_chan_ready(self.entries()[k as int]));
            }
            k += 1;
        }
        true
    }

    /// The editable channels, in order.
    pub fn editable_channels(&self) -> (r: Vec<&Channel>)
        requires
            self.wf(),
        ensures
            r@.len() == editable_entries(self.entries()).len(),
            forall|i: int| 0 <= i < r@.len() ==> *(#[trigger] r@[i]) == editable_entries(self.entries())[i].1,
    {
        let ghost s = self.entries();
        let ghost p = |e: (Seq<char>, Channel)| e.1.is_editable();
        let n = chan_map_len(&self.channels);
        let mut r: Vec<&Channel> = Vec::new();
        let mut k: usize = 0;
        proof {
            assert(s.take(0).filter(p) =~= Seq::<(Seq<char>, Channel)>::empty()) by {
                reveal(Seq::filter);
            }
        }
        while k < n
            invariant
                k <= n,
                n == s.len(),
                s == self.entries(),
                p == |e: (Seq<char>, Channel)| e.1.is_editable(),
                r@.len() == s.take(k as int).filter(p).len(),
                forall|i: int| 0 <= i < r@.len() ==> *(#[trigger] r@[i]) == s.take(k as int).filter(p)[i].1,
            decreases n - k,
        {
            let c = chan_map_get(&self.channels, k).1;
            proof {
                lemma_take_filter(s, p, k as int);
            }
            if c.editable() {
                r.push(c);
            }
            k += 1;
        }
        proof {
            assert(s.take(n as int) =~= s);
        }
        r
    }

    // -----------------------------------------------------------------------
    // Editing
    // -----------------------------------------------------------------------
    /// Adds, on every editable channel, an open-ended instruction at `reset_pos` that returns
    /// the channel to its default value. `reset_pos` must not be below the end of the last
    /// instruction of the device.
    pub fn add_reset_instr(&mut self, reset_pos: usize)
        requires
            old(self).wf(),
            reset_pos >= old(self).last_end(),
            reset_pos < usize::MAX,
        ensures
            final(self).wf(),
            final(self).settings() == old(self).settings(),
            final(self).n_chans() == old(self).n_chans(),
            forall|i: int|
                0 <= i < old(self).n_chans() ==> #[trigger] reset_entry(
                    old(self).entries()[i],
                    final(self).entries()[i],
                    reset_pos as int,
                ),
    {
        let n = chan_map_len(&self.channels);
        let mut k: usize = 0;
        while k < n
            invariant
                k <= n,
                n == old(self).n_chans(),
                self.n_chans() == n,
                old(self).wf(),
                reset_pos >= old(self).last_end(),
                reset_pos < usize::MAX,
                self.settings() == old(self).settings(),
                forall|j: int| k <= j < n ==> #[trigger] self.entries()[j] == old(self).entries()[j],
                forall|j: int|
                    0 <= j < k ==> #[trigger] reset_entry(
                        old(self).entries()[j],
                        self.entries()[j],
                        reset_pos as int,
                    ),
            decreases n - k,
        {
            proof {
                assert(self.entries()[k as int] == old(self).entries()[k as int]);
                assert(old(self).entries()[k as int].1.wf());
            }
            let ghost prev = self.entries();
            let ghost mut c_new: Channel;
            {
                let c = chan_map_get_mut(&mut self.channels, k);
                if c.editable() {
                    proof {
                        lemma_last_end_bound(old(self), n as int, k as int);
                    }
                    c.add_reset_instr(reset_pos);
                }
                proof {
                    c_new = *c;
                }
            }
            k += 1;
            proof {
                let ki = k - 1;
                assert(self.entries() == prev.update(ki, (prev[ki].0, c_new)));
                assert forall|j: int| 0 <= j < k implies #[trigger] reset_entry(
                    old(self).entries()[j],
                    self.entries()[j],
                    reset_pos as int,
                ) by {
                    if j < ki {
                        assert(self.entries()[j] == prev[j]);
                        assert(reset_entry(old(self).entries()[j], prev[j], reset_pos as int));
                    } else {
                        assert(self.entries()[j] == (prev[ki].0, c_new));
                    }
                }
                assert forall|j: int| k <= j < n implies #[trigger] self.entries()[j] == old(
                    self,
                ).entries()[j] by {
                    assert(self.entries()[j] == prev[j]);
                }
            }
        }
        proof {
            assert forall|j: int| 0 <= j < old(self).n_chans() implies {
                &&& (#[trigger] self.entries()[j]).0 == old(self).entries()[j].0
                &&& self.entries()[j].1.wf()
                &&& self.entries()[j].1.same_identity(&old(self).entries()[j].1)
            } by {
                assert(old(self).entries()[j].1.wf());
                assert(reset_entry(old(self).entries()[j], self.entries()[j], reset_pos as int));
            }
            lemma_entries_wf_pointwise(old(self).entries(), self.entries(), self.kind(), self.settings().samp_rate);
        }
    }

}

/// `c1` is `c0` with its edit cache emptied (see `Channel::clear_edit_cache`).
pub open spec fn edit_cleared(c0: Channel, c1: Channel) -> bool {
    &&& c1.wf()
    &&& c1.same_identity(&c0)
    &&& c1.list().len() == 0
    &&& c1.fresh() == (c0.ends().len() == 0)
    &&& c1.ends() == c0.ends()
    &&& c1.vals() == c0.vals()
}

/// `c1` is `c0` with its compiled stream emptied (see `Channel::clear_compile_cache`).
pub open spec fn compile_cleared(c0: Channel, c1: Channel) -> bool {
    &&& c1.wf()
    &&& c1.same_identity(&c0)
    &&& c1.list() == c0.list()
    &&& c1.fresh() == (c0.list().len() == 0)
    &&& c1.ends().len() == 0
    &&& c1.vals().len() == 0
}

/// Same key; the channel's edit cache (`edit`) or compiled stream (`!edit`) emptied.
pub open spec fn cleared_entry(e0: (Seq<char>, Channel), e1: (Seq<char>, Channel), edit: bool) -> bool {
    &&& e1.0 == e0.0
    &&& edit ==> edit_cleared(e0.1, e1.1)
    &&& !edit ==> compile_cleared(e0.1, e1.1)
}

/// `c1` is `c0` after `Channel::compile(stop)`: an edited channel holds the canonical
/// compilation of its edit cache over `[0, stop)`; a channel without instructions is left as
/// it was.
pub open spec fn channel_compiled(c0: Channel, c1: Channel, stop: int) -> bool {
    &&& c1.wf()
    &&& c1.same_identity(&c0)
    &&& c1.list() == c0.list()
    &&& c0.list().len() == 0 ==> c1.fresh() == c0.fresh() && c1.ends() == c0.ends() && c1.vals()
        == c0.vals()
    &&& c0.list().len() > 0 ==> c1.fresh() && c1.compiled_to(stop)
}

/// Same key; an editable channel compiled to `stop`, any other channel unchanged.
pub open spec fn compiled_entry(e0: (Seq<char>, Channel), e1: (Seq<char>, Channel), stop: int) -> bool {
    &&& e1.0 == e0.0
    &&& e0.1.is_editable() ==> channel_compiled(e0.1, e1.1, stop)
    &&& !e0.1.is_editable() ==> e1.1 == e0.1
}

/// The number of samples of the last compiled channel among the first `k` entries (0 if
/// none of them is compiled).
pub open spec fn compiled_end_upto(s: Seq<(Seq<char>, Channel)>, k: int) -> int
    decreases k,
{
    if k <= 0 {
        0
    } else if s[k - 1].1.ends().len() > 0 {
        stream_end(s[k - 1].1.ends())
    } else {
        compiled_end_upto(s, k - 1)
    }
}

/// All compiled channels among the entries have the same number of samples.
pub open spec fn samps_consistent(s: Seq<(Seq<char>, Channel)>) -> bool {
    forall|i: int, j: int|
        0 <= i < s.len() && 0 <= j < s.len() && (#[trigger] s[i]).1.ends().len() > 0 && (
        #[trigger] s[j]).1.ends().len() > 0 ==> stream_end(s[i].1.ends()) == stream_end(
            s[j].1.ends(),
        )
}

/// Some compiled editable channel is named for port `p`.
pub open spec fn port_in_use(s: Seq<(Seq<char>, Channel)>, p: nat) -> bool {
    exists|i: int|
        0 <= i < s.len() && (#[trigger] s[i]).1.ends().len() > 0 && s[i].1.is_editable() && port_line_of(
            s[i].0,
        ) is Some && port_line_of(s[i].0).unwrap().0 == p
}

/// The names of the compiled editable channels read as `port<n>/line<m>`.
pub open spec fn names_readable(s: Seq<(Seq<char>, Channel)>) -> bool {
    forall|i: int|
        0 <= i < s.len() && (#[trigger] s[i]).1.ends().len() > 0 && s[i].1.is_editable() ==> port_line_of(
            s[i].0,
        ) is Some
}

/// `e` is the merged channel of port `p` built from the entries `s`: named `port<p>`, a
/// freshly compiled DO channel of rate `rate` with default 0 and no edit cache, whose segment
/// ends are those of the port's edited line channels and whose segments hold the port values.
pub open spec fn port_entry_ok(s: Seq<(Seq<char>, Channel)>, p: nat, e: (Seq<char>, Channel), rate: u64) -> bool {
    &&& e.0 == port_name(p)
    &&& e.1.name_view() == port_name(p)
    &&& e.1.kind() == TaskType::DO
    &&& e.1.rate_bits() == rate
    &&& e.1.default_bits() == 0
    &&& e.1.fresh()
    &&& e.1.list().len() == 0
    &&& e.1.wf()
    &&& forall|x: usize| e.1.ends().contains(x) <==> port_has_end(s, p, x)
    &&& forall|i: int|
        0 <= i < e.1.ends().len() ==> #[trigger] e.1.vals()[i] == const_instr(
            port_value(s, p, e.1.ends()[i] - 1),
        )
}

/// A DO line channel that can be merged into its port: its name reads as
/// `port<n>/line<m>` with `m < 32`, and its default and all its instructions are digital
/// levels (constants 0 or 1).
pub open spec fn line_chan_ready(e: (Seq<char>, Channel)) -> bool {
    &&& port_line_of(e.0) is Some
    &&& port_line_of(e.0).unwrap().1 < 32
    &&& bits_is_level(e.1.default_bits())
    &&& books_are_levels(e.1.list())
}

/// The state of a DO device after `compile(stop)` from a device whose editable channels
/// were `lines0`: first the line channels, each compiled to `stop`, then one merged channel
/// per port in use, in increasing port order.
pub open spec fn do_compiled(lines0: Seq<(Seq<char>, Channel)>, s: Seq<(Seq<char>, Channel)>, stop: int, rate: u64) -> bool {
    let m = lines0.len() as int;
    &&& m <= s.len()
    &&& forall|i: int| 0 <= i < m ==> #[trigger] compiled_entry(lines0[i], s[i], stop)
    &&& forall|p: nat| #[trigger] port_ready(s.take(m), p)
    &&& exists|ports: Seq<usize>|
        #![trigger strictly_increasing(ports)]
        {
            &&& strictly_increasing(ports)
            &&& forall|p: usize| ports.contains(p) <==> port_in_use(s.take(m), p as nat)
            &&& s.len() == m + ports.len()
            &&& forall|j: int|
                0 <= j < ports.len() ==> #[trigger] port_entry_ok(s.take(m), ports[j] as nat, s[m + j], rate)
        }
}

/// Compiling keeps which entries are editable: the editable entries before and after
/// correspond one to one.
proof fn lemma_editable_compiled(s0: Seq<(Seq<char>, Channel)>, s1: Seq<(Seq<char>, Channel)>, stop: int)
    requires
        s1.len() == s0.len(),
        forall|i: int| 0 <= i < s0.len() ==> #[trigger] compiled_entry(s0[i], s1[i], stop),
    ensures
        editable_entries(s1).len() == editable_entries(s0).len(),
        forall|i: int|
            0 <= i < editable_entries(s0).len() ==> #[trigger] compiled_entry(
                editable_entries(s0)[i],
                editable_entries(s1)[i],
                stop,
            ),
    decreases s0.len(),
{
    reveal(Seq::filter);
    if s0.len() > 0 {
        let d0 = s0.drop_last();
        let d1 = s1.drop_last();
        assert forall|i: int| 0 <= i < d0.len() implies #[trigger] compiled_entry(d0[i], d1[i], stop) by {
            assert(d0[i] == s0[i] && d1[i] == s1[i]);
        }
        lemma_editable_compiled(d0, d1, stop);
        let x0 = s0.last();
        let x1 = s1.last();
        assert(compiled_entry(s0[s0.len() - 1], s1[s1.len() - 1], stop));
        assert(x0.1.is_editable() == x1.1.is_editable());
        let f0 = editable_entries(d0);
        let f1 = editable_entries(d1);
        assert(editable_entries(s0) == if x0.1.is_editable() {
            f0.push(x0)
        } else {
            f0
        });
        assert(editable_entries(s1) == if x1.1.is_editable() {
            f1.push(x1)
        } else {
            f1
        });
        if x0.1.is_editable() {
            assert forall|i: int| 0 <= i < editable_entries(s0).len() implies #[trigger] compiled_entry(
                editable_entries(s0)[i],
                editable_entries(s1)[i],
                stop,
            ) by {
                if i < f0.len() {
                    assert(editable_entries(s0)[i] == f0[i]);
                    assert(editable_entries(s1)[i] == f1[i]);
                }
            }
        }
    }
}

/// The entry's channel is compiled and, as asked, streamable and editable.
pub open spec fn selected_entry(e: (Seq<char>, Channel), require_streamable: bool, require_editable: bool) -> bool {
    &&& e.1.ends().len() > 0
    &&& require_streamable ==> e.1.is_streamable()
    &&& require_editable ==> e.1.is_editable()
}

/// The entries selected by [`selected_entry`], in order.
pub open spec fn selected_entries(
    s: Seq<(Seq<char>, Channel)>,
    require_streamable: bool,
    require_editable: bool,
) -> Seq<(Seq<char>, Channel)> {
    s.filter(|e: (Seq<char>, Channel)| selected_entry(e, require_streamable, require_editable))
}

pub proof fn lemma_take_filter<A>(s: Seq<A>, p: spec_fn(A) -> bool, k: int)
    requires
        0 <= k < s.len(),
    ensures
        s.take(k + 1).filter(p) == if p(s[k]) {
            s.take(k).filter(p).push(s[k])
        } else {
            s.take(k).filter(p)
        },
{
    reveal(Seq::filter);
    assert(s.take(k + 1).drop_last() =~= s.take(k));
    assert(s.take(k + 1).last() == s[k]);
}

/// `d1` is `d0` after `add_channel(name, default_value)` returned `r`: the device stays well
/// formed with the same settings; an error leaves the channels alone, and comes exactly from a
/// name that does not match the device's pattern (`BadName`) or from a matching name already
/// registered (`Duplicate`); on any other name the call succeeds and appends a fresh empty
/// channel of that name, type, rate and default. In particular a new name written with ASCII
/// digits (`ao0`, `port0/line7`) is added, and a name that does not begin with `ao` (on an AO
/// device) or `port` (on a DO device) followed by more text is refused as `BadName`.
pub open spec fn channel_added(
    d0: Device,
    d1: Device,
    name: Seq<char>,
    default_value: u64,
    r: Result<(), AddChannelError>,
) -> bool {
    &&& d1.wf()
    &&& d1.settings() == d0.settings()
    &&& r is Err ==> d1.entries() == d0.entries()
    &&& ascii_channel_name(d0.kind(), name) ==> (r is Ok <==> !d0.has_chan(name))
    &&& ascii_channel_name(d0.kind(), name) && d0.has_chan(name) ==> r == Err::<(), AddChannelError>(
        AddChannelError::Duplicate,
    )
    &&& !starts_before_more(name_prefix(d0.kind()), name) ==> r == Err::<(), AddChannelError>(
        AddChannelError::BadName,
    )
    &&& r == Err::<(), AddChannelError>(AddChannelError::BadName) ==> !regex_matches(
        name_pattern(d0.kind()),
        name,
    )
    &&& r == Err::<(), AddChannelError>(AddChannelError::Duplicate) ==> regex_matches(
        name_pattern(d0.kind()),
        name,
    ) && d0.has_chan(name)
    &&& r is Ok ==> regex_matches(name_pattern(d0.kind()), name) && !d0.has_chan(name) && d1.n_chans()
        == d0.n_chans() + 1 && d1.entries().take(d0.n_chans() as int) == d0.entries() && ({
        let c = d1.chan_at(d0.n_chans() as int);
        &&& d1.entries().last().0 == name
        &&& c.name_view() == name
        &&& c.kind() == d0.kind()
        &&& c.rate_bits() == d0.settings().samp_rate
        &&& c.default_bits() == default_value
        &&& c.is_editable()
        &&& c.list().len() == 0
        &&& c.ends().len() == 0
        &&& c.fresh()
    })
}

/// The editable entries of well-formed entries are all editable.
pub proof fn lemma_editable_entries_editable(s: Seq<(Seq<char>, Channel)>, kind: TaskType, rate: u64)
    requires
        entries_wf(s, kind, rate),
    ensures
        forall|i: int|
            0 <= i < editable_entries(s).len() ==> (#[trigger] editable_entries(s)[i]).1.is_editable(),
{
    lemma_editable_entries(s, kind, rate);
}

/// Every entry is a well-formed channel of type `kind` and rate `rate`, registered under its
/// own name, and no two entries share a name.
pub open spec fn entries_wf(s: Seq<(Seq<char>, Channel)>, kind: TaskType, rate: u64) -> bool {
    &&& forall|i: int|
        0 <= i < s.len() ==> {
            &&& (#[trigger] s[i]).0 == s[i].1.name_view()
            &&& s[i].1.wf()
            &&& s[i].1.kind() == kind
            &&& s[i].1.rate_bits() == rate
        }
    &&& forall|i: int, j: int| 0 <= i < j < s.len() ==> (#[trigger] s[i]).0 != (#[trigger] s[j]).0
}

/// The entries whose channel is editable, in their order.
pub open spec fn editable_entries(s: Seq<(Seq<char>, Channel)>) -> Seq<(Seq<char>, Channel)> {
    s.filter(|e: (Seq<char>, Channel)| e.1.is_editable())
}

/// Entries under the same keys, whose channels are well formed and keep their identity, are
/// well formed when the first ones are.
proof fn lemma_entries_wf_pointwise(
    s0: Seq<(Seq<char>, Channel)>,
    s1: Seq<(Seq<char>, Channel)>,
    kind: TaskType,
    rate: u64,
)
    requires
        entries_wf(s0, kind, rate),
        s1.len() == s0.len(),
        forall|j: int|
            0 <= j < s0.len() ==> {
                &&& (#[trigger] s1[j]).0 == s0[j].0
                &&& s1[j].1.wf()
                &&& s1[j].1.same_identity(&s0[j].1)
            },
    ensures
        entries_wf(s1, kind, rate),
{
    assert forall|i: int| 0 <= i < s1.len() implies {
        &&& (#[trigger] s1[i]).0 == s1[i].1.name_view()
        &&& s1[i].1.wf()
        &&& s1[i].1.kind() == kind
        &&& s1[i].1.rate_bits() == rate
    } by {
        assert(s0[i].0 == s0[i].1.name_view());
    }
    assert forall|i: int, j: int| 0 <= i < j < s1.len() implies (#[trigger] s1[i]).0 != (
    #[trigger] s1[j]).0 by {
        assert(s0[i].0 != s0[j].0);
    }
}

/// The editable entries of well-formed entries are well formed, and all editable.
proof fn lemma_editable_entries(s: Seq<(Seq<char>, Channel)>, kind: TaskType, rate: u64)
    requires
        entries_wf(s, kind, rate),
    ensures
        entries_wf(editable_entries(s), kind, rate),
        forall|i: int|
            0 <= i < editable_entries(s).len() ==> (#[trigger] editable_entries(s)[i]).1.is_editable(),
    decreases s.len(),
{
    let pred = |e: (Seq<char>, Channel)| e.1.is_editable();
    reveal(Seq::filter);
    if s.len() > 0 {
        let d = s.drop_last();
        assert(entries_wf(d, kind, rate)) by {
            assert forall|i: int| 0 <= i < d.len() implies {
                &&& (#[trigger] d[i]).0 == d[i].1.name_view()
                &&& d[i].1.wf()
                &&& d[i].1.kind() == kind
                &&& d[i].1.rate_bits() == rate
            } by {
                assert(d[i] == s[i]);
            }
            assert forall|i: int, j: int| 0 <= i < j < d.len() implies (#[trigger] d[i]).0 != (
            #[trigger] d[j]).0 by {
                assert(d[i] == s[i] && d[j] == s[j]);
            }
        }
        lemma_editable_entries(d, kind, rate);
        let fd = editable_entries(d);
        let x = s.last();
        assert(editable_entries(s) == if pred(x) {
            fd.push(x)
        } else {
            fd
        });
        if pred(x) {
            let fs = fd.push(x);
            assert forall|i: int| 0 <= i < fd.len() implies (#[trigger] fd[i]).0 != x.0 by {
                assert(fd.contains(fd[i]));
                d.lemma_filter_contains_rev(pred, fd[i]);
                let j = choose|j: int| 0 <= j < d.len() && d[j] == fd[i];
                assert(s[j] == d[j]);
                assert(s[s.len() - 1] == x);
            }
            assert forall|i: int| 0 <= i < fs.len() implies {
                &&& (#[trigger] fs[i]).0 == fs[i].1.name_view()
                &&& fs[i].1.wf()
                &&& fs[i].1.kind() == kind
                &&& fs[i].1.rate_bits() == rate
            } by {
                if i < fd.len() {
                    assert(fs[i] == fd[i]);
                } else {
                    assert(s[s.len() - 1] == x);
                }
            }
            assert forall|i: int, j: int| 0 <= i < j < fs.len() implies (#[trigger] fs[i]).0 != (
            #[trigger] fs[j]).0 by {
                assert(fs[i] == fd[i]);
                if j < fd.len() {
                    assert(fs[j] == fd[j]);
                }
            }
            assert forall|i: int| 0 <= i < fs.len() implies (#[trigger] fs[i]).1.is_editable() by {
                if i < fd.len() {
                    assert(fs[i] == fd[i]);
                }
            }
        }
    }
}

/// The entry `e1` is the entry `e0` after a device-wide reset at `pos`: same key; an editable
/// channel gets the reset instruction appended, any other channel is unchanged.
pub open spec fn reset_entry(e0: (Seq<char>, Channel), e1: (Seq<char>, Channel), pos: int) -> bool {
    &&& e1.0 == e0.0
    &&& e0.1.is_editable() ==> reset_added(e0.1, e1.1, pos)
    &&& !e0.1.is_editable() ==> e1.1 == e0.1
}

/// `c1` is `c0` with a reset instruction at `pos` appended (see `Channel::add_reset_instr`).
pub open spec fn reset_added(c0: Channel, c1: Channel, pos: int) -> bool {
    &&& c1.wf()
    &&& c1.same_identity(&c0)
    &&& !c1.fresh()
    &&& c1.ends() == c0.ends()
    &&& c1.vals() == c0.vals()
    &&& c1.list() == c0.list().push(
        crate::instruction::InstrBook {
            start_pos: pos as usize,
            end_spec: None,
            func: crate::instruction::const_instr(c0.default_bits()),
            end_val: c0.default_bits(),
        },
    )
}

/// Closing edge of a device compilation: when `compile(stop_tick)` compiled an editable
/// channel whose last instruction has a given end at `stop_tick` (so the device compiled to
/// `stop_tick + 1`), the channel plays at `stop_tick` the value that follows that
/// instruction: its kept value when it keeps its value, otherwise the channel default.
pub proof fn lemma_compile_closing_edge(c0: Channel, c1: Channel, stop_tick: int)
    requires
        channel_compiled(c0, c1, stop_tick + 1),
        closes_at(c0.list(), stop_tick),
    ensures
        ({
            let b = c0.list().last();
            let k = crate::stream::seg_index_at(c1.ends(), stop_tick);
            &&& 0 <= k < c1.ends().len()
            &&& crate::stream::seg_start(c1.ends(), k) <= stop_tick < c1.ends()[k]
            &&& c1.vals()[k] == if b.end_spec->Some_0.1 {
                const_instr(b.held_value())
            } else {
                const_instr(c0.default_bits())
            }
        }),
{
    crate::channel::lemma_closing_edge(c1, stop_tick);
}

/// Ports play the combined state of their lines: a merged port channel (see
/// [`port_entry_ok`]) built from lines that are ready to merge plays, at every position it
/// covers, the constant whose value is the port value there, the sum of `level * 2^line` over
/// the port's edited lines. After `compile`, [`do_compiled`] provides both requirements.
pub proof fn lemma_port_channel_follows(s: Seq<(Seq<char>, Channel)>, p: nat, e: (Seq<char>, Channel), rate: u64)
    requires
        port_ready(s, p),
        port_entry_ok(s, p, e, rate),
    ensures
        crate::stream::stream_follows(e.1.ends(), e.1.vals(), |q: int| const_instr(port_value(s, p, q))),
{
    crate::ports::lemma_port_stream_follows(s, p, e.1.ends(), e.1.vals());
}

proof fn lemma_last_end_zero(d: &Device, k: int)
    requires
        k <= d.n_chans(),
        forall|i: int| 0 <= i < d.n_chans() ==> (#[trigger] d.chan_at(i)).list().len() == 0,
    ensures
        d.last_end_upto(k) == 0,
    decreases k,
{
    if k > 0 {
        lemma_last_end_zero(d, k - 1);
        assert(d.chan_at(k - 1).list().len() == 0);
    }
}

proof fn lemma_last_end_bound(d: &Device, k: int, i: int)
    requires
        0 <= i < k <= d.n_chans(),
        d.chan_at(i).is_editable(),
    ensures
        last_end_of(d.chan_at(i).list()) <= d.last_end_upto(k),
    decreases k,
{
    if i < k - 1 {
        lemma_last_end_bound(d, k - 1, i);
    }
}


/// When the lines of a DO device can be merged into ports: exactly when there are fewer than
/// `2^21` channels and every editable channel is named `port<n>/line<m>` with any line
/// number `m` below 32, has a default of 0 or 1, and holds only constant instructions of
/// value 0 or 1. So `lines_mergeable` accepts every such device, whatever its line numbers.
pub proof fn lemma_mergeable_lines(d: Device)
    requires
        d.wf(),
    ensures
        d.do_ready() <==> {
            &&& d.n_chans() < 0x20_0000
            &&& forall|i: int|
                0 <= i < d.n_chans() && (#[trigger] d.chan_at(i)).is_editable() ==> {
                    let c = d.chan_at(i);
                    &&& port_line_of(c.name_view()) is Some
                    &&& port_line_of(c.name_view()).unwrap().1 < 32
                    &&& bits_is_level(c.default_bits())
                    &&& forall|q: int|
                        0 <= q < c.list().len() ==> (#[trigger] c.list()[q]).func.const_value_spec() is Some
                            && bits_is_level(c.list()[q].func.const_value_spec().unwrap())
                }
        },
{
    assert forall|i: int| 0 <= i < d.n_chans() implies (#[trigger] d.entries()[i]).0 == d.chan_at(
        i,
    ).name_view() by {}
}

/// The closing edge: when the last instruction of some editable channel ends exactly at
/// `stop_tick`, whether or not it keeps its value afterwards, the device is clipped there
/// and `compile(stop_tick)` compiles to `stop_tick + 1`. When no editable channel's last
/// instruction ends there, it compiles to `stop_tick`.
pub proof fn lemma_closing_edge_any_keep(d: Device, stop_tick: int)
    ensures
        (exists|i: int|
            0 <= i < d.n_chans() && (#[trigger] d.chan_at(i)).is_editable() && d.chan_at(i).list().len() > 0
                && d.chan_at(i).list().last().end_spec is Some
                && d.chan_at(i).list().last().end_spec->Some_0.0 == stop_tick) ==> d.end_clipped(stop_tick)
            && d.compile_stop(stop_tick) == stop_tick + 1,
        (forall|i: int|
            0 <= i < d.n_chans() && (#[trigger] d.chan_at(i)).is_editable() && d.chan_at(i).list().len() > 0
                && d.chan_at(i).list().last().end_spec is Some
                ==> d.chan_at(i).list().last().end_spec->Some_0.0 != stop_tick) ==> !d.end_clipped(stop_tick)
            && d.compile_stop(stop_tick) == stop_tick,
{
}

/// An entry is among the selected entries exactly when it is selected.
proof fn lemma_selected_contains(s: Seq<(Seq<char>, Channel)>, rs: bool, re: bool, i: int)
    requires
        0 <= i < s.len(),
    ensures
        selected_entries(s, rs, re).contains(s[i]) <==> selected_entry(s[i], rs, re),
{
    let pred = |e: (Seq<char>, Channel)| selected_entry(e, rs, re);
    if selected_entry(s[i], rs, re) {
        s.lemma_filter_contains(pred, i);
    }
    if s.filter(pred).contains(s[i]) {
        let k = choose|k: int| 0 <= k < s.filter(pred).len() && s.filter(pred)[k] == s[i];
        s.lemma_filter_pred(pred, k);
    }
}

/// Which channels `compiled_channels(require_streamable, require_editable)` selects: a
/// channel is among them exactly when it is compiled, streamable if that is required, and
/// editable if that is required, whatever else holds of it. On an AO device every compiled
/// channel is selected for streaming, editable or not.
pub proof fn lemma_selected_channels(d: Device, require_streamable: bool, require_editable: bool)
    requires
        d.wf(),
    ensures
        forall|i: int|
            0 <= i < d.n_chans() ==> (selected_entries(d.entries(), require_streamable, require_editable).contains(
                #[trigger] d.entries()[i],
            ) <==> {
                &&& d.chan_at(i).ends().len() > 0
                &&& require_streamable ==> d.chan_at(i).is_streamable()
                &&& require_editable ==> d.chan_at(i).is_editable()
            }),
        d.kind() == TaskType::AO ==> forall|i: int|
            0 <= i < d.n_chans() && d.chan_at(i).ends().len() > 0 ==> selected_entries(d.entries(), true, false).contains(
                #[trigger] d.entries()[i],
            ),
{
    let s = d.entries();
    assert forall|i: int| 0 <= i < d.n_chans() implies (selected_entries(
        s,
        require_streamable,
        require_editable,
    ).contains(#[trigger] s[i]) <==> selected_entry(s[i], require_streamable, require_editable)) by {
        lemma_selected_contains(s, require_streamable, require_editable, i);
    }
    assert forall|i: int| 0 <= i < d.n_chans() implies (selected_entries(s, true, false).contains(
        #[trigger] s[i],
    ) <==> selected_entry(s[i], true, false)) by {
        lemma_selected_contains(s, true, false, i);
    }
    assert forall|i: int| 0 <= i < d.n_chans() implies (#[trigger] s[i]).1.kind() == d.kind() by {}
}

} // verus!
