//! Experiments: the registry of the devices that take part in one sequence, in the order they
//! were added, and the operations that apply to all of them or to one by name.
use vstd::prelude::*;
use indexmap::IndexMap;
use crate::channel::{Channel, TaskType};
use crate::device::{
    Device, AddChannelError, DeviceSettings, editable_entries, ascii_channel_name,
};
use crate::maps::{
    dev_entries, dev_map_new, dev_map_len, dev_map_get, dev_map_get_mut, dev_map_index_of,
    dev_map_insert,
};
use crate::utils::{
    decimal_chars, usize_decimal, is_ascii_digit, lemma_decimal_chars_digits, lemma_first_index_of_unique,
};
use crate::value::bits_is_level;

verus! {

/// Why the start-trigger roles of an experiment's devices do not fit together.
#[derive(Clone, Copy, PartialEq, Eq, Structural, Debug)]
pub enum TrigConfigError {
    /// More than one device exports its start trigger.
    MultiplePrimaries,
    /// Some device waits for a start trigger, but no device exports one.
    NoPrimary,
}

/// Every entry is a well-formed device registered under its own name; names are distinct.
pub open spec fn dev_entries_wf(s: Seq<(Seq<char>, Device)>) -> bool {
    &&& forall|i: int|
        0 <= i < s.len() ==> {
            &&& (#[trigger] s[i]).0 == s[i].1.settings().name
            &&& s[i].1.wf()
        }
    &&& forall|i: int, j: int| 0 <= i < j < s.len() ==> (#[trigger] s[i]).0 != (#[trigger] s[j]).0
}

/// `d1` is `d0` with its port channels removed and the edit cache and compiled stream of
/// every remaining channel emptied.
pub open spec fn dev_fully_cleared(d0: Device, d1: Device) -> bool {
    let lines = editable_entries(d0.entries());
    &&& d1.wf()
    &&& d1.settings() == d0.settings()
    &&& d1.n_chans() == lines.len()
    &&& forall|j: int|
        0 <= j < lines.len() ==> {
            &&& (#[trigger] d1.entries()[j]).0 == lines[j].0
            &&& d1.entries()[j].1.same_identity(&lines[j].1)
            &&& d1.entries()[j].1.list().len() == 0
            &&& d1.entries()[j].1.ends().len() == 0
            &&& d1.entries()[j].1.vals().len() == 0
            &&& d1.entries()[j].1.fresh()
        }
}

/// The name of AO channel `id`: `ao<id>`.
pub open spec fn ao_name(id: nat) -> Seq<char> {
    "ao"@ + decimal_chars(id)
}

/// The name of DO line `line` of port `port`: `port<port>/line<line>`.
pub open spec fn do_name(port: nat, line: nat) -> Seq<char> {
    "port"@ + decimal_chars(port) + "/line"@ + decimal_chars(line)
}

/// The name of an AO channel is written with ASCII digits.
proof fn lemma_ao_name_ascii(id: nat)
    ensures
        ascii_channel_name(TaskType::AO, ao_name(id)),
{
    reveal_strlit("ao");
    lemma_decimal_chars_digits(id);
    let s = ao_name(id);
    assert(s.take(2) =~= "ao"@);
    assert(s.skip(2) =~= decimal_chars(id));
}

/// The name of a DO line is written with ASCII digits.
proof fn lemma_do_name_ascii(port: nat, line: nat)
    ensures
        ascii_channel_name(TaskType::DO, do_name(port, line)),
{
    reveal_strlit("port");
    reveal_strlit("/line");
    reveal_strlit("line");
    let dp = decimal_chars(port);
    let dl = decimal_chars(line);
    lemma_decimal_chars_digits(port);
    lemma_decimal_chars_digits(line);
    let s = do_name(port, line);
    let i: int = 4 + dp.len() as int;
    assert forall|j: int| 0 <= j < i implies s[j] != '/' by {
        if j >= 4 {
            assert(s[j] == dp[j - 4]);
            assert(is_ascii_digit(dp[j - 4]));
        }
    }
    assert(s[i] == '/');
    lemma_first_index_of_unique(s, '/', i);
    let first = s.take(i);
    assert(first.take(4) =~= "port"@);
    assert(first.skip(4) =~= dp);
    let tail = s.skip(i + 1);
    assert(tail.take(4) =~= "line"@);
    assert(tail.skip(4) =~= dl);
}

proof fn lemma_filter_all<A>(s: Seq<A>, p: spec_fn(A) -> bool)
    requires
        forall|i: int| 0 <= i < s.len() ==> p(#[trigger] s[i]),
    ensures
        s.filter(p) == s,
    decreases s.len(),
{
    reveal(Seq::filter);
    if s.len() > 0 {
        let d = s.drop_last();
        assert forall|i: int| 0 <= i < d.len() implies p(#[trigger] d[i]) by {
            assert(d[i] == s[i]);
        }
        lemma_filter_all(d, p);
        assert(p(s[s.len() - 1]));
        assert(s.filter(p) =~= d.push(s.last()));
        assert(d.push(s.last()) =~= s);
    }
}

/// The devices of one experiment.
pub struct Experiment {
    devices: IndexMap<String, Device>,
}

impl Experiment {
    pub closed spec fn entries(&self) -> Seq<(Seq<char>, Device)> {
        dev_entries(self.devices)
    }

    pub open spec fn n_devs(&self) -> nat {
        self.entries().len()
    }

    pub open spec fn dev_at(&self, i: int) -> Device {
        self.entries()[i].1
    }

    pub open spec fn wf(&self) -> bool {
        dev_entries_wf(self.entries())
    }

    /// Some device is registered under `name`.
    pub open spec fn has_dev(&self, name: Seq<char>) -> bool {
        exists|i: int| 0 <= i < self.n_devs() && (#[trigger] self.entries()[i]).0 == name
    }

    /// An experiment without devices.
    pub fn new() -> (e: Self)
        ensures
            e.wf(),
            e.n_devs() == 0,
    {
        Experiment { devices: dev_map_new() }
    }

    /// The device map.
    pub fn devices(&self) -> (r: &IndexMap<String, Device>)
        ensures
            dev_entries(*r) == self.entries(),
    {
        &self.devices
    }

    /// Whether a device named `name` is registered.
    pub fn has_device(&self, name: &str) -> (r: bool)
        ensures
            r == self.has_dev(name@),
    {
        match dev_map_index_of(&self.devices, name) {
            Some(i) => {
                assert(self.entries()[i as int].0 == name@);
                true
            },
            None => false,
        }
    }

    /// Position of the device named `name`, which must be registered.
    fn index_of(&self, name: &str) -> (r: usize)
        requires
            self.has_dev(name@),
        ensures
            r < self.n_devs(),
            self.entries()[r as int].0 == name@,
    {
        match dev_map_index_of(&self.devices, name) {
            Some(i) => i,
            None => {
                proof {
                    let j = choose|j: int| 0 <= j < self.n_devs() && (#[trigger] self.entries()[j]).0 == name@;
                    assert(dev_entries(self.devices)[j].0 == name@);
                }
                0
            },
        }
    }

    /// Registers `dev` under its name, which must not be registered yet.
    pub fn add_device_base(&mut self, dev: Device)
        requires
            old(self).wf(),
            dev.wf(),
            !old(self).has_dev(dev.settings().name),
        ensures
            final(self).wf(),
            final(self).entries() == old(self).entries().push((dev.settings().name, dev)),
    {
        let ghost e0 = self.entries();
        let name = String::from_str(dev.name());
        proof {
            assert forall|i: int| 0 <= i < e0.len() implies #[trigger] e0[i].0 != name@ by {
                if e0[i].0 == name@ {
                    assert(old(self).has_dev(dev.settings().name));
                }
            }
        }
        let _ = dev_map_insert(&mut self.devices, name, dev);
        proof {
            let e = self.entries();
            assert(e == e0.push((dev.settings().name, dev)));
            assert forall|i: int| 0 <= i < e.len() implies {
                &&& (#[trigger] e[i]).0 == e[i].1.settings().name
                &&& e[i].1.wf()
            } by {
                if i < e0.len() {
                    assert(e[i] == e0[i]);
                }
            }
            assert forall|i: int, j: int| 0 <= i < j < e.len() implies (#[trigger] e[i]).0 != (
            #[trigger] e[j]).0 by {
                assert(e[i] == e0[i]);
                if j < e0.len() {
                    assert(e[j] == e0[j]);
                }
            }
        }
    }

    /// Registers a new AO device named `name` with sample rate `samp_rate` (a binary64 bit
    /// pattern); the name must not be registered yet.
    pub fn add_ao_device(&mut self, name: &str, samp_rate: u64)
        requires
            old(self).wf(),
            !old(self).has_dev(name@),
        ensures
            final(self).wf(),
            final(self).n_devs() == old(self).n_devs() + 1,
            final(self).entries().take(old(self).n_devs() as int) == old(self).entries(),
            final(self).entries().last().0 == name@,
            final(self).entries().last().1.n_chans() == 0,
            final(self).entries().last().1.settings() == (DeviceSettings {
                name: name@,
                task_type: TaskType::AO,
                samp_rate,
                samp_clk_src: None,
                trig_line: None,
                export_trig: None,
                ref_clk_line: None,
                export_ref_clk: None,
                ref_clk_rate: None,
            }),
    {
        let dev = Device::new(name, TaskType::AO, samp_rate);
        self.add_device_base(dev);
        proof {
            assert(self.entries().take(old(self).n_devs() as int) =~= old(self).entries());
        }
    }

    /// Registers a new DO device named `name` with sample rate `samp_rate` (a binary64 bit
    /// pattern); the name must not be registered yet.
    pub fn add_do_device(&mut self, name: &str, samp_rate: u64)
        requires
            old(self).wf(),
            !old(self).has_dev(name@),
        ensures
            final(self).wf(),
            final(self).n_devs() == old(self).n_devs() + 1,
            final(self).entries().take(old(self).n_devs() as int) == old(self).entries(),
            final(self).entries().last().0 == name@,
            final(self).entries().last().1.n_chans() == 0,
            final(self).entries().last().1.settings() == (DeviceSettings {
                name: name@,
                task_type: TaskType::DO,
                samp_rate,
                samp_clk_src: None,
                trig_line: None,
                export_trig: None,
                ref_clk_line: None,
                export_ref_clk: None,
                ref_clk_rate: None,
            }),
    {
        let dev = Device::new(name, TaskType::DO, samp_rate);
        self.add_device_base(dev);
        proof {
            assert(self.entries().take(old(self).n_devs() as int) =~= old(self).entries());
        }
    }

    /// The device named `name`, which must be registered.
    pub fn dev(&self, name: &str) -> (r: &Device)
        requires
            self.has_dev(name@),
        ensures
            exists|i: int| 0 <= i < self.n_devs() && self.entries()[i].0 == name@ && *r == self.dev_at(i),
    {
        let i = self.index_of(name);
        let r = dev_map_get(&self.devices, i).1;
        assert(*r == self.dev_at(i as int));
        r
    }

    /// The device named `name` (which must be registered), to modify in place; it stays at
    /// its place under its name.
    pub fn dev_(&mut self, name: &str) -> (r: &mut Device)
        requires
            old(self).has_dev(name@),
        ensures
            exists|i: int|
                0 <= i < old(self).n_devs() && old(self).entries()[i].0 == name@ && *r == old(self).dev_at(i)
                    && final(self).entries() == old(self).entries().update(
                    i,
                    (old(self).entries()[i].0, *final(r)),
                ),
    {
        let i = self.index_of(name);
        let r = dev_map_get_mut(&mut self.devices, i);
        assert(*r == old(self).dev_at(i as int));
        r
    }

    /// Some device is edited.
    pub fn is_edited(&self) -> (r: bool)
        requires
            self.wf(),
        ensures
            r == exists|i: int|
                0 <= i < self.n_devs() && exists|j: int|
                    0 <= j < (#[trigger] self.dev_at(i)).n_chans() && (#[trigger] self.dev_at(i).chan_at(
                        j,
                    )).is_editable() && self.dev_at(i).chan_at(j).list().len() > 0,
    {
        let n = dev_map_len(&self.devices);
        let mut k: usize = 0;
        while k < n
            invariant
                k <= n,
                n == self.n_devs(),
                self.wf(),
                forall|i: int|
                    0 <= i < k ==> !exists|j: int|
                        0 <= j < (#[trigger] self.dev_at(i)).n_chans() && (#[trigger] self.dev_at(
                            i,
                        ).chan_at(j)).is_editable() && self.dev_at(i).chan_at(j).list().len() > 0,
            decreases n - k,
        {
            let d = dev_map_get(&self.devices, k).1;
            proof {
                assert(self.entries()[k as int].1.wf());
            }
            if d.is_edited() {
                assert(self.dev_at(k as int) == *d);
                return true;
            }
            k += 1;
        }
        false
    }

    /// Some device is compiled.
    pub fn is_compiled(&self) -> (r: bool)
        requires
            self.wf(),
        ensures
            r == exists|i: int|
                0 <= i < self.n_devs() && exists|j: int|
                    0 <= j < (#[trigger] self.dev_at(i)).n_chans() && (#[trigger] self.dev_at(i).chan_at(
                        j,
                    )).is_editable() && self.dev_at(i).chan_at(j).ends().len() > 0,
    {
        let n = dev_map_len(&self.devices);
        let mut k: usize = 0;
        while k < n
            invariant
                k <= n,
                n == self.n_devs(),
                self.wf(),
                forall|i: int|
                    0 <= i < k ==> !exists|j: int|
                        0 <= j < (#[trigger] self.dev_at(i)).n_chans() && (#[trigger] self.dev_at(
                            i,
                        ).chan_at(j)).is_editable() && self.dev_at(i).chan_at(j).ends().len() > 0,
            decreases n - k,
        {
            let d = dev_map_get(&self.devices, k).1;
            proof {
                assert(self.entries()[k as int].1.wf());
            }
            if d.is_compiled() {
                assert(self.dev_at(k as int) == *d);
                return true;
            }
            k += 1;
        }
        false
    }

    /// Every device is freshly compiled.
    pub fn is_fresh_compiled(&self) -> (r: bool)
        requires
            self.wf(),
        ensures
            r == forall|i: int|
                0 <= i < self.n_devs() ==> forall|j: int|
                    0 <= j < (#[trigger] self.dev_at(i)).n_chans() && (#[trigger] self.dev_at(i).chan_at(
                        j,
                    )).is_editable() ==> self.dev_at(i).chan_at(j).fresh(),
    {
        let n = dev_map_len(&self.devices);
        let mut k: usize = 0;
        while k < n
            invariant
                k <= n,
                n == self.n_devs(),
                self.wf(),
                forall|i: int|
                    0 <= i < k ==> forall|j: int|
                        0 <= j < (#[trigger] self.dev_at(i)).n_chans() && (#[trigger] self.dev_at(
                            i,
                        ).chan_at(j)).is_editable() ==> self.dev_at(i).chan_at(j).fresh(),
            decreases n - k,
        {
            let d = dev_map_get(&self.devices, k).1;
            proof {
                assert(self.entries()[k as int].1.wf());
            }
            if !d.is_fresh_compiled() {
                assert(self.dev_at(k as int) == *d);
                return false;
            }
            k += 1;
        }
        true
    }

    /// Removes the port channels of every device and empties the compiled stream of every
    /// remaining channel.
    pub fn clear_compile_cache(&mut self)
        requires
            old(self).wf(),
        ensures
            final(self).wf(),
            final(self).n_devs() == old(self).n_devs(),
            forall|i: int|
                0 <= i < old(self).n_devs() ==> {
                    &&& (#[trigger] final(self).entries()[i]).0 == old(self).entries()[i].0
                    &&& final(self).entries()[i].1.wf()
                    &&& final(self).entries()[i].1.settings() == old(self).entries()[i].1.settings()
                    &&& final(self).entries()[i].1.n_chans() == editable_entries(
                        old(self).entries()[i].1.entries(),
                    ).len()
                    &&& forall|j: int|
                        0 <= j < final(self).entries()[i].1.n_chans() ==> #[trigger] crate::device::cleared_entry(
                            editable_entries(old(self).entries()[i].1.entries())[j],
                            final(self).entries()[i].1.entries()[j],
                            false,
                        )
                },
    {
        let n = dev_map_len(&self.devices);
        let mut k: usize = 0;
        while k < n
            invariant
                k <= n,
                n == old(self).n_devs(),
                self.n_devs() == n,
                old(self).wf(),
                self.wf(),
                forall|j: int| k <= j < n ==> #[trigger] self.entries()[j] == old(self).entries()[j],
                forall|i: int|
                    0 <= i < k ==> {
                        &&& (#[trigger] self.entries()[i]).0 == old(self).entries()[i].0
                        &&& self.entries()[i].1.wf()
                        &&& self.entries()[i].1.settings() == old(self).entries()[i].1.settings()
                        &&& self.entries()[i].1.n_chans() == editable_entries(
                            old(self).entries()[i].1.entries(),
                        ).len()
                        &&& forall|j: int|
                            0 <= j < self.entries()[i].1.n_chans() ==> #[trigger] crate::device::cleared_entry(
                                editable_entries(old(self).entries()[i].1.entries())[j],
                                self.entries()[i].1.entries()[j],
                                false,
                            )
                    },
            decreases n - k,
        {
            let ghost prev = self.entries();
            proof {
                assert(prev[k as int] == old(self).entries()[k as int]);
                assert(prev[k as int].1.wf());
            }
            let ghost mut d_new: Device;
            {
                let d = dev_map_get_mut(&mut self.devices, k);
                d.clear_compile_cache();
                proof {
                    d_new = *d;
                }
            }
            k += 1;
            proof {
                let ki = k - 1;
                let e = self.entries();
                assert(e == prev.update(ki, (prev[ki].0, d_new)));
                assert forall|j: int| k <= j < n implies #[trigger] self.entries()[j] == old(self).entries()[j] by {
                    assert(e[j] == prev[j]);
                }
                assert forall|i: int| 0 <= i < k implies {
                    &&& (#[trigger] self.entries()[i]).0 == old(self).entries()[i].0
                    &&& self.entries()[i].1.wf()
                    &&& self.entries()[i].1.settings() == old(self).entries()[i].1.settings()
                    &&& self.entries()[i].1.n_chans() == editable_entries(
                        old(self).entries()[i].1.entries(),
                    ).len()
                    &&& forall|j: int|
                        0 <= j < self.entries()[i].1.n_chans() ==> #[trigger] crate::device::cleared_entry(
                            editable_entries(old(self).entries()[i].1.entries())[j],
                            self.entries()[i].1.entries()[j],
                            false,
                        )
                } by {
                    if i < ki {
                        assert(e[i] == prev[i]);
                    }
                }
                assert forall|i: int| 0 <= i < e.len() implies {
                    &&& (#[trigger] e[i]).0 == e[i].1.settings().name
                    &&& e[i].1.wf()
                } by {
                    assert(old(self).entries()[i].0 == old(self).entries()[i].1.settings().name);
                    if i > ki {
                        assert(e[i] == prev[i]);
                    }
                }
                assert forall|i: int, j: int| 0 <= i < j < e.len() implies (#[trigger] e[i]).0 != (
                #[trigger] e[j]).0 by {
                    assert(old(self).entries()[i].0 != old(self).entries()[j].0);
                }
            }
        }
    }

    /// Empties every device: removes its port channels and empties the edit cache and the
    /// compiled stream of every remaining channel.
    pub fn clear_edit_cache(&mut self)
        requires
            old(self).wf(),
        ensures
            final(self).wf(),
            final(self).n_devs() == old(self).n_devs(),
            forall|i: int|
                0 <= i < old(self).n_devs() ==> (#[trigger] final(self).entries()[i]).0 == old(self).entries()[i].0 && dev_fully_cleared(old(self).entries()[i].1, final(self).entries()[i].1),
    {
        let n = dev_map_len(&self.devices);
        let mut k: usize = 0;
        while k < n
            invariant
                k <= n,
                n == old(self).n_devs(),
                self.n_devs() == n,
                old(self).wf(),
                self.wf(),
                forall|j: int| k <= j < n ==> #[trigger] self.entries()[j] == old(self).entries()[j],
                forall|i: int|
                    0 <= i < k ==> (#[trigger] self.entries()[i]).0 == old(self).entries()[i].0
                        && dev_fully_cleared(old(self).entries()[i].1, self.entries()[i].1),
            decreases n - k,
        {
            let ghost prev = self.entries();
            proof {
                assert(prev[k as int] == old(self).entries()[k as int]);
                assert(prev[k as int].1.wf());
            }
            let ghost mut d_new: Device;
            let ghost mut d_mid: Device;
            {
                let d = dev_map_get_mut(&mut self.devices, k);
                d.clear_compile_cache();
                proof {
                    d_mid = *d;
                }
                d.clear_edit_cache();
                proof {
                    d_new = *d;
                }
            }
            k += 1;
            proof {
                let ki = k - 1;
                let d0 = prev[ki].1;
                let lines = editable_entries(d0.entries());
                let mid = d_mid.entries();
                // The middle device holds only editable channels, so the second filter keeps them all.
                assert forall|j: int| 0 <= j < mid.len() implies (|e: (Seq<char>, Channel)| e.1.is_editable())(
                    #[trigger] mid[j],
                ) by {
                    assert(crate::device::cleared_entry(lines[j], mid[j], false));
                    assert(lines[j].1.is_editable()) by {
                        crate::device::lemma_editable_entries_editable(d0.entries(), d0.kind(), d0.settings().samp_rate);
                    }
                }
                lemma_filter_all(mid, |e: (Seq<char>, Channel)| e.1.is_editable());
                assert(editable_entries(mid) == mid);
                assert(dev_fully_cleared(d0, d_new)) by {
                    assert forall|j: int| 0 <= j < lines.len() implies {
                        &&& (#[trigger] d_new.entries()[j]).0 == lines[j].0
                        &&& d_new.entries()[j].1.same_identity(&lines[j].1)
                        &&& d_new.entries()[j].1.list().len() == 0
                        &&& d_new.entries()[j].1.ends().len() == 0
                        &&& d_new.entries()[j].1.vals().len() == 0
                        &&& d_new.entries()[j].1.fresh()
                    } by {
                        assert(crate::device::cleared_entry(lines[j], mid[j], false));
                        assert(crate::device::cleared_entry(mid[j], d_new.entries()[j], true));
                    }
                }
                let e = self.entries();
                assert(e == prev.update(ki, (prev[ki].0, d_new)));
                assert forall|j: int| k <= j < n implies #[trigger] self.entries()[j] == old(self).entries()[j] by {
                    assert(e[j] == prev[j]);
                }
                assert forall|i: int| 0 <= i < k implies (#[trigger] self.entries()[i]).0 == old(self).entries()[i].0 && dev_fully_cleared(old(self).entries()[i].1, self.entries()[i].1) by {
                    if i < ki {
                        assert(e[i] == prev[i]);
                    }
                }
                assert forall|i: int| 0 <= i < e.len() implies {
                    &&& (#[trigger] e[i]).0 == e[i].1.settings().name
                    &&& e[i].1.wf()
                } by {
                    assert(old(self).entries()[i].0 == old(self).entries()[i].1.settings().name);
                    if i > ki {
                        assert(e[i] == prev[i]);
                    }
                }
                assert forall|i: int, j: int| 0 <= i < j < e.len() implies (#[trigger] e[i]).0 != (
                #[trigger] e[j]).0 by {
                    assert(old(self).entries()[i].0 != old(self).entries()[j].0);
                }
            }
        }
    }

    /// Adds channel `ao<channel_id>` with default value `default_value` (a binary64 bit
    /// pattern) to the AO device `name`, which must be registered (see
    /// [`Device::add_channel`]). The only refusal is `Duplicate`, when the device already has
    /// that channel.
    pub fn add_ao_channel(&mut self, name: &str, channel_id: usize, default_value: u64) -> (r: Result<(), AddChannelError>)
        requires
            old(self).wf(),
            old(self).has_dev(name@),
            exists|i: int|
                0 <= i < old(self).n_devs() && (#[trigger] old(self).entries()[i]).0 == name@ && old(self).entries()[i].1.kind() == TaskType::AO,
        ensures
            final(self).wf(),
            final(self).n_devs() == old(self).n_devs(),
            exists|i: int|
                0 <= i < old(self).n_devs() && (#[trigger] old(self).entries()[i]).0 == name@ && final(self).entries() == old(self).entries().update(i, (name@, final(self).entries()[i].1)) && ({
                    let d0 = old(self).entries()[i].1;
                    let d1 = final(self).entries()[i].1;
                    &&& crate::device::channel_added(d0, d1, ao_name(channel_id as nat), default_value, r)
                    &&& (r is Ok <==> !d0.has_chan(ao_name(channel_id as nat)))
                    &&& d0.has_chan(ao_name(channel_id as nat)) ==> r == Err::<(), AddChannelError>(AddChannelError::Duplicate)
                }),
    {
        proof {
            lemma_ao_name_ascii(channel_id as nat);
        }
        let mut chan_name = String::from_str("ao");
        let digits = usize_decimal(channel_id);
        chan_name.append(digits.as_str());
        proof {
            reveal_strlit("ao");
        }
        self.add_channel_to(name, chan_name.as_str(), default_value)
    }

    /// Adds channel `port<port_id>/line<line_id>` with default value `default_value`, which
    /// must be the bit pattern of 0 or 1, to the DO device `name`, which must be registered
    /// (see [`Device::add_channel`]). The only refusal is `Duplicate`, when the device already
    /// has that channel.
    pub fn add_do_channel(&mut self, name: &str, port_id: usize, line_id: usize, default_value: u64) -> (r: Result<(), AddChannelError>)
        requires
            old(self).wf(),
            old(self).has_dev(name@),
            exists|i: int|
                0 <= i < old(self).n_devs() && (#[trigger] old(self).entries()[i]).0 == name@ && old(self).entries()[i].1.kind() == TaskType::DO,
            bits_is_level(default_value),
        ensures
            final(self).wf(),
            final(self).n_devs() == old(self).n_devs(),
            exists|i: int|
                0 <= i < old(self).n_devs() && (#[trigger] old(self).entries()[i]).0 == name@ && final(self).entries() == old(self).entries().update(i, (name@, final(self).entries()[i].1)) && ({
                    let d0 = old(self).entries()[i].1;
                    let d1 = final(self).entries()[i].1;
                    &&& crate::device::channel_added(
                        d0,
                        d1,
                        do_name(port_id as nat, line_id as nat),
                        default_value,
                        r,
                    )
                    &&& (r is Ok <==> !d0.has_chan(do_name(port_id as nat, line_id as nat)))
                    &&& d0.has_chan(do_name(port_id as nat, line_id as nat)) ==> r == Err::<(), AddChannelError>(AddChannelError::Duplicate)
                }),
    {
        proof {
            lemma_do_name_ascii(port_id as nat, line_id as nat);
        }
        let mut chan_name = String::from_str("port");
        let port_digits = usize_decimal(port_id);
        chan_name.append(port_digits.as_str());
        chan_name.append("/line");
        let line_digits = usize_decimal(line_id);
        chan_name.append(line_digits.as_str());
        proof {
            reveal_strlit("port");
            reveal_strlit("/line");
        }
        self.add_channel_to(name, chan_name.as_str(), default_value)
    }

    /// Adds a channel to the device `name` (see [`Device::add_channel`]).
    fn add_channel_to(&mut self, name: &str, chan_name: &str, default_value: u64) -> (r: Result<(), AddChannelError>)
        requires
            old(self).wf(),
            old(self).has_dev(name@),
        ensures
            final(self).wf(),
            final(self).n_devs() == old(self).n_devs(),
            exists|i: int|
                0 <= i < old(self).n_devs() && (#[trigger] old(self).entries()[i]).0 == name@ && final(self).entries() == old(self).entries().update(i, (name@, final(self).entries()[i].1)) && ({
                    let d0 = old(self).entries()[i].1;
                    let d1 = final(self).entries()[i].1;
                    crate::device::channel_added(d0, d1, chan_name@, default_value, r)
                }),
    {
        let i = self.index_of(name);
        let ghost prev = self.entries();
        proof {
            assert(prev[i as int].1.wf());
        }
        let ghost mut d_new: Device;
        let r;
        {
            let d = dev_map_get_mut(&mut self.devices, i);
            r = d.add_channel(chan_name, default_value);
            proof {
                d_new = *d;
            }
        }
        proof {
            let e = self.entries();
            let ii = i as int;
            assert(e == prev.update(ii, (prev[ii].0, d_new)));
            assert(e[ii] == (name@, d_new));
            assert forall|j: int| 0 <= j < e.len() implies {
                &&& (#[trigger] e[j]).0 == e[j].1.settings().name
                &&& e[j].1.wf()
            } by {
                assert(prev[j].0 == prev[j].1.settings().name);
                if j != ii {
                    assert(e[j] == prev[j]);
                }
            }
            assert forall|a: int, b: int| 0 <= a < b < e.len() implies (#[trigger] e[a]).0 != (
            #[trigger] e[b]).0 by {
                assert(prev[a].0 != prev[b].0);
            }
            assert(e == prev.update(ii, (name@, e[ii].1)));
        }
        r
    }

    /// Gives up the registry and hands out its map of devices, in order.
    pub fn into_devices(self) -> (r: IndexMap<String, Device>)
        ensures
            dev_entries(r) == self.entries(),
    {
        self.devices
    }

    /// Checks the start-trigger roles before a compile: more than one device exporting its
    /// start trigger is refused, and so is a device waiting for a start trigger when no device
    /// exports one.
    pub fn check_trig_config(&self) -> (r: Result<(), TrigConfigError>)
        requires
            self.wf(),
        ensures
            r == trig_config_verdict(self.entries()),
    {
        let ghost s = self.entries();
        let n = dev_map_len(&self.devices);
        let mut primaries: usize = 0;
        let mut importer = false;
        let mut k: usize = 0;
        while k < n
            invariant
                k <= n,
                n == s.len(),
                s == self.entries(),
                primaries == primaries_upto(s, k as int),
                primaries <= k,
                importer == importer_upto(s, k as int),
            decreases n - k,
        {
            let d = dev_map_get(&self.devices, k).1;
            let role = d.export_trig();
            proof {
                assert(*d == s[k as int].1);
            }
            match role {
                Some(true) => primaries += 1,
                Some(false) => importer = true,
                None => {},
            }
            k += 1;
            proof {
                assert(importer_upto(s, k as int) == (importer_upto(s, k - 1) || s[k - 1].1.settings().export_trig
                    == Some(false)));
            }
        }
        if primaries >= 2 {
            Err(TrigConfigError::MultiplePrimaries)
        } else if primaries == 0 && importer {
            Err(TrigConfigError::NoPrimary)
        } else {
            Ok(())
        }
    }

    /// The registered devices that are compiled, in order.
    pub fn compiled_devices(&self) -> (r: Vec<&Device>)
        requires
            self.wf(),
        ensures
            r@.len() == self.entries().filter(|e: (Seq<char>, Device)| dev_compiled(e.1)).len(),
            forall|i: int|
                0 <= i < r@.len() ==> *(#[trigger] r@[i]) == self.entries().filter(
                    |e: (Seq<char>, Device)| dev_compiled(e.1),
                )[i].1,
    {
        let ghost s = self.entries();
        let ghost p = |e: (Seq<char>, Device)| dev_compiled(e.1);
        let n = dev_map_len(&self.devices);
        let mut r: Vec<&Device> = Vec::new();
        let mut k: usize = 0;
        proof {
            assert(s.take(0).filter(p) =~= Seq::<(Seq<char>, Device)>::empty()) by {
                reveal(Seq::filter);
            }
        }
        while k < n
            invariant
                k <= n,
                n == s.len(),
                s == self.entries(),
                self.wf(),
                p == |e: (Seq<char>, Device)| dev_compiled(e.1),
                r@.len() == s.take(k as int).filter(p).len(),
                forall|i: int| 0 <= i < r@.len() ==> *(#[trigger] r@[i]) == s.take(k as int).filter(p)[i].1,
            decreases n - k,
        {
            let d = dev_map_get(&self.devices, k).1;
            proof {
                assert(s[k as int].1.wf());
                crate::device::lemma_take_filter(s, p, k as int);
            }
            if d.is_compiled() {
                r.push(d);
            }
            k += 1;
        }
        proof {
            assert(s.take(n as int) =~= s);
        }
        r
    }
}

/// The number of devices among the first `k` entries that export their start trigger.
pub open spec fn primaries_upto(s: Seq<(Seq<char>, Device)>, k: int) -> nat
    decreases k,
{
    if k <= 0 {
        0
    } else {
        primaries_upto(s, k - 1) + if s[k - 1].1.settings().export_trig == Some(true) {
            1nat
        } else {
            0nat
        }
    }
}

/// Whether one of the first `k` entries waits for a start trigger from another device.
pub open spec fn importer_upto(s: Seq<(Seq<char>, Device)>, k: int) -> bool {
    exists|i: int| 0 <= i < k && (#[trigger] s[i]).1.settings().export_trig == Some(false)
}

/// What the start-trigger roles of the devices `s` amount to: at most one device may export
/// its start trigger, and a device that waits for one needs a device that exports it.
pub open spec fn trig_config_verdict(s: Seq<(Seq<char>, Device)>) -> Result<(), TrigConfigError> {
    let n = primaries_upto(s, s.len() as int);
    if n >= 2 {
        Err(TrigConfigError::MultiplePrimaries)
    } else if n == 0 && importer_upto(s, s.len() as int) {
        Err(TrigConfigError::NoPrimary)
    } else {
        Ok(())
    }
}

/// Counting exporters: none among the first `k` entries exactly when no entry there exports,
/// and at least two exactly when two different entries there export.
proof fn lemma_primaries_count(s: Seq<(Seq<char>, Device)>, k: int)
    requires
        0 <= k <= s.len(),
    ensures
        primaries_upto(s, k) == 0 <==> forall|i: int|
            0 <= i < k ==> (#[trigger] s[i]).1.settings().export_trig != Some(true),
        primaries_upto(s, k) >= 2 <==> exists|i: int, j: int|
            0 <= i < j < k && (#[trigger] s[i]).1.settings().export_trig == Some(true)
                && (#[trigger] s[j]).1.settings().export_trig == Some(true),
    decreases k,
{
    if k > 0 {
        lemma_primaries_count(s, k - 1);
        let last = s[k - 1].1.settings().export_trig == Some(true);
        if last && primaries_upto(s, k - 1) >= 1 {
            let i = choose|i: int| 0 <= i < k - 1 && (#[trigger] s[i]).1.settings().export_trig == Some(true);
            assert(0 <= i < k - 1 < k);
        }
        if primaries_upto(s, k) >= 2 {
            if !(primaries_upto(s, k - 1) >= 2) {
                assert(last);
                let i = choose|i: int| 0 <= i < k - 1 && (#[trigger] s[i]).1.settings().export_trig == Some(true);
                assert(s[i].1.settings().export_trig == Some(true) && s[k - 1].1.settings().export_trig == Some(true));
            }
        }
        if exists|i: int, j: int|
            0 <= i < j < k && (#[trigger] s[i]).1.settings().export_trig == Some(true)
                && (#[trigger] s[j]).1.settings().export_trig == Some(true) {
            let (i, j) = choose|i: int, j: int|
                0 <= i < j < k && (#[trigger] s[i]).1.settings().export_trig == Some(true)
                    && (#[trigger] s[j]).1.settings().export_trig == Some(true);
            if j < k - 1 {
                assert(primaries_upto(s, k - 1) >= 2);
            } else {
                assert(s[i].1.settings().export_trig == Some(true));
                assert(primaries_upto(s, k - 1) != 0);
            }
        }
    }
}

/// The start-trigger roles of the devices `s` are refused as `MultiplePrimaries` exactly
/// when two different devices export their start trigger, and as `NoPrimary` exactly when
/// none exports one while some device waits for one; otherwise they are accepted. So an
/// accepted configuration has at most one exporting device, and a waiting device in it
/// always has one to wait for.
pub proof fn lemma_trig_config_roles(s: Seq<(Seq<char>, Device)>)
    ensures
        trig_config_verdict(s) == Err::<(), TrigConfigError>(TrigConfigError::MultiplePrimaries) <==> exists|
            i: int,
            j: int,
        |
            0 <= i < j < s.len() && (#[trigger] s[i]).1.settings().export_trig == Some(true)
                && (#[trigger] s[j]).1.settings().export_trig == Some(true),
        trig_config_verdict(s) == Err::<(), TrigConfigError>(TrigConfigError::NoPrimary) <==> (forall|i: int|
            0 <= i < s.len() ==> (#[trigger] s[i]).1.settings().export_trig != Some(true)) && exists|i: int|
            0 <= i < s.len() && (#[trigger] s[i]).1.settings().export_trig == Some(false),
        trig_config_verdict(s) is Ok ==> (forall|i: int, j: int|
            0 <= i < s.len() && 0 <= j < s.len() && (#[trigger] s[i]).1.settings().export_trig == Some(true)
                && (#[trigger] s[j]).1.settings().export_trig == Some(true) ==> i == j),
{
    lemma_primaries_count(s, s.len() as int);
    assert forall|i: int, j: int|
        0 <= i < s.len() && 0 <= j < s.len() && (#[trigger] s[i]).1.settings().export_trig == Some(true)
            && (#[trigger] s[j]).1.settings().export_trig == Some(true) && trig_config_verdict(s) is Ok implies i
        == j by {
        if i < j {
            assert(s[i].1.settings().export_trig == Some(true) && s[j].1.settings().export_trig == Some(true));
        } else if j < i {
            assert(s[j].1.settings().export_trig == Some(true) && s[i].1.settings().export_trig == Some(true));
        }
    }
}

/// Some editable channel of the device is compiled.
pub open spec fn dev_compiled(d: Device) -> bool {
    exists|j: int| 0 <= j < d.n_chans() && (#[trigger] d.chan_at(j)).is_editable() && d.chan_at(j).ends().len() > 0
}

} // verus!
