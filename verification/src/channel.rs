//! Channels: the edit cache of instruction books of one physical output and its compiled
//! instruction stream.
//!
//! ## Editing
//! Instructions are added with their position interval on the device clock grid. The edit
//! cache (`instr_list`) keeps them sorted by start position, and their claimed intervals never
//! overlap.
//!
//! ## Compiling
//! Compiling flushes the edit cache into a continuous stream of instructions over
//! `[0, stop_pos)`: gaps are padded with constants (the channel default, or the value kept by
//! the previous instruction), open-ended instructions run until the next one, and consecutive
//! segments that play the same instruction are merged.
//!
//! ## Editable and streamable channels
//! AO channels are both editable and streamable. DO line channels (named `port<n>/line<m>`)
//! are editable, not streamable; the DO port channels that a device builds from its lines
//! when it compiles are streamable, not editable.
use vstd::prelude::*;
use crate::instruction::{InstrBook, Instruction, const_instr};
use crate::stream::{
    seg_index_at, lemma_seg_index_at, lemma_stream_unique, seg_start, stream_wf, stream_end, stream_describes,
    push_segment,
};
use crate::utils::{str_contains, contains_seq};
use crate::ports::vals_are_levels;
use crate::value::bits_is_level;

verus! {

/// The NI task type of a channel: analogue output (`AO`) or digital output (`DO`).
#[derive(Clone, Copy, PartialEq, Eq, Structural, Debug)]
pub enum TaskType {
    AO,
    DO,
}

/// The books are well formed, sorted by start position, and each one's claimed interval
/// ends no later than the next one starts.
pub open spec fn books_wf(list: Seq<InstrBook>) -> bool {
    &&& forall|i: int| 0 <= i < list.len() ==> #[trigger] list[i].wf()
    &&& forall|i: int, j: int|
        0 <= i < j < list.len() ==> #[trigger] list[i].eff_end() <= #[trigger] list[j].start_pos
}

/// Index of the last book that starts at or before `p`, or -1.
pub open spec fn last_book_at(list: Seq<InstrBook>, p: int) -> int
    decreases list.len(),
{
    if list.len() == 0 {
        -1
    } else if list.last().start_pos <= p {
        list.len() - 1
    } else {
        last_book_at(list.drop_last(), p)
    }
}

/// The instruction that the edit cache asks for at position `p`: the latest book that has
/// started plays until its end (an open-ended one until the next book); after its end the
/// kept value or the channel default holds; before the first book, the default.
pub open spec fn intended_at(list: Seq<InstrBook>, default: u64, p: int) -> Instruction {
    let j = last_book_at(list, p);
    if j < 0 {
        const_instr(default)
    } else {
        let b = list[j];
        match b.end_spec {
            None => b.func,
            Some((end_pos, keep_val)) => if p < end_pos {
                b.func
            } else if keep_val {
                const_instr(b.held_value())
            } else {
                const_instr(default)
            },
        }
    }
}

pub open spec fn intended_fn(list: Seq<InstrBook>, default: u64) -> spec_fn(int) -> Instruction {
    |p: int| intended_at(list, default, p)
}

/// End of the claimed interval of the last book, or 0 for an empty cache.
pub open spec fn last_end_of(list: Seq<InstrBook>) -> int {
    if list.len() == 0 {
        0
    } else {
        list.last().eff_end()
    }
}

/// The last book has a given end, equal to `t`.
pub open spec fn closes_at(list: Seq<InstrBook>, t: int) -> bool {
    &&& list.len() > 0
    &&& match list.last().end_spec {
        Some((e, _)) => e == t,
        None => false,
    }
}

/// The new book's claimed interval `[start, eff_end)` is disjoint from every book's.
pub open spec fn fits(list: Seq<InstrBook>, book: InstrBook) -> bool {
    forall|j: int|
        0 <= j < list.len() ==> #[trigger] list[j].eff_end() <= book.start_pos || book.eff_end()
            <= list[j].start_pos
}

/// A channel of the given type with this name is one the user edits: every AO channel, and
/// the DO channels whose name contains `line`.
pub open spec fn editable_spec(task_type: TaskType, name: Seq<char>) -> bool {
    match task_type {
        TaskType::AO => true,
        TaskType::DO => contains_seq(name, "line"@),
    }
}

/// A channel of the given type with this name is one that is written to the driver: every AO
/// channel, and the DO channels whose name does not contain `line` (ports).
pub open spec fn streamable_spec(task_type: TaskType, name: Seq<char>) -> bool {
    match task_type {
        TaskType::AO => true,
        TaskType::DO => !contains_seq(name, "line"@),
    }
}

proof fn lemma_last_book_at_range(list: Seq<InstrBook>, p: int)
    ensures
        -1 <= last_book_at(list, p) < list.len(),
    decreases list.len(),
{
    if list.len() > 0 && list.last().start_pos > p {
        lemma_last_book_at_range(list.drop_last(), p);
        let j = last_book_at(list.drop_last(), p);
        if j >= 0 {
            assert(list.drop_last()[j] == list[j]);
        }
    }
}

/// Every book is a constant whose value is a digital level.
pub open spec fn books_are_levels(list: Seq<InstrBook>) -> bool {
    forall|k: int|
        0 <= k < list.len() ==> (#[trigger] list[k]).func.const_value_spec() is Some && bits_is_level(
            list[k].func.const_value_spec().unwrap(),
        )
}

/// A channel whose default and instructions are digital-level constants compiles to a stream
/// of digital-level constants.
pub proof fn lemma_compiled_levels(c: Channel, stop: int)
    requires
        c.compiled_to(stop),
        bits_is_level(c.default_bits()),
        books_are_levels(c.list()),
    ensures
        vals_are_levels(c.vals()),
{
    let ends = c.ends();
    let vals = c.vals();
    let f = c.intended();
    assert forall|k: int| 0 <= k < vals.len() implies (#[trigger] vals[k]).const_value_spec() is Some
        && bits_is_level(vals[k].const_value_spec().unwrap()) by {
        let p = seg_start(ends, k);
        if k > 0 {
            assert(ends[k - 1] < ends[k]);
        }
        assert(seg_start(ends, k) <= p < ends[k]);
        assert(vals[k] == f(p));
        let list = c.list();
        lemma_last_book_at_range(list, p);
        let j = last_book_at(list, p);
        if j >= 0 {
            assert(list[j].func.const_value_spec() is Some);
        }
    }
}

proof fn lemma_last_book_at(list: Seq<InstrBook>, i: int, p: int)
    requires
        books_wf(list),
        -1 <= i < list.len(),
        i < 0 || list[i].start_pos <= p,
        i + 1 == list.len() || p < list[i + 1].start_pos,
    ensures
        last_book_at(list, p) == i,
    decreases list.len(),
{
    let n = list.len();
    if n == 0 {
    } else if i == n - 1 {
    } else {
        let l = list.last();
        assert(list[n - 1].wf());
        if i + 1 < n - 1 {
            assert(list[i + 1].eff_end() <= list[n - 1].start_pos);
            assert(list[i + 1].wf());
        }
        assert(l.start_pos > p);
        let d = list.drop_last();
        assert(books_wf(d)) by {
            assert forall|a: int| 0 <= a < d.len() implies #[trigger] d[a].wf() by {
                assert(d[a] == list[a]);
            }
            assert forall|a: int, b: int| 0 <= a < b < d.len() implies #[trigger] d[a].eff_end()
                <= #[trigger] d[b].start_pos by {
                assert(d[a] == list[a] && d[b] == list[b]);
            }
        }
        if i >= 0 {
            assert(d[i] == list[i]);
        }
        if i + 1 < d.len() {
            assert(d[i + 1] == list[i + 1]);
        }
        lemma_last_book_at(d, i, p);
    }
}

proof fn lemma_eff_end_bounded(list: Seq<InstrBook>, i: int)
    requires
        books_wf(list),
        0 <= i < list.len(),
    ensures
        list[i].eff_end() <= last_end_of(list),
{
    let n = list.len();
    if i < n - 1 {
        assert(list[i].eff_end() <= list[n - 1].start_pos);
        assert(list[n - 1].wf());
    }
}

/// The buffer offset of position `pos` when the positions `[start, end)` are sampled into
/// `n` buffer slots: `start` goes to 0 and `end` to `n`, rounding down.
pub open spec fn buf_offset(pos: int, start: int, end: int, n: int) -> int {
    (pos - start) * n / (end - start)
}

/// See [`buf_offset`].
fn offset_of(pos: usize, start: usize, end: usize, n: usize) -> (r: usize)
    requires
        start <= pos <= end,
        start < end,
    ensures
        r == buf_offset(pos as int, start as int, end as int, n as int),
        r <= n,
{
    let x = (pos - start) as u128;
    let d = (end - start) as u128;
    let m = n as u128;
    proof {
        assert(x * m <= 0xFFFF_FFFF_FFFF_FFFFu128 * 0xFFFF_FFFF_FFFF_FFFFu128) by (nonlinear_arith)
            requires
                x <= 0xFFFF_FFFF_FFFF_FFFFu128,
                m <= 0xFFFF_FFFF_FFFF_FFFFu128,
        ;
        assert(x * m <= d * m) by (nonlinear_arith)
            requires
                x <= d,
        ;
        vstd::arithmetic::div_mod::lemma_div_is_ordered((x * m) as int, (d * m) as int, d as int);
        vstd::arithmetic::div_mod::lemma_div_multiples_vanish(m as int, d as int);
        assert(d * m == m * d) by (nonlinear_arith);
    }
    let q = x * m / d;
    q as usize
}

/// Closing edge: when the last instruction has a given end at `stop`, a stream compiled to
/// `stop + 1` plays at position `stop` the value that follows that instruction: its kept
/// value when it keeps its value, otherwise the channel default.
pub proof fn lemma_closing_edge(c: Channel, stop: int)
    requires
        c.wf(),
        c.compiled_to(stop + 1),
        closes_at(c.list(), stop),
    ensures
        ({
            let b = c.list().last();
            let k = seg_index_at(c.ends(), stop);
            &&& 0 <= k < c.ends().len()
            &&& seg_start(c.ends(), k) <= stop < c.ends()[k]
            &&& c.vals()[k] == if b.end_spec->Some_0.1 {
                const_instr(b.held_value())
            } else {
                const_instr(c.default_bits())
            }
        }),
{
    let list = c.list();
    let n = list.len();
    let b = list[n - 1];
    assert(b.wf());
    assert(stop >= 0);
    lemma_seg_index_at(c.ends(), c.vals(), stop);
    let k = seg_index_at(c.ends(), stop);
    let f = c.intended();
    assert(c.vals()[k] == f(stop));
    lemma_last_book_at(list, n - 1, stop);
}

/// Reset: when the last instruction is the reset of `Channel::add_reset_instr` at `pos`, the
/// compiled stream plays the channel default at every position from `pos` to the stop.
pub proof fn lemma_reset_plays_default(c: Channel, pos: int, stop: int, p: int)
    requires
        c.wf(),
        c.compiled_to(stop),
        c.list().len() > 0,
        c.list().last() == (InstrBook {
            start_pos: pos as usize,
            end_spec: None,
            func: const_instr(c.default_bits()),
            end_val: c.default_bits(),
        }),
        0 <= pos <= p < stop,
    ensures
        0 <= seg_index_at(c.ends(), p) < c.ends().len(),
        c.vals()[seg_index_at(c.ends(), p)] == const_instr(c.default_bits()),
{
    let list = c.list();
    let n = list.len();
    assert(list[n - 1].wf());
    lemma_seg_index_at(c.ends(), c.vals(), p);
    let k = seg_index_at(c.ends(), p);
    let f = c.intended();
    assert(c.vals()[k] == f(p));
    lemma_last_book_at(list, n - 1, p);
}

/// Compilation is determined by the edit cache: two channels with the same instructions and
/// default, compiled to the same stop, hold the same stream. In particular compiling again
/// to the same stop changes nothing.
pub proof fn lemma_compiled_unique(c1: Channel, c2: Channel, stop: int)
    requires
        c1.compiled_to(stop),
        c2.compiled_to(stop),
        c1.list() == c2.list(),
        c1.default_bits() == c2.default_bits(),
    ensures
        c1.ends() == c2.ends(),
        c1.vals() == c2.vals(),
{
    assert(c1.intended() == c2.intended());
    lemma_stream_unique(c1.ends(), c1.vals(), c2.ends(), c2.vals(), c1.intended(), stop);
}

/// One physical channel (or an aggregated DO port) of a device.
pub struct Channel {
    name: String,
    task_type: TaskType,
    samp_rate: u64,
    default_value: u64,
    fresh_compiled: bool,
    instr_list: Vec<InstrBook>,
    instr_end: Vec<usize>,
    instr_val: Vec<Instruction>,
}

impl Channel {
    pub closed spec fn name_view(&self) -> Seq<char> {
        self.name@
    }

    pub closed spec fn kind(&self) -> TaskType {
        self.task_type
    }

    pub closed spec fn rate_bits(&self) -> u64 {
        self.samp_rate
    }

    pub closed spec fn default_bits(&self) -> u64 {
        self.default_value
    }

    pub closed spec fn fresh(&self) -> bool {
        self.fresh_compiled
    }

    pub closed spec fn list(&self) -> Seq<InstrBook> {
        self.instr_list@
    }

    pub closed spec fn ends(&self) -> Seq<usize> {
        self.instr_end@
    }

    pub closed spec fn vals(&self) -> Seq<Instruction> {
        self.instr_val@
    }

    /// What the edit cache asks for, position by position.
    pub open spec fn intended(&self) -> spec_fn(int) -> Instruction {
        intended_fn(self.list(), self.default_bits())
    }

    pub open spec fn is_editable(&self) -> bool {
        editable_spec(self.kind(), self.name_view())
    }

    pub open spec fn is_streamable(&self) -> bool {
        streamable_spec(self.kind(), self.name_view())
    }

    /// The compiled stream is the canonical description of the edit cache over
    /// `[0, stop)`.
    pub open spec fn compiled_to(&self, stop: int) -> bool {
        &&& self.ends().len() > 0
        &&& stream_describes(self.ends(), self.vals(), self.intended(), stop)
    }

    /// Freshly compiled from a nonempty edit cache, with the stream stopping at `stop`.
    pub open spec fn fresh_at(&self, stop: int) -> bool {
        &&& self.list().len() > 0
        &&& self.fresh()
        &&& self.ends().len() > 0
        &&& stream_end(self.ends()) == stop
    }

    /// Invariant: the edit cache is sorted and non-overlapping, the compiled stream is well
    /// formed, and a freshly compiled channel with instructions holds their compilation.
    pub open spec fn wf(&self) -> bool {
        &&& books_wf(self.list())
        &&& stream_wf(self.ends(), self.vals())
        &&& self.fresh() && self.list().len() > 0 ==> self.compiled_to(stream_end(self.ends()))
    }

    /// The same channel identity (name, type, rate, default).
    pub open spec fn same_identity(&self, other: &Channel) -> bool {
        &&& self.name_view() == other.name_view()
        &&& self.kind() == other.kind()
        &&& self.rate_bits() == other.rate_bits()
        &&& self.default_bits() == other.default_bits()
    }

    /// Creates a channel with an empty edit cache and no compiled stream. `samp_rate` and
    /// `default_value` are binary64 bit patterns.
    pub fn new(task_type: TaskType, name: &str, samp_rate: u64, default_value: u64) -> (c: Self)
        ensures
            c.wf(),
            c.name_view() == name@,
            c.kind() == task_type,
            c.rate_bits() == samp_rate,
            c.default_bits() == default_value,
            c.fresh(),
            c.list().len() == 0,
            c.ends().len() == 0,
            c.vals().len() == 0,
    {
        Channel {
            name: String::from_str(name),
            task_type,
            samp_rate,
            default_value,
            fresh_compiled: true,
            instr_list: Vec::new(),
            instr_end: Vec::new(),
            instr_val: Vec::new(),
        }
    }

    /// Creates a channel that holds an already compiled stream and no edit cache (a DO port
    /// channel).
    pub fn new_compiled(
        task_type: TaskType,
        name: String,
        samp_rate: u64,
        default_value: u64,
        instr_end: Vec<usize>,
        instr_val: Vec<Instruction>,
    ) -> (c: Self)
        requires
            stream_wf(instr_end@, instr_val@),
        ensures
            c.wf(),
            c.name_view() == name@,
            c.kind() == task_type,
            c.rate_bits() == samp_rate,
            c.default_bits() == default_value,
            c.fresh(),
            c.list().len() == 0,
            c.ends() == instr_end@,
            c.vals() == instr_val@,
    {
        Channel {
            name,
            task_type,
            samp_rate,
            default_value,
            fresh_compiled: true,
            instr_list: Vec::new(),
            instr_end,
            instr_val,
        }
    }

    pub fn name(&self) -> (r: &str)
        ensures
            r@ == self.name_view(),
    {
        self.name.as_str()
    }

    pub fn task_type(&self) -> (r: TaskType)
        ensures
            r == self.kind(),
    {
        self.task_type
    }

    /// Sample rate (binary64 bit pattern).
    pub fn samp_rate(&self) -> (r: u64)
        ensures
            r == self.rate_bits(),
    {
        self.samp_rate
    }

    /// Value of the channel where no instruction is defined (binary64 bit pattern).
    pub fn default_value(&self) -> (r: u64)
        ensures
            r == self.default_bits(),
    {
        self.default_value
    }

    /// Value that a reset instruction sets: the channel default.
    pub fn reset_value(&self) -> (r: u64)
        ensures
            r == self.default_bits(),
    {
        self.default_value
    }

    /// Set by each compilation and cleared by each edit.
    pub fn is_fresh_compiled(&self) -> (r: bool)
        ensures
            r == self.fresh(),
    {
        self.fresh_compiled
    }

    /// The edit cache.
    pub fn instr_list(&self) -> (r: &Vec<InstrBook>)
        ensures
            r@ == self.list(),
    {
        &self.instr_list
    }

    /// End positions of the compiled segments.
    pub fn instr_end(&self) -> (r: &Vec<usize>)
        ensures
            r@ == self.ends(),
    {
        &self.instr_end
    }

    /// Instructions of the compiled segments.
    pub fn instr_val(&self) -> (r: &Vec<Instruction>)
        ensures
            r@ == self.vals(),
    {
        &self.instr_val
    }

    /// A channel is compiled when its compiled stream is nonempty.
    pub fn is_compiled(&self) -> (r: bool)
        ensures
            r == (self.ends().len() > 0),
    {
        self.instr_end.len() > 0
    }

    /// A channel is edited when its edit cache is nonempty.
    pub fn is_edited(&self) -> (r: bool)
        ensures
            r == (self.list().len() > 0),
    {
        self.instr_list.len() > 0
    }

    /// See [`editable_spec`].
    pub fn editable(&self) -> (r: bool)
        ensures
            r == self.is_editable(),
    {
        match self.task_type {
            TaskType::AO => true,
            TaskType::DO => str_contains(self.name.as_str(), "line"),
        }
    }

    /// See [`streamable_spec`].
    pub fn streamable(&self) -> (r: bool)
        ensures
            r == self.is_streamable(),
    {
        match self.task_type {
            TaskType::AO => true,
            TaskType::DO => !str_contains(self.name.as_str(), "line"),
        }
    }

    /// End of the claimed interval of the last instruction (0 for an empty cache): the first
    /// position at which the sequence may stop without cutting an instruction.
    pub fn last_instr_end_pos(&self) -> (r: usize)
        requires
            self.wf(),
        ensures
            r == last_end_of(self.list()),
    {
        let n = self.instr_list.len();
        if n == 0 {
            0
        } else {
            proof {
                assert(self.list()[n - 1].wf());
            }
            self.instr_list[n - 1].eff_end_pos()
        }
    }

    /// Number of samples of the compiled stream: its last end position (0 if not compiled).
    pub fn total_samps(&self) -> (r: usize)
        ensures
            r == stream_end(self.ends()),
    {
        let n = self.instr_end.len();
        if n == 0 {
            0
        } else {
            self.instr_end[n - 1]
        }
    }

    /// Whether a book can join the edit cache without overlapping any instruction.
    pub fn can_add(&self, book: &InstrBook) -> (r: bool)
        requires
            self.wf(),
            book.wf(),
        ensures
            r == fits(self.list(), *book),
    {
        let n = self.instr_list.len();
        let new_end = book.eff_end_pos();
        let mut j: usize = 0;
        while j < n
            invariant
                n == self.list().len(),
                self.wf(),
                new_end == book.eff_end(),
                forall|a: int|
                    0 <= a < j ==> #[trigger] self.list()[a].eff_end() <= book.start_pos
                        || book.eff_end() <= self.list()[a].start_pos,
            decreases n - j,
        {
            proof {
                assert(self.list()[j as int].wf());
            }
            let b = self.instr_list[j];
            if !(b.eff_end_pos() <= book.start_pos || new_end <= b.start_pos) {
                return false;
            }
            j += 1;
        }
        true
    }

    /// Adds an instruction starting at `start_pos`, ending at `end_spec` (see [`InstrBook`]),
    /// whose value at its end is `end_val`. The new interval must not overlap any instruction
    /// already in the edit cache. The channel is then no longer freshly compiled.
    pub fn add_instr(&mut self, func: Instruction, start_pos: usize, end_spec: Option<(usize, bool)>, end_val: u64)
        requires
            old(self).wf(),
            func.wf(),
            match end_spec {
                Some((end_pos, _)) => end_pos > start_pos,
                None => start_pos < usize::MAX,
            },
            fits(old(self).list(), InstrBook { start_pos, end_spec, func, end_val }),
        ensures
            final(self).wf(),
            final(self).same_identity(old(self)),
            !final(self).fresh(),
            final(self).ends() == old(self).ends(),
            final(self).vals() == old(self).vals(),
            exists|k: int|
                0 <= k <= old(self).list().len() && final(self).list() == old(self).list().insert(
                    k,
                    InstrBook { start_pos, end_spec, func, end_val },
                ),
    {
        let book = InstrBook::new(start_pos, end_spec, func, end_val);
        let ghost old_list = self.instr_list@;
        let n = self.instr_list.len();
        // Position of the first book that starts after the new one.
        let mut k: usize = 0;
        while k < n && self.instr_list[k].start_pos < start_pos
            invariant
                k <= n,
                n == old_list.len(),
                self.instr_list@ == old_list,
                forall|a: int| 0 <= a < k ==> #[trigger] old_list[a].start_pos < start_pos,
            decreases n - k,
        {
            k += 1;
        }
        proof {
            if k < n {
                assert(old_list[k as int].start_pos >= start_pos);
            }
        }
        self.instr_list.insert(k, book);
        self.fresh_compiled = false;
        proof {
            let l = self.instr_list@;
            assert(l == old_list.insert(k as int, book));
            assert forall|a: int| 0 <= a < l.len() implies #[trigger] l[a].wf() by {
                if a < k {
                    assert(l[a] == old_list[a]);
                } else if a > k {
                    assert(l[a] == old_list[a - 1]);
                }
            }
            assert forall|a: int, b: int| 0 <= a < b < l.len() implies #[trigger] l[a].eff_end()
                <= #[trigger] l[b].start_pos by {
                if b < k {
                    assert(l[a] == old_list[a] && l[b] == old_list[b]);
                } else if b == k {
                    assert(l[a] == old_list[a]);
                    assert(old_list[a].start_pos < start_pos);
                    assert(old_list[a].wf());
                } else if a > k {
                    assert(l[a] == old_list[a - 1] && l[b] == old_list[b - 1]);
                } else if a == k {
                    assert(l[b] == old_list[b - 1]);
                    assert(old_list[k as int].start_pos >= start_pos);
                    assert(old_list[b - 1].wf());
                    if b - 1 > k {
                        assert(old_list[k as int].eff_end() <= old_list[b - 1].start_pos);
                        assert(old_list[k as int].wf());
                    }
                    assert(old_list[b - 1].eff_end() > old_list[b - 1].start_pos);
                } else {
                    assert(l[a] == old_list[a] && l[b] == old_list[b - 1]);
                }
            }
        }
    }

    /// Adds a constant instruction (see [`Channel::add_instr`]).
    pub fn constant(&mut self, value: u64, start_pos: usize, end_spec: Option<(usize, bool)>)
        requires
            old(self).wf(),
            match end_spec {
                Some((end_pos, _)) => end_pos > start_pos,
                None => start_pos < usize::MAX,
            },
            fits(old(self).list(), InstrBook { start_pos, end_spec, func: const_instr(value), end_val: value }),
        ensures
            final(self).wf(),
            final(self).same_identity(old(self)),
            !final(self).fresh(),
            final(self).ends() == old(self).ends(),
            final(self).vals() == old(self).vals(),
            exists|k: int|
                0 <= k <= old(self).list().len() && final(self).list() == old(self).list().insert(
                    k,
                    InstrBook { start_pos, end_spec, func: const_instr(value), end_val: value },
                ),
    {
        self.add_instr(Instruction::new_const(value), start_pos, end_spec, value);
    }

    /// Adds an open-ended constant instruction at `reset_pos` that returns the channel to its
    /// default value; `reset_pos` must not be below the end of the last instruction.
    pub fn add_reset_instr(&mut self, reset_pos: usize)
        requires
            old(self).wf(),
            reset_pos >= last_end_of(old(self).list()),
            reset_pos < usize::MAX,
        ensures
            final(self).wf(),
            final(self).same_identity(old(self)),
            !final(self).fresh(),
            final(self).ends() == old(self).ends(),
            final(self).vals() == old(self).vals(),
            final(self).list() == old(self).list().push(
                InstrBook {
                    start_pos: reset_pos,
                    end_spec: None,
                    func: const_instr(old(self).default_bits()),
                    end_val: old(self).default_bits(),
                },
            ),
    {
        let ghost book = InstrBook {
            start_pos: reset_pos,
            end_spec: None,
            func: const_instr(self.default_value),
            end_val: self.default_value,
        };
        proof {
            let l = self.list();
            assert forall|j: int| 0 <= j < l.len() implies #[trigger] l[j].eff_end() <= book.start_pos
                || book.eff_end() <= l[j].start_pos by {
                lemma_eff_end_bounded(l, j);
            }
        }
        let v = self.default_value;
        self.constant(v, reset_pos, None);
        proof {
            let l0 = old(self).list();
            let l = self.list();
            let k = choose|k: int| 0 <= k <= l0.len() && l == l0.insert(k, book);
            if k < l0.len() {
                assert(l[k] == book);
                assert(l[k + 1] == l0[k]);
                lemma_eff_end_bounded(l0, k);
                assert(l0[k].wf());
                assert(l[k].eff_end() <= l[k + 1].start_pos);
                assert(false);
            }
            assert(l =~= l0.push(book));
        }
    }

    /// Empties the edit cache; the channel is freshly compiled only if nothing is compiled.
    pub fn clear_edit_cache(&mut self)
        requires
            old(self).wf(),
        ensures
            final(self).wf(),
            final(self).same_identity(old(self)),
            final(self).list().len() == 0,
            final(self).fresh() == (old(self).ends().len() == 0),
            final(self).ends() == old(self).ends(),
            final(self).vals() == old(self).vals(),
    {
        self.fresh_compiled = self.instr_end.len() == 0;
        self.instr_list.clear();
    }

    /// Empties the compiled stream; the channel is freshly compiled only if nothing is edited.
    pub fn clear_compile_cache(&mut self)
        requires
            old(self).wf(),
        ensures
            final(self).wf(),
            final(self).same_identity(old(self)),
            final(self).list() == old(self).list(),
            final(self).fresh() == (old(self).list().len() == 0),
            final(self).ends().len() == 0,
            final(self).vals().len() == 0,
    {
        self.fresh_compiled = self.instr_list.len() == 0;
        self.instr_end.clear();
        self.instr_val.clear();
    }

    /// Compiles the edit cache into a stream over `[0, stop_pos)`; `stop_pos` must not cut
    /// the last instruction, and a freshly compiled channel must not be compiled again to the
    /// position where its stream already stops. A channel with an empty edit cache is left
    /// alone.
    pub fn compile(&mut self, stop_pos: usize)
        requires
            old(self).wf(),
            last_end_of(old(self).list()) <= stop_pos,
            !old(self).fresh_at(stop_pos as int),
        ensures
            final(self).wf(),
            final(self).same_identity(old(self)),
            final(self).list() == old(self).list(),
            old(self).list().len() == 0 ==> final(self).fresh() == old(self).fresh()
                && final(self).ends() == old(self).ends() && final(self).vals() == old(self).vals(),
            old(self).list().len() > 0 ==> final(self).fresh() && final(self).compiled_to(
                stop_pos as int,
            ),
    {
        let n = self.instr_list.len();
        if n == 0 {
            return;
        }
        self.clear_compile_cache();
        self.fresh_compiled = true;

        let ghost list = self.instr_list@;
        let ghost f = intended_fn(list, self.default_value);
        let default_value = self.default_value;
        let mut ends: Vec<usize> = Vec::new();
        let mut vals: Vec<Instruction> = Vec::new();
        let mut last_val = default_value;
        let mut upto: usize = 0;
        let mut i: usize = 0;
        proof {
            assert forall|p: int| 0 <= p < list[0].start_pos implies #[trigger] f(p) == const_instr(
                last_val,
            ) by {
                lemma_last_book_at(list, -1, p);
            }
        }
        while i < n
            invariant
                0 <= i <= n,
                n == list.len(),
                list == self.instr_list@,
                books_wf(list),
                last_end_of(list) <= stop_pos,
                f == intended_fn(list, default_value),
                stream_describes(ends@, vals@, f, upto as int),
                i < n ==> upto <= list[i as int].start_pos,
                upto <= stop_pos,
                i > 0 ==> ends@.len() > 0,
                forall|p: int|
                    upto <= p < (if i < n {
                        list[i as int].start_pos as int
                    } else {
                        stop_pos as int
                    }) ==> #[trigger] f(p) == const_instr(last_val),
            decreases n - i,
        {
            let b = self.instr_list[i];
            proof {
                assert(list[i as int].wf());
                lemma_eff_end_bounded(list, i as int);
            }
            if upto != b.start_pos {
                push_segment(&mut ends, &mut vals, b.start_pos, Instruction::new_const(last_val), Ghost(f));
            }
            let e = match b.end_spec {
                Some((e, _)) => e,
                None => if i + 1 < n {
                    self.instr_list[i + 1].start_pos
                } else {
                    stop_pos
                },
            };
            proof {
                if i + 1 < n {
                    assert(list[i as int].eff_end() <= list[i + 1].start_pos);
                    assert(list[i + 1].wf());
                    lemma_eff_end_bounded(list, i + 1);
                }
                assert forall|p: int| b.start_pos <= p < e implies #[trigger] f(p) == b.func by {
                    lemma_last_book_at(list, i as int, p);
                }
            }
            push_segment(&mut ends, &mut vals, e, b.func, Ghost(f));
            last_val = match b.end_spec {
                Some((_, true)) => b.held(),
                _ => default_value,
            };
            upto = e;
            i += 1;
            proof {
                assert forall|p: int|
                    upto <= p < (if i < n {
                        list[i as int].start_pos as int
                    } else {
                        stop_pos as int
                    }) implies #[trigger] f(p) == const_instr(last_val) by {
                    lemma_last_book_at(list, i - 1, p);
                }
            }
        }
        if upto != stop_pos {
            push_segment(&mut ends, &mut vals, stop_pos, Instruction::new_const(last_val), Ghost(f));
        }
        self.instr_end = ends;
        self.instr_val = vals;
    }

    /// How the compiled positions `[start_pos, end_pos)` map onto a buffer of `num_samps`
    /// samples: one `(segment, from, to)` triple per compiled segment that the window meets,
    /// in order, saying that buffer slots `[from, to)` take the values of that segment. The
    /// first triple starts at the window's start, each next one where the previous segment
    /// ends, and the last one reaches the window's end; positions map to slots by
    /// [`buf_offset`].
    pub fn signal_plan(&self, start_pos: usize, end_pos: usize, num_samps: usize) -> (r: Vec<(usize, usize, usize)>)
        requires
            self.wf(),
            self.ends().len() > 0,
            start_pos < end_pos,
            end_pos <= stream_end(self.ends()),
        ensures
            r@.len() >= 1,
            r@[0].0 < self.ends().len(),
            forall|k: int| 0 <= k < r@[0].0 ==> #[trigger] self.ends()[k] < start_pos,
            self.ends()[r@[0].0 as int] >= start_pos,
            r@.last().0 < self.ends().len(),
            forall|k: int| 0 <= k < r@.last().0 ==> #[trigger] self.ends()[k] < end_pos,
            self.ends()[r@.last().0 as int] >= end_pos,
            forall|k: int| 0 <= k < r@.len() ==> (#[trigger] r@[k]).0 == r@[0].0 + k,
            forall|k: int|
                0 <= k < r@.len() ==> (#[trigger] r@[k]).1 == buf_offset(
                    if k == 0 {
                        start_pos as int
                    } else {
                        self.ends()[r@[0].0 + k - 1] as int
                    },
                    start_pos as int,
                    end_pos as int,
                    num_samps as int,
                ),
            forall|k: int|
                0 <= k < r@.len() ==> (#[trigger] r@[k]).2 == buf_offset(
                    if end_pos < self.ends()[r@[0].0 + k] {
                        end_pos as int
                    } else {
                        self.ends()[r@[0].0 + k] as int
                    },
                    start_pos as int,
                    end_pos as int,
                    num_samps as int,
                ),
    {
        let ghost ends = self.ends();
        let a = self.binfind_first_intersect_instr(start_pos);
        let b = self.binfind_first_intersect_instr(end_pos);
        proof {
            let l = ends.len() - 1;
            assert(ends[l] >= end_pos);
            if a > b {
                assert(ends[b as int] < start_pos);
            }
        }
        let len = self.instr_end.len();
        proof {
            assert(ends.len() == len);
        }
        let mut r: Vec<(usize, usize, usize)> = Vec::new();
        let mut cur = start_pos;
        let mut i = a;
        while i <= b
            invariant
                self.wf(),
                ends == self.ends(),
                a <= i <= b + 1,
                b < ends.len(),
                start_pos < end_pos,
                forall|k: int| 0 <= k < a ==> #[trigger] ends[k] < start_pos,
                ends[a as int] >= start_pos,
                forall|k: int| 0 <= k < b ==> #[trigger] ends[k] < end_pos,
                ends[b as int] >= end_pos,
                r@.len() == i - a,
                b < usize::MAX,
                cur == (if i == a {
                    start_pos as int
                } else if end_pos < ends[i - 1] {
                    end_pos as int
                } else {
                    ends[i - 1] as int
                }),
                start_pos <= cur < end_pos || i == b + 1,
                forall|k: int| 0 <= k < r@.len() ==> (#[trigger] r@[k]).0 == a + k,
                forall|k: int|
                    0 <= k < r@.len() ==> (#[trigger] r@[k]).1 == buf_offset(
                        if k == 0 {
                            start_pos as int
                        } else {
                            ends[a + k - 1] as int
                        },
                        start_pos as int,
                        end_pos as int,
                        num_samps as int,
                    ),
                forall|k: int|
                    0 <= k < r@.len() ==> (#[trigger] r@[k]).2 == buf_offset(
                        if end_pos < ends[a + k] {
                            end_pos as int
                        } else {
                            ends[a + k] as int
                        },
                        start_pos as int,
                        end_pos as int,
                        num_samps as int,
                    ),
            decreases b + 1 - i,
        {
            proof {
                if i > a {
                    assert(ends[i - 1] < ends[i as int]);
                }
            }
            let e = if end_pos < self.instr_end[i] {
                end_pos
            } else {
                self.instr_end[i]
            };
            let from = offset_of(cur, start_pos, end_pos, num_samps);
            let to = offset_of(e, start_pos, end_pos, num_samps);
            r.push((i, from, to));
            cur = e;
            i += 1;
            proof {
                if i <= b {
                    assert(ends[i - 1] < end_pos);
                }
            }
        }
        r
    }

    /// Index of the first compiled segment whose end position is at least `start_pos`
    /// (the number of segments if there is none).
    pub fn binfind_first_intersect_instr(&self, start_pos: usize) -> (r: usize)
        requires
            self.wf(),
        ensures
            r <= self.ends().len(),
            forall|k: int| 0 <= k < r ==> #[trigger] self.ends()[k] < start_pos,
            r < self.ends().len() ==> self.ends()[r as int] >= start_pos,
    {
        let mut low: usize = 0;
        let mut high: usize = self.instr_end.len();
        while low < high
            invariant
                low <= high <= self.ends().len(),
                self.wf(),
                forall|k: int| 0 <= k < low ==> #[trigger] self.ends()[k] < start_pos,
                forall|k: int| high <= k < self.ends().len() ==> #[trigger] self.ends()[k] >= start_pos,
            decreases high - low,
        {
            let mid = low + (high - low) / 2;
            if self.instr_end[mid] < start_pos {
                low = mid + 1;
            } else {
                high = mid;
            }
        }
        low
    }
}

} // verus!
