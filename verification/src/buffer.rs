//! Keeps track of signal values before they are written to disk.

use vstd::prelude::*;
use vstd::slice::slice_subrange;
use crate::bytes::{copy_of, copy_into, push_all, repeated, spliced};
use crate::encode::{
    is_std_logic, is_std_logic_char, lemma_record_len, value_change_record, write_multi_bit_signal, write_one_bit_signal, write_time_chain_update,
};
use crate::lists::{joined, appended_with, ListEntry, SingleVecLists};
use crate::signal::{FstSignalId, FstSignalType, FstWriteError};
use crate::varint::{varint_bytes, lemma_varint_len_u64};

verus! {

/// The eight little endian bytes of the quiet NaN that an untouched real signal holds.
pub open spec fn nan_bytes() -> Seq<u8> {
    seq![0u8, 0u8, 0u8, 0u8, 0u8, 0u8, 0xf8u8, 0x7fu8]
}

/// The offset of the value of signal `i` in the value buffer: the lengths of the signals before
/// it, added up.
pub open spec fn offset_of(lens: Seq<u32>, i: int) -> nat
    decreases i,
{
    if i <= 0 {
        0
    } else {
        offset_of(lens, i - 1) + lens[i - 1] as nat
    }
}

/// The lengths of the values of signals of types `types`.
pub open spec fn lens_of(types: Seq<FstSignalType>) -> Seq<u32> {
    types.map_values(|t: FstSignalType| t.spec_len())
}

/// The values all signals start out with: `x` for every bit, NaN for a real.
pub open spec fn initial_values(types: Seq<FstSignalType>) -> Seq<u8>
    decreases types.len(),
{
    if types.len() == 0 {
        Seq::empty()
    } else {
        initial_values(types.drop_last()) + match types.last() {
            FstSignalType::Real => nan_bytes(),
            FstSignalType::BitVec(len) => Seq::new(len as nat, |i: int| 0x78u8),
        }
    }
}

/// The time table of a section with time steps `times`: every step as the distance from the step
/// before, the first one from zero.
pub open spec fn time_chain(times: Seq<u64>) -> Seq<u8>
    decreases times.len(),
{
    if times.len() == 0 {
        Seq::empty()
    } else {
        let prev: int = if times.len() == 1 {
            0
        } else {
            times[times.len() - 2] as int
        };
        time_chain(times.drop_last()) + varint_bytes((times.last() - prev) as nat)
    }
}

/// Whether the time steps never go back.
pub open spec fn nondecreasing(times: Seq<u64>) -> bool {
    forall|i: int, j: int| 0 <= i <= j < times.len() ==> times[i] <= times[j]
}

/// `value` brought to `len` characters by extending it on the left: with `0` for a value that
/// starts with `0` or `1`, with its first character for one that starts with `x` or `z`. `None`
/// where that is not possible.
pub open spec fn expanded(value: Seq<u8>, len: nat) -> Option<Seq<u8>> {
    if value.len() >= len || value.len() == 0 {
        None
    } else if value[0] == 0x30 || value[0] == 0x31 {
        Some(Seq::new((len - value.len()) as nat, |i: int| 0x30u8) + value)
    } else if value[0] == 0x78 || value[0] == 0x58 || value[0] == 0x7a || value[0] == 0x5a {
        Some(Seq::new((len - value.len()) as nat, |i: int| value[0]) + value)
    } else {
        None
    }
}

/// The value a signal of `len` characters takes when it is given `value`: `value` itself when it
/// has the right length, else its extension.
pub open spec fn normalized(value: Seq<u8>, len: nat) -> Option<Seq<u8>> {
    if value.len() == len {
        Some(value)
    } else {
        expanded(value, len)
    }
}

/// Tries to expand the common shortenings of values used in VCD files.
pub fn expand_special_vector_cases(value: &[u8], len: usize) -> (res: Option<Vec<u8>>)
    requires
        value@.len() >= len || value@.len() > 0,
    ensures
        res matches Some(v) ==> expanded(value@, len as nat) == Some(v@),
        res is None ==> expanded(value@, len as nat) is None,
{
    // if the value is actually longer than expected, there is nothing we can do
    if value.len() >= len {
        return None;
    }
    // zero, x or z extend
    let first = value[0];
    if first == 0x31 || first == 0x30 {
        let mut extended = repeated(0x30, len - value.len());
        push_all(&mut extended, value);
        Some(extended)
    } else if first == 0x78 || first == 0x58 || first == 0x7a || first == 0x5a {
        let mut extended = repeated(first, len - value.len());
        push_all(&mut extended, value);
        Some(extended)
    } else {
        None
    }
}

/// Where the value of a signal lives in the value buffer.
#[derive(Clone, Copy, Debug)]
pub struct SignalInfo {
    /// length in bytes / number of characters
    pub len: u32,
    /// starting offset in the value buffer
    pub offset: u32,
}

/// Lays out the values of signals of types `signals` one after the other. Returns where each
/// one lives and the length of them all.
pub fn gen_signal_info(signals: &[FstSignalType]) -> (res: (Vec<SignalInfo>, usize))
    requires
        offset_of(lens_of(signals@), signals@.len() as int) <= u32::MAX,
    ensures
        res.0@.len() == signals@.len(),
        forall|i: int|
            0 <= i < signals@.len() ==> (#[trigger] res.0@[i]).len == signals@[i].spec_len()
                && res.0@[i].offset == offset_of(lens_of(signals@), i),
        res.1 == offset_of(lens_of(signals@), signals@.len() as int),
{
    let ghost lens = lens_of(signals@);
    let mut offset: u32 = 0;
    let mut out: Vec<SignalInfo> = Vec::new();
    let mut i: usize = 0;
    proof {
        lemma_offset_monotone(lens, signals@.len() as int);
    }
    while i < signals.len()
        invariant
            i <= signals@.len(),
            lens == lens_of(signals@),
            lens.len() == signals@.len(),
            offset_of(lens, signals@.len() as int) <= u32::MAX,
            forall|j: int| 0 <= j <= signals@.len() ==> #[trigger] offset_of(lens, j) <= offset_of(lens, signals@.len() as int),
            offset == offset_of(lens, i as int),
            out@.len() == i,
            forall|j: int|
                0 <= j < i ==> (#[trigger] out@[j]).len == signals@[j].spec_len() && out@[j].offset
                    == offset_of(lens, j),
        decreases signals.len() - i,
    {
        let len = signals[i].len();
        assert(lens[i as int] == len);
        assert(offset_of(lens, i + 1) == offset + len);
        out.push(SignalInfo { len, offset });
        offset = offset + len;
        i = i + 1;
    }
    (out, offset as usize)
}

/// Offsets never go down.
proof fn lemma_offset_monotone(lens: Seq<u32>, n: int)
    ensures
        forall|j: int| 0 <= j <= n ==> #[trigger] offset_of(lens, j) <= offset_of(lens, n),
    decreases n,
{
    if n > 0 {
        lemma_offset_monotone(lens, n - 1);
    }
}

/// Whether, in the value buffer `values` of signals with lengths `lens`, the value of every one
/// bit signal is one of the nine `std_logic` states.
pub open spec fn one_bit_values_valid(lens: Seq<u32>, values: Seq<u8>) -> bool {
    forall|i: int|
        0 <= i < lens.len() && lens[i] == 1 ==> is_std_logic(
            #[trigger] values[offset_of(lens, i) as int],
        )
}

/// Replacing the value of signal `i` leaves the value of every other signal as it was.
proof fn lemma_with_value_other(m: BufferModel, i: int, v: Seq<u8>, j: int)
    requires
        0 <= i < m.num_signals(),
        0 <= j < m.num_signals(),
        i != j,
        v.len() == m.lens[i],
        m.values.len() == m.offset(m.num_signals() as int),
    ensures
        m.with_value(i, v).value_of(j) == m.value_of(j),
{
    let n = m.num_signals() as int;
    lemma_offset_monotone(m.lens, n);
    lemma_offset_monotone(m.lens, i);
    lemma_offset_monotone(m.lens, j);
    assert(m.offset(i + 1) == m.offset(i) + m.lens[i]);
    assert(m.offset(j + 1) == m.offset(j) + m.lens[j]);
    if j < i {
        lemma_offset_monotone(m.lens, i);
        assert(m.offset(j + 1) <= m.offset(i));
    } else {
        lemma_offset_monotone(m.lens, j);
        assert(m.offset(i + 1) <= m.offset(j));
    }
    assert(m.offset(j + 1) <= m.offset(n));
    assert(m.with_value(i, v).value_of(j) =~= m.value_of(j));
}

/// When every one bit value is a `std_logic` state, the changes of all signals can be recorded:
/// recording them keeps the values, and each one succeeds.
pub proof fn lemma_all_changes_ok(m: BufferModel, k: nat)
    requires
        m.one_bit_values_valid(),
        m.values.len() == m.offset(m.num_signals() as int),
        k <= m.num_signals(),
    ensures
        m.all_changes_outcome(k).0 is Ok,
        m.all_changes_outcome(k).1.values == m.values,
        m.all_changes_outcome(k).1.lens == m.lens,
    decreases k,
{
    if k > 0 {
        lemma_all_changes_ok(m, (k - 1) as nat);
        let p = m.all_changes_outcome((k - 1) as nat).1;
        let i = k - 1;
        assert(p.value_of(i) == m.value_of(i));
        lemma_offset_monotone(m.lens, m.num_signals() as int);
        assert(m.offset(i + 1) == m.offset(i) + m.lens[i]);
        assert(m.offset(i + 1) <= m.offset(m.num_signals() as int));
        assert(m.value_of(i).len() == m.lens[i]);
        if m.lens[i] == 1 {
            assert(m.value_of(i)[0] == m.values[m.offset(i) as int]);
            assert(is_std_logic(m.values[offset_of(m.lens, i) as int]));
            assert(m.value_of(i).len() == 1);
        }
        assert(p.change_record(i) is Some);
    }
}

/// The value of signal `i` lies inside the value buffer, so replacing it gives the new value.
pub proof fn lemma_value_in_model(m: BufferModel, i: int)
    requires
        0 <= i < m.num_signals(),
        m.values.len() == m.offset(m.num_signals() as int),
    ensures
        m.offset(i) + m.lens[i] <= m.values.len(),
        forall|v: Seq<u8>| v.len() == m.lens[i] ==> #[trigger] m.with_value(i, v).value_of(i) == v,
{
    lemma_offset_monotone(m.lens, m.num_signals() as int);
    assert(m.offset(i + 1) == m.offset(i) + m.lens[i]);
    assert(m.offset(i + 1) <= m.offset(m.num_signals() as int));
    assert forall|v: Seq<u8>| v.len() == m.lens[i] implies #[trigger] m.with_value(i, v).value_of(i)
        == v by {
        assert(m.with_value(i, v).value_of(i) =~= v);
    }
}

/// A call that changes a signal buffer, as the laws over histories speak of it.
pub enum BufferOp {
    TimeChange(u64),
    SignalChange(FstSignalId, Seq<u8>),
    MockInitialTimeStep,
    Flush,
    RequestFlush,
    TakePendingFlush,
}

/// What a signal buffer holds, as the contracts speak of it.
pub struct BufferModel {
    /// start time of the current section
    pub start_time: u64,
    /// last time step written
    pub end_time: u64,
    /// start time of the first section
    pub first_time: u64,
    /// the length of the value of every signal
    pub lens: Seq<u32>,
    /// the values of all signals at the start of the current section
    pub frame: Seq<u8>,
    /// the current values of all signals
    pub values: Seq<u8>,
    /// the time steps of the current section
    pub times: Seq<u64>,
    /// for every signal, the time step of its last recorded change (0 when it has none yet)
    pub last_change: Seq<u32>,
    /// for every signal, its encoded value changes in the current section
    pub changes: Seq<Seq<ListEntry>>,
    /// the number of bytes the value changes take in memory
    pub change_bytes: nat,
    /// the encoding of the last value change, kept for its allocation
    pub scratch: Seq<u8>,
    /// whether the current section is the first of the file
    pub first_buffer: bool,
    /// whether a value was written before the first time change
    pub signal_change_emitted: bool,
    /// whether a flush waits for the next time change
    pub flush_pending: bool,
}

impl BufferModel {
    /// The number of signals.
    pub open spec fn num_signals(self) -> nat {
        self.lens.len()
    }

    /// The index of the current time step in the section.
    pub open spec fn step(self) -> nat {
        if self.times.len() == 0 {
            0
        } else {
            (self.times.len() - 1) as nat
        }
    }

    /// Whether the first time change has yet to come.
    pub open spec fn is_initial_time(self) -> bool {
        self.times.len() == 0 && self.first_buffer
    }

    /// Where the value of signal `i` starts in the value buffer.
    pub open spec fn offset(self, i: int) -> nat {
        offset_of(self.lens, i)
    }

    /// The current value of signal `i`.
    pub open spec fn value_of(self, i: int) -> Seq<u8> {
        self.values.subrange(self.offset(i) as int, self.offset(i) + self.lens[i])
    }

    /// The value buffer with the value of signal `i` replaced by `v`.
    pub open spec fn values_with(self, i: int, v: Seq<u8>) -> Seq<u8> {
        self.values.take(self.offset(i) as int) + v + self.values.skip(self.offset(i) + self.lens[i])
    }

    /// Whether any signal has a value change in the current section.
    pub open spec fn has_value_changes(self) -> bool {
        exists|i: int| 0 <= i < self.changes.len() && (#[trigger] self.changes[i]).len() > 0
    }

    /// Whether the value of every one bit signal is one of the nine `std_logic` states.
    pub open spec fn one_bit_values_valid(self) -> bool {
        one_bit_values_valid(self.lens, self.values)
    }

    /// The number of bytes that a value change record `record` adds to the value change lists.
    pub open spec fn record_cost(record: Seq<u8>) -> nat {
        4 + varint_bytes(record.len()).len() + record.len()
    }

    /// The model after `record` was recorded as a change of signal `i` in the current step.
    pub open spec fn with_change(self, i: int, record: Seq<u8>) -> BufferModel {
        BufferModel {
            changes: self.changes.update(i, self.changes[i].push((record, None))),
            last_change: self.last_change.update(i, self.step() as u32),
            change_bytes: self.change_bytes + Self::record_cost(record),
            scratch: record,
            ..self
        }
    }

    /// The model with the value of signal `i` replaced by `v`.
    pub open spec fn with_value(self, i: int, v: Seq<u8>) -> BufferModel {
        BufferModel { values: self.values_with(i, v), ..self }
    }

    /// The model with the scratch encoding emptied.
    pub open spec fn without_scratch(self) -> BufferModel {
        BufferModel { scratch: Seq::empty(), ..self }
    }

    /// What giving signal `i` the (normalized) value `v` does: a one bit value that is no
    /// `std_logic` state is refused and changes nothing; otherwise, before the first time change
    /// the value only reaches the value buffer, afterwards the change is also recorded.
    pub open spec fn signal_change_outcome(self, i: int, v: Seq<u8>) -> (
        Result<(), FstWriteError>,
        BufferModel,
    ) {
        if v.len() == 1 && !is_std_logic(v[0]) {
            (Err(FstWriteError::InvalidCharacter(v[0] as char)), self)
        } else {
            let m = self.with_value(i, v);
            if self.is_initial_time() {
                (Ok(()), BufferModel { signal_change_emitted: true, ..m })
            } else {
                (Ok(()), m.with_change(i, m.change_record(i).unwrap()))
            }
        }
    }

    /// What recording the changes of signals `0..k` to their current values in the current
    /// step does: they are recorded one after the other, up to the first one that cannot be
    /// encoded.
    pub open spec fn all_changes_outcome(self, k: nat) -> (Result<(), FstWriteError>, BufferModel)
        decreases k,
    {
        if k == 0 {
            (Ok(()), self)
        } else {
            let (res, m) = self.all_changes_outcome((k - 1) as nat);
            if res is Err {
                (res, m)
            } else {
                match m.change_record(k - 1) {
                    Some(record) => (Ok(()), m.with_change(k - 1, record)),
                    None => (
                        Err(FstWriteError::InvalidCharacter(m.value_of(k - 1)[0] as char)),
                        m.without_scratch(),
                    ),
                }
            }
        }
    }

    /// The model once the first time step, at `time`, is open.
    pub open spec fn started_at(self, time: u64) -> BufferModel {
        let start = if self.signal_change_emitted {
            0
        } else {
            time
        };
        BufferModel {
            start_time: start,
            first_time: start,
            frame: self.values,
            times: seq![time],
            end_time: time,
            ..self
        }
    }

    /// The model after the current section was handed over: the next section starts at the end
    /// time, from the current values, with the end time as its only step and nothing recorded.
    pub open spec fn flushed(self) -> BufferModel {
        BufferModel {
            start_time: self.end_time,
            frame: self.values,
            times: seq![self.end_time],
            last_change: Seq::new(self.num_signals(), |i: int| 0u32),
            changes: Seq::new(self.num_signals(), |i: int| Seq::<ListEntry>::empty()),
            change_bytes: 0,
            scratch: Seq::empty(),
            first_buffer: false,
            ..self
        }
    }

    /// The model after a time change to `time`: the first one opens the first step, a later one
    /// that goes back changes nothing, any other adds a step.
    pub open spec fn time_changed(self, time: u64) -> BufferModel {
        if self.is_initial_time() {
            self.started_at(time)
        } else if time < self.end_time {
            self
        } else {
            BufferModel { times: self.times.push(time), end_time: time, ..self }
        }
    }

    /// The model after the call that `op` stands for.
    pub open spec fn after(self, op: BufferOp) -> BufferModel {
        match op {
            BufferOp::TimeChange(time) => self.time_changed(time),
            BufferOp::SignalChange(id, value) => if id.index() < self.num_signals() {
                let i = id.index() as int;
                self.signal_change_outcome(i, normalized(value, self.lens[i] as nat).unwrap()).1
            } else {
                self
            },
            BufferOp::MockInitialTimeStep => self.started_at(0).all_changes_outcome(
                self.num_signals(),
            ).1,
            BufferOp::Flush => self.flushed(),
            BufferOp::RequestFlush => BufferModel {
                flush_pending: self.flush_pending || self.step() > 1,
                ..self
            },
            BufferOp::TakePendingFlush => BufferModel { flush_pending: false, ..self },
        }
    }

    /// The model after the calls `ops`, one after the other.
    pub open spec fn after_all(self, ops: Seq<BufferOp>) -> BufferModel
        decreases ops.len(),
    {
        if ops.len() == 0 {
            self
        } else {
            self.after_all(ops.drop_last()).after(ops.last())
        }
    }

    /// The bytes that the growing parts of the buffer take: the time table, the scratch
    /// encoding, a pointer per signal and the value changes.
    pub open spec fn footprint(self) -> nat {
        time_chain(self.times).len() + self.scratch.len() + self.num_signals() * 4
            + self.change_bytes
    }

    /// The encoded change of signal `i` to its current value, in the current step.
    pub open spec fn change_record(self, i: int) -> Option<Seq<u8>> {
        value_change_record((self.step() - self.last_change[i]) as nat, self.value_of(i))
    }
}

/// Keeps track of signal values before writing them to disk.
pub struct SignalBuffer {
    /// start time step of the current block
    ///
    /// Equal to previous block end_time or equal to the timestamp of the first value change in the
    /// initial block.
    start_time: u64,
    /// last time step written
    end_time: u64,
    /// constant signal meta-data
    signals: Vec<SignalInfo>,
    /// time table index of the previous change for each signal
    prev_time_table_index: Vec<u32>,
    /// values for all signals in the first time step of this block
    frame: Vec<u8>,
    /// copy of the frame with all value changes applied
    values: Vec<u8>,
    /// contains the value changes
    value_changes: SingleVecLists,
    /// contains the delta encoded time table
    time_table: Vec<u8>,
    /// the index of the last time step written in the time table
    time_table_index: u32,
    /// keep a vec allocation around for encoding signals
    write_buf: Vec<u8>,
    /// is this the first buffer for the file that we are writing?
    first_buffer: bool,
    /// was a value written before the first time change?
    signal_change_emitted: bool,
    /// start time of the first value change section
    first_time: u64,
    /// is a flush waiting to be acted on by the next time change?
    flush_pending: bool,
    /// the time steps of the current section
    times: Ghost<Seq<u64>>,
}

impl View for SignalBuffer {
    type V = BufferModel;

    closed spec fn view(&self) -> BufferModel {
        BufferModel {
            start_time: self.start_time,
            end_time: self.end_time,
            first_time: self.first_time,
            lens: self.signals@.map_values(|s: SignalInfo| s.len),
            frame: self.frame@,
            values: self.values@,
            times: self.times@,
            last_change: self.prev_time_table_index@,
            changes: self.value_changes@,
            change_bytes: self.value_changes.byte_len(),
            scratch: self.write_buf@,
            first_buffer: self.first_buffer,
            signal_change_emitted: self.signal_change_emitted,
            flush_pending: self.flush_pending,
        }
    }
}

impl SignalBuffer {
    /// The fields agree with each other and with the model.
    pub closed spec fn wf(&self) -> bool {
        let m = self@;
        let n = self.signals@.len();
        &&& forall|i: int| 0 <= i < n ==> (#[trigger] self.signals@[i]).offset == m.offset(i)
        &&& m.offset(n as int) == m.values.len()
        &&& m.frame.len() == m.values.len()
        &&& m.values.len() <= u32::MAX
        &&& m.last_change.len() == n
        &&& forall|i: int| 0 <= i < n ==> #[trigger] m.last_change[i] <= self.time_table_index
        &&& self.value_changes.wf()
        &&& self.value_changes.num_lists() == n
        &&& m.changes.len() == n
        &&& forall|i: int| 0 <= i < n ==> appended_with(#[trigger] m.changes[i], None)
        &&& self.time_table@ == time_chain(m.times)
        &&& nondecreasing(m.times)
        &&& self.time_table_index == m.step()
        &&& m.times.len() <= u32::MAX
        &&& m.times.len() > 0 ==> m.end_time == m.times.last()
        &&& !m.first_buffer ==> m.times.len() > 0
        &&& m.times.len() == 0 ==> forall|i: int| 0 <= i < n ==> (#[trigger] m.changes[i]).len() == 0
        &&& m.first_buffer ==> m.start_time == m.first_time
        &&& m.one_bit_values_valid()
    }
}

impl SignalBuffer {
    /// An empty buffer for signals of types `signals`, all of them at their initial value.
    #[verifier::rlimit(50)]
    pub fn new(signals: &[FstSignalType]) -> (res: Result<Self, FstWriteError>)
        requires
            offset_of(lens_of(signals@), signals@.len() as int) <= u32::MAX,
        ensures
            res matches Ok(b) && b.wf() && b@ == (BufferModel {
                start_time: 0,
                end_time: 0,
                first_time: 0,
                lens: lens_of(signals@),
                frame: initial_values(signals@),
                values: initial_values(signals@),
                times: Seq::empty(),
                last_change: Seq::new(signals@.len(), |i: int| 0u32),
                changes: Seq::new(signals@.len(), |i: int| Seq::<ListEntry>::empty()),
                change_bytes: 0,
                scratch: Seq::empty(),
                first_buffer: true,
                signal_change_emitted: false,
                flush_pending: false,
            }),
    {
        let ghost lens = lens_of(signals@);
        let (infos, values_len) = gen_signal_info(signals);
        let value_changes = SingleVecLists::new(infos.len());
        // every bit starts out as `x`, every real as NaN
        let mut values: Vec<u8> = Vec::new();
        let mut i: usize = 0;
        while i < signals.len()
            invariant
                i <= signals@.len(),
                lens == lens_of(signals@),
                lens.len() == signals@.len(),
                values@ == initial_values(signals@.take(i as int)),
                values@.len() == offset_of(lens, i as int),
                forall|j: int|
                    0 <= j < i && lens[j] == 1 ==> is_std_logic(#[trigger] values@[offset_of(lens, j) as int]),
            decreases signals.len() - i,
        {
            let ghost before = values@;
            proof {
                lemma_offset_monotone(lens, i as int);
            }
            assert(signals@.take(i + 1).drop_last() =~= signals@.take(i as int));
            assert(lens[i as int] == signals@[i as int].spec_len());
            if signals[i].is_real() {
                values.push(0);
                values.push(0);
                values.push(0);
                values.push(0);
                values.push(0);
                values.push(0);
                values.push(0xf8);
                values.push(0x7f);
                assert(values@ =~= before + nan_bytes());
            } else {
                let len = signals[i].len();
                let bits = repeated(0x78, len as usize);
                push_all(&mut values, bits.as_slice());
                proof {
                    if len == 1 {
                        assert(values@[offset_of(lens, i as int) as int] == 0x78u8);
                    }
                }
            }
            proof {
                assert forall|j: int| 0 <= j < i && lens[j] == 1 implies is_std_logic(
                    #[trigger] values@[offset_of(lens, j) as int],
                ) by {
                    assert(offset_of(lens, j + 1) <= offset_of(lens, i as int));
                    assert(values@[offset_of(lens, j) as int] == before[offset_of(lens, j) as int]);
                }
            }
            i = i + 1;
        }
        assert(signals@.take(signals@.len() as int) =~= signals@);
        let frame = copy_of(values.as_slice());
        let prev_time_table_index = zeros(infos.len());
        let b = SignalBuffer {
            start_time: 0,
            end_time: 0,
            signals: infos,
            prev_time_table_index,
            frame,
            values,
            value_changes,
            time_table: Vec::new(),
            time_table_index: 0,
            write_buf: Vec::new(),
            first_buffer: true,
            signal_change_emitted: false,
            first_time: 0,
            flush_pending: false,
            times: Ghost(Seq::empty()),
        };
        proof {
            assert(b@.lens =~= lens);
            assert(b@.changes =~= Seq::new(signals@.len(), |i: int| Seq::<ListEntry>::empty()));
            assert(b.time_table@ =~= time_chain(Seq::empty()));
            let n = signals@.len() as int;
            assert(forall|i: int| 0 <= i < n ==> (#[trigger] b.signals@[i]).offset == b@.offset(i));
            assert(b@.offset(n) == b@.values.len());
            assert(b@.frame.len() == b@.values.len());
            assert(forall|i: int| 0 <= i < n ==> #[trigger] b@.last_change[i] <= b.time_table_index);
            assert(forall|i: int| 0 <= i < n ==> appended_with(#[trigger] b@.changes[i], None));
            assert(nondecreasing(b@.times));
            assert(b@.one_bit_values_valid());
            assert(b.wf());
        }
        Ok(b)
    }
}

impl SignalBuffer {
    /// Records the time step `new_time`. The first one decides the start time of the file: zero
    /// if a value was written before it, else the time step itself.
    pub fn time_change(&mut self, new_time: u64) -> (res: Result<(), FstWriteError>)
        requires
            old(self).wf(),
            old(self)@.times.len() < u32::MAX,
        ensures
            final(self).wf(),
            old(self)@.is_initial_time() ==> res == Ok::<(), FstWriteError>(()) && final(self)@
                == old(self)@.started_at(new_time),
            !old(self)@.is_initial_time() && new_time < old(self)@.end_time ==> {
                &&& res == Err::<(), FstWriteError>(
                    FstWriteError::TimeDecrease(old(self)@.end_time, new_time),
                )
                &&& final(self)@ == old(self)@
            },
            !old(self)@.is_initial_time() && new_time >= old(self)@.end_time ==> {
                &&& res == Ok::<(), FstWriteError>(())
                &&& final(self)@ == (BufferModel {
                    times: old(self)@.times.push(new_time),
                    end_time: new_time,
                    ..old(self)@
                })
            },
            final(self)@ == old(self)@.after(BufferOp::TimeChange(new_time)),
            res is Ok == (old(self)@.is_initial_time() || old(self)@.end_time <= new_time),
    {
        if self.is_initial_time() {
            // If any signal change was already emitted, start time at 0.
            self.start_time = if self.signal_change_emitted {
                0
            } else {
                new_time
            };
            self.first_time = self.start_time;
            self.start_time_step(new_time);
            return Ok(());
        }
        if new_time < self.end_time {
            return Err(FstWriteError::TimeDecrease(self.end_time, new_time));
        }
        let ghost old_times = self.times@;
        self.time_table_index = self.time_table_index + 1;
        // write time table in compressed format
        write_time_chain_update(&mut self.time_table, self.end_time, new_time);
        self.end_time = new_time;
        proof {
            self.times@ = old_times.push(new_time);
            assert(self.times@.drop_last() =~= old_times);
            assert(forall|i: int|
                0 <= i < self.signals@.len() ==> #[trigger] self@.last_change[i]
                    <= self.time_table_index);
        }
        Ok(())
    }

    /// Starts the first time step of a value change section: the values collected so far become
    /// the frame and the time is written relative to 0.
    fn start_time_step(&mut self, new_time: u64)
        requires
            old(self).wf(),
            old(self)@.times.len() == 0,
        ensures
            final(self).wf(),
            final(self)@ == (BufferModel {
                frame: old(self)@.values,
                times: seq![new_time],
                end_time: new_time,
                ..old(self)@
            }),
    {
        self.frame = copy_of(self.values.as_slice());
        proof {
            lemma_time_chain_empty(self.times@);
        }
        write_time_chain_update(&mut self.time_table, 0, new_time);
        self.end_time = new_time;
        proof {
            self.times@ = seq![new_time];
            assert(self.times@.drop_last() =~= Seq::<u64>::empty());
            assert(time_chain(Seq::<u64>::empty()) =~= Seq::<u8>::empty());
            assert(time_chain(self.times@) == time_chain(Seq::<u64>::empty()) + varint_bytes(
                new_time as nat,
            ));
            assert(self.time_table@ =~= time_chain(self.times@));
        }
    }

    /// Returns true if the first time change has yet to be issued.
    pub fn is_initial_time(&self) -> (initial: bool)
        requires
            self.wf(),
        ensures
            initial == self@.is_initial_time(),
    {
        proof {
            lemma_time_chain_empty(self.times@);
        }
        self.time_table.len() == 0 && self.first_buffer
    }

    /// The last time step written.
    pub fn end_time(&self) -> (t: u64)
        ensures
            t == self@.end_time,
    {
        self.end_time
    }

    /// Start time of the first value change section.
    pub fn first_time(&self) -> (t: u64)
        ensures
            t == self@.first_time,
    {
        self.first_time
    }

    /// Returns true if the current section holds at least one value change.
    pub fn has_value_changes(&self) -> (has: bool)
        requires
            self.wf(),
        ensures
            has == self@.has_value_changes(),
    {
        !self.value_changes.is_empty()
    }

    /// The number of time steps in the current section.
    pub fn num_time_table_entries(&self) -> (n: u64)
        requires
            self.wf(),
        ensures
            n == self@.times.len(),
    {
        proof {
            lemma_time_chain_empty(self.times@);
        }
        if self.time_table.len() == 0 {
            0
        } else {
            self.time_table_index as u64 + 1
        }
    }

    /// Queues a flush for the next time change to act on. If less than 3 time steps have been
    /// issued for this section, the request is dropped.
    pub fn request_flush(&mut self)
        requires
            old(self).wf(),
        ensures
            final(self).wf(),
            final(self)@ == (BufferModel {
                flush_pending: old(self)@.flush_pending || old(self)@.step() > 1,
                ..old(self)@
            }),
            final(self)@ == old(self)@.after(BufferOp::RequestFlush),
    {
        // this limit is arbitrary, just matches fstapi
        if self.time_table_index <= 1 {
            return;
        }
        self.flush_pending = true;
    }

    /// Whether a queued flush is to be acted on now. The request is cleared either way.
    ///
    /// A request that finds nothing to write is dropped.
    pub fn take_pending_flush(&mut self) -> (flush: bool)
        requires
            old(self).wf(),
        ensures
            final(self).wf(),
            flush == (old(self)@.flush_pending && old(self)@.has_value_changes()),
            final(self)@ == (BufferModel { flush_pending: false, ..old(self)@ }),
            final(self)@ == old(self)@.after(BufferOp::TakePendingFlush),
    {
        let pending = self.flush_pending;
        self.flush_pending = false;
        pending && self.has_value_changes()
    }
}

impl SignalBuffer {
    /// Writes down a value change for the current value of signal `signal_idx` in the current
    /// time step.
    fn append_value_change(&mut self, signal_idx: usize) -> (res: Result<(), FstWriteError>)
        requires
            old(self).wf(),
            old(self)@.times.len() > 0,
            signal_idx < old(self)@.num_signals(),
            old(self)@.change_bytes + 24 + old(self)@.lens[signal_idx as int] < u32::MAX,
        ensures
            final(self).wf(),
            match old(self)@.change_record(signal_idx as int) {
                Some(record) => res == Ok::<(), FstWriteError>(()) && final(self)@ == old(self)@.with_change(
                    signal_idx as int,
                    record,
                ),
                None => res == Err::<(), FstWriteError>(
                    FstWriteError::InvalidCharacter(
                        old(self)@.value_of(signal_idx as int)[0] as char,
                    ),
                ) && final(self)@ == old(self)@.without_scratch(),
            },
    {
        let ghost m = self@;
        let ghost i = signal_idx as int;
        proof {
            self.lemma_value_in_bounds(i);
            self.value_changes.lemma_view_len();
        }
        let offset = self.signals[signal_idx].offset as usize;
        let len = self.signals[signal_idx].len as usize;
        let delta = (self.time_table_index - self.prev_time_table_index[signal_idx]) as u64;
        let ghost value = m.value_of(i);
        proof {
            lemma_record_len(delta as nat, value);
            assert(m.step() - m.last_change[i] == delta);
        }
        self.write_buf.clear();
        if len == 1 {
            assert(value[0] == self.values@[offset as int]);
            match write_one_bit_signal(&mut self.write_buf, delta, self.values[offset]) {
                Ok(()) => {},
                Err(e) => {
                    proof {
                        assert(self@ =~= m.without_scratch());
                    }
                    return Err(e);
                },
            }
        } else {
            let value_slice = slice_subrange(self.values.as_slice(), offset, offset + len);
            write_multi_bit_signal(&mut self.write_buf, delta, value_slice);
        }
        let ghost record = self.write_buf@;
        assert(m.change_record(i) == Some(record));
        self.value_changes.append(signal_idx, self.write_buf.as_slice(), None);
        // remember the previous time table index
        self.prev_time_table_index.set(signal_idx, self.time_table_index);
        proof {
            self.value_changes.lemma_view_len();
            let n = self.signals@.len() as int;
            assert(forall|j: int| 0 <= j < n ==> #[trigger] self@.last_change[j]
                <= self.time_table_index);
            assert forall|j: int| 0 <= j < n implies appended_with(#[trigger] self@.changes[j], None) by {
                if j != i {
                    assert(self@.changes[j] == m.changes[j]);
                } else {
                    assert(appended_with(m.changes[j], None));
                    assert(self@.changes[j] == m.changes[j].push((record, None)));
                }
            }
            assert(self@ =~= m.with_change(i, record));
        }
        Ok(())
    }

    /// The value of signal `i` lies inside the value buffer.
    proof fn lemma_value_in_bounds(&self, i: int)
        requires
            self.wf(),
            0 <= i < self@.num_signals(),
        ensures
            self.signals@[i].offset == self@.offset(i),
            self.signals@[i].len == self@.lens[i],
            self@.offset(i) + self@.lens[i] <= self@.values.len(),
            self@.offset(i + 1) == self@.offset(i) + self@.lens[i],
    {
        lemma_offset_monotone(self@.lens, self@.num_signals() as int);
        assert(offset_of(self@.lens, i + 1) <= offset_of(self@.lens, self@.num_signals() as int));
        assert(offset_of(self@.lens, i + 1) == offset_of(self@.lens, i) + self@.lens[i]);
    }

    /// Gives signal `signal_id` the value `value`. A value shorter than the signal is extended
    /// as VCD files abbreviate values. Before the first time change the value only becomes the
    /// signal's current value; afterwards the change is also recorded in the current time step.
    pub fn signal_change(&mut self, signal_id: FstSignalId, value: &[u8]) -> (res: Result<
        (),
        FstWriteError,
    >)
        requires
            old(self).wf(),
            signal_id.index() < old(self)@.num_signals() ==> normalized(
                value@,
                old(self)@.lens[signal_id.index() as int] as nat,
            ) is Some,
            signal_id.index() < old(self)@.num_signals() && !old(self)@.is_initial_time()
                ==> old(self)@.change_bytes + 24 + old(self)@.lens[signal_id.index() as int]
                < u32::MAX,
        ensures
            final(self).wf(),
            signal_id.index() >= old(self)@.num_signals() ==> res == Err::<(), FstWriteError>(
                FstWriteError::InvalidSignalId(signal_id),
            ) && final(self)@ == old(self)@,
            signal_id.index() < old(self)@.num_signals() ==> {
                let i = signal_id.index() as int;
                let v = normalized(value@, old(self)@.lens[i] as nat).unwrap();
                &&& res == old(self)@.signal_change_outcome(i, v).0
                &&& final(self)@ == old(self)@.signal_change_outcome(i, v).1
            },
            final(self)@ == old(self)@.after(BufferOp::SignalChange(signal_id, value@)),
    {
        let signal_idx = signal_id.to_array_index();
        if signal_idx >= self.signals.len() {
            return Err(FstWriteError::InvalidSignalId(signal_id));
        }
        let ghost m = self@;
        let ghost i = signal_idx as int;
        proof {
            self.lemma_value_in_bounds(i);
        }
        let len = self.signals[signal_idx].len as usize;
        let start = self.signals[signal_idx].offset as usize;
        let ghost v = normalized(value@, len as nat).unwrap();
        // a character that is no `std_logic` state is refused, and not written anywhere
        if len == 1 && !is_std_logic_char(value[0]) {
            return Err(FstWriteError::InvalidCharacter(value[0] as char));
        }
        if value.len() == len {
            copy_into(&mut self.values, start, value, 0, len);
            assert(value@.subrange(0, len as int) =~= value@);
        } else {
            match expand_special_vector_cases(value, len) {
                Some(expanded) => {
                    copy_into(&mut self.values, start, expanded.as_slice(), 0, len);
                    assert(expanded@.subrange(0, len as int) =~= expanded@);
                },
                None => {
                    proof {
                        assert(false);
                    }
                },
            }
        }
        let ghost m1 = m.with_value(i, v);
        proof {
            assert(self@ =~= m1);
            assert(m1.value_of(i) =~= v);
            assert forall|j: int| 0 <= j < m1.num_signals() && m1.lens[j] == 1 implies is_std_logic(
                #[trigger] m1.values[offset_of(m1.lens, j) as int],
            ) by {
                lemma_offset_monotone(m.lens, m.num_signals() as int);
                assert(m.offset(j + 1) == m.offset(j) + 1);
                assert(m.offset(j + 1) <= m.offset(m.num_signals() as int));
                assert(m1.values[m1.offset(j) as int] == m1.value_of(j)[0]);
                assert(m.values[m.offset(j) as int] == m.value_of(j)[0]);
                if j == i {
                    assert(v =~= value@);
                } else {
                    lemma_with_value_other(m, i, v, j);
                }
            }
            assert(self@.offset(self@.num_signals() as int) == m.offset(m.num_signals() as int));
        }
        if self.is_initial_time() {
            self.signal_change_emitted = true;
            proof {
                assert(self@ == (BufferModel { signal_change_emitted: true, ..m1 }));
            }
            Ok(())
        } else {
            proof {
                lemma_record_len(0, v);
                assert(m1.change_record(i) is Some);
            }
            let res = self.append_value_change(signal_idx);
            proof {
                assert(self@ == m1.with_change(i, m1.change_record(i).unwrap()));
            }
            res
        }
    }
}

/// What a flush hands over: everything that goes into one value change section.
pub struct ValueChangeSection {
    /// the time the section starts at
    pub start_time: u64,
    /// the last time step of the section
    pub end_time: u64,
    /// the values of all signals at the start of the section
    pub frame: Vec<u8>,
    /// the delta encoded time table
    pub time_table: Vec<u8>,
    /// the number of entries in the time table
    pub num_time_table_entries: u64,
    /// for every signal, its encoded value changes
    pub signal_changes: Vec<Vec<u8>>,
}

impl SignalBuffer {
    /// Write down the current value of every signal as a value change in the current time step.
    ///
    /// Avoid losing signal changes made before the first time change. They are still stored in
    /// the frame, but the reader, in certain cases, does not read it, and only considers the
    /// recorded value changes.
    fn clone_all_values(&mut self) -> (res: Result<(), FstWriteError>)
        requires
            old(self).wf(),
            old(self)@.times.len() > 0,
            old(self)@.change_bytes + 24 * old(self)@.num_signals() + old(self)@.values.len()
                < u32::MAX,
        ensures
            final(self).wf(),
            res == old(self)@.all_changes_outcome(old(self)@.num_signals()).0,
            final(self)@ == old(self)@.all_changes_outcome(old(self)@.num_signals()).1,
    {
        let ghost m0 = self@;
        let n = self.signals.len();
        let mut signal_idx: usize = 0;
        while signal_idx < n
            invariant
                self.wf(),
                n == m0.num_signals(),
                signal_idx <= n,
                m0 == old(self)@,
                m0.all_changes_outcome(signal_idx as nat) == (Ok::<(), FstWriteError>(()), self@),
                self@.num_signals() == n,
                self@.values == m0.values,
                self@.lens == m0.lens,
                self@.times.len() > 0,
                self@.change_bytes <= m0.change_bytes + 24 * signal_idx + m0.offset(signal_idx as int),
                m0.offset(n as int) == m0.values.len(),
                m0.change_bytes + 24 * n + m0.values.len() < u32::MAX,
            decreases n - signal_idx,
        {
            let ghost cur = self@;
            proof {
                self.lemma_value_in_bounds(signal_idx as int);
                lemma_offset_monotone(m0.lens, n as int);
                assert(m0.offset(signal_idx + 1) <= m0.offset(n as int));
            }
            match self.append_value_change(signal_idx) {
                Ok(()) => {},
                Err(e) => {
                    proof {
                        let k = (signal_idx + 1) as nat;
                        assert(m0.all_changes_outcome(k) == (Err::<(), FstWriteError>(e), self@));
                        lemma_all_changes_err_stays(m0, k, n as nat);
                    }
                    return Err(e);
                },
            }
            proof {
                let record = cur.change_record(signal_idx as int).unwrap();
                lemma_record_len((cur.step() - cur.last_change[signal_idx as int]) as nat, cur.value_of(signal_idx as int));
                lemma_varint_len_u64(record.len() as u64);
                assert(m0.offset(signal_idx + 1) == m0.offset(signal_idx as int) + m0.lens[signal_idx as int]);
            }
            signal_idx = signal_idx + 1;
        }
        Ok(())
    }

    /// Mocks up a single time step at zero, containing the values of all signals.
    ///
    /// Used when the file is closed without the time ever advancing.
    pub fn mock_initial_time_step(&mut self) -> (res: Result<(), FstWriteError>)
        requires
            old(self).wf(),
            old(self)@.is_initial_time(),
            old(self)@.change_bytes + 24 * old(self)@.num_signals() + old(self)@.values.len()
                < u32::MAX,
        ensures
            final(self).wf(),
            res == old(self)@.started_at(0).all_changes_outcome(old(self)@.num_signals()).0,
            final(self)@ == old(self)@.started_at(0).all_changes_outcome(old(self)@.num_signals()).1,
            final(self)@ == old(self)@.after(BufferOp::MockInitialTimeStep),
            res is Ok,
    {
        proof {
            lemma_all_changes_ok(old(self)@.started_at(0), old(self)@.num_signals());
        }
        match self.time_change(0) {
            Ok(()) => {},
            Err(e) => {
                proof {
                    assert(false);
                }
                return Err(e);
            },
        }
        self.clone_all_values()
    }

    /// Everything the current section holds, to be written as one value change section. The
    /// buffer is left as it is, so a write that fails loses nothing.
    pub fn section(&self) -> (section: ValueChangeSection)
        requires
            self.wf(),
        ensures
            section.start_time == self@.start_time,
            section.end_time == self@.end_time,
            section.frame@ == self@.frame,
            section.time_table@ == time_chain(self@.times),
            section.num_time_table_entries == self@.times.len(),
            section.signal_changes@.len() == self@.num_signals(),
            forall|i: int|
                0 <= i < self@.num_signals() ==> (#[trigger] section.signal_changes@[i])@
                    == joined(self@.changes[i]),
    {
        let ghost m = self@;
        let n = self.signals.len();
        proof {
            self.value_changes.lemma_view_len();
        }
        // collect the value changes of every signal
        let mut signal_changes: Vec<Vec<u8>> = Vec::new();
        let mut signal_idx: usize = 0;
        while signal_idx < n
            invariant
                self.wf(),
                self@ == m,
                n == m.num_signals(),
                signal_idx <= n,
                signal_changes@.len() == signal_idx,
                forall|i: int|
                    0 <= i < signal_idx ==> (#[trigger] signal_changes@[i])@ == joined(m.changes[i]),
            decreases n - signal_idx,
        {
            assert(appended_with(m.changes[signal_idx as int], None));
            let list = self.value_changes.extract_list(signal_idx, None);
            signal_changes.push(list);
            signal_idx = signal_idx + 1;
        }
        let num_time_table_entries = self.num_time_table_entries();
        ValueChangeSection {
            start_time: self.start_time,
            end_time: self.end_time,
            frame: copy_of(self.frame.as_slice()),
            time_table: copy_of(self.time_table.as_slice()),
            num_time_table_entries,
            signal_changes,
        }
    }

    /// Opens the next section once the current one was written: it starts where this one
    /// ended, with its time table seeded with the time it closed at and its frame taken from
    /// the current values.
    pub fn finish_section(&mut self)
        requires
            old(self).wf(),
        ensures
            final(self).wf(),
            final(self)@ == old(self)@.flushed(),
            final(self)@ == old(self)@.after(BufferOp::Flush),
    {
        let ghost m = self@;
        let n = self.signals.len();
        // reset data
        self.time_table_index = 0;
        self.prev_time_table_index = zeros(n);
        self.start_time = self.end_time;
        // the next section starts from the current values
        self.frame = copy_of(self.values.as_slice());
        self.time_table.clear();
        // the next section opens with the time this one closed at
        write_time_chain_update(&mut self.time_table, 0, self.end_time);
        self.write_buf.clear();
        self.value_changes.clear();
        self.first_buffer = false;
        proof {
            self.times@ = seq![m.end_time];
            self.value_changes.lemma_view_len();
            assert(self.times@.drop_last() =~= Seq::<u64>::empty());
            assert(time_chain(Seq::<u64>::empty()) =~= Seq::<u8>::empty());
            assert(self.time_table@ =~= time_chain(self.times@));
            assert(self@.last_change =~= Seq::new(n as nat, |i: int| 0u32));
            assert(self@ =~= (BufferModel {
                start_time: m.end_time,
                frame: m.values,
                times: seq![m.end_time],
                last_change: Seq::new(n as nat, |i: int| 0u32),
                changes: Seq::new(n as nat, |i: int| Seq::<ListEntry>::empty()),
                change_bytes: 0,
                scratch: Seq::empty(),
                first_buffer: false,
                ..m
            }));
        }
    }

    /// Hands over everything the current section holds and opens the next section: `section`
    /// followed by `finish_section`.
    pub fn flush(&mut self) -> (section: ValueChangeSection)
        requires
            old(self).wf(),
        ensures
            final(self).wf(),
            section.start_time == old(self)@.start_time,
            section.end_time == old(self)@.end_time,
            section.frame@ == old(self)@.frame,
            section.time_table@ == time_chain(old(self)@.times),
            section.num_time_table_entries == old(self)@.times.len(),
            section.signal_changes@.len() == old(self)@.num_signals(),
            forall|i: int|
                0 <= i < old(self)@.num_signals() ==> (#[trigger] section.signal_changes@[i])@
                    == joined(old(self)@.changes[i]),
            final(self)@ == old(self)@.flushed(),
            final(self)@ == old(self)@.after(BufferOp::Flush),
    {
        let section = self.section();
        self.finish_section();
        section
    }

    /// Returns the estimated size of all data structures that grow over time.
    pub fn size(&self) -> (size: usize)
        requires
            self.wf(),
            self@.footprint() <= usize::MAX,
        ensures
            size == self@.footprint(),
    {
        proof {
            self.value_changes.lemma_view_len();
        }
        self.time_table.len() + self.write_buf.len() + self.value_changes.size()
    }
}

/// `n` zeros.
fn zeros(n: usize) -> (out: Vec<u32>)
    ensures
        out@ == Seq::new(n as nat, |i: int| 0u32),
{
    let mut out: Vec<u32> = Vec::new();
    let mut k: usize = 0;
    while k < n
        invariant
            k <= n,
            out@ == Seq::new(k as nat, |j: int| 0u32),
        decreases n - k,
    {
        out.push(0);
        assert(out@ =~= Seq::new((k + 1) as nat, |j: int| 0u32));
        k = k + 1;
    }
    out
}

/// Once a change cannot be encoded, recording the changes of more signals fails the same way.
pub proof fn lemma_all_changes_err_stays(m: BufferModel, k: nat, n: nat)
    requires
        k <= n,
        m.all_changes_outcome(k).0 is Err,
    ensures
        m.all_changes_outcome(n) == m.all_changes_outcome(k),
    decreases n - k,
{
    if k < n {
        lemma_all_changes_err_stays(m, k + 1, n);
    }
}

impl SignalBuffer {
    /// What every buffer keeps: the time steps of a section never go back and the last one is
    /// the end time; once the first section was handed over there is always a time step; every
    /// signal has a value of its own length in the value buffer and in the frame, a list of
    /// value changes, and a last change no later than the current step; nothing is recorded
    /// before the first time step; and in the first section the start time is the file's.
    pub proof fn law_buffer_invariant(&self)
        requires
            self.wf(),
        ensures
            nondecreasing(self@.times),
            self@.times.len() > 0 ==> self@.end_time == self@.times.last(),
            !self@.first_buffer ==> self@.times.len() > 0,
            self@.values.len() == self@.offset(self@.num_signals() as int),
            self@.frame.len() == self@.values.len(),
            self@.changes.len() == self@.num_signals(),
            self@.last_change.len() == self@.num_signals(),
            forall|i: int| 0 <= i < self@.num_signals() ==> #[trigger] self@.last_change[i] <= self@.step(),
            self@.times.len() == 0 ==> !self@.has_value_changes(),
            self@.first_buffer ==> self@.start_time == self@.first_time,
            self@.one_bit_values_valid(),
    {
    }
}

/// A time table is empty exactly when it has no time step.
proof fn lemma_time_chain_empty(times: Seq<u64>)
    ensures
        (time_chain(times).len() == 0) == (times.len() == 0),
{
    if times.len() > 0 {
        let prev: int = if times.len() == 1 { 0 } else { times[times.len() - 2] as int };
        lemma_varint_len_u64((times.last() - prev) as u64);
    }
}

} // verus!
