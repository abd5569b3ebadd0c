//! Properties that relate several operations of the buffer and its parts.

use vstd::prelude::*;
use crate::buffer::{
    BufferModel, BufferOp, SignalBuffer, time_chain, nondecreasing, lemma_all_changes_err_stays,
    lemma_all_changes_ok,
};
use crate::encode::{is_std_logic, one_bit_record, multi_bit_record, all_binary, chunk_prefix, bit_at};
use vstd::arithmetic::power2::pow2;
use crate::lists::{
    joined, ListEntry, entry_record_len, list_record_bytes, all_record_bytes,
    lemma_all_record_bytes_update, lemma_all_record_bytes_empty,
};
use crate::varint::{
    varint_bytes, varint_ends_at, varint_sum, lemma_varint_roundtrip, lemma_varint_len_u64,
};

verus! {

/// Reading back a list after appending `data` to it gives what it held before followed by
/// `data`, and leaves every other list as it was: the lists behave like separate vectors.
pub proof fn law_append_then_extract(
    before: Seq<Seq<ListEntry>>,
    after: Seq<Seq<ListEntry>>,
    list_id: int,
    data: Seq<u8>,
    fixed_size: Option<usize>,
)
    requires
        0 <= list_id < before.len(),
        after == before.update(list_id, before[list_id].push((data, fixed_size))),
    ensures
        joined(after[list_id]) == joined(before[list_id]) + data,
        forall|l: int| 0 <= l < before.len() && l != list_id ==> joined(#[trigger] after[l]) == joined(before[l]),
{
    assert(after[list_id].drop_last() =~= before[list_id]);
}

/// Reading a varint that was written gives back the value and the number of bytes written,
/// whatever follows it.
pub proof fn law_varint_roundtrip(value: u64, rest: Seq<u8>)
    ensures
        varint_ends_at(varint_bytes(value as nat) + rest, varint_bytes(value as nat).len()),
        varint_sum(varint_bytes(value as nat) + rest, varint_bytes(value as nat).len())
            % 0x1_0000_0000_0000_0000 == value,
{
    lemma_varint_roundtrip(value as nat, rest);
}

/// Once a section has been handed over, nothing is left to write: a flush requested right away
/// is not acted on, and the buffer is no longer waiting for its first time change, so closing
/// the file adds no further section.
pub proof fn law_flush_leaves_nothing(before: BufferModel, after: BufferModel)
    requires
        after == before.flushed(),
    ensures
        !after.has_value_changes(),
        !after.is_initial_time(),
        after.times == seq![before.end_time],
        after.start_time == before.end_time,
        after.frame == before.values,
{
}

/// A requested flush is acted on at the next check exactly when the section holds more than
/// two time steps (or a flush was already waiting) and at least one value change.
pub proof fn law_request_then_take(before: BufferModel, requested: BufferModel, flush: bool)
    requires
        requested == (BufferModel {
            flush_pending: before.flush_pending || before.step() > 1,
            ..before
        }),
        flush == (requested.flush_pending && requested.has_value_changes()),
    ensures
        flush == ((before.flush_pending || before.times.len() > 2) && before.has_value_changes()),
{
    assert(requested.changes == before.changes);
    assert(requested.has_value_changes() == before.has_value_changes());
}

/// The time table of a section that gains a time step grows by the distance from the last step
/// (from zero for the first step), so the first entry always holds an absolute time.
pub proof fn law_time_chain_push(times: Seq<u64>, time: u64)
    requires
        nondecreasing(times),
        times.len() > 0 ==> times.last() <= time,
    ensures
        time_chain(times.push(time)) == time_chain(times) + varint_bytes(
            (time - if times.len() == 0 {
                0
            } else {
                times.last() as int
            }) as nat,
        ),
        nondecreasing(times.push(time)),
{
    assert(times.push(time).drop_last() =~= times);
}

/// Recording the changes of all signals, when every one of them can be encoded, gives every
/// signal exactly one more change: the encoding of its current value, each with the time step
/// distance from its own last change.
pub proof fn law_all_changes_record_every_signal(m: BufferModel, k: nat)
    requires
        k <= m.num_signals(),
        m.changes.len() == m.num_signals(),
        m.last_change.len() == m.num_signals(),
        m.all_changes_outcome(k).0 is Ok,
        m.step() <= u32::MAX,
    ensures
        ({
            let after = m.all_changes_outcome(k).1;
            &&& after.changes.len() == m.changes.len()
            &&& forall|i: int| 0 <= i < k ==> #[trigger] after.changes[i] == m.changes[i].push(
                (m.change_record(i).unwrap(), None),
            ) && m.change_record(i) is Some
            &&& forall|i: int| k <= i < m.num_signals() ==> #[trigger] after.changes[i] == m.changes[i]
            &&& forall|i: int| 0 <= i < k ==> #[trigger] after.last_change[i] == m.step()
            &&& forall|i: int| k <= i < m.num_signals() ==> #[trigger] after.last_change[i] == m.last_change[i]
            &&& after.values == m.values
            &&& after.lens == m.lens
            &&& after.times == m.times
            &&& after.last_change.len() == m.last_change.len()
        }),
    decreases k,
{
    if k > 0 {
        let prev = m.all_changes_outcome((k - 1) as nat);
        assert(prev.0 is Ok);
        law_all_changes_record_every_signal(m, (k - 1) as nat);
        let i = k - 1;
        assert(prev.1.value_of(i) == m.value_of(i));
        assert(prev.1.step() == m.step());
        assert(prev.1.last_change[i] == m.last_change[i]);
        assert(prev.1.change_record(i) == m.change_record(i));
        let rec = m.change_record(i).unwrap();
        assert(m.change_record(i) is Some);
        let after = m.all_changes_outcome(k).1;
        assert(after == prev.1.with_change(i, rec));
        assert forall|j: int| 0 <= j < k implies #[trigger] after.changes[j] == m.changes[j].push(
            (m.change_record(j).unwrap(), None),
        ) && m.change_record(j) is Some by {
            if j < i {
                assert(after.changes[j] == prev.1.changes[j]);
            }
        }
        assert forall|j: int| k <= j < m.num_signals() implies #[trigger] after.changes[j] == m.changes[j] by {
            assert(after.changes[j] == prev.1.changes[j]);
        }
        assert forall|j: int| 0 <= j < k implies #[trigger] after.last_change[j] == m.step() by {
            if j < i {
                assert(after.last_change[j] == prev.1.last_change[j]);
            }
        }
        assert forall|j: int| k <= j < m.num_signals() implies #[trigger] after.last_change[j] == m.last_change[j] by {
            assert(after.last_change[j] == prev.1.last_change[j]);
        }
    }
}

/// The time table of the first `k` steps is the start of the time table of all of them.
proof fn lemma_time_chain_prefix(times: Seq<u64>, k: int)
    requires
        0 <= k <= times.len(),
    ensures
        time_chain(times.take(k)).len() <= time_chain(times).len(),
        time_chain(times).take(time_chain(times.take(k)).len() as int) == time_chain(times.take(k)),
    decreases times.len(),
{
    if k == times.len() {
        assert(times.take(k) =~= times);
        assert(time_chain(times).take(time_chain(times).len() as int) =~= time_chain(times));
    } else {
        let d = times.drop_last();
        lemma_time_chain_prefix(d, k);
        assert(d.take(k) =~= times.take(k));
        let prev: int = if times.len() == 1 {
            0
        } else {
            times[times.len() - 2] as int
        };
        assert(d.len() > 0 ==> d.last() == times[times.len() - 2]);
        assert(time_chain(times) == time_chain(d) + varint_bytes((times.last() - prev) as nat));
        assert(time_chain(times).take(time_chain(times.take(k)).len() as int) =~= time_chain(d).take(
            time_chain(times.take(k)).len() as int,
        ));
    }
}

/// The time table gives back every time step: the varint that starts where the entries of the
/// earlier steps end reads as the distance of step `k` from the step before (from zero for the
/// first step), so adding the distances up gives back the time steps.
pub proof fn law_time_chain_decodes(times: Seq<u64>, k: int)
    requires
        nondecreasing(times),
        0 <= k < times.len(),
    ensures
        ({
            let rest = time_chain(times).skip(time_chain(times.take(k)).len() as int);
            let prev: int = if k == 0 {
                0
            } else {
                times[k - 1] as int
            };
            let n = varint_bytes((times[k] - prev) as nat).len();
            &&& varint_ends_at(rest, n)
            &&& varint_sum(rest, n) == times[k] - prev
        }),
{
    let prev: int = if k == 0 {
        0
    } else {
        times[k - 1] as int
    };
    let entry = varint_bytes((times[k] - prev) as nat);
    let t1 = times.take(k + 1);
    assert(t1.drop_last() =~= times.take(k));
    assert(k > 0 ==> t1[t1.len() - 2] == times[k - 1]);
    assert(time_chain(t1) == time_chain(times.take(k)) + entry);
    lemma_time_chain_prefix(times, k + 1);
    let whole = time_chain(times);
    let a = time_chain(times.take(k)).len() as int;
    let b = time_chain(t1).len() as int;
    let tail = whole.skip(b);
    assert(whole.skip(a) =~= entry + tail) by {
        assert(whole.take(b) == time_chain(times.take(k)) + entry);
        assert forall|i: int| 0 <= i < whole.len() - a implies #[trigger] whole.skip(a)[i] == (entry + tail)[i] by {
            if i < entry.len() {
                assert(whole.take(b)[a + i] == entry[i]);
            }
        }
    }
    lemma_varint_roundtrip((times[k] - prev) as nat, tail);
}

/// One append to a set of lists: the list, the entry and the fixed size it is appended with.
pub type AppendOp = (int, Seq<u8>, Option<usize>);

/// The lists after the appends `ops`, one after the other.
pub open spec fn lists_after(lists: Seq<Seq<ListEntry>>, ops: Seq<AppendOp>) -> Seq<Seq<ListEntry>>
    decreases ops.len(),
{
    if ops.len() == 0 {
        lists
    } else {
        let before = lists_after(lists, ops.drop_last());
        let (l, data, fixed_size) = ops.last();
        before.update(l, before[l].push((data, fixed_size)))
    }
}

/// The entries appended to list `l` by `ops`, one after the other.
pub open spec fn appended_to(ops: Seq<AppendOp>, l: int) -> Seq<u8>
    decreases ops.len(),
{
    if ops.len() == 0 {
        Seq::empty()
    } else {
        appended_to(ops.drop_last(), l) + if ops.last().0 == l {
            ops.last().1
        } else {
            Seq::empty()
        }
    }
}

/// The number of appends to list `l` in `ops`.
pub open spec fn num_appends_to(ops: Seq<AppendOp>, l: int) -> nat
    decreases ops.len(),
{
    if ops.len() == 0 {
        0
    } else {
        num_appends_to(ops.drop_last(), l) + if ops.last().0 == l {
            1nat
        } else {
            0nat
        }
    }
}

/// The number of bytes appended to list `l` by `ops`.
pub open spec fn appended_len(ops: Seq<AppendOp>, l: int) -> nat
    decreases ops.len(),
{
    if ops.len() == 0 {
        0
    } else {
        appended_len(ops.drop_last(), l) + if ops.last().0 == l {
            ops.last().1.len()
        } else {
            0
        }
    }
}

/// The number of bytes of the records that `ops` add, over all lists.
pub open spec fn appended_record_bytes(ops: Seq<AppendOp>) -> nat
    decreases ops.len(),
{
    if ops.len() == 0 {
        0
    } else {
        appended_record_bytes(ops.drop_last()) + entry_record_len((ops.last().1, ops.last().2))
    }
}

/// After any appends to `n` new (or cleared) lists, each list reads back as the entries
/// appended to it, in the order of the calls, whatever their sizes, so its length is the sum of
/// theirs; it holds one entry per append to it, also an empty one, so no list holds an entry
/// exactly when nothing was appended; and the records take the bytes of one record per append
/// (four for the back pointer, the length unless the size is fixed, and the entry).
pub proof fn law_lists_history(n: nat, ops: Seq<AppendOp>)
    requires
        forall|k: int| 0 <= k < ops.len() ==> 0 <= (#[trigger] ops[k]).0 < n,
    ensures
        ({
            let lists = lists_after(Seq::new(n, |l: int| Seq::<ListEntry>::empty()), ops);
            &&& lists.len() == n
            &&& forall|l: int| 0 <= l < n ==> joined(#[trigger] lists[l]) == appended_to(ops, l)
            &&& forall|l: int| 0 <= l < n ==> joined(#[trigger] lists[l]).len() == appended_len(ops, l)
            &&& all_record_bytes(lists) == appended_record_bytes(ops)
            &&& forall|l: int| 0 <= l < n ==> (#[trigger] lists[l]).len() == num_appends_to(ops, l)
            &&& (forall|l: int| 0 <= l < n ==> (#[trigger] lists[l]).len() == 0) == (ops.len() == 0)
        }),
    decreases ops.len(),
{
    let empty = Seq::new(n, |l: int| Seq::<ListEntry>::empty());
    let lists = lists_after(empty, ops);
    if ops.len() == 0 {
        assert forall|l: int| 0 <= l < n implies joined(#[trigger] lists[l]) == appended_to(ops, l) by {
            assert(lists[l] =~= Seq::<ListEntry>::empty());
        }
        lemma_all_record_bytes_empty(n);
    } else {
        let d = ops.drop_last();
        assert forall|k: int| 0 <= k < d.len() implies 0 <= (#[trigger] d[k]).0 < n by {
            assert(d[k] == ops[k]);
        }
        law_lists_history(n, d);
        let before = lists_after(empty, d);
        let (m, data, fixed_size) = ops.last();
        assert(0 <= m < n) by {
            assert(ops[ops.len() - 1] == ops.last());
        }
        assert forall|l: int| 0 <= l < n implies joined(#[trigger] lists[l]) == appended_to(ops, l) by {
            if l == m {
                assert(lists[l].drop_last() =~= before[l]);
            } else {
                assert(appended_to(ops, l) =~= appended_to(d, l));
            }
        }
        assert forall|l: int| 0 <= l < n implies (#[trigger] lists[l]).len() == num_appends_to(ops, l) by {}
        assert forall|l: int| 0 <= l < n implies joined(#[trigger] lists[l]).len() == appended_len(ops, l) by {
            assert(joined(before[l]).len() == appended_len(d, l));
        }
        let pushed = before[m].push((data, fixed_size));
        assert(pushed.drop_last() =~= before[m]);
        lemma_all_record_bytes_update(before, m, pushed);
        assert(lists[m].len() > 0);
    }
}

/// Whether the call `op` on a buffer in state `m` records a value change: a value change after
/// the first time change that is not refused, or the time step mocked up at zero, which records
/// the value of the first signal (and of every other one).
pub open spec fn records_change(m: BufferModel, op: BufferOp) -> bool {
    match op {
        BufferOp::SignalChange(id, value) => {
            &&& id.index() < m.num_signals()
            &&& !m.is_initial_time()
            &&& m.signal_change_outcome(
                id.index() as int,
                crate::buffer::normalized(value, m.lens[id.index() as int] as nat).unwrap(),
            ).0 is Ok
        },
        BufferOp::MockInitialTimeStep => m.num_signals() > 0 && m.started_at(0).change_record(0) is Some,
        _ => false,
    }
}

/// Whether the first time change is still to come, after the calls `ops`: from a buffer that
/// waits for it, exactly when none of the calls is a time change, a mocked up time step or a
/// flush.
#[verifier::rlimit(100)]
pub proof fn law_initial_time_history(m: BufferModel, ops: Seq<BufferOp>)
    requires
        m.is_initial_time(),
        m.changes.len() == m.num_signals(),
    ensures
        m.after_all(ops).is_initial_time() == (forall|k: int|
            0 <= k < ops.len() ==> (#[trigger] ops[k]) is SignalChange || ops[k] is RequestFlush
                || ops[k] is TakePendingFlush),
    decreases ops.len(),
{
    if ops.len() > 0 {
        let d = ops.drop_last();
        law_initial_time_history(m, d);
        law_value_changes_history(m, d);
        let p = m.after_all(d);
        let op = ops.last();
        lemma_op_keeps_started(p, op);
        assert(ops[ops.len() - 1] == op);
        assert forall|k: int| 0 <= k < d.len() implies d[k] == ops[k] by {}
    }
}

/// What a call does to the time steps and the first section flag: once the first time step is
/// open it stays open, and a call that is no time change, mocked up step or flush leaves both.
proof fn lemma_op_keeps_started(p: BufferModel, op: BufferOp)
    requires
        p.changes.len() == p.num_signals(),
    ensures
        !p.is_initial_time() ==> !p.after(op).is_initial_time(),
        p.is_initial_time() ==> (p.after(op).is_initial_time() == (op is SignalChange
            || op is RequestFlush || op is TakePendingFlush)),
{
    match op {
        BufferOp::MockInitialTimeStep => {
            lemma_all_changes_keep(p.started_at(0), p.num_signals());
        },
        BufferOp::SignalChange(id, value) => {
            if id.index() < p.num_signals() {
                let i = id.index() as int;
                let v = crate::buffer::normalized(value, p.lens[i] as nat).unwrap();
                assert(p.signal_change_outcome(i, v).1.times == p.times);
                assert(p.signal_change_outcome(i, v).1.first_buffer == p.first_buffer);
            }
        },
        _ => {},
    }
}

/// Recording the changes of all signals keeps everything but the changes, the last changes,
/// their byte count and the scratch encoding, and keeps one list of changes per signal.
proof fn lemma_all_changes_keep(m: BufferModel, k: nat)
    requires
        k <= m.changes.len(),
    ensures
        m.all_changes_outcome(k).1.times == m.times,
        m.all_changes_outcome(k).1.end_time == m.end_time,
        m.all_changes_outcome(k).1.first_buffer == m.first_buffer,
        m.all_changes_outcome(k).1.lens == m.lens,
        m.all_changes_outcome(k).1.changes.len() == m.changes.len(),
    decreases k,
{
    if k > 0 {
        lemma_all_changes_keep(m, (k - 1) as nat);
    }
}

/// Once the changes of the first signal are recorded, recording those of more signals keeps
/// at least one change for the first signal.
proof fn lemma_all_changes_first_recorded(m: BufferModel, k: nat)
    requires
        1 <= k <= m.changes.len(),
        m.all_changes_outcome(1).0 is Ok,
    ensures
        m.all_changes_outcome(k).1.changes[0].len() > 0,
    decreases k,
{
    assert(m.all_changes_outcome(0) == (Ok::<(), crate::signal::FstWriteError>(()), m));
    if k > 1 {
        lemma_all_changes_first_recorded(m, (k - 1) as nat);
        lemma_all_changes_keep(m, (k - 1) as nat);
        let prev = m.all_changes_outcome((k - 1) as nat);
        if prev.0 is Ok {
            if let Some(record) = prev.1.change_record(k - 1) {
                assert(prev.1.with_change(k - 1, record).changes[0] == prev.1.changes[0]);
            }
        }
    } else {
        let record = m.change_record(0).unwrap();
        assert(m.all_changes_outcome(1).1 == m.with_change(0, record));
    }
}

/// Whether some signal has a value change, after the call `op`: a flush leaves none, a call
/// that records a change leaves one, and any other call leaves the changes as they were.
proof fn lemma_op_changes(p: BufferModel, op: BufferOp)
    requires
        p.changes.len() == p.num_signals(),
    ensures
        p.after(op).changes.len() == p.after(op).num_signals(),
        p.after(op).num_signals() == p.num_signals(),
        op is Flush ==> !p.after(op).has_value_changes(),
        records_change(p, op) ==> p.after(op).has_value_changes(),
        !(op is Flush) && !records_change(p, op) ==> p.after(op).changes == p.changes,
{
    let q = p.after(op);
    match op {
        BufferOp::MockInitialTimeStep => {
            let s = p.started_at(0);
            let n = p.num_signals();
            lemma_all_changes_keep(s, n);
            assert(s.all_changes_outcome(0) == (Ok::<(), crate::signal::FstWriteError>(()), s));
            if n > 0 {
                if s.change_record(0) is Some {
                    assert(s.all_changes_outcome(1).0 is Ok);
                    lemma_all_changes_first_recorded(s, n);
                    assert(q.changes[0].len() > 0);
                } else {
                    assert(s.all_changes_outcome(1).0 is Err);
                    lemma_all_changes_err_stays(s, 1, n);
                    assert(s.all_changes_outcome(1).1.changes == s.changes);
                }
            }
        },
        BufferOp::SignalChange(id, value) => {
            if id.index() < p.num_signals() {
                let i = id.index() as int;
                if records_change(p, op) {
                    assert(q.changes[i].len() > 0);
                }
            }
        },
        BufferOp::Flush => {
            assert forall|i: int| 0 <= i < q.changes.len() implies (#[trigger] q.changes[i]).len() == 0 by {}
        },
        _ => {},
    }
}

/// Whether, among calls `0..n`, one at which `rec` holds has no call after it at which `flush`
/// holds, or `before` holds and no call is one at which `flush` holds.
pub open spec fn since_last_flush(
    n: int,
    rec: spec_fn(int) -> bool,
    flush: spec_fn(int) -> bool,
    before: bool,
) -> bool {
    ||| exists|k: int| 0 <= k < n && #[trigger] rec(k) && forall|j: int| k < j < n ==> !#[trigger] flush(j)
    ||| before && forall|j: int| 0 <= j < n ==> !#[trigger] flush(j)
}

/// Whether one of the calls `ops` made on a buffer in state `m` recorded a change with no
/// flush after it among them, or, with no flush among them, some signal had a change in `m`.
pub open spec fn recorded_since_flush(m: BufferModel, ops: Seq<BufferOp>) -> bool {
    since_last_flush(
        ops.len() as int,
        |k: int| records_change(m.after_all(ops.take(k)), ops[k]),
        |j: int| ops[j] is Flush,
        m.has_value_changes(),
    )
}

/// How one more call changes `since_last_flush`, where no call is both one that records and
/// one that flushes.
proof fn lemma_since_last_step(
    n: int,
    rec: spec_fn(int) -> bool,
    flush: spec_fn(int) -> bool,
    before: bool,
)
    requires
        n > 0,
        !(rec(n - 1) && flush(n - 1)),
    ensures
        since_last_flush(n, rec, flush, before) == if flush(n - 1) {
            false
        } else {
            rec(n - 1) || since_last_flush(n - 1, rec, flush, before)
        },
{
    if flush(n - 1) {
        if exists|k: int| 0 <= k < n && #[trigger] rec(k) && forall|j: int| k < j < n ==> !#[trigger] flush(j) {
            let k = choose|k: int| 0 <= k < n && #[trigger] rec(k) && forall|j: int| k < j < n ==> !#[trigger] flush(j);
            if k < n - 1 {
                assert(!flush(n - 1));
            }
        }
        assert(!(forall|j: int| 0 <= j < n ==> !#[trigger] flush(j)));
    } else {
        if exists|k: int| 0 <= k < n && #[trigger] rec(k) && forall|j: int| k < j < n ==> !#[trigger] flush(j) {
            let k = choose|k: int| 0 <= k < n && #[trigger] rec(k) && forall|j: int| k < j < n ==> !#[trigger] flush(j);
            if k < n - 1 {
                assert forall|j: int| k < j < n - 1 implies !#[trigger] flush(j) by {}
                assert(0 <= k < n - 1 && rec(k) && forall|j: int| k < j < n - 1 ==> !#[trigger] flush(j));
            }
        }
        if exists|k: int| 0 <= k < n - 1 && #[trigger] rec(k) && forall|j: int| k < j < n - 1 ==> !#[trigger] flush(j) {
            let k = choose|k: int| 0 <= k < n - 1 && #[trigger] rec(k) && forall|j: int| k < j < n - 1 ==> !#[trigger] flush(j);
            assert forall|j: int| k < j < n implies !#[trigger] flush(j) by {
                if j < n - 1 {
                }
            }
            assert(0 <= k < n && rec(k) && forall|j: int| k < j < n ==> !#[trigger] flush(j));
        }
        if forall|j: int| 0 <= j < n - 1 ==> !#[trigger] flush(j) {
            assert forall|j: int| 0 <= j < n implies !#[trigger] flush(j) by {
                if j < n - 1 {
                }
            }
        }
        if rec(n - 1) {
            assert(0 <= n - 1 < n && rec(n - 1) && forall|j: int| n - 1 < j < n ==> !#[trigger] flush(j));
        }
    }
}

/// `since_last_flush` depends on the calls `0..n` only.
proof fn lemma_since_last_same(
    n: int,
    rec1: spec_fn(int) -> bool,
    flush1: spec_fn(int) -> bool,
    rec2: spec_fn(int) -> bool,
    flush2: spec_fn(int) -> bool,
    before: bool,
)
    requires
        forall|k: int| #![trigger rec1(k)] #![trigger rec2(k)] #![trigger flush1(k)] #![trigger flush2(k)] 0 <= k < n ==> rec1(k) == rec2(k) && flush1(k) == flush2(k),
    ensures
        since_last_flush(n, rec1, flush1, before) == since_last_flush(n, rec2, flush2, before),
{
    if since_last_flush(n, rec1, flush1, before) {
        if exists|k: int| 0 <= k < n && #[trigger] rec1(k) && forall|j: int| k < j < n ==> !#[trigger] flush1(j) {
            let k = choose|k: int| 0 <= k < n && #[trigger] rec1(k) && forall|j: int| k < j < n ==> !#[trigger] flush1(j);
            assert(rec2(k));
        }
    }
    if since_last_flush(n, rec2, flush2, before) {
        if exists|k: int| 0 <= k < n && #[trigger] rec2(k) && forall|j: int| k < j < n ==> !#[trigger] flush2(j) {
            let k = choose|k: int| 0 <= k < n && #[trigger] rec2(k) && forall|j: int| k < j < n ==> !#[trigger] flush2(j);
            assert(rec1(k));
        }
    }
}

/// How one more call changes `recorded_since_flush`.
proof fn lemma_recorded_step(m: BufferModel, ops: Seq<BufferOp>)
    requires
        ops.len() > 0,
    ensures
        recorded_since_flush(m, ops) == if ops.last() is Flush {
            false
        } else {
            records_change(m.after_all(ops.drop_last()), ops.last()) || recorded_since_flush(
                m,
                ops.drop_last(),
            )
        },
{
    let d = ops.drop_last();
    let n = ops.len() as int;
    let rec_o = |k: int| records_change(m.after_all(ops.take(k)), ops[k]);
    let fl_o = |j: int| ops[j] is Flush;
    let rec_d = |k: int| records_change(m.after_all(d.take(k)), d[k]);
    let fl_d = |j: int| d[j] is Flush;
    lemma_since_last_step(n, rec_o, fl_o, m.has_value_changes());
    assert forall|k: int| #![trigger rec_o(k)] #![trigger fl_o(k)] 0 <= k < n - 1 implies rec_o(k) == rec_d(k) && fl_o(k) == fl_d(k) by {
        assert(ops.take(k) =~= d.take(k));
        assert(d[k] == ops[k]);
    }
    lemma_since_last_same(n - 1, rec_o, fl_o, rec_d, fl_d, m.has_value_changes());
    assert(ops.take(n - 1) =~= d);
    assert(ops[n - 1] == ops.last());
}

/// Whether some signal has a value change in the current section, after the calls `ops`:
/// exactly when one of the calls since the last flush among them recorded a change, or, with no
/// flush among them, when some signal had one before.
pub proof fn law_value_changes_history(m: BufferModel, ops: Seq<BufferOp>)
    requires
        m.changes.len() == m.num_signals(),
    ensures
        m.after_all(ops).changes.len() == m.after_all(ops).num_signals(),
        m.after_all(ops).num_signals() == m.num_signals(),
        m.after_all(ops).has_value_changes() == recorded_since_flush(m, ops),
    decreases ops.len(),
{
    if ops.len() > 0 {
        let d = ops.drop_last();
        law_value_changes_history(m, d);
        let p = m.after_all(d);
        lemma_op_changes(p, ops.last());
        lemma_recorded_step(m, ops);
        if !(ops.last() is Flush) && !records_change(p, ops.last()) {
            assert(m.after_all(ops).has_value_changes() == p.has_value_changes());
        }
    }
}

/// Whether a buffer in state `m` accepts a time change to `time`: the first one always, a
/// later one when it does not go back.
pub open spec fn accepts_time(m: BufferModel, time: u64) -> bool {
    m.is_initial_time() || m.end_time <= time
}

/// The last time step after the calls `ops` on a buffer in state `m`: the time of the last
/// accepted time change, zero after a mocked up time step, and otherwise what it was.
pub open spec fn end_time_after(m: BufferModel, ops: Seq<BufferOp>) -> u64
    decreases ops.len(),
{
    if ops.len() == 0 {
        m.end_time
    } else {
        let prev = end_time_after(m, ops.drop_last());
        match ops.last() {
            BufferOp::TimeChange(time) => if accepts_time(m.after_all(ops.drop_last()), time) {
                time
            } else {
                prev
            },
            BufferOp::MockInitialTimeStep => 0,
            _ => prev,
        }
    }
}

/// The number of time table entries after the calls `ops` on a buffer in state `m`: one more
/// for every accepted time change, also one to the time already reached, one after a mocked
/// up time step or a flush, and unchanged by any other call.
pub open spec fn entries_after(m: BufferModel, ops: Seq<BufferOp>) -> nat
    decreases ops.len(),
{
    if ops.len() == 0 {
        m.times.len()
    } else {
        let prev = entries_after(m, ops.drop_last());
        match ops.last() {
            BufferOp::TimeChange(time) => if accepts_time(m.after_all(ops.drop_last()), time) {
                prev + 1
            } else {
                prev
            },
            BufferOp::MockInitialTimeStep => 1,
            BufferOp::Flush => 1,
            _ => prev,
        }
    }
}

/// What one call does to the last time step and the time steps of the section.
proof fn lemma_op_times(p: BufferModel, op: BufferOp)
    requires
        p.changes.len() == p.num_signals(),
    ensures
        p.after(op).end_time == match op {
            BufferOp::TimeChange(time) => if accepts_time(p, time) {
                time
            } else {
                p.end_time
            },
            BufferOp::MockInitialTimeStep => 0,
            _ => p.end_time,
        },
        p.after(op).times.len() == match op {
            BufferOp::TimeChange(time) => if accepts_time(p, time) {
                p.times.len() + 1
            } else {
                p.times.len()
            },
            BufferOp::MockInitialTimeStep => 1,
            BufferOp::Flush => 1,
            _ => p.times.len(),
        },
{
    match op {
        BufferOp::MockInitialTimeStep => {
            lemma_all_changes_keep(p.started_at(0), p.num_signals());
        },
        BufferOp::SignalChange(id, value) => {
            if id.index() < p.num_signals() {
                let i = id.index() as int;
                let v = crate::buffer::normalized(value, p.lens[i] as nat).unwrap();
                assert(p.signal_change_outcome(i, v).1.times == p.times);
                assert(p.signal_change_outcome(i, v).1.end_time == p.end_time);
            }
        },
        _ => {},
    }
}

/// The last time step, after any calls: the time of the last accepted time change, or zero
/// if a mocked up time step came later, or the one before them all; value changes, flushes,
/// flush requests and refused time changes leave it as it was.
pub proof fn law_end_time_history(m: BufferModel, ops: Seq<BufferOp>)
    requires
        m.changes.len() == m.num_signals(),
    ensures
        m.after_all(ops).end_time == end_time_after(m, ops),
        (forall|k: int|
            0 <= k < ops.len() ==> !((#[trigger] ops[k]) is TimeChange) && !(ops[k] is MockInitialTimeStep))
            ==> m.after_all(ops).end_time == m.end_time,
    decreases ops.len(),
{
    if ops.len() > 0 {
        let d = ops.drop_last();
        assert forall|k: int| 0 <= k < d.len() implies d[k] == ops[k] by {}
        law_end_time_history(m, d);
        law_value_changes_history(m, d);
        lemma_op_times(m.after_all(d), ops.last());
        assert(ops[ops.len() - 1] == ops.last());
    }
}

/// The number of time table entries, after any calls: one more for every accepted time change
/// (also one to the time already reached), one after a mocked up time step or a flush, and
/// unchanged by value changes, flush requests and refused time changes.
pub proof fn law_time_entries_history(m: BufferModel, ops: Seq<BufferOp>)
    requires
        m.changes.len() == m.num_signals(),
    ensures
        m.after_all(ops).times.len() == entries_after(m, ops),
    decreases ops.len(),
{
    if ops.len() > 0 {
        let d = ops.drop_last();
        law_time_entries_history(m, d);
        law_value_changes_history(m, d);
        lemma_op_times(m.after_all(d), ops.last());
    }
}

/// The bytes a buffer takes grow with every accepted time change, by the time table entry it
/// adds, and stay as they are with a refused one, a flush request or a check for one.
pub proof fn law_time_change_grows(b: &SignalBuffer, time: u64)
    requires
        b.wf(),
    ensures
        accepts_time(b@, time) ==> b@.after(BufferOp::TimeChange(time)).footprint() > b@.footprint(),
        !accepts_time(b@, time) ==> b@.after(BufferOp::TimeChange(time)).footprint() == b@.footprint(),
        b@.after(BufferOp::RequestFlush).footprint() == b@.footprint(),
        b@.after(BufferOp::TakePendingFlush).footprint() == b@.footprint(),
{
    b.law_buffer_invariant();
    let m = b@;
    if accepts_time(m, time) {
        let prev: int = if m.times.len() == 0 { 0 } else { m.times.last() as int };
        if m.is_initial_time() {
            assert(time_chain(Seq::<u64>::empty()) =~= Seq::<u8>::empty());
            assert(m.times =~= Seq::<u64>::empty());
            law_time_chain_push(m.times, time);
            assert(seq![time] =~= m.times.push(time));
        } else {
            law_time_chain_push(m.times, time);
        }
        lemma_varint_len_u64((time - prev) as u64);
    }
}

/// On a buffer, a mocked up time step records a value change exactly when there is a signal:
/// every one bit value is a `std_logic` state, so the change of every signal can be encoded.
pub proof fn law_mock_records_every_signal(b: &SignalBuffer)
    requires
        b.wf(),
    ensures
        records_change(b@, BufferOp::MockInitialTimeStep) == (b@.num_signals() > 0),
        b@.started_at(0).all_changes_outcome(b@.num_signals()).0 is Ok,
{
    b.law_buffer_invariant();
    let s = b@.started_at(0);
    lemma_all_changes_ok(s, b@.num_signals());
    if b@.num_signals() > 0 {
        lemma_all_changes_ok(s, 1);
        assert(s.all_changes_outcome(0) == (Ok::<(), crate::signal::FstWriteError>(()), s));
    }
}

/// A one bit signal accepts exactly the characters that have a one bit encoding: `0`, `1`, and
/// the other `std_logic` states `x z h u w l -`, in either case. After the first time change
/// an accepted character is recorded as its one bit encoding, against the step of the signal's
/// previous change; a refused one changes nothing.
pub proof fn law_one_bit_changes(m: BufferModel, i: int, c: u8)
    requires
        0 <= i < m.num_signals(),
        m.lens[i] == 1,
        m.values.len() == m.offset(m.num_signals() as int),
        m.changes.len() == m.num_signals(),
        m.last_change.len() == m.num_signals(),
    ensures
        is_std_logic(c) <==> one_bit_record(0, c) is Some,
        is_std_logic(c) <==> (c == 0x30 || c == 0x31 || c == 0x78 || c == 0x58 || c == 0x7a
            || c == 0x5a || c == 0x68 || c == 0x48 || c == 0x75 || c == 0x55 || c == 0x77
            || c == 0x57 || c == 0x6c || c == 0x4c || c == 0x2d),
        m.signal_change_outcome(i, seq![c]).0 is Ok <==> one_bit_record(0, c) is Some,
        one_bit_record(0, c) is None ==> m.signal_change_outcome(i, seq![c]).1 == m,
        one_bit_record(0, c) is Some ==> m.signal_change_outcome(i, seq![c]).1.value_of(i) == seq![c],
        !m.is_initial_time() && one_bit_record(0, c) is Some ==> m.signal_change_outcome(
            i,
            seq![c],
        ).1.changes[i] == m.changes[i].push(
            (one_bit_record((m.step() - m.last_change[i]) as nat, c).unwrap(), None::<usize>),
        ),
{
    let v = seq![c];
    let m1 = m.with_value(i, v);
    crate::buffer::lemma_value_in_model(m, i);
    assert(m1.value_of(i) =~= v);
}

/// What a reader makes of the number in a one bit value change: the distance in time steps
/// from the signal's previous change and the character, `0` or `1` when the number is even, else
/// one of `x z h u w l -` by its code (upper case letters are read back in lower case).
pub open spec fn one_bit_read(v: nat) -> (nat, u8) {
    if v % 2 == 0 {
        (v / 4, if (v / 2) % 2 == 1 { 0x31u8 } else { 0x30u8 })
    } else {
        (v / 16, seq![0x78u8, 0x7au8, 0x68u8, 0x75u8, 0x77u8, 0x6cu8, 0x2du8, 0x3fu8][((v / 2) % 8) as int])
    }
}

/// The character `c` as it is read back: a letter in lower case.
pub open spec fn read_back_char(c: u8) -> u8 {
    if 0x41 <= c <= 0x5a {
        (c + 0x20) as u8
    } else {
        c
    }
}

/// Every one bit value change reads back as its distance in time steps and its character (a
/// letter in lower case).
pub proof fn law_one_bit_record_reads_back(delta: nat, c: u8)
    requires
        is_std_logic(c),
    ensures
        one_bit_record(delta, c) is Some,
        ({
            let r = one_bit_record(delta, c).unwrap();
            one_bit_read(varint_sum(r, r.len())) == (delta, read_back_char(c))
        }),
{
    let r = one_bit_record(delta, c).unwrap();
    let v: nat = if c == 0x30 || c == 0x31 {
        (delta * 4 + (c - 0x30) * 2) as nat
    } else {
        (delta * 16 + crate::encode::nine_state_code(c).unwrap() as nat * 2 + 1) as nat
    };
    assert(r == varint_bytes(v));
    lemma_varint_roundtrip(v, Seq::empty());
    assert(varint_bytes(v) + Seq::<u8>::empty() =~= varint_bytes(v));
}

/// The bit at position `j` (0 the most significant) of byte `b`.
pub open spec fn bit_of_byte(b: u8, j: int) -> nat {
    ((b as nat / pow2((7 - j) as nat)) % 2) as nat
}

proof fn lemma_chunk_bit(values: Seq<u8>, k: int, m: nat, j: int)
    requires
        0 <= j < m,
    ensures
        (chunk_prefix(values, k, m) / pow2((m - 1 - j) as nat)) % 2 == bit_at(values, 8 * k + j),
    decreases m,
{
    let prev = chunk_prefix(values, k, (m - 1) as nat);
    let b = bit_at(values, 8 * k + m - 1);
    assert(chunk_prefix(values, k, m) == prev * 2 + b);
    assert(b == 0 || b == 1);
    if j == m - 1 {
        assert(pow2(0) == 1) by {
            vstd::arithmetic::power2::lemma2_to64();
        }
        assert((prev * 2 + b) % 2 == b);
        assert((m - 1 - j) as nat == 0nat);
        assert(pow2((m - 1 - j) as nat) == 1);
        vstd::arithmetic::div_mod::lemma_div_basics(chunk_prefix(values, k, m) as int);
        assert(chunk_prefix(values, k, m) / pow2((m - 1 - j) as nat) == chunk_prefix(values, k, m));
        assert(bit_at(values, 8 * k + j) == b);
    } else {
        let e = (m - 1 - j) as nat;
        vstd::arithmetic::power2::lemma_pow2_unfold(e);
        vstd::arithmetic::power2::lemma_pow2_pos((e - 1) as nat);
        vstd::arithmetic::div_mod::lemma_div_denominator(
            chunk_prefix(values, k, m) as int,
            2,
            pow2((e - 1) as nat) as int,
        );
        assert(chunk_prefix(values, k, m) / 2 == prev);
        assert(pow2(e) == 2 * pow2((e - 1) as nat));
        assert(chunk_prefix(values, k, m) / pow2(e) == prev / pow2((e - 1) as nat));
        assert((e - 1) as nat == ((m - 1) as nat - 1 - j) as nat);
        lemma_chunk_bit(values, k, (m - 1) as nat, j);
        assert((m - 1 - j) as nat == e);
    }
}

proof fn lemma_chunk_small(values: Seq<u8>, k: int, m: nat)
    requires
        m <= 8,
    ensures
        chunk_prefix(values, k, m) < pow2(m),
    decreases m,
{
    if m == 0 {
        assert(pow2(0) == 1) by {
            vstd::arithmetic::power2::lemma2_to64();
        }
    } else {
        lemma_chunk_small(values, k, (m - 1) as nat);
        vstd::arithmetic::power2::lemma_pow2_unfold(m);
    }
}

/// A value change of a wider signal reads back: an even number (twice the distance in time
/// steps) before packed bits for a vector of `0` and `1`, the bits in order, the first in the
/// most significant position of the first byte, and the rest of the last byte zero; an odd
/// number (twice the distance, plus one) before the characters as they are for any other value.
pub proof fn law_multi_bit_record_reads_back(delta: nat, values: Seq<u8>)
    ensures
        all_binary(values) ==> {
            let r = multi_bit_record(delta, values);
            let head = varint_bytes(delta * 2);
            let packed = r.skip(head.len() as int);
            &&& r.take(head.len() as int) == head
            &&& varint_sum(head, head.len()) == delta * 2
            &&& packed.len() == (values.len() + 7) / 8
            &&& forall|i: int|
                0 <= i < 8 * packed.len() ==> bit_of_byte(#[trigger] packed[i / 8], i % 8) == if i
                    < values.len() && values[i] == 0x31 {
                    1nat
                } else {
                    0nat
                }
        },
        !all_binary(values) ==> {
            let r = multi_bit_record(delta, values);
            let head = varint_bytes(delta * 2 + 1);
            &&& r == head + values
            &&& varint_sum(head, head.len()) == delta * 2 + 1
        },
{
    lemma_varint_roundtrip(delta * 2, Seq::empty());
    lemma_varint_roundtrip(delta * 2 + 1, Seq::empty());
    assert(varint_bytes(delta * 2) + Seq::<u8>::empty() =~= varint_bytes(delta * 2));
    assert(varint_bytes(delta * 2 + 1) + Seq::<u8>::empty() =~= varint_bytes(delta * 2 + 1));
    if all_binary(values) {
        let r = multi_bit_record(delta, values);
        let head = varint_bytes(delta * 2);
        let packed = r.skip(head.len() as int);
        assert(r.take(head.len() as int) =~= head);
        assert(packed =~= crate::encode::packed_bits(values));
        assert forall|i: int| 0 <= i < 8 * packed.len() implies bit_of_byte(#[trigger] packed[i / 8], i % 8)
            == if i < values.len() && values[i] == 0x31 {
            1nat
        } else {
            0nat
        } by {
            let k = i / 8;
            let j = i % 8;
            lemma_chunk_small(values, k, 8);
            assert(pow2(8) == 256) by {
                vstd::arithmetic::power2::lemma2_to64();
            }
            assert(packed[k] as nat == chunk_prefix(values, k, 8));
            lemma_chunk_bit(values, k, 8, j);
            assert(8 * k + j == i);
        }
    }
}

} // verus!
