//! Several append only byte lists kept in a single vector.
//!
//! Every entry is stored as a record: a four byte little endian back pointer (one more than the
//! offset of the previous record of the same list, zero for the first), the length of the entry
//! as a varint unless all entries have one fixed size, then the entry itself. For every list the
//! offset of its last record (plus one) is kept, so a list is read back by following the back
//! pointers from its end.

use vstd::prelude::*;
use vstd::slice::slice_subrange;
use crate::bytes::{push_all, copy_into, spliced};
use crate::varint::{
    varint_bytes, varint_ends_at, has_short_varint, write_variant_u64, read_variant_u64,
    lemma_varint_len_u64, lemma_varint_roundtrip,
};

verus! {

/// An entry of a list, as it was appended: its bytes, and the fixed size it was appended with
/// (`None` for an entry stored with its length).
pub type ListEntry = (Seq<u8>, Option<usize>);

/// An entry as it is stored: the offset of its record, its bytes and its fixed size.
pub type StoredEntry = (nat, Seq<u8>, Option<usize>);

/// The bytes of the entries of a list, one after the other.
pub open spec fn joined(entries: Seq<ListEntry>) -> Seq<u8>
    decreases entries.len(),
{
    if entries.len() == 0 {
        Seq::empty()
    } else {
        joined(entries.drop_last()) + entries.last().0
    }
}

/// Whether every entry of a list was appended with fixed size `fixed_size`.
pub open spec fn appended_with(entries: Seq<ListEntry>, fixed_size: Option<usize>) -> bool {
    forall|i: int| 0 <= i < entries.len() ==> (#[trigger] entries[i]).1 == fixed_size
}

/// The number of bytes of the record of an entry: its back pointer, its length unless it was
/// appended with a fixed size, and its bytes.
pub open spec fn entry_record_len(e: ListEntry) -> nat {
    4 + match e.1 {
        None => varint_bytes(e.0.len()).len(),
        Some(_) => 0,
    } + e.0.len()
}

/// The number of bytes of the records of the entries of a list.
pub open spec fn list_record_bytes(entries: Seq<ListEntry>) -> nat
    decreases entries.len(),
{
    if entries.len() == 0 {
        0
    } else {
        list_record_bytes(entries.drop_last()) + entry_record_len(entries.last())
    }
}

/// The number of bytes of the records of all lists.
pub open spec fn all_record_bytes(lists: Seq<Seq<ListEntry>>) -> nat
    decreases lists.len(),
{
    if lists.len() == 0 {
        0
    } else {
        all_record_bytes(lists.drop_last()) + list_record_bytes(lists.last())
    }
}

/// Replacing one list changes the bytes of all records by the difference of its own.
pub proof fn lemma_all_record_bytes_update(lists: Seq<Seq<ListEntry>>, l: int, x: Seq<ListEntry>)
    requires
        0 <= l < lists.len(),
    ensures
        all_record_bytes(lists.update(l, x)) + list_record_bytes(lists[l]) == all_record_bytes(lists)
            + list_record_bytes(x),
    decreases lists.len(),
{
    let u = lists.update(l, x);
    if l == lists.len() - 1 {
        assert(u.drop_last() =~= lists.drop_last());
    } else {
        assert(u.drop_last() =~= lists.drop_last().update(l, x));
        lemma_all_record_bytes_update(lists.drop_last(), l, x);
    }
}

/// Empty lists have no records.
pub proof fn lemma_all_record_bytes_empty(n: nat)
    ensures
        all_record_bytes(Seq::new(n, |l: int| Seq::<ListEntry>::empty())) == 0,
    decreases n,
{
    if n > 0 {
        let s = Seq::new(n, |l: int| Seq::<ListEntry>::empty());
        assert(s.drop_last() =~= Seq::new((n - 1) as nat, |l: int| Seq::<ListEntry>::empty()));
        lemma_all_record_bytes_empty((n - 1) as nat);
    }
}

/// The four little endian bytes of `v`.
pub open spec fn le32(v: nat) -> Seq<u8> {
    seq![
        (v % 256) as u8,
        ((v / 256) % 256) as u8,
        ((v / 65536) % 256) as u8,
        ((v / 16777216) % 256) as u8,
    ]
}

/// The number read from the four little endian bytes at `at`.
pub open spec fn from_le32(s: Seq<u8>, at: int) -> nat {
    (s[at] + 256 * s[at + 1] + 65536 * s[at + 2] + 16777216 * s[at + 3]) as nat
}

proof fn lemma_le32_roundtrip(v: nat)
    requires
        v <= u32::MAX,
    ensures
        from_le32(le32(v), 0) == v,
{
    let b = le32(v);
    let q1 = v / 256;
    let q2 = v / 65536;
    let q3 = v / 16777216;
    assert(q2 == q1 / 256);
    assert(q3 == q2 / 256);
    assert(q3 < 256);
    assert(b[0] == v % 256);
    assert(b[1] == q1 % 256);
    assert(b[2] == q2 % 256);
    assert(b[3] == q3);
}

/// The length of the part of a record before the entry's bytes.
pub open spec fn header_len(e: StoredEntry) -> nat {
    4 + match e.2 {
        None => varint_bytes(e.1.len()).len(),
        Some(_) => 0,
    }
}

/// The length of a whole record.
pub open spec fn record_len(e: StoredEntry) -> nat {
    header_len(e) + e.1.len()
}

/// The back pointer stored in the `i`-th record of a list.
pub open spec fn spec_back_pointer(es: Seq<StoredEntry>, i: int) -> nat {
    if i == 0 {
        0
    } else {
        es[i - 1].0 + 1
    }
}

/// The pointer to the last record of a list, zero for an empty list.
pub open spec fn last_pointer(es: Seq<StoredEntry>) -> nat {
    spec_back_pointer(es, es.len() as int)
}

/// The `i`-th record of a list is laid out in `data` as the module documentation describes, and
/// after the previous record of the same list.
pub open spec fn record_ok(data: Seq<u8>, es: Seq<StoredEntry>, i: int) -> bool {
    let e = es[i];
    let s = e.0 as int;
    &&& s + record_len(e) <= data.len()
    &&& data.subrange(s, s + 4) == le32(spec_back_pointer(es, i))
    &&& e.2 is None ==> data.subrange(s + 4, s + header_len(e)) == varint_bytes(e.1.len())
    &&& data.subrange(s + header_len(e), s + record_len(e)) == e.1
    &&& e.2 matches Some(n) ==> e.1.len() == n
    &&& i > 0 ==> es[i - 1].0 + record_len(es[i - 1]) <= s
}

/// The entries of a stored list, as they were appended.
pub open spec fn entries_of(es: Seq<StoredEntry>) -> Seq<ListEntry> {
    es.map_values(|e: StoredEntry| (e.1, e.2))
}

/// Implements several append only lists inside a single `Vec` to store value changes.
pub struct SingleVecLists {
    /// pointer to the last record of every list (its offset plus one), zero for an empty list
    lists_last: Vec<u32>,
    data: Vec<u8>,
    /// the records of every list, in the order they were appended
    stored: Ghost<Seq<Seq<StoredEntry>>>,
}

impl View for SingleVecLists {
    type V = Seq<Seq<ListEntry>>;

    /// The entries of every list.
    closed spec fn view(&self) -> Seq<Seq<ListEntry>> {
        self.stored@.map_values(|es: Seq<StoredEntry>| entries_of(es))
    }
}

impl SingleVecLists {
    /// The number of bytes taken by the records of all lists.
    pub closed spec fn byte_len(&self) -> nat {
        self.data@.len()
    }

    /// The records and the pointers describe the lists.
    pub closed spec fn wf(&self) -> bool {
        let st = self.stored@;
        let data = self.data@;
        &&& self.lists_last@.len() == st.len()
        &&& data.len() < u32::MAX
        &&& data.len() == all_record_bytes(self@)
        &&& (data.len() == 0 <==> forall|l: int| 0 <= l < st.len() ==> (#[trigger] st[l]).len() == 0)
        &&& forall|l: int, i: int|
            0 <= l < st.len() && 0 <= i < st[l].len() ==> #[trigger] record_ok(data, st[l], i)
        &&& forall|l: int|
            0 <= l < st.len() ==> self.lists_last@[l] as nat == last_pointer(#[trigger] st[l])
    }

    /// An empty list for each of `num_lists` lists.
    pub fn new(num_lists: usize) -> (lists: Self)
        ensures
            lists.wf(),
            lists.num_lists() == num_lists,
            lists@ == Seq::new(num_lists as nat, |l: int| Seq::<ListEntry>::empty()),
            lists.byte_len() == 0,
    {
        let mut lists_last: Vec<u32> = Vec::new();
        let mut i: usize = 0;
        while i < num_lists
            invariant
                i <= num_lists,
                lists_last@.len() == i,
                forall|j: int| 0 <= j < i ==> lists_last@[j] == 0,
            decreases num_lists - i,
        {
            lists_last.push(0);
            i = i + 1;
        }
        let lists = SingleVecLists {
            lists_last,
            data: Vec::new(),
            stored: Ghost(Seq::new(num_lists as nat, |l: int| Seq::<StoredEntry>::empty())),
        };
        assert forall|l: int| 0 <= l < num_lists implies lists@[l] =~= Seq::<ListEntry>::empty() by {
            assert(lists.stored@[l] =~= Seq::<StoredEntry>::empty());
        }
        assert(lists@ =~= Seq::new(num_lists as nat, |l: int| Seq::<ListEntry>::empty()));
        proof {
            lemma_all_record_bytes_empty(num_lists as nat);
        }
        lists
    }

    /// The number of lists.
    pub closed spec fn num_lists(&self) -> nat {
        self.stored@.len()
    }

    /// Appends the entry `data` to list `list_id`. With `fixed_size` set, every entry of that list
    /// has that size and is stored without its length.
    pub fn append(&mut self, list_id: usize, data: &[u8], fixed_size: Option<usize>)
        requires
            old(self).wf(),
            list_id < old(self).num_lists(),
            fixed_size matches Some(n) ==> data@.len() == n,
            old(self).byte_len() + 14 + data@.len() < u32::MAX,
        ensures
            final(self).wf(),
            final(self).num_lists() == old(self).num_lists(),
            final(self)@ == old(self)@.update(
                list_id as int,
                old(self)@[list_id as int].push((data@, fixed_size)),
            ),
            final(self).byte_len() == old(self).byte_len() + 4 + (if fixed_size is None {
                varint_bytes(data@.len()).len()
            } else {
                0
            }) + data@.len(),
    {
        proof {
            lemma_varint_len_u64(data@.len() as u64);
        }
        let ghost old_data = self.data@;
        let ghost old_st = self.stored@;
        let ghost old_last = self.lists_last@;
        let back_pointer = self.lists_last[list_id];
        let start = self.data.len();
        // the new "last" entry, plus one to tell it from an empty list
        self.lists_last.set(list_id, start as u32 + 1);
        // remember the previous entry
        self.data.push((back_pointer % 256) as u8);
        self.data.push(((back_pointer / 256) % 256) as u8);
        self.data.push(((back_pointer / 65536) % 256) as u8);
        self.data.push(((back_pointer / 16777216) % 256) as u8);
        assert(self.data@ =~= old_data + le32(back_pointer as nat));
        let ghost length_bytes = if fixed_size is None {
            varint_bytes(data@.len())
        } else {
            Seq::empty()
        };
        match fixed_size {
            Some(_) => {},
            None => {
                write_variant_u64(&mut self.data, data.len() as u64);
            },
        }
        assert(self.data@ =~= old_data + le32(back_pointer as nat) + length_bytes);
        push_all(&mut self.data, data);
        let ghost e: StoredEntry = (start as nat, data@, fixed_size);
        let ghost es = old_st[list_id as int].push(e);
        proof {
            assert(old_last[list_id as int] as nat == last_pointer(old_st[list_id as int]));
            lemma_append_record(old_data, self.data@, old_st, list_id as int, e, back_pointer as nat);
            self.stored@ = old_st.update(list_id as int, es);
            let st = self.stored@;
            assert forall|l: int| 0 <= l < st.len() implies self.lists_last@[l] as nat
                == last_pointer(#[trigger] st[l]) by {
                if l != list_id {
                    assert(st[l] == old_st[l]);
                    assert(old_last[l] as nat == last_pointer(old_st[l]));
                }
            }
            assert(!(forall|l: int| 0 <= l < st.len() ==> (#[trigger] st[l]).len() == 0)) by {
                assert(st[list_id as int].len() > 0);
            }
            assert(self@ =~= old(self)@.update(
                list_id as int,
                old(self)@[list_id as int].push((data@, fixed_size)),
            )) by {
                assert(entries_of(es) =~= entries_of(old_st[list_id as int]).push(
                    (data@, fixed_size),
                ));
                assert forall|l: int|
                    0 <= l < st.len() && l != list_id implies st[l] == old_st[l] by {}
            }
            let old_list = old(self)@[list_id as int];
            assert(old_list.push((data@, fixed_size)).drop_last() =~= old_list);
            lemma_all_record_bytes_update(
                old(self)@,
                list_id as int,
                old_list.push((data@, fixed_size)),
            );
        }
    }

    /// The number read from the four bytes at `start`.
    fn read_back_pointer(&self, start: usize) -> (pointer: u32)
        requires
            start + 4 <= self.data@.len(),
        ensures
            pointer == from_le32(self.data@, start as int),
    {
        let _ = self.data.len();
        self.data[start] as u32 + self.data[start + 1] as u32 * 256 + self.data[start + 2] as u32
            * 65536 + self.data[start + 3] as u32 * 16777216
    }

    /// Reads the record of the `i`-th entry of list `l`, which starts at `start`: returns its back
    /// pointer, the offset of the entry's bytes and their number.
    fn read_record(
        &self,
        start: usize,
        fixed_size: Option<usize>,
        Ghost(l): Ghost<int>,
        Ghost(i): Ghost<int>,
    ) -> (r: (u32, usize, usize))
        requires
            self.wf(),
            0 <= l < self.stored@.len(),
            0 <= i < self.stored@[l].len(),
            start == self.stored@[l][i].0,
            self.stored@[l][i].2 == fixed_size,
        ensures
            r.0 as nat == spec_back_pointer(self.stored@[l], i),
            r.1 == start + header_len(self.stored@[l][i]),
            r.2 == self.stored@[l][i].1.len(),
            r.1 + r.2 <= self.data@.len(),
    {
        let ghost sl = self.stored@[l];
        let ghost e = sl[i];
        assert(record_ok(self.data@, sl, i));
        let back = self.read_back_pointer(start);
        proof {
            let b = spec_back_pointer(sl, i);
            assert(b <= u32::MAX) by {
                if i > 0 {
                    assert(record_ok(self.data@, sl, i - 1));
                }
            }
            assert(self.data@.subrange(start as int, start + 4) == le32(b));
            assert forall|k: int| 0 <= k < 4 implies self.data@[start + k] == le32(b)[k] by {
                assert(self.data@.subrange(start as int, start + 4)[k] == self.data@[start + k]);
            }
            lemma_le32_roundtrip(b);
        }
        match fixed_size {
            Some(len) => (back, start + 4, len),
            None => {
                let tail = slice_subrange(self.data.as_slice(), start + 4, self.data.len());
                let ghost clen = e.1.len();
                let ghost vl = varint_bytes(clen).len();
                proof {
                    lemma_varint_len_u64(clen as u64);
                    let rest = self.data@.subrange(start + 4 + vl, self.data@.len() as int);
                    assert(tail@ =~= varint_bytes(clen) + rest);
                    lemma_varint_roundtrip(clen, rest);
                    assert(varint_ends_at(tail@, vl));
                    assert(has_short_varint(tail@));
                }
                let (len, skip) = read_variant_u64(tail);
                proof {
                    lemma_varint_end_unique(tail@, skip as nat, vl);
                }
                (back, start + 4 + skip, len as usize)
            },
        }
    }

    /// Follows the back pointers of list `list_id` to find the total size of all its entries.
    fn list_len(&self, list_id: usize, fixed_size: Option<usize>) -> (len: usize)
        requires
            self.wf(),
            list_id < self.num_lists(),
            appended_with(self@[list_id as int], fixed_size),
        ensures
            len == joined(self@[list_id as int]).len(),
    {
        let ghost sl = self.stored@[list_id as int];
        let ghost es = self@[list_id as int];
        proof {
            lemma_entries_of(sl);
            lemma_joined_len_bound(self.data@, sl, es);
        }
        let mut last = self.lists_last[list_id];
        if last == 0 {
            proof {
                assert(sl.len() == 0);
                assert(es.len() == 0);
            }
            return 0;
        }
        let ghost mut i: int = sl.len() as int;
        assert(es.take(i) =~= es);
        let mut total_len: usize = 0;
        while last > 0
            invariant
                self.wf(),
                list_id < self.num_lists(),
                sl == self.stored@[list_id as int],
                es == entries_of(sl),
                es.len() == sl.len(),
                forall|j: int| 0 <= j < sl.len() ==> #[trigger] es[j] == (sl[j].1, sl[j].2),
                appended_with(es, fixed_size),
                joined(es).len() < u32::MAX,
                0 <= i <= sl.len(),
                last as nat == spec_back_pointer(sl, i),
                total_len + joined(es.take(i)).len() == joined(es).len(),
            decreases last,
        {
            let start = last as usize - 1;
            proof {
                if i == 0 {
                    assert(false);
                }
                assert(es[i - 1].1 == fixed_size);
                assert(record_ok(self.data@, sl, i - 1));
                lemma_joined_take(es, i - 1);
                if i > 1 {
                    assert(record_ok(self.data@, sl, i - 2));
                }
            }
            let (back, _, len) = self.read_record(start, fixed_size, Ghost(list_id as int), Ghost(i - 1));
            last = back;
            total_len = total_len + len;
            proof {
                i = i - 1;
            }
        }
        proof {
            if i > 0 {
                assert(record_ok(self.data@, sl, i - 1));
            }
            assert(es.take(0) =~= Seq::<ListEntry>::empty());
        }
        total_len
    }

    /// The entries of list `list_id`, one after the other.
    pub fn extract_list(&self, list_id: usize, fixed_size: Option<usize>) -> (out: Vec<u8>)
        requires
            self.wf(),
            list_id < self.num_lists(),
            appended_with(self@[list_id as int], fixed_size),
        ensures
            out@ == joined(self@[list_id as int]),
    {
        let ghost sl = self.stored@[list_id as int];
        let ghost es = self@[list_id as int];
        proof {
            lemma_entries_of(sl);
            lemma_joined_len_bound(self.data@, sl, es);
        }
        let mut last = self.lists_last[list_id];
        // no list entries
        if last == 0 {
            proof {
                assert(sl.len() == 0);
                assert(es.len() == 0);
            }
            return Vec::new();
        }
        // find the first entry and calculate length
        let len = self.list_len(list_id, fixed_size);
        let mut out: Vec<u8> = Vec::new();
        let mut k: usize = 0;
        while k < len
            invariant
                k <= len,
                out@.len() == k,
            decreases len - k,
        {
            out.push(0);
            k = k + 1;
        }
        let mut remaining_len = len;
        let ghost mut i: int = sl.len() as int;
        assert(es.take(i) =~= es);
        while last > 0
            invariant
                self.wf(),
                list_id < self.num_lists(),
                sl == self.stored@[list_id as int],
                es == entries_of(sl),
                es.len() == sl.len(),
                forall|j: int| 0 <= j < sl.len() ==> #[trigger] es[j] == (sl[j].1, sl[j].2),
                appended_with(es, fixed_size),
                len == joined(es).len(),
                out@.len() == len,
                0 <= i <= sl.len(),
                last as nat == spec_back_pointer(sl, i),
                remaining_len == joined(es.take(i)).len(),
                out@.subrange(remaining_len as int, len as int) == joined(es).subrange(
                    remaining_len as int,
                    len as int,
                ),
            decreases last,
        {
            let start = last as usize - 1;
            proof {
                if i == 0 {
                    assert(false);
                }
                assert(es[i - 1].1 == fixed_size);
                assert(record_ok(self.data@, sl, i - 1));
                lemma_joined_take(es, i - 1);
                lemma_joined_prefix(es, i);
                if i > 1 {
                    assert(record_ok(self.data@, sl, i - 2));
                }
            }
            let (back, from, n) = self.read_record(start, fixed_size, Ghost(list_id as int), Ghost(i - 1));
            last = back;
            let ghost old_out = out@;
            let ghost old_rem = remaining_len;
            remaining_len = remaining_len - n;
            copy_into(&mut out, remaining_len, self.data.as_slice(), from, n);
            proof {
                let e = sl[i - 1];
                assert(self.data@.subrange(from as int, from + n) == e.1);
                assert(out@ == spliced(old_out, remaining_len as int, self.data@, from as int, n as int));
                assert(joined(es).subrange(remaining_len as int, old_rem as int) =~= e.1) by {
                    assert(joined(es.take(i)) == joined(es.take(i - 1)) + es[i - 1].0);
                    assert(joined(es).subrange(0, old_rem as int) == joined(es.take(i)));
                    assert(joined(es).subrange(remaining_len as int, old_rem as int)
                        =~= joined(es.take(i)).subrange(remaining_len as int, old_rem as int));
                }
                assert(out@.subrange(remaining_len as int, len as int) =~= joined(es).subrange(
                    remaining_len as int,
                    len as int,
                )) by {
                    assert forall|j: int| remaining_len <= j < len implies out@[j] == joined(es)[j] by {
                        if j < old_rem {
                            assert(out@[j] == self.data@.subrange(from as int, from + n)[j - remaining_len]);
                            assert(self.data@.subrange(from as int, from + n)[j - remaining_len]
                                == self.data@[from + j - remaining_len]);
                            assert(joined(es).subrange(remaining_len as int, old_rem as int)[j
                                - remaining_len] == joined(es)[j]);
                        } else {
                            assert(out@[j] == old_out[j]);
                            assert(old_out.subrange(old_rem as int, len as int)[j - old_rem]
                                == old_out[j]);
                            assert(joined(es).subrange(old_rem as int, len as int)[j - old_rem]
                                == joined(es)[j]);
                        }
                    }
                }
                i = i - 1;
            }
        }
        proof {
            if i > 0 {
                assert(record_ok(self.data@, sl, i - 1));
            }
            assert(es.take(0) =~= Seq::<ListEntry>::empty());
            assert(out@ =~= out@.subrange(0, len as int));
            assert(joined(es) =~= joined(es).subrange(0, len as int));
        }
        out
    }

    /// Empties every list, keeping their number.
    pub fn clear(&mut self)
        requires
            old(self).wf(),
        ensures
            final(self).wf(),
            final(self)@ == Seq::new(old(self).num_lists(), |l: int| Seq::<ListEntry>::empty()),
            final(self).num_lists() == old(self).num_lists(),
            final(self).byte_len() == 0,
    {
        let n = self.lists_last.len();
        let mut i: usize = 0;
        while i < n
            invariant
                i <= n,
                n == self.lists_last@.len(),
                forall|j: int| 0 <= j < i ==> self.lists_last@[j] == 0,
            decreases n - i,
        {
            self.lists_last.set(i, 0);
            i = i + 1;
        }
        self.data.clear();
        proof {
            self.stored@ = Seq::new(n as nat, |l: int| Seq::<StoredEntry>::empty());
            assert forall|l: int| 0 <= l < n implies self@[l] =~= Seq::<ListEntry>::empty() by {
                assert(self.stored@[l] =~= Seq::<StoredEntry>::empty());
            }
            assert(self@ =~= Seq::new(n as nat, |l: int| Seq::<ListEntry>::empty()));
            lemma_all_record_bytes_empty(n as nat);
        }
    }

    /// The number of bytes held: four per list for its pointer, and the records.
    pub fn size(&self) -> (size: usize)
        requires
            self.wf(),
            self.num_lists() * 4 + self.byte_len() <= usize::MAX,
        ensures
            size == self.num_lists() * 4 + self.byte_len(),
            size == self.num_lists() * 4 + all_record_bytes(self@),
    {
        self.lists_last.len() * 4 + self.data.len()
    }

    /// Whether no list holds an entry.
    pub fn is_empty(&self) -> (empty: bool)
        requires
            self.wf(),
        ensures
            empty == (self.byte_len() == 0),
            empty == (forall|l: int| 0 <= l < self.num_lists() ==> (#[trigger] self@[l]).len() == 0),
    {
        proof {
            assert forall|l: int| 0 <= l < self.num_lists() implies (#[trigger] self@[l]).len()
                == self.stored@[l].len() by {
                lemma_entries_of(self.stored@[l]);
            }
            let st = self.stored@;
            if self.data@.len() != 0 {
                let l = choose|l: int| 0 <= l < st.len() && (#[trigger] st[l]).len() != 0;
                assert(self@[l].len() != 0);
            }
        }
        self.data.len() == 0
    }

    /// The view holds one list of entries per list.
    pub proof fn lemma_view_len(&self)
        ensures
            self@.len() == self.num_lists(),
    {
    }
}

/// A varint ends at one place only.
proof fn lemma_varint_end_unique(s: Seq<u8>, a: nat, b: nat)
    requires
        varint_ends_at(s, a),
        varint_ends_at(s, b),
    ensures
        a == b,
{
    if a < b {
        assert(s[a - 1] >= 128);
    } else if b < a {
        assert(s[b - 1] >= 128);
    }
}

proof fn lemma_entries_of(sl: Seq<StoredEntry>)
    ensures
        entries_of(sl).len() == sl.len(),
        forall|j: int| 0 <= j < sl.len() ==> #[trigger] entries_of(sl)[j] == (sl[j].1, sl[j].2),
{
}

/// The first `i + 1` entries are the first `i` and then the `i`-th.
proof fn lemma_joined_take(es: Seq<ListEntry>, i: int)
    requires
        0 <= i < es.len(),
    ensures
        joined(es.take(i + 1)) == joined(es.take(i)) + es[i].0,
{
    assert(es.take(i + 1).drop_last() =~= es.take(i));
}

/// The entries of a prefix of the list are a prefix of the entries of the list.
proof fn lemma_joined_prefix(es: Seq<ListEntry>, i: int)
    requires
        0 <= i <= es.len(),
    ensures
        joined(es).len() >= joined(es.take(i)).len(),
        joined(es).subrange(0, joined(es.take(i)).len() as int) == joined(es.take(i)),
    decreases es.len(),
{
    if i == es.len() {
        assert(es.take(i) =~= es);
        assert(joined(es).subrange(0, joined(es).len() as int) =~= joined(es));
    } else {
        let d = es.drop_last();
        lemma_joined_prefix(d, i);
        assert(d.take(i) =~= es.take(i));
        assert(joined(es) == joined(d) + es.last().0);
        assert(joined(es).subrange(0, joined(es.take(i)).len() as int) =~= joined(d).subrange(
            0,
            joined(es.take(i)).len() as int,
        ));
    }
}

/// The entries of a list take no more room than the records that hold them.
proof fn lemma_joined_len_bound(data: Seq<u8>, sl: Seq<StoredEntry>, es: Seq<ListEntry>)
    requires
        es == entries_of(sl),
        forall|i: int| 0 <= i < sl.len() ==> #[trigger] record_ok(data, sl, i),
    ensures
        joined(es).len() <= data.len(),
{
    lemma_entries_of(sl);
    lemma_joined_len_bound_upto(data, sl, es, sl.len() as int);
    assert(es.take(es.len() as int) =~= es);
    if sl.len() > 0 {
        assert(record_ok(data, sl, sl.len() - 1));
    }
}

proof fn lemma_joined_len_bound_upto(data: Seq<u8>, sl: Seq<StoredEntry>, es: Seq<ListEntry>, i: int)
    requires
        es.len() == sl.len(),
        forall|j: int| 0 <= j < sl.len() ==> #[trigger] es[j] == (sl[j].1, sl[j].2),
        forall|j: int| 0 <= j < sl.len() ==> #[trigger] record_ok(data, sl, j),
        0 <= i <= sl.len(),
    ensures
        i == 0 ==> joined(es.take(i)).len() == 0,
        i > 0 ==> joined(es.take(i)).len() <= sl[i - 1].0 + record_len(sl[i - 1]),
    decreases i,
{
    if i == 0 {
        assert(es.take(0) =~= Seq::<ListEntry>::empty());
    } else {
        lemma_joined_len_bound_upto(data, sl, es, i - 1);
        lemma_joined_take(es, i - 1);
        assert(record_ok(data, sl, i - 1));
        assert(es[i - 1] == (sl[i - 1].1, sl[i - 1].2));
    }
}

/// Writing a record for `e` at the end of `old_data`, pointing back at the previous record of
/// its list, keeps every record where it was and adds `e` as the last record of that list.
proof fn lemma_append_record(
    old_data: Seq<u8>,
    new_data: Seq<u8>,
    old_st: Seq<Seq<StoredEntry>>,
    list_id: int,
    e: StoredEntry,
    back: nat,
)
    requires
        0 <= list_id < old_st.len(),
        back == last_pointer(old_st[list_id]),
        back <= u32::MAX,
        e.0 == old_data.len(),
        e.2 matches Some(n) ==> e.1.len() == n,
        new_data == old_data + le32(back) + (if e.2 is None {
            varint_bytes(e.1.len())
        } else {
            Seq::empty()
        }) + e.1,
        forall|l: int, i: int|
            0 <= l < old_st.len() && 0 <= i < old_st[l].len() ==> #[trigger] record_ok(
                old_data,
                old_st[l],
                i,
            ),
    ensures
        ({
            let st = old_st.update(list_id, old_st[list_id].push(e));
            forall|l: int, i: int|
                0 <= l < st.len() && 0 <= i < st[l].len() ==> #[trigger] record_ok(new_data, st[l], i)
        }),
        new_data.len() == old_data.len() + record_len(e),
{
    let es = old_st[list_id].push(e);
    let st = old_st.update(list_id, es);
    let start = e.0 as int;
    assert(new_data.len() == start + record_len(e));
    assert(new_data.subrange(start, start + 4) =~= le32(back));
    if e.2 is None {
        assert(new_data.subrange(start + 4, start + header_len(e)) =~= varint_bytes(e.1.len()));
    }
    assert(new_data.subrange(start + header_len(e), start + record_len(e)) =~= e.1);
    assert forall|l: int, j: int| 0 <= l < st.len() && 0 <= j < st[l].len() implies #[trigger] record_ok(
        new_data,
        st[l],
        j,
    ) by {
        if l == list_id && j == es.len() - 1 {
            if j > 0 {
                assert(record_ok(old_data, old_st[l], j - 1));
            }
        } else {
            assert(st[l][j] == old_st[l][j]);
            assert(record_ok(old_data, old_st[l], j));
            let f = st[l][j];
            let a = f.0 as int;
            assert(new_data.subrange(a, a + 4) =~= old_data.subrange(a, a + 4));
            assert(new_data.subrange(a + 4, a + header_len(f)) =~= old_data.subrange(
                a + 4,
                a + header_len(f),
            ));
            assert(new_data.subrange(a + header_len(f), a + record_len(f)) =~= old_data.subrange(
                a + header_len(f),
                a + record_len(f),
            ));
            if j > 0 {
                assert(st[l][j - 1] == old_st[l][j - 1]);
            }
            assert(spec_back_pointer(st[l], j) == spec_back_pointer(old_st[l], j));
        }
    }
}

} // verus!
