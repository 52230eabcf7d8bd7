//! Which writes are persisted, and the queue of records of each prefix on
//! its way to the prefix's file.

use crate::batch::{all_pieces, encodings, WriteBatch};
use crate::shared_map::{
    map_contents, map_get, map_insert, map_new, positions, set_contains, set_contents, ByteMap,
    ByteSet,
};
use crate::wal::{file_name, file_name_for_prefix, WalMode, WalRecord, WalRecordView};
use vstd::prelude::*;
use vstd::slice::slice_to_vec;

verus! {

/// A batch is closed once it holds this many bytes.
pub const BATCH_SIZE: u64 = 16384;

/// The writer of one prefix: its file, and the records that wait.
pub struct PerPrefixWriter {
    prefix: Vec<u8>,
    file_name: String,
    mode: WalMode,
    to_write: Vec<WalRecord>,
}

/// Mathematical model of a [`PerPrefixWriter`].
pub struct WriterView {
    pub prefix: Seq<u8>,
    pub file_name: Seq<char>,
    pub mode: WalMode,
    /// The records that wait, oldest first.
    pub queue: Seq<WalRecordView>,
}

impl View for PerPrefixWriter {
    type V = WriterView;

    closed spec fn view(&self) -> WriterView {
        WriterView {
            prefix: self.prefix@,
            file_name: self.file_name@,
            mode: self.mode,
            queue: self.to_write@.map_values(|r: WalRecord| r@),
        }
    }
}

pub struct WalManager {
    default_mode: WalMode,
    prefix_modes_no_persist: ByteSet,
    /// Prefix to the position of its writer in `per_prefix`.
    writers: ByteMap,
    per_prefix: Vec<PerPrefixWriter>,
}

/// Mathematical model of a [`WalManager`].
pub struct WalManagerView {
    pub default_mode: WalMode,
    /// The prefixes whose writes are not persisted.
    pub no_persist: Set<Seq<u8>>,
    /// The writers, in the order in which their prefixes were first
    /// written.
    pub writers: Seq<WriterView>,
}

/// The number of records at the head of `queue` that make one batch, of
/// which `size` bytes are filled: records join until the batch holds
/// [`BATCH_SIZE`] bytes or the queue is empty.
pub open spec fn batch_len(queue: Seq<WalRecordView>, size: int) -> int
    decreases queue.len(),
{
    if queue.len() == 0 || size >= BATCH_SIZE {
        0
    } else {
        1 + batch_len(queue.drop_first(), size + queue.first().encoding().len())
    }
}

impl WalManagerView {
    /// Writes under `prefix` are persisted.
    pub open spec fn persists(self, prefix: Seq<u8>) -> bool {
        self.default_mode != WalMode::Off && !self.no_persist.contains(prefix)
    }

    pub open spec fn has_writer(self, prefix: Seq<u8>) -> bool {
        exists|i: int| 0 <= i < self.writers.len() && (#[trigger] self.writers[i]).prefix == prefix
    }

    /// The position of the writer of `prefix`.
    pub open spec fn writer_of(self, prefix: Seq<u8>) -> int {
        choose|i: int| 0 <= i < self.writers.len() && (#[trigger] self.writers[i]).prefix == prefix
    }

    /// Each prefix has one writer, named after it, and every record that
    /// waits can be written.
    pub open spec fn inv(self) -> bool {
        &&& forall|i: int, j: int|
            0 <= i < j < self.writers.len() ==> (#[trigger] self.writers[i]).prefix != (
            #[trigger] self.writers[j]).prefix
        &&& forall|i: int|
            0 <= i < self.writers.len() ==> (#[trigger] self.writers[i]).file_name == file_name(
                self.writers[i].prefix,
            )
        &&& forall|i: int, k: int|
            0 <= i < self.writers.len() && 0 <= k < self.writers[i].queue.len() ==> (
            #[trigger] self.writers[i].queue[k]).fits()
    }

    /// The record `rec` is taken in: writes under `prefix` are persisted
    /// and the record can be written.
    pub open spec fn takes(self, prefix: Seq<u8>, rec: WalRecordView) -> bool {
        self.persists(prefix) && rec.fits()
    }

    /// The position of the writer that has work after `rec` was handed in
    /// under `prefix`; `None` where the record is not taken in.
    pub open spec fn append_answer(self, prefix: Seq<u8>, rec: WalRecordView) -> Option<usize> {
        if !self.takes(prefix, rec) {
            None
        } else if self.has_writer(prefix) {
            Some(self.writer_of(prefix) as usize)
        } else {
            Some(self.writers.len() as usize)
        }
    }

    /// The manager after `rec` was handed in under `prefix`: the record
    /// waits in the queue of the prefix's writer, which is made where the
    /// prefix is new.
    pub open spec fn append(self, prefix: Seq<u8>, rec: WalRecordView) -> WalManagerView {
        if !self.takes(prefix, rec) {
            self
        } else if self.has_writer(prefix) {
            let i = self.writer_of(prefix);
            WalManagerView {
                writers: self.writers.update(
                    i,
                    WriterView { queue: self.writers[i].queue.push(rec), ..self.writers[i] },
                ),
                ..self
            }
        } else {
            WalManagerView {
                writers: self.writers.push(
                    WriterView {
                        prefix,
                        file_name: file_name(prefix),
                        mode: self.default_mode,
                        queue: seq![rec],
                    },
                ),
                ..self
            }
        }
    }

    /// The manager after a batch was taken from the writer at `writer`.
    pub open spec fn take_batch(self, writer: int) -> WalManagerView {
        let w = self.writers[writer];
        WalManagerView {
            writers: self.writers.update(
                writer,
                WriterView { queue: w.queue.skip(batch_len(w.queue, 0)), ..w },
            ),
            ..self
        }
    }

    /// The records of the batch that is taken from the writer at `writer`.
    pub open spec fn batch_of(self, writer: int) -> Seq<WalRecordView> {
        let w = self.writers[writer];
        w.queue.take(batch_len(w.queue, 0))
    }
}

pub proof fn lemma_batch_len_bounds(queue: Seq<WalRecordView>, size: int)
    ensures
        0 <= batch_len(queue, size) <= queue.len(),
    decreases queue.len(),
{
    if !(queue.len() == 0 || size >= BATCH_SIZE) {
        lemma_batch_len_bounds(queue.drop_first(), size + queue.first().encoding().len());
    }
}

/// The prefixes of the writers.
pub open spec fn writer_names(writers: Seq<PerPrefixWriter>) -> Seq<Seq<u8>> {
    writers.map_values(|w: PerPrefixWriter| w@.prefix)
}

impl View for WalManager {
    type V = WalManagerView;

    closed spec fn view(&self) -> WalManagerView {
        WalManagerView {
            default_mode: self.default_mode,
            no_persist: set_contents(self.prefix_modes_no_persist),
            writers: self.per_prefix@.map_values(|w: PerPrefixWriter| w@),
        }
    }
}

impl WalManager {
    pub closed spec fn wf(&self) -> bool {
        &&& positions(map_contents(self.writers), writer_names(self.per_prefix@))
        &&& self@.inv()
    }

    /// A manager that is well formed meets what holds of every state.
    pub proof fn lemma_inv(&self)
        requires
            self.wf(),
        ensures
            self@.inv(),
    {
        assert forall|i: int, j: int| 0 <= i < j < self@.writers.len() implies (
        #[trigger] self@.writers[i]).prefix != (#[trigger] self@.writers[j]).prefix by {
            assert(writer_names(self.per_prefix@)[i] == self@.writers[i].prefix);
            assert(writer_names(self.per_prefix@)[j] == self@.writers[j].prefix);
        }
    }

    /// The position that the index gives for a prefix is that of its
    /// writer.
    proof fn lemma_writer(&self, prefix: Seq<u8>)
        requires
            self.wf(),
        ensures
            self@.has_writer(prefix) == map_contents(self.writers).contains_key(prefix),
            self@.has_writer(prefix) ==> self@.writer_of(prefix) == map_contents(
                self.writers,
            )[prefix] && 0 <= self@.writer_of(prefix) < self.per_prefix.len(),
    {
        let m = map_contents(self.writers);
        let names = writer_names(self.per_prefix@);
        if m.contains_key(prefix) {
            assert(names[m[prefix] as int] == prefix);
            assert(self@.writers[m[prefix] as int].prefix == prefix);
        }
        if self@.has_writer(prefix) {
            let i = self@.writer_of(prefix);
            assert(names[i] == prefix);
        }
    }

    /// A manager with the mode `default_mode` that leaves out the prefixes
    /// in `prefix_modes_no_persist`.
    pub fn new(default_mode: WalMode, prefix_modes_no_persist: ByteSet) -> (m: Self)
        ensures
            m.wf(),
            m@ == (WalManagerView {
                default_mode,
                no_persist: set_contents(prefix_modes_no_persist),
                writers: Seq::empty(),
            }),
    {
        let m = WalManager {
            default_mode,
            prefix_modes_no_persist,
            writers: map_new(),
            per_prefix: Vec::new(),
        };
        assert(m@.writers =~= Seq::<WriterView>::empty());
        m
    }

    pub fn default_mode(&self) -> (mode: WalMode)
        ensures
            mode == self@.default_mode,
    {
        self.default_mode
    }

    /// The number of writers.
    pub fn writer_count(&self) -> (n: usize)
        ensures
            n == self@.writers.len(),
    {
        self.per_prefix.len()
    }

    /// The name of the file of the writer at `writer`.
    pub fn file_name(&self, writer: usize) -> (name: String)
        requires
            writer < self@.writers.len(),
        ensures
            name@ == self@.writers[writer as int].file_name,
    {
        self.per_prefix[writer].file_name.clone()
    }

    /// The number of records that wait at the writer at `writer`.
    pub fn pending(&self, writer: usize) -> (n: usize)
        requires
            writer < self@.writers.len(),
        ensures
            n == self@.writers[writer as int].queue.len(),
    {
        self.per_prefix[writer].to_write.len()
    }

    /// Hands in the record of a write at revision `rev` of `key` under
    /// `prefix`; `value == None` is a deletion.  Nothing is taken in where
    /// the mode is off, where the prefix is left out, or where the record
    /// is too long to be written.  Returns the position of the writer that
    /// has work.
    pub fn append(&mut self, prefix: &[u8], rev: i64, key: &[u8], value: Option<&[u8]>) -> (r:
        Option<usize>)
        requires
            old(self).wf(),
        ensures
            final(self).wf(),
            final(self)@ == old(self)@.append(
                prefix@,
                WalRecordView {
                    rev,
                    key: key@,
                    value: match value {
                        Some(v) => Some(v@),
                        None => None,
                    },
                },
            ),
            r == old(self)@.append_answer(
                prefix@,
                WalRecordView {
                    rev,
                    key: key@,
                    value: match value {
                        Some(v) => Some(v@),
                        None => None,
                    },
                },
            ),
    {
        let no_mode = match self.default_mode {
            WalMode::Off => true,
            _ => false,
        };
        if no_mode || set_contains(&self.prefix_modes_no_persist, prefix) {
            return None;
        }
        if key.len() > 0xFFFF_FFFF {
            return None;
        }
        match value {
            Some(v) => {
                if v.len() >= 0xFFFF_FFFF {
                    return None;
                }
            },
            None => {},
        }
        let rec = WalRecord {
            rev,
            key: slice_to_vec(key),
            value: match value {
                Some(v) => Some(slice_to_vec(v)),
                None => None,
            },
        };
        proof {
            self.lemma_writer(prefix@);
            self.lemma_inv();
        }
        let ghost before = self@;
        let ghost recv = rec@;
        match map_get(&self.writers, prefix) {
            Some(i) => {
                self.per_prefix[i].to_write.push(rec);
                proof {
                    let want = before.append(prefix@, recv);
                    assert(self@.writers[i as int].queue =~= before.writers[i as int].queue.push(
                        recv,
                    ));
                    assert(self@.writers =~= want.writers);
                    assert(writer_names(self.per_prefix@) =~= writer_names(old(self).per_prefix@));
                    assert forall|w: int, k: int|
                        0 <= w < self@.writers.len() && 0 <= k
                            < self@.writers[w].queue.len() implies (
                    #[trigger] self@.writers[w].queue[k]).fits() by {
                        if w != i || k < before.writers[w].queue.len() {
                            assert(before.writers[w].queue[k].fits());
                        }
                    }
                }
                Some(i)
            },
            None => {
                let i = self.per_prefix.len();
                let mut to_write: Vec<WalRecord> = Vec::new();
                to_write.push(rec);
                let writer = PerPrefixWriter {
                    prefix: slice_to_vec(prefix),
                    file_name: file_name_for_prefix(prefix),
                    mode: self.default_mode,
                    to_write,
                };
                assert(writer@.queue =~= seq![recv]);
                self.per_prefix.push(writer);
                map_insert(&mut self.writers, slice_to_vec(prefix), i);
                proof {
                    let want = before.append(prefix@, recv);
                    assert(self@.writers =~= want.writers);
                    assert(writer_names(self.per_prefix@) =~= writer_names(
                        old(self).per_prefix@,
                    ).push(prefix@));
                    assert forall|a: int, b: int| 0 <= a < b < self@.writers.len() implies (
                    #[trigger] self@.writers[a]).prefix != (#[trigger] self@.writers[b]).prefix by {
                        assert(before.writers[a].prefix == self@.writers[a].prefix);
                        if b < before.writers.len() {
                            assert(before.writers[b].prefix == self@.writers[b].prefix);
                        }
                    }
                    assert forall|w: int, k: int|
                        0 <= w < self@.writers.len() && 0 <= k
                            < self@.writers[w].queue.len() implies (
                    #[trigger] self@.writers[w].queue[k]).fits() by {
                        if w < before.writers.len() {
                            assert(before.writers[w].queue[k].fits());
                        }
                    }
                }
                Some(i)
            },
        }
    }

    /// Takes the next batch from the queue of the writer at `writer`:
    /// records leave the queue, oldest first, until the batch holds
    /// [`BATCH_SIZE`] bytes or the queue is empty.
    pub fn take_batch(&mut self, writer: usize) -> (batch: WriteBatch)
        requires
            old(self).wf(),
            writer < old(self)@.writers.len(),
        ensures
            final(self).wf(),
            final(self)@ == old(self)@.take_batch(writer as int),
            batch.wf(),
            batch@.segments == all_pieces(old(self)@.batch_of(writer as int)),
            batch@.pending() == encodings(old(self)@.batch_of(writer as int)),
            batch@.size == batch@.pending().len(),
            batch@.records == old(self)@.batch_of(writer as int).len(),
            batch@.sync == (old(self)@.writers[writer as int].mode == WalMode::Sync),
    {
        proof {
            self.lemma_inv();
        }
        let sync = match self.per_prefix[writer].mode {
            WalMode::Sync => true,
            _ => false,
        };
        let mut batch = WriteBatch::new(sync);
        let ghost before = self@;
        let ghost queue = before.writers[writer as int].queue;
        let mut i: usize = 0;
        proof {
            assert(queue.skip(0) =~= queue);
            assert(encodings(queue.take(0)) =~= Seq::<u8>::empty());
            assert(all_pieces(queue.take(0)) =~= Seq::<Seq<u8>>::empty());
            assert(crate::batch::flat(Seq::<Seq<u8>>::empty()) =~= Seq::<u8>::empty());
        }
        while i < self.per_prefix[writer].to_write.len() && batch.size() < BATCH_SIZE
            invariant
                writer < self.per_prefix.len(),
                self@ == before,
                queue == before.writers[writer as int].queue,
                self.wf(),
                before.inv(),
                batch.wf(),
                i <= queue.len(),
                batch@.sync == sync,
                batch@.records == i,
                batch@.size == batch@.pending().len(),
                batch@.size >= 16 * i,
                batch@.segments.len() <= 3 * i,
                batch@.pending() == encodings(queue.take(i as int)),
                batch@.segments == all_pieces(queue.take(i as int)),
                batch_len(queue, 0) == i + batch_len(queue.skip(i as int), batch@.size),
            decreases queue.len() - i,
        {
            let rec = &self.per_prefix[writer].to_write[i];
            proof {
                assert(rec@ == queue[i as int]);
                assert(queue[i as int].fits());
                assert(queue.skip(i as int).drop_first() =~= queue.skip(i + 1));
                assert(queue.take(i + 1).drop_last() =~= queue.take(i as int));
                crate::wal::lemma_read_back(rec@, Seq::empty(), Seq::empty());
            }
            batch.push_record(rec);
            i = i + 1;
        }
        proof {
            lemma_batch_len_bounds(queue.skip(i as int), batch@.size);
            if i < queue.len() {
                assert(batch_len(queue.skip(i as int), batch@.size) == 0);
            } else {
                assert(queue.skip(i as int).len() == 0);
            }
            assert(batch_len(queue, 0) == i);
        }
        if i > 0 {
            let rest = self.per_prefix[writer].to_write.split_off(i);
            self.per_prefix[writer].to_write = rest;
        }
        proof {
            let want = before.take_batch(writer as int);
            assert(self@.writers[writer as int].queue =~= queue.skip(i as int));
            assert(self@.writers =~= want.writers);
            assert(writer_names(self.per_prefix@) =~= writer_names(old(self).per_prefix@));
            assert forall|w: int, k: int|
                0 <= w < self@.writers.len() && 0 <= k < self@.writers[w].queue.len() implies (
            #[trigger] self@.writers[w].queue[k]).fits() by {
                if w == writer {
                    assert(before.writers[w].queue[k + i].fits());
                } else {
                    assert(before.writers[w].queue[k].fits());
                }
            }
        }
        batch
    }
}

} // verus!
