//! A batch of records on its way to a file: the bytes that are still to be
//! written, held as the segments that a vectored write takes.

use crate::wal::{WalRecord, WalRecordView};
use vstd::prelude::*;
use vstd::slice::slice_subrange;

verus! {

/// The bytes of the segments, one after another.
pub open spec fn flat(segments: Seq<Seq<u8>>) -> Seq<u8>
    decreases segments.len(),
{
    if segments.len() == 0 {
        Seq::empty()
    } else {
        segments.first() + flat(segments.drop_first())
    }
}

pub proof fn lemma_flat_push(segments: Seq<Seq<u8>>, more: Seq<u8>)
    ensures
        flat(segments.push(more)) == flat(segments) + more,
    decreases segments.len(),
{
    reveal_with_fuel(flat, 2);
    if segments.len() > 0 {
        lemma_flat_push(segments.drop_first(), more);
        assert(segments.push(more).drop_first() =~= segments.drop_first().push(more));
        assert(flat(segments.push(more)) =~= flat(segments) + more);
    } else {
        assert(segments.push(more).drop_first() =~= Seq::<Seq<u8>>::empty());
        assert(flat(segments.push(more)) =~= flat(segments) + more);
    }
}

/// The segments that a record is written as: its header, its key, and its
/// value, without those that are empty.
pub open spec fn pieces(rec: WalRecordView) -> Seq<Seq<u8>> {
    seq![rec.header()] + if rec.key.len() > 0 {
        seq![rec.key]
    } else {
        Seq::empty()
    } + if rec.value_bytes().len() > 0 {
        seq![rec.value_bytes()]
    } else {
        Seq::empty()
    }
}

/// The segments that the records `records` are written as, one record
/// after another.
pub open spec fn all_pieces(records: Seq<WalRecordView>) -> Seq<Seq<u8>>
    decreases records.len(),
{
    if records.len() == 0 {
        Seq::empty()
    } else {
        all_pieces(records.drop_last()) + pieces(records.last())
    }
}

/// What is left of the segments when their first `n` bytes are written:
/// the segments that are written in full are gone, and the next one starts
/// where the writing stopped.
pub open spec fn cut(segments: Seq<Seq<u8>>, n: int) -> Seq<Seq<u8>>
    decreases segments.len(),
{
    if n <= 0 || segments.len() == 0 {
        segments
    } else if n >= segments.first().len() {
        cut(segments.drop_first(), n - segments.first().len())
    } else {
        segments.update(0, segments.first().skip(n))
    }
}

/// The bytes that stand for the records `records`, one after another.
pub open spec fn encodings(records: Seq<WalRecordView>) -> Seq<u8>
    decreases records.len(),
{
    if records.len() == 0 {
        Seq::empty()
    } else {
        encodings(records.drop_last()) + records.last().encoding()
    }
}

pub struct WriteBatch {
    /// Header, key and value of each record; none is empty.
    segments: Vec<Vec<u8>>,
    /// The first segment that is not written in full.
    first: usize,
    /// How much of that segment is written.
    skip: usize,
    /// The number of bytes that are still to be written.
    remaining: u64,
    /// The number of bytes that the batch was filled with.
    size: u64,
    /// The number of records in the batch.
    records: usize,
    /// The file is synced once the batch is written.
    sync: bool,
}

/// Mathematical model of a [`WriteBatch`].
pub struct WriteBatchView {
    /// What is still to be written, segment by segment; none is empty.
    pub segments: Seq<Seq<u8>>,
    /// The number of bytes that the batch was filled with.
    pub size: int,
    pub records: int,
    pub sync: bool,
}

impl WriteBatchView {
    /// The bytes that are still to be written.
    pub open spec fn pending(self) -> Seq<u8> {
        flat(self.segments)
    }

    /// One more record may join: nothing of the batch is written yet, and
    /// its size and its segments can still be counted.
    pub open spec fn accepts(self) -> bool {
        self.pending().len() == self.size && self.size <= 0x2000_0000_0000_0000 && self.segments.len()
            < usize::MAX - 3
    }
}

impl View for WriteBatch {
    type V = WriteBatchView;

    closed spec fn view(&self) -> WriteBatchView {
        WriteBatchView {
            segments: Seq::new(
                (self.segments.len() - self.first) as nat,
                |i: int|
                    if i == 0 {
                        self.segments[self.first as int]@.skip(self.skip as int)
                    } else {
                        self.segments[self.first + i]@
                    },
            ),
            size: self.size as int,
            records: self.records as int,
            sync: self.sync,
        }
    }
}

impl WriteBatch {
    pub closed spec fn wf(&self) -> bool {
        &&& self.first <= self.segments.len()
        &&& forall|i: int| 0 <= i < self.segments.len() ==> (#[trigger] self.segments[i]).len() > 0
        &&& if self.first < self.segments.len() {
            self.skip < self.segments[self.first as int].len()
        } else {
            self.skip == 0
        }
        &&& self.remaining == self@.pending().len()
        &&& self.remaining <= self.size
        &&& self.size <= 0x4000_0000_0000_0000
        &&& (self.remaining == self.size ==> self.first == 0 && self.skip == 0)
        &&& self.records <= self.segments.len()
    }

    /// No segment that is still to be written is empty.
    pub proof fn lemma_segments(&self)
        requires
            self.wf(),
        ensures
            forall|i: int| 0 <= i < self@.segments.len() ==> (#[trigger] self@.segments[i]).len() > 0,
            self@.pending().len() <= self@.size,
            self@.segments.len() == 0 <==> self@.pending().len() == 0,
    {
        if self@.segments.len() > 0 {
            assert(self@.segments.first().len() > 0);
        }
    }

    /// An empty batch.
    pub fn new(sync: bool) -> (b: Self)
        ensures
            b.wf(),
            b@ == (WriteBatchView { segments: Seq::empty(), size: 0, records: 0, sync }),
    {
        let b = WriteBatch {
            segments: Vec::new(),
            first: 0,
            skip: 0,
            remaining: 0,
            size: 0,
            records: 0,
            sync,
        };
        assert(b@.segments =~~= Seq::<Seq<u8>>::empty());
        b
    }

    /// The number of bytes that are still to be written.
    pub fn remaining(&self) -> (n: u64)
        requires
            self.wf(),
        ensures
            n == self@.pending().len(),
    {
        self.remaining
    }

    /// The number of bytes that the batch was filled with.
    pub fn size(&self) -> (n: u64)
        ensures
            n == self@.size,
    {
        self.size
    }

    /// The number of records in the batch.
    pub fn records(&self) -> (n: usize)
        ensures
            n == self@.records,
    {
        self.records
    }

    /// Whether the file is synced once the batch is written.
    pub fn needs_sync(&self) -> (b: bool)
        ensures
            b == self@.sync,
    {
        self.sync
    }

    /// Whether everything is written.
    pub fn is_done(&self) -> (b: bool)
        requires
            self.wf(),
        ensures
            b == (self@.pending().len() == 0),
    {
        self.remaining == 0
    }

    /// Whether one more record may join.
    pub fn accepts(&self) -> (b: bool)
        requires
            self.wf(),
        ensures
            b == self@.accepts(),
    {
        self.remaining == self.size && self.size <= 0x2000_0000_0000_0000 && self.segments.len()
            < usize::MAX - 3
    }

    /// Adds a record behind those that the batch holds.  Returns whether it
    /// was added: a record whose lengths do not fit the format is left out.
    pub fn push_record(&mut self, rec: &WalRecord) -> (added: bool)
        requires
            old(self).wf(),
            old(self)@.accepts(),
        ensures
            final(self).wf(),
            added == rec@.fits(),
            added ==> final(self)@.segments == old(self)@.segments + pieces(rec@),
            added ==> final(self)@.pending() == old(self)@.pending() + rec@.encoding(),
            added ==> final(self)@.size == old(self)@.size + rec@.encoding().len(),
            added ==> final(self)@.records == old(self)@.records + 1,
            final(self)@.sync == old(self)@.sync,
            !added ==> final(self)@ == old(self)@,
            final(self)@.pending().len() == final(self)@.size,
            final(self)@.segments.len() <= old(self)@.segments.len() + 3,
    {
        let header = match rec.header() {
            Some(h) => h,
            None => {
                return false;
            },
        };
        let ghost before = self@.segments;
        let mut added_bytes: u64 = 16;
        proof {
            lemma_flat_push(before, header@);
        }
        self.segments.push(header);
        assert(self@.segments =~~= before.push(header@));
        if rec.key.len() > 0 {
            added_bytes = added_bytes + rec.key.len() as u64;
            let key = rec.key.clone();
            let ghost mid = self@.segments;
            proof {
                lemma_flat_push(mid, key@);
            }
            self.segments.push(key);
            assert(self@.segments =~~= mid.push(key@));
        }
        match &rec.value {
            Some(v) => {
                if v.len() > 0 {
                    added_bytes = added_bytes + v.len() as u64;
                    let value = v.clone();
                    let ghost mid = self@.segments;
                    proof {
                        lemma_flat_push(mid, value@);
                    }
                    self.segments.push(value);
                    assert(self@.segments =~~= mid.push(value@));
                }
            },
            None => {},
        }
        assert(self@.pending() =~= flat(before) + rec@.encoding());
        assert(self@.segments =~= before + pieces(rec@));
        let ghost filled = self@.segments;
        self.remaining = self.remaining + added_bytes;
        self.size = self.size + added_bytes;
        self.records = self.records + 1;
        assert(self@.segments =~~= filled);
        true
    }

    /// The number of segments that are still to be written.
    pub fn segment_count(&self) -> (n: usize)
        requires
            self.wf(),
        ensures
            n == self@.segments.len(),
    {
        self.segments.len() - self.first
    }

    /// The `i`-th of the segments that are still to be written.
    pub fn segment(&self, i: usize) -> (s: &[u8])
        requires
            self.wf(),
            i < self@.segments.len(),
        ensures
            s@ == self@.segments[i as int],
    {
        let seg = &self.segments[self.first + i];
        if i == 0 {
            slice_subrange(seg.as_slice(), self.skip, seg.len())
        } else {
            seg.as_slice()
        }
    }

    /// Takes note that the next `wrote` bytes are written.
    pub fn advance(&mut self, wrote: usize)
        requires
            old(self).wf(),
            wrote <= old(self)@.pending().len(),
        ensures
            final(self).wf(),
            final(self)@.segments == cut(old(self)@.segments, wrote as int),
            final(self)@.pending() == old(self)@.pending().skip(wrote as int),
            final(self)@.size == old(self)@.size,
            final(self)@.records == old(self)@.records,
            final(self)@.sync == old(self)@.sync,
    {
        let mut left = wrote;
        assert(self@.pending() =~= old(self)@.pending().skip(0));
        while left > 0
            invariant
                left <= wrote,
                left == wrote ==> self.first == old(self).first && self.skip == old(self).skip,
                self.first <= self.segments.len(),
                self.segments == old(self).segments,
                self.size == old(self).size,
                self.records == old(self).records,
                self.sync == old(self).sync,
                self.remaining == old(self).remaining,
                forall|i: int|
                    0 <= i < self.segments.len() ==> (#[trigger] self.segments[i]).len() > 0,
                if self.first < self.segments.len() {
                    self.skip < self.segments[self.first as int].len()
                } else {
                    self.skip == 0
                },
                old(self).wf(),
                wrote <= old(self)@.pending().len(),
                self@.pending() == old(self)@.pending().skip(wrote - left),
                cut(old(self)@.segments, wrote as int) == cut(self@.segments, left as int),
            decreases left,
        {
            let ghost now = self@.segments;
            assert(self.first < self.segments.len()) by {
                if self.first >= self.segments.len() {
                    assert(now =~= Seq::<Seq<u8>>::empty());
                }
            }
            let rest = self.segments[self.first].len() - self.skip;
            assert(now.first().len() == rest);
            if left >= rest {
                left = left - rest;
                self.first = self.first + 1;
                self.skip = 0;
                assert(self@.segments =~~= now.drop_first());
                assert(self@.pending() =~= flat(now).skip(rest as int));
            } else {
                self.skip = self.skip + left;
                assert(self@.segments.drop_first() =~~= now.drop_first());
                assert(self@.segments.first() =~= now.first().skip(left as int));
                assert(self@.pending() =~= flat(now).skip(left as int));
                assert(self@.segments =~~= now.update(0, now.first().skip(left as int)));
                left = 0;
            }
        }
        let ghost left_over = self@.segments;
        self.remaining = self.remaining - wrote as u64;
        assert(self@.segments =~~= left_over);
    }
}

} // verus!
