//! Reading the logs back: the records of every file, merged into one list
//! in the order of their revisions.

use crate::wal::{parse, WalError, WalRecord, WalRecordView};
use vstd::prelude::*;

verus! {

/// The records of `buf` from position `at` on, or the error that reading
/// them runs into.
pub open spec fn records_from(buf: Seq<u8>, at: int) -> Result<Seq<WalRecordView>, WalError>
    decreases buf.len() - at,
{
    match parse(buf, at) {
        Ok(None) => Ok(Seq::empty()),
        Err(e) => Err(e),
        Ok(Some((r, next))) => {
            if next <= at {
                Ok(Seq::empty())
            } else {
                match records_from(buf, next) {
                    Ok(rest) => Ok(seq![r] + rest),
                    Err(e) => Err(e),
                }
            }
        },
    }
}

/// Mathematical model of a list of records.
pub open spec fn records_view(records: Seq<WalRecord>) -> Seq<WalRecordView> {
    records.map_values(|r: WalRecord| r@)
}

/// Mathematical model of the lists of records of several files.
pub open spec fn lists_view(lists: Seq<Vec<WalRecord>>) -> Seq<Seq<WalRecordView>> {
    lists.map_values(|l: Vec<WalRecord>| records_view(l@))
}

/// Mathematical model of what reading a log returns.
pub open spec fn read_view(r: Result<Vec<WalRecord>, WalError>) -> Result<
    Seq<WalRecordView>,
    WalError,
> {
    match r {
        Ok(records) => Ok(records_view(records@)),
        Err(e) => Err(e),
    }
}

/// Reads every record of a log file.
pub fn read_all(buf: &[u8]) -> (r: Result<Vec<WalRecord>, WalError>)
    ensures
        read_view(r) == records_from(buf@, 0),
{
    let mut out: Vec<WalRecord> = Vec::new();
    let mut at: usize = 0;
    assert(records_view(out@) =~= Seq::<WalRecordView>::empty());
    loop
        invariant
            at <= buf.len(),
            records_from(buf@, 0) == match records_from(buf@, at as int) {
                Ok(rest) => Ok::<Seq<WalRecordView>, WalError>(records_view(out@) + rest),
                Err(e) => Err(e),
            },
        decreases buf.len() - at,
    {
        match WalRecord::read_from(buf, at) {
            Ok(Some((rec, next))) => {
                proof {
                    match records_from(buf@, next as int) {
                        Ok(rest) => {
                            assert(records_view(out@.push(rec)) + rest =~= records_view(out@) + (
                            seq![rec@] + rest));
                        },
                        Err(_) => {},
                    }
                }
                out.push(rec);
                at = next;
            },
            Ok(None) => {
                assert(records_view(out@) + Seq::<WalRecordView>::empty() =~= records_view(out@));
                return Ok(out);
            },
            Err(e) => {
                return Err(e);
            },
        }
    }
}

/// The next record of file `f`, where it has one left.
pub open spec fn has_next(lists: Seq<Seq<WalRecordView>>, cursors: Seq<int>, f: int) -> bool {
    0 <= cursors[f] < lists[f].len()
}

/// Among the first `n` files, the one whose next record has the least
/// revision, the first of them where several have it; `None` where none of
/// them has a record left.
pub open spec fn least(lists: Seq<Seq<WalRecordView>>, cursors: Seq<int>, n: int) -> Option<int>
    decreases n,
{
    if n <= 0 {
        None
    } else {
        let before = least(lists, cursors, n - 1);
        if has_next(lists, cursors, n - 1) {
            match before {
                Some(b) => if lists[n - 1][cursors[n - 1]].rev < lists[b][cursors[b]].rev {
                    Some(n - 1)
                } else {
                    Some(b)
                },
                None => Some(n - 1),
            }
        } else {
            before
        }
    }
}

/// The number of records that the first `n` files have left.
pub open spec fn left(lists: Seq<Seq<WalRecordView>>, cursors: Seq<int>, n: int) -> int
    decreases n,
{
    if n <= 0 {
        0
    } else {
        left(lists, cursors, n - 1) + if has_next(lists, cursors, n - 1) {
            lists[n - 1].len() - cursors[n - 1]
        } else {
            0
        }
    }
}

/// The records that are left, merged: at each step the record with the
/// least revision among the next records of the files leaves.
pub open spec fn merged(lists: Seq<Seq<WalRecordView>>, cursors: Seq<int>, fuel: int) -> Seq<
    WalRecordView,
>
    decreases fuel,
{
    if fuel <= 0 {
        Seq::empty()
    } else {
        match least(lists, cursors, lists.len() as int) {
            Some(b) => seq![lists[b][cursors[b]]] + merged(
                lists,
                cursors.update(b, cursors[b] + 1),
                fuel - 1,
            ),
            None => Seq::empty(),
        }
    }
}

/// The records of each file, or the error that reading them runs into.
pub open spec fn all_records(files: Seq<Seq<u8>>) -> Result<Seq<Seq<WalRecordView>>, WalError> {
    if exists|f: int| 0 <= f < files.len() && (#[trigger] records_from(files[f], 0)) is Err {
        Err(WalError::UnexpectedEof)
    } else {
        Ok(Seq::new(files.len(), |f: int| records_from(files[f], 0).unwrap()))
    }
}

/// The positions before anything has left: the start of each of `n` files.
pub open spec fn at_start(n: nat) -> Seq<int> {
    Seq::new(n, |f: int| 0int)
}

/// The order in which the records of the files are replayed.
pub open spec fn replay_order(files: Seq<Seq<u8>>) -> Result<Seq<WalRecordView>, WalError> {
    match all_records(files) {
        Ok(lists) => {
            let start = at_start(lists.len());
            Ok(merged(lists, start, left(lists, start, lists.len() as int)))
        },
        Err(e) => Err(e),
    }
}

proof fn lemma_least(lists: Seq<Seq<WalRecordView>>, cursors: Seq<int>, n: int)
    requires
        0 <= n <= lists.len(),
        cursors.len() == lists.len(),
    ensures
        least(lists, cursors, n) matches Some(b) ==> 0 <= b < n && has_next(lists, cursors, b),
        least(lists, cursors, n) matches Some(b) ==> forall|f: int|
            0 <= f < n && has_next(lists, cursors, f) ==> lists[b][cursors[b]].rev
                <= lists[f][cursors[f]].rev,
        least(lists, cursors, n) is None ==> forall|f: int|
            0 <= f < n ==> !has_next(lists, cursors, f),
        least(lists, cursors, n) is None ==> left(lists, cursors, n) == 0,
        least(lists, cursors, n) is Some ==> left(lists, cursors, n) >= 1,
        left(lists, cursors, n) >= 0,
    decreases n,
{
    if n > 0 {
        lemma_least(lists, cursors, n - 1);
    }
}

proof fn lemma_left_advance(lists: Seq<Seq<WalRecordView>>, cursors: Seq<int>, n: int, b: int)
    requires
        0 <= n <= lists.len(),
        cursors.len() == lists.len(),
        0 <= b < lists.len(),
        has_next(lists, cursors, b),
    ensures
        left(lists, cursors.update(b, cursors[b] + 1), n) == left(lists, cursors, n) - if b < n {
            1int
        } else {
            0int
        },
    decreases n,
{
    if n > 0 {
        lemma_left_advance(lists, cursors, n - 1, b);
    }
}

/// The revisions of a list of records do not descend.
pub open spec fn ascends(records: Seq<WalRecordView>) -> bool {
    forall|i: int, j: int| 0 <= i < j < records.len() ==> records[i].rev <= records[j].rev
}

/// The positions lie within the lists.
pub open spec fn within_lists(lists: Seq<Seq<WalRecordView>>, cursors: Seq<int>) -> bool {
    &&& cursors.len() == lists.len()
    &&& forall|f: int| 0 <= f < lists.len() ==> 0 <= #[trigger] cursors[f] <= lists[f].len()
}

/// Where no next record of a file is of a revision below `floor`, and the
/// revisions of no file descend, no record of the merged list is of a
/// revision below `floor`.
proof fn lemma_merged_above(
    lists: Seq<Seq<WalRecordView>>,
    cursors: Seq<int>,
    fuel: int,
    floor: int,
)
    requires
        within_lists(lists, cursors),
        forall|f: int| 0 <= f < lists.len() ==> ascends(#[trigger] lists[f]),
        forall|f: int|
            0 <= f < lists.len() && has_next(lists, cursors, f) ==> (#[trigger] lists[f])[cursors[f]].rev
                >= floor,
    ensures
        forall|i: int|
            0 <= i < merged(lists, cursors, fuel).len() ==> (#[trigger] merged(
                lists,
                cursors,
                fuel,
            )[i]).rev >= floor,
    decreases fuel,
{
    if fuel > 0 {
        lemma_least(lists, cursors, lists.len() as int);
        match least(lists, cursors, lists.len() as int) {
            Some(b) => {
                let next = cursors.update(b, cursors[b] + 1);
                assert forall|f: int|
                    0 <= f < lists.len() && has_next(lists, next, f) implies (
                #[trigger] lists[f])[next[f]].rev >= floor by {
                    if f == b {
                        assert(ascends(lists[b]));
                        assert(lists[b][cursors[b]].rev <= lists[b][cursors[b] + 1].rev);
                    } else {
                        assert(has_next(lists, cursors, f));
                    }
                }
                lemma_merged_above(lists, next, fuel - 1, floor);
                let rest = merged(lists, next, fuel - 1);
                let all = merged(lists, cursors, fuel);
                assert forall|i: int| 0 <= i < all.len() implies (#[trigger] all[i]).rev
                    >= floor by {
                    if i > 0 {
                        assert(all[i] == rest[i - 1]);
                    }
                }
            },
            None => {},
        }
    }
}

/// Where the revisions of no file descend, the revisions of the merged
/// list do not descend: the records are replayed in the order of their
/// revisions.
pub proof fn lemma_merged_ascends(lists: Seq<Seq<WalRecordView>>, cursors: Seq<int>, fuel: int)
    requires
        within_lists(lists, cursors),
        forall|f: int| 0 <= f < lists.len() ==> ascends(#[trigger] lists[f]),
    ensures
        ascends(merged(lists, cursors, fuel)),
    decreases fuel,
{
    if fuel > 0 {
        lemma_least(lists, cursors, lists.len() as int);
        match least(lists, cursors, lists.len() as int) {
            Some(b) => {
                let next = cursors.update(b, cursors[b] + 1);
                let first = lists[b][cursors[b]];
                assert forall|f: int|
                    0 <= f < lists.len() && has_next(lists, next, f) implies (
                #[trigger] lists[f])[next[f]].rev >= first.rev by {
                    if f == b {
                        assert(ascends(lists[b]));
                        assert(lists[b][cursors[b]].rev <= lists[b][cursors[b] + 1].rev);
                    } else {
                        assert(has_next(lists, cursors, f));
                    }
                }
                lemma_merged_above(lists, next, fuel - 1, first.rev as int);
                lemma_merged_ascends(lists, next, fuel - 1);
                let rest = merged(lists, next, fuel - 1);
                let all = merged(lists, cursors, fuel);
                assert forall|i: int, j: int| 0 <= i < j < all.len() implies all[i].rev
                    <= all[j].rev by {
                    assert(all[j] == rest[j - 1]);
                    if i > 0 {
                        assert(all[i] == rest[i - 1]);
                    }
                }
            },
            None => {},
        }
    }
}

/// The positions as numbers.
pub open spec fn cursors_view(cursors: Seq<usize>) -> Seq<int> {
    cursors.map_values(|c: usize| c as int)
}

/// Merges the records of several files into one list: at each step the
/// record with the least revision among the next records of the files
/// leaves, from the first such file where several have it.
pub fn merge(lists: &Vec<Vec<WalRecord>>) -> (out: Vec<WalRecord>)
    ensures
        records_view(out@) == merged(
            lists_view(lists@),
            at_start(lists.len() as nat),
            left(lists_view(lists@), at_start(lists.len() as nat), lists.len() as int),
        ),
{
    let ghost all = lists_view(lists@);
    let ghost start = at_start(lists.len() as nat);
    let mut cursors: Vec<usize> = Vec::new();
    let mut f: usize = 0;
    while f < lists.len()
        invariant
            f <= lists.len(),
            cursors.len() == f,
            forall|i: int| 0 <= i < f ==> cursors[i] == 0,
        decreases lists.len() - f,
    {
        cursors.push(0);
        f = f + 1;
    }
    assert(cursors_view(cursors@) =~= start);
    let mut out: Vec<WalRecord> = Vec::new();
    assert(records_view(out@) =~= Seq::<WalRecordView>::empty());
    loop
        invariant
            all == lists_view(lists@),
            start == at_start(lists.len() as nat),
            cursors.len() == lists.len(),
            forall|i: int| 0 <= i < lists.len() ==> cursors[i] <= lists[i].len(),
            merged(all, start, left(all, start, all.len() as int)) == records_view(out@) + merged(
                all,
                cursors_view(cursors@),
                left(all, cursors_view(cursors@), all.len() as int),
            ),
        decreases left(all, cursors_view(cursors@), all.len() as int),
    {
        let ghost cv = cursors_view(cursors@);
        // the file whose next record has the least revision
        let mut best: Option<usize> = None;
        let mut i: usize = 0;
        while i < lists.len()
            invariant
                i <= lists.len(),
                all == lists_view(lists@),
                cv == cursors_view(cursors@),
                cursors.len() == lists.len(),
                forall|k: int| 0 <= k < lists.len() ==> cursors[k] <= lists[k].len(),
                match best {
                    Some(b) => least(all, cv, i as int) == Some(b as int) && b < i && cursors[b as int]
                        < lists[b as int].len(),
                    None => least(all, cv, i as int) is None,
                },
            decreases lists.len() - i,
        {
            proof {
                assert(has_next(all, cv, i as int) == (cursors[i as int] < lists[i as int].len()));
            }
            if cursors[i] < lists[i].len() {
                let better = match best {
                    Some(b) => {
                        proof {
                            assert(all[i as int][cv[i as int]] == lists[i as int][cursors[i as int] as int]@);
                            assert(all[b as int][cv[b as int]] == lists[b as int][cursors[b as int] as int]@);
                        }
                        lists[i][cursors[i]].rev < lists[b][cursors[b]].rev
                    },
                    None => true,
                };
                if better {
                    best = Some(i);
                }
            }
            i = i + 1;
        }
        proof {
            lemma_least(all, cv, all.len() as int);
        }
        match best {
            Some(b) => {
                let rec = lists[b][cursors[b]].clone();
                proof {
                    assert(all[b as int][cv[b as int]] == rec@);
                    lemma_left_advance(all, cv, all.len() as int, b as int);
                }
                let ghost sent = records_view(out@);
                out.push(rec);
                let at = cursors[b];
                cursors[b] = at + 1;
                proof {
                    assert(cursors_view(cursors@) =~= cv.update(b as int, cv[b as int] + 1));
                    assert(records_view(out@) =~= sent.push(rec@));
                    let rest = merged(
                        all,
                        cursors_view(cursors@),
                        left(all, cursors_view(cursors@), all.len() as int),
                    );
                    assert(sent + (seq![rec@] + rest) =~= records_view(out@) + rest);
                }
            },
            None => {
                proof {
                    assert(cv == cursors_view(cursors@));
                    assert(least(all, cv, all.len() as int) is None);
                    assert(left(all, cv, all.len() as int) == 0);
                    assert(merged(all, cv, left(all, cv, all.len() as int))
                        =~= Seq::<WalRecordView>::empty());
                    assert(records_view(out@) + Seq::<WalRecordView>::empty() =~= records_view(
                        out@,
                    ));
                    assert(all.len() == lists.len());
                }
                return out;
            },
        }
    }
}

/// Reads the logs of all prefixes, one file each, and returns their records
/// in the order in which they are replayed: merged by revision.  Fails
/// where a file ends in the middle of a record.
pub fn load_wal_dir(files: &Vec<Vec<u8>>) -> (r: Result<Vec<WalRecord>, WalError>)
    ensures
        read_view(r) == replay_order(files@.map_values(|f: Vec<u8>| f@)),
{
    let ghost bufs = files@.map_values(|f: Vec<u8>| f@);
    let mut lists: Vec<Vec<WalRecord>> = Vec::new();
    let mut f: usize = 0;
    while f < files.len()
        invariant
            f <= files.len(),
            bufs == files@.map_values(|f: Vec<u8>| f@),
            lists.len() == f,
            forall|i: int|
                0 <= i < f ==> (#[trigger] records_from(bufs[i], 0)) == Ok::<
                    Seq<WalRecordView>,
                    WalError,
                >(records_view(lists[i]@)),
        decreases files.len() - f,
    {
        match read_all(files[f].as_slice()) {
            Ok(records) => {
                lists.push(records);
            },
            Err(e) => {
                assert(records_from(bufs[f as int], 0) is Err);
                return Err(e);
            },
        }
        f = f + 1;
    }
    proof {
        assert(lists_view(lists@) =~= all_records(bufs).unwrap());
    }
    Ok(merge(&lists))
}

} // verus!
