//! Notifications of writes on their way to the watchers.
//!
//! Writers hand their notifications in as they finish, which need not be in
//! the order of their revisions.  The notifier puts them back in order: a
//! notification that is ahead of its turn waits in the spool until every
//! earlier one has been dispatched.  Each notification that is dispatched
//! is first handed to the write-ahead log.

use crate::buffer::{bytes_len, bytes_to_vec};
use crate::model::NotifyJobView;
use crate::ordered::lemma_filter_stretch;
use crate::types::KeyValueWithPrev;
use crate::wal::WalRecordView;
use crate::wal_manager::{WalManager, WalManagerView};
use vstd::prelude::*;

verus! {

/// The notification of one write: the change, and who is told of it.
#[derive(Debug)]
pub struct NotifyJob {
    pub rev: i64,
    /// The ids of the watchers that are told.
    pub watchers: Vec<i64>,
    pub msg: KeyValueWithPrev,
    /// The prefix of the key that was written.
    pub prefix: Vec<u8>,
    /// The writer waits until the record has been synced.
    pub wal_sync: bool,
}

impl View for NotifyJob {
    type V = NotifyJobView;

    open spec fn view(&self) -> NotifyJobView {
        NotifyJobView {
            rev: self.rev,
            watchers: self.watchers@,
            msg: self.msg@,
            prefix: self.prefix@,
            wal_sync: self.wal_sync,
        }
    }
}

/// Mathematical model of a list of notifications.
pub open spec fn jobs_view(jobs: Seq<NotifyJob>) -> Seq<NotifyJobView> {
    jobs.map_values(|j: NotifyJob| j@)
}

/// The record that the log gets for a notification.  A change to an empty
/// value is recorded as a deletion.
pub open spec fn wal_record(job: NotifyJobView) -> WalRecordView {
    WalRecordView {
        rev: job.rev,
        key: job.msg.kv.key,
        value: if job.msg.kv.value.len() == 0 {
            None
        } else {
            Some(job.msg.kv.value)
        },
    }
}

/// The log after the notifications `jobs` have been handed to it, in order.
pub open spec fn logged(wal: Option<WalManagerView>, jobs: Seq<NotifyJobView>) -> Option<
    WalManagerView,
>
    decreases jobs.len(),
{
    if jobs.len() == 0 {
        wal
    } else {
        match logged(wal, jobs.drop_last()) {
            Some(w) => Some(w.append(jobs.last().prefix, wal_record(jobs.last()))),
            None => None,
        }
    }
}

/// The writer of the log that has the record of the `i`-th of the
/// notifications `jobs`, which are handed to the log `wal` in order; `None`
/// where the log does not take the record in, or there is no log.
pub open spec fn writer_for(wal: Option<WalManagerView>, jobs: Seq<NotifyJobView>, i: int) -> Option<
    usize,
> {
    match logged(wal, jobs.take(i)) {
        Some(w) => w.append_answer(jobs[i].prefix, wal_record(jobs[i])),
        None => None,
    }
}

/// The writers of the log that have the records of the first `n` of the
/// notifications `jobs`.
pub open spec fn writers(wal: Option<WalManagerView>, jobs: Seq<NotifyJobView>, n: int) -> Seq<
    Option<usize>,
> {
    Seq::new(n as nat, |i: int| writer_for(wal, jobs, i))
}

/// Handing one more notification to the log is one more step of handing
/// the notifications to it in order.
proof fn lemma_dispatch_step(
    wal: Option<WalManagerView>,
    all: Seq<NotifyJobView>,
    sent: Seq<NotifyJobView>,
    next: NotifyJobView,
)
    requires
        all.len() > sent.len(),
        all.take(sent.len() as int) == sent,
        all[sent.len() as int] == next,
    ensures
        logged(logged(wal, sent), seq![next]) == logged(wal, sent.push(next)),
        writer_for(logged(wal, sent), seq![next], 0) == writer_for(wal, all, sent.len() as int),
        writers(wal, all, sent.len() as int + 1) == writers(wal, all, sent.len() as int).push(
            writer_for(wal, all, sent.len() as int),
        ),
{
    reveal_with_fuel(logged, 2);
    assert(sent.push(next).drop_last() =~= sent);
    assert(seq![next].drop_last() =~= Seq::<NotifyJobView>::empty());
    assert(seq![next].take(0) =~= Seq::<NotifyJobView>::empty());
    assert(writers(wal, all, sent.len() as int + 1) =~= writers(wal, all, sent.len() as int).push(
        writer_for(wal, all, sent.len() as int),
    ));
}

/// A notification that is dispatched, with the writer of the log that has
/// its record.
#[derive(Debug)]
pub struct Dispatched {
    pub job: NotifyJob,
    pub writer: Option<usize>,
}

/// The writers of a list of dispatches.
pub open spec fn writers_of(out: Seq<Dispatched>) -> Seq<Option<usize>> {
    out.map_values(|d: Dispatched| d.writer)
}

/// The notifications of a list of dispatches.
pub open spec fn dispatched_jobs(out: Seq<Dispatched>) -> Seq<NotifyJobView> {
    out.map_values(|d: Dispatched| d.job@)
}

/// The test that a notification is of a revision above `rev`.
pub open spec fn is_above(rev: i64) -> spec_fn(NotifyJobView) -> bool {
    |j: NotifyJobView| j.rev > rev
}

/// The spool with `job` added: behind the notifications of later
/// revisions, before the others.
pub open spec fn spooled(spool: Seq<NotifyJobView>, job: NotifyJobView) -> Seq<NotifyJobView> {
    spool.insert(spool.filter(is_above(job.rev)).len() as int, job)
}

/// The notifications at the end of the spool whose turn has come when
/// `next` is the next revision: the last, if it is of revision `next`, then
/// the one before it, if it is of the revision after that, and so on.
pub open spec fn ready(spool: Seq<NotifyJobView>, next: int) -> Seq<NotifyJobView>
    decreases spool.len(),
{
    if spool.len() > 0 && spool.last().rev == next {
        seq![spool.last()] + ready(spool.drop_last(), next + 1)
    } else {
        Seq::empty()
    }
}

/// Mathematical model of a [`Notifier`].
pub struct NotifierView {
    /// The revision whose turn is next.
    pub next_rev: i64,
    /// The notifications that wait for their turn, the earliest revision
    /// last.
    pub spool: Seq<NotifyJobView>,
    /// The last revision that was dispatched.
    pub progress_rev: i64,
    pub wal: Option<WalManagerView>,
}

impl NotifierView {
    /// The notifications that are dispatched when `job` comes in, in the
    /// order of dispatch: none where `job` is ahead of its turn, else `job`
    /// and, from the spool, those whose turn follows.
    pub open spec fn dispatched(self, job: NotifyJobView) -> Seq<NotifyJobView> {
        if job.rev > self.next_rev {
            Seq::empty()
        } else {
            seq![job] + ready(self.spool, self.next_rev + 1)
        }
    }

    /// The notifier after `job` has come in.
    pub open spec fn receive(self, job: NotifyJobView) -> NotifierView {
        if job.rev > self.next_rev {
            NotifierView { spool: spooled(self.spool, job), ..self }
        } else {
            let out = self.dispatched(job);
            NotifierView {
                next_rev: (self.next_rev + out.len()) as i64,
                spool: self.spool.take(self.spool.len() - (out.len() - 1)),
                progress_rev: (self.next_rev + out.len() - 1) as i64,
                wal: logged(self.wal, out),
            }
        }
    }

    /// The revisions fit the machine's integers whatever is dispatched.
    pub open spec fn can_receive(self) -> bool {
        self.next_rev + self.spool.len() < i64::MAX
    }

    /// The spool holds each revision once, the earliest last, and none
    /// whose turn has come.
    pub open spec fn in_turn(self) -> bool {
        &&& forall|i: int, j: int|
            0 <= i < j < self.spool.len() ==> (#[trigger] self.spool[i]).rev > (
            #[trigger] self.spool[j]).rev
        &&& forall|i: int| 0 <= i < self.spool.len() ==> (#[trigger] self.spool[i]).rev
            > self.next_rev
    }

    /// The spool holds a notification of revision `rev`.
    pub open spec fn holds(self, rev: i64) -> bool {
        exists|i: int| 0 <= i < self.spool.len() && (#[trigger] self.spool[i]).rev == rev
    }
}

/// The notifications whose turn has come are the last of the spool, of
/// consecutive revisions from `next` on, and the one before them is not of
/// the revision that follows.
pub proof fn lemma_ready(spool: Seq<NotifyJobView>, next: int)
    ensures
        ready(spool, next).len() <= spool.len(),
        forall|i: int|
            0 <= i < ready(spool, next).len() ==> (#[trigger] ready(spool, next)[i]) == spool[spool.len()
                - 1 - i] && ready(spool, next)[i].rev == next + i,
        ready(spool, next).len() < spool.len() ==> spool[spool.len() - 1 - ready(
            spool,
            next,
        ).len()].rev != next + ready(spool, next).len(),
    decreases spool.len(),
{
    if spool.len() > 0 && spool.last().rev == next {
        let front = spool.drop_last();
        lemma_ready(front, next + 1);
        let r = ready(spool, next);
        let sub = ready(front, next + 1);
        assert forall|i: int| 0 <= i < r.len() implies (#[trigger] r[i]) == spool[spool.len() - 1
            - i] && r[i].rev == next + i by {
            if i > 0 {
                assert(r[i] == sub[i - 1]);
                assert(sub[i - 1] == front[front.len() - 1 - (i - 1)]);
            }
        }
        if r.len() < spool.len() {
            assert(front[front.len() - 1 - sub.len()] == spool[spool.len() - 1 - r.len()]);
        }
    }
}

/// Where each revision comes in once and none comes in after its turn,
/// the notifications leave in the order of their revisions, none left out
/// and none twice: what is dispatched when a notification comes in are the
/// revisions from the one whose turn was next on, one by one.
pub proof fn lemma_dispatch_in_order(s: NotifierView, job: NotifyJobView)
    requires
        s.in_turn(),
        s.can_receive(),
        job.rev >= s.next_rev,
        !s.holds(job.rev),
    ensures
        s.receive(job).in_turn(),
        s.receive(job).next_rev == s.next_rev + s.dispatched(job).len(),
        forall|i: int|
            0 <= i < s.dispatched(job).len() ==> (#[trigger] s.dispatched(job)[i]).rev
                == s.next_rev + i,
        s.dispatched(job).len() > 0 ==> s.receive(job).progress_rev == s.receive(job).next_rev
            - 1,
        forall|rev: i64|
            s.receive(job).holds(rev) ==> (s.holds(rev) || rev == job.rev) && rev >= s.receive(
                job,
            ).next_rev,
{
    let t = s.receive(job);
    if job.rev > s.next_rev {
        lemma_spool_splits(s.spool, job.rev);
        let pos = s.spool.filter(is_above(job.rev)).len() as int;
        assert forall|i: int, j: int| 0 <= i < j < t.spool.len() implies (
        #[trigger] t.spool[i]).rev > (#[trigger] t.spool[j]).rev by {
            if j == pos {
                assert(t.spool[i] == s.spool[i]);
            } else if i == pos {
                assert(t.spool[j] == s.spool[j - 1]);
                assert(s.spool[j - 1].rev != job.rev);
            } else {
                let oi = if i < pos {
                    i
                } else {
                    i - 1
                };
                let oj = if j < pos {
                    j
                } else {
                    j - 1
                };
                assert(t.spool[i] == s.spool[oi] && t.spool[j] == s.spool[oj]);
            }
        }
        assert forall|i: int| 0 <= i < t.spool.len() implies (#[trigger] t.spool[i]).rev
            > t.next_rev by {
            if i < pos {
                assert(t.spool[i] == s.spool[i]);
            } else if i > pos {
                assert(t.spool[i] == s.spool[i - 1]);
            }
        }
        assert forall|rev: i64| t.holds(rev) implies (s.holds(rev) || rev == job.rev) && rev
            >= t.next_rev by {
            let i = choose|i: int| 0 <= i < t.spool.len() && (#[trigger] t.spool[i]).rev == rev;
            if i < pos {
                assert(t.spool[i] == s.spool[i]);
            } else if i > pos {
                assert(t.spool[i] == s.spool[i - 1]);
            }
        }
    } else {
        lemma_ready(s.spool, s.next_rev + 1);
        let r = ready(s.spool, s.next_rev + 1);
        let out = s.dispatched(job);
        assert forall|i: int| 0 <= i < out.len() implies (#[trigger] out[i]).rev == s.next_rev
            + i by {
            if i > 0 {
                assert(out[i] == r[i - 1]);
            }
        }
        assert forall|i: int| 0 <= i < t.spool.len() implies (#[trigger] t.spool[i]).rev
            > t.next_rev by {
            assert(t.spool[i] == s.spool[i]);
            let last = t.spool.len() - 1;
            assert(t.spool[last] == s.spool[last]);
            if i < last {
                assert(s.spool[i].rev > s.spool[last].rev);
            }
            if r.len() > 0 {
                assert(r[r.len() - 1] == s.spool[s.spool.len() - 1 - (r.len() - 1)]);
                assert(s.spool[last].rev > s.spool[last + 1].rev);
            }
        }
        assert forall|i: int, j: int| 0 <= i < j < t.spool.len() implies (
        #[trigger] t.spool[i]).rev > (#[trigger] t.spool[j]).rev by {
            assert(t.spool[i] == s.spool[i] && t.spool[j] == s.spool[j]);
        }
        assert forall|rev: i64| t.holds(rev) implies (s.holds(rev) || rev == job.rev) && rev
            >= t.next_rev by {
            let i = choose|i: int| 0 <= i < t.spool.len() && (#[trigger] t.spool[i]).rev == rev;
            assert(t.spool[i] == s.spool[i]);
        }
    }
}

/// The notifier after the notifications `jobs` have come in, in order.
pub open spec fn after_jobs(s: NotifierView, jobs: Seq<NotifyJobView>) -> NotifierView
    decreases jobs.len(),
{
    if jobs.len() == 0 {
        s
    } else {
        after_jobs(s, jobs.drop_last()).receive(jobs.last())
    }
}

/// Everything that is dispatched while the notifications `jobs` come in,
/// in the order of dispatch.
pub open spec fn all_dispatched(s: NotifierView, jobs: Seq<NotifyJobView>) -> Seq<NotifyJobView>
    decreases jobs.len(),
{
    if jobs.len() == 0 {
        Seq::empty()
    } else {
        all_dispatched(s, jobs.drop_last()) + after_jobs(s, jobs.drop_last()).dispatched(
            jobs.last(),
        )
    }
}

/// No notification of `jobs` comes in after its turn, or while another of
/// its revision waits.
pub open spec fn each_once(s: NotifierView, jobs: Seq<NotifyJobView>) -> bool
    decreases jobs.len(),
{
    jobs.len() > 0 ==> {
        &&& each_once(s, jobs.drop_last())
        &&& jobs.last().rev >= after_jobs(s, jobs.drop_last()).next_rev
        &&& !after_jobs(s, jobs.drop_last()).holds(jobs.last().rev)
    }
}

/// In whatever order the notifications come in, as long as each revision
/// comes in once, those that are dispatched are of revisions that ascend
/// one by one from the revision whose turn was first: the watchers are
/// told of every revision, in order, once.
pub proof fn lemma_dispatch_sequence(s: NotifierView, jobs: Seq<NotifyJobView>)
    requires
        s.in_turn(),
        each_once(s, jobs),
        s.next_rev + s.spool.len() + jobs.len() < i64::MAX,
    ensures
        after_jobs(s, jobs).in_turn(),
        after_jobs(s, jobs).next_rev == s.next_rev + all_dispatched(s, jobs).len(),
        after_jobs(s, jobs).next_rev + after_jobs(s, jobs).spool.len() <= s.next_rev
            + s.spool.len() + jobs.len(),
        forall|i: int|
            0 <= i < all_dispatched(s, jobs).len() ==> (#[trigger] all_dispatched(s, jobs)[i]).rev
                == s.next_rev + i,
    decreases jobs.len(),
{
    if jobs.len() > 0 {
        let front = jobs.drop_last();
        let mid = after_jobs(s, front);
        lemma_dispatch_sequence(s, front);
        lemma_dispatch_in_order(mid, jobs.last());
        lemma_ready(mid.spool, mid.next_rev + 1);
        let sofar = all_dispatched(s, front);
        let now = mid.dispatched(jobs.last());
        assert forall|i: int| 0 <= i < all_dispatched(s, jobs).len() implies (
        #[trigger] all_dispatched(s, jobs)[i]).rev == s.next_rev + i by {
            if i >= sofar.len() {
                assert(all_dispatched(s, jobs)[i] == now[i - sofar.len()]);
            } else {
                assert(all_dispatched(s, jobs)[i] == sofar[i]);
            }
        }
        if jobs.last().rev > mid.next_rev {
            lemma_spool_splits(mid.spool, jobs.last().rev);
        }
    }
}

/// In a spool that holds the earliest revision last, the notifications of
/// revisions above `rev` are the first ones, as many as there are.
pub proof fn lemma_spool_splits(spool: Seq<NotifyJobView>, rev: i64)
    requires
        forall|i: int, j: int|
            0 <= i < j < spool.len() ==> (#[trigger] spool[i]).rev >= (#[trigger] spool[j]).rev,
    ensures
        0 <= spool.filter(is_above(rev)).len() <= spool.len(),
        forall|i: int| 0 <= i < spool.filter(is_above(rev)).len() ==> (#[trigger] spool[i]).rev > rev,
        forall|i: int|
            spool.filter(is_above(rev)).len() <= i < spool.len() ==> (#[trigger] spool[i]).rev
                <= rev,
    decreases spool.len(),
{
    reveal(Seq::filter);
    if spool.len() > 0 {
        let front = spool.drop_last();
        let n = spool.len() - 1;
        assert forall|i: int, j: int| 0 <= i < j < front.len() implies (#[trigger] front[i]).rev
            >= (#[trigger] front[j]).rev by {
            assert(front[i] == spool[i] && front[j] == spool[j]);
        }
        lemma_spool_splits(front, rev);
        let r = front.filter(is_above(rev)).len() as int;
        if spool[n].rev > rev {
            assert forall|i: int| 0 <= i < spool.len() implies (is_above(rev)(#[trigger] spool[i])
                <==> 0 <= i < spool.len()) by {
                if i < n {
                    assert(spool[i].rev >= spool[n].rev);
                }
            }
            lemma_filter_stretch(spool, is_above(rev), 0, spool.len() as int);
        } else {
            assert forall|i: int| 0 <= i < spool.len() implies (is_above(rev)(#[trigger] spool[i])
                <==> 0 <= i < r) by {
                if i < n {
                    assert(front[i] == spool[i]);
                }
            }
            lemma_filter_stretch(spool, is_above(rev), 0, r);
        }
    }
}

pub struct Notifier {
    next_rev: i64,
    /// The notifications that wait for their turn, the earliest revision
    /// last.
    job_spool: Vec<NotifyJob>,
    progress_rev: i64,
    wal: Option<WalManager>,
}

/// Mathematical model of an optional log.
pub open spec fn opt_wal_view(wal: Option<WalManager>) -> Option<WalManagerView> {
    match wal {
        Some(w) => Some(w@),
        None => None,
    }
}

impl View for Notifier {
    type V = NotifierView;

    closed spec fn view(&self) -> NotifierView {
        NotifierView {
            next_rev: self.next_rev,
            spool: jobs_view(self.job_spool@),
            progress_rev: self.progress_rev,
            wal: opt_wal_view(self.wal),
        }
    }
}

impl Notifier {
    #[verifier::opaque]
    pub closed spec fn wf(&self) -> bool {
        &&& forall|i: int, j: int|
            0 <= i < j < self.job_spool.len() ==> (#[trigger] self.job_spool[i]).rev >= (
            #[trigger] self.job_spool[j]).rev
        &&& match self.wal {
            Some(w) => w.wf(),
            None => true,
        }
    }

    /// A notifier that waits for revision 1 and logs to `wal`.
    pub fn new(wal: Option<WalManager>) -> (n: Self)
        requires
            wal matches Some(w) ==> w.wf(),
        ensures
            n.wf(),
            n@ == (NotifierView {
                next_rev: 1,
                spool: Seq::empty(),
                progress_rev: 0,
                wal: opt_wal_view(wal),
            }),
    {
        let n = Notifier { next_rev: 1, job_spool: Vec::with_capacity(1024), progress_rev: 0, wal };
        assert(n@.spool =~= Seq::<NotifyJobView>::empty());
        reveal(Notifier::wf);
        n
    }

    /// The last revision that was dispatched.
    pub fn progress_revision(&self) -> (r: i64)
        ensures
            r == self@.progress_rev,
    {
        self.progress_rev
    }

    /// Whether the revisions fit the machine's integers whatever is
    /// dispatched next.
    pub fn can_receive(&self) -> (b: bool)
        ensures
            b == self@.can_receive(),
    {
        (self.next_rev as i128) + (self.job_spool.len() as i128) < (i64::MAX as i128)
    }

    /// Hands a notification to the log, if there is one, and returns the
    /// writer that has its record.
    fn log(&mut self, job: &NotifyJob) -> (writer: Option<usize>)
        requires
            old(self).wf(),
        ensures
            final(self).wf(),
            writer == match opt_wal_view(old(self).wal) {
                Some(w) => w.append_answer(job.prefix@, wal_record(job@)),
                None => None,
            },
            final(self).next_rev == old(self).next_rev,
            final(self).job_spool == old(self).job_spool,
            final(self).progress_rev == old(self).progress_rev,
            opt_wal_view(final(self).wal) == match opt_wal_view(old(self).wal) {
                Some(w) => Some(w.append(job.prefix@, wal_record(job@))),
                None => None,
            },
    {
        reveal(Notifier::wf);
        match &mut self.wal {
            Some(wal) => {
                let value = if bytes_len(&job.msg.kv.value) == 0 {
                    None
                } else {
                    Some(bytes_to_vec(&job.msg.kv.value))
                };
                match &value {
                    Some(v) => wal.append(
                        job.prefix.as_slice(),
                        job.rev,
                        job.msg.kv.key.as_slice(),
                        Some(v.as_slice()),
                    ),
                    None => wal.append(
                        job.prefix.as_slice(),
                        job.rev,
                        job.msg.kv.key.as_slice(),
                        None,
                    ),
                }
            },
            None => None,
        }
    }

    /// Puts a notification that is ahead of its turn into the spool.
    fn spool_job(&mut self, job: NotifyJob)
        requires
            old(self).wf(),
        ensures
            final(self).wf(),
            final(self)@ == (NotifierView {
                spool: spooled(old(self)@.spool, job@),
                ..old(self)@
            }),
    {
        reveal(Notifier::wf);
        let ghost s = self@;
        let mut pos: usize = 0;
        while pos < self.job_spool.len() && self.job_spool[pos].rev > job.rev
            invariant
                pos <= self.job_spool.len(),
                forall|i: int| 0 <= i < pos ==> (#[trigger] self.job_spool[i]).rev > job.rev,
            decreases self.job_spool.len() - pos,
        {
            pos = pos + 1;
        }
        proof {
            assert forall|i: int| 0 <= i < s.spool.len() implies (is_above(job.rev)(
                #[trigger] s.spool[i],
            ) <==> 0 <= i < pos) by {
                assert(s.spool[i].rev == self.job_spool[i].rev);
                if i > pos {
                    assert(self.job_spool[pos as int].rev >= self.job_spool[i].rev);
                }
            }
            lemma_filter_stretch(s.spool, is_above(job.rev), 0, pos as int);
        }
        let ghost jv = job@;
        self.job_spool.insert(pos, job);
        proof {
            assert(self@.spool =~= s.spool.insert(pos as int, jv));
            assert forall|i: int, j: int| 0 <= i < j < self.job_spool.len() implies (
            #[trigger] self.job_spool[i]).rev >= (#[trigger] self.job_spool[j]).rev by {
                let oi = if i < pos {
                    i
                } else {
                    i - 1
                };
                let oj = if j < pos {
                    j
                } else {
                    j - 1
                };
                if i != pos && j != pos {
                    assert(old(self).job_spool[oi].rev >= old(self).job_spool[oj].rev);
                } else if i == pos {
                    assert(old(self).job_spool[pos as int].rev >= old(self).job_spool[oj].rev);
                }
            }
        }
    }

    /// Dispatches one notification: hands it to the log and puts it behind
    /// those that were dispatched before it.
    fn dispatch(&mut self, job: NotifyJob, out: &mut Vec<Dispatched>)
        requires
            old(self).wf(),
            old(self).next_rev < i64::MAX,
        ensures
            final(self).wf(),
            final(self).next_rev == old(self).next_rev + 1,
            final(self).job_spool == old(self).job_spool,
            final(self).progress_rev == old(self).progress_rev,
            opt_wal_view(final(self).wal) == logged(
                opt_wal_view(old(self).wal),
                seq![job@],
            ),
            final(out)@.len() == old(out)@.len() + 1,
            final(out)@.take(old(out)@.len() as int) == old(out)@,
            final(out)@.last().job == job,
            final(out)@.last().writer == writer_for(opt_wal_view(old(self).wal), seq![job@], 0),
    {
        proof {
            assert(seq![job@].drop_last() =~= Seq::<NotifyJobView>::empty());
            assert(seq![job@].take(0) =~= Seq::<NotifyJobView>::empty());
            reveal_with_fuel(logged, 2);
            reveal(Notifier::wf);
        }
        let writer = self.log(&job);
        let ghost before = out@;
        out.push(Dispatched { job, writer });
        self.next_rev = self.next_rev + 1;
        assert(out@.take(before.len() as int) =~= before);
    }

    /// Takes in a notification and returns those that are dispatched now,
    /// in the order of dispatch, each of which has been handed to the log.
    /// A notification that is ahead of its turn waits in the spool.
    pub fn receive(&mut self, job: NotifyJob) -> (out: Vec<Dispatched>)
        requires
            old(self).wf(),
            old(self)@.can_receive(),
        ensures
            final(self).wf(),
            final(self)@ == old(self)@.receive(job@),
            dispatched_jobs(out@) == old(self)@.dispatched(job@),
            forall|i: int|
                0 <= i < out.len() ==> (#[trigger] out[i]).writer == writer_for(
                    old(self)@.wal,
                    old(self)@.dispatched(job@),
                    i,
                ),
    {
        let ghost s = self@;
        let mut out: Vec<Dispatched> = Vec::new();
        if job.rev > self.next_rev {
            // not its turn yet
            self.spool_job(job);
            assert(dispatched_jobs(out@) =~= Seq::<NotifyJobView>::empty());
            return out;
        }
        let ghost all = s.dispatched(job@);
        let ghost jv = job@;
        proof {
            reveal(Notifier::wf);
            assert(all.take(0) =~= Seq::<NotifyJobView>::empty());
            lemma_dispatch_step(s.wal, all, Seq::empty(), jv);
            assert(Seq::<NotifyJobView>::empty().push(jv) =~= seq![jv]);
        }
        self.dispatch(job, &mut out);
        proof {
            assert(dispatched_jobs(out@) =~= seq![jv]);
            assert(s.spool.take(s.spool.len() as int) =~= s.spool);
            assert(writers_of(out@) =~= writers(s.wal, all, 1));
        }
        while self.job_spool.len() > 0 && self.job_spool[self.job_spool.len() - 1].rev
            == self.next_rev
            invariant
                self.wf(),
                s.can_receive(),
                out.len() >= 1,
                out.len() - 1 <= s.spool.len(),
                self.next_rev == s.next_rev + out.len(),
                self.progress_rev == s.progress_rev,
                self@.spool == s.spool.take(s.spool.len() - (out.len() - 1)),
                opt_wal_view(self.wal) == logged(s.wal, dispatched_jobs(out@)),
                all == dispatched_jobs(out@) + ready(self@.spool, self.next_rev as int),
                writers_of(out@) == writers(s.wal, all, out.len() as int),
            decreases self.job_spool.len(),
        {
            let ghost before = self@.spool;
            let ghost sent = dispatched_jobs(out@);
            let ghost sent_to = writers_of(out@);
            let next = self.job_spool.pop().unwrap();
            let ghost nv = next@;
            proof {
                reveal(Notifier::wf);
                assert(nv == before.last());
                assert(self@.spool =~= before.drop_last());
                assert(ready(before, self.next_rev as int) =~= seq![nv] + ready(
                    before.drop_last(),
                    self.next_rev + 1,
                ));
                assert(sent + ready(before, self.next_rev as int) =~= sent + seq![nv] + ready(
                    before.drop_last(),
                    self.next_rev + 1,
                ));
                assert(all.take(sent.len() as int) =~= sent);
                lemma_dispatch_step(s.wal, all, sent, nv);
            }
            self.dispatch(next, &mut out);
            proof {
                assert(dispatched_jobs(out@) =~= sent.push(nv));
                assert(self@.spool =~= s.spool.take(s.spool.len() - (out.len() - 1)));
                assert(writers_of(out@) =~= sent_to.push(out@.last().writer));
                assert(writers_of(out@) =~= writers(s.wal, all, out.len() as int));
            }
        }
        proof {
            assert(ready(self@.spool, self.next_rev as int) =~= Seq::<NotifyJobView>::empty());
            assert(dispatched_jobs(out@) =~= all);
            assert forall|i: int| 0 <= i < out.len() implies (#[trigger] out[i]).writer
                == writer_for(s.wal, all, i) by {
                assert(writers_of(out@)[i] == out[i].writer);
            }
        }
        // published only when every notification has been handed on
        self.progress_rev = self.next_rev - 1;
        out
    }

    /// The log, where there is one.
    pub fn wal(&self) -> (w: &Option<WalManager>)
        ensures
            opt_wal_view(*w) == self@.wal,
    {
        &self.wal
    }

    /// Takes the next batch from the log's writer at `writer`.
    pub fn take_batch(&mut self, writer: usize) -> (batch: Option<crate::batch::WriteBatch>)
        requires
            old(self).wf(),
        ensures
            final(self).wf(),
            final(self)@.next_rev == old(self)@.next_rev,
            final(self)@.spool == old(self)@.spool,
            final(self)@.progress_rev == old(self)@.progress_rev,
            match old(self)@.wal {
                Some(w) if writer < w.writers.len() => {
                    &&& final(self)@.wal == Some(w.take_batch(writer as int))
                    &&& batch matches Some(b) && b.wf() && b@.segments
                        == crate::batch::all_pieces(w.batch_of(writer as int)) && b@.pending()
                        == crate::batch::encodings(w.batch_of(writer as int)) && b@.records
                        == w.batch_of(writer as int).len() && b@.size == b@.pending().len()
                        && b@.sync == (w.writers[writer as int].mode
                        == crate::wal::WalMode::Sync)
                },
                _ => batch is None && final(self)@.wal == old(self)@.wal,
            },
    {
        reveal(Notifier::wf);
        match &mut self.wal {
            Some(wal) => {
                if writer < wal.writer_count() {
                    Some(wal.take_batch(writer))
                } else {
                    None
                }
            },
            None => None,
        }
    }
}

} // verus!
