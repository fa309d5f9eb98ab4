//! The pagination engine: the cursor-driven outer scan over the repository
//! namespace. Each page advances the cursor to the highest id seen, skips
//! forks, accumulates node identifiers into fixed-size batches for the
//! detail stage, and observes cancellation cooperatively at page
//! boundaries.
use crate::api::RestRepository;
use vstd::prelude::*;

verus! {

/// Node identifiers per batched detail query.
pub const BATCH_SIZE: usize = 100;

/// Target period of one scan iteration, for self-pacing, in milliseconds.
pub const PAGE_PERIOD_MILLIS: u64 = 250;

/// Cooldown slept when the credential rotation wraps, in seconds.
pub const COOLDOWN_SECS: u64 = 60;

#[derive(Debug, PartialEq, Eq, Structural)]
pub enum ScanPhase {
    Scanning,
    Draining,
    Stopped,
}

/// The cursor value after triaging one page: the running maximum of the
/// starting cursor and every id on the page, forks included.
pub open spec fn max_id_through(cursor: int, page: Seq<RestRepository>) -> int
    decreases page.len(),
{
    if page.len() == 0 {
        cursor
    } else {
        let prev = max_id_through(cursor, page.drop_last());
        if page.last().id > prev {
            page.last().id as int
        } else {
            prev
        }
    }
}

/// The node identifiers a page contributes to batching: every non-fork
/// summary's node id, in page order.
pub open spec fn nonfork_ids(page: Seq<RestRepository>) -> Seq<String>
    decreases page.len(),
{
    if page.len() == 0 {
        Seq::empty()
    } else {
        nonfork_ids(page.drop_last()) + (if page.last().fork {
            Seq::empty()
        } else {
            seq![page.last().node_id]
        })
    }
}

/// All ids of a batch list, in dispatch order.
pub open spec fn concat_batches(batches: Seq<Seq<String>>) -> Seq<String>
    decreases batches.len(),
{
    if batches.len() == 0 {
        Seq::empty()
    } else {
        concat_batches(batches.drop_last()) + batches.last()
    }
}

/// Full batches hold exactly `BATCH_SIZE` ids each.
pub proof fn lemma_concat_batches_len(batches: Seq<Seq<String>>)
    requires
        forall|k: int| 0 <= k < batches.len() ==> #[trigger] batches[k].len() == BATCH_SIZE,
    ensures
        concat_batches(batches).len() == BATCH_SIZE * batches.len(),
    decreases batches.len(),
{
    if batches.len() > 0 {
        assert(forall|k: int|
            0 <= k < batches.drop_last().len() ==> #[trigger] batches.drop_last()[k].len()
                == BATCH_SIZE);
        lemma_concat_batches_len(batches.drop_last());
        assert(batches.last().len() == BATCH_SIZE);
    }
}

/// How one event moves the engine between its phases.
pub enum ScanEvent {
    /// A page came back; an empty page means the namespace is exhausted.
    Page(Seq<RestRepository>),
    /// The cancellation flag was read at a page boundary.
    Cancel(bool),
    /// All outstanding dispatched work has been joined.
    DrainDone,
}

pub open spec fn phase_step(p: ScanPhase, ev: ScanEvent) -> ScanPhase {
    match p {
        ScanPhase::Scanning => match ev {
            ScanEvent::Page(page) => if page.len() == 0 {
                ScanPhase::Stopped
            } else {
                ScanPhase::Scanning
            },
            ScanEvent::Cancel(flag) => if flag {
                ScanPhase::Draining
            } else {
                ScanPhase::Scanning
            },
            ScanEvent::DrainDone => ScanPhase::Scanning,
        },
        ScanPhase::Draining => match ev {
            ScanEvent::DrainDone => ScanPhase::Stopped,
            _ => ScanPhase::Draining,
        },
        ScanPhase::Stopped => ScanPhase::Stopped,
    }
}

pub open spec fn phase_after(p: ScanPhase, evs: Seq<ScanEvent>) -> ScanPhase
    decreases evs.len(),
{
    if evs.len() == 0 {
        p
    } else {
        phase_step(phase_after(p, evs.drop_last()), evs.last())
    }
}

/// Once cancellation has been observed — the engine has left the scanning
/// phase — no later event brings it back, so no further page is ever
/// requested.
pub proof fn lemma_no_scan_after_cancel(p: ScanPhase, evs: Seq<ScanEvent>)
    requires
        p != ScanPhase::Scanning,
    ensures
        phase_after(p, evs) != ScanPhase::Scanning,
    decreases evs.len(),
{
    if evs.len() > 0 {
        lemma_no_scan_after_cancel(p, evs.drop_last());
    }
}

/// The cursor after triaging a run of pages in order.
pub open spec fn cursor_after(c: int, pages: Seq<Seq<RestRepository>>) -> int
    decreases pages.len(),
{
    if pages.len() == 0 {
        c
    } else {
        max_id_through(cursor_after(c, pages.drop_last()), pages.last())
    }
}

pub proof fn lemma_max_id_through_bounds(c: int, page: Seq<RestRepository>)
    ensures
        max_id_through(c, page) >= c,
        forall|k: int| 0 <= k < page.len() ==> max_id_through(c, page) >= #[trigger] page[k].id,
    decreases page.len(),
{
    if page.len() > 0 {
        lemma_max_id_through_bounds(c, page.drop_last());
        assert(forall|k: int| 0 <= k < page.len() - 1 ==> page.drop_last()[k] == #[trigger] page[k]);
        assert(page.last() == page[page.len() - 1]);
    }
}

/// The persisted cursor after any run of pages is at least every id seen on
/// every one of those pages, and never below where it started.
pub proof fn lemma_cursor_dominates(c: int, pages: Seq<Seq<RestRepository>>)
    ensures
        cursor_after(c, pages) >= c,
        forall|p: int, k: int|
            0 <= p < pages.len() && 0 <= k < pages[p].len() ==> cursor_after(c, pages)
                >= #[trigger] pages[p][k].id,
    decreases pages.len(),
{
    if pages.len() > 0 {
        let shorter = pages.drop_last();
        lemma_cursor_dominates(c, shorter);
        lemma_max_id_through_bounds(cursor_after(c, shorter), pages.last());
        assert forall|p: int, k: int|
            0 <= p < pages.len() && 0 <= k < pages[p].len() implies cursor_after(c, pages)
            >= #[trigger] pages[p][k].id by {
            if p < pages.len() - 1 {
                assert(shorter[p] == pages[p]);
                assert(cursor_after(c, shorter) >= pages[p][k].id);
            } else {
                assert(pages.last() == pages[p]);
                assert(max_id_through(cursor_after(c, shorter), pages[p]) >= pages[p][k].id);
            }
        }
    }
}

/// The pagination engine's in-memory state.
pub struct Scanner {
    pub cursor: usize,
    pub pending: Vec<String>,
    pub phase: ScanPhase,
}

impl Scanner {
    pub open spec fn wf(&self) -> bool {
        self.pending@.len() < BATCH_SIZE
    }

    /// A fresh engine resuming from a persisted cursor.
    pub fn new(cursor: usize) -> (r: Scanner)
        ensures
            r.wf(),
            r.cursor == cursor,
            r.pending@.len() == 0,
            r.phase == ScanPhase::Scanning,
    {
        Scanner { cursor, pending: Vec::new(), phase: ScanPhase::Scanning }
    }

    /// Whether the engine asks for another page: only while scanning.
    pub fn wants_page(&self) -> (r: bool)
        ensures
            r == (self.phase == ScanPhase::Scanning),
    {
        self.phase == ScanPhase::Scanning
    }

    /// Triage one returned page: advance the cursor to the highest id seen,
    /// skip forks, accumulate node ids, and hand back every batch that
    /// filled. An empty page is exhaustion and stops the engine.
    pub fn process_page(&mut self, page: Vec<RestRepository>) -> (batches: Vec<Vec<String>>)
        requires
            old(self).wf(),
            old(self).phase == ScanPhase::Scanning,
        ensures
            final(self).wf(),
            final(self).phase == phase_step(ScanPhase::Scanning, ScanEvent::Page(page@)),
            final(self).cursor as int == max_id_through(old(self).cursor as int, page@),
            final(self).cursor >= old(self).cursor,
            old(self).pending@ + nonfork_ids(page@) == concat_batches(
                batches@.map_values(|b: Vec<String>| b@),
            ) + final(self).pending@,
            forall|k: int|
                0 <= k < batches@.len() ==> #[trigger] batches@[k]@.len() == BATCH_SIZE,
    {
        let n = page.len();
        let mut batches: Vec<Vec<String>> = Vec::new();
        let ghost pending0 = self.pending@;
        let ghost cursor0 = self.cursor as int;
        proof {
            assert(page@.subrange(0, 0) =~= Seq::<RestRepository>::empty());
            assert(pending0 + nonfork_ids(page@.subrange(0, 0)) =~= pending0);
            assert(concat_batches(
                batches@.map_values(|b: Vec<String>| b@),
            ) + pending0 =~= pending0);
        }
        let mut page = page;
        let mut i: usize = 0;
        while i < n
            invariant
                n == page@.len(),
                i <= n,
                self.pending@.len() < BATCH_SIZE,
                self.phase == old(self).phase,
                self.cursor as int == max_id_through(cursor0, page@.subrange(0, i as int)),
                self.cursor >= cursor0,
                pending0 + nonfork_ids(page@.subrange(0, i as int)) == concat_batches(
                    batches@.map_values(|b: Vec<String>| b@),
                ) + self.pending@,
                forall|k: int|
                    0 <= k < batches@.len() ==> #[trigger] batches@[k]@.len() == BATCH_SIZE,
            decreases n - i,
        {
            let ghost sub = page@.subrange(0, i as int);
            let ghost ext = page@.subrange(0, i + 1);
            proof {
                assert(ext.drop_last() =~= sub);
                assert(ext.last() == page@[i as int]);
            }
            let fork = page[i].fork;
            let id = page[i].id;
            if id > self.cursor {
                self.cursor = id;
            }
            if !fork {
                let node_id = page[i].node_id.clone();
                let ghost before_pending = self.pending@;
                self.pending.push(node_id);
                proof {
                    assert(nonfork_ids(ext) =~= nonfork_ids(sub) + seq![page@[i as int].node_id]);
                    assert(pending0 + nonfork_ids(ext) =~= (pending0 + nonfork_ids(sub)) + seq![
                        page@[i as int].node_id,
                    ]);
                    assert((concat_batches(batches@.map_values(|b: Vec<String>| b@))
                        + before_pending) + seq![page@[i as int].node_id] =~= concat_batches(
                        batches@.map_values(|b: Vec<String>| b@),
                    ) + self.pending@);
                }
                if self.pending.len() == BATCH_SIZE {
                    let ghost batches_before = batches@;
                    let mut full: Vec<String> = Vec::new();
                    core::mem::swap(&mut self.pending, &mut full);
                    batches.push(full);
                    proof {
                        let mapped_before = batches_before.map_values(|b: Vec<String>| b@);
                        let mapped = batches@.map_values(|b: Vec<String>| b@);
                        assert(mapped =~= mapped_before.push(full@));
                        assert(mapped.drop_last() =~= mapped_before);
                        assert(concat_batches(mapped) == concat_batches(mapped_before) + full@);
                        assert(concat_batches(mapped) + self.pending@ =~= concat_batches(
                            mapped_before,
                        ) + full@);
                    }
                }
            } else {
                proof {
                    assert(nonfork_ids(ext) =~= nonfork_ids(sub));
                }
            }
            i += 1;
        }
        proof {
            assert(page@.subrange(0, n as int) =~= page@);
        }
        if n == 0 {
            self.phase = ScanPhase::Stopped;
        }
        batches
    }

    /// Observe the cancellation flag at a page boundary. On a true reading
    /// the engine enters the draining phase and hands back the partial
    /// batch, if any, for one final dispatch.
    pub fn observe_cancellation(&mut self, cancelled: bool) -> (leftover: Option<Vec<String>>)
        requires
            old(self).wf(),
            old(self).phase == ScanPhase::Scanning,
        ensures
            final(self).wf(),
            final(self).cursor == old(self).cursor,
            final(self).phase == phase_step(ScanPhase::Scanning, ScanEvent::Cancel(cancelled)),
            !cancelled ==> final(self).pending@ == old(self).pending@ && leftover is None,
            cancelled ==> final(self).pending@.len() == 0 && match leftover {
                Some(b) => b@ == old(self).pending@ && old(self).pending@.len() > 0,
                None => old(self).pending@.len() == 0,
            },
    {
        if !cancelled {
            return None;
        }
        self.phase = ScanPhase::Draining;
        if self.pending.len() > 0 {
            let mut out: Vec<String> = Vec::new();
            core::mem::swap(&mut self.pending, &mut out);
            Some(out)
        } else {
            None
        }
    }

    /// All outstanding dispatched batches have been joined: the engine
    /// stops.
    pub fn finish_draining(&mut self)
        requires
            old(self).wf(),
            old(self).phase == ScanPhase::Draining,
        ensures
            final(self).wf(),
            final(self).cursor == old(self).cursor,
            final(self).pending@ == old(self).pending@,
            final(self).phase == phase_step(ScanPhase::Draining, ScanEvent::DrainDone),
    {
        self.phase = ScanPhase::Stopped;
    }
}

/// How long the engine still has to sleep to hold its fixed page period,
/// given how long this iteration took.
pub fn pacing_sleep(elapsed_millis: u64) -> (r: Option<u64>)
    ensures
        match r {
            Some(d) => elapsed_millis < PAGE_PERIOD_MILLIS && d + elapsed_millis
                == PAGE_PERIOD_MILLIS,
            None => elapsed_millis >= PAGE_PERIOD_MILLIS,
        },
{
    if elapsed_millis < PAGE_PERIOD_MILLIS {
        Some(PAGE_PERIOD_MILLIS - elapsed_millis)
    } else {
        None
    }
}

} // verus!
