//! The benchmark session and its stopwatches: the public entry points that
//! tie tags, timing, and the shared registry together, plus read-only
//! snapshots of a chosen subset of tags.

use vstd::prelude::*;
use vstd::rwlock::RwLock;
use std::sync::Arc;
use std::time::{Duration, Instant};
use crate::registry::{Entry, ResultSet, find_in, report_text, snapshot_of};
use crate::sample::BenchResult;
use crate::text::{dec_str, stats_block, push_decimal};

verus! {

#[verifier::external_type_specification]
#[verifier::external_body]
pub struct ExInstant(Instant);

/// Relies on `Instant::now`: captures the current monotonic instant.
#[verifier::external_body]
fn instant_now() -> Instant {
    Instant::now()
}

/// Relies on `Instant::elapsed`: the time that passed since `start`. What
/// the clock returns depends on when the call happens, so nothing is claimed
/// about the value.
#[verifier::external_body]
fn instant_elapsed(start: &Instant) -> Duration {
    start.elapsed()
}

/// Relies on `Duration::as_nanos`: the duration in whole nanoseconds. The
/// duration came from the clock, so nothing is claimed about the value.
#[verifier::external_body]
fn duration_as_nanos(d: &Duration) -> u128 {
    d.as_nanos()
}

/// The invariant every value stored in a session's shared registry lock
/// satisfies: registry well-formedness.
pub open spec fn registry_inv() -> spec_fn(ResultSet) -> bool {
    |rs: ResultSet| rs.wf()
}

/// A benchmark session: an immutable session label and a shared handle to
/// one lock-protected result registry.
///
/// Cloning a session shares the same registry; it does not fork state.
pub struct BenchMan {
    tag: String,
    result_set: Arc<RwLock<ResultSet, spec_fn(ResultSet) -> bool>>,
}

/// A scoped one-shot timer. It captures its start instant on creation;
/// [`Stopwatch::stop`] consumes it and records the elapsed time under its
/// tag, so each stopwatch reports exactly once and can never report again.
pub struct Stopwatch {
    tag: String,
    t: Instant,
    result_set: Arc<RwLock<ResultSet, spec_fn(ResultSet) -> bool>>,
}

impl BenchMan {
    /// The session label.
    pub closed spec fn label(self) -> Seq<char> {
        self.tag@
    }

    /// The session is tied to a registry lock that maintains registry
    /// well-formedness.
    pub closed spec fn wf(self) -> bool {
        (*self.result_set).pred() == registry_inv()
    }

    /// Creates a session with the given label and a fresh, empty registry.
    pub fn new(tag: &str) -> (r: Self)
        ensures
            r.wf(),
            r.label() == tag@,
    {
        let rs = ResultSet::new();
        let lock = RwLock::<ResultSet, spec_fn(ResultSet) -> bool>::new(rs, Ghost(registry_inv()));
        BenchMan { tag: tag.to_owned(), result_set: Arc::new(lock) }
    }

    /// Reserves `tag`'s position in the report order (first request wins the
    /// earlier position), then hands out a stopwatch bound to `tag` and the
    /// shared registry. The reservation happens before the timer starts, so
    /// report order reflects "first requested", not "first completed".
    pub fn get_stopwatch(&self, tag: &str) -> (sw: Stopwatch)
        requires
            self.wf(),
        ensures
            sw.wf(),
            sw.label() == tag@,
    {
        let (mut rs, wh) = self.result_set.acquire_write();
        rs.reserve_tag(tag.to_owned());
        wh.release_write(rs);
        Stopwatch { tag: tag.to_owned(), t: instant_now(), result_set: self.result_set.clone() }
    }

    /// Renders the full report: the session label line, then, in reservation
    /// order, one section per tag with at least one recorded sample.
    pub fn render(&self) -> (r: String)
        requires
            self.wf(),
        ensures
            exists|rs: ResultSet| rs.wf() && r@ == report_text(self.label(), rs),
    {
        let mut out = String::new();
        out.push_str(self.tag.as_str());
        out.push_str("\n");
        let rh = self.result_set.acquire_read();
        let rs = rh.borrow();
        let sections = rs.render_all();
        out.push_str(sections.as_str());
        proof {
            let grs = rh.view();
            assert(grs.wf() && out@ == report_text(self.label(), grs));
        }
        rh.release_read();
        out
    }

    /// Takes a read-only snapshot of the requested tags, in the order given.
    /// A requested tag with no recorded sample is silently omitted. The
    /// snapshot copies the sample stores and never changes afterwards.
    pub fn slice(&self, tags: &Vec<String>) -> (sv: SliceView)
        requires
            self.wf(),
        ensures
            sv.wf(),
            sv.label() == self.label(),
            exists|rs: ResultSet| rs.wf() && sv@ == snapshot_of(rs, tags.deep_view()),
    {
        let rh = self.result_set.acquire_read();
        let rs = rh.borrow();
        let entries = rs.snapshot(tags);
        proof {
            let grs = rh.view();
            assert(grs.wf() && entries@.map_values(|e: Entry| (e.tag@, e.result@))
                == snapshot_of(grs, tags.deep_view()));
        }
        rh.release_read();
        SliceView { tag: self.tag.clone(), entries }
    }
}

impl Clone for BenchMan {
    /// Cloning a session shares the same registry: the clone carries the
    /// same label and the same lock handle.
    fn clone(&self) -> (r: Self)
        ensures
            r == *self,
    {
        BenchMan { tag: self.tag.clone(), result_set: self.result_set.clone() }
    }
}

impl Stopwatch {
    /// The tag this stopwatch records under.
    pub closed spec fn label(self) -> Seq<char> {
        self.tag@
    }

    /// The stopwatch is tied to a registry lock that maintains registry
    /// well-formedness.
    pub closed spec fn wf(self) -> bool {
        (*self.result_set).pred() == registry_inv()
    }

    /// Stops the timer: computes the elapsed time since creation and
    /// appends it to the shared registry under this stopwatch's tag.
    /// Consuming the stopwatch makes the recording happen exactly once;
    /// a stopped stopwatch cannot report again.
    pub fn stop(self)
        requires
            self.wf(),
    {
        let d = instant_elapsed(&self.t);
        let n = duration_as_nanos(&d);
        let nanos: u64 = if n > (u64::MAX as u128) {
            u64::MAX
        } else {
            n as u64
        };
        let (mut rs, wh) = self.result_set.acquire_write();
        rs.add_result(self.tag, nanos);
        wh.release_write(rs);
    }
}

/// A read-only snapshot of a subset of tags: the owning session's label and
/// a copy of each requested tag's sample store at snapshot time. It becomes
/// stale immediately: later recordings do not show up in it.
pub struct SliceView {
    tag: String,
    entries: Vec<Entry>,
}

impl View for SliceView {
    type V = Seq<(Seq<char>, Seq<u64>)>;

    closed spec fn view(&self) -> Seq<(Seq<char>, Seq<u64>)> {
        self.entries@.map_values(|e: Entry| (e.tag@, e.result@))
    }
}

/// The report section of one snapshot entry: the tag line with its sample
/// count, then the statistics block.
pub open spec fn entry_section(tag: Seq<char>, s: Seq<u64>) -> Seq<char> {
    tag + " ("@ + dec_str(s.len() as int) + " samples)\n"@ + stats_block(s)
}

/// The sections of a snapshot, in snapshot order.
pub open spec fn slice_sections(entries: Seq<(Seq<char>, Seq<u64>)>) -> Seq<char>
    decreases entries.len(),
{
    if entries.len() == 0 {
        Seq::<char>::empty()
    } else {
        slice_sections(entries.drop_last()) + entry_section(
            entries.last().0,
            entries.last().1,
        )
    }
}

impl SliceView {
    /// The owning session's label.
    pub closed spec fn label(self) -> Seq<char> {
        self.tag@
    }

    /// Every copied store holds at least one sample.
    pub closed spec fn wf(self) -> bool {
        forall|k: int| 0 <= k < self.entries@.len() ==> self.entries@[k].result@.len() >= 1
    }

    /// The samples this snapshot holds for `tag`, if it holds any.
    pub closed spec fn samples_of(self, tag: Seq<char>) -> Option<Seq<u64>> {
        find_in(self.entries@, tag)
    }

    /// The number of samples this snapshot holds for `tag`, if any.
    pub fn sample_count(&self, tag: &String) -> (r: Option<usize>)
        ensures
            match r {
                Option::Some(n) => self.samples_of(tag@) is Some && self.samples_of(
                    tag@,
                )->Some_0.len() == n,
                Option::None => self.samples_of(tag@) is None,
            },
    {
        let ghost entries0 = self.entries@;
        let mut i: usize = 0;
        while i < self.entries.len()
            invariant
                i <= entries0.len(),
                self.entries@ == entries0,
                forall|k: int| 0 <= k < i ==> entries0[k].tag@ != tag@,
            decreases entries0.len() - i,
        {
            if self.entries[i].tag.eq(tag) {
                proof {
                    crate::registry::lemma_find_prefix_miss(entries0, i as int, tag@);
                }
                return Option::Some(self.entries[i].result.n());
            }
            i = i + 1;
        }
        proof {
            crate::registry::lemma_find_none(entries0, tag@);
        }
        Option::None
    }

    /// Renders the snapshot: the session label line, then one section per
    /// held tag, in snapshot order, in the same format as the full report.
    pub fn render(&self) -> (r: String)
        requires
            self.wf(),
        ensures
            r@ == self.label() + "\n"@ + slice_sections(self@),
    {
        let mut out = String::new();
        out.push_str(self.tag.as_str());
        out.push_str("\n");
        let mut i: usize = 0;
        proof {
            assert(self@.take(0) =~= Seq::<(Seq<char>, Seq<u64>)>::empty());
            assert(out@ =~= self.label() + "\n"@ + slice_sections(self@.take(0)));
        }
        while i < self.entries.len()
            invariant
                i <= self.entries@.len(),
                self.wf(),
                self@.len() == self.entries@.len(),
                out@ == self.label() + "\n"@ + slice_sections(self@.take(i as int)),
            decreases self.entries@.len() - i,
        {
            proof {
                assert(self@.take(i + 1).drop_last() =~= self@.take(i as int));
                assert(self@[i as int] == (self.entries@[i as int].tag@,
                self.entries@[i as int].result@));
            }
            out.push_str(self.entries[i].tag.as_str());
            out.push_str(" (");
            let n = self.entries[i].result.n();
            push_decimal(&mut out, n as u64);
            out.push_str(" samples)\n");
            let block = self.entries[i].result.render_stats();
            out.push_str(block.as_str());
            proof {
                assert(out@ =~= self.label() + "\n"@ + slice_sections(self@.take(i + 1)));
            }
            i = i + 1;
        }
        proof {
            assert(self@.take(self.entries@.len() as int) =~= self@);
        }
        out
    }
}

} // verus!
