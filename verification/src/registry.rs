//! The shared result registry: a mapping from tag to its sample store,
//! together with an insertion-ordered set of tags that fixes the report
//! order, and the full-report renderer.

use vstd::prelude::*;
use crate::sample::BenchResult;
use crate::text::{dec_str, push_decimal, stats_block};
use indexmap::IndexSet;

verus! {

#[verifier::external_type_specification]
#[verifier::external_body]
#[verifier::reject_recursive_types(T)]
#[verifier::reject_recursive_types(S)]
pub struct ExIndexSet<T, S>(IndexSet<T, S>);

/// The tags held by an insertion-ordered tag set, in insertion order.
pub uninterp spec fn tag_seq(s: IndexSet<String>) -> Seq<Seq<char>>;

/// Relies on `IndexSet::new`: creates an empty set.
#[verifier::external_body]
fn tag_set_new() -> (r: IndexSet<String>)
    ensures
        tag_seq(r) == Seq::<Seq<char>>::empty(),
{
    IndexSet::new()
}

/// Relies on `IndexSet::insert`: a value not yet present is inserted at the
/// end of the insertion order and `true` is returned; an equivalent value
/// already present leaves the set, and its order, unchanged and `false` is
/// returned.
#[verifier::external_body]
fn tag_set_insert(s: &mut IndexSet<String>, tag: String) -> (r: bool)
    ensures
        r == !tag_seq(*old(s)).contains(tag@),
        tag_seq(*final (s)) == if tag_seq(*old(s)).contains(tag@) {
            tag_seq(*old(s))
        } else {
            tag_seq(*old(s)).push(tag@)
        },
{
    s.insert(tag)
}

/// Relies on `IndexSet::iter`: iteration yields the values in their
/// insertion order.
#[verifier::external_body]
fn tag_set_to_vec(s: &IndexSet<String>) -> (r: Vec<String>)
    ensures
        r.deep_view() == tag_seq(*s),
{
    s.iter().cloned().collect()
}

/// One registry entry: a tag and the samples recorded for it.
pub struct Entry {
    pub tag: String,
    pub result: BenchResult,
}

/// The samples stored for `tag` in `s`, if any.
pub open spec fn find_in(s: Seq<Entry>, tag: Seq<char>) -> Option<Seq<u64>>
    decreases s.len(),
{
    if s.len() == 0 {
        Option::None
    } else if s[0].tag@ == tag {
        Option::Some(s[0].result@)
    } else {
        find_in(s.drop_first(), tag)
    }
}

/// The registry: per-tag sample stores, and the insertion-ordered set of
/// tags that fixes the report order. A tag may be reserved (present in the
/// order) before any sample exists for it; a sample store is created on the
/// first recording for its tag.
pub struct ResultSet {
    tag_indices: IndexSet<String>,
    entries: Vec<Entry>,
}

impl ResultSet {
    /// The reserved tags, in the order they were first reserved.
    pub closed spec fn order(self) -> Seq<Seq<char>> {
        tag_seq(self.tag_indices)
    }

    /// The samples recorded for `tag`, if any have been recorded.
    pub closed spec fn samples_of(self, tag: Seq<char>) -> Option<Seq<u64>> {
        find_in(self.entries@, tag)
    }

    /// Well-formedness: tags are unique among the entries, and an entry is
    /// only ever created by recording a sample, so it is never empty.
    pub closed spec fn wf(self) -> bool {
        &&& forall|i: int, j: int|
            0 <= i < j < self.entries@.len() ==> self.entries@[i].tag@ != self.entries@[j].tag@
        &&& forall|i: int| 0 <= i < self.entries@.len() ==> self.entries@[i].result@.len() >= 1
    }

    /// Creates an empty registry: nothing reserved, nothing recorded.
    pub fn new() -> (r: Self)
        ensures
            r.wf(),
            r.order() == Seq::<Seq<char>>::empty(),
            forall|t: Seq<char>| r.samples_of(t) is None,
    {
        ResultSet { tag_indices: tag_set_new(), entries: Vec::new() }
    }

    /// Reserves `tag` in the report order. Idempotent: a tag already
    /// reserved keeps its original position; a new tag goes to the end.
    /// Reservation alone creates no sample store.
    pub fn reserve_tag(&mut self, tag: String)
        requires
            old(self).wf(),
        ensures
            final (self).wf(),
            final (self).order() == if old(self).order().contains(tag@) {
                old(self).order()
            } else {
                old(self).order().push(tag@)
            },
            forall|t: Seq<char>| final (self).samples_of(t) == old(self).samples_of(t),
    {
        tag_set_insert(&mut self.tag_indices, tag);
    }

    /// Records one duration for `tag`: the sample is appended to the tag's
    /// store, which is created on the first recording. Samples of other tags
    /// and the report order are untouched.
    pub fn add_result(&mut self, tag: String, du: u64)
        requires
            old(self).wf(),
        ensures
            final (self).wf(),
            final (self).order() == old(self).order(),
            final (self).samples_of(tag@) == match old(self).samples_of(tag@) {
                Option::None => Option::Some(seq![du]),
                Option::Some(s) => Option::Some(s.push(du)),
            },
            forall|t: Seq<char>|
                t != tag@ ==> final (self).samples_of(t) == old(self).samples_of(t),
    {
        let ghost entries0 = self.entries@;
        let mut i: usize = 0;
        while i < self.entries.len()
            invariant
                i <= self.entries@.len(),
                entries0 == old(self).entries@,
                old(self).wf(),
                self.entries@ == entries0,
                self.tag_indices == old(self).tag_indices,
                forall|k: int| 0 <= k < i ==> self.entries@[k].tag@ != tag@,
            decreases self.entries@.len() - i,
        {
            if self.entries[i].tag.eq(&tag) {
                let mut e = self.entries.remove(i);
                e.result.add_result(du);
                let ghost ge = e;
                self.entries.insert(i, e);
                proof {
                    assert(self.entries@ =~= entries0.update(i as int, ge));
                    lemma_find_prefix_miss(entries0, i as int, tag@);
                    lemma_find_update(entries0, i as int, ge, tag@);
                    assert forall|t: Seq<char>| t != tag@ implies find_in(self.entries@, t)
                        == find_in(entries0, t) by {
                        lemma_find_update_other(entries0, i as int, ge, t);
                    };
                    assert(old(self).entries@ == entries0);
                    assert forall|a: int, b: int|
                        0 <= a < b < self.entries@.len() implies self.entries@[a].tag@
                        != self.entries@[b].tag@ by {
                        assert(old(self).entries@[a].tag@ != old(self).entries@[b].tag@);
                        assert(ge.tag@ == entries0[i as int].tag@);
                    };
                    assert forall|k: int|
                        0 <= k < self.entries@.len() implies self.entries@[k].result@.len()
                        >= 1 by {
                        if k == i as int {
                            assert(self.entries@[k] == ge);
                        } else {
                            assert(old(self).entries@[k].result@.len() >= 1);
                        }
                    };
                }
                return ;
            }
            i = i + 1;
        }
        let mut result = BenchResult::new();
        result.add_result(du);
        let e = Entry { tag, result };
        let ghost ge = e;
        self.entries.push(e);
        proof {
            assert(find_in(entries0, ge.tag@) is None) by {
                lemma_find_none(entries0, ge.tag@);
            };
            assert forall|t: Seq<char>| true implies #[trigger] find_in(self.entries@, t)
                == (match find_in(entries0, t) {
                Option::Some(x) => Option::Some(x),
                Option::None => if ge.tag@ == t {
                    Option::Some(ge.result@)
                } else {
                    Option::None::<Seq<u64>>
                },
            }) by {
                lemma_find_push(entries0, ge, t);
            };
            assert(ge.result@ =~= seq![du]);
        }
    }

    /// Returns a copy of the sample store recorded for `tag`, if any.
    pub fn lookup(&self, tag: &String) -> (r: Option<BenchResult>)
        ensures
            match r {
                Option::Some(b) => self.samples_of(tag@) == Option::Some(b@),
                Option::None => self.samples_of(tag@) is None,
            },
    {
        let ghost entries0 = self.entries@;
        let mut i: usize = 0;
        while i < self.entries.len()
            invariant
                i <= entries0.len(),
                self.entries@ == entries0,
                forall|k: int| 0 <= k < i ==> entries0[k].tag@ != tag@,
            decreases entries0.len() - i,
        {
            if self.entries[i].tag.eq(tag) {
                proof {
                    lemma_find_prefix_miss(entries0, i as int, tag@);
                }
                return Option::Some(self.entries[i].result.clone());
            }
            i = i + 1;
        }
        proof {
            lemma_find_none(entries0, tag@);
        }
        Option::None
    }

    /// Every recorded store holds at least one sample.
    pub proof fn lemma_wf_samples_nonempty(self, tag: Seq<char>)
        requires
            self.wf(),
            self.samples_of(tag) is Some,
        ensures
            self.samples_of(tag)->Some_0.len() >= 1,
    {
        lemma_find_some_nonempty(self.entries@, tag);
    }

    /// The reserved tags, in reservation order, as owned strings.
    pub fn order_tags(&self) -> (r: Vec<String>)
        ensures
            r.deep_view() == self.order(),
    {
        tag_set_to_vec(&self.tag_indices)
    }

    /// Takes a snapshot of the requested tags, in the order given: each
    /// requested tag with at least one recorded sample contributes a copy of
    /// its store; a requested tag that was never recorded for is silently
    /// omitted.
    pub fn snapshot(&self, tags: &Vec<String>) -> (r: Vec<Entry>)
        requires
            self.wf(),
        ensures
            r@.map_values(|e: Entry| (e.tag@, e.result@)) == snapshot_of(
                *self,
                tags.deep_view(),
            ),
            forall|k: int| 0 <= k < r@.len() ==> r@[k].result@.len() >= 1,
    {
        let mut entries: Vec<Entry> = Vec::new();
        let mut i: usize = 0;
        proof {
            assert(tags.deep_view().take(0) =~= Seq::<Seq<char>>::empty());
            assert(entries@.map_values(|e: Entry| (e.tag@, e.result@)) =~= snapshot_of(
                *self,
                tags.deep_view().take(0),
            ));
        }
        while i < tags.len()
            invariant
                i <= tags.len(),
                self.wf(),
                entries@.map_values(|e: Entry| (e.tag@, e.result@)) == snapshot_of(
                    *self,
                    tags.deep_view().take(i as int),
                ),
                forall|k: int| 0 <= k < entries@.len() ==> entries@[k].result@.len() >= 1,
            decreases tags.len() - i,
        {
            proof {
                assert(tags.deep_view().take(i + 1).drop_last() =~= tags.deep_view().take(
                    i as int,
                ));
                assert(tags.deep_view()[i as int] == tags@[i as int]@);
            }
            match self.lookup(&tags[i]) {
                Option::Some(result) => {
                    proof {
                        self.lemma_wf_samples_nonempty(tags@[i as int]@);
                    }
                    entries.push(Entry { tag: tags[i].clone(), result });
                },
                Option::None => {},
            }
            proof {
                assert(entries@.map_values(|e: Entry| (e.tag@, e.result@)) =~= snapshot_of(
                    *self,
                    tags.deep_view().take(i + 1),
                ));
            }
            i = i + 1;
        }
        proof {
            assert(tags.deep_view().take(tags@.len() as int) =~= tags.deep_view());
        }
        entries
    }

    /// Renders every tag's report section, in reservation order: for each
    /// tag with at least one recorded sample, the tag line with its sample
    /// count and its statistics block. Reserved tags without samples are
    /// suppressed.
    pub fn render_all(&self) -> (r: String)
        requires
            self.wf(),
        ensures
            r@ == sections_text(*self, self.order()),
    {
        let mut out = String::new();
        let tags = self.order_tags();
        let ghost order = self.order();
        let mut i: usize = 0;
        proof {
            assert(order.take(0) =~= Seq::<Seq<char>>::empty());
            assert(out@ =~= sections_text(*self, order.take(0)));
        }
        while i < tags.len()
            invariant
                i <= tags.len(),
                tags.deep_view() == order,
                order == self.order(),
                self.wf(),
                out@ == sections_text(*self, order.take(i as int)),
            decreases tags.len() - i,
        {
            proof {
                assert(order.take(i + 1).drop_last() =~= order.take(i as int));
                assert(tags.deep_view()[i as int] == tags@[i as int]@);
            }
            match self.lookup(&tags[i]) {
                Option::Some(result) => {
                    proof {
                        self.lemma_wf_samples_nonempty(tags@[i as int]@);
                    }
                    out.push_str(tags[i].as_str());
                    out.push_str(" (");
                    let n = result.n();
                    push_decimal(&mut out, n as u64);
                    out.push_str(" samples)\n");
                    let block = result.render_stats();
                    out.push_str(block.as_str());
                },
                Option::None => {},
            }
            proof {
                assert(out@ =~= sections_text(*self, order.take(i + 1)));
            }
            i = i + 1;
        }
        proof {
            assert(order.take(tags@.len() as int) =~= order);
        }
        out
    }
}

/// The report section for one tag: nothing when no sample was ever recorded
/// for it, otherwise the tag line with the sample count followed by the
/// statistics block.
pub open spec fn tag_section(rs: ResultSet, tag: Seq<char>) -> Seq<char> {
    match rs.samples_of(tag) {
        Option::None => Seq::<char>::empty(),
        Option::Some(s) => tag + " ("@ + dec_str(s.len() as int) + " samples)\n"@ + stats_block(s),
    }
}

/// The report sections of the given tags, in order.
pub open spec fn sections_text(rs: ResultSet, order: Seq<Seq<char>>) -> Seq<char>
    decreases order.len(),
{
    if order.len() == 0 {
        Seq::<char>::empty()
    } else {
        sections_text(rs, order.drop_last()) + tag_section(rs, order.last())
    }
}

/// The full report: the label line, then the sections of the reserved tags
/// in reservation order.
pub open spec fn report_text(label: Seq<char>, rs: ResultSet) -> Seq<char> {
    label + "\n"@ + sections_text(rs, rs.order())
}

/// The snapshot taken of a registry for the requested tags, in request
/// order: each requested tag that has samples contributes its tag and a
/// copy of its samples; absent tags are omitted.
pub open spec fn snapshot_of(rs: ResultSet, req: Seq<Seq<char>>) -> Seq<(Seq<char>, Seq<u64>)>
    decreases req.len(),
{
    if req.len() == 0 {
        Seq::<(Seq<char>, Seq<u64>)>::empty()
    } else {
        snapshot_of(rs, req.drop_last()) + match rs.samples_of(req.last()) {
            Option::None => Seq::<(Seq<char>, Seq<u64>)>::empty(),
            Option::Some(s) => seq![(req.last(), s)],
        }
    }
}

/// The report lists tags in reservation order: for any split point, the
/// report sections of the earlier-reserved tags come first, as one
/// contiguous prefix, followed by the sections of the later-reserved tags —
/// regardless of the order in which samples were recorded.
pub proof fn lemma_sections_split(rs: ResultSet, order: Seq<Seq<char>>, k: int)
    requires
        0 <= k <= order.len(),
    ensures
        sections_text(rs, order) == sections_text(rs, order.take(k)) + sections_text(
            rs,
            order.skip(k),
        ),
    decreases order.len(),
{
    if k == order.len() {
        assert(order.take(k) =~= order);
        assert(order.skip(k) =~= Seq::<Seq<char>>::empty());
        assert(sections_text(rs, order) =~= sections_text(rs, order.take(k)) + sections_text(
            rs,
            order.skip(k),
        ));
    } else {
        lemma_sections_split(rs, order.drop_last(), k);
        assert(order.drop_last().take(k) =~= order.take(k));
        assert(order.drop_last().skip(k) =~= order.skip(k).drop_last());
        assert(order.skip(k).last() == order.last());
        assert(order.skip(k).len() > 0);
        assert(sections_text(rs, order) =~= sections_text(rs, order.take(k)) + sections_text(
            rs,
            order.skip(k),
        ));
    }
}

/// A tag that was reserved but never recorded for contributes nothing to
/// the report: its section is empty, so it does not appear in the output.
pub proof fn lemma_unrecorded_tag_renders_nothing(rs: ResultSet, tag: Seq<char>)
    requires
        rs.samples_of(tag) is None,
    ensures
        tag_section(rs, tag) == Seq::<char>::empty(),
{
}

/// When the first `i` entries miss `tag`, the search result is decided by
/// the entries from `i` on.
pub proof fn lemma_find_prefix_miss(s: Seq<Entry>, i: int, tag: Seq<char>)
    requires
        0 <= i < s.len(),
        forall|k: int| 0 <= k < i ==> s[k].tag@ != tag,
        s[i].tag@ == tag,
    ensures
        find_in(s, tag) == Option::Some(s[i].result@),
    decreases i,
{
    if i > 0 {
        assert(s.drop_first()[i - 1] == s[i]);
        lemma_find_prefix_miss(s.drop_first(), i - 1, tag);
    }
}

/// When no entry carries `tag`, the search misses.
pub proof fn lemma_find_none(s: Seq<Entry>, tag: Seq<char>)
    requires
        forall|k: int| 0 <= k < s.len() ==> s[k].tag@ != tag,
    ensures
        find_in(s, tag) is None,
    decreases s.len(),
{
    if s.len() > 0 {
        lemma_find_none(s.drop_first(), tag);
    }
}

/// Replacing the first entry that carries `tag` changes the search result
/// for `tag` to the replacement's samples.
proof fn lemma_find_update(s: Seq<Entry>, i: int, e: Entry, tag: Seq<char>)
    requires
        0 <= i < s.len(),
        forall|k: int| 0 <= k < i ==> s[k].tag@ != tag,
        s[i].tag@ == tag,
        e.tag@ == tag,
    ensures
        find_in(s.update(i, e), tag) == Option::Some(e.result@),
    decreases i,
{
    let t = s.update(i, e);
    if i == 0 {
    } else {
        assert(t.drop_first() =~= s.drop_first().update(i - 1, e));
        assert(s.drop_first()[i - 1] == s[i]);
        lemma_find_update(s.drop_first(), i - 1, e, tag);
    }
}

/// Replacing an entry without changing its tag leaves the search result for
/// every other tag unchanged.
proof fn lemma_find_update_other(s: Seq<Entry>, i: int, e: Entry, t: Seq<char>)
    requires
        0 <= i < s.len(),
        e.tag@ == s[i].tag@,
        t != s[i].tag@,
    ensures
        find_in(s.update(i, e), t) == find_in(s, t),
    decreases s.len(),
{
    let u = s.update(i, e);
    if i == 0 {
        assert(u.drop_first() =~= s.drop_first());
    } else {
        assert(u[0] == s[0]);
        assert(u.drop_first() =~= s.drop_first().update(i - 1, e));
        lemma_find_update_other(s.drop_first(), i - 1, e, t);
    }
}

/// Appending an entry decides the search for `t` only when it missed before.
proof fn lemma_find_push(s: Seq<Entry>, e: Entry, t: Seq<char>)
    ensures
        find_in(s.push(e), t) == match find_in(s, t) {
            Option::Some(x) => Option::Some(x),
            Option::None => if e.tag@ == t {
                Option::Some(e.result@)
            } else {
                Option::None::<Seq<u64>>
            },
        },
    decreases s.len(),
{
    if s.len() == 0 {
        assert(s.push(e)[0] == e);
        assert(s.push(e).drop_first() =~= Seq::<Entry>::empty());
    } else {
        assert(s.push(e)[0] == s[0]);
        assert(s.push(e).drop_first() =~= s.drop_first().push(e));
        lemma_find_push(s.drop_first(), e, t);
    }
}

/// In a well-formed entry list, every stored sample list is non-empty.
proof fn lemma_find_some_nonempty(s: Seq<Entry>, tag: Seq<char>)
    requires
        forall|i: int| 0 <= i < s.len() ==> s[i].result@.len() >= 1,
        find_in(s, tag) is Some,
    ensures
        find_in(s, tag)->Some_0.len() >= 1,
    decreases s.len(),
{
    if s.len() > 0 && s[0].tag@ != tag {
        assert(forall|i: int|
            0 <= i < s.drop_first().len() ==> s.drop_first()[i].result@.len() >= 1);
        lemma_find_some_nonempty(s.drop_first(), tag);
    }
}

} // verus!
