//! The accumulated result of a run: one per-author count for each period
//! that yielded eligible files, in chronological order of insertion, and
//! the normalization pass that merges raw identities into display names.

use vstd::prelude::*;
use crate::counts::AuthorCounts;
use crate::counts::among_first;
use crate::counts::count_at;
use crate::counts::counts_of;
use crate::counts::lemma_map_total_insert;
use crate::counts::lemma_map_total_nonneg;
use crate::counts::lemma_map_total_submap;
use crate::counts::map_total;
use crate::counts::merge_all;
use crate::counts::no_sum_overflow;
use crate::counts::sum_at;
use crate::counts::views_of;
use crate::normalize::normalize;
use crate::normalize::normalize_spec;

verus! {

/// One period's aggregated counts.
pub struct PeriodCounts {
    /// The period's label.
    pub period: String,
    /// The per-author counts of that period.
    pub counts: AuthorCounts,
}

/// The accumulated result across a whole run, one entry per period that
/// yielded at least one eligible file, in the order the periods were
/// processed.
pub struct AuthorPerformance {
    /// The recorded periods.
    pub entries: Vec<PeriodCounts>,
}

impl AuthorPerformance {
    /// An empty result.
    pub fn new() -> (r: AuthorPerformance)
        ensures
            r.entries@.len() == 0,
    {
        AuthorPerformance { entries: Vec::new() }
    }

    /// Records one period: when its snapshot resolved and at least one
    /// eligible file was attributed, the per-file counts are aggregated
    /// and appended; otherwise the period is skipped and the result is
    /// unchanged, so a skipped period contributes no column.
    pub fn record_period(&mut self, period: String, resolved: bool, files: &Vec<AuthorCounts>)
        requires
            no_sum_overflow(views_of(files@)),
        ensures
            (!resolved || files@.len() == 0) ==> final(self).entries@ == old(self).entries@,
            (resolved && files@.len() > 0) ==> {
                &&& final(self).entries@.len() == old(self).entries@.len() + 1
                &&& forall|i: int|
                    0 <= i < old(self).entries@.len() ==> final(self).entries@[i] == old(
                        self,
                    ).entries@[i]
                &&& final(self).entries@.last().period@ == period@
                &&& counts_of(final(self).entries@.last().counts) == merge_all(views_of(files@))
                &&& forall|k: Seq<char>|
                    #[trigger] count_at(counts_of(final(self).entries@.last().counts), k)
                        == sum_at(views_of(files@), k)
            },
    {
        if resolved && files.len() > 0 {
            let counts = crate::counts::aggregate_period(files);
            self.entries.push(PeriodCounts { period, counts });
        }
    }
}

/// The keys of `m` that normalize to `a`, with their counts.
pub open spec fn norm_restrict(m: Map<Seq<char>, u64>, a: Seq<char>) -> Map<Seq<char>, u64> {
    Map::new(
        |k: Seq<char>| m.dom().contains(k) && normalize_spec(k) == a,
        |k: Seq<char>| m[k],
    )
}

/// The count the normalized form `a` gathers from `m`.
pub open spec fn norm_sum(m: Map<Seq<char>, u64>, a: Seq<char>) -> int {
    map_total(norm_restrict(m, a))
}

/// The counts of `m` with every raw identity replaced by its canonical
/// form, counts of identities that normalize alike added together.
pub open spec fn norm_counts(m: Map<Seq<char>, u64>) -> Map<Seq<char>, u64> {
    Map::new(
        |a: Seq<char>| exists|k: Seq<char>| #[trigger]
            m.dom().contains(k) && normalize_spec(k) == a,
        |a: Seq<char>| norm_sum(m, a) as u64,
    )
}

/// No canonical author's gathered count exceeds the machine bound.
pub open spec fn no_norm_overflow(m: Map<Seq<char>, u64>) -> bool {
    forall|a: Seq<char>| norm_sum(m, a) <= u64::MAX
}

/// The keys of `m` inside `seen` that normalize to `a`.
spec fn norm_restrict_seen(
    m: Map<Seq<char>, u64>,
    a: Seq<char>,
    seen: Set<Seq<char>>,
) -> Map<Seq<char>, u64> {
    Map::new(
        |k: Seq<char>| m.dom().contains(k) && seen.contains(k) && normalize_spec(k) == a,
        |k: Seq<char>| m[k],
    )
}

/// Rewrites one period's counts onto canonical author names.
fn reformat_counts(c: &AuthorCounts) -> (r: AuthorCounts)
    requires
        no_norm_overflow(counts_of(*c)),
    ensures
        counts_of(r) == norm_counts(counts_of(*c)),
{
    broadcast use vstd::set_lib::lemma_set_subset_finite;
    broadcast use vstd::set::group_set_axioms;
    broadcast use vstd::map::group_map_axioms;

    let ghost m = counts_of(*c);
    let ks = c.keys();
    proof {
        assert forall|k: Seq<char>| #[trigger] m.dom().contains(k) implies ks@.map_values(
            |s: String| s@,
        ).to_set().contains(k) by {
            let i = choose|i: int| 0 <= i < ks@.len() && ks@[i]@ == k;
            assert(ks@.map_values(|s: String| s@)[i] == k);
        }
        assert(m.dom().subset_of(ks@.map_values(|s: String| s@).to_set()));
        assert(m.dom().finite());
    }
    let mut r = AuthorCounts::new();
    let ghost mut seen: Set<Seq<char>> = Set::empty();
    proof {
        assert forall|a: Seq<char>| #[trigger]
            count_at(counts_of(r), a) == map_total(norm_restrict_seen(m, a, seen)) by {
            assert(norm_restrict_seen(m, a, seen).dom() =~= Set::<Seq<char>>::empty());
            assert(map_total(norm_restrict_seen(m, a, seen)) == 0);
        }
    }
    let mut idx: usize = 0;
    while idx < ks.len()
        invariant
            m == counts_of(*c),
            no_norm_overflow(m),
            m.dom().finite(),
            0 <= idx <= ks@.len(),
            forall|i: int| 0 <= i < ks@.len() ==> m.dom().contains(#[trigger] ks@[i]@),
            forall|k: Seq<char>|
                #[trigger] m.dom().contains(k) ==> among_first(ks@, ks@.len() as int, k),
            forall|i: int, j: int| 0 <= i < j < ks@.len() ==> ks@[i]@ != ks@[j]@,
            seen.finite(),
            forall|k: Seq<char>| #[trigger] seen.contains(k) <==> among_first(ks@, idx as int, k),
            forall|a: Seq<char>| #[trigger]
                count_at(counts_of(r), a) == map_total(norm_restrict_seen(m, a, seen)),
            forall|a: Seq<char>| #[trigger]
                counts_of(r).dom().contains(a) <==> exists|k: Seq<char>| #[trigger]
                    seen.contains(k) && m.dom().contains(k) && normalize_spec(k) == a,
        decreases ks@.len() - idx,
    {
        broadcast use vstd::set_lib::lemma_set_subset_finite;
        broadcast use vstd::set::group_set_axioms;
        broadcast use vstd::map::group_map_axioms;

        let ghost pre = counts_of(r);
        let ghost seen0 = seen;
        let kstr = &ks[idx];
        let ghost kk = kstr@;
        let name = normalize(kstr.as_str());
        let ghost na = normalize_spec(kk);
        let v = c.get_count(kstr.as_str());
        proof {
            assert(name@ == na);
            assert(m.dom().contains(kk));
            assert(v == m[kk]);
            assert(!seen.contains(kk)) by {
                if among_first(ks@, idx as int, kk) {
                    let i = choose|i: int| 0 <= i < idx && ks@[i]@ == kk;
                    assert(ks@[i]@ != ks@[idx as int]@);
                }
            }
            let r0 = norm_restrict_seen(m, na, seen);
            let r1 = norm_restrict_seen(m, na, seen.insert(kk));
            assert(r0.dom().subset_of(seen));
            assert(r0.dom().finite());
            assert(r1 =~= r0.insert(kk, m[kk]));
            lemma_map_total_insert(r0, kk, m[kk]);
            assert(count_at(r0, kk) == 0);
            assert(r1.submap_of(norm_restrict(m, na))) by {
                assert forall|k: Seq<char>| #[trigger] r1.dom().contains(k) implies norm_restrict(
                    m,
                    na,
                ).dom().contains(k) && r1[k] == norm_restrict(m, na)[k] by {}
            }
            assert(r1.dom().finite()) by {
                assert(r1.dom().subset_of(seen.insert(kk)));
            }
            assert(norm_restrict(m, na).dom().finite()) by {
                assert(norm_restrict(m, na).dom().subset_of(m.dom()));
            }
            lemma_map_total_submap(r1, norm_restrict(m, na));
            assert(map_total(r1) <= norm_sum(m, na));
            lemma_map_total_nonneg(r0);
            assert(count_at(pre, na) + v <= u64::MAX);
        }
        r.add_count(name.as_str(), v);
        proof {
            seen = seen0.insert(kk);
            let ghost r0 = norm_restrict_seen(m, na, seen0);
            let ghost r1 = norm_restrict_seen(m, na, seen0.insert(kk));
            assert(counts_of(r) == pre.insert(na, (count_at(pre, na) + v) as u64));
            assert forall|a: Seq<char>| #[trigger]
                count_at(counts_of(r), a) == map_total(norm_restrict_seen(m, a, seen)) by {
                if a == na {
                    assert(norm_restrict_seen(m, a, seen) =~= r1);
                    assert(map_total(r1) == map_total(r0) + m[kk]);
                    assert(count_at(pre, na) == map_total(r0));
                    assert(count_at(counts_of(r), na) == count_at(pre, na) + v);
                } else {
                    assert(norm_restrict_seen(m, a, seen) =~= norm_restrict_seen(m, a, seen0));
                    assert(count_at(counts_of(r), a) == count_at(pre, a));
                }
            }
            assert forall|a: Seq<char>| #[trigger]
                counts_of(r).dom().contains(a) <==> exists|k: Seq<char>| #[trigger]
                    seen.contains(k) && m.dom().contains(k) && normalize_spec(k) == a by {
                if counts_of(r).dom().contains(a) {
                    if a == na {
                        assert(seen.contains(kk) && m.dom().contains(kk) && normalize_spec(kk)
                            == a);
                    } else {
                        assert(pre.dom().contains(a));
                        let k = choose|k: Seq<char>| #[trigger]
                            seen0.contains(k) && m.dom().contains(k) && normalize_spec(k) == a;
                        assert(seen.contains(k) && m.dom().contains(k) && normalize_spec(k)
                            == a);
                    }
                }
                if exists|k: Seq<char>| #[trigger]
                    seen.contains(k) && m.dom().contains(k) && normalize_spec(k) == a {
                    let k = choose|k: Seq<char>| #[trigger]
                        seen.contains(k) && m.dom().contains(k) && normalize_spec(k) == a;
                    if k == kk {
                        assert(a == na);
                        assert(counts_of(r).dom().contains(a));
                    } else {
                        assert(seen0.contains(k) && m.dom().contains(k) && normalize_spec(k)
                            == a);
                        assert(pre.dom().contains(a));
                    }
                }
            }
        }
        idx += 1;
    }
    proof {
        assert(counts_of(r) =~= norm_counts(m)) by {
            assert forall|a: Seq<char>|
                counts_of(r).dom().contains(a) <==> norm_counts(m).dom().contains(a) by {
                if norm_counts(m).dom().contains(a) {
                    let k = choose|k: Seq<char>| #[trigger]
                        m.dom().contains(k) && normalize_spec(k) == a;
                    assert(among_first(ks@, ks@.len() as int, k));
                    assert(seen.contains(k));
                }
            }
            assert forall|a: Seq<char>| #[trigger]
                norm_counts(m).dom().contains(a) implies counts_of(r)[a] == norm_counts(m)[a] by {
                assert(norm_restrict_seen(m, a, seen) =~= norm_restrict(m, a)) by {
                    assert forall|k: Seq<char>| #[trigger] m.dom().contains(k) implies seen.contains(
                        k,
                    ) by {}
                }
                assert(count_at(counts_of(r), a) == norm_sum(m, a));
            }
        }
    }
    r
}

/// Rewrites every period's counts onto canonical author display names,
/// merging counts whose raw spellings normalize alike.  Which period a
/// count belongs to never changes.
pub fn reformat(perf: &AuthorPerformance) -> (r: AuthorPerformance)
    requires
        forall|i: int|
            0 <= i < perf.entries@.len() ==> no_norm_overflow(
                counts_of(#[trigger] perf.entries@[i].counts),
            ),
    ensures
        r.entries@.len() == perf.entries@.len(),
        forall|i: int|
            0 <= i < r.entries@.len() ==> (#[trigger] r.entries@[i]).period@
                == perf.entries@[i].period@,
        forall|i: int|
            0 <= i < r.entries@.len() ==> counts_of((#[trigger] r.entries@[i]).counts)
                == norm_counts(counts_of(perf.entries@[i].counts)),
{
    let mut out: Vec<PeriodCounts> = Vec::new();
    let mut i: usize = 0;
    while i < perf.entries.len()
        invariant
            0 <= i <= perf.entries@.len(),
            forall|j: int|
                0 <= j < perf.entries@.len() ==> no_norm_overflow(
                    counts_of(#[trigger] perf.entries@[j].counts),
                ),
            out@.len() == i,
            forall|j: int|
                0 <= j < i ==> (#[trigger] out@[j]).period@ == perf.entries@[j].period@,
            forall|j: int|
                0 <= j < i ==> counts_of((#[trigger] out@[j]).counts) == norm_counts(
                    counts_of(perf.entries@[j].counts),
                ),
        decreases perf.entries@.len() - i,
    {
        let entry = &perf.entries[i];
        let counts = reformat_counts(&entry.counts);
        let period = entry.period.clone();
        out.push(PeriodCounts { period, counts });
        i += 1;
    }
    AuthorPerformance { entries: out }
}

} // verus!
