//! Per-author line counts: a mapping from raw author identity to a
//! non-negative line count, the commutative merge that aggregates per-file
//! counts into a period total, and the parser of line-attribution output.

use vstd::prelude::*;
use vstd::seq_lib::group_seq_properties;
use crate::text::is_prefix_of;
use crate::text::lines_spec;
use crate::text::split_lines;
use crate::text::str_starts_with;

verus! {

/// A count of attributed lines per raw author identity string.
///
/// The stored mapping is modelled by [`counts_of`]; a missing author stands
/// for a zero count, as [`count_at`] reads it.
#[verifier::external_body]
pub struct AuthorCounts {
    map: hashbrown::HashMap<String, u64>,
}

/// The mapping an [`AuthorCounts`] holds, author identity to stored count.
pub uninterp spec fn counts_of(m: AuthorCounts) -> Map<Seq<char>, u64>;

/// The mapping that counts nothing.
pub open spec fn empty_counts() -> Map<Seq<char>, u64> {
    Map::empty()
}

/// The count recorded for `k`, zero when `k` is absent.
pub open spec fn count_at(m: Map<Seq<char>, u64>, k: Seq<char>) -> int {
    if m.dom().contains(k) {
        m[k] as int
    } else {
        0
    }
}

/// The union of two counts, adding where both count the same author.
pub open spec fn merged(a: Map<Seq<char>, u64>, b: Map<Seq<char>, u64>) -> Map<Seq<char>, u64> {
    Map::new(
        |k: Seq<char>| a.dom().contains(k) || b.dom().contains(k),
        |k: Seq<char>| (count_at(a, k) + count_at(b, k)) as u64,
    )
}

/// No author's merged count would exceed the machine bound.
pub open spec fn no_merge_overflow(a: Map<Seq<char>, u64>, b: Map<Seq<char>, u64>) -> bool {
    forall|k: Seq<char>| count_at(a, k) + count_at(b, k) <= u64::MAX
}

/// `k` is the view of one of the first `idx` keys of `ks`.
pub open spec fn among_first(ks: Seq<String>, idx: int, k: Seq<char>) -> bool {
    exists|i: int| 0 <= i < idx && ks[i]@ == k
}

impl AuthorCounts {
    /// Relies on hashbrown's `HashMap::new`: the new map holds nothing.
    #[verifier::external_body]
    pub fn new() -> (r: AuthorCounts)
        ensures
            counts_of(r) == empty_counts(),
    {
        AuthorCounts { map: hashbrown::HashMap::new() }
    }

    /// Relies on hashbrown's `HashMap::get`: the value stored at the key,
    /// or nothing when the key is absent.
    #[verifier::external_body]
    pub fn get(&self, author: &str) -> (r: Option<u64>)
        ensures
            r == if counts_of(*self).dom().contains(author@) {
                Some(counts_of(*self)[author@])
            } else {
                None::<u64>
            },
    {
        self.map.get(author).copied()
    }

    /// Relies on hashbrown's `HashMap::insert`: afterwards the key maps to
    /// exactly the given value, and no other entry changes.
    #[verifier::external_body]
    pub fn insert(&mut self, author: String, n: u64)
        ensures
            counts_of(*final(self)) == counts_of(*old(self)).insert(author@, n),
    {
        self.map.insert(author, n);
    }

    /// Relies on hashbrown's `HashMap::keys`: every stored key appears
    /// exactly once, in an arbitrary order.
    #[verifier::external_body]
    pub fn keys(&self) -> (r: Vec<String>)
        ensures
            forall|i: int|
                0 <= i < r@.len() ==> counts_of(*self).dom().contains(#[trigger] r@[i]@),
            forall|i: int, j: int| 0 <= i < j < r@.len() ==> r@[i]@ != r@[j]@,
            forall|k: Seq<char>|
                #[trigger] counts_of(*self).dom().contains(k) ==> among_first(r@, r@.len() as int, k),
    {
        self.map.keys().cloned().collect()
    }

    /// The stored count for `author`, zero when absent.
    pub fn get_count(&self, author: &str) -> (r: u64)
        ensures
            r as int == count_at(counts_of(*self), author@),
    {
        match self.get(author) {
            Some(v) => v,
            None => 0,
        }
    }

    /// Credits `author` with `n` more lines.
    pub fn add_count(&mut self, author: &str, n: u64)
        requires
            count_at(counts_of(*old(self)), author@) + n <= u64::MAX,
        ensures
            counts_of(*final(self)) == counts_of(*old(self)).insert(
                author@,
                (count_at(counts_of(*old(self)), author@) + n) as u64,
            ),
    {
        let cur = self.get_count(author);
        self.insert(author.to_owned(), cur + n);
    }

    /// Merges `part` into `self`, adding the counts of authors present in
    /// both. Merging is commutative addition author by author, so the order
    /// in which several parts arrive cannot change the result.
    pub fn merge_from(&mut self, part: &AuthorCounts)
        requires
            no_merge_overflow(counts_of(*old(self)), counts_of(*part)),
        ensures
            counts_of(*final(self)) == merged(counts_of(*old(self)), counts_of(*part)),
    {
        let ghost a = counts_of(*old(self));
        let ghost b = counts_of(*part);
        let ks = part.keys();
        let mut idx: usize = 0;
        while idx < ks.len()
            invariant
                b == counts_of(*part),
                no_merge_overflow(a, b),
                0 <= idx <= ks@.len(),
                forall|i: int| 0 <= i < ks@.len() ==> b.dom().contains(#[trigger] ks@[i]@),
                forall|i: int, j: int| 0 <= i < j < ks@.len() ==> ks@[i]@ != ks@[j]@,
                forall|k: Seq<char>|
                    #[trigger] b.dom().contains(k) ==> among_first(ks@, ks@.len() as int, k),
                forall|k: Seq<char>|
                    #[trigger] counts_of(*self).dom().contains(k) <==> (a.dom().contains(k)
                        || among_first(ks@, idx as int, k)),
                forall|k: Seq<char>|
                    #[trigger] count_at(counts_of(*self), k) == count_at(a, k) + if among_first(
                        ks@,
                        idx as int,
                        k,
                    ) {
                        count_at(b, k)
                    } else {
                        0
                    },
            decreases ks@.len() - idx,
        {
            let ghost pre = counts_of(*self);
            let kstr = &ks[idx];
            let ghost kk = kstr@;
            proof {
                assert(among_first(ks@, idx + 1, kk)) by {
                    assert(ks@[idx as int]@ == kk);
                }
                assert(!among_first(ks@, idx as int, kk)) by {
                    if among_first(ks@, idx as int, kk) {
                        let i = choose|i: int| 0 <= i < idx && ks@[i]@ == kk;
                        assert(ks@[i]@ != ks@[idx as int]@);
                    }
                }
            }
            let add = part.get_count(kstr.as_str());
            let cur = self.get_count(kstr.as_str());
            proof {
                assert(cur as int == count_at(a, kk));
                assert(add as int == count_at(b, kk));
            }
            self.insert(kstr.clone(), cur + add);
            proof {
                assert forall|k: Seq<char>|
                    #[trigger] among_first(ks@, idx + 1, k) <==> (among_first(ks@, idx as int, k)
                        || k == kk) by {
                    if among_first(ks@, idx + 1, k) {
                        let i = choose|i: int| 0 <= i < idx + 1 && ks@[i]@ == k;
                        if i < idx {
                            assert(among_first(ks@, idx as int, k));
                        } else {
                            assert(k == kk);
                        }
                    }
                    if among_first(ks@, idx as int, k) {
                        let i = choose|i: int| 0 <= i < idx && ks@[i]@ == k;
                        assert(0 <= i < idx + 1 && ks@[i]@ == k);
                    }
                    if k == kk {
                        assert(ks@[idx as int]@ == k);
                    }
                }
                assert forall|k: Seq<char>|
                    #[trigger] count_at(counts_of(*self), k) == count_at(a, k) + if among_first(
                        ks@,
                        idx + 1,
                        k,
                    ) {
                        count_at(b, k)
                    } else {
                        0
                    } by {
                    if k == kk {
                        assert(counts_of(*self)[k] == cur + add);
                    } else {
                        assert(count_at(counts_of(*self), k) == count_at(pre, k));
                    }
                }
            }
            idx += 1;
        }
        proof {
            assert forall|k: Seq<char>| #[trigger] b.dom().contains(k) implies among_first(
                ks@,
                idx as int,
                k,
            ) by {}
            assert forall|k: Seq<char>| among_first(ks@, idx as int, k) implies b.dom().contains(
                k,
            ) by {
                let i = choose|i: int| 0 <= i < idx && ks@[i]@ == k;
                assert(b.dom().contains(ks@[i]@));
            }
            assert(counts_of(*self) =~= merged(a, b)) by {
                assert forall|k: Seq<char>|
                    counts_of(*self).dom().contains(k) <==> merged(a, b).dom().contains(k) by {
                    assert(counts_of(*self).dom().contains(k) <==> (a.dom().contains(k)
                        || among_first(ks@, idx as int, k)));
                }
                assert forall|k: Seq<char>| #[trigger]
                    merged(a, b).dom().contains(k) implies counts_of(*self)[k] == merged(a, b)[k] by {
                    assert(count_at(counts_of(*self), k) == count_at(a, k) + if among_first(
                        ks@,
                        idx as int,
                        k,
                    ) {
                        count_at(b, k)
                    } else {
                        0
                    });
                }
            }
        }
    }
}

/// The per-file counts folded into one period total, in sequence order.
pub open spec fn merge_all(fs: Seq<Map<Seq<char>, u64>>) -> Map<Seq<char>, u64>
    decreases fs.len(),
{
    if fs.len() == 0 {
        empty_counts()
    } else {
        merged(merge_all(fs.drop_last()), fs.last())
    }
}

/// The sum of the counts the maps of `fs` record for `k`.
pub open spec fn sum_at(fs: Seq<Map<Seq<char>, u64>>, k: Seq<char>) -> int
    decreases fs.len(),
{
    if fs.len() == 0 {
        0
    } else {
        sum_at(fs.drop_last(), k) + count_at(fs.last(), k)
    }
}

/// The models of a sequence of counts.
pub open spec fn views_of(fs: Seq<AuthorCounts>) -> Seq<Map<Seq<char>, u64>> {
    fs.map_values(|c: AuthorCounts| counts_of(c))
}

/// No author's count summed over all of `fs` exceeds the machine bound.
pub open spec fn no_sum_overflow(fs: Seq<Map<Seq<char>, u64>>) -> bool {
    forall|k: Seq<char>| sum_at(fs, k) <= u64::MAX
}

/// A sum of counts never goes below zero.
pub proof fn lemma_sum_at_nonneg(fs: Seq<Map<Seq<char>, u64>>, k: Seq<char>)
    ensures
        sum_at(fs, k) >= 0,
    decreases fs.len(),
{
    if fs.len() > 0 {
        lemma_sum_at_nonneg(fs.drop_last(), k);
    }
}

/// A prefix of the files never sums higher than the whole.
pub proof fn lemma_sum_at_take_le(fs: Seq<Map<Seq<char>, u64>>, j: int, k: Seq<char>)
    requires
        0 <= j <= fs.len(),
    ensures
        sum_at(fs.take(j), k) <= sum_at(fs, k),
    decreases fs.len() - j,
{
    if j == fs.len() {
        assert(fs.take(j) =~= fs);
    } else {
        lemma_sum_at_take_le(fs, j + 1, k);
        assert(fs.take(j + 1).drop_last() =~= fs.take(j));
        assert(fs.take(j + 1).last() == fs[j]);
    }
}

/// Folding the files gives each author exactly the sum of that author's
/// per-file counts.
pub proof fn lemma_merge_all_counts(fs: Seq<Map<Seq<char>, u64>>)
    requires
        no_sum_overflow(fs),
    ensures
        forall|k: Seq<char>| #[trigger] count_at(merge_all(fs), k) == sum_at(fs, k),
    decreases fs.len(),
{
    if fs.len() > 0 {
        assert forall|k: Seq<char>| sum_at(fs.drop_last(), k) <= u64::MAX by {
            assert(sum_at(fs, k) == sum_at(fs.drop_last(), k) + count_at(fs.last(), k));
            assert(sum_at(fs, k) <= u64::MAX);
            assert(count_at(fs.last(), k) >= 0);
        }
        lemma_merge_all_counts(fs.drop_last());
        assert forall|k: Seq<char>| #[trigger] count_at(merge_all(fs), k) == sum_at(fs, k) by {
            let a = merge_all(fs.drop_last());
            let b = fs.last();
            assert(count_at(a, k) == sum_at(fs.drop_last(), k));
            assert(sum_at(fs, k) == sum_at(fs.drop_last(), k) + count_at(b, k));
            assert(sum_at(fs, k) <= u64::MAX);
            lemma_sum_at_nonneg(fs.drop_last(), k);
            assert(merge_all(fs) == merged(a, b));
            if a.dom().contains(k) || b.dom().contains(k) {
                assert(merged(a, b).dom().contains(k));
                assert(merged(a, b)[k] == (count_at(a, k) + count_at(b, k)) as u64);
            } else {
                assert(count_at(a, k) == 0 && count_at(b, k) == 0);
            }
        }
    }
}

/// Merges per-file author counts into one period total.
///
/// Each author's total is the sum of that author's counts over all the
/// files; an author missing from a file contributes zero there.
pub fn aggregate_period(files: &Vec<AuthorCounts>) -> (r: AuthorCounts)
    requires
        no_sum_overflow(views_of(files@)),
    ensures
        counts_of(r) == merge_all(views_of(files@)),
        forall|k: Seq<char>| #[trigger] count_at(counts_of(r), k) == sum_at(views_of(files@), k),
{
    let ghost vs = views_of(files@);
    let mut r = AuthorCounts::new();
    proof {
        assert(vs.take(0) =~= Seq::<Map<Seq<char>, u64>>::empty());
    }
    let mut i: usize = 0;
    while i < files.len()
        invariant
            vs == views_of(files@),
            no_sum_overflow(vs),
            0 <= i <= files@.len(),
            counts_of(r) == merge_all(vs.take(i as int)),
        decreases files@.len() - i,
    {
        proof {
            assert forall|k: Seq<char>| sum_at(vs.take(i as int), k) <= u64::MAX by {
                lemma_sum_at_take_le(vs, i as int, k);
                assert(sum_at(vs, k) <= u64::MAX);
            }
            lemma_merge_all_counts(vs.take(i as int));
            assert forall|k: Seq<char>|
                count_at(counts_of(r), k) + count_at(counts_of(files@[i as int]), k)
                    <= u64::MAX by {
                assert(vs.take(i + 1).drop_last() =~= vs.take(i as int));
                assert(vs.take(i + 1).last() == vs[i as int]);
                assert(vs[i as int] == counts_of(files@[i as int]));
                lemma_sum_at_take_le(vs, i + 1, k);
                assert(sum_at(vs.take(i + 1), k) == sum_at(vs.take(i as int), k) + count_at(
                    counts_of(files@[i as int]),
                    k,
                ));
            }
        }
        let part = &files[i];
        r.merge_from(part);
        proof {
            assert(vs.take(i + 1).drop_last() =~= vs.take(i as int));
            assert(vs.take(i + 1).last() == vs[i as int]);
            assert(counts_of(r) == merge_all(vs.take(i + 1)));
        }
        i += 1;
    }
    proof {
        assert(vs.take(files@.len() as int) =~= vs);
        lemma_merge_all_counts(vs);
    }
    r
}

/// Removing one file takes exactly its contribution out of the sum.
pub proof fn lemma_sum_at_remove(fs: Seq<Map<Seq<char>, u64>>, i: int, k: Seq<char>)
    requires
        0 <= i < fs.len(),
    ensures
        sum_at(fs.remove(i), k) == sum_at(fs, k) - count_at(fs[i], k),
    decreases fs.len(),
{
    if i == fs.len() - 1 {
        assert(fs.remove(i) =~= fs.drop_last());
    } else {
        assert(fs.remove(i).drop_last() =~= fs.drop_last().remove(i));
        assert(fs.remove(i).last() == fs.last());
        lemma_sum_at_remove(fs.drop_last(), i, k);
    }
}

/// Worker completion order cannot change a period total: any two
/// arrangements of the same per-file counts sum to the same count for
/// every author.
pub proof fn lemma_sum_order_irrelevant(
    fs1: Seq<Map<Seq<char>, u64>>,
    fs2: Seq<Map<Seq<char>, u64>>,
    k: Seq<char>,
)
    requires
        fs1.to_multiset() == fs2.to_multiset(),
    ensures
        sum_at(fs1, k) == sum_at(fs2, k),
    decreases fs1.len(),
{
    broadcast use group_seq_properties;

    if fs1.len() == 0 {
        assert(fs2.to_multiset().len() == 0);
        assert(fs2.len() == 0);
    } else {
        let x = fs1.last();
        let last = fs1.len() - 1;
        assert(fs1.to_multiset().contains(x)) by {
            assert(fs1[last] == x);
        }
        assert(fs2.to_multiset().contains(x));
        assert(fs2.contains(x));
        let j = choose|j: int| 0 <= j < fs2.len() && fs2[j] == x;
        let fs1p = fs1.drop_last();
        let fs2p = fs2.remove(j);
        assert(fs1.remove(last) =~= fs1p);
        assert(fs1p.to_multiset() == fs1.to_multiset().remove(x));
        assert(fs2p.to_multiset() == fs2.to_multiset().remove(x));
        lemma_sum_order_irrelevant(fs1p, fs2p, k);
        lemma_sum_at_remove(fs2, j, k);
    }
}

/// A line of attribution output that credits an author.
pub open spec fn is_author_line(l: Seq<char>) -> bool {
    is_prefix_of("author "@, l)
}

/// The crediting lines among `lines`.
pub open spec fn author_lines(lines: Seq<Seq<char>>) -> Seq<Seq<char>> {
    lines.filter(|l: Seq<char>| is_author_line(l))
}

/// The author of each crediting line, one entry per attributed line.
pub open spec fn author_entries(lines: Seq<Seq<char>>) -> Seq<Seq<char>> {
    author_lines(lines).map_values(|l: Seq<char>| l.skip(7))
}

/// How often `a` occurs in `es`.
pub open spec fn occurrences(es: Seq<Seq<char>>, a: Seq<char>) -> int {
    es.filter(|x: Seq<char>| x == a).len() as int
}

/// The count of each value occurring in `es`.
pub open spec fn entry_counts(es: Seq<Seq<char>>) -> Map<Seq<char>, u64> {
    Map::new(|a: Seq<char>| occurrences(es, a) > 0, |a: Seq<char>| occurrences(es, a) as u64)
}

proof fn lemma_author_lines_push(lines: Seq<Seq<char>>, l: Seq<char>)
    ensures
        is_author_line(l) ==> author_lines(lines.push(l)) == author_lines(lines).push(l),
        !is_author_line(l) ==> author_lines(lines.push(l)) == author_lines(lines),
{
    reveal_with_fuel(Seq::<_>::filter, 2);
    assert(lines.push(l).drop_last() =~= lines);
    assert(lines.push(l).last() == l);
}

proof fn lemma_author_entries_push(lines: Seq<Seq<char>>, l: Seq<char>)
    ensures
        is_author_line(l) ==> author_entries(lines.push(l)) == author_entries(lines).push(
            l.skip(7),
        ),
        !is_author_line(l) ==> author_entries(lines.push(l)) == author_entries(lines),
{
    lemma_author_lines_push(lines, l);
    if is_author_line(l) {
        assert(author_entries(lines.push(l)) =~= author_entries(lines).push(l.skip(7)));
    }
}

proof fn lemma_occ_push(es: Seq<Seq<char>>, x: Seq<char>, a: Seq<char>)
    ensures
        occurrences(es.push(x), a) == occurrences(es, a) + if x == a {
            1int
        } else {
            0int
        },
{
    reveal_with_fuel(Seq::<_>::filter, 2);
    assert(es.push(x).drop_last() =~= es);
    assert(es.push(x).last() == x);
}

proof fn lemma_occ_le_len(es: Seq<Seq<char>>, a: Seq<char>)
    ensures
        0 <= occurrences(es, a) <= es.len(),
    decreases es.len(),
{
    if es.len() > 0 {
        lemma_occ_le_len(es.drop_last(), a);
        lemma_occ_push(es.drop_last(), es.last(), a);
        assert(es.drop_last().push(es.last()) =~= es);
    }
}

proof fn lemma_author_entries_len(lines: Seq<Seq<char>>)
    ensures
        0 <= author_entries(lines).len() <= lines.len(),
    decreases lines.len(),
{
    if lines.len() > 0 {
        lemma_author_entries_len(lines.drop_last());
        lemma_author_entries_push(lines.drop_last(), lines.last());
        assert(lines.drop_last().push(lines.last()) =~= lines);
    }
}

/// The per-author line counts that one file's attribution output records:
/// each author is counted once per crediting line.
pub open spec fn blame_counts(s: Seq<char>) -> Map<Seq<char>, u64> {
    entry_counts(author_entries(lines_spec(s)))
}

/// Counts, for one file's line-attribution output, the lines credited to
/// each raw author identity.
pub fn count_blame_authors(out: &str) -> (r: AuthorCounts)
    ensures
        counts_of(r) == blame_counts(out@),
{
    broadcast use group_seq_properties;

    let lines = split_lines(out);
    let ghost dv = lines.deep_view();
    let mut r = AuthorCounts::new();
    proof {
        reveal_strlit("author ");
        assert(dv.take(0) =~= Seq::<Seq<char>>::empty());
        assert(author_entries(dv.take(0)) =~= Seq::<Seq<char>>::empty());
        assert(counts_of(r) =~= entry_counts(author_entries(dv.take(0))));
    }
    let mut j: usize = 0;
    while j < lines.len()
        invariant
            dv == lines.deep_view(),
            dv == lines_spec(out@),
            dv.len() == lines@.len(),
            0 <= j <= lines@.len(),
            counts_of(r) == entry_counts(author_entries(dv.take(j as int))),
        decreases lines@.len() - j,
    {
        let line = &lines[j];
        let ghost es = author_entries(dv.take(j as int));
        proof {
            reveal_strlit("author ");
            assert(dv[j as int] == line@);
            assert(dv.take(j + 1) =~= dv.take(j as int).push(dv[j as int]));
            lemma_author_entries_push(dv.take(j as int), dv[j as int]);
        }
        if str_starts_with(line.as_str(), "author ") {
            let llen = line.as_str().unicode_len();
            let author = line.as_str().substring_char(7, llen);
            let ghost e = dv[j as int].skip(7);
            proof {
                assert(author@ =~= e);
                lemma_occ_le_len(es, e);
                lemma_author_entries_len(dv.take(j as int));
                assert(es.len() <= j);
                assert(count_at(counts_of(r), e) == occurrences(es, e));
            }
            r.add_count(author, 1);
            proof {
                let esp = es.push(e);
                assert forall|a: Seq<char>|
                    #[trigger] occurrences(esp, a) == occurrences(es, a) + if a == e {
                        1int
                    } else {
                        0int
                    } by {
                    lemma_occ_push(es, e, a);
                }
                assert forall|a: Seq<char>| #[trigger] occurrences(es, a) >= 0 by {
                    lemma_occ_le_len(es, a);
                }
                assert(counts_of(r) =~= entry_counts(esp)) by {
                    assert forall|a: Seq<char>| #[trigger]
                        entry_counts(esp).dom().contains(a) implies counts_of(r)[a]
                        == entry_counts(esp)[a] by {
                        if a != e {
                            assert(counts_of(r)[a] == entry_counts(es)[a]);
                        }
                    }
                }
                assert(author_entries(dv.take(j + 1)) == esp);
            }
        }
        j += 1;
    }
    proof {
        assert(dv.take(lines@.len() as int) =~= dv);
    }
    r
}

/// The sum of all counts a single mapping records.
pub open spec fn map_total(m: Map<Seq<char>, u64>) -> int
    decreases m.dom().len() when m.dom().finite()
{
    if m.dom().finite() && !m.dom().is_empty() {
        let k = m.dom().choose();
        m[k] + map_total(m.remove(k))
    } else {
        0
    }
}

/// Taking one author out lowers the total by exactly that author's count.
pub proof fn lemma_map_total_remove(m: Map<Seq<char>, u64>, k: Seq<char>)
    requires
        m.dom().finite(),
        m.dom().contains(k),
    ensures
        map_total(m.remove(k)) == map_total(m) - m[k],
    decreases m.dom().len(),
{
    broadcast use vstd::set::group_set_axioms;
    broadcast use vstd::map::group_map_axioms;

    let c = m.dom().choose();
    assert(!m.dom().is_empty());
    assert(m.dom().contains(c));
    if c == k {
        assert(map_total(m) == m[c] + map_total(m.remove(c)));
    } else {
        lemma_map_total_remove(m.remove(c), k);
        lemma_map_total_remove(m.remove(k), c);
        assert(m.remove(c).remove(k) =~= m.remove(k).remove(c));
        assert(map_total(m) == m[c] + map_total(m.remove(c)));
        let x = m.remove(k);
        if x.dom().is_empty() {
            assert(x.dom().contains(c));
            assert(false);
        }
        let c2 = x.dom().choose();
        assert(x.dom().contains(c2));
        lemma_map_total_remove(x, c2);
        assert(map_total(x) == x[c2] + map_total(x.remove(c2)));
    }
}

/// Writing an author's count replaces that author's share of the total.
pub proof fn lemma_map_total_insert(m: Map<Seq<char>, u64>, k: Seq<char>, v: u64)
    requires
        m.dom().finite(),
    ensures
        map_total(m.insert(k, v)) == map_total(m) - count_at(m, k) + v,
{
    broadcast use vstd::set::group_set_axioms;
    broadcast use vstd::map::group_map_axioms;

    let mi = m.insert(k, v);
    lemma_map_total_remove(mi, k);
    if m.dom().contains(k) {
        lemma_map_total_remove(m, k);
        assert(mi.remove(k) =~= m.remove(k));
    } else {
        assert(mi.remove(k) =~= m);
    }
}

/// Merging two counts adds their totals.
pub proof fn lemma_merged_total(a: Map<Seq<char>, u64>, b: Map<Seq<char>, u64>)
    requires
        a.dom().finite(),
        b.dom().finite(),
        no_merge_overflow(a, b),
    ensures
        merged(a, b).dom().finite(),
        map_total(merged(a, b)) == map_total(a) + map_total(b),
    decreases b.dom().len(),
{
    broadcast use vstd::set::group_set_axioms;
    broadcast use vstd::map::group_map_axioms;

    assert(merged(a, b).dom() =~= a.dom().union(b.dom()));
    vstd::set_lib::lemma_set_union_finite_iff(a.dom(), b.dom());
    if b.dom().is_empty() {
        assert(merged(a, b) =~= a) by {
            assert forall|k: Seq<char>| #[trigger]
                merged(a, b).dom().contains(k) implies merged(a, b)[k] == a[k] by {
                assert(!b.dom().contains(k));
                assert(count_at(b, k) == 0);
                assert(a.dom().contains(k));
                assert(0 <= a[k] <= u64::MAX);
            }
        }
        assert(map_total(b) == 0);
    } else {
        let k = b.dom().choose();
        assert(b.dom().contains(k));
        let b2 = b.remove(k);
        assert forall|k2: Seq<char>| count_at(a, k2) + count_at(b2, k2) <= u64::MAX by {
            assert(count_at(b2, k2) <= count_at(b, k2));
            assert(count_at(a, k2) + count_at(b, k2) <= u64::MAX);
        }
        lemma_merged_total(a, b2);
        let v: u64 = (count_at(a, k) + count_at(b, k)) as u64;
        assert(merged(a, b) =~= merged(a, b2).insert(k, v)) by {
            assert forall|k2: Seq<char>| #[trigger]
                merged(a, b).dom().contains(k2) implies merged(a, b)[k2] == merged(
                a,
                b2,
            ).insert(k, v)[k2] by {
                if k2 != k {
                    assert(count_at(b2, k2) == count_at(b, k2));
                }
            }
        }
        lemma_map_total_insert(merged(a, b2), k, v);
        assert(count_at(merged(a, b2), k) == count_at(a, k)) by {
            assert(count_at(b2, k) == 0);
            if merged(a, b2).dom().contains(k) {
                assert(merged(a, b2)[k] == (count_at(a, k) + 0) as u64);
            }
        }
        lemma_map_total_remove(b, k);
        assert(v == count_at(a, k) + count_at(b, k));
    }
}

/// A total of non-negative counts is non-negative.
pub proof fn lemma_map_total_nonneg(m: Map<Seq<char>, u64>)
    requires
        m.dom().finite(),
    ensures
        map_total(m) >= 0,
    decreases m.dom().len(),
{
    broadcast use vstd::set::group_set_axioms;

    if !m.dom().is_empty() {
        let k = m.dom().choose();
        assert(m.dom().contains(k));
        lemma_map_total_nonneg(m.remove(k));
    }
}

/// A part of a mapping never totals more than the whole.
pub proof fn lemma_map_total_submap(m1: Map<Seq<char>, u64>, m2: Map<Seq<char>, u64>)
    requires
        m1.submap_of(m2),
        m1.dom().finite(),
        m2.dom().finite(),
    ensures
        map_total(m1) <= map_total(m2),
    decreases m1.dom().len(),
{
    broadcast use vstd::set::group_set_axioms;
    broadcast use vstd::map::group_map_axioms;

    if m1.dom().is_empty() {
        lemma_map_total_nonneg(m2);
        assert(map_total(m1) == 0);
    } else {
        let k = m1.dom().choose();
        assert(m1.dom().contains(k));
        assert(m2.dom().contains(k));
        lemma_map_total_remove(m1, k);
        lemma_map_total_remove(m2, k);
        assert(m1.remove(k).submap_of(m2.remove(k)));
        lemma_map_total_submap(m1.remove(k), m2.remove(k));
        assert(m1[k] == m2[k]);
    }
}

/// The restriction of `m` to the keys in `seen`.
pub open spec fn restrict_to(m: Map<Seq<char>, u64>, seen: Set<Seq<char>>) -> Map<Seq<char>, u64> {
    Map::new(|k: Seq<char>| m.dom().contains(k) && seen.contains(k), |k: Seq<char>| m[k])
}

/// Sums every count a mapping holds.
pub fn total_count(c: &AuthorCounts) -> (r: u64)
    requires
        map_total(counts_of(*c)) <= u64::MAX,
    ensures
        r as int == map_total(counts_of(*c)),
        counts_of(*c).dom().finite(),
{
    broadcast use vstd::set_lib::lemma_set_subset_finite;
    broadcast use vstd::set::group_set_axioms;

    let ghost m = counts_of(*c);
    let ks = c.keys();
    let ghost all: Set<Seq<char>> = Set::new(|k: Seq<char>| among_first(ks@, ks@.len() as int, k));
    proof {
        assert forall|k: Seq<char>| #[trigger] all.contains(k) implies ks@.map_values(
            |s: String| s@,
        ).to_set().contains(k) by {
            let i = choose|i: int| 0 <= i < ks@.len() && ks@[i]@ == k;
            assert(ks@.map_values(|s: String| s@)[i] == k);
        }
        assert(ks@.map_values(|s: String| s@).to_set().finite());
        assert(all.subset_of(ks@.map_values(|s: String| s@).to_set()));
        assert(m.dom().subset_of(all)) by {
            assert forall|k: Seq<char>| #[trigger] m.dom().contains(k) implies all.contains(
                k,
            ) by {}
        }
        assert(m.dom().finite());
    }
    let mut sum: u64 = 0;
    let ghost mut seen: Set<Seq<char>> = Set::empty();
    proof {
        assert(restrict_to(m, seen).dom() =~= Set::<Seq<char>>::empty());
        assert(map_total(restrict_to(m, seen)) == 0);
    }
    let mut idx: usize = 0;
    while idx < ks.len()
        invariant
            m == counts_of(*c),
            m.dom().finite(),
            map_total(m) <= u64::MAX,
            0 <= idx <= ks@.len(),
            forall|i: int| 0 <= i < ks@.len() ==> m.dom().contains(#[trigger] ks@[i]@),
            forall|i: int, j: int| 0 <= i < j < ks@.len() ==> ks@[i]@ != ks@[j]@,
            seen.finite(),
            forall|k: Seq<char>| #[trigger] seen.contains(k) <==> among_first(ks@, idx as int, k),
            sum as int == map_total(restrict_to(m, seen)),
        decreases ks@.len() - idx,
    {
        broadcast use vstd::set_lib::lemma_set_subset_finite;
        broadcast use vstd::set::group_set_axioms;

        let kstr = &ks[idx];
        let ghost kk = kstr@;
        let v = c.get_count(kstr.as_str());
        proof {
            assert(m.dom().contains(kk));
            assert(v == m[kk]);
            assert(!seen.contains(kk)) by {
                if among_first(ks@, idx as int, kk) {
                    let i = choose|i: int| 0 <= i < idx && ks@[i]@ == kk;
                    assert(ks@[i]@ != ks@[idx as int]@);
                }
            }
            let r0 = restrict_to(m, seen);
            let r1 = restrict_to(m, seen.insert(kk));
            assert(r0.dom().subset_of(m.dom()));
            assert(r0.dom().finite());
            assert(r1 =~= r0.insert(kk, m[kk]));
            lemma_map_total_insert(r0, kk, m[kk]);
            assert(count_at(r0, kk) == 0);
            assert(r1.submap_of(m)) by {
                assert forall|k: Seq<char>| #[trigger] r1.dom().contains(k) implies m.dom().contains(
                    k,
                ) && r1[k] == m[k] by {}
            }
            assert(r1.dom().finite()) by {
                assert(r1.dom().subset_of(m.dom()));
            }
            lemma_map_total_submap(r1, m);
            assert(map_total(r1) == sum + v);
            lemma_map_total_nonneg(r0);
        }
        sum = sum + v;
        proof {
            seen = seen.insert(kk);
            assert forall|k: Seq<char>| #[trigger] seen.contains(k) <==> among_first(
                ks@,
                idx + 1,
                k,
            ) by {
                if seen.contains(k) {
                    if k == kk {
                        assert(ks@[idx as int]@ == k);
                    } else {
                        let i = choose|i: int| 0 <= i < idx && ks@[i]@ == k;
                        assert(0 <= i < idx + 1 && ks@[i]@ == k);
                    }
                }
                if among_first(ks@, idx + 1, k) {
                    let i = choose|i: int| 0 <= i < idx + 1 && ks@[i]@ == k;
                    if i < idx {
                        assert(among_first(ks@, idx as int, k));
                    }
                }
            }
        }
        idx += 1;
    }
    proof {
        assert(restrict_to(m, seen) =~= m) by {
            assert forall|k: Seq<char>| #[trigger] m.dom().contains(k) implies seen.contains(
                k,
            ) by {}
        }
    }
    sum
}

/// The sum of the totals of the per-file counts of `fs`.
pub open spec fn totals_sum(fs: Seq<Map<Seq<char>, u64>>) -> int
    decreases fs.len(),
{
    if fs.len() == 0 {
        0
    } else {
        totals_sum(fs.drop_last()) + map_total(fs.last())
    }
}

/// Conservation: aggregation neither gains nor loses lines.  The total of
/// a period's merged counts equals the sum of the per-file totals over the
/// files that were merged.
pub proof fn lemma_conservation(fs: Seq<Map<Seq<char>, u64>>)
    requires
        forall|i: int| 0 <= i < fs.len() ==> (#[trigger] fs[i]).dom().finite(),
        no_sum_overflow(fs),
    ensures
        merge_all(fs).dom().finite(),
        map_total(merge_all(fs)) == totals_sum(fs),
    decreases fs.len(),
{
    broadcast use vstd::set::group_set_axioms;

    if fs.len() == 0 {
        assert(merge_all(fs).dom() =~= Set::<Seq<char>>::empty());
    } else {
        let pre = fs.drop_last();
        assert forall|k: Seq<char>| sum_at(pre, k) <= u64::MAX by {
            assert(sum_at(fs, k) == sum_at(pre, k) + count_at(fs.last(), k));
            assert(sum_at(fs, k) <= u64::MAX);
            assert(count_at(fs.last(), k) >= 0);
        }
        assert forall|i: int| 0 <= i < pre.len() implies (#[trigger] pre[i]).dom().finite() by {
            assert(pre[i] == fs[i]);
        }
        lemma_conservation(pre);
        assert(fs.last() == fs[fs.len() - 1]);
        assert forall|k: Seq<char>|
            count_at(merge_all(pre), k) + count_at(fs.last(), k) <= u64::MAX by {
            lemma_merge_all_counts(pre);
            assert(count_at(merge_all(pre), k) == sum_at(pre, k));
            assert(sum_at(fs, k) == sum_at(pre, k) + count_at(fs.last(), k));
            assert(sum_at(fs, k) <= u64::MAX);
            lemma_sum_at_nonneg(pre, k);
        }
        lemma_merged_total(merge_all(pre), fs.last());
    }
}

} // verus!
