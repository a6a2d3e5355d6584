//! The report: rows are canonical authors, columns are periods in
//! chronological order, each cell an author's count for that period, or
//! its share of the period's column total.

use vstd::prelude::*;
use crate::counts::count_at;
use crate::counts::counts_of;
use crate::counts::lemma_map_total_nonneg;
use crate::counts::lemma_map_total_remove;
use crate::counts::lemma_sum_at_take_le;
use crate::counts::map_total;
use crate::counts::sum_at;
use crate::counts::total_count;
use crate::perf::AuthorPerformance;
use crate::perf::PeriodCounts;
use crate::text::dec_spec;
use crate::text::pad_left;
use crate::text::pad_left_spec;
use crate::text::pad_right;
use crate::text::pad_right_spec;
use crate::text::u64_to_string;

verus! {

/// The counts of each recorded period, in order.
pub open spec fn maps_of(entries: Seq<PeriodCounts>) -> Seq<Map<Seq<char>, u64>> {
    entries.map_values(|e: PeriodCounts| counts_of(e.counts))
}

/// `a` is at or before `b` in character-code order.
pub open spec fn lex_le(a: Seq<char>, b: Seq<char>) -> bool
    decreases a.len(),
{
    if a.len() == 0 {
        true
    } else if b.len() == 0 {
        false
    } else if (a[0] as u32) < (b[0] as u32) {
        true
    } else if (a[0] as u32) > (b[0] as u32) {
        false
    } else {
        lex_le(a.drop_first(), b.drop_first())
    }
}

/// Any two names are ordered one way or the other.
pub proof fn lemma_lex_total(a: Seq<char>, b: Seq<char>)
    ensures
        lex_le(a, b) || lex_le(b, a),
    decreases a.len(),
{
    if a.len() > 0 && b.len() > 0 && a[0] as u32 == b[0] as u32 {
        lemma_lex_total(a.drop_first(), b.drop_first());
    }
}

/// Name order carries over a middle name.
pub proof fn lemma_lex_trans(a: Seq<char>, b: Seq<char>, c: Seq<char>)
    requires
        lex_le(a, b),
        lex_le(b, c),
    ensures
        lex_le(a, c),
    decreases a.len(),
{
    if a.len() > 0 && b.len() > 0 && c.len() > 0 && a[0] as u32 == b[0] as u32 && b[0] as u32
        == c[0] as u32 {
        lemma_lex_trans(a.drop_first(), b.drop_first(), c.drop_first());
    }
}

/// One report row: a canonical author and that author's count summed over
/// every period.
pub struct AuthorRow {
    /// The canonical author name.
    pub name: String,
    /// The author's count summed across all periods.
    pub total: u64,
}

/// Row `a` sorts at or before row `b`: by larger total first, ties and the
/// alphabetical mode by name.
pub open spec fn row_le(
    an: Seq<char>,
    at: u64,
    bn: Seq<char>,
    bt: u64,
    by_volume: bool,
) -> bool {
    if by_volume {
        at > bt || (at == bt && lex_le(an, bn))
    } else {
        lex_le(an, bn)
    }
}

/// The rows stand in report order.
pub open spec fn rows_sorted(rs: Seq<AuthorRow>, by_volume: bool) -> bool {
    forall|i: int, j: int|
        0 <= i < j < rs.len() ==> row_le(
            (#[trigger] rs[i]).name@,
            rs[i].total,
            (#[trigger] rs[j]).name@,
            rs[j].total,
            by_volume,
        )
}

proof fn lemma_row_total(an: Seq<char>, at: u64, bn: Seq<char>, bt: u64, by_volume: bool)
    ensures
        row_le(an, at, bn, bt, by_volume) || row_le(bn, bt, an, at, by_volume),
{
    lemma_lex_total(an, bn);
}

proof fn lemma_row_trans(
    an: Seq<char>,
    at: u64,
    bn: Seq<char>,
    bt: u64,
    cn: Seq<char>,
    ct: u64,
    by_volume: bool,
)
    requires
        row_le(an, at, bn, bt, by_volume),
        row_le(bn, bt, cn, ct, by_volume),
    ensures
        row_le(an, at, cn, ct, by_volume),
{
    if lex_le(an, bn) && lex_le(bn, cn) {
        lemma_lex_trans(an, bn, cn);
    }
}

/// Places one row into an already sorted list, keeping it sorted.
fn insert_sorted(rows: &mut Vec<AuthorRow>, row: AuthorRow, by_volume: bool)
    requires
        rows_sorted(old(rows)@, by_volume),
    ensures
        rows_sorted(final(rows)@, by_volume),
        final(rows)@.len() == old(rows)@.len() + 1,
        exists|pos: int|
            0 <= pos <= old(rows)@.len() && final(rows)@ == old(rows)@.insert(pos, row),
{
    broadcast use vstd::seq_lib::group_seq_properties;

    let mut i: usize = 0;
    loop
        invariant
            rows_sorted(rows@, by_volume),
            0 <= i <= rows@.len(),
            forall|j: int|
                0 <= j < i ==> row_le(
                    (#[trigger] rows@[j]).name@,
                    rows@[j].total,
                    row.name@,
                    row.total,
                    by_volume,
                ),
        ensures
            0 <= i <= rows@.len(),
            forall|j: int|
                0 <= j < i ==> row_le(
                    (#[trigger] rows@[j]).name@,
                    rows@[j].total,
                    row.name@,
                    row.total,
                    by_volume,
                ),
            i < rows@.len() ==> row_le(
                row.name@,
                row.total,
                rows@[i as int].name@,
                rows@[i as int].total,
                by_volume,
            ),
        decreases rows@.len() - i,
    {
        if i >= rows.len() {
            break ;
        }
        let before = {
            let cur = &rows[i];
            row_le_exec(&row, cur, by_volume)
        };
        if before {
            break ;
        }
        proof {
            lemma_row_total(row.name@, row.total, rows@[i as int].name@, rows@[i as int].total,
                by_volume);
        }
        i += 1;
    }
    let ghost pre = rows@;
    let ghost pos = i as int;
    rows.insert(i, row);
    proof {
        assert(rows@ == pre.insert(pos, row));
        pre.insert_ensures(pos, row);
        assert forall|i1: int, j1: int| 0 <= i1 < j1 < rows@.len() implies row_le(
            (#[trigger] rows@[i1]).name@,
            rows@[i1].total,
            (#[trigger] rows@[j1]).name@,
            rows@[j1].total,
            by_volume,
        ) by {
            let a = rows@[i1];
            let b = rows@[j1];
            if i1 == pos {
                assert(a == row);
                assert(b == pre[j1 - 1]);
                assert(pos < pre.len());
                assert(row_le(row.name@, row.total, pre[pos].name@, pre[pos].total, by_volume));
                if j1 - 1 > pos {
                    assert(row_le(
                        pre[pos].name@,
                        pre[pos].total,
                        b.name@,
                        b.total,
                        by_volume,
                    ));
                    lemma_row_trans(
                        row.name@,
                        row.total,
                        pre[pos].name@,
                        pre[pos].total,
                        b.name@,
                        b.total,
                        by_volume,
                    );
                }
            } else if j1 == pos {
                assert(b == row);
                assert(a == pre[i1]);
            } else if i1 < pos && j1 > pos {
                assert(a == pre[i1]);
                assert(b == pre[j1 - 1]);
            } else if j1 < pos {
                assert(a == pre[i1]);
                assert(b == pre[j1]);
            } else {
                assert(a == pre[i1 - 1]);
                assert(b == pre[j1 - 1]);
            }
        }
        assert(0 <= pos <= pre.len() && rows@ == pre.insert(pos, row));
    }
}

/// Decides the report order of two rows.
fn row_le_exec(a: &AuthorRow, b: &AuthorRow, by_volume: bool) -> (r: bool)
    ensures
        r == row_le(a.name@, a.total, b.name@, b.total, by_volume),
{
    if by_volume {
        if a.total > b.total {
            true
        } else if a.total == b.total {
            lex_le_exec(a.name.as_str(), b.name.as_str())
        } else {
            false
        }
    } else {
        lex_le_exec(a.name.as_str(), b.name.as_str())
    }
}

/// Decides character-code order of two names.
pub fn lex_le_exec(a: &str, b: &str) -> (r: bool)
    ensures
        r == lex_le(a@, b@),
{
    let alen = a.unicode_len();
    let blen = b.unicode_len();
    let mut i: usize = 0;
    proof {
        assert(a@.skip(0) =~= a@);
        assert(b@.skip(0) =~= b@);
    }
    loop
        invariant
            alen == a@.len(),
            blen == b@.len(),
            0 <= i <= alen,
            0 <= i <= blen,
            lex_le(a@, b@) == lex_le(a@.skip(i as int), b@.skip(i as int)),
        decreases alen - i,
    {
        if i >= alen {
            proof {
                assert(a@.skip(i as int).len() == 0);
            }
            return true;
        }
        if i >= blen {
            proof {
                assert(b@.skip(i as int).len() == 0);
                assert(a@.skip(i as int).len() > 0);
            }
            return false;
        }
        let ca = a.get_char(i);
        let cb = b.get_char(i);
        proof {
            assert(a@.skip(i as int)[0] == a@[i as int]);
            assert(b@.skip(i as int)[0] == b@[i as int]);
            assert(a@.skip(i as int).drop_first() =~= a@.skip(i + 1));
            assert(b@.skip(i as int).drop_first() =~= b@.skip(i + 1));
        }
        if (ca as u32) < (cb as u32) {
            return true;
        }
        if (ca as u32) > (cb as u32) {
            return false;
        }
        i += 1;
    }
}

/// The report value of one cell: the author's count for the period, or,
/// in percentage mode, that count's whole-number share of the period's
/// column total (zero when the column is empty).
pub open spec fn cell_value(m: Map<Seq<char>, u64>, a: Seq<char>, percent: bool) -> int {
    if percent {
        if map_total(m) == 0 {
            0
        } else {
            count_at(m, a) * 100 / map_total(m)
        }
    } else {
        count_at(m, a)
    }
}

/// One author's count is at most the whole mapping's total.
proof fn lemma_count_le_total(m: Map<Seq<char>, u64>, a: Seq<char>)
    requires
        m.dom().finite(),
    ensures
        count_at(m, a) <= map_total(m),
{
    if m.dom().contains(a) {
        lemma_map_total_remove(m, a);
        lemma_map_total_nonneg(m.remove(a));
    } else {
        lemma_map_total_nonneg(m);
    }
}

/// Computes one cell of the report.
fn cell_val(e: &PeriodCounts, name: &str, percent: bool) -> (v: u64)
    requires
        map_total(counts_of(e.counts)) <= u64::MAX,
    ensures
        v as int == cell_value(counts_of(e.counts), name@, percent),
{
    let c = e.counts.get_count(name);
    if percent {
        let tot = total_count(&e.counts);
        if tot == 0 {
            0
        } else {
            proof {
                lemma_count_le_total(counts_of(e.counts), name@);
                assert((c as int) * 100 <= (tot as int) * 100);
                vstd::arithmetic::div_mod::lemma_div_is_ordered(
                    (c as int) * 100,
                    (tot as int) * 100,
                    tot as int,
                );
                vstd::arithmetic::div_mod::lemma_div_by_multiple(100, tot as int);
                assert(((tot as int) * 100) / (tot as int) == 100);
                assert((c as int) * 100 / (tot as int) <= 100);
            }
            (((c as u128) * 100) / (tot as u128)) as u64
        }
    } else {
        c
    }
}

/// Some period of `entries` counts the author `a`.
pub open spec fn occurs_in(entries: Seq<PeriodCounts>, a: Seq<char>) -> bool {
    exists|p: int|
        0 <= p < entries.len() && counts_of((#[trigger] entries[p]).counts).dom().contains(a)
}

/// Builds the report rows: every author any period counts, each exactly
/// once, with the author's count summed over all periods, in report order.
pub fn sorted_authors(perf: &AuthorPerformance, by_volume: bool) -> (r: Vec<AuthorRow>)
    requires
        forall|a: Seq<char>| sum_at(maps_of(perf.entries@), a) <= u64::MAX,
    ensures
        rows_sorted(r@, by_volume),
        forall|i: int, j: int|
            0 <= i < j < r@.len() ==> (#[trigger] r@[i]).name@ != (#[trigger] r@[j]).name@,
        forall|i: int|
            0 <= i < r@.len() ==> (#[trigger] r@[i]).total as int == sum_at(
                maps_of(perf.entries@),
                r@[i].name@,
            ),
        forall|i: int| 0 <= i < r@.len() ==> occurs_in(perf.entries@, (#[trigger] r@[i]).name@),
        forall|a: Seq<char>|
            #[trigger] occurs_in(perf.entries@, a) ==> exists|i: int|
                0 <= i < r@.len() && (#[trigger] r@[i]).name@ == a,
{
    let entries = &perf.entries;
    let ghost maps = maps_of(perf.entries@);
    let mut names: Vec<String> = Vec::new();
    let mut seen = crate::counts::AuthorCounts::new();
    let mut p: usize = 0;
    while p < entries.len()
        invariant
            maps == maps_of(perf.entries@),
            entries == perf.entries,
            0 <= p <= entries@.len(),
            forall|a: Seq<char>|
                #[trigger] counts_of(seen).dom().contains(a) <==> crate::counts::among_first(
                    names@,
                    names@.len() as int,
                    a,
                ),
            forall|i: int, j: int| 0 <= i < j < names@.len() ==> names@[i]@ != names@[j]@,
            forall|i: int|
                0 <= i < names@.len() ==> occurs_in(perf.entries@, (#[trigger] names@[i])@),
            forall|a: Seq<char>, q: int|
                0 <= q < p && #[trigger] counts_of(perf.entries@[q].counts).dom().contains(a)
                    ==> crate::counts::among_first(names@, names@.len() as int, a),
        decreases entries@.len() - p,
    {
        let ks = entries[p].counts.keys();
        let ghost dom = counts_of(perf.entries@[p as int].counts).dom();
        let mut t: usize = 0;
        while t < ks.len()
            invariant
                entries == perf.entries,
                0 <= p < entries@.len(),
                0 <= t <= ks@.len(),
                dom == counts_of(perf.entries@[p as int].counts).dom(),
                forall|i: int| 0 <= i < ks@.len() ==> dom.contains(#[trigger] ks@[i]@),
                forall|a: Seq<char>|
                    #[trigger] counts_of(seen).dom().contains(a) <==> crate::counts::among_first(
                        names@,
                        names@.len() as int,
                        a,
                    ),
                forall|i: int, j: int| 0 <= i < j < names@.len() ==> names@[i]@ != names@[j]@,
                forall|i: int|
                    0 <= i < names@.len() ==> occurs_in(perf.entries@, (#[trigger] names@[i])@),
                forall|a: Seq<char>, q: int|
                    0 <= q < p && #[trigger] counts_of(perf.entries@[q].counts).dom().contains(a)
                        ==> crate::counts::among_first(names@, names@.len() as int, a),
                forall|i: int|
                    0 <= i < t ==> crate::counts::among_first(
                        names@,
                        names@.len() as int,
                        #[trigger] ks@[i]@,
                    ),
            decreases ks@.len() - t,
        {
            let kstr = &ks[t];
            let ghost kk = kstr@;
            let ghost names0 = names@;
            let fresh = match seen.get(kstr.as_str()) {
                Some(_) => false,
                None => true,
            };
            if fresh {
                seen.insert(kstr.clone(), 0);
                names.push(kstr.clone());
                proof {
                    assert(names@ =~= names0.push(ks@[t as int]));
                    assert forall|a: Seq<char>|
                        #[trigger] counts_of(seen).dom().contains(a)
                            <==> crate::counts::among_first(names@, names@.len() as int, a) by {
                        if counts_of(seen).dom().contains(a) {
                            if a == kk {
                                assert(names@[names@.len() - 1]@ == a);
                            } else {
                                let i = choose|i: int|
                                    0 <= i < names0.len() && names0[i]@ == a;
                                assert(names@[i]@ == a);
                            }
                        }
                        if crate::counts::among_first(names@, names@.len() as int, a) {
                            let i = choose|i: int| 0 <= i < names@.len() && names@[i]@ == a;
                            if i < names0.len() {
                                assert(names0[i]@ == a);
                            }
                        }
                    }
                    assert(occurs_in(perf.entries@, kk)) by {
                        assert(counts_of((perf.entries@[p as int]).counts).dom().contains(kk));
                    }
                    assert forall|i: int|
                        0 <= i < t + 1 implies crate::counts::among_first(
                        names@,
                        names@.len() as int,
                        #[trigger] ks@[i]@,
                    ) by {
                        if i < t {
                            let n = choose|n: int| 0 <= n < names0.len() && names0[n]@ == ks@[i]@;
                            assert(names@[n]@ == ks@[i]@);
                        } else {
                            assert(names@[names@.len() - 1]@ == ks@[i]@);
                        }
                    }
                    assert forall|a: Seq<char>, q: int|
                        0 <= q < p && #[trigger] counts_of(perf.entries@[q].counts).dom().contains(
                            a,
                        ) implies crate::counts::among_first(
                        names@,
                        names@.len() as int,
                        a,
                    ) by {
                        let n = choose|n: int| 0 <= n < names0.len() && names0[n]@ == a;
                        assert(names@[n]@ == a);
                    }
                    assert forall|i: int|
                        0 <= i < names@.len() implies occurs_in(
                        perf.entries@,
                        (#[trigger] names@[i])@,
                    ) by {
                        if i < names0.len() {
                            assert(names0[i]@ == names@[i]@);
                        }
                    }
                }
            }
            t += 1;
        }
        proof {
            assert forall|a: Seq<char>|
                #[trigger] dom.contains(a) implies crate::counts::among_first(
                names@,
                names@.len() as int,
                a,
            ) by {
                let i = choose|i: int| 0 <= i < ks@.len() && ks@[i]@ == a;
            }
        }
        p += 1;
    }
    let mut rows: Vec<AuthorRow> = Vec::new();
    let mut q: usize = 0;
    while q < names.len()
        invariant
            maps == maps_of(perf.entries@),
            entries == perf.entries,
            forall|a: Seq<char>| sum_at(maps, a) <= u64::MAX,
            forall|i: int, j: int| 0 <= i < j < names@.len() ==> names@[i]@ != names@[j]@,
            forall|i: int|
                0 <= i < names@.len() ==> occurs_in(perf.entries@, (#[trigger] names@[i])@),
            forall|a: Seq<char>|
                #[trigger] occurs_in(perf.entries@, a) ==> crate::counts::among_first(
                    names@,
                    names@.len() as int,
                    a,
                ),
            0 <= q <= names@.len(),
            rows@.len() == q,
            rows_sorted(rows@, by_volume),
            forall|i: int|
                0 <= i < rows@.len() ==> crate::counts::among_first(
                    names@,
                    q as int,
                    (#[trigger] rows@[i]).name@,
                ),
            forall|i: int|
                0 <= i < rows@.len() ==> (#[trigger] rows@[i]).total as int == sum_at(
                    maps,
                    rows@[i].name@,
                ),
            forall|j: int|
                0 <= j < q ==> exists|i: int|
                    0 <= i < rows@.len() && (#[trigger] rows@[i]).name@ == (#[trigger] names@[j])@,
            forall|i: int, j: int|
                0 <= i < j < rows@.len() ==> (#[trigger] rows@[i]).name@ != (#[trigger] rows@[j]).name@,
        decreases names@.len() - q,
    {
        let name = names[q].clone();
        let ghost a = name@;
        let mut total: u64 = 0;
        let mut e: usize = 0;
        proof {
            assert(maps.take(0) =~= Seq::<Map<Seq<char>, u64>>::empty());
        }
        while e < entries.len()
            invariant
                maps == maps_of(perf.entries@),
                entries == perf.entries,
                a == name@,
                forall|x: Seq<char>| sum_at(maps, x) <= u64::MAX,
                0 <= e <= entries@.len(),
                maps.len() == entries@.len(),
                total as int == sum_at(maps.take(e as int), a),
            decreases entries@.len() - e,
        {
            let c = entries[e].counts.get_count(name.as_str());
            proof {
                assert(maps[e as int] == counts_of(perf.entries@[e as int].counts));
                assert(maps.take(e + 1).drop_last() =~= maps.take(e as int));
                assert(maps.take(e + 1).last() == maps[e as int]);
                lemma_sum_at_take_le(maps, e + 1, a);
                crate::counts::lemma_sum_at_nonneg(maps.take(e as int), a);
            }
            total = total + c;
            e += 1;
        }
        proof {
            assert(maps.take(entries@.len() as int) =~= maps);
        }
        let ghost rows0 = rows@;
        insert_sorted(&mut rows, AuthorRow { name, total }, by_volume);
        proof {
            let pos = choose|pos: int|
                0 <= pos <= rows0.len() && rows@ == rows0.insert(pos, AuthorRow { name, total });
            rows0.insert_ensures(pos, AuthorRow { name, total });
            assert forall|i: int, j: int|
                0 <= i < j < rows@.len() implies (#[trigger] rows@[i]).name@
                != (#[trigger] rows@[j]).name@ by {
                if i != pos && j != pos {
                    let i0: int = if i < pos { i } else { i - 1 };
                    let j0: int = if j < pos { j } else { j - 1 };
                    assert(rows@[i] == rows0[i0]);
                    assert(rows@[j] == rows0[j0]);
                } else {
                    let o: int = if i == pos { j } else { i };
                    let o0: int = if o < pos { o } else { o - 1 };
                    assert(rows@[o] == rows0[o0]);
                    assert(crate::counts::among_first(names@, q as int, rows0[o0].name@));
                    assert(rows@[if i == pos { i } else { j }] == AuthorRow { name, total });
                    assert(!crate::counts::among_first(names@, q as int, a)) by {
                        if crate::counts::among_first(names@, q as int, a) {
                            let n = choose|n: int| 0 <= n < q && names@[n]@ == a;
                            assert(names@[n]@ != names@[q as int]@);
                        }
                    }
                }
            }
            assert forall|i: int|
                0 <= i < rows@.len() implies crate::counts::among_first(
                names@,
                q + 1,
                (#[trigger] rows@[i]).name@,
            ) by {
                if i != pos {
                    let i0: int = if i < pos { i } else { i - 1 };
                    assert(rows@[i] == rows0[i0]);
                    let n = choose|n: int| 0 <= n < q && names@[n]@ == rows0[i0].name@;
                    assert(0 <= n < q + 1 && names@[n]@ == rows@[i].name@);
                } else {
                    assert(names@[q as int]@ == rows@[i].name@);
                }
            }
            assert forall|j: int| 0 <= j < q + 1 implies exists|i: int|
                0 <= i < rows@.len() && (#[trigger] rows@[i]).name@ == (#[trigger] names@[j])@ by {
                if j < q {
                    let i0 = choose|i0: int| 0 <= i0 < rows0.len() && rows0[i0].name@
                        == names@[j]@;
                    let i1: int = if i0 < pos { i0 } else { i0 + 1 };
                    assert(rows@[i1].name@ == names@[j]@);
                } else {
                    assert(rows@[pos].name@ == names@[j]@);
                }
            }
            assert forall|i: int|
                0 <= i < rows@.len() implies (#[trigger] rows@[i]).total as int == sum_at(
                maps,
                rows@[i].name@,
            ) by {
                if i != pos {
                    let i0: int = if i < pos { i } else { i - 1 };
                    assert(rows@[i] == rows0[i0]);
                }
            }
        }
        q += 1;
    }
    proof {
        assert forall|a: Seq<char>|
            #[trigger] occurs_in(perf.entries@, a) implies exists|i: int|
            0 <= i < rows@.len() && (#[trigger] rows@[i]).name@ == a by {
            let n = choose|n: int| 0 <= n < names@.len() && names@[n]@ == a;
            let i = choose|i: int| 0 <= i < rows@.len() && (#[trigger] rows@[i]).name@
                == names@[n]@;
        }
        assert forall|i: int|
            0 <= i < rows@.len() implies occurs_in(perf.entries@, (#[trigger] rows@[i]).name@) by {
            let n = choose|n: int| 0 <= n < names@.len() && names@[n]@ == rows@[i].name@;
            assert(occurs_in(perf.entries@, names@[n]@));
        }
    }
    rows
}

/// The period headers, each right-aligned to ten characters and followed
/// by a comma.
pub open spec fn periods_text(entries: Seq<PeriodCounts>) -> Seq<char>
    decreases entries.len(),
{
    if entries.len() == 0 {
        Seq::empty()
    } else {
        periods_text(entries.drop_last()) + pad_left_spec(entries.last().period@, 10) + ", "@
    }
}

/// The header line of the report.
pub open spec fn header_text(entries: Seq<PeriodCounts>, w: int) -> Seq<char> {
    pad_right_spec("date"@, w) + ", "@ + periods_text(entries) + "\n"@
}

/// One author's cells across all periods.
pub open spec fn cells_text(entries: Seq<PeriodCounts>, a: Seq<char>, percent: bool) -> Seq<char>
    decreases entries.len(),
{
    if entries.len() == 0 {
        Seq::empty()
    } else {
        cells_text(entries.drop_last(), a, percent) + pad_left_spec(
            dec_spec(cell_value(counts_of(entries.last().counts), a, percent)),
            10,
        ) + ", "@
    }
}

/// One author's report line.
pub open spec fn row_text(entries: Seq<PeriodCounts>, row: AuthorRow, percent: bool, w: int) -> Seq<
    char,
> {
    pad_right_spec(row.name@, w) + ", "@ + cells_text(entries, row.name@, percent) + "\n"@
}

/// The report lines of all rows, in order.
pub open spec fn rows_text(
    entries: Seq<PeriodCounts>,
    rows: Seq<AuthorRow>,
    percent: bool,
    w: int,
) -> Seq<char>
    decreases rows.len(),
{
    if rows.len() == 0 {
        Seq::empty()
    } else {
        rows_text(entries, rows.drop_last(), percent, w) + row_text(
            entries,
            rows.last(),
            percent,
            w,
        )
    }
}

/// The whole report: the header line, one line per row, and a closing
/// empty line.
pub open spec fn table_text(
    entries: Seq<PeriodCounts>,
    rows: Seq<AuthorRow>,
    percent: bool,
    w: int,
) -> Seq<char> {
    header_text(entries, w) + rows_text(entries, rows, percent, w) + "\n"@
}

/// The widest row label.
pub open spec fn max_name_len(rows: Seq<AuthorRow>) -> int
    decreases rows.len(),
{
    if rows.len() == 0 {
        0
    } else {
        let m = max_name_len(rows.drop_last());
        if rows.last().name@.len() > m {
            rows.last().name@.len() as int
        } else {
            m
        }
    }
}

/// Renders the report table for the given rows: periods as columns in
/// their recorded order, one line per row, cells aligned, each cell the
/// author's count or percentage share for that period.
pub fn render_table(perf: &AuthorPerformance, rows: &Vec<AuthorRow>, percent: bool) -> (r: String)
    requires
        forall|i: int|
            0 <= i < perf.entries@.len() ==> map_total(
                counts_of((#[trigger] perf.entries@[i]).counts),
            ) <= u64::MAX,
    ensures
        r@ == table_text(perf.entries@, rows@, percent, max_name_len(rows@)),
{
    let entries = &perf.entries;
    let mut w: usize = 0;
    let mut i: usize = 0;
    while i < rows.len()
        invariant
            0 <= i <= rows@.len(),
            w == max_name_len(rows@.take(i as int)),
        decreases rows@.len() - i,
    {
        proof {
            assert(rows@.take(i + 1).drop_last() =~= rows@.take(i as int));
            assert(rows@.take(i + 1).last() == rows@[i as int]);
        }
        let nl = rows[i].name.as_str().unicode_len();
        if nl > w {
            w = nl;
        }
        i += 1;
    }
    proof {
        assert(rows@.take(rows@.len() as int) =~= rows@);
    }
    let mut out = pad_right("date", w);
    out.append(", ");
    let ghost head = pad_right_spec("date"@, w as int) + ", "@;
    proof {
        assert(out@ =~= head);
        assert(periods_text(entries@.take(0)) =~= Seq::<char>::empty());
        assert(out@ =~= head + periods_text(entries@.take(0)));
    }
    let mut p: usize = 0;
    while p < entries.len()
        invariant
            entries == perf.entries,
            0 <= p <= entries@.len(),
            head == pad_right_spec("date"@, w as int) + ", "@,
            out@ == head + periods_text(entries@.take(p as int)),
        decreases entries@.len() - p,
    {
        let cell = pad_left(entries[p].period.as_str(), 10);
        out.append(cell.as_str());
        out.append(", ");
        proof {
            assert(entries@.take(p + 1).drop_last() =~= entries@.take(p as int));
            assert(entries@.take(p + 1).last() == entries@[p as int]);
            assert(out@ =~= head + periods_text(entries@.take(p + 1)));
        }
        p += 1;
    }
    out.append("\n");
    proof {
        assert(entries@.take(entries@.len() as int) =~= entries@);
        assert(out@ =~= header_text(entries@, w as int));
        assert(rows_text(entries@, rows@.take(0), percent, w as int) =~= Seq::<char>::empty());
    }
    let ghost header = out@;
    let mut q: usize = 0;
    while q < rows.len()
        invariant
            entries == perf.entries,
            forall|i2: int|
                0 <= i2 < perf.entries@.len() ==> map_total(
                    counts_of((#[trigger] perf.entries@[i2]).counts),
                ) <= u64::MAX,
            0 <= q <= rows@.len(),
            header == header_text(entries@, w as int),
            out@ == header + rows_text(entries@, rows@.take(q as int), percent, w as int),
        decreases rows@.len() - q,
    {
        let row = &rows[q];
        let label = pad_right(row.name.as_str(), w);
        out.append(label.as_str());
        out.append(", ");
        let ghost row_start = header + rows_text(entries@, rows@.take(q as int), percent, w as int)
            + pad_right_spec(rows@[q as int].name@, w as int) + ", "@;
        proof {
            assert(out@ =~= row_start);
            assert(cells_text(entries@.take(0), rows@[q as int].name@, percent) =~= Seq::<
                char,
            >::empty());
            assert(out@ =~= row_start + cells_text(
                entries@.take(0),
                rows@[q as int].name@,
                percent,
            ));
        }
        let mut e: usize = 0;
        while e < entries.len()
            invariant
                entries == perf.entries,
                forall|i2: int|
                    0 <= i2 < perf.entries@.len() ==> map_total(
                        counts_of((#[trigger] perf.entries@[i2]).counts),
                    ) <= u64::MAX,
                0 <= e <= entries@.len(),
                0 <= q < rows@.len(),
                row == rows@[q as int],
                out@ == row_start + cells_text(
                    entries@.take(e as int),
                    rows@[q as int].name@,
                    percent,
                ),
            decreases entries@.len() - e,
        {
            let v = cell_val(&entries[e], row.name.as_str(), percent);
            let d = u64_to_string(v);
            let cell = pad_left(d.as_str(), 10);
            out.append(cell.as_str());
            out.append(", ");
            proof {
                assert(entries@.take(e + 1).drop_last() =~= entries@.take(e as int));
                assert(entries@.take(e + 1).last() == entries@[e as int]);
                assert(out@ =~= row_start + cells_text(
                    entries@.take(e + 1),
                    rows@[q as int].name@,
                    percent,
                ));
            }
            e += 1;
        }
        out.append("\n");
        proof {
            assert(entries@.take(entries@.len() as int) =~= entries@);
            assert(rows@.take(q + 1).drop_last() =~= rows@.take(q as int));
            assert(rows@.take(q + 1).last() == rows@[q as int]);
            assert(out@ =~= header + rows_text(entries@, rows@.take(q + 1), percent, w as int));
        }
        q += 1;
    }
    out.append("\n");
    proof {
        assert(rows@.take(rows@.len() as int) =~= rows@);
        assert(out@ =~= table_text(entries@, rows@, percent, max_name_len(rows@)));
    }
    out
}

} // verus!
