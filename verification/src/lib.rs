//! Line-authorship statistics for a version-controlled repository.
//!
//! The library computes, for a series of monthly snapshots, how many lines
//! each author is credited with: it classifies file paths as eligible or
//! excluded, counts authors in line-attribution output, merges per-file
//! counts into per-period totals, canonicalizes author identities, and
//! renders the period-by-author matrix as a plain-text table.

pub mod args;
pub mod counts;
pub mod exclusion;
pub mod normalize;
pub mod perf;
pub mod render;
pub mod text;

use vstd::prelude::*;

verus! {

/// The decimal digit `d` as a character.
pub open spec fn digit_char(d: int) -> char {
    ((48 + d) as u8) as char
}

/// The ten-character label `YYYY-MM-01` of the month `month` of `year`.
pub open spec fn period_label_spec(year: int, month: int) -> Seq<char> {
    seq![
        digit_char(year / 1000 % 10),
        digit_char(year / 100 % 10),
        digit_char(year / 10 % 10),
        digit_char(year % 10),
        '-',
        digit_char(month / 10 % 10),
        digit_char(month % 10),
        '-',
        '0',
        '1',
    ]
}

/// Renders the label of one monthly period.
pub fn period_label(year: u32, month: u32) -> (r: String)
    requires
        1000 <= year <= 9999,
        1 <= month <= 12,
    ensures
        r@ == period_label_spec(year as int, month as int),
{
    let mut s = String::new();
    push_digit(&mut s, year / 1000 % 10);
    push_digit(&mut s, year / 100 % 10);
    push_digit(&mut s, year / 10 % 10);
    push_digit(&mut s, year % 10);
    crate::text::push_char(&mut s, '-');
    push_digit(&mut s, month / 10 % 10);
    push_digit(&mut s, month % 10);
    crate::text::push_char(&mut s, '-');
    crate::text::push_char(&mut s, '0');
    crate::text::push_char(&mut s, '1');
    s
}

fn push_digit(s: &mut String, d: u32)
    requires
        d < 10,
    ensures
        final(s)@ == old(s)@ + seq![digit_char(d as int)],
{
    let c = ((48 + d) as u8) as char;
    crate::text::push_char(s, c);
}

/// The fixed first year a period series starts from.
pub open spec fn epoch_year() -> int {
    2016
}

/// All monthly periods from the first month of the epoch year through the
/// month `end_month` of `end_year`, in chronological order.
pub fn periods_through(end_year: u32, end_month: u32) -> (r: Vec<String>)
    requires
        2016 <= end_year <= 9999,
        1 <= end_month <= 12,
    ensures
        r@.len() == (end_year - 2016) * 12 + end_month,
        forall|i: int|
            0 <= i < r@.len() ==> r@[i]@ == period_label_spec(
                epoch_year() + i / 12,
                1 + i % 12,
            ),
{
    let mut r: Vec<String> = Vec::new();
    let mut y: u32 = 2016;
    while y <= end_year
        invariant
            2016 <= end_year <= 9999,
            1 <= end_month <= 12,
            2016 <= y <= end_year + 1,
            y <= end_year ==> r@.len() == (y - 2016) * 12,
            y == end_year + 1 ==> r@.len() == (end_year - 2016) * 12 + end_month,
            forall|j: int|
                0 <= j < r@.len() ==> r@[j]@ == period_label_spec(
                    epoch_year() + j / 12,
                    1 + j % 12,
                ),
        decreases end_year + 1 - y,
    {
        let months: u32 = if y == end_year {
            end_month
        } else {
            12
        };
        let mut m: u32 = 1;
        while m <= months
            invariant
                2016 <= end_year <= 9999,
                1 <= end_month <= 12,
                2016 <= y <= end_year,
                months == if y == end_year { end_month as int } else { 12 },
                1 <= m <= months + 1,
                r@.len() == (y - 2016) * 12 + (m - 1),
                forall|j: int|
                    0 <= j < r@.len() ==> r@[j]@ == period_label_spec(
                        epoch_year() + j / 12,
                        1 + j % 12,
                    ),
            decreases months + 1 - m,
        {
            let ghost j = r@.len() as int;
            proof {
                vstd::arithmetic::div_mod::lemma_fundamental_div_mod_converse(
                    j,
                    12,
                    (y - 2016) as int,
                    (m - 1) as int,
                );
            }
            let label = period_label(y, m);
            r.push(label);
            m += 1;
        }
        y += 1;
    }
    r
}

/// The snapshot date bound that one period's resolution uses: the
/// period's own boundary, tightened to the run's upper date bound when
/// that comes earlier.
pub fn effective_date_bound(period: &str, user_bound: &Option<String>) -> (r: String)
    ensures
        r@ == match *user_bound {
            Some(d) => if crate::render::lex_le(d@, period@) {
                d@
            } else {
                period@
            },
            None => period@,
        },
{
    match user_bound {
        Some(d) => {
            if crate::render::lex_le_exec(d.as_str(), period) {
                d.clone()
            } else {
                period.to_owned()
            }
        },
        None => period.to_owned(),
    }
}

} // verus!
