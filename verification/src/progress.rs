//! Completion percentage and fill bar of a running scan.

use vstd::arithmetic::div_mod::{
    lemma_div_is_ordered, lemma_fundamental_div_mod, lemma_fundamental_div_mod_converse,
    lemma_mod_bound,
};
use crate::decimal::{append_padded, decimal_text, pad_left};
use vstd::prelude::*;
use vstd::string::*;

verus! {

/// Number of cells of the fill bar.
pub const BAR_WIDTH: u8 = 50;

/// The integer nearest to `numerator / denominator`, halves rounded up.
pub open spec fn rounded_ratio(numerator: nat, denominator: nat) -> nat {
    (2 * numerator + denominator) / (2 * denominator)
}

/// Share of `completed` in `total` as a whole percentage, never above 100.
pub open spec fn percentage_of(completed: nat, total: nat) -> nat {
    let nearest = rounded_ratio(100 * completed, total);
    if nearest > 100 {
        100
    } else {
        nearest
    }
}

/// Number of bar cells that stand for `percentage` percent of the bar.
pub open spec fn fill_cells_of(percentage: nat) -> nat {
    rounded_ratio(percentage * BAR_WIDTH as nat, 100)
}

/// The fill bar as text: one `#` for each filled cell, then blanks up to the
/// width of the bar.
pub open spec fn bar_text_of(fill_cells: nat) -> Seq<char> {
    Seq::new(
        BAR_WIDTH as nat,
        |i: int|
            if i < fill_cells {
                '#'
            } else {
                ' '
            },
    )
}

/// The line of the progress display: the bar in square brackets, then the
/// percentage, right-aligned in three columns, and a percent sign.
pub open spec fn progress_line_of(percentage: nat, fill_cells: nat) -> Seq<char> {
    seq!['['] + bar_text_of(fill_cells) + seq![']', ' '] + pad_left(
        decimal_text(percentage),
        3,
        ' ',
    ) + seq!['%']
}

/// What the progress display shows after some units of a scan are done.
#[derive(Clone, Copy, Debug, PartialEq, Eq, Structural)]
pub struct Progress {
    pub percentage: u8,
    pub fill_cells: u8,
}

impl Progress {
    /// The progress shown once `completed` of `total` units are done.
    pub open spec fn of(completed: nat, total: nat) -> Progress {
        Progress {
            percentage: percentage_of(completed, total) as u8,
            fill_cells: fill_cells_of(percentage_of(completed, total)) as u8,
        }
    }

    /// Both numbers lie within their scales.
    pub open spec fn wf(&self) -> bool {
        self.percentage <= 100 && self.fill_cells <= BAR_WIDTH
    }

    /// Computes the progress from the two counters of the caller. Nothing is
    /// remembered between calls.
    pub fn update(completed: u64, total: u64) -> (progress: Progress)
        requires
            total >= 1,
        ensures
            progress == Progress::of(completed as nat, total as nat),
            progress.percentage == percentage_of(completed as nat, total as nat),
            progress.fill_cells == fill_cells_of(progress.percentage as nat),
            progress.wf(),
            completed >= total ==> progress.percentage == 100,
            progress.percentage < 100 ==> 2 * total * progress.percentage <= 200 * completed
                + total < 2 * total * (progress.percentage + 1),
            100 * progress.fill_cells <= BAR_WIDTH * progress.percentage + 50 < 100 * (
            progress.fill_cells + 1),
    {
        proof {
            lemma_rounded_ratio_bounds(100 * completed as nat, total as nat);
            lemma_rounded_ratio_bounds(
                percentage_of(completed as nat, total as nat) * BAR_WIDTH as nat,
                100,
            );
            if completed >= total {
                lemma_percentage_monotonic(total as nat, completed as nat, total as nat);
                lemma_percentage_complete(total as nat, total as nat);
            }
        }
        let doubled: u128 = 200 * (completed as u128) + (total as u128);
        let nearest: u128 = doubled / (2 * (total as u128));
        let percentage: u8 = if nearest > 100 {
            100
        } else {
            nearest as u8
        };
        let fill_cells: u8 = ((2 * (percentage as u16) * (BAR_WIDTH as u16) + 100) / 200) as u8;
        Progress { percentage, fill_cells }
    }

    /// The fill bar as text.
    pub fn bar_text(&self) -> (text: String)
        ensures
            text@ == bar_text_of(self.fill_cells as nat),
            text@.len() == BAR_WIDTH,
    {
        proof {
            reveal_strlit("#");
            reveal_strlit(" ");
        }
        let mut text = String::new();
        let mut cell: u8 = 0;
        while cell < BAR_WIDTH
            invariant
                cell <= BAR_WIDTH,
                "#"@ == seq!['#'],
                " "@ == seq![' '],
                text@ == bar_text_of(self.fill_cells as nat).take(cell as int),
            decreases BAR_WIDTH - cell,
        {
            if cell < self.fill_cells {
                text.append("#");
            } else {
                text.append(" ");
            }
            cell = cell + 1;
            assert(text@ =~= bar_text_of(self.fill_cells as nat).take(cell as int));
        }
        assert(text@ =~= bar_text_of(self.fill_cells as nat));
        text
    }

    /// The line of the progress display.
    pub fn line(&self) -> (text: String)
        ensures
            text@ == progress_line_of(self.percentage as nat, self.fill_cells as nat),
    {
        proof {
            reveal_strlit("[");
            reveal_strlit("] ");
            reveal_strlit(" ");
            reveal_strlit("%");
        }
        let mut text = String::from_str("[");
        let bar = self.bar_text();
        text.append(bar.as_str());
        text.append("] ");
        append_padded(&mut text, self.percentage as u64, 3, " ");
        text.append("%");
        assert(text@ =~= progress_line_of(self.percentage as nat, self.fill_cells as nat));
        text
    }
}

/// The percentage never decreases while the count of completed units grows.
pub proof fn lemma_percentage_monotonic(earlier: nat, later: nat, total: nat)
    requires
        total >= 1,
        earlier <= later,
    ensures
        percentage_of(earlier, total) <= percentage_of(later, total),
{
    lemma_div_is_ordered(
        (2 * (100 * earlier) + total) as int,
        (2 * (100 * later) + total) as int,
        (2 * total) as int,
    );
}

/// The percentage is 100 once every unit is done, and it reaches 100 exactly
/// when less than half a percent of the units is still open.
pub proof fn lemma_percentage_complete(completed: nat, total: nat)
    requires
        total >= 1,
        completed <= total,
    ensures
        completed == total ==> percentage_of(completed, total) == 100,
        percentage_of(completed, total) == 100 <==> 200 * completed >= 199 * total,
        total < 200 ==> (percentage_of(completed, total) == 100 <==> completed == total),
        completed == 0 ==> percentage_of(completed, total) == 0,
{
    let x = (2 * (100 * completed) + total) as int;
    let d = (2 * total) as int;
    if 200 * completed >= 199 * total {
        lemma_div_is_ordered(100 * d, x, d);
        lemma_fundamental_div_mod_converse(100 * d, d, 100, 0);
    } else {
        lemma_div_is_ordered(x, 100 * d - 1, d);
        lemma_fundamental_div_mod_converse(100 * d - 1, d, 99, d - 1);
    }
    if completed == 0 {
        lemma_fundamental_div_mod_converse(x, d, 0, total as int);
    }
}

/// A rounded ratio lies within half a unit of the exact ratio.
pub proof fn lemma_rounded_ratio_bounds(numerator: nat, denominator: nat)
    requires
        denominator >= 1,
    ensures
        2 * denominator * rounded_ratio(numerator, denominator) <= 2 * numerator + denominator,
        2 * numerator + denominator < 2 * denominator * (rounded_ratio(numerator, denominator) + 1),
{
    let x = (2 * numerator + denominator) as int;
    let d = (2 * denominator) as int;
    lemma_fundamental_div_mod(x, d);
    lemma_mod_bound(x, d);
    assert(d * (x / d + 1) == d * (x / d) + d) by (nonlinear_arith);
}

/// The fill bar never shrinks while the percentage grows, never exceeds its
/// width, is empty at 0 percent and full at 100 percent.
pub proof fn lemma_fill_cells_monotonic(lower: nat, higher: nat)
    requires
        lower <= higher <= 100,
    ensures
        fill_cells_of(lower) <= fill_cells_of(higher) <= BAR_WIDTH,
        fill_cells_of(0) == 0,
        fill_cells_of(100) == BAR_WIDTH,
{
    let width = BAR_WIDTH as nat;
    assert(lower * width <= higher * width <= 100 * width) by (nonlinear_arith)
        requires
            lower <= higher <= 100,
    ;
    lemma_div_is_ordered(
        (2 * (lower * width) + 100) as int,
        (2 * (higher * width) + 100) as int,
        200,
    );
    lemma_rounded_ratio_bounds(higher * width, 100);
    lemma_rounded_ratio_bounds(0 * width, 100);
    lemma_rounded_ratio_bounds(100 * width, 100);
}

/// Over one scan, in which `earlier` units are done before `later` units are,
/// neither the percentage nor the fill bar ever goes back.
pub proof fn lemma_progress_monotonic(earlier: nat, later: nat, total: nat)
    requires
        total >= 1,
        earlier <= later,
    ensures
        Progress::of(earlier, total).percentage <= Progress::of(later, total).percentage,
        Progress::of(earlier, total).fill_cells <= Progress::of(later, total).fill_cells,
        Progress::of(later, total).wf(),
{
    lemma_percentage_monotonic(earlier, later, total);
    lemma_fill_cells_monotonic(percentage_of(earlier, total), percentage_of(later, total));
}

} // verus!
