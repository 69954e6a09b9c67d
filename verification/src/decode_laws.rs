//! What holds of every reading of a well-formed layout.

use crate::decode::{
    decoded, read_digits, read_entries, read_segments, readable_digit, readable_entry,
    LayoutResultError, LayoutResultOption, SevenSegmentError,
};
use crate::scan_sheet_layout::{
    display_bars, entry_bars, layout_bars, named_in_order, Bar, EntryView, LayoutView,
};
use vstd::prelude::*;

verus! {

/// Whether a reading ended in a conflict.
pub open spec fn is_conflict(outcome: Result<Seq<LayoutResultOption>, LayoutResultError>) -> bool {
    match outcome {
        Ok(_) => false,
        Err(e) => e == LayoutResultError::BarConflictError || e
            == LayoutResultError::SevenSegmentError(SevenSegmentError::BarConflict),
    }
}

/// The segments of a digit whose names are not among those found read
/// without a conflict, and add no names but their own.
proof fn lemma_segments_no_conflict(
    bars: Seq<Bar>,
    marks: Seq<(u128, u128)>,
    found: Set<u128>,
    first: int,
    n: int,
)
    requires
        0 <= n <= 7,
        bars.len() == 7,
        forall|k: int| 0 <= k < 7 ==> (#[trigger] bars[k]).id.inner == first + k,
        forall|id: u128| found.contains(id) ==> id < first || id >= first + 7,
    ensures
        read_segments(bars, marks, found, n).0 is Ok,
        forall|id: u128| #[trigger]
            read_segments(bars, marks, found, n).1.contains(id) ==> found.contains(id) || first
                <= id < first + n,
    decreases n,
{
    if n > 0 {
        lemma_segments_no_conflict(bars, marks, found, first, n - 1);
        assert(bars[n - 1].id.inner == first + (n - 1));
    }
}

/// The digits of a display whose names lie above all those found read
/// without a conflict, and add no names but their own.
proof fn lemma_digits_no_conflict(
    digits: Seq<Seq<Bar>>,
    marks: Seq<(u128, u128)>,
    found: Set<u128>,
    base: int,
    n: int,
)
    requires
        0 <= n <= digits.len(),
        forall|d: int, k: int|
            0 <= d < digits.len() && 0 <= k < 7 ==> (#[trigger] digits[d]).len() == 7 && (
            #[trigger] digits[d][k]).id.inner == base + 7 * d + k,
        forall|d: int| 0 <= d < digits.len() ==> (#[trigger] digits[d]).len() == 7,
        forall|id: u128| found.contains(id) ==> id < base,
    ensures
        read_digits(digits, marks, found, n).failure != Some(SevenSegmentError::BarConflict),
        forall|id: u128| #[trigger]
            read_digits(digits, marks, found, n).found.contains(id) ==> id < base || (base + 7 * (
            digits.len() - n) <= id < base + 7 * digits.len()),
    decreases n,
{
    if n > 0 {
        lemma_digits_no_conflict(digits, marks, found, base, n - 1);
        let before = read_digits(digits, marks, found, n - 1);
        if before.failure is None {
            let d = digits.len() - n;
            let bars = digits[d];
            assert forall|k: int| 0 <= k < 7 implies (#[trigger] bars[k]).id.inner == base + 7 * d
                + k by {
                assert(digits[d][k].id.inner == base + 7 * d + k);
            }
            lemma_segments_no_conflict(bars, marks, before.found, base + 7 * d, 7);
        }
    }
}

/// In a display of digits of seven bars each, the bar `k` of the digit `d`
/// is the bar `7 * d + k` of the display.
proof fn lemma_display_index(digits: Seq<Seq<Bar>>, d: int, k: int)
    requires
        forall|i: int| 0 <= i < digits.len() ==> (#[trigger] digits[i]).len() == 7,
        0 <= d < digits.len(),
        0 <= k < 7,
    ensures
        display_bars(digits).len() == 7 * digits.len(),
        display_bars(digits)[7 * d + k] == digits[d][k],
    decreases digits.len(),
{
    lemma_display_length(digits);
    let shorter = digits.drop_last();
    lemma_display_length(shorter);
    if d < digits.len() - 1 {
        lemma_display_index(shorter, d, k);
        assert(shorter[d] == digits[d]);
    }
}

proof fn lemma_display_length(digits: Seq<Seq<Bar>>)
    requires
        forall|i: int| 0 <= i < digits.len() ==> (#[trigger] digits[i]).len() == 7,
    ensures
        display_bars(digits).len() == 7 * digits.len(),
    decreases digits.len(),
{
    if digits.len() > 0 {
        let shorter = digits.drop_last();
        assert forall|i: int| 0 <= i < shorter.len() implies (#[trigger] shorter[i]).len() == 7 by {
            assert(shorter[i] == digits[i]);
        }
        lemma_display_length(shorter);
    }
}

/// The bars of the first `n` fields are the first bars of the layout.
proof fn lemma_bars_of_first_fields(entries: Seq<EntryView>, n: int)
    requires
        0 <= n <= entries.len(),
    ensures
        layout_bars(entries.take(n)).len() <= layout_bars(entries).len(),
        forall|j: int|
            0 <= j < layout_bars(entries.take(n)).len() ==> #[trigger] layout_bars(
                entries.take(n),
            )[j] == layout_bars(entries)[j],
        n > 0 ==> layout_bars(entries.take(n)) == layout_bars(entries.take(n - 1)) + entry_bars(
            entries[n - 1],
        ),
    decreases entries.len() - n,
{
    if n > 0 {
        assert(entries.take(n).drop_last() =~= entries.take(n - 1));
        assert(entries.take(n).last() == entries[n - 1]);
    }
    if n == entries.len() {
        assert(entries.take(n) =~= entries);
    } else {
        lemma_bars_of_first_fields(entries, n + 1);
        let here = layout_bars(entries.take(n));
        let longer = layout_bars(entries.take(n + 1));
        assert(longer == here + entry_bars(entries[n]));
        assert forall|j: int| 0 <= j < here.len() implies #[trigger] here[j] == layout_bars(
            entries,
        )[j] by {
            assert(longer[j] == here[j]);
        }
    }
}

/// The first `n` fields of a layout whose bars are named in order read
/// without a conflict, and find no names but those of their own bars.
proof fn lemma_entries_no_conflict(entries: Seq<EntryView>, marks: Seq<(u128, u128)>, n: int)
    requires
        0 <= n <= entries.len(),
        forall|i: int| 0 <= i < entries.len() ==> readable_entry(#[trigger] entries[i]),
        named_in_order(layout_bars(entries)),
    ensures
        !is_conflict(read_entries(entries, marks, n).0),
        forall|id: u128| #[trigger]
            read_entries(entries, marks, n).1.contains(id) ==> id < layout_bars(
                entries.take(n),
            ).len(),
    decreases n,
{
    if n > 0 {
        lemma_entries_no_conflict(entries, marks, n - 1);
        lemma_bars_of_first_fields(entries, n);
        lemma_bars_of_first_fields(entries, n - 1);
        let (before, found) = read_entries(entries, marks, n - 1);
        let base = layout_bars(entries.take(n - 1)).len() as int;
        let all = layout_bars(entries);
        let here = layout_bars(entries.take(n));
        let own = entry_bars(entries[n - 1]);
        assert(here == layout_bars(entries.take(n - 1)) + own);
        assert forall|j: int| 0 <= j < own.len() implies (#[trigger] own[j]).id.inner == base
            + j by {
            assert(here[base + j] == own[j]);
            assert(here[base + j] == all[base + j]);
        }
        assert(readable_entry(entries[n - 1]));
        if before is Ok {
            match entries[n - 1] {
                EntryView::Boolean(bar) => {
                    assert(own[0] == bar);
                    assert(bar.id.inner == base);
                },
                EntryView::SevenSegmentDisplay(digits) => {
                    assert forall|d: int| 0 <= d < digits.len() implies (#[trigger] digits[d]).len()
                        == 7 by {
                        assert(readable_digit(digits[d]));
                    }
                    lemma_display_length(digits);
                    assert forall|d: int, k: int|
                        0 <= d < digits.len() && 0 <= k < 7 implies (#[trigger] digits[d]).len()
                        == 7 && (#[trigger] digits[d][k]).id.inner == base + 7 * d + k by {
                        lemma_display_index(digits, d, k);
                        assert(own[7 * d + k] == digits[d][k]);
                    }
                    lemma_digits_no_conflict(digits, marks, found, base, digits.len() as int);
                },
            }
        }
    } else {
        assert(entries.take(0) =~= Seq::<EntryView>::empty());
    }
}

/// Reading a well-formed layout never ends in a conflict: the names of its
/// bars are unique, and each reading begins with no name found.  What is
/// read is then a function of the layout and the marks alone, so reading the
/// same marks again gives the same.
pub proof fn lemma_no_conflict(layout: LayoutView, marks: Seq<(u128, u128)>)
    requires
        layout.well_formed(),
    ensures
        !is_conflict(decoded(layout.entries, marks)),
{
    lemma_entries_no_conflict(layout.entries, marks, layout.entries.len() as int);
}

} // verus!
