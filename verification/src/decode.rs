//! Reading the fields of a sheet from the marks found on it.
//!
//! The names of the bars that were found set are carried from bar to bar
//! through one reading; a bar that is found set when its name is already
//! among them is a conflict.

use crate::bars_found::BarsFound;
use crate::scan_sheet_layout::{
    Bar, EntryView, LayoutEntry, SevenSegmentDigit, SevenSegmentDisplay, BAR_DISTANCE_THRESHOLD,
    MAX_DIGITS,
};
use std::collections::HashSet;
use vstd::prelude::*;
use vstd::std_specs::convert::FromSpecImpl;

verus! {

/// A bar was found set whose name was already among those found set.
#[derive(Clone, Copy, Debug, PartialEq, Eq, Structural)]
pub struct BarConflictError;

/// Why a number could not be read.
#[derive(Clone, Copy, Debug, PartialEq, Eq, Structural)]
pub enum SevenSegmentError {
    /// No segment is set; of a whole number: no digit is set, or an empty
    /// digit stands to the right of a set one.
    Empty,
    /// The segments that are set show no digit; the value holds them, `a`
    /// as its highest bit and `g` as its lowest.
    Invalid(usize),
    /// A bar of the digit was found set that had been found set before.
    BarConflict,
}

/// Why a sheet could not be read.
#[derive(Clone, Copy, Debug, PartialEq, Eq, Structural)]
pub enum LayoutResultError {
    BarConflictError,
    SevenSegmentError(SevenSegmentError),
}

impl From<BarConflictError> for SevenSegmentError {
    fn from(_error: BarConflictError) -> (error: SevenSegmentError) {
        SevenSegmentError::BarConflict
    }
}

impl FromSpecImpl<BarConflictError> for SevenSegmentError {
    open spec fn obeys_from_spec() -> bool {
        true
    }

    open spec fn from_spec(_error: BarConflictError) -> SevenSegmentError {
        SevenSegmentError::BarConflict
    }
}

impl From<BarConflictError> for LayoutResultError {
    fn from(_error: BarConflictError) -> (error: LayoutResultError) {
        LayoutResultError::BarConflictError
    }
}

impl FromSpecImpl<BarConflictError> for LayoutResultError {
    open spec fn obeys_from_spec() -> bool {
        true
    }

    open spec fn from_spec(_error: BarConflictError) -> LayoutResultError {
        LayoutResultError::BarConflictError
    }
}

impl From<SevenSegmentError> for LayoutResultError {
    fn from(error: SevenSegmentError) -> (wrapped: LayoutResultError) {
        LayoutResultError::SevenSegmentError(error)
    }
}

impl FromSpecImpl<SevenSegmentError> for LayoutResultError {
    open spec fn obeys_from_spec() -> bool {
        true
    }

    open spec fn from_spec(error: SevenSegmentError) -> LayoutResultError {
        LayoutResultError::SevenSegmentError(error)
    }
}

/// The value of one field.
#[derive(Clone, Copy, Debug, PartialEq, Eq, Structural)]
pub enum LayoutResultOption {
    Boolean(bool),
    Number(u64),
}

/// Whether a mark lies closer to `center` than the threshold.  A mark at
/// exactly the threshold is not close.
pub open spec fn close(mark: (u128, u128), center: (int, int)) -> bool {
    (mark.0 - center.0) * (mark.0 - center.0) + (mark.1 - center.1) * (mark.1 - center.1)
        < BAR_DISTANCE_THRESHOLD * BAR_DISTANCE_THRESHOLD
}

/// Whether some mark lies close to the bar's centre.
pub open spec fn marked(bar: Bar, marks: Seq<(u128, u128)>) -> bool {
    exists|i: int| 0 <= i < marks.len() && close(#[trigger] marks[i], bar.center())
}

/// Reading one bar, with the names found so far: whether it is set, and the
/// names found after it.
pub open spec fn read_bar(bar: Bar, marks: Seq<(u128, u128)>, found: Set<u128>) -> (
    Result<bool, BarConflictError>,
    Set<u128>,
) {
    if !marked(bar, marks) {
        (Ok(false), found)
    } else if found.contains(bar.id.inner) {
        (Err(BarConflictError), found)
    } else {
        (Ok(true), found.insert(bar.id.inner))
    }
}

/// Reading the first `n` segments of a digit, `a` first: the segments that
/// are set, as the bits of a number with the first segment highest.
pub open spec fn read_segments(
    bars: Seq<Bar>,
    marks: Seq<(u128, u128)>,
    found: Set<u128>,
    n: int,
) -> (Result<int, BarConflictError>, Set<u128>)
    decreases n,
{
    if n <= 0 {
        (Ok(0), found)
    } else {
        let (before, found_before) = read_segments(bars, marks, found, n - 1);
        match before {
            Err(e) => (Err(e), found_before),
            Ok(mask) => {
                let (here, found_here) = read_bar(bars[n - 1], marks, found_before);
                match here {
                    Err(e) => (Err(e), found_here),
                    Ok(set) => (
                        Ok(
                            2 * mask + if set {
                                1int
                            } else {
                                0int
                            },
                        ),
                        found_here,
                    ),
                }
            },
        }
    }
}

/// The digit that the set segments show.  Six is also read without its top
/// bar, and nine without its bottom bar.
pub open spec fn digit_of_mask(mask: int) -> Result<u64, SevenSegmentError> {
    if mask == 0b0000000 {
        Err(SevenSegmentError::Empty)
    } else if mask == 0b1111110 {
        Ok(0)
    } else if mask == 0b0110000 {
        Ok(1)
    } else if mask == 0b1101101 {
        Ok(2)
    } else if mask == 0b1111001 {
        Ok(3)
    } else if mask == 0b0110011 {
        Ok(4)
    } else if mask == 0b1011011 {
        Ok(5)
    } else if mask == 0b1011111 || mask == 0b0011111 {
        Ok(6)
    } else if mask == 0b1110000 {
        Ok(7)
    } else if mask == 0b1111111 {
        Ok(8)
    } else if mask == 0b1111011 || mask == 0b1110011 {
        Ok(9)
    } else {
        Err(SevenSegmentError::Invalid(mask as usize))
    }
}

/// Reading one digit.
pub open spec fn read_digit(bars: Seq<Bar>, marks: Seq<(u128, u128)>, found: Set<u128>) -> (
    Result<u64, SevenSegmentError>,
    Set<u128>,
) {
    let (segments, found_after) = read_segments(bars, marks, found, 7);
    match segments {
        Err(_) => (Err(SevenSegmentError::BarConflict), found_after),
        Ok(mask) => (digit_of_mask(mask), found_after),
    }
}

/// Ten to the `n`.
pub open spec fn pow10(n: nat) -> nat
    decreases n,
{
    if n == 0 {
        1
    } else {
        10 * pow10((n - 1) as nat)
    }
}

/// How far the reading of a number has come.
pub struct Reading {
    /// The value of the digits read.
    pub sum: int,
    /// Whether an empty digit has been passed.
    pub has_seen_empty: bool,
    /// Whether every digit so far was empty.
    pub all_are_empty: bool,
    /// Why the reading has stopped, if it has.
    pub failure: Option<SevenSegmentError>,
    /// The names found so far.
    pub found: Set<u128>,
}

/// Reading the last `n` digits of a display from the right.  An empty digit
/// may only stand to the left of all the set ones; the reading stops at the
/// first digit that shows nothing valid or stands to the left of an empty
/// one.
pub open spec fn read_digits(
    digits: Seq<Seq<Bar>>,
    marks: Seq<(u128, u128)>,
    found: Set<u128>,
    n: int,
) -> Reading
    decreases n,
{
    if n <= 0 {
        Reading { sum: 0, has_seen_empty: false, all_are_empty: true, failure: None, found }
    } else {
        let before = read_digits(digits, marks, found, n - 1);
        if before.failure is Some {
            before
        } else {
            let (digit, found_after) = read_digit(digits[digits.len() - n], marks, before.found);
            match digit {
                Ok(d) => if before.has_seen_empty {
                    Reading {
                        failure: Some(SevenSegmentError::Empty),
                        found: found_after,
                        ..before
                    }
                } else {
                    Reading {
                        sum: before.sum + d * pow10((n - 1) as nat),
                        all_are_empty: false,
                        found: found_after,
                        ..before
                    }
                },
                Err(SevenSegmentError::Empty) => Reading {
                    has_seen_empty: true,
                    found: found_after,
                    ..before
                },
                Err(e) => Reading { failure: Some(e), found: found_after, ..before },
            }
        }
    }
}

/// Reading a number: the value of its digits, where the empty ones stand on
/// the left; `Empty` if all are empty.
pub open spec fn read_number(digits: Seq<Seq<Bar>>, marks: Seq<(u128, u128)>, found: Set<u128>) -> (
    Result<u64, SevenSegmentError>,
    Set<u128>,
) {
    let reading = read_digits(digits, marks, found, digits.len() as int);
    (
        match reading.failure {
            Some(e) => Err(e),
            None => if reading.all_are_empty {
                Err(SevenSegmentError::Empty)
            } else {
                Ok(reading.sum as u64)
            },
        },
        reading.found,
    )
}

/// Reading one field.
pub open spec fn read_entry(entry: EntryView, marks: Seq<(u128, u128)>, found: Set<u128>) -> (
    Result<LayoutResultOption, LayoutResultError>,
    Set<u128>,
) {
    match entry {
        EntryView::Boolean(bar) => {
            let (set, found_after) = read_bar(bar, marks, found);
            match set {
                Ok(b) => (Ok(LayoutResultOption::Boolean(b)), found_after),
                Err(_) => (Err(LayoutResultError::BarConflictError), found_after),
            }
        },
        EntryView::SevenSegmentDisplay(digits) => {
            let (number, found_after) = read_number(digits, marks, found);
            match number {
                Ok(n) => (Ok(LayoutResultOption::Number(n)), found_after),
                Err(e) => (Err(LayoutResultError::SevenSegmentError(e)), found_after),
            }
        },
    }
}

/// Reading the first `n` fields, beginning with no name found: the values
/// of the fields in order, or the first error.
pub open spec fn read_entries(entries: Seq<EntryView>, marks: Seq<(u128, u128)>, n: int) -> (
    Result<Seq<LayoutResultOption>, LayoutResultError>,
    Set<u128>,
)
    decreases n,
{
    if n <= 0 {
        (Ok(Seq::empty()), Set::empty())
    } else {
        let (before, found_before) = read_entries(entries, marks, n - 1);
        match before {
            Err(e) => (Err(e), found_before),
            Ok(values) => {
                let (value, found_after) = read_entry(entries[n - 1], marks, found_before);
                match value {
                    Ok(v) => (Ok(values.push(v)), found_after),
                    Err(e) => (Err(e), found_after),
                }
            },
        }
    }
}

/// What is read from a layout's fields and the marks of a sheet.
pub open spec fn decoded(entries: Seq<EntryView>, marks: Seq<(u128, u128)>) -> Result<
    Seq<LayoutResultOption>,
    LayoutResultError,
> {
    read_entries(entries, marks, entries.len() as int).0
}

/// Whether each digit has seven bars, each with its far corner on the plane,
/// and there are no more than `MAX_DIGITS` digits.
pub open spec fn readable(digits: Seq<Seq<Bar>>) -> bool {
    &&& digits.len() <= MAX_DIGITS
    &&& forall|d: int| 0 <= d < digits.len() ==> readable_digit(#[trigger] digits[d])
}

/// Whether a digit has seven bars, each with its far corner on the plane.
pub open spec fn readable_digit(bars: Seq<Bar>) -> bool {
    &&& bars.len() == 7
    &&& forall|k: int| 0 <= k < 7 ==> (#[trigger] bars[k]).well_formed()
}

/// Whether a field can be read.
pub open spec fn readable_entry(entry: EntryView) -> bool {
    match entry {
        EntryView::Boolean(bar) => bar.well_formed(),
        EntryView::SevenSegmentDisplay(digits) => readable(digits),
    }
}

fn is_close(tx: u128, ty: u128, cx: u128, cy: u128) -> (near: bool)
    ensures
        near == close((tx, ty), (cx as int, cy as int)),
{
    let dx = if tx > cx {
        tx - cx
    } else {
        cx - tx
    };
    let dy = if ty > cy {
        ty - cy
    } else {
        cy - ty
    };
    proof {
        let sx = tx - cx;
        let sy = ty - cy;
        assert(sx * sx == dx * dx) by (nonlinear_arith)
            requires
                sx == dx || sx == -dx,
        ;
        assert(sy * sy == dy * dy) by (nonlinear_arith)
            requires
                sy == dy || sy == -dy,
        ;
        assert(dx * dx >= 0 && dy * dy >= 0) by (nonlinear_arith);
        if dx >= 70 {
            assert(dx * dx >= 4900) by (nonlinear_arith)
                requires
                    dx >= 70,
            ;
        }
        if dy >= 70 {
            assert(dy * dy >= 4900) by (nonlinear_arith)
                requires
                    dy >= 70,
            ;
        }
        if dx < 70 && dy < 70 {
            assert(dx * dx < 4900 && dy * dy < 4900) by (nonlinear_arith)
                requires
                    0 <= dx < 70,
                    0 <= dy < 70,
            ;
        }
    }
    if dx >= BAR_DISTANCE_THRESHOLD || dy >= BAR_DISTANCE_THRESHOLD {
        false
    } else {
        dx * dx + dy * dy < BAR_DISTANCE_THRESHOLD * BAR_DISTANCE_THRESHOLD
    }
}

impl Bar {
    /// Whether some mark lies close to the bar's centre.  A bar that is set
    /// has its name put among those found, unless it is there already, which
    /// is a conflict.
    pub fn is_set(&self, targets_found: &BarsFound, already_found: &mut HashSet<u128>) -> (set:
        Result<bool, BarConflictError>)
        requires
            self.well_formed(),
        ensures
            set == read_bar(*self, targets_found@, old(already_found)@).0,
            final(already_found)@ == read_bar(*self, targets_found@, old(already_found)@).1,
    {
        broadcast use vstd::std_specs::hash::group_hash_axioms;

        let (mean_x, mean_y) = self.mean_position();
        let mut i: usize = 0;
        while i < targets_found.bars.len()
            invariant
                i <= targets_found.bars.len(),
                mean_x == self.center().0,
                mean_y == self.center().1,
                already_found@ == old(already_found)@,
                forall|k: int| 0 <= k < i ==> !close(#[trigger] targets_found@[k], self.center()),
            decreases targets_found.bars.len() - i,
        {
            let (target_x, target_y) = targets_found.bars[i];
            if is_close(target_x, target_y, mean_x, mean_y) {
                proof {
                    assert(close(targets_found@[i as int], self.center()));
                }
                if already_found.contains(&self.id.inner) {
                    return Err(BarConflictError);
                } else {
                    already_found.insert(self.id.inner);
                    return Ok(true);
                }
            }
            i += 1;
        }
        Ok(false)
    }
}

/// The digit that the set segments show.
fn digit_from_mask(bars_set: usize) -> (digit: Result<u64, SevenSegmentError>)
    ensures
        digit == digit_of_mask(bars_set as int),
{
    if bars_set == 0b0000000 {
        Err(SevenSegmentError::Empty)
    } else if bars_set == 0b1111110 {
        Ok(0)
    } else if bars_set == 0b0110000 {
        Ok(1)
    } else if bars_set == 0b1101101 {
        Ok(2)
    } else if bars_set == 0b1111001 {
        Ok(3)
    } else if bars_set == 0b0110011 {
        Ok(4)
    } else if bars_set == 0b1011011 {
        Ok(5)
    } else if bars_set == 0b1011111 || bars_set == 0b0011111 {
        Ok(6)
    } else if bars_set == 0b1110000 {
        Ok(7)
    } else if bars_set == 0b1111111 {
        Ok(8)
    } else if bars_set == 0b1111011 || bars_set == 0b1110011 {
        Ok(9)
    } else {
        Err(SevenSegmentError::Invalid(bars_set))
    }
}

impl SevenSegmentDigit {
    /// Reads the digit: its segments from `a` to `g`, then the digit that
    /// they show.
    pub fn get_digit(&self, targets_found: &BarsFound, already_found: &mut HashSet<u128>) -> (digit:
        Result<u64, SevenSegmentError>)
        requires
            readable_digit(self@),
        ensures
            digit == read_digit(self@, targets_found@, old(already_found)@).0,
            final(already_found)@ == read_digit(self@, targets_found@, old(already_found)@).1,
            digit is Ok ==> digit.unwrap() <= 9,
    {
        let mut bars_set: usize = 0;
        let mut i: usize = 0;
        while i < 7
            invariant
                i <= 7,
                readable_digit(self@),
                read_segments(self@, targets_found@, old(already_found)@, i as int) == (
                    Ok::<int, BarConflictError>(bars_set as int),
                    already_found@,
                ),
                bars_set < 128,
            decreases 7 - i,
        {
            let bar = &self.bars[i];
            match bar.is_set(targets_found, already_found) {
                Err(_) => {
                    proof {
                        lemma_segments_stay_failed(
                            self@,
                            targets_found@,
                            old(already_found)@,
                            i + 1,
                            7,
                        );
                    }
                    return Err(SevenSegmentError::BarConflict);
                },
                Ok(is_set) => {
                    proof {
                        lemma_segments_bound(self@, targets_found@, old(already_found)@, i + 1);
                    }
                    bars_set = 2 * bars_set + if is_set {
                        1
                    } else {
                        0
                    };
                },
            }
            i += 1;
        }
        digit_from_mask(bars_set)
    }
}

/// Once a segment has failed, the later ones are not read.
proof fn lemma_segments_stay_failed(
    bars: Seq<Bar>,
    marks: Seq<(u128, u128)>,
    found: Set<u128>,
    n: int,
    m: int,
)
    requires
        0 <= n <= m,
        read_segments(bars, marks, found, n).0 is Err,
    ensures
        read_segments(bars, marks, found, m) == read_segments(bars, marks, found, n),
    decreases m,
{
    if n < m {
        lemma_segments_stay_failed(bars, marks, found, n, m - 1);
    }
}

/// `n` segments give a number below two to the `n`.
proof fn lemma_segments_bound(bars: Seq<Bar>, marks: Seq<(u128, u128)>, found: Set<u128>, n: int)
    requires
        0 <= n <= 7,
    ensures
        match read_segments(bars, marks, found, n).0 {
            Ok(mask) => 0 <= mask < pow2(n as nat),
            Err(_) => true,
        },
        pow2(n as nat) <= 128,
    decreases n,
{
    reveal_with_fuel(pow2, 8);
    if n > 0 {
        lemma_segments_bound(bars, marks, found, n - 1);
    }
}

/// Once the reading of a number has stopped, the digits further left are
/// not read.
proof fn lemma_digits_stay_failed(
    digits: Seq<Seq<Bar>>,
    marks: Seq<(u128, u128)>,
    found: Set<u128>,
    n: int,
    m: int,
)
    requires
        0 <= n <= m,
        read_digits(digits, marks, found, n).failure is Some,
    ensures
        read_digits(digits, marks, found, m) == read_digits(digits, marks, found, n),
    decreases m,
{
    if n < m {
        lemma_digits_stay_failed(digits, marks, found, n, m - 1);
    }
}

/// The powers of ten grow.
proof fn lemma_pow10_grows(n: nat, m: nat)
    requires
        n <= m,
    ensures
        1 <= pow10(n) <= pow10(m),
    decreases m,
{
    if n < m {
        lemma_pow10_grows(n, (m - 1) as nat);
    } else if n > 0 {
        lemma_pow10_grows((n - 1) as nat, (n - 1) as nat);
    }
}

/// The powers of ten up to the nineteenth fit 64 bits.
proof fn lemma_pow10(n: nat)
    requires
        n <= 19,
    ensures
        1 <= pow10(n) <= 10_000_000_000_000_000_000,
        n < 19 ==> 10 * pow10(n) == pow10(n + 1) && pow10(n) <= 1_000_000_000_000_000_000,
{
    reveal_with_fuel(pow10, 20);
    assert(pow10(18) == 1_000_000_000_000_000_000);
    assert(pow10(19) == 10_000_000_000_000_000_000);
    lemma_pow10_grows(n, 19);
    if n < 19 {
        lemma_pow10_grows(n, 18);
    }
}

impl SevenSegmentDisplay {
    /// Reads the number: its digits from the right, each worth ten times
    /// the one before.
    pub fn as_number(&self, targets_found: &BarsFound, already_found: &mut HashSet<u128>) -> (number:
        Result<u64, SevenSegmentError>)
        requires
            readable(self@),
        ensures
            number == read_number(self@, targets_found@, old(already_found)@).0,
            final(already_found)@ == read_number(self@, targets_found@, old(already_found)@).1,
    {
        let mut sum: u64 = 0;
        let mut power_of_ten: u64 = 1;
        let mut has_seen_empty = false;
        let mut all_are_empty = true;
        let count = self.digits.len();
        let ghost digits = self@;
        let ghost marks = targets_found@;
        let ghost before = already_found@;
        let mut n: usize = 0;
        while n < count
            invariant
                n <= count,
                count == self.digits@.len(),
                count <= 19,
                digits == self@,
                marks == targets_found@,
                before == old(already_found)@,
                readable(digits),
                read_digits(digits, marks, before, n as int) == (Reading {
                    sum: sum as int,
                    has_seen_empty,
                    all_are_empty,
                    failure: None,
                    found: already_found@,
                }),
                n < count ==> power_of_ten == pow10(n as nat),
                sum < pow10(n as nat),
            decreases count - n,
        {
            let digit = &self.digits[count - 1 - n];
            proof {
                assert(digit@ == digits[digits.len() - (n + 1)]);
                assert(readable_digit(digits[digits.len() - (n + 1)]));
                lemma_pow10(n as nat);
            }
            match digit.get_digit(targets_found, already_found) {
                Ok(d) => {
                    if has_seen_empty {
                        proof {
                            lemma_digits_stay_failed(digits, marks, before, n + 1, count as int);
                        }
                        return Err(SevenSegmentError::Empty);
                    }
                    all_are_empty = false;
                    proof {
                        assert(d * power_of_ten <= 9 * power_of_ten) by (nonlinear_arith)
                            requires
                                d <= 9,
                                power_of_ten >= 0,
                        ;
                    }
                    sum += d * power_of_ten;
                },
                Err(SevenSegmentError::Empty) => {
                    has_seen_empty = true;
                },
                Err(SevenSegmentError::Invalid(bits)) => {
                    proof {
                        lemma_digits_stay_failed(digits, marks, before, n + 1, count as int);
                    }
                    return Err(SevenSegmentError::Invalid(bits));
                },
                Err(SevenSegmentError::BarConflict) => {
                    proof {
                        lemma_digits_stay_failed(digits, marks, before, n + 1, count as int);
                    }
                    return Err(SevenSegmentError::BarConflict);
                },
            }
            n += 1;
            if n < count {
                power_of_ten *= 10;
            }
            proof {
                if n == count && n < 19 {
                    lemma_pow10(n as nat);
                }
            }
        }
        if all_are_empty {
            Err(SevenSegmentError::Empty)
        } else {
            Ok(sum)
        }
    }
}

/// The values of the fields of a sheet, in order.
#[derive(Debug, PartialEq, Eq)]
pub struct LayoutResult {
    pub result: Vec<LayoutResultOption>,
}

impl View for LayoutResult {
    type V = Seq<LayoutResultOption>;

    open spec fn view(&self) -> Seq<LayoutResultOption> {
        self.result@
    }
}

/// The bars of each field.
pub open spec fn entry_views(fields: Seq<LayoutEntry>) -> Seq<EntryView> {
    Seq::new(fields.len(), |i: int| fields[i]@)
}

/// Once a field has failed, the later ones are not read.
proof fn lemma_entries_stay_failed(
    entries: Seq<EntryView>,
    marks: Seq<(u128, u128)>,
    n: int,
    m: int,
)
    requires
        0 <= n <= m,
        read_entries(entries, marks, n).0 is Err,
    ensures
        read_entries(entries, marks, m) == read_entries(entries, marks, n),
    decreases m,
{
    if n < m {
        lemma_entries_stay_failed(entries, marks, n, m - 1);
    }
}

/// Reads the fields in order, beginning with no name found.  The first
/// error ends the reading.
pub fn decode_entries(fields: &Vec<LayoutEntry>, targets_found: &BarsFound) -> (values: Result<
    LayoutResult,
    LayoutResultError,
>)
    requires
        forall|i: int| 0 <= i < fields@.len() ==> readable_entry((#[trigger] fields@[i])@),
    ensures
        match values {
            Ok(read) => decoded(entry_views(fields@), targets_found@) == Ok::<
                Seq<LayoutResultOption>,
                LayoutResultError,
            >(read@),
            Err(e) => decoded(entry_views(fields@), targets_found@) == Err::<
                Seq<LayoutResultOption>,
                LayoutResultError,
            >(e),
        },
{
    let mut already_found: HashSet<u128> = HashSet::new();
    let mut result: Vec<LayoutResultOption> = Vec::new();
    let ghost entries = entry_views(fields@);
    let ghost marks = targets_found@;
    let mut i: usize = 0;
    proof {
        broadcast use vstd::std_specs::hash::group_hash_axioms;

        assert(already_found@ =~= Set::<u128>::empty());
    }
    while i < fields.len()
        invariant
            i <= fields.len(),
            entries == entry_views(fields@),
            marks == targets_found@,
            forall|k: int| 0 <= k < fields@.len() ==> readable_entry((#[trigger] fields@[k])@),
            read_entries(entries, marks, i as int) == (
                Ok::<Seq<LayoutResultOption>, LayoutResultError>(result@),
                already_found@,
            ),
        decreases fields.len() - i,
    {
        proof {
            assert(entries[i as int] == fields@[i as int]@);
            assert(readable_entry(fields@[i as int]@));
        }
        match &fields[i] {
            LayoutEntry::Boolean(bar) => {
                match bar.is_set(targets_found, &mut already_found) {
                    Ok(is_set) => {
                        result.push(LayoutResultOption::Boolean(is_set));
                    },
                    Err(_) => {
                        proof {
                            lemma_entries_stay_failed(entries, marks, i + 1, fields@.len() as int);
                        }
                        return Err(LayoutResultError::BarConflictError);
                    },
                }
            },
            LayoutEntry::SevenSegmentDisplay(number) => {
                match number.as_number(targets_found, &mut already_found) {
                    Ok(n) => {
                        result.push(LayoutResultOption::Number(n));
                    },
                    Err(e) => {
                        proof {
                            lemma_entries_stay_failed(entries, marks, i + 1, fields@.len() as int);
                        }
                        return Err(LayoutResultError::SevenSegmentError(e));
                    },
                }
            },
        }
        i += 1;
    }
    Ok(LayoutResult { result })
}

/// Two to the `n`.
pub open spec fn pow2(n: nat) -> nat
    decreases n,
{
    if n == 0 {
        1
    } else {
        2 * pow2((n - 1) as nat)
    }
}

} // verus!
