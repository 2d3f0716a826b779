//! What fits on the screen: the choices that the window's drawing makes by the size at hand.
//!
//! Sizes are in points; whatever is given in percent is a share of one.

use crate::single::{self, Single};
use vstd::prelude::*;

verus! {

/// Whether `size` is a number below `points`.
pub open spec fn below(size: Single, points: int) -> bool {
    !size.is_nan() && size.value() < points * single::one_in_units()
}

/// Whether `size` is a number of at least `points`.
pub open spec fn reaches(size: Single, points: int) -> bool {
    !size.is_nan() && size.value() >= points * single::one_in_units()
}

/// Whether `size` is a number above `points`.
pub open spec fn exceeds(size: Single, points: int) -> bool {
    !size.is_nan() && size.value() > points * single::one_in_units()
}

/// A size is below a mark or reaches it, never both, and neither where it is no number; it exceeds
/// the mark where it reaches it and is not just as large.
pub proof fn law_sizes_against_marks(size: Single, points: int)
    ensures
        below(size, points) <==> !size.is_nan() && size.value() < points * single::one_in_units(),
        reaches(size, points) <==> !size.is_nan() && !below(size, points),
        exceeds(size, points) <==> reaches(size, points) && size.value() != points
            * single::one_in_units(),
{
}

/// A size that is below a mark is below every larger mark, and one that reaches a mark reaches
/// every smaller one.
pub proof fn law_marks_are_ordered(size: Single, smaller: int, larger: int)
    requires
        smaller <= larger,
    ensures
        below(size, smaller) ==> below(size, larger),
        reaches(size, larger) ==> reaches(size, smaller),
        exceeds(size, larger) ==> exceeds(size, smaller),
{
    single::lemma_units_landmarks();
    let one = single::one_in_units();
    assert(smaller * one <= larger * one) by (nonlinear_arith)
        requires
            smaller <= larger,
            one > 0,
    ;
}

/// How a device card is laid out.
#[derive(Clone, Copy, Debug, PartialEq, Eq, Structural)]
pub struct CardLayout {
    /// Whether the level meter has room.
    pub show_meter: bool,
    /// From the top of the card to its title.
    pub title_top: u16,
    /// The size of the title.
    pub title_font: u16,
    /// From the top of the card to the device's name.
    pub name_top: u16,
    /// The size of the device's name.
    pub name_font: u16,
    /// How many characters of the device's name are shown.
    pub name_limit: usize,
    /// From the top of the card to the waveform.
    pub waveform_top: u16,
    /// From the waveform to the right edge of the card.
    pub waveform_right: u16,
    /// From the waveform to the bottom of the card.
    pub waveform_bottom: u16,
}

/// The layout of a card of the given size.
pub open spec fn card_layout_of(width: Single, height: Single) -> CardLayout {
    let low = below(height, 120);
    let show_meter = reaches(width, 240) && reaches(height, 88);
    CardLayout {
        show_meter,
        title_top: if low { 6 } else { 10 },
        title_font: if low { 14 } else { 16 },
        name_top: if low { 24 } else { 34 },
        name_font: if below(width, 300) { 11 } else { 13 },
        name_limit: if below(width, 220) { 24 } else if below(width, 300) { 42 } else { 84 },
        waveform_top: if low { 42 } else { 70 },
        waveform_right: if show_meter { 32 } else { 12 },
        waveform_bottom: if low { 8 } else { 14 },
    }
}

/// Lays out a device card of the given size.
pub fn card_layout(width: Single, height: Single) -> (layout: CardLayout)
    ensures
        layout == card_layout_of(width, height),
{
    let low: bool = height.less_than(Single::whole(120));
    let narrow: bool = width.less_than(Single::whole(300));
    let show_meter: bool = width.at_least(Single::whole(240)) && height.at_least(
        Single::whole(88),
    );
    CardLayout {
        show_meter,
        title_top: if low { 6 } else { 10 },
        title_font: if low { 14 } else { 16 },
        name_top: if low { 24 } else { 34 },
        name_font: if narrow { 11 } else { 13 },
        name_limit: if width.less_than(Single::whole(220)) {
            24
        } else if narrow {
            42
        } else {
            84
        },
        waveform_top: if low { 42 } else { 70 },
        waveform_right: if show_meter { 32 } else { 12 },
        waveform_bottom: if low { 8 } else { 14 },
    }
}

/// Whether a waveform of the given size is worth drawing.
pub fn waveform_fits(width: Single, height: Single) -> (result: bool)
    ensures
        result == (exceeds(width, 20) && exceeds(height, 14)),
        result <==> !width.is_nan() && !height.is_nan() && width.value() > 20
            * single::one_in_units() && height.value() > 14 * single::one_in_units(),
{
    Single::whole(20).less_than(width) && Single::whole(14).less_than(height)
}

/// How a waveform is drawn.
#[derive(Clone, Copy, Debug, PartialEq, Eq, Structural)]
pub struct WaveformStyle {
    /// The largest swing to either side, in percent of the height.
    pub swing: u16,
    /// How much the levels are enlarged, in percent.
    pub gain: u16,
    /// How bright the inner line is, in percent.
    pub brightness: u16,
}

/// The style of a waveform of the given height and number of levels; fewer than two levels are
/// not drawn.
pub fn waveform_style(height: Single, levels: usize) -> (result: Option<WaveformStyle>)
    ensures
        result == if levels < 2 {
            None
        } else if below(height, 78) {
            Some(WaveformStyle { swing: 48, gain: 185, brightness: 100 })
        } else {
            Some(WaveformStyle { swing: 42, gain: 155, brightness: 90 })
        },
        result is None <==> levels < 2,
        result matches Some(style) ==> {
            let small = !height.is_nan() && height.value() < 78 * single::one_in_units();
            &&& small ==> style.swing == 48 && style.gain == 185 && style.brightness == 100
            &&& !small ==> style.swing == 42 && style.gain == 155 && style.brightness == 90
        },
{
    if levels < 2 {
        None
    } else if height.less_than(Single::whole(78)) {
        Some(WaveformStyle { swing: 48, gain: 185, brightness: 100 })
    } else {
        Some(WaveformStyle { swing: 42, gain: 155, brightness: 90 })
    }
}

/// The gap between the two cards of the flow panel.
#[derive(Clone, Copy, Debug, PartialEq, Eq, Structural)]
pub enum CardGap {
    /// This many points.
    Fixed(u16),
    /// This share of the height, within bounds.
    Share { percent: u16, least: u16, most: u16 },
}

/// The gap between the two cards of a flow panel of the given height.
pub fn card_gap(height: Single) -> (gap: CardGap)
    ensures
        gap == if below(height, 72) {
            CardGap::Fixed(14)
        } else {
            CardGap::Share { percent: 20, least: 28, most: 72 }
        },
        gap == CardGap::Fixed(14) <==> !height.is_nan() && height.value() < 72
            * single::one_in_units(),
{
    if height.less_than(Single::whole(72)) {
        CardGap::Fixed(14)
    } else {
        CardGap::Share { percent: 20, least: 28, most: 72 }
    }
}

/// Where the parts of a card stand from top to bottom depends on its height alone: two cards of the
/// same height have their title, their name and their waveform at the same places, whatever their
/// widths.
pub proof fn law_vertical_places_by_height(width: Single, other_width: Single, height: Single)
    ensures
        card_layout_of(width, height).title_top == card_layout_of(other_width, height).title_top,
        card_layout_of(width, height).title_font == card_layout_of(other_width, height).title_font,
        card_layout_of(width, height).name_top == card_layout_of(other_width, height).name_top,
        card_layout_of(width, height).waveform_top == card_layout_of(
            other_width,
            height,
        ).waveform_top,
        card_layout_of(width, height).waveform_bottom == card_layout_of(
            other_width,
            height,
        ).waveform_bottom,
{
}

/// How large the device's name is written, and how much of it, depends on the width alone.
pub proof fn law_name_by_width(width: Single, height: Single, other_height: Single)
    ensures
        card_layout_of(width, height).name_font == card_layout_of(width, other_height).name_font,
        card_layout_of(width, height).name_limit == card_layout_of(width, other_height).name_limit,
{
}

/// All cards below 120 points share one arrangement from top to bottom, and all others another,
/// which has more room everywhere.
pub proof fn law_two_vertical_arrangements(
    width: Single,
    height: Single,
    other_width: Single,
    other_height: Single,
)
    ensures
        ({
            let mark = 120 * single::one_in_units();
            let low = !height.is_nan() && height.value() < mark;
            let other_low = !other_height.is_nan() && other_height.value() < mark;
            let (a, b) = (
                card_layout_of(width, height),
                card_layout_of(other_width, other_height),
            );
            &&& low == other_low ==> a.title_top == b.title_top && a.title_font == b.title_font
                && a.name_top == b.name_top && a.waveform_top == b.waveform_top
                && a.waveform_bottom == b.waveform_bottom
            &&& low && !other_low ==> a.title_top + 4 == b.title_top && a.title_font + 2
                == b.title_font && a.name_top + 10 == b.name_top && a.waveform_top + 28
                == b.waveform_top && a.waveform_bottom + 6 == b.waveform_bottom
            &&& low ==> a.title_top == 6 && a.title_font == 14 && a.name_top == 24
                && a.waveform_top == 42 && a.waveform_bottom == 8
        }),
{
}

/// How the width decides over the name: in full size from 300 points on, with 84 characters; below
/// that smaller, with half as many; and below 220 points with 24.
pub proof fn law_name_by_width_marks(width: Single, height: Single)
    ensures
        ({
            let layout = card_layout_of(width, height);
            let one = single::one_in_units();
            let narrow = !width.is_nan() && width.value() < 300 * one;
            let very_narrow = !width.is_nan() && width.value() < 220 * one;
            &&& layout.name_font == 11 <==> narrow
            &&& layout.name_font == 13 <==> !narrow
            &&& layout.name_limit == 24 <==> very_narrow
            &&& layout.name_limit == 84 <==> !narrow
            &&& layout.name_limit == 42 <==> narrow && !very_narrow
        }),
{
    law_marks_are_ordered(width, 220, 300);
}

/// The meter is shown exactly on cards of at least 240 by 88 points, and exactly there does the
/// waveform leave room for it at the right.
pub proof fn law_meter_needs_room(width: Single, height: Single)
    ensures
        ({
            let layout = card_layout_of(width, height);
            let one = single::one_in_units();
            &&& layout.show_meter <==> !width.is_nan() && !height.is_nan() && width.value() >= 240
                * one && height.value() >= 88 * one
            &&& layout.waveform_right == 32 <==> layout.show_meter
            &&& layout.waveform_right == 12 <==> !layout.show_meter
        }),
{
}

/// The title, the name and the waveform stand below each other and do not overlap.
pub proof fn law_parts_do_not_overlap(width: Single, height: Single)
    ensures
        card_layout_of(width, height).title_top + card_layout_of(width, height).title_font
            < card_layout_of(width, height).name_top,
        card_layout_of(width, height).name_top + card_layout_of(width, height).name_font
            < card_layout_of(width, height).waveform_top,
{
}

/// A card of at least 65 points height leaves more than 14 points between the top and the bottom
/// of the waveform, and one of at least 45 points width more than 20 points between its left edge,
/// which is 12 points from that of the card, and its right one: the waveform is drawn.
pub proof fn law_waveform_has_room(width: Single, height: Single)
    ensures
        ({
            let layout = card_layout_of(width, height);
            let one = single::one_in_units();
            &&& !height.is_nan() && height.value() >= 65 * one ==> height.value() - (
            layout.waveform_top + layout.waveform_bottom) * one > 14 * one
            &&& !width.is_nan() && width.value() >= 45 * one ==> width.value() - (12
                + layout.waveform_right) * one > 20 * one
        }),
{
    single::lemma_units_landmarks();
    let layout = card_layout_of(width, height);
    let one = single::one_in_units();
    let upright: int = layout.waveform_top + layout.waveform_bottom;
    let across: int = 12 + layout.waveform_right;
    if upright == 50 {
        assert(upright * one == 50 * one);
    } else {
        assert(upright == 84);
        assert(upright * one == 84 * one);
    }
    if across == 24 {
        assert(across * one == 24 * one);
    } else {
        assert(across == 44);
        assert(across * one == 44 * one);
    }
}

/// A larger card never shows less: not of the device's name, and not of the meter.
pub proof fn law_larger_cards_show_more(
    width: Single,
    height: Single,
    larger_width: Single,
    larger_height: Single,
)
    requires
        !larger_width.is_nan(),
        !larger_height.is_nan(),
        !width.is_nan(),
        width.value() <= larger_width.value(),
        height.value() <= larger_height.value(),
    ensures
        card_layout_of(width, height).name_limit <= card_layout_of(
            larger_width,
            larger_height,
        ).name_limit,
        card_layout_of(width, height).show_meter ==> card_layout_of(
            larger_width,
            larger_height,
        ).show_meter,
{
}

} // verus!
