//! The level meters of the two sides, and the levels that they showed lately.

use crate::single::{self, Single};
use std::collections::VecDeque;
use vstd::prelude::*;

verus! {

/// How many levels a history holds.
pub const HISTORY_LEN: usize = 180;

/// Puts a level in a slot, clamped to the unit range.
pub fn store_level(slot: &mut u32, value: Single)
    ensures
        *final(slot) == value.clamped().bits,
{
    *slot = value.clamp_to_unit().bits;
}

/// The level in a slot, clamped to the unit range.
pub fn load_level(slot: &u32) -> (level: Single)
    ensures
        level == (Single { bits: *slot }).clamped(),
{
    Single { bits: *slot }.clamp_to_unit()
}

/// Whether a level is one that a meter can show: clamping keeps it, and if it is a number it lies
/// between zero and one.
pub open spec fn in_range(level: Single) -> bool {
    &&& level.clamped() == level
    &&& !level.is_nan() ==> 0 <= level.value() <= single::one_in_units()
}

/// The current levels of the input and the output.
pub struct LevelMeters {
    input: u32,
    output: u32,
}

impl LevelMeters {
    /// What the input meter shows.
    pub closed spec fn input_level(&self) -> Single {
        (Single { bits: self.input }).clamped()
    }

    /// What the output meter shows.
    pub closed spec fn output_level(&self) -> Single {
        (Single { bits: self.output }).clamped()
    }

    /// What a meter shows is in the unit range, whatever was set: a number between zero and one,
    /// unless it was set to no number.
    pub proof fn law_levels_are_clamped(&self)
        ensures
            in_range(self.input_level()),
            in_range(self.output_level()),
    {
        single::lemma_clamped(Single { bits: self.input });
        single::lemma_clamped(Single { bits: self.output });
    }

    /// Two meters at zero.
    pub fn new() -> (result: LevelMeters)
        ensures
            result.input_level().bits == 0,
            result.output_level().bits == 0,
    {
        proof {
            single::lemma_clamped(Single { bits: 0 });
        }
        LevelMeters { input: Single::zero().bits, output: Single::zero().bits }
    }

    /// Sets the input meter.
    pub fn set_input(&mut self, value: Single)
        ensures
            final(self).input_level() == value.clamped(),
            final(self).output_level() == old(self).output_level(),
    {
        proof {
            single::lemma_clamped(value);
        }
        store_level(&mut self.input, value);
    }

    /// Sets the output meter.
    pub fn set_output(&mut self, value: Single)
        ensures
            final(self).input_level() == old(self).input_level(),
            final(self).output_level() == value.clamped(),
    {
        proof {
            single::lemma_clamped(value);
        }
        store_level(&mut self.output, value);
    }

    /// What the two meters show: the input's level, then the output's.
    pub fn get(&self) -> (levels: (Single, Single))
        ensures
            levels == (self.input_level(), self.output_level()),
            in_range(levels.0),
            in_range(levels.1),
    {
        proof {
            self.law_levels_are_clamped();
        }
        (load_level(&self.input), load_level(&self.output))
    }

    /// Sets both meters to zero, whatever they showed.
    pub fn reset(&mut self)
        ensures
            final(self).input_level().bits == 0,
            final(self).output_level().bits == 0,
    {
        proof {
            single::lemma_clamped(Single { bits: 0 });
        }
        self.set_input(Single::zero());
        self.set_output(Single::zero());
    }
}

/// A history after one more level: the oldest leaves where it is full.
pub open spec fn pushed(history: Seq<Single>, level: Single) -> Seq<Single> {
    if history.len() >= HISTORY_LEN {
        history.drop_first().push(level.clamped())
    } else {
        history.push(level.clamped())
    }
}

/// Whether a history holds nothing but numbers between zero and one.
pub open spec fn all_in_unit_range(history: Seq<Single>) -> bool {
    forall|i: int|
        0 <= i < history.len() ==> !(#[trigger] history[i]).is_nan() && 0 <= history[i].value()
            <= single::one_in_units()
}

/// Adds a level to a history, clamped to the unit range; the oldest leaves where it is full.
pub fn push_level(history: &mut VecDeque<Single>, level: Single)
    ensures
        final(history)@ == pushed(old(history)@, level),
{
    if history.len() >= HISTORY_LEN {
        let ghost before = history@;
        let _oldest: Option<Single> = history.pop_front();
        assert(history@ =~= before.drop_first());
    }
    history.push_back(level.clamp_to_unit());
}

/// A history after a row of levels.
pub open spec fn pushed_all(history: Seq<Single>, levels: Seq<Single>) -> Seq<Single>
    decreases levels.len(),
{
    if levels.len() == 0 {
        history
    } else {
        pushed(pushed_all(history, levels.drop_last()), levels.last())
    }
}

/// A full history stays full, and always holds the latest levels, clamped, oldest first.
pub proof fn law_history_is_a_sliding_window(history: Seq<Single>, levels: Seq<Single>)
    requires
        history.len() == HISTORY_LEN,
    ensures
        pushed_all(history, levels).len() == HISTORY_LEN,
        pushed_all(history, levels) == (history + levels.map_values(
            |level: Single| level.clamped(),
        )).skip(levels.len() as int),
    decreases levels.len(),
{
    let clamped = levels.map_values(|level: Single| level.clamped());
    if levels.len() == 0 {
        assert((history + clamped).skip(0) =~= history);
    } else {
        law_history_is_a_sliding_window(history, levels.drop_last());
        let fewer = levels.drop_last().map_values(|level: Single| level.clamped());
        assert(clamped =~= fewer.push(levels.last().clamped()));
        assert(pushed_all(history, levels) =~= (history + clamped).skip(levels.len() as int));
    }
}

/// What one more level does to a history: it stands last, clamped; one that holds fewer than 180
/// levels keeps all of them in their places, and any other loses its oldest and no more.
pub proof fn law_latest_level_is_last(history: Seq<Single>, level: Single)
    ensures
        pushed(history, level).len() == if history.len() < 180 {
            history.len() + 1
        } else {
            history.len()
        },
        pushed(history, level)[pushed(history, level).len() - 1] == level.clamped(),
        history.len() < 180 ==> forall|i: int|
            0 <= i < history.len() ==> #[trigger] pushed(history, level)[i] == history[i],
        history.len() >= 180 ==> forall|i: int|
            0 <= i < history.len() - 1 ==> #[trigger] pushed(history, level)[i] == history[i + 1],
{
}

/// Whatever levels arrive, as long as they are numbers, a history of numbers between zero and one
/// stays one.
pub proof fn law_history_stays_in_range(history: Seq<Single>, level: Single)
    requires
        !level.is_nan(),
        all_in_unit_range(history),
    ensures
        all_in_unit_range(pushed(history, level)),
{
    single::lemma_clamped(level);
    let after = pushed(history, level);
    assert forall|i: int| 0 <= i < after.len() implies !(#[trigger] after[i]).is_nan() && 0
        <= after[i].value() <= single::one_in_units() by {
        if i < after.len() - 1 {
            if history.len() >= HISTORY_LEN {
                assert(after[i] == history[i + 1]);
            } else {
                assert(after[i] == history[i]);
            }
        }
    }
}

} // verus!
