//! Simulation time: one tick is one second, a day has 24 hours, a month 30 days
//! and a year 12 months.

use vstd::prelude::*;

verus! {

/// The calendar fields of a [`DateTime`].
#[derive(Debug, Clone, Copy, PartialEq, Eq, Structural)]
pub struct DateTimeView {
    pub offset: usize,
    pub year: usize,
    pub month: usize,
    pub day: usize,
    pub hour: usize,
    pub minute: usize,
    pub second: usize,
}

/// The calendar date and time `ticks` seconds after the start, shifted by `offset`
/// hours taken modulo 24: each field is the remainder of the shifted seconds divided
/// by the length of that field's unit, modulo the number of units in the next one.
pub open spec fn datetime_at(ticks: nat, offset: nat) -> DateTimeView {
    let o = offset % 24;
    let s = ticks + o * 3600;
    DateTimeView {
        offset: o as usize,
        year: (s / 31104000) as usize,
        month: ((s / 2592000) % 12) as usize,
        day: ((s / 86400) % 30) as usize,
        hour: ((s / 3600) % 24) as usize,
        minute: ((s / 60) % 60) as usize,
        second: (s % 60) as usize,
    }
}

/// The calendar fields of a date time are within their units (the offset within a
/// day's 24 hours) and, read back as a mixed-radix number, give the seconds since
/// the start shifted by the offset.
pub proof fn lemma_datetime_recomposes(ticks: nat, offset: nat)
    requires
        ticks + (offset % 24) * 3600 <= usize::MAX,
    ensures
        ({
            let d = datetime_at(ticks, offset);
            &&& d.offset < 24
            &&& d.second < 60
            &&& d.minute < 60
            &&& d.hour < 24
            &&& d.day < 30
            &&& d.month < 12
            &&& d.second + 60 * (d.minute + 60 * (d.hour + 24 * (d.day + 30 * (d.month + 12
                * d.year)))) == ticks + (offset % 24) * 3600
        }),
{
    let s = (ticks + (offset % 24) * 3600) as int;
    let m = s / 60;
    let h = m / 60;
    let dd = h / 24;
    let mo = dd / 30;
    vstd::arithmetic::div_mod::lemma_div_denominator(s, 60, 60);
    vstd::arithmetic::div_mod::lemma_div_denominator(s, 3600, 24);
    vstd::arithmetic::div_mod::lemma_div_denominator(s, 86400, 30);
    vstd::arithmetic::div_mod::lemma_div_denominator(s, 2592000, 12);
    vstd::arithmetic::div_mod::lemma_fundamental_div_mod(s, 60);
    vstd::arithmetic::div_mod::lemma_fundamental_div_mod(m, 60);
    vstd::arithmetic::div_mod::lemma_fundamental_div_mod(h, 24);
    vstd::arithmetic::div_mod::lemma_fundamental_div_mod(dd, 30);
    vstd::arithmetic::div_mod::lemma_fundamental_div_mod(mo, 12);
    vstd::arithmetic::div_mod::lemma_div_pos_is_pos(s, 60);
    vstd::arithmetic::div_mod::lemma_div_pos_is_pos(m, 60);
    vstd::arithmetic::div_mod::lemma_div_pos_is_pos(h, 24);
    vstd::arithmetic::div_mod::lemma_div_pos_is_pos(dd, 30);
    vstd::arithmetic::div_mod::lemma_div_pos_is_pos(mo, 12);
}

/// Offsets are taken modulo 24: shifting by a whole day more or less gives the same
/// date time.
pub proof fn lemma_offset_taken_modulo_day(ticks: nat, offset: nat)
    ensures
        datetime_at(ticks, offset) == datetime_at(ticks, offset % 24),
        datetime_at(ticks, offset + 24) == datetime_at(ticks, offset),
{
    vstd::arithmetic::div_mod::lemma_mod_twice(offset as int, 24);
    vstd::arithmetic::div_mod::lemma_mod_add_multiples_vanish(offset as int, 24);
}

/// The simulated clock, counted in seconds since the start.
#[derive(Clone, Debug, PartialEq, PartialOrd, Eq, Ord)]
pub struct SimTime {
    ticks: usize,
}

impl View for SimTime {
    type V = nat;

    /// The seconds elapsed since the start.
    closed spec fn view(&self) -> nat {
        self.ticks as nat
    }
}

impl SimTime {
    /// The clock at the start.
    pub fn new() -> (r: Self)
        ensures
            r@ == 0,
    {
        SimTime { ticks: 0 }
    }

    /// Advances the clock by one second.
    pub fn tick(&mut self)
        requires
            old(self)@ < usize::MAX,
        ensures
            final(self)@ == old(self)@ + 1,
    {
        self.ticks = self.ticks + 1;
    }

    /// Helper function to return the date time with no offset
    pub fn base_time(&self) -> (r: DateTime)
        ensures
            r@ == datetime_at(self@, 0),
    {
        self.datetime_from_offset(0)
    }

    /// Returns a date time object from the provided offset in hours
    /// Offsets are taken modulo 24 before calculations are done.
    pub fn datetime_from_offset(&self, offset: usize) -> (r: DateTime)
        requires
            self@ + (offset % 24) * 3600 <= usize::MAX,
        ensures
            r@ == datetime_at(self@, offset as nat),
    {
        let offset = offset % 24;
        let second = self.ticks + (offset * 60 * 60);
        let (second, minute) = (second % 60, second / 60);
        let (minute, hour) = (minute % 60, minute / 60);
        let (hour, day) = (hour % 24, hour / 24);
        let (day, month) = (day % 30, day / 30);
        let (month, year) = (month % 12, month / 12);
        proof {
            let s = self.ticks + offset * 3600;
            vstd::arithmetic::div_mod::lemma_div_denominator(s as int, 60, 60);
            vstd::arithmetic::div_mod::lemma_div_denominator(s as int, 3600, 24);
            vstd::arithmetic::div_mod::lemma_div_denominator(s as int, 86400, 30);
            vstd::arithmetic::div_mod::lemma_div_denominator(s as int, 2592000, 12);
        }
        DateTime { offset, year, month, day, hour, minute, second }
    }

    /// The seconds elapsed since the start.
    pub fn elapsed_secs(&self) -> (r: usize)
        ensures
            r == self@,
    {
        self.ticks
    }
}

impl Default for SimTime {
    fn default() -> (r: Self)
        ensures
            r@ == 0,
    {
        Self::new()
    }
}

/// A point of simulated calendar time in some time zone.
#[derive(Debug, Clone, Copy, PartialEq, PartialOrd, Eq, Ord)]
pub struct DateTime {
    offset: usize,
    year: usize,
    month: usize,
    day: usize,
    hour: usize,
    minute: usize,
    second: usize,
}

impl View for DateTime {
    type V = DateTimeView;

    closed spec fn view(&self) -> DateTimeView {
        DateTimeView {
            offset: self.offset,
            year: self.year,
            month: self.month,
            day: self.day,
            hour: self.hour,
            minute: self.minute,
            second: self.second,
        }
    }
}

impl DateTime {
    /// The time zone, in hours after base time.
    pub fn offset(&self) -> (r: usize)
        ensures
            r == self@.offset,
    {
        self.offset
    }

    /// Whole years since the start.
    pub fn year(&self) -> (r: usize)
        ensures
            r == self@.year,
    {
        self.year
    }

    /// The month within the year, from 0.
    pub fn month(&self) -> (r: usize)
        ensures
            r == self@.month,
    {
        self.month
    }

    /// The day within the month, from 0.
    pub fn day(&self) -> (r: usize)
        ensures
            r == self@.day,
    {
        self.day
    }

    /// The hour within the day, from 0.
    pub fn hour(&self) -> (r: usize)
        ensures
            r == self@.hour,
    {
        self.hour
    }

    /// The minute within the hour, from 0.
    pub fn minute(&self) -> (r: usize)
        ensures
            r == self@.minute,
    {
        self.minute
    }

    /// The second within the minute, from 0.
    pub fn second(&self) -> (r: usize)
        ensures
            r == self@.second,
    {
        self.second
    }
}

} // verus!
