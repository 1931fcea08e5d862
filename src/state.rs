use vstd::prelude::*;

verus! {

/// Length of one day in nanoseconds.
pub const DAY_NANOS: i128 = 86_400_000_000_000;

/// Largest number of whole days whose length in seconds fits an `i64`, the
/// widest span that a saved interval can hold.
pub const MAX_DAYS: i128 = 106_751_991_167_300;

/// The easiness factor, in hundredths, of a record that was never graded.
pub const INITIAL_EASINESS: i64 = 250;

/// The cap, in hundredths, that grading applies to the easiness factor.
pub const EASINESS_CAP: i64 = 130;

/// Change of the easiness factor, in hundredths, for one grade:
/// `0.1 - g * (0.08 + g * 0.02)` with `g = 5 - grade`, times one hundred.
pub open spec fn ease_delta(grade: u16) -> int {
    let g = 5 - grade as int;
    10 - g * (8 + 2 * g)
}

/// `x / 100`, rounded to the nearest integer, halves away from zero.
pub open spec fn round_hundredths(x: int) -> int {
    if x >= 0 {
        (x + 50) / 100
    } else {
        -((-x + 50) / 100)
    }
}

/// Number of whole days in a span of `nanos` nanoseconds, truncated toward zero.
pub open spec fn whole_days(nanos: int) -> int {
    if nanos >= 0 {
        nanos / (DAY_NANOS as int)
    } else {
        -((-nanos) / (DAY_NANOS as int))
    }
}

/// The smaller of `a` and `b`.
pub open spec fn min_int(a: int, b: int) -> int {
    if a <= b {
        a
    } else {
        b
    }
}

/// Scheduling state of one item.
///
/// Times are nanoseconds since the Unix epoch, spans are nanoseconds, and the
/// easiness factor is kept exactly, in hundredths.
#[derive(Clone, Copy, Debug, PartialEq, Eq, Structural)]
pub struct CardState {
    /// Anchor from which the interval is counted.
    pub last_reviewed: i128,
    /// Count of consecutive successful recalls.
    pub num_recalled: u32,
    /// Easiness factor in hundredths (250 stands for 2.5).
    pub easiness_factor: i64,
    /// Span after `last_reviewed` at which the item is due.
    pub interval: i128,
    /// Whether the item must be shown whatever its interval.
    pub failed: bool,
}

impl CardState {
    /// The record given to an item the first time it is seen.
    pub open spec fn initial(now: i128) -> CardState {
        CardState {
            last_reviewed: now,
            num_recalled: 0,
            easiness_factor: INITIAL_EASINESS,
            interval: 0,
            failed: true,
        }
    }

    /// Days of the interval that a successful recall produces.
    pub open spec fn success_days(self) -> int {
        if self.num_recalled == 0 {
            1
        } else if self.num_recalled == 1 {
            6
        } else {
            round_hundredths(whole_days(self.interval as int) * self.easiness_factor)
        }
    }

    /// Easiness factor after grading, in hundredths.
    pub open spec fn next_easiness(self, grade: u16) -> int {
        min_int(self.easiness_factor + ease_delta(grade), EASINESS_CAP as int)
    }

    /// What grading the record with `grade` makes of it.
    pub open spec fn graded(self, grade: u16) -> CardState {
        if grade >= 3 {
            CardState {
                last_reviewed: self.last_reviewed,
                num_recalled: (self.num_recalled + 1) as u32,
                easiness_factor: self.next_easiness(grade) as i64,
                interval: (self.success_days() * DAY_NANOS) as i128,
                failed: false,
            }
        } else {
            CardState {
                last_reviewed: self.last_reviewed,
                num_recalled: 0,
                easiness_factor: self.next_easiness(grade) as i64,
                interval: DAY_NANOS,
                failed: true,
            }
        }
    }

    /// Grading with `grade` keeps every field within its machine type.
    pub open spec fn can_grade(self, grade: u16) -> bool {
        &&& self.next_easiness(grade) >= i64::MIN
        &&& grade >= 3 ==> self.num_recalled < u32::MAX
        &&& grade >= 3 ==> -MAX_DAYS <= self.success_days() <= MAX_DAYS
    }

    /// The item is due at `now`.
    pub open spec fn due(self, now: i128) -> bool {
        self.failed || self.last_reviewed + self.interval <= now
    }

    /// A fresh record, anchored at `now`.
    pub fn new(now: i128) -> (r: CardState)
        ensures
            r == CardState::initial(now),
    {
        CardState {
            last_reviewed: now,
            num_recalled: 0,
            easiness_factor: INITIAL_EASINESS,
            interval: 0,
            failed: true,
        }
    }

    /// Tells whether `update(grade)` may be applied to this record.
    pub fn can_update(&self, grade: u16) -> (r: bool)
        ensures
            r == self.can_grade(grade),
    {
        let ease = self.next_ease(grade);
        if ease < i64::MIN as i128 {
            return false;
        }
        if grade >= 3 {
            if self.num_recalled == u32::MAX {
                return false;
            }
            if self.num_recalled >= 2 {
                match self.scaled_days() {
                    Some(days) => {
                        return -MAX_DAYS <= days && days <= MAX_DAYS;
                    },
                    None => {
                        return false;
                    },
                }
            }
        }
        true
    }

    /// Grades the record: `grade` 3 or more is a successful recall.
    pub fn update(&mut self, grade: u16)
        requires
            old(self).can_grade(grade),
        ensures
            *final(self) == old(self).graded(grade),
    {
        let ease = self.next_ease(grade);
        if grade >= 3 {
            let days: i128 = if self.num_recalled == 0 {
                1
            } else if self.num_recalled == 1 {
                6
            } else {
                match self.scaled_days() {
                    Some(d) => d,
                    None => 0,
                }
            };
            self.interval = days * DAY_NANOS;
            self.num_recalled = self.num_recalled + 1;
            self.failed = false;
        } else {
            self.num_recalled = 0;
            self.interval = DAY_NANOS;
            self.failed = true;
        }
        self.easiness_factor = ease as i64;
    }

    /// Tells whether the item is due at `now`.
    pub fn needs_review(&self, now: i128) -> (r: bool)
        ensures
            r == self.due(now),
    {
        if self.failed {
            return true;
        }
        match self.last_reviewed.checked_add(self.interval) {
            Some(at) => at <= now,
            None => self.interval < 0,
        }
    }

    fn next_ease(&self, grade: u16) -> (r: i128)
        ensures
            r == self.next_easiness(grade),
    {
        let g: i64 = 5 - grade as i64;
        assert(-10 <= g * (8 + 2 * g) <= 9_000_000_000) by (nonlinear_arith)
            requires
                -65530 <= g <= 5,
        ;
        let delta: i64 = 10 - g * (8 + 2 * g);
        let sum: i128 = self.easiness_factor as i128 + delta as i128;
        if sum <= EASINESS_CAP as i128 {
            sum
        } else {
            EASINESS_CAP as i128
        }
    }

    /// Whole days of the current interval, truncated toward zero.
    fn interval_days(&self) -> (r: i128)
        ensures
            r == whole_days(self.interval as int),
    {
        if self.interval >= 0 {
            self.interval / DAY_NANOS
        } else {
            // Negating `interval + 1` cannot overflow; the nanosecond taken
            // off is added back where it completes a day.
            let rest: i128 = -(self.interval + 1);
            let q: i128 = rest / DAY_NANOS;
            let m: i128 = rest % DAY_NANOS;
            proof {
                let n = -(self.interval as int);
                let d = DAY_NANOS as int;
                assert(rest as int == q * d + m && 0 <= q <= rest) by (nonlinear_arith)
                    requires
                        rest >= 0,
                        d > 0,
                        q as int == (rest as int) / d,
                        m as int == (rest as int) % d,
                ;
                if m == DAY_NANOS - 1 {
                    assert(n / d == q + 1) by (nonlinear_arith)
                        requires
                            n == rest + 1,
                            rest == q * d + m,
                            m == d - 1,
                            d > 0,
                    ;
                } else {
                    assert(n / d == q) by (nonlinear_arith)
                        requires
                            n == q * d + m + 1,
                            0 <= m < d - 1,
                    ;
                }
            }
            if m == DAY_NANOS - 1 {
                -(q + 1)
            } else {
                -q
            }
        }
    }

    /// Days of the interval after a third or later successful recall, or
    /// `None` where they lie beyond `MAX_DAYS` either way.
    fn scaled_days(&self) -> (r: Option<i128>)
        requires
            self.num_recalled >= 2,
        ensures
            r matches Some(v) ==> v == self.success_days(),
            r is None ==> !(-MAX_DAYS <= self.success_days() <= MAX_DAYS),
    {
        let days = self.interval_days();
        let bound: i128 = 100 * MAX_DAYS + 100;
        match days.checked_mul(self.easiness_factor as i128) {
            Some(x) => {
                if x > bound || x < -bound {
                    return None;
                }
                if x >= 0 {
                    Some((x + 50) / 100)
                } else {
                    Some(-((-x + 50) / 100))
                }
            },
            None => None,
        }
    }
}

/// Starting from no successful recall, three successful gradings in a row
/// set the interval to one day, then six days, then six days times the
/// easiness factor reached after the second grading, rounded.
pub proof fn lemma_success_progression(s: CardState, g1: u16, g2: u16, g3: u16)
    requires
        s.num_recalled == 0,
        3 <= g1 <= 5,
        3 <= g2 <= 5,
        3 <= g3 <= 5,
        s.can_grade(g1),
        s.graded(g1).can_grade(g2),
        s.graded(g1).graded(g2).can_grade(g3),
    ensures
        s.graded(g1).interval == DAY_NANOS,
        s.graded(g1).graded(g2).interval == 6 * DAY_NANOS,
        s.graded(g1).graded(g2).graded(g3).interval as int == round_hundredths(
            6 * s.graded(g1).graded(g2).easiness_factor,
        ) * DAY_NANOS,
        s.graded(g1).graded(g2).graded(g3).num_recalled == 3,
        !s.graded(g1).graded(g2).graded(g3).failed,
{
    let s2 = s.graded(g1).graded(g2);
    assert(whole_days(s2.interval as int) == 6);
}

/// A grading below 3 resets the streak, sets the interval to one day and
/// marks the record failed, whatever the record was.
pub proof fn lemma_failure_resets(s: CardState, grade: u16)
    requires
        grade < 3,
    ensures
        s.graded(grade).num_recalled == 0,
        s.graded(grade).interval == DAY_NANOS,
        s.graded(grade).failed,
        s.graded(grade).last_reviewed == s.last_reviewed,
{
}

/// Grading moves the easiness factor by `0.1 - g * (0.08 + g * 0.02)`, with
/// `g = 5 - grade`, and caps it at 1.3; in hundredths, for every grade
/// within 0 to 5 and every factor before.
pub proof fn lemma_easiness_step(s: CardState, grade: u16)
    requires
        grade <= 5,
        s.can_grade(grade),
    ensures
        s.graded(grade).easiness_factor == min_int(
            s.easiness_factor + 10 - (5 - grade) * (8 + (5 - grade) * 2),
            130,
        ),
{
}

} // verus!
