//! The recurrence-rule mini-language and the slot sequence it denotes.
//!
//! Grammar (one line, no whitespace): `INTERVAL FREQ [WEEKDAYS]` where
//! `INTERVAL` is a positive decimal integer with no leading zero, `FREQ` is
//! one of `m`, `w`, `d`, and `WEEKDAYS` is a concatenation of any subset of
//! `Su M Tu W Th F Sa`, in that fixed order.  The weekday tags only matter
//! for `w`.  Malformed input falls back to weekly-from-start.
//!
//! A rule denotes an infinite non-decreasing sequence of slots, strictly
//! increasing until the arithmetic saturates at `i64::MAX`.

use vstd::prelude::*;

use crate::time::{
    days_until_weekday, month_shift, sat_add, saturating_add, shift_by_months,
    spec_days_until_weekday, ts_in_range, weekday, SECS_PER_DAY, SECS_PER_WEEK,
};
use vstd::string::StringSliceAdditionalSpecFns;

verus! {

/// A subset of the seven weekdays, indexed from Sunday.
#[derive(PartialEq, Eq, Structural, Clone, Copy, Debug)]
pub struct WeekdaySet {
    pub su: bool,
    pub mo: bool,
    pub tu: bool,
    pub we: bool,
    pub th: bool,
    pub fr: bool,
    pub sa: bool,
}

impl WeekdaySet {
    pub open spec fn has(self, d: int) -> bool {
        if d == 0 {
            self.su
        } else if d == 1 {
            self.mo
        } else if d == 2 {
            self.tu
        } else if d == 3 {
            self.we
        } else if d == 4 {
            self.th
        } else if d == 5 {
            self.fr
        } else {
            self.sa
        }
    }

    pub open spec fn is_empty_set(self) -> bool {
        !self.su && !self.mo && !self.tu && !self.we && !self.th && !self.fr && !self.sa
    }

    pub fn none() -> (r: WeekdaySet)
        ensures
            r.is_empty_set(),
    {
        WeekdaySet { su: false, mo: false, tu: false, we: false, th: false, fr: false, sa: false }
    }

    pub fn has_day(&self, d: u8) -> (r: bool)
        requires
            d < 7,
        ensures
            r == self.has(d as int),
    {
        match d {
            0 => self.su,
            1 => self.mo,
            2 => self.tu,
            3 => self.we,
            4 => self.th,
            5 => self.fr,
            _ => self.sa,
        }
    }

    pub fn any(&self) -> (r: bool)
        ensures
            r == !self.is_empty_set(),
    {
        self.su || self.mo || self.tu || self.we || self.th || self.fr || self.sa
    }
}

/// A recurrence rule anchored at its replay start instant.
#[derive(PartialEq, Eq, Structural, Clone, Copy, Debug)]
pub enum Rule {
    Monthly { start: i64, interval: u64 },
    Weekly { start: i64, interval: u64, days: WeekdaySet },
    Daily { start: i64, interval: u64 },
}

pub open spec fn rule_start(rule: Rule) -> int {
    match rule {
        Rule::Monthly { start, .. } => start as int,
        Rule::Weekly { start, .. } => start as int,
        Rule::Daily { start, .. } => start as int,
    }
}

pub open spec fn rule_wf(rule: Rule) -> bool {
    ts_in_range(rule_start(rule)) && match rule {
        Rule::Monthly { interval, .. } => interval >= 1,
        Rule::Weekly { interval, .. } => interval >= 1,
        Rule::Daily { interval, .. } => interval >= 1,
    }
}

// ------------------------------------------------------------------
// The grammar.
// ------------------------------------------------------------------

pub open spec fn is_ascii_digit(b: u8) -> bool {
    48 <= b <= 57
}

/// Length of the longest all-digit prefix of `s`.
pub open spec fn digit_prefix_len(s: Seq<u8>) -> nat
    decreases s.len(),
{
    if s.len() > 0 && is_ascii_digit(s[0]) {
        1 + digit_prefix_len(s.skip(1))
    } else {
        0
    }
}

/// Value of an all-digit sequence read as a decimal number.
pub open spec fn digits_value(s: Seq<u8>) -> int
    decreases s.len(),
{
    if s.len() == 0 {
        0
    } else {
        digits_value(s.take(s.len() - 1)) * 10 + (s[s.len() - 1] - 48)
    }
}

pub open spec fn has_tag1(s: Seq<u8>, t0: u8) -> bool {
    s.len() >= 1 && s[0] == t0
}

pub open spec fn has_tag2(s: Seq<u8>, t0: u8, t1: u8) -> bool {
    s.len() >= 2 && s[0] == t0 && s[1] == t1
}

/// The weekday-tag tail of the grammar: each tag optional, in the fixed
/// order `Su M Tu W Th F Sa`, and nothing may follow.
pub open spec fn spec_parse_days(s: Seq<u8>) -> Option<WeekdaySet> {
    let su = has_tag2(s, 83, 117);
    let s = if su {
        s.skip(2)
    } else {
        s
    };
    let mo = has_tag1(s, 77);
    let s = if mo {
        s.skip(1)
    } else {
        s
    };
    let tu = has_tag2(s, 84, 117);
    let s = if tu {
        s.skip(2)
    } else {
        s
    };
    let we = has_tag1(s, 87);
    let s = if we {
        s.skip(1)
    } else {
        s
    };
    let th = has_tag2(s, 84, 104);
    let s = if th {
        s.skip(2)
    } else {
        s
    };
    let fr = has_tag1(s, 70);
    let s = if fr {
        s.skip(1)
    } else {
        s
    };
    let sa = has_tag2(s, 83, 97);
    let s = if sa {
        s.skip(2)
    } else {
        s
    };
    if s.len() == 0 {
        Some(WeekdaySet { su, mo, tu, we, th, fr, sa })
    } else {
        None
    }
}

/// The whole grammar, applied to the rule text's UTF-8 bytes.  Anything that
/// does not match falls back to weekly-from-start with an empty weekday set.
pub open spec fn spec_parse_rule(start: i64, s: Seq<u8>) -> Rule {
    let fallback = Rule::Weekly {
        start,
        interval: 1,
        days: WeekdaySet {
            su: false,
            mo: false,
            tu: false,
            we: false,
            th: false,
            fr: false,
            sa: false,
        },
    };
    let n = digit_prefix_len(s);
    if n == 0 || s[0] == 48 || n >= s.len() || digits_value(s.take(n as int)) > u64::MAX {
        fallback
    } else {
        let interval = digits_value(s.take(n as int)) as u64;
        let freq = s[n as int];
        match spec_parse_days(s.skip(n as int + 1)) {
            Some(days) => if freq == 109 {  // 'm'
                Rule::Monthly { start, interval }
            } else if freq == 100 {  // 'd'
                Rule::Daily { start, interval }
            } else if freq == 119 {  // 'w'
                Rule::Weekly { start, interval, days }
            } else {
                fallback
            },
            None => fallback,
        }
    }
}

proof fn lemma_digit_prefix_len(s: Seq<u8>, i: int)
    requires
        0 <= i <= s.len(),
        forall|j: int| 0 <= j < i ==> is_ascii_digit(#[trigger] s[j]),
        i == s.len() || !is_ascii_digit(s[i]),
    ensures
        digit_prefix_len(s) == i,
    decreases s.len(),
{
    if i == 0 {
    } else {
        lemma_digit_prefix_len(s.skip(1), i - 1);
    }
}

proof fn lemma_digits_value_step(s: Seq<u8>, i: int)
    requires
        0 <= i < s.len(),
    ensures
        digits_value(s.take(i + 1)) == digits_value(s.take(i)) * 10 + (s[i] - 48),
{
    assert(s.take(i + 1).take(i) =~= s.take(i));
    assert(s.take(i + 1)[i] == s[i]);
}

proof fn lemma_digits_value_pos(s: Seq<u8>)
    requires
        s.len() >= 1,
        s[0] > 48,
        forall|j: int| 0 <= j < s.len() ==> is_ascii_digit(#[trigger] s[j]),
    ensures
        digits_value(s) >= 1,
    decreases s.len(),
{
    if s.len() == 1 {
        assert(s.take(0).len() == 0);
        assert(digits_value(s.take(0)) == 0);
    } else {
        let t = s.take(s.len() - 1);
        assert(forall|j: int| 0 <= j < t.len() ==> is_ascii_digit(#[trigger] t[j]));
        lemma_digits_value_pos(t);
        assert(is_ascii_digit(s[s.len() - 1]));
        assert(digits_value(s) == digits_value(t) * 10 + (s[s.len() - 1] - 48));
        assert(digits_value(t) * 10 >= 10) by (nonlinear_arith)
            requires
                digits_value(t) >= 1,
        ;
    }
}

/// Consumes a one-byte weekday tag at `*j` when it is present.
fn try_tag1(s: &[u8], j: &mut usize, t0: u8) -> (r: bool)
    requires
        *old(j) <= s@.len(),
    ensures
        r == has_tag1(s@.skip(*old(j) as int), t0),
        *final(j) == if r {
            *old(j) + 1
        } else {
            *old(j) as int
        },
        *final(j) <= s@.len(),
        s@.skip(*final(j) as int) == if r {
            s@.skip(*old(j) as int).skip(1)
        } else {
            s@.skip(*old(j) as int)
        },
{
    let n = s.len();
    let r = *j < n && s[*j] == t0;
    if r {
        *j = *j + 1;
    }
    proof {
        if r {
            assert(s@.skip(*j as int) =~= s@.skip(*j - 1).skip(1));
        }
    }
    r
}

/// Consumes a two-byte weekday tag at `*j` when it is present.
fn try_tag2(s: &[u8], j: &mut usize, t0: u8, t1: u8) -> (r: bool)
    requires
        *old(j) <= s@.len(),
    ensures
        r == has_tag2(s@.skip(*old(j) as int), t0, t1),
        *final(j) == if r {
            *old(j) + 2
        } else {
            *old(j) as int
        },
        *final(j) <= s@.len(),
        s@.skip(*final(j) as int) == if r {
            s@.skip(*old(j) as int).skip(2)
        } else {
            s@.skip(*old(j) as int)
        },
{
    let n = s.len();
    let r = n - *j >= 2 && s[*j] == t0 && s[*j + 1] == t1;
    if r {
        *j = *j + 2;
    }
    proof {
        if r {
            assert(s@.skip(*j as int) =~= s@.skip(*j - 2).skip(2));
        }
    }
    r
}

/// Parses the weekday-tag tail beginning at byte `from` of `s`.
fn parse_days(s: &[u8], from: usize) -> (r: Option<WeekdaySet>)
    requires
        from <= s@.len(),
    ensures
        r == spec_parse_days(s@.skip(from as int)),
{
    let mut j = from;
    let su = try_tag2(s, &mut j, 83, 117);
    let mo = try_tag1(s, &mut j, 77);
    let tu = try_tag2(s, &mut j, 84, 117);
    let we = try_tag1(s, &mut j, 87);
    let th = try_tag2(s, &mut j, 84, 104);
    let fr = try_tag1(s, &mut j, 70);
    let sa = try_tag2(s, &mut j, 83, 97);
    if j == s.len() {
        Some(WeekdaySet { su, mo, tu, we, th, fr, sa })
    } else {
        None
    }
}

/// Parses the rule text; anything that does not match the grammar yields
/// weekly-from-start with interval 1 and no weekday set.
pub fn parse_rule(start: i64, rule_str: &str) -> (r: Rule)
    requires
        ts_in_range(start as int),
    ensures
        r == spec_parse_rule(start, rule_str.spec_bytes()),
        rule_wf(r),
{
    let s: &[u8] = rule_str.as_bytes();
    let n = s.len();
    let fallback = Rule::Weekly { start, interval: 1, days: WeekdaySet::none() };

    // Longest digit prefix, with its decimal value (watching for overflow).
    let mut i: usize = 0;
    let mut acc: u64 = 0;
    let mut over: bool = false;
    while i < n && s[i] >= 48 && s[i] <= 57
        invariant
            0 <= i <= n,
            n == s@.len(),
            forall|j: int| 0 <= j < i ==> is_ascii_digit(#[trigger] s@[j]),
            !over ==> acc == digits_value(s@.take(i as int)),
            over ==> digits_value(s@.take(i as int)) > u64::MAX,
        decreases n - i,
    {
        let d: u64 = (s[i] - 48) as u64;
        proof {
            lemma_digits_value_step(s@, i as int);
        }
        if over || acc > (u64::MAX - d) / 10 {
            proof {
                if !over {
                    assert(acc * 10 + d > u64::MAX) by (nonlinear_arith)
                        requires
                            acc > (u64::MAX - d) / 10,
                            d <= 9,
                            acc <= u64::MAX,
                    ;
                }
            }
            over = true;
        } else {
            proof {
                assert(acc * 10 + d <= u64::MAX) by (nonlinear_arith)
                    requires
                        acc <= (u64::MAX - d) / 10,
                        d <= 9,
                ;
            }
            acc = acc * 10 + d;
        }
        i = i + 1;
    }
    proof {
        lemma_digit_prefix_len(s@, i as int);
    }

    if i == 0 || s[0] == 48 || i >= n || over {
        return fallback;
    }
    proof {
        lemma_digits_value_pos(s@.take(i as int));
    }
    let interval: u64 = acc;
    let freq = s[i];
    match parse_days(s, i + 1) {
        Some(days) => {
            if freq == 109 {
                Rule::Monthly { start, interval }
            } else if freq == 100 {
                Rule::Daily { start, interval }
            } else if freq == 119 {
                Rule::Weekly { start, interval, days }
            } else {
                fallback
            }
        },
        None => fallback,
    }
}


// ------------------------------------------------------------------
// The slot sequence.
// ------------------------------------------------------------------

/// Intervals are capped before the step arithmetic so that a single step
/// always fits in an `i64`; the slot sequence saturates at `i64::MAX` long
/// before the cap matters.
pub open spec fn capped_interval(interval: int) -> int {
    if interval > 1_000_000_000 {
        1_000_000_000
    } else {
        interval
    }
}

/// Smallest element of `s`; `i64::MAX` for the empty sequence.
pub open spec fn seq_min(s: Seq<int>) -> int
    decreases s.len(),
{
    if s.len() == 0 {
        i64::MAX as int
    } else {
        let m = seq_min(s.skip(1));
        if s[0] <= m {
            s[0]
        } else {
            m
        }
    }
}

proof fn lemma_seq_min_le(s: Seq<int>, i: int)
    requires
        0 <= i < s.len(),
    ensures
        seq_min(s) <= s[i],
    decreases s.len(),
{
    if i > 0 {
        lemma_seq_min_le(s.skip(1), i - 1);
    }
}

proof fn lemma_seq_min_attained(s: Seq<int>)
    requires
        s.len() > 0,
        forall|i: int| 0 <= i < s.len() ==> #[trigger] s[i] <= i64::MAX,
    ensures
        exists|i: int| 0 <= i < s.len() && s[i] == seq_min(s),
    decreases s.len(),
{
    if s.len() == 1 {
        assert(s.skip(1).len() == 0);
        assert(seq_min(s.skip(1)) == i64::MAX as int);
        assert(s[0] == seq_min(s));
    } else if s[0] <= seq_min(s.skip(1)) {
        assert(s[0] == seq_min(s));
    } else {
        assert(forall|i: int| 0 <= i < s.skip(1).len() ==> #[trigger] s.skip(1)[i] <= i64::MAX);
        lemma_seq_min_attained(s.skip(1));
        let j = choose|j: int| 0 <= j < s.skip(1).len() && s.skip(1)[j] == seq_min(s.skip(1));
        assert(s[j + 1] == seq_min(s));
    }
}

/// One stream per weekday in the set: the first instant at or after `start`
/// that falls on that weekday.  Unused weekdays are pinned at `i64::MAX` so
/// they never win the merge.
pub open spec fn init_streams(start: int, days: WeekdaySet) -> Seq<int> {
    Seq::new(
        7,
        |d: int|
            if days.has(d) {
                start + spec_days_until_weekday(start, d) * (SECS_PER_DAY as int)
            } else {
                i64::MAX as int
            },
    )
}

/// Merging step: every stream sitting at the minimum moves one interval
/// forward.
pub open spec fn advance_streams(s: Seq<int>, step: int) -> Seq<int> {
    Seq::new(
        s.len(),
        |i: int|
            if s[i] == seq_min(s) {
                sat_add(s[i], step)
            } else {
                s[i]
            },
    )
}

pub open spec fn streams_at(start: int, days: WeekdaySet, step: int, k: nat) -> Seq<int>
    decreases k,
{
    if k == 0 {
        init_streams(start, days)
    } else {
        advance_streams(streams_at(start, days, step, (k - 1) as nat), step)
    }
}

/// The `k`-th slot (counted from 0) that `rule` produces.
///
/// Daily and weekly rules step by a fixed number of seconds; a weekly rule
/// with a weekday set merges one weekly stream per chosen weekday in
/// ascending order; a monthly rule shifts `start` by `k * interval` calendar
/// months (never moving backwards, and saturating once the month count
/// leaves the supported range).
pub open spec fn slot_at(rule: Rule, k: nat) -> int
    decreases k,
{
    match rule {
        Rule::Daily { start, interval } => if k == 0 {
            start as int
        } else {
            sat_add(
                slot_at(rule, (k - 1) as nat),
                capped_interval(interval as int) * (SECS_PER_DAY as int),
            )
        },
        Rule::Weekly { start, interval, days } => if days.is_empty_set() {
            if k == 0 {
                start as int
            } else {
                sat_add(
                    slot_at(rule, (k - 1) as nat),
                    capped_interval(interval as int) * (SECS_PER_WEEK as int),
                )
            }
        } else {
            seq_min(
                streams_at(
                    start as int,
                    days,
                    capped_interval(interval as int) * (SECS_PER_WEEK as int),
                    k,
                ),
            )
        },
        Rule::Monthly { start, interval } => if k == 0 {
            start as int
        } else {
            let prev = slot_at(rule, (k - 1) as nat);
            let m = k * interval;
            if m <= 1_200_000 {
                let shifted = sat_add(month_shift(start as int, m), 0);
                let bumped = sat_add(prev, 1);
                if shifted > bumped {
                    shifted
                } else {
                    bumped
                }
            } else {
                i64::MAX as int
            }
        },
    }
}

proof fn lemma_streams_bounds(start: int, days: WeekdaySet, step: int, k: nat)
    requires
        ts_in_range(start),
        step >= 1,
    ensures
        streams_at(start, days, step, k).len() == 7,
        forall|i: int|
            0 <= i < 7 ==> crate::time::MIN_TS <= #[trigger] streams_at(start, days, step, k)[i]
                <= i64::MAX,
    decreases k,
{
    if k > 0 {
        lemma_streams_bounds(start, days, step, (k - 1) as nat);
    }
}

proof fn lemma_advance_min(s: Seq<int>, step: int)
    requires
        s.len() > 0,
        step >= 1,
        forall|i: int| 0 <= i < s.len() ==> #[trigger] s[i] <= i64::MAX,
    ensures
        seq_min(advance_streams(s, step)) >= seq_min(s),
        seq_min(s) < i64::MAX ==> seq_min(advance_streams(s, step)) > seq_min(s),
{
    let a = advance_streams(s, step);
    let m = seq_min(s);
    lemma_seq_min_attained(a);
    let j = choose|j: int| 0 <= j < a.len() && a[j] == seq_min(a);
    lemma_seq_min_le(s, j);
    if s[j] == m {
        assert(a[j] == sat_add(m, step));
    } else {
        assert(s[j] > m);
    }
}

/// Bounds on every slot: never below the calendar floor, saturating at
/// `i64::MAX`.
pub proof fn lemma_slot_at_bounds(rule: Rule, k: nat)
    requires
        rule_wf(rule),
    ensures
        crate::time::MIN_TS <= slot_at(rule, k) <= i64::MAX,
    decreases k,
{
    if k > 0 {
        lemma_slot_at_bounds(rule, (k - 1) as nat);
    }
    match rule {
        Rule::Weekly { start, interval, days } => {
            if !days.is_empty_set() {
                let step = capped_interval(interval as int) * (SECS_PER_WEEK as int);
                lemma_streams_bounds(start as int, days, step, k);
                let s = streams_at(start as int, days, step, k);
                lemma_seq_min_attained(s);
                let j = choose|j: int| 0 <= j < s.len() && s[j] == seq_min(s);
                assert(crate::time::MIN_TS <= s[j] <= i64::MAX);
            }
        },
        _ => {},
    }
}

/// The slot sequence never moves backwards, and moves strictly forward
/// until it saturates at `i64::MAX`.
pub proof fn lemma_slot_at_increasing(rule: Rule, k: nat)
    requires
        rule_wf(rule),
    ensures
        slot_at(rule, k + 1) >= slot_at(rule, k),
        slot_at(rule, k) < i64::MAX ==> slot_at(rule, k + 1) > slot_at(rule, k),
{
    lemma_slot_at_bounds(rule, k);
    match rule {
        Rule::Daily { start, interval } => {},
        Rule::Weekly { start, interval, days } => {
            if !days.is_empty_set() {
                let step = capped_interval(interval as int) * (SECS_PER_WEEK as int);
                lemma_streams_bounds(start as int, days, step, k);
                let s = streams_at(start as int, days, step, k);
                lemma_advance_min(s, step);
                assert(streams_at(start as int, days, step, k + 1) == advance_streams(s, step));
            }
        },
        Rule::Monthly { start, interval } => {
            assert((k + 1) * interval == k * interval + interval) by (nonlinear_arith);
        },
    }
}

// ------------------------------------------------------------------
// The iterator.
// ------------------------------------------------------------------

/// Pull-based producer of the slot sequence of one rule.
pub struct RuleIter {
    rule: Rule,
    k: Ghost<nat>,
    /// Daily and weekly-without-weekday-set rules: the next slot.
    fixed_next: i64,
    /// Monthly rules: `k * interval`, held just above 1,200,000 once it
    /// passes that bound.
    months_cur: u64,
    /// Monthly rules: the slot most recently produced.
    prev: i64,
    /// Weekly rules with a weekday set: the merged streams.
    nexts: Vec<i64>,
}

impl RuleIter {
    pub closed spec fn rule_v(self) -> Rule {
        self.rule
    }

    pub closed spec fn count(self) -> nat {
        self.k@
    }

    pub closed spec fn wf(self) -> bool {
        rule_wf(self.rule) && match self.rule {
            Rule::Daily { .. } => self.fixed_next == slot_at(self.rule, self.k@),
            Rule::Weekly { start, interval, days } => if days.is_empty_set() {
                self.fixed_next == slot_at(self.rule, self.k@)
            } else {
                self.nexts@.len() == 7 && forall|i: int|
                    0 <= i < 7 ==> #[trigger] self.nexts@[i] == streams_at(
                        start as int,
                        days,
                        capped_interval(interval as int) * (SECS_PER_WEEK as int),
                        self.k@,
                    )[i]
            },
            Rule::Monthly { start, interval } => {
                &&& self.months_cur == if self.k@ * interval <= 1_200_000 {
                    self.k@ * interval
                } else {
                    1_300_000
                }
                &&& (self.k@ >= 1 ==> self.prev == slot_at(self.rule, (self.k@ - 1) as nat))
                &&& (self.k@ >= 2 && (self.k@ - 1) * interval <= 1_200_000 ==> slot_at(
                    self.rule,
                    (self.k@ - 1) as nat,
                ) == month_shift(start as int, (self.k@ - 1) * interval))
            },
        }
    }

    pub fn new(rule: &Rule) -> (it: RuleIter)
        requires
            rule_wf(*rule),
        ensures
            it.wf(),
            it.rule_v() == *rule,
            it.count() == 0,
    {
        match *rule {
            Rule::Daily { start, .. } => RuleIter {
                rule: *rule,
                k: Ghost(0),
                fixed_next: start,
                months_cur: 0,
                prev: start,
                nexts: Vec::new(),
            },
            Rule::Monthly { start, .. } => RuleIter {
                rule: *rule,
                k: Ghost(0),
                fixed_next: start,
                months_cur: 0,
                prev: start,
                nexts: Vec::new(),
            },
            Rule::Weekly { start, interval, days } => {
                if days.any() {
                    let mut nexts: Vec<i64> = Vec::new();
                    let mut d: u8 = 0;
                    while d < 7
                        invariant
                            d <= 7,
                            nexts@.len() == d as int,
                            ts_in_range(start as int),
                            forall|i: int|
                                0 <= i < d as int ==> #[trigger] nexts@[i] == init_streams(
                                    start as int,
                                    days,
                                )[i],
                        decreases 7 - d,
                    {
                        if days.has_day(d) {
                            let offset = days_until_weekday(start, d);
                            nexts.push(start + (offset as i64) * SECS_PER_DAY);
                        } else {
                            nexts.push(i64::MAX);
                        }
                        d = d + 1;
                    }
                    RuleIter {
                        rule: *rule,
                        k: Ghost(0),
                        fixed_next: start,
                        months_cur: 0,
                        prev: start,
                        nexts,
                    }
                } else {
                    RuleIter {
                        rule: *rule,
                        k: Ghost(0),
                        fixed_next: start,
                        months_cur: 0,
                        prev: start,
                        nexts: Vec::new(),
                    }
                }
            },
        }
    }

    /// Produces the next slot.
    #[verifier::rlimit(60)]
    pub fn next(&mut self) -> (slot: i64)
        requires
            old(self).wf(),
        ensures
            final(self).wf(),
            final(self).rule_v() == old(self).rule_v(),
            final(self).count() == old(self).count() + 1,
            slot == slot_at(old(self).rule_v(), old(self).count()),
            match old(self).rule_v() {
                Rule::Monthly { start, interval } => old(self).count() >= 1 && old(self).count()
                    * interval <= 1_200_000 ==> slot == month_shift(
                    start as int,
                    old(self).count() * interval,
                ),
                _ => true,
            },
    {
        let ghost k = self.k@;
        let r = self.rule;
        match r {
            Rule::Daily { start, interval } => {
                let slot = self.fixed_next;
                let iv: u64 = if interval > 1_000_000_000 {
                    1_000_000_000
                } else {
                    interval
                };
                self.fixed_next = saturating_add(slot, (iv as i64) * SECS_PER_DAY);
                self.k = Ghost(k + 1);
                proof {
                    assert(self.fixed_next == slot_at(self.rule, self.k@));
                }
                slot
            },
            Rule::Weekly { start, interval, days } => {
                let iv: u64 = if interval > 1_000_000_000 {
                    1_000_000_000
                } else {
                    interval
                };
                let step: i64 = (iv as i64) * SECS_PER_WEEK;
                if days.any() {
                    let ghost streams = streams_at(start as int, days, step as int, k);
                    proof {
                        lemma_streams_bounds(start as int, days, step as int, k);
                        assert(streams.skip(7).len() == 0);
                    }
                    // The merged minimum is the slot.
                    let mut m: i64 = i64::MAX;
                    let mut i: usize = 7;
                    while i > 0
                        invariant
                            0 <= i <= 7,
                            self.nexts@.len() == 7,
                            streams.len() == 7,
                            step == capped_interval(interval as int) * (SECS_PER_WEEK as int),
                            forall|j: int|
                                0 <= j < 7 ==> #[trigger] self.nexts@[j] == streams[j],
                            m as int == seq_min(streams.skip(i as int)),
                        decreases i,
                    {
                        i = i - 1;
                        proof {
                            assert(streams.skip(i as int).skip(1) =~= streams.skip(i as int + 1));
                        }
                        if self.nexts[i] < m {
                            m = self.nexts[i];
                        }
                    }
                    proof {
                        assert(streams.skip(0) =~= streams);
                    }
                    let slot = m;
                    // Advance every stream that sat at the minimum.
                    let ghost old_nexts = self.nexts@;
                    let mut i: usize = 0;
                    while i < 7
                        invariant
                            0 <= i <= 7,
                            self.rule == old(self).rule,
                            self.k@ == old(self).k@,
                            self.rule == (Rule::Weekly { start, interval, days }),
                            self.nexts@.len() == 7,
                            streams.len() == 7,
                            streams == streams_at(
                                start as int,
                                days,
                                capped_interval(interval as int) * (SECS_PER_WEEK as int),
                                self.k@,
                            ),
                            step >= 0,
                            step == capped_interval(interval as int) * (SECS_PER_WEEK as int),
                            slot as int == seq_min(streams),
                            forall|j: int| i as int <= j < 7 ==> #[trigger] self.nexts@[j] == streams[j],
                            forall|j: int|
                                0 <= j < i as int ==> #[trigger] self.nexts@[j] == advance_streams(
                                    streams,
                                    step as int,
                                )[j],
                        decreases 7 - i,
                    {
                        if self.nexts[i] == slot {
                            let v = saturating_add(slot, step);
                            self.nexts.set(i, v);
                        }
                        i = i + 1;
                    }
                    self.k = Ghost(k + 1);
                    proof {
                        assert(streams_at(start as int, days, step as int, k + 1)
                            == advance_streams(streams, step as int));
                    }
                    slot
                } else {
                    let slot = self.fixed_next;
                    self.fixed_next = saturating_add(slot, step);
                    self.k = Ghost(k + 1);
                    proof {
                        assert(days.is_empty_set());
                    }
                    slot
                }
            },
            Rule::Monthly { start, interval } => {
                let slot: i64;
                if self.months_cur == 0 {
                    proof {
                        assert(k * interval == 0 ==> k == 0) by (nonlinear_arith)
                            requires
                                interval >= 1,
                        ;
                    }
                    slot = start;
                } else if self.months_cur <= 1_200_000 {
                    let shifted = shift_by_months(start, self.months_cur as u32);
                    let bumped = saturating_add(self.prev, 1);
                    proof {
                        assert(sat_add(month_shift(start as int, self.months_cur as int), 0)
                            == shifted as int);
                        // The previous slot lies strictly before this shift,
                        // so the backstop never engages and the slot is pure
                        // month arithmetic.
                        assert(k * interval >= 1);
                        assert(k >= 1) by (nonlinear_arith)
                            requires
                                k * interval >= 1,
                                interval >= 1,
                                k >= 0,
                        ;
                        if k == 1 {
                            assert(self.prev == slot_at(self.rule, 0));
                            assert(slot_at(self.rule, 0) == start);
                            assert(shifted > start);
                        }
                        if k >= 2 {
                            assert((k - 1) * interval < k * interval && (k - 1) * interval
                                <= 1_200_000) by (nonlinear_arith)
                                requires
                                    k >= 2,
                                    interval >= 1,
                                    k * interval <= 1_200_000,
                            ;
                            assert(month_shift(start as int, (k - 1) * interval)
                                < shifted as int);
                            assert(self.prev == slot_at(self.rule, (k - 1) as nat));
                            assert(slot_at(self.rule, (k - 1) as nat) == month_shift(
                                start as int,
                                (k - 1) * interval,
                            ));
                        }
                        assert(self.prev < shifted);
                    }
                    slot = if shifted > bumped {
                        shifted
                    } else {
                        bumped
                    };
                } else {
                    slot = i64::MAX;
                }
                self.prev = slot;
                self.months_cur = if interval > 1_200_000 || self.months_cur > 1_200_000 {
                    1_300_000
                } else if self.months_cur + interval > 1_200_000 {
                    1_300_000
                } else {
                    self.months_cur + interval
                };
                self.k = Ghost(k + 1);
                proof {
                    assert((k + 1) * interval == k * interval + interval) by (nonlinear_arith);
                    assert(k >= 1 ==> k * interval >= interval) by (nonlinear_arith);
                }
                slot
            },
        }
    }
}

/// The first `n` slots of a rule, for callers that want them all at once.
pub fn take_slots(rule: &Rule, n: usize) -> (r: Vec<i64>)
    requires
        rule_wf(*rule),
    ensures
        r@.len() == n,
        forall|i: int| 0 <= i < n ==> #[trigger] r@[i] == slot_at(*rule, i as nat),
{
    let mut it = RuleIter::new(rule);
    let mut r: Vec<i64> = Vec::new();
    let mut i: usize = 0;
    while i < n
        invariant
            0 <= i <= n,
            it.wf(),
            it.rule_v() == *rule,
            it.count() == i as nat,
            r@.len() == i as int,
            forall|j: int| 0 <= j < i ==> #[trigger] r@[j] == slot_at(*rule, j as nat),
        decreases n - i,
    {
        let s = it.next();
        r.push(s);
        i = i + 1;
    }
    r
}

} // verus!
