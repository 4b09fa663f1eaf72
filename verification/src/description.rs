use vstd::prelude::*;

use crate::date::{Date, MAX_ABS_DAY, today};

verus! {

/// The largest interval multiplier the calculator accepts; keeps every
/// intermediate day count far inside `i64`.
pub const MAX_MULTIPLIER: i64 = 1_000_000_000;

/// How often a cycle repeats: the unit multiplied by the interval
/// multiplier to obtain the length of one period.
#[derive(Clone, Copy, PartialEq, Eq, Structural, Debug)]
pub enum Interval {
    Weekly,
    Monthly,
    Yearly,
}

/// A user-authored cycle: immutable value data, replaced wholesale on every
/// edit. `start` anchors period 0; one period spans `interval` times
/// `interval_multiplier`.
#[derive(PartialEq, Eq, Debug)]
pub struct Description {
    pub label: String,
    pub description: Option<String>,
    pub color: Option<String>,
    pub tags: Vec<String>,
    pub start: Date,
    pub interval: Interval,
    pub interval_multiplier: i64,
}

/// The mathematical value of a `Description`: text as character sequences,
/// the start date as its day number.
#[verifier::ext_equal]
pub ghost struct DescriptionV {
    pub label: Seq<char>,
    pub description: Option<Seq<char>>,
    pub color: Option<Seq<char>>,
    pub tags: Seq<Seq<char>>,
    pub start: i64,
    pub interval: Interval,
    pub interval_multiplier: i64,
}

impl View for Description {
    type V = DescriptionV;

    open spec fn view(&self) -> DescriptionV {
        DescriptionV {
            label: self.label@,
            description: match self.description {
                Some(s) => Some(s@),
                None => None,
            },
            color: match self.color {
                Some(s) => Some(s@),
                None => None,
            },
            tags: self.tags.deep_view(),
            start: self.start.days,
            interval: self.interval,
            interval_multiplier: self.interval_multiplier,
        }
    }
}

fn clone_tags(v: &Vec<String>) -> (r: Vec<String>)
    ensures
        r.deep_view() == v.deep_view(),
{
    let mut out: Vec<String> = Vec::new();
    let mut i: usize = 0;
    while i < v.len()
        invariant
            i <= v@.len(),
            out@.len() == i,
            out.deep_view() =~= v.deep_view().take(i as int),
        decreases v@.len() - i,
    {
        let ghost prev = out@;
        let ghost prev_deep = out.deep_view();
        out.push(v[i].clone());
        proof {
            assert(out@ == prev.push(v@[i as int]));
            assert forall|k: int| 0 <= k < out@.len() implies out.deep_view()[k]
                == v.deep_view().take(i + 1)[k] by {
                if k < i {
                    assert(out@[k] == prev[k]);
                    assert(out.deep_view()[k] == out@[k].deep_view());
                    assert(prev_deep[k] == prev[k].deep_view());
                    assert(prev_deep[k] == v.deep_view().take(i as int)[k]);
                } else {
                    assert(out@[k] == v@[i as int]);
                }
            }
            assert(out.deep_view() =~= v.deep_view().take(i + 1));
        }
        i = i + 1;
    }
    proof {
        assert(v.deep_view().take(v@.len() as int) =~= v.deep_view());
    }
    out
}

impl Clone for Description {
    /// A clone carries the same value.
    fn clone(&self) -> (res: Self)
        ensures
            res@ == self@,
    {
        let res = Description {
            label: self.label.clone(),
            description: match &self.description {
                Some(s) => Some(s.clone()),
                None => None,
            },
            color: match &self.color {
                Some(s) => Some(s.clone()),
                None => None,
            },
            tags: clone_tags(&self.tags),
            start: self.start,
            interval: self.interval,
            interval_multiplier: self.interval_multiplier,
        };
        proof {
            assert(res@ =~= self@);
        }
        res
    }
}

impl DescriptionV {
    /// The inputs on which the calculator is defined: a positive, bounded
    /// multiplier and a start date in range.
    pub open spec fn renderable(self) -> bool {
        &&& 1 <= self.interval_multiplier <= MAX_MULTIPLIER
        &&& -MAX_ABS_DAY <= self.start <= MAX_ABS_DAY
    }
}

impl Description {
    /// True exactly when the calculator's precondition holds of this value;
    /// callers that take descriptions from outside validate with this before
    /// rendering.
    pub fn is_renderable(&self) -> (r: bool)
        ensures
            r == self@.renderable(),
    {
        1 <= self.interval_multiplier && self.interval_multiplier <= MAX_MULTIPLIER
            && -MAX_ABS_DAY <= self.start.days && self.start.days <= MAX_ABS_DAY
    }
}

/// Progress through the current period, derived from a description and a
/// reference date; recomputed on every render and never stored. `bar_length`
/// and `bar_value` are whole-day counts meant for a progress bar.
#[derive(PartialEq, Eq, Debug)]
pub struct RenderArgs {
    pub start_time: Option<i64>,
    pub start_date: Date,
    pub end_date: Date,
    pub remaining_days: i64,
    pub bar_length: i64,
    pub bar_value: i64,
}

/// The mathematical value of a `RenderArgs`, dates as day numbers.
#[verifier::ext_equal]
pub ghost struct RenderV {
    pub start_date: int,
    pub end_date: int,
    pub remaining_days: int,
    pub bar_length: int,
    pub bar_value: int,
}

impl View for RenderArgs {
    type V = RenderV;

    open spec fn view(&self) -> RenderV {
        RenderV {
            start_date: self.start_date.days as int,
            end_date: self.end_date.days as int,
            remaining_days: self.remaining_days as int,
            bar_length: self.bar_length as int,
            bar_value: self.bar_value as int,
        }
    }
}

/// The lowercase image of a text: what `str::to_lowercase` returns, a
/// function of the characters alone.
pub uninterp spec fn lower_of(s: Seq<char>) -> Seq<char>;

/// True when `needle` occurs as a contiguous run inside `hay`; the empty
/// text occurs in everything.
pub open spec fn seq_contains(hay: Seq<char>, needle: Seq<char>) -> bool {
    exists|i: int|
        0 <= i <= hay.len() - needle.len() && (#[trigger] hay.subrange(i, i + needle.len()))
            == needle
}

/// Relies on str's `to_lowercase`: the lowercase image of the text, which
/// depends on the characters alone.
#[verifier::external_body]
fn lowercase(s: &str) -> (r: String)
    ensures
        r@ == lower_of(s@),
{
    s.to_lowercase()
}

/// Relies on str's `contains`: whether the second text occurs as a
/// contiguous substring of the first.
#[verifier::external_body]
fn contains_sub(hay: &str, needle: &str) -> (r: bool)
    ensures
        r == seq_contains(hay@, needle@),
{
    hay.contains(needle)
}

/// Whether any tag contains the sought value, both taken lowercase: the
/// match a tag filter uses.
pub fn tags_contain_value(tags: &Vec<String>, value: &str) -> (r: bool)
    ensures
        r == exists|j: int|
            0 <= j < tags.deep_view().len() && seq_contains(
                lower_of(#[trigger] tags.deep_view()[j]),
                lower_of(value@),
            ),
{
    let needle = lowercase(value);
    let mut k: usize = 0;
    while k < tags.len()
        invariant
            k <= tags@.len(),
            needle@ == lower_of(value@),
            forall|j: int|
                0 <= j < k ==> !seq_contains(
                    lower_of(#[trigger] tags.deep_view()[j]),
                    lower_of(value@),
                ),
        decreases tags@.len() - k,
    {
        let lowered = lowercase(tags[k].as_str());
        if contains_sub(lowered.as_str(), needle.as_str()) {
            proof {
                assert(tags.deep_view()[k as int] == tags@[k as int]@);
                assert(seq_contains(lower_of(tags.deep_view()[k as int]), lower_of(value@)));
            }
            return true;
        }
        k = k + 1;
    }
    false
}

/// How many weeks one unit of the interval stands for. Monthly and yearly
/// cycles are deliberately approximated as 4 and 52 weeks.
pub open spec fn interval_weeks(interval: Interval) -> int {
    match interval {
        Interval::Weekly => 1,
        Interval::Monthly => 4,
        Interval::Yearly => 52,
    }
}

/// The length of one period of the cycle, in days.
pub open spec fn period_days(interval: Interval, multiplier: int) -> int {
    7 * interval_weeks(interval) * multiplier
}

/// Days between two day numbers, as a magnitude: dates before the anchor
/// count the same as the mirrored date after it.
pub open spec fn abs_diff(a: int, b: int) -> int {
    if a >= b {
        a - b
    } else {
        b - a
    }
}

/// What the calculator returns for a description and a reference day
/// number: the boundaries of the period the reference falls in, counted
/// from `start` in whole periods, and progress through that period.
pub open spec fn render_spec(d: DescriptionV, reference: int) -> RenderV {
    let period = period_days(d.interval, d.interval_multiplier as int);
    let elapsed = abs_diff(reference, d.start as int);
    let into_period = elapsed % period;
    RenderV {
        start_date: d.start + elapsed - into_period,
        end_date: d.start + elapsed - into_period + period,
        remaining_days: period - into_period,
        bar_length: period - 1,
        bar_value: into_period,
    }
}

/// Shape of every rendered period: the period is exactly `period_days`
/// long, remaining days and the bar value partition it, the bar is one day
/// shorter than the period, at least one day always remains, and a
/// reference date on or after the start falls inside the period reported
/// for it.
pub proof fn lemma_render_period_shape(d: DescriptionV, reference: int)
    requires
        1 <= d.interval_multiplier,
    ensures
        ({
            let r = render_spec(d, reference);
            let period = period_days(d.interval, d.interval_multiplier as int);
            &&& r.end_date - r.start_date == period
            &&& r.remaining_days + r.bar_value == period
            &&& r.bar_length == period - 1
            &&& 1 <= r.remaining_days <= period
            &&& 0 <= r.bar_value < period
            &&& reference >= d.start ==> r.start_date <= reference < r.start_date + period
        }),
{
    let period = period_days(d.interval, d.interval_multiplier as int);
    let elapsed = abs_diff(reference, d.start as int);
    assert(period >= 7) by (nonlinear_arith)
        requires
            period == 7 * interval_weeks(d.interval) * d.interval_multiplier,
            1 <= interval_weeks(d.interval),
            1 <= d.interval_multiplier,
    ;
    vstd::arithmetic::div_mod::lemma_mod_bound(elapsed, period);
    if elapsed < period {
        vstd::arithmetic::div_mod::lemma_small_mod(elapsed as nat, period as nat);
    }
}

/// Boundary rule: a reference date that is exactly a whole number of
/// periods from the start — the start itself included — is reported as the
/// first day of a fresh period: the full period remains and the bar is
/// empty.
pub proof fn lemma_render_boundary(d: DescriptionV, reference: int)
    requires
        1 <= d.interval_multiplier,
        abs_diff(reference, d.start as int) % period_days(
            d.interval,
            d.interval_multiplier as int,
        ) == 0,
    ensures
        render_spec(d, reference).remaining_days == period_days(
            d.interval,
            d.interval_multiplier as int,
        ),
        render_spec(d, reference).bar_value == 0,
        reference >= d.start ==> render_spec(d, reference).start_date == reference,
{
}

/// Symmetry: a reference date before the start is rendered exactly as its
/// mirror image on the other side of the start.
pub proof fn lemma_render_symmetry(d: DescriptionV, after: int, before: int)
    requires
        after - d.start == d.start - before,
    ensures
        render_spec(d, after) == render_spec(d, before),
{
    assert(abs_diff(after, d.start as int) == abs_diff(before, d.start as int));
    assert(render_spec(d, after) =~= render_spec(d, before));
}

/// Normalization: a monthly cycle renders exactly as a weekly cycle with
/// four times its multiplier, and a yearly cycle as a weekly cycle with
/// fifty-two times its multiplier, every other field equal.
pub proof fn lemma_render_normalization(d: DescriptionV, w: DescriptionV, reference: int)
    requires
        d.interval is Monthly || d.interval is Yearly,
        w.interval is Weekly,
        d.interval is Monthly ==> w.interval_multiplier == 4 * d.interval_multiplier,
        d.interval is Yearly ==> w.interval_multiplier == 52 * d.interval_multiplier,
        w.start == d.start,
    ensures
        render_spec(d, reference) == render_spec(w, reference),
{
    assert(period_days(d.interval, d.interval_multiplier as int) == period_days(
        w.interval,
        w.interval_multiplier as int,
    )) by (nonlinear_arith)
        requires
            d.interval is Monthly ==> w.interval_multiplier == 4 * d.interval_multiplier,
            d.interval is Yearly ==> w.interval_multiplier == 52 * d.interval_multiplier,
            d.interval is Monthly || d.interval is Yearly,
            w.interval is Weekly,
    ;
    assert(render_spec(d, reference) =~= render_spec(w, reference));
}

impl Description {
    /// Boundaries of, and progress through, the period that the reference
    /// date falls in; with no reference date, the current date is used.
    pub fn render_arguments(&self, time: Option<Date>) -> (r: RenderArgs)
        requires
            self@.renderable(),
            time matches Some(t) ==> t.in_range(),
        ensures
            r.start_time is None,
            time matches Some(t) ==> r@ == render_spec(self@, t.days as int),
            time is None ==> exists|t: Date| t.in_range() && r@ == render_spec(self@, t.days as int),
    {
        let reference = match time {
            Some(t) => t,
            None => today(),
        };
        let weeks: i64 = match self.interval {
            Interval::Weekly => 1,
            Interval::Monthly => 4,
            Interval::Yearly => 52,
        };
        let per_unit: i64 = 7 * weeks;
        assert(per_unit * self.interval_multiplier >= per_unit && per_unit
            * self.interval_multiplier <= 364 * MAX_MULTIPLIER) by (nonlinear_arith)
            requires
                7 <= per_unit <= 364,
                1 <= self.interval_multiplier <= MAX_MULTIPLIER,
        ;
        let period: i64 = per_unit * self.interval_multiplier;
        let elapsed: i64 = if reference.days >= self.start.days {
            reference.days - self.start.days
        } else {
            self.start.days - reference.days
        };
        let into_period: i64 = ((elapsed as u64) % (period as u64)) as i64;
        assert(into_period == abs_diff(reference.days as int, self@.start as int) % (period
            as int)) by {
            vstd::arithmetic::div_mod::lemma_mod_bound(elapsed as int, period as int);
        }
        assert(0 <= into_period <= elapsed && into_period < period) by {
            vstd::arithmetic::div_mod::lemma_mod_bound(elapsed as int, period as int);
            if elapsed < period {
                vstd::arithmetic::div_mod::lemma_small_mod(elapsed as nat, period as nat);
            }
        }
        let start_days: i64 = self.start.days + (elapsed - into_period);
        RenderArgs {
            start_time: None,
            start_date: Date { days: start_days },
            end_date: Date { days: start_days + period },
            remaining_days: period - into_period,
            bar_length: period - 1,
            bar_value: into_period,
        }
    }
}

} // verus!
