//! Statistical process control: configuration and Western Electric rule
//! detection.
//!
//! A rule fires on a window of consecutive points; every point of a firing
//! window is tagged with that rule. Detection needs at least eight points,
//! and mean and standard deviation are the population statistics of the
//! whole series (see [`crate::stats`]).

use vstd::prelude::*;
use crate::stats::{
    calculate_statistics, mean_spec, stddev_spec, values_bounded, MAX_LEN, VAL_BOUND,
};

verus! {

/// The Western Electric rules that the detector evaluates (rule one, a
/// single point beyond three sigma, is ordinary outlier detection and is
/// handled there).
#[derive(Clone, Copy, Debug, PartialEq, Eq, Structural)]
pub enum WERule {
    /// Two of three consecutive points beyond two sigma, same side.
    RuleTwo,
    /// Four of five consecutive points beyond one sigma, same side.
    RuleThree,
    /// Eight consecutive points on the same side of the mean.
    RuleFour,
    /// Six consecutive points strictly trending up or down.
    RuleFive,
    /// Fourteen consecutive points strictly alternating up and down.
    RuleSix,
}

impl WERule {
    /// Display label of the rule.
    pub fn name(&self) -> (r: String)
        ensures
            *self == WERule::RuleTwo ==> r@ == "Rule 2: 2/3 beyond 2 sigma"@,
            *self == WERule::RuleThree ==> r@ == "Rule 3: 4/5 beyond 1 sigma"@,
            *self == WERule::RuleFour ==> r@ == "Rule 4: 8 consecutive on same side"@,
            *self == WERule::RuleFive ==> r@ == "Rule 5: 6 trending"@,
            *self == WERule::RuleSix ==> r@ == "Rule 6: 14 alternating"@,
    {
        match self {
            WERule::RuleTwo => "Rule 2: 2/3 beyond 2 sigma".to_owned(),
            WERule::RuleThree => "Rule 3: 4/5 beyond 1 sigma".to_owned(),
            WERule::RuleFour => "Rule 4: 8 consecutive on same side".to_owned(),
            WERule::RuleFive => "Rule 5: 6 trending".to_owned(),
            WERule::RuleSix => "Rule 6: 14 alternating".to_owned(),
        }
    }
}

/// One detected violation: a point index and the rules it violates,
/// in detection order (rule four first, then two, three, five, six).
#[derive(Clone, Debug)]
pub struct WEViolation {
    pub point_index: usize,
    pub rules: Vec<WERule>,
}

/// Every point of `s[lo..=hi]` lies strictly above `t`.
pub open spec fn all_above(s: Seq<i64>, t: int, lo: int, hi: int) -> bool {
    forall|k: int| lo <= k <= hi ==> (#[trigger] s[k]) > t
}

/// Every point of `s[lo..=hi]` lies strictly below `t`.
pub open spec fn all_below(s: Seq<i64>, t: int, lo: int, hi: int) -> bool {
    forall|k: int| lo <= k <= hi ==> (#[trigger] s[k]) < t
}

/// How many points of `s[lo..=hi]` lie strictly above `t`.
pub open spec fn count_above(s: Seq<i64>, t: int, lo: int, hi: int) -> int
    decreases hi - lo + 1,
{
    if hi < lo {
        0
    } else {
        count_above(s, t, lo, hi - 1) + if s[hi] > t {
            1int
        } else {
            0int
        }
    }
}

/// How many points of `s[lo..=hi]` lie strictly below `t`.
pub open spec fn count_below(s: Seq<i64>, t: int, lo: int, hi: int) -> int
    decreases hi - lo + 1,
{
    if hi < lo {
        0
    } else {
        count_below(s, t, lo, hi - 1) + if s[hi] < t {
            1int
        } else {
            0int
        }
    }
}

/// Number of points in a rule's window.
pub open spec fn window_len(rule: WERule) -> int {
    match rule {
        WERule::RuleTwo => 3,
        WERule::RuleThree => 5,
        WERule::RuleFour => 8,
        WERule::RuleFive => 6,
        WERule::RuleSix => 14,
    }
}

/// The window of `rule` ending at index `i` fires.
pub open spec fn window_ok(s: Seq<i64>, rule: WERule, i: int) -> bool {
    let m = mean_spec(s);
    let sd = stddev_spec(s);
    match rule {
        WERule::RuleTwo => count_above(s, m + 2 * sd, i - 2, i) >= 2
            || count_below(s, m - 2 * sd, i - 2, i) >= 2,
        WERule::RuleThree => count_above(s, m + sd, i - 4, i) >= 4
            || count_below(s, m - sd, i - 4, i) >= 4,
        WERule::RuleFour => all_above(s, m, i - 7, i) || all_below(s, m, i - 7, i),
        WERule::RuleFive => (forall|k: int| i - 5 <= k < i ==> (#[trigger] s[k]) < s[k + 1])
            || (forall|k: int| i - 5 <= k < i ==> (#[trigger] s[k]) > s[k + 1]),
        WERule::RuleSix => forall|k: int| i - 12 <= k <= i - 1
            ==> ((#[trigger] s[k]) > s[k - 1] && s[k] > s[k + 1])
                || (s[k] < s[k - 1] && s[k] < s[k + 1]),
    }
}

/// `j` lies in a firing window of `rule` whose end is below `hi`.
pub open spec fn rule_at_upto(s: Seq<i64>, rule: WERule, j: int, hi: int) -> bool {
    exists|i: int| window_len(rule) - 1 <= i < hi && i - (window_len(rule) - 1) <= j <= i
        && window_ok(s, rule, i)
}

/// Point `j` violates `rule`: it lies in some firing window. Detection
/// needs at least eight points.
pub open spec fn rule_at(s: Seq<i64>, rule: WERule, j: int) -> bool {
    s.len() >= 8 && rule_at_upto(s, rule, j, s.len() as int)
}

/// The rules point `j` violates, in detection order.
pub open spec fn rules_at(s: Seq<i64>, j: int) -> Seq<WERule> {
    (if rule_at(s, WERule::RuleFour, j) {
        seq![WERule::RuleFour]
    } else {
        Seq::empty()
    }) + (if rule_at(s, WERule::RuleTwo, j) {
        seq![WERule::RuleTwo]
    } else {
        Seq::empty()
    }) + (if rule_at(s, WERule::RuleThree, j) {
        seq![WERule::RuleThree]
    } else {
        Seq::empty()
    }) + (if rule_at(s, WERule::RuleFive, j) {
        seq![WERule::RuleFive]
    } else {
        Seq::empty()
    }) + (if rule_at(s, WERule::RuleSix, j) {
        seq![WERule::RuleSix]
    } else {
        Seq::empty()
    })
}

/// Whether the window of `rule` ending at `i` fires.
fn check_window(values: &Vec<i64>, m: i64, sd: i64, rule: WERule, i: usize) -> (ok: bool)
    requires
        values@.len() <= MAX_LEN,
        window_len(rule) - 1 <= i as int,
        (i as int) < values@.len(),
        m as int == mean_spec(values@),
        sd as int == stddev_spec(values@),
    ensures
        ok == window_ok(values@, rule, i as int),
{
    let lo: usize = i + 1 - (match rule {
        WERule::RuleTwo => 3,
        WERule::RuleThree => 5,
        WERule::RuleFour => 8,
        WERule::RuleFive => 6,
        WERule::RuleSix => 14,
    });
    match rule {
        WERule::RuleTwo | WERule::RuleThree => {
            let band: i128 = if matches!(rule, WERule::RuleTwo) {
                2 * (sd as i128)
            } else {
                sd as i128
            };
            let need: usize = if matches!(rule, WERule::RuleTwo) {
                2
            } else {
                4
            };
            let hi_t: i128 = (m as i128) + band;
            let lo_t: i128 = (m as i128) - band;
            let ghost ghi: int = hi_t as int;
            let ghost glo: int = lo_t as int;
            let mut na: usize = 0;
            let mut nb: usize = 0;
            let mut k: usize = lo;
            while k <= i
                invariant
                    lo <= k <= i + 1,
                    (i as int) < values@.len(),
                    values@.len() <= MAX_LEN,
                    ghi == hi_t as int,
                    glo == lo_t as int,
                    na as int == count_above(values@, ghi, lo as int, k - 1),
                    nb as int == count_below(values@, glo, lo as int, k - 1),
                    na <= k,
                    nb <= k,
                decreases i + 1 - k,
            {
                if (values[k] as i128) > hi_t {
                    na = na + 1;
                }
                if (values[k] as i128) < lo_t {
                    nb = nb + 1;
                }
                k = k + 1;
            }
            na >= need || nb >= need
        },
        WERule::RuleFour => {
            let mut above = true;
            let mut below = true;
            let mut k: usize = lo;
            while k <= i
                invariant
                    lo <= k <= i + 1,
                    (i as int) < values@.len(),
                    values@.len() <= MAX_LEN,
                    above ==> all_above(values@, m as int, lo as int, k - 1),
                    !above ==> exists|x: int| lo as int <= x < k as int
                        && !((#[trigger] values@[x]) > m),
                    below ==> all_below(values@, m as int, lo as int, k - 1),
                    !below ==> exists|x: int| lo as int <= x < k as int
                        && !((#[trigger] values@[x]) < m),
                decreases i + 1 - k,
            {
                let ghost gk: int = k as int;
                if !(values[k] > m) {
                    above = false;
                    proof {
                        assert(lo as int <= gk < gk + 1 && !(values@[gk] > m));
                    }
                }
                if !(values[k] < m) {
                    below = false;
                    proof {
                        assert(lo as int <= gk < gk + 1 && !(values@[gk] < m));
                    }
                }
                k = k + 1;
            }
            proof {
                if !above {
                    assert(!all_above(values@, m as int, lo as int, i as int));
                }
                if !below {
                    assert(!all_below(values@, m as int, lo as int, i as int));
                }
            }
            above || below
        },
        WERule::RuleFive => {
            let mut inc = true;
            let mut dec = true;
            let mut k: usize = lo;
            while k < i
                invariant
                    lo <= k <= i,
                    (i as int) < values@.len(),
                    values@.len() <= MAX_LEN,
                    inc ==> (forall|x: int| lo as int <= x < k as int
                        ==> (#[trigger] values@[x]) < values@[x + 1]),
                    !inc ==> exists|x: int| lo as int <= x < i as int
                        && !((#[trigger] values@[x]) < values@[x + 1]),
                    dec ==> (forall|x: int| lo as int <= x < k as int
                        ==> (#[trigger] values@[x]) > values@[x + 1]),
                    !dec ==> exists|x: int| lo as int <= x < i as int
                        && !((#[trigger] values@[x]) > values@[x + 1]),
                decreases i - k,
            {
                let ghost gk: int = k as int;
                if !(values[k] < values[k + 1]) {
                    inc = false;
                    proof {
                        assert(lo as int <= gk < i as int && !(values@[gk] < values@[gk + 1]));
                    }
                }
                if !(values[k] > values[k + 1]) {
                    dec = false;
                    proof {
                        assert(lo as int <= gk < i as int && !(values@[gk] > values@[gk + 1]));
                    }
                }
                k = k + 1;
            }
            inc || dec
        },
        WERule::RuleSix => {
            let mut alt = true;
            let mut k: usize = lo + 1;
            while k + 1 <= i
                invariant
                    lo + 1 <= k <= i,
                    lo + 1 <= i,
                    (i as int) < values@.len(),
                    values@.len() <= MAX_LEN,
                    alt ==> (forall|x: int| lo as int + 1 <= x < k as int
                        ==> ((#[trigger] values@[x]) > values@[x - 1] && values@[x]
                            > values@[x + 1]) || (values@[x] < values@[x - 1] && values@[x]
                            < values@[x + 1])),
                    !alt ==> exists|x: int| lo as int + 1 <= x <= i - 1
                        && !(((#[trigger] values@[x]) > values@[x - 1] && values@[x]
                            > values@[x + 1]) || (values@[x] < values@[x - 1] && values@[x]
                            < values@[x + 1])),
                decreases i - k,
            {
                let ghost gk: int = k as int;
                let peak = values[k] > values[k - 1] && values[k] > values[k + 1];
                let valley = values[k] < values[k - 1] && values[k] < values[k + 1];
                if !(peak || valley) {
                    alt = false;
                    proof {
                        assert(lo as int + 1 <= gk <= i - 1 && !(((values@[gk])
                            > values@[gk - 1] && values@[gk] > values@[gk + 1]) || ((
                        values@[gk]) < values@[gk - 1] && values@[gk] < values@[gk + 1])));
                    }
                }
                k = k + 1;
            }
            alt
        },
    }
}

/// Set `marks[lo..=hi]` to true, leaving the rest unchanged.
fn mark_range(marks: &mut Vec<bool>, lo: usize, hi: usize)
    requires
        lo <= hi < old(marks)@.len(),
        old(marks)@.len() <= MAX_LEN,
    ensures
        final(marks)@.len() == old(marks)@.len(),
        forall|j: int| 0 <= j < final(marks)@.len() ==> #[trigger] final(marks)@[j] == (old(
        marks)@[j] || lo as int <= j <= hi as int),
{
    let mut k: usize = lo;
    while k <= hi
        invariant
            lo <= k <= hi + 1,
            hi < marks@.len(),
            marks@.len() == old(marks)@.len(),
            marks@.len() <= MAX_LEN,
            forall|j: int| 0 <= j < marks@.len() ==> #[trigger] marks@[j] == (old(marks)@[j]
                || lo as int <= j < k as int),
        decreases hi + 1 - k,
    {
        marks.set(k, true);
        k = k + 1;
    }
}

/// Per-point firing marks for one rule.
fn compute_rule_marks(values: &Vec<i64>, m: i64, sd: i64, rule: WERule) -> (marks: Vec<bool>)
    requires
        8 <= values@.len() <= MAX_LEN,
        m as int == mean_spec(values@),
        sd as int == stddev_spec(values@),
    ensures
        marks@.len() == values@.len(),
        forall|j: int| 0 <= j < values@.len() ==> #[trigger] marks@[j] == rule_at(values@,
            rule, j),
{
    let wl: usize = match rule {
        WERule::RuleTwo => 3,
        WERule::RuleThree => 5,
        WERule::RuleFour => 8,
        WERule::RuleFive => 6,
        WERule::RuleSix => 14,
    };
    let mut marks: Vec<bool> = Vec::new();
    let mut k: usize = 0;
    while k < values.len()
        invariant
            0 <= k <= values@.len(),
            marks@.len() == k,
            forall|j: int| 0 <= j < k as int ==> !(#[trigger] marks@[j]),
        decreases values@.len() - k,
    {
        marks.push(false);
        k = k + 1;
    }
    let mut i: usize = wl - 1;
    proof {
        assert forall|j: int| 0 <= j < values@.len() implies #[trigger] marks@[j]
            == rule_at_upto(values@, rule, j, wl - 1) by {
            if rule_at_upto(values@, rule, j, wl - 1) {
                let w = choose|w: int| window_len(rule) - 1 <= w < wl - 1 && w - (window_len(
                    rule) - 1) <= j <= w && window_ok(values@, rule, w);
            }
        }
    }
    while i < values.len()
        invariant
            window_len(rule) == wl as int,
            3 <= wl,
            wl - 1 <= i,
            i == wl - 1 || i <= values@.len(),
            8 <= values@.len() <= MAX_LEN,
            m as int == mean_spec(values@),
            sd as int == stddev_spec(values@),
            marks@.len() == values@.len(),
            forall|j: int| 0 <= j < values@.len() ==> #[trigger] marks@[j] == rule_at_upto(
                values@, rule, j, i as int),
        decreases values@.len() - i,
    {
        let ghost pre = marks@;
        let ok = check_window(values, m, sd, rule, i);
        if ok {
            mark_range(&mut marks, i + 1 - wl, i);
        }
        i = i + 1;
        proof {
            assert forall|j: int| 0 <= j < values@.len() implies #[trigger] marks@[j]
                == rule_at_upto(values@, rule, j, i as int) by {
                if marks@[j] {
                    if pre[j] {
                        let w = choose|w: int| window_len(rule) - 1 <= w < i - 1 && w
                            - (window_len(rule) - 1) <= j <= w && window_ok(values@, rule, w);
                        assert(window_len(rule) - 1 <= w < i as int && w - (window_len(rule)
                            - 1) <= j <= w && window_ok(values@, rule, w));
                    } else {
                        assert(ok && i - wl <= j <= i - 1);
                        assert(window_len(rule) - 1 <= i - 1 < i as int && (i - 1) - (
                        window_len(rule) - 1) <= j <= i - 1 && window_ok(values@, rule, i
                            - 1));
                    }
                } else {
                    if rule_at_upto(values@, rule, j, i as int) {
                        let w = choose|w: int| window_len(rule) - 1 <= w < i as int && w - (
                        window_len(rule) - 1) <= j <= w && window_ok(values@, rule, w);
                        if w < i - 1 {
                            assert(window_len(rule) - 1 <= w < i - 1 && w - (window_len(
                                rule) - 1) <= j <= w && window_ok(values@, rule, w));
                            assert(rule_at_upto(values@, rule, j, i - 1));
                            assert(pre[j]);
                            assert(marks@[j]);
                        } else {
                            assert(w == i - 1);
                            assert(window_ok(values@, rule, i - 1));
                            assert(ok);
                            assert(i - wl <= j <= i - 1);
                            assert(marks@[j]);
                        }
                        assert(false);
                    }
                }
            }
        }
    }
    proof {
        assert forall|j: int| 0 <= j < values@.len() implies #[trigger] marks@[j] == rule_at(
            values@, rule, j) by {
            assert(marks@[j] == rule_at_upto(values@, rule, j, values@.len() as int));
        }
    }
    marks
}

/// Western Electric violations with their rule tags: one entry per point
/// that violates at least one rule, in ascending point order, each listing
/// exactly the rules that fire at that point (in detection order). Fewer
/// than eight points yield no violations.
pub fn detect_western_electric_violations_detailed(values: &Vec<i64>) -> (r: Vec<WEViolation>)
    requires
        values@.len() <= MAX_LEN,
        values_bounded(values@),
    ensures
        values@.len() < 8 ==> r@.len() == 0,
        forall|k: int| 0 <= k < r@.len() ==> (#[trigger] r@[k]).point_index < values@.len()
            && r@[k].rules@ == rules_at(values@, r@[k].point_index as int)
            && r@[k].rules@.len() > 0,
        forall|k1: int, k2: int| 0 <= k1 < k2 < r@.len() ==> (#[trigger] r@[k1]).point_index
            < (#[trigger] r@[k2]).point_index,
        forall|j: int| 0 <= j < values@.len() && rules_at(values@, j).len() > 0
            ==> exists|k: int| 0 <= k < r@.len() && (#[trigger] r@[k]).point_index == j,
{
    let mut out: Vec<WEViolation> = Vec::new();
    if values.len() < 8 {
        return out;
    }
    let (m, sd) = calculate_statistics(values);
    let m4 = compute_rule_marks(values, m, sd, WERule::RuleFour);
    let m2 = compute_rule_marks(values, m, sd, WERule::RuleTwo);
    let m3 = compute_rule_marks(values, m, sd, WERule::RuleThree);
    let m5 = compute_rule_marks(values, m, sd, WERule::RuleFive);
    let m6 = compute_rule_marks(values, m, sd, WERule::RuleSix);
    let mut j: usize = 0;
    while j < values.len()
        invariant
            0 <= j <= values@.len(),
            m4@.len() == values@.len(),
            m2@.len() == values@.len(),
            m3@.len() == values@.len(),
            m5@.len() == values@.len(),
            m6@.len() == values@.len(),
            forall|x: int| 0 <= x < values@.len() ==> #[trigger] m4@[x] == rule_at(values@,
                WERule::RuleFour, x),
            forall|x: int| 0 <= x < values@.len() ==> #[trigger] m2@[x] == rule_at(values@,
                WERule::RuleTwo, x),
            forall|x: int| 0 <= x < values@.len() ==> #[trigger] m3@[x] == rule_at(values@,
                WERule::RuleThree, x),
            forall|x: int| 0 <= x < values@.len() ==> #[trigger] m5@[x] == rule_at(values@,
                WERule::RuleFive, x),
            forall|x: int| 0 <= x < values@.len() ==> #[trigger] m6@[x] == rule_at(values@,
                WERule::RuleSix, x),
            forall|k: int| 0 <= k < out@.len() ==> (#[trigger] out@[k]).point_index < j
                && out@[k].rules@ == rules_at(values@, out@[k].point_index as int)
                && out@[k].rules@.len() > 0,
            forall|k1: int, k2: int| 0 <= k1 < k2 < out@.len()
                ==> (#[trigger] out@[k1]).point_index < (#[trigger] out@[k2]).point_index,
            forall|x: int| 0 <= x < j as int && rules_at(values@, x).len() > 0
                ==> exists|k: int| 0 <= k < out@.len() && (#[trigger] out@[k]).point_index
                    == x,
        decreases values@.len() - j,
    {
        let mut rules: Vec<WERule> = Vec::new();
        if m4[j] {
            rules.push(WERule::RuleFour);
        }
        if m2[j] {
            rules.push(WERule::RuleTwo);
        }
        if m3[j] {
            rules.push(WERule::RuleThree);
        }
        if m5[j] {
            rules.push(WERule::RuleFive);
        }
        if m6[j] {
            rules.push(WERule::RuleSix);
        }
        proof {
            assert(rules@ =~= rules_at(values@, j as int));
        }
        let ghost pre = out@;
        if rules.len() > 0 {
            out.push(WEViolation { point_index: j, rules });
        }
        j = j + 1;
        proof {
            assert forall|x: int| 0 <= x < j as int && rules_at(values@, x).len() > 0 implies
                exists|k: int| 0 <= k < out@.len() && (#[trigger] out@[k]).point_index == x by {
                if x < j - 1 {
                    let k = choose|k: int| 0 <= k < pre.len() && (#[trigger] pre[k]).point_index
                        == x;
                    assert(out@[k].point_index == x);
                } else {
                    assert(out@[out@.len() - 1].point_index == x);
                }
            }
        }
    }
    out
}

/// The distinct indices that violate at least one Western Electric rule,
/// in ascending order.
pub fn detect_western_electric_violations(values: &Vec<i64>) -> (r: Vec<usize>)
    requires
        values@.len() <= MAX_LEN,
        values_bounded(values@),
    ensures
        forall|k: int| 0 <= k < r@.len() ==> (#[trigger] r@[k]) < values@.len()
            && rules_at(values@, r@[k] as int).len() > 0,
        forall|k1: int, k2: int| 0 <= k1 < k2 < r@.len() ==> r@[k1] < r@[k2],
        forall|j: int| 0 <= j < values@.len() && rules_at(values@, j).len() > 0
            ==> exists|k: int| 0 <= k < r@.len() && (#[trigger] r@[k]) as int == j,
{
    let detailed = detect_western_electric_violations_detailed(values);
    let mut out: Vec<usize> = Vec::new();
    let mut k: usize = 0;
    while k < detailed.len()
        invariant
            0 <= k <= detailed@.len(),
            out@.len() == k,
            forall|x: int| 0 <= x < detailed@.len()
                ==> (#[trigger] detailed@[x]).point_index < values@.len()
                    && detailed@[x].rules@ == rules_at(values@,
                    detailed@[x].point_index as int) && detailed@[x].rules@.len() > 0,
            forall|x1: int, x2: int| 0 <= x1 < x2 < detailed@.len()
                ==> (#[trigger] detailed@[x1]).point_index
                    < (#[trigger] detailed@[x2]).point_index,
            forall|j: int| 0 <= j < values@.len() && rules_at(values@, j).len() > 0
                ==> exists|x: int| 0 <= x < detailed@.len()
                    && (#[trigger] detailed@[x]).point_index == j,
            forall|x: int| 0 <= x < k as int ==> #[trigger] out@[x]
                == detailed@[x].point_index,
        decreases detailed@.len() - k,
    {
        out.push(detailed[k].point_index);
        k = k + 1;
    }
    proof {
        assert forall|j: int| 0 <= j < values@.len() && rules_at(values@, j).len() > 0
            implies exists|k2: int| 0 <= k2 < out@.len() && (#[trigger] out@[k2]) as int
            == j by {
            let x = choose|x: int| 0 <= x < detailed@.len()
                && (#[trigger] detailed@[x]).point_index == j;
            assert(out@[x] as int == j);
        }
    }
    out
}

/// Statistical process control configuration: enablement flags and
/// parameters for each overlay, plus the last computed violation list
/// (derived data, recomputed from the current series every frame).
/// Thresholds and limits are fixed point (see [`crate::SCALE`]).
#[derive(Clone, Debug)]
pub struct SpcConfig {
    /// Show SPC control limits.
    pub show_spc_limits: bool,
    /// Sigma multiplier for control limits.
    pub sigma_multiplier: i64,
    /// Show sigma zones.
    pub show_sigma_zones: bool,
    /// Highlight outliers.
    pub show_outliers: bool,
    /// Outlier detection threshold (z-score).
    pub outlier_threshold: i64,
    /// Show the moving-average overlay.
    pub show_moving_avg: bool,
    /// Moving-average window size.
    pub ma_window: usize,
    /// Show the EWMA overlay.
    pub show_ewma: bool,
    /// EWMA smoothing constant.
    pub ewma_lambda: i64,
    /// Show the regression overlay.
    pub show_regression: bool,
    /// Regression polynomial order (1 linear, 2 quadratic).
    pub regression_order: usize,
    /// Show Western Electric rule violations.
    pub show_we_rules: bool,
    /// Last detected violations (derived, recomputed per frame).
    pub we_violations: Vec<WEViolation>,
    /// Row indices with excursions (derived).
    pub excursion_rows: Vec<usize>,
    /// Show process capability metrics.
    pub show_capability: bool,
    /// Lower specification limit.
    pub spec_lower: i64,
    /// Upper specification limit.
    pub spec_upper: i64,
    /// X-bar R chart subgroup size.
    pub xbarr_subgroup_size: usize,
    /// p-chart sample size.
    pub pchart_sample_size: usize,
}

impl SpcConfig {
    pub fn new() -> (r: Self)
        ensures
            !r.show_spc_limits && !r.show_sigma_zones && !r.show_outliers
                && !r.show_moving_avg && !r.show_ewma && !r.show_regression
                && !r.show_we_rules && !r.show_capability,
            r.sigma_multiplier == crate::constants::DEFAULT_SIGMA,
            r.outlier_threshold == crate::constants::DEFAULT_OUTLIER_THRESHOLD,
            r.ma_window == crate::constants::DEFAULT_MA_WINDOW,
            r.ewma_lambda == crate::constants::DEFAULT_EWMA_LAMBDA,
            r.regression_order == crate::constants::DEFAULT_REGRESSION_ORDER,
            r.we_violations@.len() == 0,
            r.excursion_rows@.len() == 0,
            r.spec_lower == crate::constants::DEFAULT_SPEC_LOWER,
            r.spec_upper == crate::constants::DEFAULT_SPEC_UPPER,
            r.xbarr_subgroup_size == crate::constants::DEFAULT_XBARR_SUBGROUP,
            r.pchart_sample_size == crate::constants::DEFAULT_PCHART_SAMPLE,
    {
        SpcConfig {
            show_spc_limits: false,
            sigma_multiplier: crate::constants::DEFAULT_SIGMA,
            show_sigma_zones: false,
            show_outliers: false,
            outlier_threshold: crate::constants::DEFAULT_OUTLIER_THRESHOLD,
            show_moving_avg: false,
            ma_window: crate::constants::DEFAULT_MA_WINDOW,
            show_ewma: false,
            ewma_lambda: crate::constants::DEFAULT_EWMA_LAMBDA,
            show_regression: false,
            regression_order: crate::constants::DEFAULT_REGRESSION_ORDER,
            show_we_rules: false,
            we_violations: Vec::new(),
            excursion_rows: Vec::new(),
            show_capability: false,
            spec_lower: crate::constants::DEFAULT_SPEC_LOWER,
            spec_upper: crate::constants::DEFAULT_SPEC_UPPER,
            xbarr_subgroup_size: crate::constants::DEFAULT_XBARR_SUBGROUP,
            pchart_sample_size: crate::constants::DEFAULT_PCHART_SAMPLE,
        }
    }

    /// Forget the last computed violation list.
    pub fn clear_violations(&mut self)
        ensures
            final(self).we_violations@.len() == 0,
            final(self).excursion_rows == old(self).excursion_rows,
            final(self).show_we_rules == old(self).show_we_rules,
    {
        self.we_violations = Vec::new();
    }

    /// True when any SPC overlay is enabled.
    pub fn has_active_features(&self) -> (r: bool)
        ensures
            r == (self.show_spc_limits || self.show_sigma_zones || self.show_outliers
                || self.show_moving_avg || self.show_ewma || self.show_regression
                || self.show_we_rules || self.show_capability),
    {
        self.show_spc_limits || self.show_sigma_zones || self.show_outliers
            || self.show_moving_avg || self.show_ewma || self.show_regression
            || self.show_we_rules || self.show_capability
    }

    /// Clamp every parameter into its documented range: one through six
    /// sigma for the multiplier and threshold, a window of at least two,
    /// a smoothing constant strictly inside (0, 1), order one or two,
    /// a specification band of positive width, and subgroup and sample
    /// sizes of at least two.
    pub fn validate(&mut self)
        requires
            old(self).spec_lower <= i64::MAX - 0x10_0000,
        ensures
            final(self).sigma_multiplier as int == crate::filters::clamp_spec(
                old(self).sigma_multiplier as int, crate::SCALE as int,
                6 * (crate::SCALE as int)),
            final(self).outlier_threshold as int == crate::filters::clamp_spec(
                old(self).outlier_threshold as int, crate::SCALE as int,
                6 * (crate::SCALE as int)),
            final(self).ma_window as int == (if old(self).ma_window < 2 {
                2int
            } else {
                old(self).ma_window as int
            }),
            final(self).ewma_lambda as int == crate::filters::clamp_spec(
                old(self).ewma_lambda as int, crate::SCALE as int / 100,
                99 * (crate::SCALE as int) / 100),
            final(self).regression_order == (if old(self).regression_order < 1 {
                1usize
            } else if old(self).regression_order > 2 {
                2usize
            } else {
                old(self).regression_order
            }),
            old(self).spec_lower >= old(self).spec_upper ==> final(self).spec_upper as int
                == old(self).spec_lower + crate::SCALE && final(self).spec_lower == old(
            self).spec_lower,
            old(self).spec_lower < old(self).spec_upper ==> final(self).spec_upper == old(
            self).spec_upper && final(self).spec_lower == old(self).spec_lower,
            final(self).xbarr_subgroup_size == (if old(self).xbarr_subgroup_size < 2 {
                2usize
            } else {
                old(self).xbarr_subgroup_size
            }),
            final(self).pchart_sample_size == (if old(self).pchart_sample_size < 2 {
                2usize
            } else {
                old(self).pchart_sample_size
            }),
            final(self).we_violations == old(self).we_violations,
            final(self).excursion_rows == old(self).excursion_rows,
    {
        if self.sigma_multiplier < crate::SCALE {
            self.sigma_multiplier = crate::SCALE;
        } else if self.sigma_multiplier > 6 * crate::SCALE {
            self.sigma_multiplier = 6 * crate::SCALE;
        }
        if self.outlier_threshold < crate::SCALE {
            self.outlier_threshold = crate::SCALE;
        } else if self.outlier_threshold > 6 * crate::SCALE {
            self.outlier_threshold = 6 * crate::SCALE;
        }
        if self.ma_window < 2 {
            self.ma_window = 2;
        }
        if self.ewma_lambda < crate::SCALE / 100 {
            self.ewma_lambda = crate::SCALE / 100;
        } else if self.ewma_lambda > 99 * crate::SCALE / 100 {
            self.ewma_lambda = 99 * crate::SCALE / 100;
        }
        if self.regression_order < 1 {
            self.regression_order = 1;
        } else if self.regression_order > 2 {
            self.regression_order = 2;
        }
        if self.spec_lower >= self.spec_upper {
            self.spec_upper = self.spec_lower + crate::SCALE;
        }
        if self.xbarr_subgroup_size < 2 {
            self.xbarr_subgroup_size = 2;
        }
        if self.pchart_sample_size < 2 {
            self.pchart_sample_size = 2;
        }
    }
}

/// A run of eight consecutive points strictly above the mean makes rule
/// four fire for all eight of them.
pub proof fn lemma_we_rule_four_run(s: Seq<i64>, a: int)
    requires
        8 <= s.len(),
        0 <= a,
        a + 7 < s.len(),
        forall|k: int| a <= k <= a + 7 ==> (#[trigger] s[k]) > mean_spec(s),
    ensures
        forall|j: int| a <= j <= a + 7 ==> rule_at(s, WERule::RuleFour, j),
{
    assert forall|j: int| a <= j <= a + 7 implies rule_at(s, WERule::RuleFour, j) by {
        assert(all_above(s, mean_spec(s), a, a + 7));
        assert(window_ok(s, WERule::RuleFour, a + 7));
        assert(window_len(WERule::RuleFour) - 1 <= a + 7 < s.len() && (a + 7) - (window_len(
            WERule::RuleFour) - 1) <= j <= a + 7 && window_ok(s, WERule::RuleFour, a + 7));
    }
}

/// A run of exactly seven consecutive points above the mean — bounded on
/// both sides by points at or below it — makes rule four fire for none of
/// them.
pub proof fn lemma_we_rule_four_short_run(s: Seq<i64>, a: int)
    requires
        8 <= s.len(),
        0 <= a,
        a + 6 < s.len(),
        forall|k: int| a <= k <= a + 6 ==> (#[trigger] s[k]) > mean_spec(s),
        a == 0 || s[a - 1] <= mean_spec(s),
        a + 7 == s.len() || s[a + 7] <= mean_spec(s),
    ensures
        forall|j: int| a <= j <= a + 6 ==> !rule_at(s, WERule::RuleFour, j),
{
    let m = mean_spec(s);
    assert forall|j: int| a <= j <= a + 6 implies !rule_at(s, WERule::RuleFour, j) by {
        if rule_at(s, WERule::RuleFour, j) {
            let i = choose|i: int| 7 <= i < s.len() && i - 7 <= j <= i && window_ok(
                s, WERule::RuleFour, i);
            assert(!all_below(s, m, i - 7, i)) by {
                assert(s[j] > m);
            }
            assert(all_above(s, m, i - 7, i));
            if i - 7 <= a - 1 {
                assert(s[a - 1] > m);
            } else {
                assert(i >= a + 7);
                assert(s[a + 7] > m);
            }
        }
    }
}

} // verus!
