//! The curve interpolator: a table of (temperature, duty) control points,
//! sorted by temperature with unique keys, built from a textual curve
//! description, with piecewise-linear interpolation between the points.

use vstd::prelude::*;
use crate::parse::all_digits;
use crate::parse::digits_val;
use crate::parse::find_byte;
use crate::parse::is_digit_byte;
use crate::parse::lemma_digits_val_nonneg;
use crate::parse::lemma_digits_val_push;
use crate::parse::lemma_find_byte_at;
use crate::parse::pow10;
use crate::parse::split_lines;
use crate::parse::split_into_lines;
use crate::parse::subvec;
use crate::parse::trimmed;
use crate::parse::trimmed_copy;

verus! {

/// Errors of table construction. Each parse variant carries the offending
/// line; the open variant carries the operator message supplied by the
/// caller that read the file.
#[derive(Debug)]
pub enum Error {
    ConfigMissingDelimiter(Vec<u8>),
    ConfigOpen(String),
    ParseTemperature(Vec<u8>),
    ParseFanPercent(Vec<u8>),
}

/// A table is well-formed when its temperatures are strictly increasing.
pub open spec fn sorted_unique(s: Seq<(i16, u8)>) -> bool {
    forall|i: int, j: int|
        0 <= i < j < s.len() ==> (#[trigger] s[i]).0 < (#[trigger] s[j]).0
}

/// Integer linear interpolation between (t1, d1) and (t2, d2) at t,
/// truncated toward zero.
pub open spec fn lerp(d1: int, d2: int, t1: int, t2: int, t: int) -> int {
    (d1 * (t2 - t) + d2 * (t - t1)) / (t2 - t1)
}

/// The duty for `temp` under a sorted table: the lowest entry's duty at or
/// below the lowest temperature, full speed above the highest temperature
/// or on an empty table, and linear interpolation between the bracketing
/// entries otherwise.
pub open spec fn interp_seq(s: Seq<(i16, u8)>, temp: int) -> int
    decreases s.len(),
{
    if s.len() == 0 {
        255
    } else if temp <= s[0].0 {
        s[0].1 as int
    } else if s.len() == 1 {
        255
    } else if temp <= s[1].0 {
        lerp(s[0].1 as int, s[1].1 as int, s[0].0 as int, s[1].0 as int, temp)
    } else {
        interp_seq(s.drop_first(), temp)
    }
}

pub proof fn lemma_sorted_drop_first(s: Seq<(i16, u8)>)
    requires
        sorted_unique(s),
        s.len() > 0,
    ensures
        sorted_unique(s.drop_first()),
{
    assert forall|i: int, j: int| 0 <= i < j < s.drop_first().len() implies (#[trigger] s.drop_first()[i]).0
        < (#[trigger] s.drop_first()[j]).0 by {
        assert(s[i + 1].0 < s[j + 1].0);
    }
}

/// The interpolated duty lies between the two bracketing duties.
pub proof fn lemma_lerp_bounds(d1: int, d2: int, t1: int, t2: int, t: int)
    requires
        t1 < t,
        t <= t2,
        0 <= d1,
        0 <= d2,
    ensures
        d1 <= d2 ==> d1 <= lerp(d1, d2, t1, t2, t) <= d2,
        d2 <= d1 ==> d2 <= lerp(d1, d2, t1, t2, t) <= d1,
{
    let a = t2 - t;
    let b = t - t1;
    let den = t2 - t1;
    let num = d1 * a + d2 * b;
    let lo = if d1 <= d2 { d1 } else { d2 };
    let hi = if d1 <= d2 { d2 } else { d1 };
    assert(lo * den <= num && num <= hi * den) by (nonlinear_arith)
        requires
            0 <= a,
            0 < b,
            den == a + b,
            num == d1 * a + d2 * b,
            lo <= d1 && d1 <= hi,
            lo <= d2 && d2 <= hi,
    ;
    vstd::arithmetic::div_mod::lemma_div_is_ordered(lo * den, num, den);
    vstd::arithmetic::div_mod::lemma_div_is_ordered(num, hi * den, den);
    vstd::arithmetic::div_mod::lemma_div_multiples_vanish(lo, den);
    vstd::arithmetic::div_mod::lemma_div_multiples_vanish(hi, den);
    assert(lo * den == den * lo);
    assert(hi * den == den * hi);
}

/// Above the highest entry the table answers full speed, never the highest
/// entry's own duty.
pub proof fn lemma_interp_above_last(s: Seq<(i16, u8)>, temp: int)
    requires
        sorted_unique(s),
        s.len() > 0,
        temp > s[s.len() - 1].0,
    ensures
        interp_seq(s, temp) == 255,
    decreases s.len(),
{
    if s.len() == 1 {
        assert(temp > s[0].0);
    } else {
        assert(s[0].0 < s[s.len() - 1].0);
        assert(s[1].0 <= s[s.len() - 1].0);
        lemma_sorted_drop_first(s);
        lemma_interp_above_last(s.drop_first(), temp);
    }
}

/// Peeling the lowest entry off does not change the answer for
/// temperatures beyond the second entry.
pub proof fn lemma_interp_step(s: Seq<(i16, u8)>, temp: int)
    requires
        s.len() >= 2,
        temp > s[0].0,
        temp > s[1].0,
    ensures
        interp_seq(s, temp) == interp_seq(s.drop_first(), temp),
{
}

/// A curve whose duties never fall as temperature rises.
pub open spec fn duties_non_decreasing(s: Seq<(i16, u8)>) -> bool {
    forall|i: int, j: int|
        0 <= i < j < s.len() ==> (#[trigger] s[i]).1 <= (#[trigger] s[j]).1
}

pub proof fn lemma_dmono_drop_first(s: Seq<(i16, u8)>)
    requires
        duties_non_decreasing(s),
        s.len() > 0,
    ensures
        duties_non_decreasing(s.drop_first()),
{
    assert forall|i: int, j: int| 0 <= i < j < s.drop_first().len() implies (#[trigger] s.drop_first()[i]).1
        <= (#[trigger] s.drop_first()[j]).1 by {
        assert(s[i + 1].1 <= s[j + 1].1);
    }
}

/// Within one segment of a rising curve, interpolation rises with the
/// temperature.
pub proof fn lemma_lerp_mono_t(d1: int, d2: int, t1: int, t2: int, ta: int, tb: int)
    requires
        0 <= d1 <= d2,
        t1 < ta,
        ta <= tb,
        tb <= t2,
    ensures
        lerp(d1, d2, t1, t2, ta) <= lerp(d1, d2, t1, t2, tb),
{
    let num_a = d1 * (t2 - ta) + d2 * (ta - t1);
    let num_b = d1 * (t2 - tb) + d2 * (tb - t1);
    assert(num_a <= num_b) by (nonlinear_arith)
        requires
            d1 <= d2,
            ta <= tb,
            num_a == d1 * (t2 - ta) + d2 * (ta - t1),
            num_b == d1 * (t2 - tb) + d2 * (tb - t1),
    ;
    vstd::arithmetic::div_mod::lemma_div_is_ordered(num_a, num_b, t2 - t1);
}

/// On a rising curve no answer falls below the lowest entry's duty.
pub proof fn lemma_interp_lower(s: Seq<(i16, u8)>, t: int)
    requires
        sorted_unique(s),
        duties_non_decreasing(s),
        s.len() >= 1,
    ensures
        interp_seq(s, t) >= s[0].1,
    decreases s.len(),
{
    if t <= s[0].0 {
    } else if s.len() == 1 {
    } else if t <= s[1].0 {
        assert(s[0].0 < s[1].0);
        assert(s[0].1 <= s[1].1);
        lemma_lerp_bounds(s[0].1 as int, s[1].1 as int, s[0].0 as int, s[1].0 as int, t);
    } else {
        lemma_sorted_drop_first(s);
        lemma_dmono_drop_first(s);
        lemma_interp_lower(s.drop_first(), t);
        assert(s.drop_first()[0] == s[1]);
        assert(s[0].1 <= s[1].1);
    }
}

/// Monotonicity over the whole input range of a rising curve.
pub proof fn lemma_interp_mono(s: Seq<(i16, u8)>, ta: int, tb: int)
    requires
        sorted_unique(s),
        duties_non_decreasing(s),
        ta <= tb,
    ensures
        interp_seq(s, ta) <= interp_seq(s, tb),
    decreases s.len(),
{
    if s.len() == 0 {
    } else if ta <= s[0].0 {
        lemma_interp_lower(s, tb);
    } else if s.len() == 1 {
    } else if ta <= s[1].0 {
        assert(s[0].0 < s[1].0);
        assert(s[0].1 <= s[1].1);
        if tb <= s[1].0 {
            lemma_lerp_mono_t(s[0].1 as int, s[1].1 as int, s[0].0 as int, s[1].0 as int, ta, tb);
        } else {
            lemma_interp_step(s, tb);
            lemma_sorted_drop_first(s);
            lemma_dmono_drop_first(s);
            lemma_interp_lower(s.drop_first(), tb);
            assert(s.drop_first()[0] == s[1]);
            lemma_lerp_bounds(s[0].1 as int, s[1].1 as int, s[0].0 as int, s[1].0 as int, ta);
        }
    } else {
        lemma_interp_step(s, ta);
        lemma_interp_step(s, tb);
        lemma_sorted_drop_first(s);
        lemma_dmono_drop_first(s);
        lemma_interp_mono(s.drop_first(), ta, tb);
    }
}

/// For every curve table whose duties do not fall as temperature rises,
/// the interpolated duty is monotonic non-decreasing in the temperature
/// between the lowest and the highest entry. (A table whose duties fall
/// somewhere is excluded: interpolation then follows the falling curve.)
pub proof fn lemma_interpolate_monotonic(s: Seq<(i16, u8)>, ta: int, tb: int)
    requires
        sorted_unique(s),
        duties_non_decreasing(s),
        s.len() >= 2,
        s[0].0 <= ta,
        ta <= tb,
        tb <= s[s.len() - 1].0,
    ensures
        interp_seq(s, ta) <= interp_seq(s, tb),
{
    lemma_interp_mono(s, ta, tb);
}

/// Whether some pair in `s` carries temperature `t`.
pub open spec fn has_key(s: Seq<(i16, u8)>, t: i16) -> bool {
    exists|k: int| 0 <= k < s.len() && (#[trigger] s[k]).0 == t
}

/// The last pair in `ps` carrying temperature `t`; meaningful only when
/// one exists.
pub open spec fn last_with_key(ps: Seq<(i16, u8)>, t: i16) -> (i16, u8)
    decreases ps.len(),
{
    if ps.len() == 0 {
        (0i16, 0u8)
    } else if ps.last().0 == t {
        ps.last()
    } else {
        last_with_key(ps.drop_last(), t)
    }
}

/// The table holding exactly the temperatures of `ps`, each with the duty
/// of the last pair seen for it, sorted with unique keys.
pub open spec fn table_represents(tbl: Seq<(i16, u8)>, ps: Seq<(i16, u8)>) -> bool {
    &&& sorted_unique(tbl)
    &&& (forall|t: i16| has_key(tbl, t) <==> has_key(ps, t))
    &&& (forall|k: int|
        0 <= k < tbl.len() ==> #[trigger] tbl[k] == last_with_key(ps, tbl[k].0))
}

pub proof fn lemma_last_with_key_push(ps: Seq<(i16, u8)>, p: (i16, u8), t: i16)
    ensures
        last_with_key(ps.push(p), t) == if p.0 == t {
            p
        } else {
            last_with_key(ps, t)
        },
{
    assert(ps.push(p).last() == p);
    assert(ps.push(p).drop_last() =~= ps);
}

pub proof fn lemma_has_key_push(ps: Seq<(i16, u8)>, p: (i16, u8))
    ensures
        forall|t: i16| has_key(ps.push(p), t) <==> (has_key(ps, t) || p.0 == t),
{
    assert forall|t: i16| has_key(ps.push(p), t) <==> (has_key(ps, t) || p.0 == t) by {
        if has_key(ps, t) {
            let k = choose|k: int| 0 <= k < ps.len() && (#[trigger] ps[k]).0 == t;
            assert(ps.push(p)[k].0 == t);
        }
        if p.0 == t {
            assert(ps.push(p)[ps.len() as int].0 == t);
        }
        if has_key(ps.push(p), t) {
            let k = choose|k: int|
                0 <= k < ps.push(p).len() && (#[trigger] ps.push(p)[k]).0 == t;
            if k < ps.len() {
                assert(ps[k].0 == t);
            }
        }
    }
}

/// Puts one parsed pair into a sorted table: a new temperature is inserted
/// in order, a repeated temperature replaces the earlier duty, so the last
/// pair seen for a temperature wins.
fn insert_entry(entries: &mut Vec<(i16, u8)>, e: (i16, u8))
    requires
        sorted_unique(old(entries)@),
    ensures
        sorted_unique(final(entries)@),
        forall|t: i16|
            has_key(final(entries)@, t) <==> (has_key(old(entries)@, t) || e.0 == t),
        forall|k: int|
            0 <= k < final(entries)@.len() && (#[trigger] final(entries)@[k]).0 == e.0
                ==> final(entries)@[k] == e,
        forall|k: int|
            0 <= k < final(entries)@.len() && (#[trigger] final(entries)@[k]).0 != e.0
                ==> has_key(old(entries)@, final(entries)@[k].0) && final(entries)@[k]
                == last_with_key(old(entries)@, final(entries)@[k].0),
        forall|k: int|
            0 <= k < old(entries)@.len() && (#[trigger] old(entries)@[k]).0 != e.0
                ==> last_with_key(final(entries)@, old(entries)@[k].0) == last_with_key(
                old(entries)@,
                old(entries)@[k].0,
            ),
{
    let n = entries.len();
    let mut i: usize = 0;
    while i < n && entries[i].0 < e.0
        invariant
            i <= n == entries.len(),
            forall|k: int| 0 <= k < i ==> (#[trigger] entries@[k]).0 < e.0,
        decreases n - i,
    {
        i = i + 1;
    }
    let ghost olds = entries@;
    if i < n && entries[i].0 == e.0 {
        entries.set(i, e);
        proof {
            assert(entries@ =~= olds.update(i as int, e));
            lemma_insert_entry_update(olds, entries@, e, i as int);
        }
    } else {
        proof {
            if i < n {
                assert(olds[i as int].0 > e.0);
            }
        }
        entries.insert(i, e);
        proof {
            assert(entries@ =~= olds.insert(i as int, e));
            lemma_insert_entry_fresh(olds, entries@, e, i as int);
        }
    }
}

proof fn lemma_insert_entry_update(olds: Seq<(i16, u8)>, news: Seq<(i16, u8)>, e: (i16, u8), i: int)
    requires
        sorted_unique(olds),
        0 <= i < olds.len(),
        olds[i].0 == e.0,
        news == olds.update(i, e),
    ensures
        sorted_unique(news),
        forall|t: i16| has_key(news, t) <==> (has_key(olds, t) || e.0 == t),
        forall|k: int|
            0 <= k < news.len() && (#[trigger] news[k]).0 == e.0 ==> news[k] == e,
        forall|k: int|
            0 <= k < news.len() && (#[trigger] news[k]).0 != e.0 ==> has_key(olds, news[k].0)
                && news[k] == last_with_key(olds, news[k].0),
        forall|k: int|
            0 <= k < olds.len() && (#[trigger] olds[k]).0 != e.0 ==> last_with_key(
                news,
                olds[k].0,
            ) == last_with_key(olds, olds[k].0),
{
    assert forall|k: int|
        0 <= k < news.len() && (#[trigger] news[k]).0 == e.0 implies news[k] == e by {
        if k != i {
            assert(olds[k].0 == olds[i].0);
            if k < i {
                assert(olds[k].0 < olds[i].0);
            } else {
                assert(olds[i].0 < olds[k].0);
            }
        }
    }
    assert forall|t: i16| has_key(news, t) <==> (has_key(olds, t) || e.0 == t) by {
        if has_key(news, t) {
            let k = choose|k: int| 0 <= k < news.len() && (#[trigger] news[k]).0 == t;
            assert(olds[k].0 == t);
        }
        if has_key(olds, t) {
            let k = choose|k: int| 0 <= k < olds.len() && (#[trigger] olds[k]).0 == t;
            assert(news[k].0 == t);
        }
        if e.0 == t {
            assert(news[i].0 == t);
        }
    }
    lemma_sorted_last_with_key(olds);
    lemma_sorted_last_with_key(news);
    assert forall|k: int|
        0 <= k < news.len() && (#[trigger] news[k]).0 != e.0 implies has_key(olds, news[k].0)
        && news[k] == last_with_key(olds, news[k].0) by {
        assert(news[k] == olds[k]);
        assert(olds[k].0 == news[k].0);
    }
    assert forall|k: int|
        0 <= k < olds.len() && (#[trigger] olds[k]).0 != e.0 implies last_with_key(
        news,
        olds[k].0,
    ) == last_with_key(olds, olds[k].0) by {
        assert(news[k] == olds[k]);
        assert(last_with_key(news, news[k].0) == news[k]);
        assert(last_with_key(olds, olds[k].0) == olds[k]);
    }
}

proof fn lemma_insert_entry_fresh(olds: Seq<(i16, u8)>, news: Seq<(i16, u8)>, e: (i16, u8), i: int)
    requires
        sorted_unique(olds),
        0 <= i <= olds.len(),
        forall|k: int| 0 <= k < i ==> (#[trigger] olds[k]).0 < e.0,
        forall|k: int| i <= k < olds.len() ==> (#[trigger] olds[k]).0 > e.0,
        news == olds.insert(i, e),
    ensures
        sorted_unique(news),
        forall|t: i16| has_key(news, t) <==> (has_key(olds, t) || e.0 == t),
        forall|k: int|
            0 <= k < news.len() && (#[trigger] news[k]).0 == e.0 ==> news[k] == e,
        forall|k: int|
            0 <= k < news.len() && (#[trigger] news[k]).0 != e.0 ==> has_key(olds, news[k].0)
                && news[k] == last_with_key(olds, news[k].0),
        forall|k: int|
            0 <= k < olds.len() && (#[trigger] olds[k]).0 != e.0 ==> last_with_key(
                news,
                olds[k].0,
            ) == last_with_key(olds, olds[k].0),
{
    assert forall|a: int, b: int| 0 <= a < b < news.len() implies (#[trigger] news[a]).0 < (
    #[trigger] news[b]).0 by {
        if a < i && b == i {
            assert(news[a] == olds[a]);
        } else if a == i && b > i {
            assert(news[b] == olds[b - 1]);
        } else if a < i && b > i {
            assert(news[a] == olds[a] && news[b] == olds[b - 1]);
            assert(olds[a].0 < e.0 && olds[b - 1].0 > e.0);
        } else if a > i && b > i {
            assert(news[a] == olds[a - 1] && news[b] == olds[b - 1]);
        } else {
            assert(news[a] == olds[a] && news[b] == olds[b]);
        }
    }
    assert forall|t: i16| has_key(news, t) <==> (has_key(olds, t) || e.0 == t) by {
        if has_key(news, t) {
            let k = choose|k: int| 0 <= k < news.len() && (#[trigger] news[k]).0 == t;
            if k < i {
                assert(olds[k].0 == t);
            } else if k > i {
                assert(olds[k - 1].0 == t);
            }
        }
        if has_key(olds, t) {
            let k = choose|k: int| 0 <= k < olds.len() && (#[trigger] olds[k]).0 == t;
            if k < i {
                assert(news[k].0 == t);
            } else {
                assert(news[k + 1].0 == t);
            }
        }
        if e.0 == t {
            assert(news[i].0 == t);
        }
    }
    lemma_sorted_last_with_key(olds);
    lemma_sorted_last_with_key(news);
    assert forall|k: int|
        0 <= k < news.len() && (#[trigger] news[k]).0 != e.0 implies has_key(olds, news[k].0)
        && news[k] == last_with_key(olds, news[k].0) by {
        if k < i {
            assert(news[k] == olds[k]);
            assert(olds[k].0 == news[k].0);
        } else {
            assert(k > i);
            assert(news[k] == olds[k - 1]);
            assert(olds[k - 1].0 == news[k].0);
        }
    }
    assert forall|k: int|
        0 <= k < olds.len() && (#[trigger] olds[k]).0 != e.0 implies last_with_key(
        news,
        olds[k].0,
    ) == last_with_key(olds, olds[k].0) by {
        if k < i {
            assert(news[k] == olds[k]);
            assert(last_with_key(news, news[k].0) == news[k]);
        } else {
            assert(news[k + 1] == olds[k]);
            assert(last_with_key(news, news[k + 1].0) == news[k + 1]);
        }
        assert(last_with_key(olds, olds[k].0) == olds[k]);
    }
}

/// In a sorted table, the last pair with a key is the only pair with it.
proof fn lemma_sorted_last_with_key(s: Seq<(i16, u8)>)
    requires
        sorted_unique(s),
    ensures
        forall|k: int|
            0 <= k < s.len() ==> last_with_key(s, (#[trigger] s[k]).0) == s[k],
    decreases s.len(),
{
    if s.len() > 0 {
        lemma_sorted_drop_last(s);
        lemma_sorted_last_with_key(s.drop_last());
        assert forall|k: int|
            0 <= k < s.len() implies last_with_key(s, (#[trigger] s[k]).0) == s[k] by {
            if k < s.len() - 1 {
                assert(s[k].0 < s[s.len() - 1].0);
                assert(s.drop_last()[k] == s[k]);
            }
        }
    }
}

proof fn lemma_sorted_drop_last(s: Seq<(i16, u8)>)
    requires
        sorted_unique(s),
        s.len() > 0,
    ensures
        sorted_unique(s.drop_last()),
{
    assert forall|i: int, j: int| 0 <= i < j < s.drop_last().len() implies (#[trigger] s.drop_last()[i]).0
        < (#[trigger] s.drop_last()[j]).0 by {
        assert(s[i].0 < s[j].0);
    }
}

/// A structure that interpolates a duty value for a temperature from its
/// table of control points.
#[derive(Debug)]
pub struct Interpolator {
    entries: Vec<(i16, u8)>,
}

impl View for Interpolator {
    type V = Seq<(i16, u8)>;

    closed spec fn view(&self) -> Seq<(i16, u8)> {
        self.entries@
    }
}

impl Interpolator {
    /// The table's temperatures are strictly increasing; every constructor
    /// establishes this.
    pub open spec fn wf(&self) -> bool {
        sorted_unique(self@)
    }

    /// Number of control points.
    pub fn len(&self) -> (n: usize)
        ensures
            n == self@.len(),
    {
        self.entries.len()
    }

    /// The control point at `i`.
    pub fn entry(&self, i: usize) -> (e: (i16, u8))
        requires
            i < self@.len(),
        ensures
            e == self@[i as int],
    {
        self.entries[i]
    }

    /// The duty for `temp`.
    ///
    /// At or below the lowest entry's temperature this clamps to that
    /// entry's duty. Above the highest entry's temperature, or on an empty
    /// table, it returns full speed as the fail-safe. In between it
    /// interpolates linearly, truncating toward zero.
    pub fn interpolate(&self, temp: i16) -> (duty: u8)
        requires
            self.wf(),
        ensures
            duty as int == interp_seq(self@, temp as int),
            self@.len() == 0 ==> duty == 255,
            self@.len() > 0 && temp <= self@[0].0 ==> duty == self@[0].1,
            self@.len() > 0 && temp > self@[self@.len() - 1].0 ==> duty == 255,
    {
        let n = self.entries.len();
        if n == 0 {
            return 255;
        }
        let first = self.entries[0];
        if temp <= first.0 {
            return first.1;
        }
        let mut i: usize = 0;
        proof {
            assert(self@.skip(0) =~= self@);
        }
        while i + 1 < n
            invariant
                0 <= i < n == self@.len(),
                sorted_unique(self@),
                temp > self@[i as int].0,
                interp_seq(self@, temp as int) == interp_seq(self@.skip(i as int), temp as int),
            decreases n - i,
        {
            let next = self.entries[i + 1];
            let ghost rest = self@.skip(i as int);
            proof {
                assert(rest[0] == self@[i as int]);
                assert(rest[1] == self@[i + 1]);
            }
            if temp <= next.0 {
                let prev = self.entries[i];
                let t1 = prev.0;
                let d1 = prev.1;
                let t2 = next.0;
                let d2 = next.1;
                proof {
                    assert(self@[i as int].0 < self@[i + 1].0);
                    lemma_lerp_bounds(d1 as int, d2 as int, t1 as int, t2 as int, temp as int);
                }
                let a: u32 = ((t2 as i32) - (temp as i32)) as u32;
                let b: u32 = ((temp as i32) - (t1 as i32)) as u32;
                let den: u32 = ((t2 as i32) - (t1 as i32)) as u32;
                proof {
                    assert((d1 as int) * (a as int) <= 255 * 65535) by (nonlinear_arith)
                        requires
                            d1 as int <= 255,
                            0 <= a as int <= 65535,
                    ;
                    assert((d2 as int) * (b as int) <= 255 * 65535) by (nonlinear_arith)
                        requires
                            d2 as int <= 255,
                            0 <= b as int <= 65535,
                    ;
                }
                let num: u32 = (d1 as u32) * a + (d2 as u32) * b;
                let q: u32 = num / den;
                proof {
                    assert(q == lerp(d1 as int, d2 as int, t1 as int, t2 as int, temp as int));
                    if self@.len() > 0 && temp > self@[self@.len() - 1].0 {
                        assert(self@[i + 1].0 <= self@[self@.len() - 1].0);
                        assert(false);
                    }
                }
                return q as u8;
            }
            i = i + 1;
            proof {
                assert(self@.skip(i as int) =~= rest.drop_first());
                lemma_interp_step(rest, temp as int);
            }
        }
        proof {
            assert(i == n - 1);
            lemma_interp_above_last(self@, temp as int);
            let rest = self@.skip(i as int);
            assert(rest.len() == 1);
            assert(rest[0] == self@[i as int]);
            assert(interp_seq(rest, temp as int) == 255);
        }
        255
    }
}

// ------------------------------------------------------------------
// The curve grammar: one rule per line, `<temperature> => <percentage>`.
// ------------------------------------------------------------------

/// Position of the first `=>` in a line, or the line's length when there
/// is none.
pub open spec fn find_delim(s: Seq<u8>) -> int
    decreases s.len(),
{
    if s.len() < 2 {
        s.len() as int
    } else if s[0] == 61 && s[1] == 62 {
        0
    } else {
        1 + find_delim(s.drop_first())
    }
}

/// Whether the line holds the `=>` delimiter.
pub open spec fn has_delim(s: Seq<u8>) -> bool {
    find_delim(s) + 2 <= s.len()
}

pub proof fn lemma_find_delim_props(s: Seq<u8>)
    ensures
        0 <= find_delim(s),
        find_delim(s) == s.len() || find_delim(s) + 2 <= s.len(),
        find_delim(s) + 2 <= s.len() ==> s[find_delim(s)] == 61 && s[find_delim(s) + 1] == 62,
    decreases s.len(),
{
    if s.len() >= 2 && !(s[0] == 61 && s[1] == 62) {
        lemma_find_delim_props(s.drop_first());
    }
}

/// The first place the scan matched is where the delimiter sits.
pub proof fn lemma_find_delim_at(s: Seq<u8>, i: int)
    requires
        0 <= i <= s.len(),
        i < s.len() ==> i + 2 <= s.len() && s[i] == 61 && s[i + 1] == 62,
        forall|j: int| 0 <= j < i ==> !((#[trigger] s[j]) == 61 && j + 1 < s.len() && s[j + 1] == 62),
    ensures
        i < s.len() ==> find_delim(s) == i,
        i == s.len() ==> find_delim(s) == s.len(),
    decreases s.len(),
{
    if s.len() < 2 {
    } else if s[0] == 61 && s[1] == 62 {
        assert(i == 0);
    } else {
        let t = s.drop_first();
        assert forall|j: int| 0 <= j < i - 1 implies !((#[trigger] t[j]) == 61 && j + 1 < t.len()
            && t[j + 1] == 62) by {
            assert(s[j + 1] == t[j]);
            assert(j + 2 < s.len() ==> s[j + 2] == t[j + 1]);
        }
        assert(i > 0);
        lemma_find_delim_at(t, i - 1);
    }
}

/// The temperature field: everything left of the delimiter, trimmed.
pub open spec fn temp_field(line: Seq<u8>) -> Seq<u8> {
    trimmed(line.take(find_delim(line)))
}

/// The percentage field: everything right of the delimiter, trimmed.
pub open spec fn percent_field(line: Seq<u8>) -> Seq<u8> {
    trimmed(line.skip(find_delim(line) + 2))
}

/// Whether a temperature field opens with a sign byte.
pub open spec fn temp_signed(f: Seq<u8>) -> bool {
    f.len() > 0 && (f[0] == 43 || f[0] == 45)
}

/// The digit string of a temperature field.
pub open spec fn temp_digits(f: Seq<u8>) -> Seq<u8> {
    if temp_signed(f) {
        f.drop_first()
    } else {
        f
    }
}

/// The signed value of a temperature field.
pub open spec fn temp_value(f: Seq<u8>) -> int {
    if f.len() > 0 && f[0] == 45 {
        -digits_val(temp_digits(f))
    } else {
        digits_val(temp_digits(f))
    }
}

/// A valid temperature field: an optional sign, one or more digits, and a
/// value that fits a signed 16-bit integer.
pub open spec fn temp_field_valid(f: Seq<u8>) -> bool {
    &&& temp_digits(f).len() > 0
    &&& all_digits(temp_digits(f))
    &&& -32768 <= temp_value(f) <= 32767
}

/// The percentage field with an optional leading plus sign removed.
pub open spec fn pct_body(f: Seq<u8>) -> Seq<u8> {
    if f.len() > 0 && f[0] == 43 {
        f.drop_first()
    } else {
        f
    }
}

/// The digits before the decimal point.
pub open spec fn pct_ipart(f: Seq<u8>) -> Seq<u8> {
    pct_body(f).take(find_byte(pct_body(f), 46))
}

/// The digits after the decimal point, empty when there is none.
pub open spec fn pct_fpart(f: Seq<u8>) -> Seq<u8> {
    if find_byte(pct_body(f), 46) < pct_body(f).len() {
        pct_body(f).skip(find_byte(pct_body(f), 46) + 1)
    } else {
        Seq::empty()
    }
}

/// A valid percentage field: an optional plus sign, then a decimal number
/// with at most one point and at least one digit. Negative percentages are
/// rejected.
pub open spec fn percent_field_valid(f: Seq<u8>) -> bool {
    &&& all_digits(pct_ipart(f))
    &&& all_digits(pct_fpart(f))
    &&& pct_ipart(f).len() + pct_fpart(f).len() >= 1
}

/// The fraction digits as a six-digit value: the first six digits scaled
/// up to six places. Digits beyond the sixth are ignored.
pub open spec fn frac6(fd: Seq<u8>) -> int {
    if fd.len() >= 6 {
        digits_val(fd.take(6))
    } else {
        digits_val(fd) * pow10((6 - fd.len()) as nat)
    }
}

/// The duty for a percentage: `percent * 255 / 100` truncated toward zero
/// and saturated at 255, computed exactly over the six-place fraction.
pub open spec fn duty_of_percent(f: Seq<u8>) -> int {
    let scaled = (digits_val(pct_ipart(f)) * 1000000 + frac6(pct_fpart(f))) * 255 / 100000000;
    if scaled > 255 {
        255
    } else {
        scaled
    }
}

/// A line that parses: a delimiter, a valid temperature on its left, a
/// valid percentage on its right.
pub open spec fn line_ok(l: Seq<u8>) -> bool {
    &&& has_delim(l)
    &&& temp_field_valid(temp_field(l))
    &&& percent_field_valid(percent_field(l))
}

/// The control point a valid line denotes.
pub open spec fn line_entry(l: Seq<u8>) -> (i16, u8) {
    (temp_value(temp_field(l)) as i16, duty_of_percent(percent_field(l)) as u8)
}

/// The construction error owed for a bad line: a missing delimiter is
/// reported first, then a bad temperature, then a bad percentage; each
/// carries the offending line.
pub open spec fn line_error_matches(e: Error, l: Seq<u8>) -> bool {
    if !has_delim(l) {
        e matches Error::ConfigMissingDelimiter(b) && b@ == l
    } else if !temp_field_valid(temp_field(l)) {
        e matches Error::ParseTemperature(b) && b@ == l
    } else {
        e matches Error::ParseFanPercent(b) && b@ == l
    }
}

/// Views of a vector of lines.
pub open spec fn line_views(lines: Seq<Vec<u8>>) -> Seq<Seq<u8>> {
    lines.map_values(|l: Vec<u8>| l@)
}

/// The control points the lines denote, in order.
pub open spec fn curve_entries(ls: Seq<Seq<u8>>) -> Seq<(i16, u8)> {
    ls.map_values(|l: Seq<u8>| line_entry(l))
}

pub open spec fn all_lines_ok(ls: Seq<Seq<u8>>) -> bool {
    forall|k: int| 0 <= k < ls.len() ==> line_ok(#[trigger] ls[k])
}

/// Index of the first line that does not parse, or the number of lines.
pub open spec fn first_bad_line(ls: Seq<Seq<u8>>) -> int
    decreases ls.len(),
{
    if ls.len() == 0 {
        0
    } else if !line_ok(ls[0]) {
        0
    } else {
        1 + first_bad_line(ls.drop_first())
    }
}

pub proof fn lemma_first_bad_at(ls: Seq<Seq<u8>>, k: int)
    requires
        0 <= k <= ls.len(),
        forall|j: int| 0 <= j < k ==> line_ok(#[trigger] ls[j]),
        k < ls.len() ==> !line_ok(ls[k]),
    ensures
        first_bad_line(ls) == k,
    decreases ls.len(),
{
    if ls.len() > 0 && line_ok(ls[0]) {
        let t = ls.drop_first();
        assert forall|j: int| 0 <= j < k - 1 implies line_ok(#[trigger] t[j]) by {
            assert(t[j] == ls[j + 1]);
        }
        assert(k > 0);
        lemma_first_bad_at(t, k - 1);
    }
}

/// Finds the delimiter, returning the line's length when absent.
fn find_delim_exec(line: &Vec<u8>) -> (i: usize)
    ensures
        i == find_delim(line@),
        i <= line.len(),
{
    let n = line.len();
    let mut j: usize = 0;
    while j + 1 < n
        invariant
            j <= n == line.len(),
            n >= 1 ==> j <= n - 1,
            forall|k: int| 0 <= k < j ==> !((#[trigger] line@[k]) == 61 && k + 1 < n && line@[k + 1] == 62),
        decreases n - j,
    {
        if line[j] == 61 && line[j + 1] == 62 {
            proof {
                lemma_find_delim_at(line@, j as int);
            }
            return j;
        }
        j = j + 1;
    }
    proof {
        assert forall|k: int| 0 <= k < n implies !((#[trigger] line@[k]) == 61 && k + 1 < n
            && line@[k + 1] == 62) by {
            if k < j {
            } else {
                assert(k + 1 >= n);
            }
        }
        lemma_find_delim_at(line@, n as int);
    }
    n
}

/// Parses a temperature field.
fn parse_temp_field(f: &Vec<u8>) -> (r: Option<i16>)
    ensures
        r is Some <==> temp_field_valid(f@),
        temp_field_valid(f@) ==> r == Some(temp_value(f@) as i16),
{
    let n = f.len();
    let neg = n > 0 && f[0] == 45;
    let signed = n > 0 && (f[0] == 43 || f[0] == 45);
    let start: usize = if signed {
        1
    } else {
        0
    };
    proof {
        assert(temp_digits(f@) =~= f@.subrange(start as int, n as int));
    }
    if n == start {
        return None;
    }
    let mut mag: u32 = 0;
    let mut i: usize = start;
    while i < n
        invariant
            start <= i <= n == f.len(),
            temp_digits(f@) == f@.subrange(start as int, n as int),
            all_digits(f@.subrange(start as int, i as int)),
            digits_val(f@.subrange(start as int, i as int)) < 100000 ==> mag == digits_val(
                f@.subrange(start as int, i as int),
            ),
            digits_val(f@.subrange(start as int, i as int)) >= 100000 ==> mag == 100000,
            mag <= 100000,
        decreases n - i,
    {
        let b = f[i];
        if !is_digit_byte(b) {
            proof {
                assert(temp_digits(f@)[i - start] == b);
            }
            return None;
        }
        let ghost ds = f@.subrange(start as int, i as int);
        proof {
            lemma_digits_val_nonneg(ds);
            lemma_digits_val_push(ds, b);
            assert(f@.subrange(start as int, i + 1) =~= ds.push(b));
        }
        let step: u32 = mag * 10 + (b - 48) as u32;
        mag = if step >= 100000 {
            100000
        } else {
            step
        };
        i = i + 1;
    }
    proof {
        lemma_digits_val_nonneg(temp_digits(f@));
    }
    if mag >= 100000 {
        return None;
    }
    if neg {
        if mag > 32768 {
            return None;
        }
        Some((-(mag as i32)) as i16)
    } else {
        if mag > 32767 {
            return None;
        }
        Some(mag as i16)
    }
}

proof fn lemma_pow10_pos(k: nat)
    ensures
        pow10(k) >= 1,
    decreases k,
{
    if k > 0 {
        lemma_pow10_pos((k - 1) as nat);
    }
}

/// Appending a fraction digit while fewer than six have been seen.
proof fn lemma_frac6_push(p: Seq<u8>, d: u8)
    requires
        p.len() < 6,
    ensures
        frac6(p.push(d)) == frac6(p) + (d - 48) * pow10((5 - p.len()) as nat),
{
    let k = p.len() as int;
    let dv = digits_val(p);
    let dd = d - 48;
    let m = pow10((5 - k) as nat);
    lemma_digits_val_push(p, d);
    if k + 1 == 6 {
        assert(p.push(d).take(6) =~= p.push(d));
        assert(frac6(p.push(d)) == digits_val(p.push(d)));
        assert(pow10(0) == 1);
    }
    assert(pow10((6 - k) as nat) == 10 * pow10((5 - k) as nat));
    assert((dv * 10 + dd) * m == dv * (10 * m) + dd * m) by (nonlinear_arith);
    assert(dv * (10 * m) == dv * pow10((6 - k) as nat));
    if k + 1 < 6 {
        assert(frac6(p.push(d)) == digits_val(p.push(d)) * pow10((6 - (k + 1)) as nat));
    } else {
        assert(frac6(p.push(d)) == digits_val(p.push(d)) * pow10(0));
    }
}

/// Parses a percentage field into its duty value.
fn parse_percent_field(f: &Vec<u8>) -> (r: Option<u8>)
    ensures
        r is Some <==> percent_field_valid(f@),
        percent_field_valid(f@) ==> r == Some(duty_of_percent(f@) as u8),
{
    let n = f.len();
    let start: usize = if n > 0 && f[0] == 43 {
        1
    } else {
        0
    };
    proof {
        assert(pct_body(f@) =~= f@.subrange(start as int, n as int));
    }
    let mut dot: usize = start;
    while dot < n && f[dot] != 46
        invariant
            start <= dot <= n == f.len(),
            forall|j: int| start <= j < dot ==> (#[trigger] f@[j]) != 46,
        decreases n - dot,
    {
        dot = dot + 1;
    }
    proof {
        let body = f@.subrange(start as int, n as int);
        assert forall|j: int| 0 <= j < dot - start implies (#[trigger] body[j]) != 46 by {
            assert(f@[start + j] != 46);
        }
        if dot < n {
            assert(body[dot - start] == 46);
        }
        lemma_find_byte_at(body, 46, dot - start);
        assert(pct_ipart(f@) =~= f@.subrange(start as int, dot as int));
        if dot < n {
            assert(pct_fpart(f@) =~= f@.subrange(dot + 1, n as int));
        }
    }
    // integer part
    let mut ip: u32 = 0;
    let mut i: usize = start;
    while i < dot
        invariant
            start <= i <= dot <= n == f.len(),
            pct_ipart(f@) == f@.subrange(start as int, dot as int),
            all_digits(f@.subrange(start as int, i as int)),
            digits_val(f@.subrange(start as int, i as int)) < 1000 ==> ip == digits_val(
                f@.subrange(start as int, i as int),
            ),
            digits_val(f@.subrange(start as int, i as int)) >= 1000 ==> ip == 1000,
            ip <= 1000,
        decreases dot - i,
    {
        let b = f[i];
        if !is_digit_byte(b) {
            proof {
                assert(pct_ipart(f@)[i - start] == b);
            }
            return None;
        }
        let ghost ds = f@.subrange(start as int, i as int);
        proof {
            lemma_digits_val_nonneg(ds);
            lemma_digits_val_push(ds, b);
            assert(f@.subrange(start as int, i + 1) =~= ds.push(b));
        }
        let step: u32 = ip * 10 + (b - 48) as u32;
        ip = if step >= 1000 {
            1000
        } else {
            step
        };
        i = i + 1;
    }
    // fraction part
    let mut fscaled: u32 = 0;
    if dot < n {
        let mut j: usize = dot + 1;
        let mut kcnt: usize = 0;
        let mut mult: u32 = 100000;
        proof {
            reveal_with_fuel(pow10, 7);
            assert(pow10(5) == 100000);
            assert(f@.subrange(dot + 1, dot + 1) =~= Seq::<u8>::empty());
        }
        while j < n
            invariant
                dot < n == f.len(),
                dot + 1 <= j <= n,
                kcnt == j - (dot + 1),
                pct_fpart(f@) == f@.subrange(dot + 1, n as int),
                all_digits(f@.subrange(dot + 1, j as int)),
                fscaled == frac6(f@.subrange(dot + 1, j as int)),
                kcnt < 6 ==> mult == pow10((5 - kcnt) as nat),
                kcnt < 6 ==> fscaled + 10 * mult <= 1000000,
                mult <= 100000,
                fscaled <= 999999,
            decreases n - j,
        {
            let b = f[j];
            if !is_digit_byte(b) {
                proof {
                    assert(pct_fpart(f@)[j - (dot + 1)] == b);
                }
                return None;
            }
            let ghost ds = f@.subrange(dot + 1, j as int);
            proof {
                assert(f@.subrange(dot + 1, j + 1) =~= ds.push(b));
            }
            if kcnt < 6 {
                proof {
                    lemma_frac6_push(ds, b);
                    lemma_pow10_pos((5 - kcnt) as nat);
                    assert((b - 48) * mult <= 9 * mult) by (nonlinear_arith)
                        requires
                            b - 48 <= 9,
                            0 <= (b - 48) as int,
                            mult >= 0,
                    ;
                    assert((b - 48) as int * mult as int >= 0) by (nonlinear_arith)
                        requires
                            0 <= (b - 48) as int,
                            0 <= mult as int,
                    ;
                }
                fscaled = fscaled + (b - 48) as u32 * mult;
                if kcnt < 5 {
                    proof {
                        assert(pow10((5 - kcnt) as nat) == 10 * pow10((4 - kcnt) as nat));
                        vstd::arithmetic::div_mod::lemma_div_multiples_vanish(
                            pow10((4 - kcnt) as nat),
                            10,
                        );
                    }
                    mult = mult / 10;
                }
            } else {
                proof {
                    assert(ds.len() >= 6);
                    assert(ds.push(b).take(6) =~= ds.take(6));
                }
            }
            kcnt = kcnt + 1;
            j = j + 1;
        }
    } else {
        proof {
            assert(pct_fpart(f@) == Seq::<u8>::empty());
        }
    }
    // at least one digit somewhere
    let ipart_len = dot - start;
    let fpart_len = if dot < n {
        n - dot - 1
    } else {
        0
    };
    if ipart_len + fpart_len == 0 {
        return None;
    }
    proof {
        lemma_digits_val_nonneg(pct_ipart(f@));
        lemma_frac6_nonneg(pct_fpart(f@));
    }
    let ghost dv = digits_val(pct_ipart(f@));
    let ghost fr = frac6(pct_fpart(f@));
    if ip >= 101 {
        proof {
            assert(dv >= 101);
            assert((dv * 1000000 + fr) * 255 >= 25755000000);
            vstd::arithmetic::div_mod::lemma_div_is_ordered(
                25755000000,
                (dv * 1000000 + fr) * 255,
                100000000,
            );
            assert(25755000000int / 100000000int == 257);
        }
        return Some(255);
    }
    let num: u64 = (ip as u64 * 1000000 + fscaled as u64) * 255;
    let q: u64 = num / 100000000;
    if q > 255 {
        Some(255)
    } else {
        Some(q as u8)
    }
}

proof fn lemma_frac6_nonneg(fd: Seq<u8>)
    requires
        all_digits(fd),
    ensures
        0 <= frac6(fd),
{
    if fd.len() >= 6 {
        assert(all_digits(fd.take(6)));
        lemma_digits_val_nonneg(fd.take(6));
    } else {
        lemma_digits_val_nonneg(fd);
        lemma_pow10_pos((6 - fd.len()) as nat);
        assert(digits_val(fd) * pow10((6 - fd.len()) as nat) >= 0) by (nonlinear_arith)
            requires
                digits_val(fd) >= 0,
                pow10((6 - fd.len()) as nat) >= 0,
        ;
    }
}

/// Parses one curve line into a control point, or the error owed for it.
pub fn parse_curve_line(line: &Vec<u8>) -> (r: Result<(i16, u8), Error>)
    ensures
        r is Ok <==> line_ok(line@),
        line_ok(line@) ==> (r matches Ok(e) && e == line_entry(line@)),
        !line_ok(line@) ==> (r matches Err(e) && line_error_matches(e, line@)),
{
    let n = line.len();
    let fd = find_delim_exec(line);
    proof {
        lemma_find_delim_props(line@);
    }
    if fd == n {
        let copy = subvec(line, 0, n);
        proof {
            assert(copy@ =~= line@);
            assert(!has_delim(line@));
        }
        return Err(Error::ConfigMissingDelimiter(copy));
    }
    let left = trimmed_copy(&subvec(line, 0, fd));
    proof {
        assert(line@.subrange(0, fd as int) =~= line@.take(fd as int));
        assert(left@ == temp_field(line@));
    }
    let t = match parse_temp_field(&left) {
        Some(t) => t,
        None => {
            let copy = subvec(line, 0, n);
            proof {
                assert(copy@ =~= line@);
            }
            return Err(Error::ParseTemperature(copy));
        },
    };
    let right = trimmed_copy(&subvec(line, fd + 2, n));
    proof {
        assert(line@.subrange(fd + 2, n as int) =~= line@.skip(fd + 2));
        assert(right@ == percent_field(line@));
    }
    let d = match parse_percent_field(&right) {
        Some(d) => d,
        None => {
            let copy = subvec(line, 0, n);
            proof {
                assert(copy@ =~= line@);
            }
            return Err(Error::ParseFanPercent(copy));
        },
    };
    Ok((t, d))
}

impl Interpolator {
    /// Builds the table from the lines of a curve description. Every line
    /// must parse; the first offender decides the error. One entry per
    /// distinct temperature survives, the last line for it winning, and
    /// the table comes out sorted.
    pub fn from_lines(lines: &Vec<Vec<u8>>) -> (r: Result<Interpolator, Error>)
        ensures
            r is Ok <==> all_lines_ok(line_views(lines@)),
            r matches Ok(t) ==> t.wf() && table_represents(
                t@,
                curve_entries(line_views(lines@)),
            ),
            r matches Err(e) ==> line_error_matches(
                e,
                line_views(lines@)[first_bad_line(line_views(lines@))],
            ),
    {
        let n = lines.len();
        let ghost ls = line_views(lines@);
        let ghost ps = curve_entries(ls);
        let mut entries: Vec<(i16, u8)> = Vec::new();
        let mut k: usize = 0;
        proof {
            assert(ps.take(0) =~= Seq::<(i16, u8)>::empty());
        }
        while k < n
            invariant
                k <= n == lines.len(),
                ls == line_views(lines@),
                ps == curve_entries(ls),
                forall|j: int| 0 <= j < k ==> line_ok(#[trigger] ls[j]),
                table_represents(entries@, ps.take(k as int)),
            decreases n - k,
        {
            proof {
                assert(ls[k as int] == lines@[k as int]@);
            }
            match parse_curve_line(&lines[k]) {
                Err(e) => {
                    proof {
                        lemma_first_bad_at(ls, k as int);
                    }
                    return Err(e);
                },
                Ok(p) => {
                    proof {
                        assert(ps[k as int] == line_entry(ls[k as int]));
                    }
                    let ghost before = entries@;
                    let ghost taken = ps.take(k as int);
                    insert_entry(&mut entries, p);
                    proof {
                        assert(ps.take(k + 1) =~= taken.push(p));
                        lemma_has_key_push(taken, p);
                        assert forall|m: int| 0 <= m < entries@.len() implies #[trigger] entries@[m]
                            == last_with_key(ps.take(k + 1), entries@[m].0) by {
                            let t = entries@[m].0;
                            lemma_last_with_key_push(taken, p, t);
                            if t != p.0 {
                                assert(has_key(before, t));
                                let jj = choose|jj: int|
                                    0 <= jj < before.len() && (#[trigger] before[jj]).0 == t;
                                assert(before[jj] == last_with_key(taken, before[jj].0));
                                lemma_sorted_last_with_key(before);
                                assert(last_with_key(before, t) == before[jj]);
                            }
                        }
                    }
                },
            }
            k = k + 1;
        }
        proof {
            assert(ps.take(n as int) =~= ps);
        }
        Ok(Interpolator { entries })
    }

    /// Builds the table from a whole curve description text, split at line
    /// feeds as the line grammar demands.
    pub fn from_config_text(content: &Vec<u8>) -> (r: Result<Interpolator, Error>)
        ensures
            r is Ok <==> all_lines_ok(split_lines(content@)),
            r matches Ok(t) ==> t.wf() && table_represents(
                t@,
                curve_entries(split_lines(content@)),
            ),
            r matches Err(e) ==> line_error_matches(
                e,
                split_lines(content@)[first_bad_line(split_lines(content@))],
            ),
    {
        let lines = split_into_lines(content);
        Interpolator::from_lines(&lines)
    }
}

} // verus!
