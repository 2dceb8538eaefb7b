//! The scale of an axis: the step between its ticks, how far it goes, and the prefix
//! of its unit.
//!
//! Powers of ten and logarithms are handed in: [`try_arguments`] says what the
//! logarithm is taken of, and an [`AxisPlan`] which powers are needed.
use crate::arith::{difference, product, quotient, saturated, sum, whole, whole_part};
use crate::convert::{ceiled, floored, larger};
use crate::double::{Double, INFINITE};
use crate::timeparse::half;
use vstd::prelude::*;
use vstd::string::*;
use vstd::utf8::{
    encode_utf8, encode_utf8_valid_utf8, is_ascii_chars, is_ascii_chars_encode_utf8,
    is_char_boundary, is_char_boundary_start_end_of_seq,
};

verus! {

/// What is tried in turn: a step of a fifth, of a half and of the whole of a power of
/// ten.
pub open spec fn divisor(k: int) -> int {
    if k == 0 {
        5
    } else if k == 1 {
        2
    } else {
        1
    }
}

/// The smallest step that leaves no more than `max_steps` ticks on an axis that goes
/// to `to`, in tenths.
pub open spec fn least_step(to: Double, max_steps: int) -> Double {
    quotient(product(to, whole(10)), whole(max_steps))
}

/// What the logarithm to base ten is taken of in the three tries.
pub fn try_arguments(to: Double, max_steps: i32) -> (r: [Double; 3])
    ensures
        forall|k: int|
            0 <= k < 3 ==> #[trigger] r@[k] == product(
                least_step(to, max_steps as int),
                whole(divisor(k)),
            ),
{
    let least = to.times(Double::from_i64(10)).over(Double::from_i64(max_steps as i64));
    [
        least.times(Double::from_i64(5)),
        least.times(Double::from_i64(2)),
        least.times(Double::from_i64(1)),
    ]
}

/// How far the tries have come.
#[verifier::ext_equal]
pub struct Tried {
    /// The power of ten and the divisor of the step found, if any.
    pub step: Option<(Double, int)>,
    /// The power of ten that a try must not exceed to be taken.
    pub bound: Double,
}

/// The first `n` tries, given the logarithms.
pub open spec fn tried(logs: Seq<Double>, n: nat) -> Tried
    decreases n,
{
    if n == 0 {
        Tried { step: None, bound: Double { bits: INFINITE } }
    } else {
        let before = tried(logs, (n - 1) as nat);
        let power = ceiled(logs[n - 1]);
        let d = divisor(n - 1);
        if power.at_most(before.bound) {
            Tried {
                step: Some((power, d)),
                bound: difference(
                    power,
                    if d > 1 {
                        whole(1)
                    } else {
                        whole(0)
                    },
                ),
            }
        } else {
            before
        }
    }
}

/// The thousands that the unit's prefix stands for.
pub open spec fn prefix_number(bound: Double) -> int {
    saturated(
        whole_part(floored(quotient(bound, whole(3)))),
        i32::MIN as int,
        i32::MAX as int,
    )
}

/// What an axis needs powers of ten for.
#[derive(Clone, Copy, Debug, PartialEq, Eq, Structural)]
pub struct AxisPlan {
    /// The step is this power of ten, if there is one ...
    pub power: Option<Double>,
    /// ... divided by this.
    pub divisor: i32,
    /// The unit is scaled by a thousand to this power.
    pub prefix_num: i32,
}

impl AxisPlan {
    /// The power of ten that the unit is scaled by.
    pub fn scale_exponent(&self) -> (r: Double)
        ensures
            r == product(whole(-3), whole(self.prefix_num as int)),
    {
        Double::from_i64(-3).times(Double::from_i64(self.prefix_num as i64))
    }
}

/// Chooses the step and the unit, given the logarithms of the [`try_arguments`].
pub fn plan(logs: &[Double; 3]) -> (r: AxisPlan)
    ensures
        ({
            let t = tried(logs@, 3);
            &&& match t.step {
                None => r.power is None && r.divisor == 1,
                Some((power, d)) => r.power == Some(power) && r.divisor == d,
            }
            &&& r.prefix_num == prefix_number(t.bound)
        }),
{
    let mut bound = Double { bits: INFINITE };
    let mut power: Option<Double> = None;
    let mut found: i32 = 1;
    let mut k: usize = 0;
    while k < 3
        invariant
            k <= 3,
            tried(logs@, k as nat) == (Tried {
                step: match power {
                    None => None,
                    Some(p) => Some((p, found as int)),
                },
                bound,
            }),
            power is None ==> found == 1,
        decreases 3 - k,
    {
        let d: i32 = if k == 0 {
            5
        } else if k == 1 {
            2
        } else {
            1
        };
        let up = logs[k].ceil();
        if up.le(bound) {
            power = Some(up);
            found = d;
            bound = up.minus(
                if d > 1 {
                    Double::from_i64(1)
                } else {
                    Double::from_i64(0)
                },
            );
        }
        k = k + 1;
    }
    let prefix_num = bound.over(Double::from_i64(3)).floor().to_i32();
    AxisPlan { power, divisor: found, prefix_num }
}

/// An axis.
#[derive(Debug)]
pub struct Axis {
    /// Tenths between two ticks.
    pub step: i32,
    /// Where the axis ends, in tenths.
    pub limit: Double,
    /// The prefix of the unit, a letter or nothing.
    pub prefix: String,
}

/// An axis in mathematical terms.
#[verifier::ext_equal]
pub struct AxisView {
    pub step: int,
    pub limit: Double,
    pub prefix: Seq<char>,
}

impl View for Axis {
    type V = AxisView;

    open spec fn view(&self) -> AxisView {
        AxisView { step: self.step as int, limit: self.limit, prefix: self.prefix@ }
    }
}

impl Axis {
    /// Whether the prefix can be cut off behind its first byte.
    pub open spec fn sound(self) -> bool {
        self.prefix@.len() > 0 ==> is_char_boundary(encode_utf8(self.prefix@), 1)
    }
}

/// A single letter is a single byte.
proof fn lemma_letter(text: Seq<char>)
    requires
        text.len() <= 1,
        is_ascii_chars(text),
    ensures
        text.len() > 0 ==> is_char_boundary(encode_utf8(text), 1),
{
    is_ascii_chars_encode_utf8(text);
    encode_utf8_valid_utf8(text);
    is_char_boundary_start_end_of_seq(encode_utf8(text));
}

/// The prefix of a unit for a number of thousands.
pub open spec fn prefix_text(n: int) -> Seq<char> {
    if n == -4 {
        "p"@
    } else if n == -3 {
        "n"@
    } else if n == -2 {
        "u"@
    } else if n == -1 {
        "m"@
    } else if n == 1 {
        "k"@
    } else if n == 2 {
        "M"@
    } else if n == 3 {
        "G"@
    } else if n == 4 {
        "T"@
    } else if n == 5 {
        "P"@
    } else if n == 6 {
        "E"@
    } else {
        ""@
    }
}

/// The prefix of a unit for a number of thousands.
pub fn prefix(n: i32) -> (text: String)
    ensures
        text@ == prefix_text(n as int),
        text@.len() > 0 ==> is_char_boundary(encode_utf8(text@), 1),
{
    proof {
        reveal_strlit("p");
        reveal_strlit("n");
        reveal_strlit("u");
        reveal_strlit("m");
        reveal_strlit("k");
        reveal_strlit("M");
        reveal_strlit("G");
        reveal_strlit("T");
        reveal_strlit("P");
        reveal_strlit("E");
        reveal_strlit("");
        lemma_letter(prefix_text(n as int));
    }
    if n == -4 {
        "p".to_string()
    } else if n == -3 {
        "n".to_string()
    } else if n == -2 {
        "u".to_string()
    } else if n == -1 {
        "m".to_string()
    } else if n == 1 {
        "k".to_string()
    } else if n == 2 {
        "M".to_string()
    } else if n == 3 {
        "G".to_string()
    } else if n == 4 {
        "T".to_string()
    } else if n == 5 {
        "P".to_string()
    } else if n == 6 {
        "E".to_string()
    } else {
        "".to_string()
    }
}

/// The step of an axis, before it is scaled. `ten` is ten to the power that the plan
/// names.
pub open spec fn raw_step(to: Double, max_steps: int, plan: AxisPlan, ten: Double) -> Double {
    if max_steps != 0 && plan.power is Some {
        quotient(ten, whole(plan.divisor as int))
    } else {
        larger(whole(1), product(whole(10), to))
    }
}

/// The step of an axis.
pub open spec fn axis_step(
    to: Double,
    max_steps: int,
    plan: AxisPlan,
    ten: Double,
    scale: Double,
) -> int {
    let unit = if max_steps != 0 {
        scale
    } else {
        whole(1)
    };
    saturated(
        whole_part(sum(product(raw_step(to, max_steps, plan, ten), unit), half())),
        i32::MIN as int,
        i32::MAX as int,
    )
}

/// Where an axis ends.
pub open spec fn axis_limit(to: Double, max_steps: int, scale: Double) -> Double {
    if max_steps != 0 {
        product(product(to, whole(10)), scale)
    } else {
        product(to, whole(1))
    }
}

/// What is worked out outside for an axis.
#[derive(Clone, Copy, Debug)]
pub struct AxisValues {
    /// The logarithms to base ten of the [`try_arguments`].
    pub logs: [Double; 3],
    /// Ten to the power that the [`plan`] names, where it names one.
    pub ten: Double,
    /// Ten to the [`AxisPlan::scale_exponent`].
    pub scale: Double,
}

/// What the logarithms of the three tries make of an axis.
pub open spec fn plan_of(logs: Seq<Double>) -> AxisPlan {
    let t = tried(logs, 3);
    AxisPlan {
        power: match t.step {
            None => None,
            Some((power, _)) => Some(power),
        },
        divisor: match t.step {
            None => 1,
            Some((_, d)) => d as i32,
        },
        prefix_num: prefix_number(t.bound) as i32,
    }
}

/// The axis that goes to `to` with no more than `max_steps` ticks; with 0, one that
/// has a tick at its start alone.
pub open spec fn axis_of(to: Double, max_steps: int, v: AxisValues) -> AxisView {
    let plan = plan_of(v.logs@);
    AxisView {
        step: axis_step(to, max_steps, plan, v.ten, v.scale),
        limit: axis_limit(to, max_steps, v.scale),
        prefix: if max_steps != 0 {
            prefix_text(plan.prefix_num as int)
        } else {
            prefix_text(0)
        },
    }
}

/// The axis that goes to `to` with no more than `max_steps` ticks; with 0, one that
/// has a tick at its start alone.
pub fn axis(to: Double, max_steps: i32, values: &AxisValues) -> (r: Axis)
    ensures
        r@ == axis_of(to, max_steps as int, *values),
        r.sound(),
{
    let plan = plan(&values.logs);
    let one = Double::from_i64(1);
    let mut step = one.max(Double::from_i64(10).times(to));
    let mut end = to;
    let mut unit = one;
    let mut thousands: i32 = 0;
    if max_steps != 0 {
        end = to.times(Double::from_i64(10));
        if plan.power.is_some() {
            step = values.ten.over(Double::from_i64(plan.divisor as i64));
        }
        unit = values.scale;
        thousands = plan.prefix_num;
    }
    let half_one = one.over(Double::from_i64(2));
    Axis {
        step: step.times(unit).plus(half_one).to_i32(),
        limit: end.times(unit),
        prefix: prefix(thousands),
    }
}

} // verus!
