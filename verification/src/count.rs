//! Counts of tokens as they are shown.
//!
//! A count in thousands or millions is shown with one decimal, as a double-precision
//! quotient prints: the count is rounded to 53 bits, so is the quotient, and the quotient is
//! rounded to tenths; each time to the nearest, and to the even one of two as near.
use vstd::prelude::*;
use vstd::string::*;
use crate::clock;
use crate::clock::{compact_duration, Duration};
use crate::text;
use crate::text::{decimal_text, push_decimal};

verus! {

/// Two to the power of 53: doubles have 53 significant bits.
pub const TWO_53: u128 = 9007199254740992;

/// Two to the power of 52.
pub const TWO_52: u128 = 4503599627370496;

/// The whole number nearest to `num / den`, and the even one of two as near.
pub open spec fn nearest(num: nat, den: nat) -> nat {
    let q = num / den;
    let r = num % den;
    if 2 * r < den || (2 * r == den && q % 2 == 0) {
        q
    } else {
        q + 1
    }
}

/// The double nearest to `v`, among the multiples of `step` from some power of two `step` on.
pub open spec fn as_double(v: nat, step: nat) -> nat
    decreases v - step,
{
    if step == 0 || v < TWO_53 * step {
        nearest(v, step) * step
    } else {
        as_double(v, 2 * step)
    }
}

/// The greatest power of two up to `scale` by which `x / unit` can be multiplied and still be
/// less than `TWO_53`.
pub open spec fn scale_of(x: nat, unit: nat, scale: nat) -> nat
    decreases scale,
{
    if scale <= 1 || x * scale < unit * TWO_53 {
        scale
    } else {
        scale_of(x, unit, scale / 2)
    }
}

/// The tenths of `v / unit`, computed with doubles.
pub open spec fn tenths(v: nat, unit: nat) -> nat {
    let x = as_double(v, 1);
    let scale = scale_of(x, unit, TWO_52 as nat);
    nearest(10 * nearest(x * scale, unit), scale)
}

/// The whole number nearest to `num / den`, and the even one of two as near.
fn nearest_quotient(num: u128, den: u128) -> (r: u128)
    requires
        0 < den < 0x4000_0000_0000_0000_0000_0000_0000_0000,
        num < 0x8000_0000_0000_0000_0000_0000_0000_0000,
    ensures
        r == nearest(num as nat, den as nat),
        r <= num / den + 1,
        r <= num + 1,
{
    let q: u128 = num / den;
    let r: u128 = num % den;
    assert(q <= num) by (nonlinear_arith)
        requires
            q == num / den,
            den > 0,
    ;
    assert(r < den);
    if 2 * r < den || (2 * r == den && q % 2 == 0) {
        q
    } else {
        q + 1
    }
}

/// The double nearest to `v`.
fn double(v: u64) -> (r: u128)
    ensures
        r == as_double(v as nat, 1),
        r <= v + 4096,
{
    let mut step: u128 = 1;
    while v as u128 >= TWO_53 * step
        invariant
            1 <= step <= 4096,
            as_double(v as nat, 1) == as_double(v as nat, step as nat),
        decreases v - step,
    {
        step = step * 2;
    }
    let q = nearest_quotient(v as u128, step);
    assert(q * step <= v + step) by (nonlinear_arith)
        requires
            q <= v as u128 / step + 1,
            step >= 1,
    ;
    q * step
}

/// The tenths of `v / unit`, computed as with doubles.
fn double_tenths(v: u64, unit: u64) -> (r: u128)
    requires
        unit > 0,
    ensures
        r == tenths(v as nat, unit as nat),
{
    let x = double(v);
    let mut scale: u128 = TWO_52;
    assert(x * scale < 0x20_0000_0000_0000_0000_0000_0000_0000) by (nonlinear_arith)
        requires
            x <= u64::MAX + 4096,
            scale == 4503599627370496,
    ;
    assert(unit * TWO_53 < 0x20_0000_0000_0000_0000_0000_0000_0000);
    while scale > 1 && x * scale >= unit as u128 * TWO_53
        invariant
            1 <= scale <= TWO_52,
            x * scale < 0x20_0000_0000_0000_0000_0000_0000_0000,
            unit * TWO_53 < 0x20_0000_0000_0000_0000_0000_0000_0000,
            scale_of(x as nat, unit as nat, TWO_52 as nat) == scale_of(
                x as nat,
                unit as nat,
                scale as nat,
            ),
        decreases scale,
    {
        let half: u128 = scale / 2;
        assert(x * half <= x * scale) by (nonlinear_arith)
            requires
                half <= scale,
        ;
        scale = half;
    }
    let quotient = nearest_quotient(x * scale, unit as u128);
    nearest_quotient(10 * quotient, scale)
}

/// A number of tenths with one decimal.
pub open spec fn with_decimal(tenths: nat) -> Seq<char> {
    text::decimal(tenths / 10) + "."@ + text::decimal(tenths % 10)
}

/// A number of tenths, with a decimal where it is not zero.
pub open spec fn with_telling_decimal(tenths: nat) -> Seq<char> {
    if tenths % 10 == 0 {
        text::decimal(tenths / 10)
    } else {
        with_decimal(tenths)
    }
}

/// A count as it is shown: from a thousand on in `k`, from a million on in `m`, with a
/// decimal where it is not zero.
pub open spec fn counted(value: u64) -> Seq<char> {
    if value >= 1_000_000 {
        with_telling_decimal(tenths(value as nat, 1_000_000)) + "m"@
    } else if value >= 1_000 {
        with_telling_decimal(tenths(value as nat, 1_000)) + "k"@
    } else {
        text::decimal(value as nat)
    }
}

/// The size of a context as it is shown: from a thousand on in `K`, from a million on in
/// `M`, with one decimal.
pub open spec fn sized(value: u64) -> Seq<char> {
    if value >= 1_000_000 {
        with_decimal(tenths(value as nat, 1_000_000)) + "M"@
    } else if value >= 1_000 {
        with_decimal(tenths(value as nat, 1_000)) + "K"@
    } else {
        text::decimal(value as nat)
    }
}

/// A number of tenths with one decimal.
fn decimal_tenths(tenths: u128) -> (r: String)
    ensures
        r@ == with_decimal(tenths as nat),
{
    let mut out = decimal_text(tenths / 10);
    out.append(".");
    push_decimal(&mut out, tenths % 10);
    out
}

/// A count as it is shown.
pub fn compact_count(value: u64) -> (r: String)
    ensures
        r@ == counted(value),
{
    if value < 1_000 {
        return decimal_text(value as u128);
    }
    let millions = value >= 1_000_000;
    let unit: u64 = if millions {
        1_000_000
    } else {
        1_000
    };
    let tenths = double_tenths(value, unit);
    let mut out = if tenths % 10 == 0 {
        decimal_text(tenths / 10)
    } else {
        decimal_tenths(tenths)
    };
    if millions {
        out.append("m");
    } else {
        out.append("k");
    }
    out
}

/// The size of a context as it is shown.
pub fn context_compact(value: u64) -> (r: String)
    ensures
        r@ == sized(value),
{
    if value < 1_000 {
        return decimal_text(value as u128);
    }
    let millions = value >= 1_000_000;
    let unit: u64 = if millions {
        1_000_000
    } else {
        1_000
    };
    let mut out = decimal_tenths(double_tenths(value, unit));
    if millions {
        out.append("M");
    } else {
        out.append("K");
    }
    out
}

// ---------- Context ----------

/// The share of the window that the context takes, in percent, to the nearest; each step of
/// the computation stops at the greatest number.
pub open spec fn percent(context: u64, window: u64) -> nat {
    let hundredfold = if context * 100 <= u64::MAX {
        context * 100
    } else {
        u64::MAX as int
    };
    let sum = if hundredfold + window / 2 <= u64::MAX {
        hundredfold + window / 2
    } else {
        u64::MAX as int
    };
    (sum / (window as int)) as nat
}

/// The account of the context: its size, and its share of the window where that is known.
pub open spec fn context_account(context: u64, window: Option<u64>) -> Seq<char> {
    match window {
        None => "ctx "@ + counted(context),
        Some(window) => "ctx "@ + sized(context) + " ("@ + text::decimal(percent(context, window))
            + "%)"@,
    }
}

/// The account of the context: its size, and its share of the window where that is known.
pub fn context_line(context: u64, window: Option<u64>) -> (r: String)
    requires
        window matches Some(window) ==> window > 0,
    ensures
        r@ == context_account(context, window),
{
    let mut out = "ctx ".to_owned();
    match window {
        None => {
            out.append(compact_count(context).as_str());
        },
        Some(window) => {
            let hundredfold: u64 = match context.checked_mul(100) {
                Some(product) => product,
                None => u64::MAX,
            };
            let percent: u64 = hundredfold.saturating_add(window / 2) / window;
            out.append(context_compact(context).as_str());
            out.append(" (");
            push_decimal(&mut out, percent as u128);
            out.append("%)");
        },
    }
    out
}

// ---------- Usage ----------

/// The tokens that a turn took.
#[derive(Debug, Clone, Copy, PartialEq, Eq, Structural)]
pub struct Usage {
    pub input_tokens: u64,
    pub output_tokens: u64,
    pub total_tokens: u64,
    pub cached_input_tokens: u64,
    pub cache_creation_input_tokens: u64,
    pub tool_use_prompt_tokens: u64,
    pub reasoning_tokens: u64,
}

/// Some number of tokens is known.
pub open spec fn has_values(usage: Usage) -> bool {
    usage.input_tokens > 0 || usage.output_tokens > 0 || usage.total_tokens > 0
        || usage.cached_input_tokens > 0 || usage.cache_creation_input_tokens > 0
        || usage.tool_use_prompt_tokens > 0 || usage.reasoning_tokens > 0
}

/// The account of a turn: its tokens where they are known, and the time it took.
pub open spec fn turn_account(usage: Usage, elapsed: Duration) -> Seq<char> {
    if has_values(usage) {
        "input-total "@ + counted(usage.input_tokens) + " · output-total "@ + counted(
            usage.output_tokens,
        ) + if usage.tool_use_prompt_tokens > 0 {
            " · tool-prompt "@ + counted(usage.tool_use_prompt_tokens)
        } else {
            Seq::empty()
        } + if usage.reasoning_tokens > 0 {
            " · ∵ "@ + counted(usage.reasoning_tokens)
        } else {
            Seq::empty()
        } + " · ⧖ "@ + clock::shown(elapsed)
    } else {
        clock::shown(elapsed)
    }
}

/// The account of a turn.
pub fn usage_summary(usage: &Usage, elapsed: Duration) -> (r: String)
    ensures
        r@ == turn_account(*usage, elapsed),
{
    if usage.input_tokens == 0 && usage.output_tokens == 0 && usage.total_tokens == 0
        && usage.cached_input_tokens == 0 && usage.cache_creation_input_tokens == 0
        && usage.tool_use_prompt_tokens == 0 && usage.reasoning_tokens == 0 {
        return compact_duration(elapsed);
    }
    let mut out = "input-total ".to_owned();
    out.append(compact_count(usage.input_tokens).as_str());
    out.append(" · output-total ");
    out.append(compact_count(usage.output_tokens).as_str());
    let ghost head = out@;
    if usage.tool_use_prompt_tokens > 0 {
        out.append(" · tool-prompt ");
        out.append(compact_count(usage.tool_use_prompt_tokens).as_str());
        assert(out@ =~= head + (" · tool-prompt "@ + counted(usage.tool_use_prompt_tokens)));
    } else {
        assert(out@ =~= head + Seq::empty());
    }
    let ghost head = out@;
    if usage.reasoning_tokens > 0 {
        out.append(" · ∵ ");
        out.append(compact_count(usage.reasoning_tokens).as_str());
        assert(out@ =~= head + (" · ∵ "@ + counted(usage.reasoning_tokens)));
    } else {
        assert(out@ =~= head + Seq::empty());
    }
    out.append(" · ⧖ ");
    out.append(compact_duration(elapsed).as_str());
    out
}

// ---------- Laws ----------

/// What is nearest to a quotient is at most half away from it.
proof fn lemma_nearest(num: nat, den: nat)
    requires
        den > 0,
    ensures
        2 * (nearest(num, den) * den) <= 2 * num + den,
        2 * num <= 2 * (nearest(num, den) * den) + den,
{
    let q = num / den;
    let r = num % den;
    vstd::arithmetic::div_mod::lemma_fundamental_div_mod(num as int, den as int);
    assert(den * q + r == num);
    assert((q + 1) * den == den * q + den) by (nonlinear_arith);
    assert(q * den == den * q) by (nonlinear_arith);
}

proof fn lemma_scale(x: nat, unit: nat, scale: nat)
    requires
        x < TWO_53,
        unit >= 1_000,
        scale >= 11,
    ensures
        scale_of(x, unit, scale) >= 11,
    decreases scale,
{
    if !(x * scale < unit * TWO_53) {
        assert(scale >= 22) by (nonlinear_arith)
            requires
                x < TWO_53,
                unit >= 1_000,
                x * scale >= unit * TWO_53,
        ;
        lemma_scale(x, unit, scale / 2);
    }
}

/// The tenths that are shown are less than a tenth away from the count, in its unit, where the
/// count is one of those that are told apart.
pub proof fn tenths_are_near(v: nat, unit: nat)
    requires
        v < TWO_53,
        unit >= 1_000,
    ensures
        10 * v < tenths(v, unit) * unit + unit,
        tenths(v, unit) * unit < 10 * v + unit,
{
    let x = as_double(v, 1);
    lemma_nearest(v, 1);
    assert(x == v) by {
        assert(v % 1 == 0 && v / 1 == v);
    }
    let scale = scale_of(x, unit, TWO_52 as nat);
    lemma_scale(x, unit, TWO_52 as nat);
    let q = nearest(x * scale, unit);
    let t = nearest(10 * q, scale);
    lemma_nearest(x * scale, unit);
    lemma_nearest(10 * q, scale);
    assert(10 * v < t * unit + unit && t * unit < 10 * v + unit) by (nonlinear_arith)
        requires
            x == v,
            scale >= 11,
            unit > 0,
            2 * (q * unit) <= 2 * (x * scale) + unit,
            2 * (x * scale) <= 2 * (q * unit) + unit,
            2 * (t * scale) <= 2 * (10 * q) + scale,
            2 * (10 * q) <= 2 * (t * scale) + scale,
    {
        // Both in units of `scale * unit`.
        let w = t * unit;
        assert((t * scale) * unit == w * scale);
        assert(2 * (w * scale) <= 2 * 10 * (q * unit) + scale * unit);
        assert(2 * 10 * (q * unit) <= 2 * (w * scale) + scale * unit);
        assert(2 * (w * scale) <= 20 * (x * scale) + 10 * unit + scale * unit);
        assert(20 * (x * scale) <= 2 * (w * scale) + 10 * unit + scale * unit);
        assert(10 * unit < scale * unit);
        assert((w - 10 * v - unit) * scale < 0);
        assert((10 * v - w - unit) * scale < 0);
    }
}

/// `text` tells `tenths` with `mark` behind: the tenth is left out where it is zero and
/// `short` is asked for.
pub open spec fn tells_count(
    text: Seq<char>,
    whole: nat,
    tenth: nat,
    mark: Seq<char>,
    short: bool,
) -> bool {
    tenth < 10 && text == text::decimal(whole) + (if short && tenth == 0 {
        Seq::empty()
    } else {
        "."@ + text::decimal(tenth)
    }) + mark
}

/// `whole` and `tenth` are less than a tenth away from `value`, in `unit`.
pub open spec fn is_near(value: nat, whole: nat, tenth: nat, unit: nat) -> bool {
    10 * value < (10 * whole + tenth) * unit + unit && (10 * whole + tenth) * unit < 10 * value
        + unit
}

/// A count is told as it is below a thousand, and to less than a tenth in thousands or millions
/// from there on; a size as well, with its decimal in any case.
pub proof fn counts_are_told_to_the_tenth(value: u64)
    requires
        value < TWO_53,
    ensures
        value < 1_000 ==> counted(value) == text::decimal(value as nat) && sized(value) == text::decimal(
            value as nat,
        ),
        1_000 <= value < 1_000_000 ==> exists|whole: nat, tenth: nat| #[trigger]
            tells_count(counted(value), whole, tenth, "k"@, true) && tells_count(
                sized(value),
                whole,
                tenth,
                "K"@,
                false,
            ) && is_near(value as nat, whole, tenth, 1_000),
        1_000_000 <= value ==> exists|whole: nat, tenth: nat| #[trigger]
            tells_count(counted(value), whole, tenth, "m"@, true) && tells_count(
                sized(value),
                whole,
                tenth,
                "M"@,
                false,
            ) && is_near(value as nat, whole, tenth, 1_000_000),
{
    if value >= 1_000 {
        let unit: nat = if value >= 1_000_000 {
            1_000_000
        } else {
            1_000
        };
        let small = if value >= 1_000_000 {
            "m"@
        } else {
            "k"@
        };
        let large = if value >= 1_000_000 {
            "M"@
        } else {
            "K"@
        };
        let t = tenths(value as nat, unit);
        tenths_are_near(value as nat, unit);
        let whole = t / 10;
        let tenth = t % 10;
        assert(10 * whole + tenth == t);
        assert(text::decimal(whole) + Seq::empty() + small =~= text::decimal(whole) + small);
        assert(text::decimal(whole) + ("."@ + text::decimal(tenth)) + small =~= text::decimal(whole) + "."@ + text::decimal(
            tenth,
        ) + small);
        assert(text::decimal(whole) + ("."@ + text::decimal(tenth)) + large =~= text::decimal(whole) + "."@ + text::decimal(
            tenth,
        ) + large);
        assert(tells_count(counted(value), whole, tenth, small, true));
        assert(tells_count(sized(value), whole, tenth, large, false));
    }
}

/// The share of the window is told to the nearest percent.
pub proof fn shares_are_told_to_the_nearest_percent(context: u64, window: u64)
    requires
        window > 0,
        context * 100 + window / 2 <= u64::MAX,
    ensures
        percent(context, window) * window <= context * 100 + window / 2 < (percent(context, window)
            + 1) * window,
        2 * percent(context, window) * window <= 200 * context + window,
        200 * context < 2 * percent(context, window) * window + window + 1,
{
    let sum = context * 100 + window / 2;
    let p = percent(context, window) as int;
    let w = window as int;
    vstd::arithmetic::div_mod::lemma_fundamental_div_mod(sum, w);
    assert(p == sum / w);
    assert(w * p + sum % w == sum);
    assert(p * w == w * p && (p + 1) * w == w * p + w && 2 * p * w == 2 * (w * p))
        by (nonlinear_arith);
}

/// The account of the context tells its size, and its share of the window where that is known.
pub proof fn context_accounts_tell_size_and_share(context: u64, window: Option<u64>)
    ensures
        window is None ==> text::holds_in_order(context_account(context, window), seq![counted(context)]),
        window matches Some(window) ==> text::holds_in_order(
            context_account(context, Some(window)),
            seq![sized(context), text::decimal(percent(context, window))],
        ),
{
    let start = Seq::<char>::empty();
    let none = Seq::<Seq<char>>::empty();
    text::lemma_holds_itself(start);
    match window {
        None => {
            text::lemma_holds_next(start, "ctx "@, counted(context), none);
            assert(start + "ctx "@ + counted(context) =~= "ctx "@ + counted(context));
            assert(none.push(counted(context)) =~= seq![counted(context)]);
        },
        Some(window) => {
            let share = text::decimal(percent(context, window));
            text::lemma_holds_next(start, "ctx "@, sized(context), none);
            let a = start + "ctx "@ + sized(context);
            text::lemma_holds_next(a, " ("@, share, none.push(sized(context)));
            text::lemma_holds_before(a + " ("@ + share, "%)"@, none.push(sized(context)).push(share));
            assert(context_account(context, Some(window)) =~= a + " ("@ + share + "%)"@);
            assert(none.push(sized(context)).push(share) =~= seq![sized(context), share]);
        },
    }
}

/// What the account of a turn has to say: the tokens in and out, those of prompts of tools and
/// of reasoning where there are any, and the time.
pub open spec fn turn_pieces(usage: Usage, elapsed: Duration) -> Seq<Seq<char>> {
    let tokens = seq![counted(usage.input_tokens), counted(usage.output_tokens)];
    let prompts = if usage.tool_use_prompt_tokens > 0 {
        tokens.push(counted(usage.tool_use_prompt_tokens))
    } else {
        tokens
    };
    let reasoning = if usage.reasoning_tokens > 0 {
        prompts.push(counted(usage.reasoning_tokens))
    } else {
        prompts
    };
    reasoning.push(clock::shown(elapsed))
}

/// The account of a turn tells its tokens, where any are known, and its time.
pub proof fn turn_accounts_tell_tokens_and_time(usage: Usage, elapsed: Duration)
    ensures
        has_values(usage) ==> text::holds_in_order(
            turn_account(usage, elapsed),
            turn_pieces(usage, elapsed),
        ),
        !has_values(usage) ==> turn_account(usage, elapsed) == clock::shown(elapsed),
{
    if has_values(usage) {
        let start = Seq::<char>::empty();
        let none = Seq::<Seq<char>>::empty();
        text::lemma_holds_itself(start);
        let input = counted(usage.input_tokens);
        let output = counted(usage.output_tokens);
        text::lemma_holds_next(start, "input-total "@, input, none);
        let a = start + "input-total "@ + input;
        text::lemma_holds_next(a, " · output-total "@, output, none.push(input));
        let b = a + " · output-total "@ + output;
        let p = none.push(input).push(output);
        assert(p =~= seq![input, output]);
        let prompt = counted(usage.tool_use_prompt_tokens);
        let c = if usage.tool_use_prompt_tokens > 0 {
            b + " · tool-prompt "@ + prompt
        } else {
            b
        };
        let q = if usage.tool_use_prompt_tokens > 0 {
            p.push(prompt)
        } else {
            p
        };
        text::lemma_holds_next(b, " · tool-prompt "@, prompt, p);
        let thought = counted(usage.reasoning_tokens);
        let d = if usage.reasoning_tokens > 0 {
            c + " · ∵ "@ + thought
        } else {
            c
        };
        let r = if usage.reasoning_tokens > 0 {
            q.push(thought)
        } else {
            q
        };
        text::lemma_holds_next(c, " · ∵ "@, thought, q);
        text::lemma_holds_next(d, " · ⧖ "@, clock::shown(elapsed), r);
        assert(turn_account(usage, elapsed) =~= d + " · ⧖ "@ + clock::shown(elapsed));
    }
}

} // verus!
