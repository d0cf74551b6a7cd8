//! How values are shown: numbers with their trailing zeros trimmed, lists
//! in brackets, quantities with their unit.
use crate::chars::{chars_of, string_from_range};
use crate::eval::{Arithmetic, Value};
use crate::lexer::{concat3, text};
use vstd::prelude::*;

verus! {

broadcast use vstd::seq::group_seq_axioms;

/// `[a, b, ...]` from the formatted items.
pub open spec fn bracketed(parts: Seq<Seq<char>>) -> Seq<char> {
    "["@ + joined(parts) + "]"@
}

/// The parts separated by `", "`.
pub open spec fn joined(parts: Seq<Seq<char>>) -> Seq<char>
    decreases parts.len(),
{
    if parts.len() == 0 {
        Seq::empty()
    } else if parts.len() == 1 {
        parts[0]
    } else {
        joined(parts.drop_last()) + ", "@ + parts.last()
    }
}

/// `t` without its trailing zeros when it holds a `.`.
pub open spec fn trim_zeros(t: Seq<char>) -> Seq<char>
    decreases t.len(),
{
    if t.len() > 0 && t.contains('.') && t.last() == '0' {
        trim_zeros(t.drop_last())
    } else {
        t
    }
}

/// A decimal text without trailing zeros after its point, nor a trailing point.
pub open spec fn trim_decimal(t: Seq<char>) -> Seq<char> {
    let z = trim_zeros(t);
    if z.len() > 0 && z.last() == '.' {
        z.drop_last()
    } else {
        z
    }
}

/// Drops the zeros that end the decimals of `fixed`, and then a final `.`.
pub fn trim_decimal_text(fixed: &str) -> (s: String)
    ensures
        s@ == trim_decimal(fixed@),
{
    let chars = crate::chars::chars_of(fixed);
    let ghost t = chars@;
    let mut d: usize = 0;
    while d < chars.len() && chars[d] != '.'
        invariant
            t == chars@,
            d <= chars.len(),
            forall|k: int| 0 <= k < d ==> t[k] != '.',
        decreases chars.len() - d,
    {
        d = d + 1;
    }
    let mut e: usize = chars.len();
    if d < chars.len() {
        assert(t.take(e as int) =~= t);
        while e > 0 && chars[e - 1] == '0'
            invariant
                t == chars@,
                d < e <= chars.len(),
                t[d as int] == '.',
                trim_zeros(t) == trim_zeros(t.take(e as int)),
            decreases e,
        {
            proof {
                assert(t.take(e as int).contains('.')) by {
                    assert(t.take(e as int)[d as int] == '.');
                }
                assert(t.take(e as int).drop_last() =~= t.take(e - 1));
            }
            e = e - 1;
        }
        proof {
            assert(t.take(e as int).last() != '0');
        }
    } else {
        assert(!t.contains('.')) by {
            if t.contains('.') {
                let k = choose|k: int| 0 <= k < t.len() && t[k] == '.';
            }
        }
        assert(t.take(e as int) =~= t);
    }
    assert(trim_zeros(t) == t.take(e as int));
    if e > 0 && chars[e - 1] == '.' {
        e = e - 1;
    }
    crate::chars::string_from_range(&chars, 0, e)
}

/// Formats a list from its formatted items.
pub fn format_list(parts: &Vec<String>) -> (s: String)
    ensures
        s@ == bracketed(parts@.map_values(|p: String| p@)),
{
    let ghost views = parts@.map_values(|p: String| p@);
    let mut s = text("[");
    let mut i: usize = 0;
    while i < parts.len()
        invariant
            views == parts@.map_values(|p: String| p@),
            i <= parts.len(),
            s@ == "["@ + joined(views.take(i as int)),
        decreases parts.len() - i,
    {
        if i > 0 {
            s.append(", ");
        }
        s.append(parts[i].as_str());
        proof {
            assert(views.take(i + 1).drop_last() =~= views.take(i as int));
            if i == 0 {
                assert(joined(views.take(0)) =~= Seq::<char>::empty());
                assert(views.take(1)[0] == parts@[0]@);
            }
        }
        i = i + 1;
    }
    assert(views.take(parts.len() as int) =~= views);
    s.append("]");
    s
}

/// Formats a quantity from its formatted amount.
pub fn format_quantity(amount: &str, unit: &str) -> (s: String)
    ensures
        s@ == amount@ + " "@ + unit@,
{
    concat3(amount, " ", unit)
}

/// The text a number is shown as: its fixed ten-decimal text without the
/// trailing zeros of its decimals, nor a trailing point.
pub open spec fn number_text<A: Arithmetic>(number: A::Num) -> Seq<char> {
    trim_decimal(A::spec_format_fixed(number))
}

/// The text a value is shown as: a number as trimmed decimals, a list as
/// `[a, b, ...]`, a quantity as its amount, a space and its unit.
pub open spec fn value_text<A: Arithmetic>(value: Value<A::Num>) -> Seq<char> {
    match value {
        Value::Number(number) => number_text::<A>(number),
        Value::List(items) => bracketed(items@.map_values(|n: A::Num| number_text::<A>(n))),
        Value::Quantity { value, unit } => number_text::<A>(value) + " "@ + unit@,
    }
}

/// The text a number is shown as: ten decimals at most, without trailing
/// zeros.
pub fn format_number<A: Arithmetic>(arithmetic: &A, number: A::Num) -> (s: String)
    ensures
        s@ == number_text::<A>(number),
{
    let fixed = arithmetic.format_fixed(number);
    trim_decimal_text(fixed.as_str())
}

/// The text `value` is shown as.
pub fn format_value<A: Arithmetic>(arithmetic: &A, value: &Value<A::Num>) -> (s: String)
    ensures
        s@ == value_text::<A>(*value),
{
    match value {
        Value::Number(number) => format_number(arithmetic, *number),
        Value::List(items) => {
            let mut parts: Vec<String> = Vec::new();
            let mut i: usize = 0;
            while i < items.len()
                invariant
                    i <= items.len(),
                    parts.len() == i,
                    forall|k: int| 0 <= k < i ==> (#[trigger] parts@[k])@ == number_text::<A>(items@[k]),
                decreases items.len() - i,
            {
                parts.push(format_number(arithmetic, items[i]));
                i = i + 1;
            }
            let s = format_list(&parts);
            assert(parts@.map_values(|p: String| p@) =~= items@.map_values(|n: A::Num| number_text::<A>(n)));
            s
        },
        Value::Quantity { value, unit } => {
            let amount = format_number(arithmetic, *value);
            format_quantity(amount.as_str(), unit.as_str())
        },
    }
}

} // verus!
