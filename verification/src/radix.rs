//! Radix sort of non-negative integers: one stable counting pass per digit,
//! from the least significant digit up.

use vstd::prelude::*;
use vstd::relations::sorted_by;
use vstd::arithmetic::div_mod::{lemma_mod_breakdown, lemma_small_mod};
use vstd::arithmetic::power::{lemma0_pow, lemma1_pow, lemma_pow_increases, lemma_pow_positive, pow};
use crate::counting::{by_key, counting_sort, extracts};
use crate::order::{keeps_ties, lemma_tied_in_order, tied_with};
use crate::sequences::{lemma_all_rearranged, lemma_rearranged_length};

verus! {

/// The failure of a sort whose input holds a number of more digits than asked for.
pub const ELEMENT_OVERFLOW: &'static str = "Element overflow!";

/// The failure of a sort whose digit count is more than the machine word holds.
pub const BOUND_OVERFLOW: &'static str = "Max value overflow!";

/// Ascending order of numbers.
pub open spec fn ascending() -> spec_fn(usize, usize) -> bool {
    |a: usize, b: usize| a <= b
}

/// The order of the digits below `weight`.
pub open spec fn by_low_digits(weight: int) -> spec_fn(usize, usize) -> bool {
    |a: usize, b: usize| a as int % weight <= b as int % weight
}

/// The digit of weight `weight` in the numeral of radix `scale`.
pub open spec fn digit(weight: int, scale: int) -> spec_fn(usize) -> usize {
    |e: usize| ((e as int / weight) % scale) as usize
}

/// The least number that has more than `max_bit` digits in radix `scale`.
pub open spec fn digit_bound(scale: usize, max_bit: u32) -> int {
    pow(scale as int, max_bit as nat)
}

/// Some entry is not less than `bound`.
pub open spec fn overflows(s: Seq<usize>, bound: int) -> bool {
    exists|i: int| 0 <= i < s.len() && #[trigger] s[i] >= bound
}

/// How a power grows by one factor.
pub proof fn lemma_pow_next(b: int, e: nat)
    ensures
        pow(b, 0) == 1,
        pow(b, e + 1) == b * pow(b, e),
{
    reveal(pow);
    assert(pow(b, e + 1) == b * pow(b, ((e + 1) - 1) as nat));
}

/// `base` to the power `exp`, if the machine word holds it.
pub fn checked_power(base: usize, exp: u32) -> (res: Option<usize>)
    ensures
        res matches Some(p) ==> p == pow(base as int, exp as nat),
        res is None ==> pow(base as int, exp as nat) > usize::MAX,
{
    proof {
        lemma_pow_next(base as int, 0);
    }
    if base == 0 {
        proof {
            if exp > 0 {
                lemma0_pow(exp as nat);
            }
        }
        return Some(if exp == 0 { 1 } else { 0 });
    }
    if base == 1 {
        proof {
            lemma1_pow(exp as nat);
        }
        return Some(1);
    }
    let mut acc: usize = 1;
    let mut done: u32 = 0;
    while done < exp
        invariant
            base >= 2,
            done <= exp,
            acc == pow(base as int, done as nat),
        decreases exp - done,
    {
        proof {
            lemma_pow_next(base as int, done as nat);
        }
        match acc.checked_mul(base) {
            Some(next) => {
                assert(next == base * acc) by (nonlinear_arith)
                    requires
                        next == acc * base,
                ;
                acc = next;
            },
            None => {
                proof {
                    assert(base * acc == acc * base) by (nonlinear_arith);
                    lemma_pow_increases(base as nat, (done + 1) as nat, exp as nat);
                }
                return None;
            },
        }
        done += 1;
    }
    Some(acc)
}

/// A stable pass by the next digit turns the order of the digits below
/// `weight` into the order of the digits below `weight * scale`.
proof fn lemma_pass(input: Seq<usize>, out: Seq<usize>, weight: int, scale: int)
    requires
        weight > 0,
        0 < scale <= usize::MAX,
        sorted_by(input, by_low_digits(weight)),
        sorted_by(out, by_key(digit(weight, scale))),
        keeps_ties(by_key(digit(weight, scale)), input, out),
    ensures
        sorted_by(out, by_low_digits(weight * scale)),
{
    let key = digit(weight, scale);
    let low = by_low_digits(weight);
    let next = by_low_digits(weight * scale);
    assert forall|i: int, j: int| 0 <= i < j < out.len() implies #[trigger] next(out[i], out[j]) by {
        let a = out[i] as int;
        let b = out[j] as int;
        lemma_mod_breakdown(a, weight, scale);
        lemma_mod_breakdown(b, weight, scale);
        let da = (a / weight) % scale;
        let db = (b / weight) % scale;
        assert(0 <= da < scale && 0 <= db < scale && 0 <= a / weight && 0 <= b / weight
            && 0 <= a % weight < weight && 0 <= b % weight < weight) by (nonlinear_arith)
            requires
                weight > 0,
                scale > 0,
                a >= 0,
                b >= 0,
                da == (a / weight) % scale,
                db == (b / weight) % scale,
        ;
        assert(key(out[i]) == da && key(out[j]) == db);
        assert(by_key(key)(out[i], out[j]));
        if da < db {
            assert(weight * da + weight <= weight * db) by (nonlinear_arith)
                requires
                    da < db,
                    weight > 0,
            ;
        } else {
            let pred = tied_with(by_key(key), out[i]);
            assert(pred(out[i]) && pred(out[j]));
            assert(out.filter(pred) == input.filter(pred));
            lemma_tied_in_order(low, input, out, pred, i, j);
        }
    }
}

/// A filter that keeps the copies of one value keeps as many as there are.
proof fn lemma_copies<T>(s: Seq<T>, pred: spec_fn(T) -> bool, x: T)
    requires
        forall|y: T| #[trigger] pred(y) <==> y == x,
    ensures
        s.filter(pred).len() == s.to_multiset().count(x),
        forall|m: int| 0 <= m < s.filter(pred).len() ==> #[trigger] s.filter(pred)[m] == x,
    decreases s.len(),
{
    broadcast use vstd::seq_lib::group_to_multiset_ensures;

    reveal(Seq::filter);
    if s.len() == 0 {
        assert(s.to_multiset().len() == 0);
    } else {
        lemma_copies(s.drop_last(), pred, x);
        assert(s =~= s.drop_last().push(s.last()));
        assert(s.to_multiset() == s.drop_last().to_multiset().insert(s.last()));
    }
}

/// Equal numbers cannot be told apart: every rearrangement of numbers
/// keeps the ties of their order.
pub proof fn lemma_number_ties(input: Seq<usize>, out: Seq<usize>)
    requires
        input.to_multiset() == out.to_multiset(),
    ensures
        keeps_ties(ascending(), input, out),
{
    assert forall|x: usize| #[trigger]
        out.filter(tied_with(ascending(), x)) == input.filter(tied_with(ascending(), x)) by {
        let pred = tied_with(ascending(), x);
        lemma_copies(input, pred, x);
        lemma_copies(out, pred, x);
        assert(out.filter(pred) =~= input.filter(pred));
    }
}

/// Sorts numbers of at most `max_bit` digits in radix `scale` into
/// ascending order. Fails, before anything is moved, when `scale` to the
/// power `max_bit` does not fit the machine word, and when a number has
/// more digits than that.
pub fn radix_sort(arr: Vec<usize>, scale: usize, max_bit: u32) -> (res: Result<
    Vec<usize>,
    &'static str,
>)
    ensures
        digit_bound(scale, max_bit) > usize::MAX ==> res == Err::<Vec<usize>, &'static str>(
            BOUND_OVERFLOW,
        ),
        digit_bound(scale, max_bit) <= usize::MAX && overflows(arr@, digit_bound(scale, max_bit))
            ==> res == Err::<Vec<usize>, &'static str>(ELEMENT_OVERFLOW),
        digit_bound(scale, max_bit) <= usize::MAX && !overflows(arr@, digit_bound(scale, max_bit))
            ==> res is Ok,
        res matches Ok(out) ==> {
            &&& out@.to_multiset() == arr@.to_multiset()
            &&& out@.len() == arr@.len()
            &&& sorted_by(out@, ascending())
            &&& keeps_ties(ascending(), arr@, out@)
            &&& arr@.len() <= 1 ==> out@ == arr@
        },
{
    let ghost items = arr@;
    let ghost bound = pow(scale as int, max_bit as nat);
    let max_value = match checked_power(scale, max_bit) {
        Some(value) => value,
        None => {
            return Err(BOUND_OVERFLOW);
        },
    };
    let n: usize = arr.len();
    let mut i: usize = 0;
    while i < n
        invariant
            n == arr@.len(),
            i <= n,
            max_value == pow(scale as int, max_bit as nat),
            forall|j: int| 0 <= j < i ==> #[trigger] arr@[j] < max_value,
        decreases n - i,
    {
        if arr[i] >= max_value {
            return Err(ELEMENT_OVERFLOW);
        }
        i += 1;
    }
    if scale == 0 {
        proof {
            lemma_pow_next(0, 0);
            if max_bit > 0 {
                lemma0_pow(max_bit as nat);
            }
            assert forall|a: int, b: int| 0 <= a < b < items.len() implies #[trigger] ascending()(
                items[a],
                items[b],
            ) by {
                assert(items[a] < max_value && items[b] < max_value);
            }
            lemma_number_ties(items, items);
        }
        return Ok(arr);
    }
    let mut result = arr;
    let mut weight: usize = 1;
    let mut bit: u32 = 0;
    proof {
        lemma_pow_next(scale as int, 0);
        assert forall|a: int, b: int| 0 <= a < b < items.len() implies #[trigger] by_low_digits(1)(
            items[a],
            items[b],
        ) by {
            assert(items[a] as int % 1 == 0 && items[b] as int % 1 == 0);
        }
    }
    while bit < max_bit
        invariant
            scale > 0,
            bit <= max_bit,
            max_value == pow(scale as int, max_bit as nat),
            weight == pow(scale as int, bit as nat),
            weight > 0,
            result@.to_multiset() == items.to_multiset(),
            items.len() <= 1 ==> result@ == items,
            sorted_by(result@, by_low_digits(weight as int)),
        decreases max_bit - bit,
    {
        let ghost before = result@;
        let ghost key = digit(weight as int, scale as int);
        let digit_of = |e: &usize| -> (k: usize)
            ensures
                k == (*e as int / weight as int) % (scale as int),
            { (*e / weight) % scale };
        proof {
            assert(extracts(digit_of, key));
            assert forall|j: int| 0 <= j < before.len() implies #[trigger] key(before[j]) < scale by {
                let e = before[j] as int;
                assert(0 <= (e / weight as int) % (scale as int) < scale) by (nonlinear_arith)
                    requires
                        e >= 0,
                        weight > 0,
                        scale > 0,
                ;
            }
        }
        match counting_sort(result, scale, digit_of) {
            Ok(sorted) => {
                result = sorted;
            },
            Err(message) => {
                proof {
                    assert(exists|j: int| 0 <= j < before.len() && #[trigger] key(before[j]) >= scale);
                    assert(false);
                }
                return Err(message);
            },
        }
        proof {
            lemma_pass(before, result@, weight as int, scale as int);
            lemma_pow_next(scale as int, bit as nat);
            lemma_pow_increases(scale as nat, (bit + 1) as nat, max_bit as nat);
            assert(weight * scale == scale * weight) by (nonlinear_arith);
            lemma_pow_positive(scale as int, (bit + 1) as nat);
        }
        weight = weight * scale;
        bit += 1;
    }
    proof {
        let below_bound = |e: usize| e < max_value;
        lemma_number_ties(items, result@);
        lemma_rearranged_length(items, result@);
        lemma_all_rearranged(items, result@, below_bound);
        assert forall|a: int, b: int| 0 <= a < b < result@.len() implies #[trigger] ascending()(
            result@[a],
            result@[b],
        ) by {
            assert(below_bound(result@[a]) && below_bound(result@[b]));
            lemma_small_mod(result@[a] as nat, max_value as nat);
            lemma_small_mod(result@[b] as nat, max_value as nat);
            assert(by_low_digits(max_value as int)(result@[a], result@[b]));
        }
    }
    Ok(result)
}

} // verus!
