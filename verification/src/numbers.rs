//! Integers in text: decimal reading and writing of `i32`, and folding a
//! sequence of values into one.

use vstd::prelude::*;
use crate::text::push_char;

verus! {

/// An ASCII decimal digit.
pub open spec fn is_digit(c: char) -> bool {
    '0' <= c <= '9'
}

/// The number of a digit.
pub open spec fn digit_value(c: char) -> int {
    c as int - '0' as int
}

/// The digit of a number below ten.
pub open spec fn digit_char(d: nat) -> char
    recommends
        d < 10,
{
    (d + '0' as nat) as char
}

/// The number that a string of decimal digits writes.
pub open spec fn digits_value(s: Seq<char>) -> int
    decreases s.len(),
{
    if s.len() == 0 {
        0
    } else {
        digits_value(s.drop_last()) * 10 + digit_value(s.last())
    }
}

/// Every character is a decimal digit.
pub open spec fn all_digits(ds: Seq<char>) -> bool {
    forall|i: int| 0 <= i < ds.len() ==> is_digit(#[trigger] ds[i])
}

/// Whether the text starts with a sign.
pub open spec fn has_sign(s: Seq<char>) -> bool {
    s.len() > 0 && (s[0] == '-' || s[0] == '+')
}

/// The text after its sign, if any.
pub open spec fn unsigned_part(s: Seq<char>) -> Seq<char> {
    if has_sign(s) { s.drop_first() } else { s }
}

/// What `str::parse::<i32>` gives: an optional `+` or `-`, then one or more
/// decimal digits whose value, with its sign, is an `i32`; anything else is
/// no number.
pub open spec fn parse_i32_spec(s: Seq<char>) -> Option<i32> {
    let ds = unsigned_part(s);
    if ds.len() == 0 || !all_digits(ds) {
        None
    } else {
        let v = if s[0] == '-' { -digits_value(ds) } else { digits_value(ds) };
        if i32::MIN <= v <= i32::MAX { Some(v as i32) } else { None }
    }
}

/// The decimal digits of a natural number, without leading zeros.
pub open spec fn nat_digits(n: nat) -> Seq<char>
    decreases n,
{
    if n < 10 {
        seq![digit_char(n)]
    } else {
        nat_digits(n / 10).push(digit_char(n % 10))
    }
}

/// How `i32::to_string` writes a number: a `-` for negative numbers, then the
/// digits of its magnitude.
pub open spec fn i32_decimal(x: i32) -> Seq<char> {
    if x < 0 {
        seq!['-'] + nat_digits((-x) as nat)
    } else {
        nat_digits(x as nat)
    }
}

/// A magnitude, or the first number above every `i32` magnitude if it is larger.
spec fn min_cap(v: int) -> int {
    if v < 2147483649 { v } else { 2147483649 }
}

/// Reads an `i32` written in decimal, with an optional sign, as
/// `str::parse::<i32>` does.
pub fn parse_i32(s: &str) -> (r: Option<i32>)
    ensures
        r == parse_i32_spec(s@),
{
    let chars = crate::text::chars_of(s);
    let n = chars.len();
    let mut i: usize = 0;
    let mut neg = false;
    if n > 0 && (chars[0] == '-' || chars[0] == '+') {
        neg = chars[0] == '-';
        i = 1;
    }
    let ghost ds = if i == 1 { s@.drop_first() } else { s@ };
    assert(ds =~= s@.skip(i as int));
    if i == n {
        return None;
    }
    let start = i;
    let mut acc: i64 = 0;
    while i < n
        invariant
            chars@ == s@,
            n == s@.len(),
            start <= i <= n,
            ds == s@.skip(start as int),
            ds == unsigned_part(s@),
            neg == (s@.len() > 0 && s@[0] == '-'),
            forall|j: int| start <= j < i ==> is_digit(#[trigger] chars@[j]),
            acc == min_cap(digits_value(ds.take(i - start))),
            0 <= acc <= 2147483649,
        decreases n - i,
    {
        let c = chars[i];
        if !('0' <= c && c <= '9') {
            proof {
                let k = i - start;
                assert(ds[k] == c);
                assert(!is_digit(ds[k]));
                assert(!all_digits(ds));
            }
            return None;
        }
        let d = (c as u32 - '0' as u32) as i64;
        proof {
            let t = ds.take(i + 1 - start);
            assert(t.drop_last() =~= ds.take(i - start));
            assert(t.last() == c);
            assert(digits_value(ds.take(i - start)) >= 0) by {
                lemma_digits_value_nonneg(ds.take(i - start));
            }
        }
        let next = acc * 10 + d;
        acc = if next > 2147483649 { 2147483649 } else { next };
        i = i + 1;
    }
    assert(ds.take(n - start) =~= ds);
    assert(all_digits(ds)) by {
        assert forall|j: int| 0 <= j < ds.len() implies is_digit(#[trigger] ds[j]) by {
            assert(ds[j] == chars@[j + start]);
        }
    }
    if neg {
        if acc <= 2147483648 {
            Some((-acc) as i32)
        } else {
            None
        }
    } else {
        if acc <= 2147483647 {
            Some(acc as i32)
        } else {
            None
        }
    }
}

proof fn lemma_digits_value_nonneg(s: Seq<char>)
    requires
        forall|i: int| 0 <= i < s.len() ==> is_digit(#[trigger] s[i]),
    ensures
        digits_value(s) >= 0,
    decreases s.len(),
{
    if s.len() > 0 {
        lemma_digits_value_nonneg(s.drop_last());
        assert(is_digit(s[s.len() - 1]));
    }
}

/// The digit that writes a number below ten.
fn digit_to_char(d: u64) -> (c: char)
    requires
        d < 10,
    ensures
        c == digit_char(d as nat),
{
    ((d as u8) + 48u8) as char
}

/// Writes an `i32` in decimal, as `i32::to_string` does.
pub fn i32_to_string(x: i32) -> (r: String)
    ensures
        r@ == i32_decimal(x),
{
    let neg = x < 0;
    let mut m: u64 = if neg { (0i64 - x as i64) as u64 } else { x as u64 };
    let ghost n0: nat = m as nat;
    let mut tail: Vec<char> = Vec::new();
    while m >= 10
        invariant
            nat_digits(n0) == nat_digits(m as nat) + tail@,
        decreases m,
    {
        let c = digit_to_char(m % 10);
        proof {
            assert(nat_digits(m as nat) == nat_digits((m / 10) as nat).push(c));
        }
        tail.insert(0, c);
        m = m / 10;
        assert(nat_digits(n0) =~= nat_digits(m as nat) + tail@);
    }
    let mut r = String::new();
    if neg {
        push_char(&mut r, '-');
    }
    push_char(&mut r, digit_to_char(m));
    let ghost head = r@;
    let n = tail.len();
    let mut i: usize = 0;
    while i < n
        invariant
            n == tail@.len(),
            i <= n,
            r@ == head + tail@.take(i as int),
        decreases n - i,
    {
        push_char(&mut r, tail[i]);
        i = i + 1;
        assert(r@ =~= head + tail@.take(i as int));
    }
    assert(tail@.take(n as int) =~= tail@);
    assert(r@ =~= i32_decimal(x));
    r
}

proof fn lemma_digit_char(d: nat)
    requires
        d < 10,
    ensures
        is_digit(digit_char(d)),
        digit_value(digit_char(d)) == d,
{
}

proof fn lemma_nat_digits(n: nat)
    ensures
        nat_digits(n).len() >= 1,
        all_digits(nat_digits(n)),
        digits_value(nat_digits(n)) == n,
    decreases n,
{
    if n < 10 {
        lemma_digit_char(n);
        let t = seq![digit_char(n)];
        assert(t.drop_last() =~= Seq::<char>::empty());
        assert(digits_value(t.drop_last()) == 0);
        assert(digits_value(t) == digits_value(t.drop_last()) * 10 + digit_value(t.last()));
    } else {
        lemma_nat_digits(n / 10);
        lemma_digit_char(n % 10);
        let s = nat_digits(n / 10).push(digit_char(n % 10));
        assert(s.drop_last() =~= nat_digits(n / 10));
        assert forall|i: int| 0 <= i < s.len() implies is_digit(#[trigger] s[i]) by {
            if i < s.len() - 1 {
                assert(s[i] == nat_digits(n / 10)[i]);
            }
        }
        assert(digits_value(s) == digits_value(s.drop_last()) * 10 + digit_value(s.last()));
        assert((n / 10) * 10 + n % 10 == n) by (nonlinear_arith);
    }
}

/// Reading back what `i32_to_string` writes gives the number again.
pub proof fn lemma_parse_i32_decimal(x: i32)
    ensures
        parse_i32_spec(i32_decimal(x)) == Some(x),
{
    if x < 0 {
        let t = nat_digits((-x) as nat);
        lemma_nat_digits((-x) as nat);
        assert((seq!['-'] + t).drop_first() =~= t);
        assert(unsigned_part(i32_decimal(x)) == t);
    } else {
        let t = nat_digits(x as nat);
        lemma_nat_digits(x as nat);
        assert(is_digit(t[0]));
        assert(unsigned_part(i32_decimal(x)) == t);
    }
}

/// The first `n + 1` values of a chain of calls of `f` that starts at `init`
/// and takes the items in turn: `acc[0]` is `init`, and for each `i < n` the
/// call of `f` on `acc[i]` and the `i`-th item may give `acc[i + 1]`.
pub open spec fn is_fold_prefix<F: Fn(D, T) -> D, T, D>(
    f: F,
    items: Seq<T>,
    init: D,
    acc: Seq<D>,
    n: int,
) -> bool {
    &&& 0 <= n <= items.len()
    &&& acc.len() == n + 1
    &&& acc[0] == init
    &&& forall|i: int| 0 <= i < n ==> call_ensures(f, (acc[i], items[i]), #[trigger] acc[i + 1])
}

/// A whole chain of calls of `f` over the items, starting at `init`.
pub open spec fn is_fold_chain<F: Fn(D, T) -> D, T, D>(
    f: F,
    items: Seq<T>,
    init: D,
    acc: Seq<D>,
) -> bool {
    is_fold_prefix(f, items, init, acc, items.len() as int)
}

/// Every call that folding the items from `init` can make is allowed: on the
/// value reached after the first `n` items and the `n`-th item.
pub open spec fn fold_callable<F: Fn(D, T) -> D, T, D>(f: F, items: Seq<T>, init: D) -> bool {
    forall|acc: Seq<D>, n: int|
        #![trigger is_fold_prefix(f, items, init, acc, n)]
        is_fold_prefix(f, items, init, acc, n) && n < items.len() ==> call_requires(f, (acc[n], items[n]))
}

/// Folds the items into one value: starting from `default_value`, each item
/// in turn is combined with the value so far by `accumulator`.
pub fn reduce<F, T, D>(items: Vec<T>, accumulator: F, default_value: D) -> (r: D)
    where
        F: Fn(D, T) -> D,
    requires
        fold_callable(accumulator, items@, default_value),
    ensures
        exists|acc: Seq<D>| is_fold_chain(accumulator, items@, default_value, acc) && acc.last() == r,
        items@.len() == 0 ==> r == default_value,
{
    let ghost s = items@;
    assert(s.len() == items.len());
    let mut accumulator_value: D = default_value;
    let ghost mut acc: Seq<D> = seq![default_value];
    let mut rest = items;
    let mut k: usize = 0;
    while rest.len() > 0
        invariant
            fold_callable(accumulator, s, default_value),
            k <= s.len(),
            s.len() <= usize::MAX,
            rest@ == s.skip(k as int),
            is_fold_prefix(accumulator, s, default_value, acc, k as int),
            acc.last() == accumulator_value,
        decreases rest.len(),
    {
        let item = rest.remove(0);
        assert(item == s[k as int]);
        assert(is_fold_prefix(accumulator, s, default_value, acc, k as int));
        let next = accumulator(accumulator_value, item);
        proof {
            let old_acc = acc;
            acc = acc.push(next);
            assert forall|i: int| 0 <= i < k + 1 implies call_ensures(
                accumulator,
                (acc[i], s[i]),
                #[trigger] acc[i + 1],
            ) by {
                if i < k {
                    assert(acc[i] == old_acc[i] && acc[i + 1] == old_acc[i + 1]);
                }
            }
        }
        accumulator_value = next;
        k = k + 1;
        assert(rest@ =~= s.skip(k as int));
    }
    assert(k == s.len());
    assert(is_fold_chain(accumulator, s, default_value, acc));
    accumulator_value
}

/// Folding two sequences one after the other is folding the first, then the
/// second from where the first ended: a chain over `a + b` splits at `a`'s end.
pub proof fn lemma_fold_chain_split<F: Fn(D, T) -> D, T, D>(
    f: F,
    a: Seq<T>,
    b: Seq<T>,
    init: D,
    acc: Seq<D>,
)
    requires
        is_fold_chain(f, a + b, init, acc),
    ensures
        is_fold_chain(f, a, init, acc.take(a.len() as int + 1)),
        is_fold_chain(f, b, acc[a.len() as int], acc.skip(a.len() as int)),
        acc.skip(a.len() as int).last() == acc.last(),
{
    let ab = a + b;
    let left = acc.take(a.len() as int + 1);
    let right = acc.skip(a.len() as int);
    assert forall|i: int| 0 <= i < a.len() implies call_ensures(f, (left[i], a[i]), #[trigger] left[i + 1]) by {
        assert(ab[i] == a[i]);
        assert(call_ensures(f, (acc[i], ab[i]), acc[i + 1]));
    }
    assert forall|i: int| 0 <= i < b.len() implies call_ensures(f, (right[i], b[i]), #[trigger] right[i + 1]) by {
        let j = i + a.len();
        assert(ab[j] == b[i]);
        assert(call_ensures(f, (acc[j], ab[j]), acc[j + 1]));
    }
}

/// Conversely, a chain over `a` followed by a chain over `b` from where the
/// first ended is a chain over `a + b` with the second's final value.
pub proof fn lemma_fold_chain_join<F: Fn(D, T) -> D, T, D>(
    f: F,
    a: Seq<T>,
    b: Seq<T>,
    init: D,
    acc1: Seq<D>,
    acc2: Seq<D>,
)
    requires
        is_fold_chain(f, a, init, acc1),
        is_fold_chain(f, b, acc1.last(), acc2),
    ensures
        is_fold_chain(f, a + b, init, acc1 + acc2.drop_first()),
        (acc1 + acc2.drop_first()).last() == acc2.last(),
{
    let ab = a + b;
    let acc = acc1 + acc2.drop_first();
    assert forall|i: int| 0 <= i < ab.len() implies call_ensures(f, (acc[i], ab[i]), #[trigger] acc[i + 1]) by {
        if i < a.len() {
            assert(acc[i] == acc1[i] && acc[i + 1] == acc1[i + 1] && ab[i] == a[i]);
            assert(call_ensures(f, (acc1[i], a[i]), acc1[i + 1]));
        } else {
            let j = i - a.len();
            assert(acc[i] == acc2[j] && acc[i + 1] == acc2[j + 1] && ab[i] == b[j]);
            assert(call_ensures(f, (acc2[j], b[j]), acc2[j + 1]));
        }
    }
    if b.len() == 0 {
        assert(acc =~= acc1);
    }
}

/// Where each call gives one value only, there is one chain: the fold's
/// result is determined by the items, the step and the start.
pub proof fn lemma_fold_chain_unique<F: Fn(D, T) -> D, T, D>(
    f: F,
    items: Seq<T>,
    init: D,
    acc1: Seq<D>,
    acc2: Seq<D>,
)
    requires
        forall|d: D, t: T, r1: D, r2: D|
            call_ensures(f, (d, t), r1) && call_ensures(f, (d, t), r2) ==> r1 == r2,
        is_fold_chain(f, items, init, acc1),
        is_fold_chain(f, items, init, acc2),
    ensures
        acc1 == acc2,
{
    assert forall|i: int| 0 <= i <= items.len() implies acc1[i] == acc2[i] by {
        lemma_fold_chain_unique_at(f, items, init, acc1, acc2, i);
    }
    assert(acc1 =~= acc2);
}

proof fn lemma_fold_chain_unique_at<F: Fn(D, T) -> D, T, D>(
    f: F,
    items: Seq<T>,
    init: D,
    acc1: Seq<D>,
    acc2: Seq<D>,
    i: int,
)
    requires
        forall|d: D, t: T, r1: D, r2: D|
            call_ensures(f, (d, t), r1) && call_ensures(f, (d, t), r2) ==> r1 == r2,
        is_fold_chain(f, items, init, acc1),
        is_fold_chain(f, items, init, acc2),
        0 <= i <= items.len(),
    ensures
        acc1[i] == acc2[i],
    decreases i,
{
    if i > 0 {
        lemma_fold_chain_unique_at(f, items, init, acc1, acc2, i - 1);
        let j = i - 1;
        assert(call_ensures(f, (acc1[j], items[j]), acc1[j + 1]));
        assert(call_ensures(f, (acc2[j], items[j]), acc2[j + 1]));
    }
}

/// Adds one more number to a running total, where neither has overflowed.
pub open spec fn checked_step(cur: Option<i32>, item: i32) -> Option<i32> {
    match cur {
        Some(c) => if i32::MIN <= c + item <= i32::MAX { Some((c + item) as i32) } else { None },
        None => None,
    }
}

/// The total of the numbers added from the first to the last, or `None` where
/// a partial total leaves the `i32` range.
pub open spec fn checked_sum(vs: Seq<i32>) -> Option<i32>
    decreases vs.len(),
{
    if vs.len() == 0 {
        Some(0)
    } else {
        checked_step(checked_sum(vs.drop_last()), vs.last())
    }
}

/// Each text read as an `i32`, or `None` if one of them is no number.
pub open spec fn parse_all(vs: Seq<Seq<char>>) -> Option<Seq<i32>>
    decreases vs.len(),
{
    if vs.len() == 0 {
        Some(seq![])
    } else {
        match (parse_all(vs.drop_last()), parse_i32_spec(vs.last())) {
            (Some(ns), Some(n)) => Some(ns.push(n)),
            _ => None,
        }
    }
}

/// The total of numbers written in decimal, or `None` where one of them is no
/// `i32` or a partial total (in the order given) overflows `i32`.
pub open spec fn sum_of_texts(vs: Seq<Seq<char>>) -> Option<i32> {
    match parse_all(vs) {
        Some(ns) => checked_sum(ns),
        None => None,
    }
}

proof fn lemma_fold_chain_sum<F: Fn(Option<i32>, i32) -> Option<i32>>(
    f: F,
    items: Seq<i32>,
    acc: Seq<Option<i32>>,
)
    requires
        is_fold_chain(f, items, Some(0i32), acc),
        forall|d: Option<i32>, t: i32, r: Option<i32>| call_ensures(f, (d, t), r) ==> r == checked_step(d, t),
    ensures
        acc.last() == checked_sum(items),
    decreases items.len(),
{
    if items.len() > 0 {
        let n = items.len() - 1;
        lemma_fold_chain_sum(f, items.drop_last(), acc.drop_last());
        assert(call_ensures(f, (acc[n], items[n]), acc[n + 1]));
    }
}

/// Reads each text as an `i32` and adds them up, in the order given.
pub fn sum_texts(values: &Vec<&str>) -> (r: Option<i32>)
    ensures
        r == sum_of_texts(values@.map_values(|v: &str| v@)),
{
    let ghost vs = values@.map_values(|v: &str| v@);
    let n = values.len();
    let mut nums: Vec<i32> = Vec::new();
    let mut i: usize = 0;
    while i < n
        invariant
            n == values@.len(),
            vs == values@.map_values(|v: &str| v@),
            i <= n,
            parse_all(vs.take(i as int)) == Some(nums@),
        decreases n - i,
    {
        assert(vs.take(i + 1).drop_last() =~= vs.take(i as int));
        match parse_i32(values[i]) {
            Some(x) => {
                nums.push(x);
            },
            None => {
                proof {
                    lemma_parse_all_none(vs, i as int + 1);
                }
                return None;
            },
        }
        i = i + 1;
    }
    assert(vs.take(n as int) =~= vs);
    let step = |cur: Option<i32>, item: i32| -> (r: Option<i32>)
        ensures
            r == checked_step(cur, item),
        {
            match cur {
                Some(c) => c.checked_add(item),
                None => None,
            }
        };
    let ghost items = nums@;
    let total = reduce(nums, step, Some(0i32));
    proof {
        let acc = choose|acc: Seq<Option<i32>>| is_fold_chain(step, items, Some(0i32), acc) && acc.last() == total;
        lemma_fold_chain_sum(step, items, acc);
    }
    total
}

/// Once a prefix holds a text that is no number, so does every longer prefix.
proof fn lemma_parse_all_none(vs: Seq<Seq<char>>, k: int)
    requires
        0 < k <= vs.len(),
        parse_all(vs.take(k)) is None,
    ensures
        parse_all(vs) is None,
    decreases vs.len() - k,
{
    if k < vs.len() {
        assert(vs.take(k + 1).drop_last() =~= vs.take(k));
        lemma_parse_all_none(vs, k + 1);
    } else {
        assert(vs.take(k) =~= vs);
    }
}

/// The mathematical sum of the numbers.
pub open spec fn int_sum(vs: Seq<i32>) -> int
    decreases vs.len(),
{
    if vs.len() == 0 {
        0
    } else {
        int_sum(vs.drop_last()) + vs.last()
    }
}

/// Where the running total stays within `i32`, the checked total is the sum.
pub proof fn lemma_checked_sum_is_sum(vs: Seq<i32>)
    ensures
        checked_sum(vs) matches Some(t) ==> t == int_sum(vs),
    decreases vs.len(),
{
    if vs.len() > 0 {
        lemma_checked_sum_is_sum(vs.drop_last());
    }
}

} // verus!
