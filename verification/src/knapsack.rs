//! 0/1 knapsack by dynamic programming, with the chosen items reconstructed.

use vstd::prelude::*;
use crate::text::chars_of;
use crate::tokens::{tokens, token_spans, signed_value, usize_value, read_usize, parse_signed};

verus! {

/// An item that can be packed.
#[derive(Debug)]
pub struct Item {
    pub id: i64,
    pub value: i64,
    pub weight: usize,
}

/// A field of the knapsack input.
#[derive(PartialEq, Eq, Structural, Clone, Copy, Debug)]
pub enum Field {
    /// The number of items.
    Count,
    Id,
    Value,
    Weight,
    Capacity,
}

/// Why knapsack input was refused: a field is missing, or does not read as a number of
/// its type (`i64` for ids and values, `usize` for the others).
#[derive(PartialEq, Eq, Structural, Clone, Copy, Debug)]
pub enum InputError {
    Missing(Field),
    Invalid(Field),
}

/// Word `t` read as field `f`.
pub open spec fn field_value(t: Seq<char>, f: Field) -> Option<int> {
    if f == Field::Id || f == Field::Value {
        match signed_value(t) {
            Some(v) => if i64::MIN <= v <= i64::MAX { Some(v) } else { None },
            None => None,
        }
    } else {
        match usize_value(t) {
            Some(v) => Some(v as int),
            None => None,
        }
    }
}

/// Field `f` at word `k` of `ws`.
pub open spec fn field(ws: Seq<Seq<char>>, k: int, f: Field) -> Result<int, InputError> {
    if k >= ws.len() {
        Err(InputError::Missing(f))
    } else {
        match field_value(ws[k], f) {
            Some(x) => Ok(x),
            None => Err(InputError::Invalid(f)),
        }
    }
}

/// The first `n` items, each `id value weight`, after the count; or the first fault.
pub open spec fn items_read(ws: Seq<Seq<char>>, n: nat) -> Result<Seq<(i64, i64, usize)>, InputError>
    decreases n,
{
    if n == 0 {
        Ok(seq![])
    } else {
        let b = 1 + 3 * (n - 1);
        match items_read(ws, (n - 1) as nat) {
            Err(e) => Err(e),
            Ok(its) => match field(ws, b, Field::Id) {
                Err(e) => Err(e),
                Ok(id) => match field(ws, b + 1, Field::Value) {
                    Err(e) => Err(e),
                    Ok(value) => match field(ws, b + 2, Field::Weight) {
                        Err(e) => Err(e),
                        Ok(weight) => Ok(its.push((id as i64, value as i64, weight as usize))),
                    },
                },
            },
        }
    }
}

/// What the white-space separated words `ws` of knapsack input give: nothing when there is
/// no word; else the item count, the items and the capacity, or the first fault.
pub open spec fn knapsack_input(ws: Seq<Seq<char>>) -> Result<Option<(Seq<(i64, i64, usize)>, nat)>, InputError> {
    if ws.len() == 0 {
        Ok(None)
    } else {
        match field(ws, 0, Field::Count) {
            Err(e) => Err(e),
            Ok(h) => match items_read(ws, h as nat) {
                Err(e) => Err(e),
                Ok(its) => match field(ws, 1 + 3 * h, Field::Capacity) {
                    Err(e) => Err(e),
                    Ok(c) => Ok(Some((its, c as nat))),
                },
            },
        }
    }
}

/// An item as plain values.
pub open spec fn item_view(it: Item) -> (i64, i64, usize) {
    (it.id, it.value, it.weight)
}

pub open spec fn items_view(its: Seq<Item>) -> Seq<(i64, i64, usize)> {
    its.map_values(|it: Item| item_view(it))
}

/// Reads field `f` from word `k` of `spans`.
fn read_field(v: &Vec<char>, spans: &Vec<(usize, usize)>, k: usize, f: Field) -> (r: Result<i64, InputError>)
    requires
        forall|t: int| 0 <= t < spans@.len() ==> (#[trigger] spans@[t]).0 <= spans@[t].1 <= v@.len(),
        f == Field::Id || f == Field::Value,
    ensures
        ({
            let ws = Seq::new(spans@.len(), |t: int| v@.subrange(spans@[t].0 as int, spans@[t].1 as int));
            match field(ws, k as int, f) {
                Ok(x) => r == Ok::<i64, InputError>(x as i64),
                Err(e) => r == Err::<i64, InputError>(e),
            }
        }),
{
    if k >= spans.len() {
        return Err(InputError::Missing(f));
    }
    match parse_signed(v, spans[k].0, spans[k].1) {
        Some(x) => Ok(x),
        None => Err(InputError::Invalid(f)),
    }
}

/// Reads count or size field `f` from word `k` of `spans`.
fn read_size_field(v: &Vec<char>, spans: &Vec<(usize, usize)>, k: usize, f: Field) -> (r: Result<usize, InputError>)
    requires
        forall|t: int| 0 <= t < spans@.len() ==> (#[trigger] spans@[t]).0 <= spans@[t].1 <= v@.len(),
        f != Field::Id && f != Field::Value,
    ensures
        ({
            let ws = Seq::new(spans@.len(), |t: int| v@.subrange(spans@[t].0 as int, spans@[t].1 as int));
            match field(ws, k as int, f) {
                Ok(x) => r == Ok::<usize, InputError>(x as usize),
                Err(e) => r == Err::<usize, InputError>(e),
            }
        }),
{
    if k >= spans.len() {
        return Err(InputError::Missing(f));
    }
    match read_usize(v, spans[k].0, spans[k].1) {
        Some(x) => Ok(x),
        None => Err(InputError::Invalid(f)),
    }
}

/// Reads knapsack input: the number of items `H`, then `H` triples `id value weight`,
/// then the capacity, all separated by white space. `None` when the input has no word.
pub fn read_knapsack_input(input: &str) -> (r: Result<Option<(Vec<Item>, usize)>, InputError>)
    ensures
        match knapsack_input(tokens(input@)) {
            Ok(None) => r matches Ok(None),
            Ok(Some((its, c))) => r matches Ok(Some(found)) && items_view(found.0@) == its && found.1 == c,
            Err(e) => r == Err::<Option<(Vec<Item>, usize)>, InputError>(e),
        },
{
    let v = chars_of(input);
    let n = v.len();
    let spans = token_spans(&v, 0, n);
    let ghost ws = Seq::new(spans@.len(), |t: int| v@.subrange(spans@[t].0 as int, spans@[t].1 as int));
    proof {
        assert(v@.subrange(0, n as int) =~= v@);
        assert(ws =~= tokens(input@));
    }
    if spans.len() == 0 {
        return Ok(None);
    }
    let h = match read_size_field(&v, &spans, 0, Field::Count) {
        Ok(h) => h,
        Err(e) => {
            return Err(e);
        },
    };
    let mut items: Vec<Item> = Vec::new();
    let mut k: usize = 0;
    let mut p: usize = 1;
    proof {
        assert(items_view(items@) =~= Seq::<(i64, i64, usize)>::empty());
    }
    while k < h
        invariant
            k <= h,
            p == 1 + 3 * k,
            p <= spans@.len() + 1,
            ws =~= tokens(input@),
            ws == Seq::new(spans@.len(), |t: int| v@.subrange(spans@[t].0 as int, spans@[t].1 as int)),
            forall|t: int| 0 <= t < spans@.len() ==> (#[trigger] spans@[t]).0 <= spans@[t].1 <= v@.len(),
            knapsack_input(ws) == match items_read(ws, h as nat) {
                Err(e) => Err(e),
                Ok(its) => match field(ws, 1 + 3 * h, Field::Capacity) {
                    Err(e) => Err(e),
                    Ok(c) => Ok(Some((its, c as nat))),
                },
            },
            items_read(ws, k as nat) == Ok::<Seq<(i64, i64, usize)>, InputError>(items_view(items@)),
        decreases h - k,
    {
        let id = read_field(&v, &spans, p, Field::Id);
        let value = if p < spans.len() { read_field(&v, &spans, p + 1, Field::Value) } else { Err(InputError::Missing(Field::Value)) };
        let weight = if p + 1 < spans.len() { read_size_field(&v, &spans, p + 2, Field::Weight) } else { Err(InputError::Missing(Field::Weight)) };
        let ghost before = items_view(items@);
        let fault = match (id, value, weight) {
            (Err(e), _, _) => Some(e),
            (Ok(_), Err(e), _) => Some(e),
            (Ok(_), Ok(_), Err(e)) => Some(e),
            (Ok(id), Ok(value), Ok(weight)) => {
                items.push(Item { id, value, weight });
                proof {
                    assert(items_view(items@) =~= before.push((id, value, weight)));
                }
                None
            },
        };
        match fault {
            Some(e) => {
                proof {
                    assert(items_read(ws, (k + 1) as nat) == Err::<Seq<(i64, i64, usize)>, InputError>(e));
                    lemma_items_read_err(ws, (k + 1) as nat, h as nat);
                }
                return Err(e);
            },
            None => {},
        }
        k += 1;
        p = p + 3;
    }
    let c = match read_size_field(&v, &spans, p, Field::Capacity) {
        Ok(c) => c,
        Err(e) => {
            return Err(e);
        },
    };
    Ok(Some((items, c)))
}

/// A fault among the first `j` items is the fault of the first `k >= j` items.
pub proof fn lemma_items_read_err(ws: Seq<Seq<char>>, j: nat, k: nat)
    requires
        j <= k,
        items_read(ws, j) is Err,
    ensures
        items_read(ws, k) == items_read(ws, j),
    decreases k - j,
{
    if k > j {
        lemma_items_read_err(ws, j, (k - 1) as nat);
    }
}

/// The best value packable from the first `i` items within capacity `w` (the DP recurrence).
pub open spec fn best(items: Seq<Item>, i: nat, w: int) -> int
    decreases i,
{
    if i == 0 {
        0
    } else {
        let it = items[i - 1];
        let skip = best(items, (i - 1) as nat, w);
        if it.weight <= w {
            let take = best(items, (i - 1) as nat, w - it.weight) + it.value;
            if take > skip { take } else { skip }
        } else {
            skip
        }
    }
}

/// Total weight of the selected items among the first `n`.
pub open spec fn sel_weight(items: Seq<Item>, sel: Seq<bool>, n: nat) -> int
    decreases n,
{
    if n == 0 { 0 } else { sel_weight(items, sel, (n - 1) as nat) + if sel[n - 1] { items[n - 1].weight as int } else { 0 } }
}

/// Total value of the selected items among the first `n`.
pub open spec fn sel_value(items: Seq<Item>, sel: Seq<bool>, n: nat) -> int
    decreases n,
{
    if n == 0 { 0 } else { sel_value(items, sel, (n - 1) as nat) + if sel[n - 1] { items[n - 1].value as int } else { 0 } }
}

/// Ids of the selected items among the first `n`, in item order.
pub open spec fn sel_ids(items: Seq<Item>, sel: Seq<bool>, n: nat) -> Seq<i64>
    decreases n,
{
    if n == 0 { seq![] } else { sel_ids(items, sel, (n - 1) as nat) + if sel[n - 1] { seq![items[n - 1].id] } else { seq![] } }
}

pub proof fn lemma_best_bounds(items: Seq<Item>, i: nat, w: int)
    requires
        w >= 0,
        i <= items.len(),
    ensures
        0 <= best(items, i, w),
    decreases i,
{
    if i > 0 {
        lemma_best_bounds(items, (i - 1) as nat, w);
        if items[i - 1].weight <= w {
            lemma_best_bounds(items, (i - 1) as nat, w - items[i - 1].weight);
        }
    }
}

/// The DP value is optimal: no selection of the first `i` items within capacity `w`
/// is worth more.
pub proof fn law_best_is_optimal(items: Seq<Item>, sel: Seq<bool>, i: nat, w: int)
    requires
        i <= items.len(),
        i <= sel.len(),
        sel_weight(items, sel, i) <= w,
    ensures
        sel_value(items, sel, i) <= best(items, i, w),
    decreases i,
{
    if i > 0 {
        let it = items[i - 1];
        if sel[i - 1] {
            lemma_sel_weight_nonneg(items, sel, (i - 1) as nat);
            law_best_is_optimal(items, sel, (i - 1) as nat, w - it.weight);
        } else {
            law_best_is_optimal(items, sel, (i - 1) as nat, w);
        }
    }
}

pub proof fn lemma_sel_weight_nonneg(items: Seq<Item>, sel: Seq<bool>, n: nat)
    ensures
        sel_weight(items, sel, n) >= 0,
    decreases n,
{
    if n > 0 {
        lemma_sel_weight_nonneg(items, sel, (n - 1) as nat);
    }
}

/// Selecting one more item, below every selected one, adds its weight, value and id in front.
pub proof fn lemma_select_below(items: Seq<Item>, sel: Seq<bool>, k: int, n: nat)
    requires
        0 <= k < n,
        n <= sel.len(),
        forall|j: int| 0 <= j <= k ==> !sel[j],
    ensures
        sel_weight(items, sel.update(k, true), n) == sel_weight(items, sel, n) + items[k].weight,
        sel_value(items, sel.update(k, true), n) == sel_value(items, sel, n) + items[k].value,
        sel_ids(items, sel.update(k, true), n) == seq![items[k].id] + sel_ids(items, sel, n),
    decreases n,
{
    let s2 = sel.update(k, true);
    if n - 1 > k {
        lemma_select_below(items, sel, k, (n - 1) as nat);
        assert(sel_ids(items, s2, n) =~= sel_ids(items, s2, (n - 1) as nat) + if sel[n - 1] { seq![items[n - 1].id] } else { seq![] });
    } else {
        lemma_none_selected(items, sel, k as nat);
        lemma_none_selected(items, s2, k as nat);
        assert(sel_ids(items, s2, n) =~= seq![items[k].id]);
    }
}

pub proof fn lemma_none_selected(items: Seq<Item>, sel: Seq<bool>, n: nat)
    requires
        n <= sel.len(),
        forall|j: int| 0 <= j < n ==> !sel[j],
    ensures
        sel_weight(items, sel, n) == 0,
        sel_value(items, sel, n) == 0,
        sel_ids(items, sel, n) == Seq::<i64>::empty(),
    decreases n,
{
    if n > 0 {
        lemma_none_selected(items, sel, (n - 1) as nat);
        assert(sel_ids(items, sel, n) =~= Seq::<i64>::empty());
    }
}

/// The value of taking item `i - 1` on top of the best of the items before it within the
/// capacity that remains, `w` less its weight.
pub open spec fn take_value(items: Seq<Item>, i: int, w: int) -> int {
    best(items, (i - 1) as nat, w - items[i - 1].weight) + items[i - 1].value
}

/// Every value the table computes for capacities up to `capacity` fits in an `i64`.
pub open spec fn fits(items: Seq<Item>, capacity: int) -> bool {
    forall|i: int, w: int|
        1 <= i <= items.len() && 0 <= w <= capacity && items[i - 1].weight <= w
            ==> #[trigger] take_value(items, i, w) <= i64::MAX
}

/// The ids that walking the table back from `(i, w)` collects, in item order: item `i - 1`
/// is taken exactly when it changes the best value.
pub open spec fn traced_ids(items: Seq<Item>, i: nat, w: int) -> Seq<i64>
    decreases i,
{
    if i == 0 {
        seq![]
    } else if best(items, i, w) != best(items, (i - 1) as nat, w) {
        traced_ids(items, (i - 1) as nat, w - items[i - 1].weight).push(items[i - 1].id)
    } else {
        traced_ids(items, (i - 1) as nat, w)
    }
}

/// Solves the 0/1 knapsack problem: returns the best total value packable within `capacity`
/// and the ids of the selection that walking the table back finds, in item order; `None`
/// when a value of the table does not fit in an `i64`.
pub fn knapsack(items: &Vec<Item>, capacity: usize) -> (r: Option<(i64, Vec<i64>)>)
    requires
        capacity < usize::MAX,
    ensures
        r is Some <==> fits(items@, capacity as int),
        r matches Some(found) ==> {
            &&& found.0 == best(items@, items@.len(), capacity as int)
            &&& found.1@ == traced_ids(items@, items@.len(), capacity as int)
            &&& exists|sel: Seq<bool>| #![trigger sel_ids(items@, sel, items@.len())]
                sel.len() == items@.len()
                && sel_weight(items@, sel, items@.len()) <= capacity
                && sel_value(items@, sel, items@.len()) == found.0
                && sel_ids(items@, sel, items@.len()) == found.1@
        },
{
    let h = items.len();
    let mut dp: Vec<Vec<i64>> = Vec::new();
    dp.push(vec![0i64; capacity + 1]);
    let mut i0: usize = 0;
    while i0 < h
        invariant
            h == items@.len(),
            capacity < usize::MAX,
            forall|ii: int, ww: int|
                1 <= ii <= i0 && 0 <= ww <= capacity && items@[ii - 1].weight <= ww
                    ==> #[trigger] take_value(items@, ii, ww) <= i64::MAX,
            0 <= i0 <= h,
            dp@.len() == i0 + 1,
            forall|ii: int, w: int| 0 <= ii <= i0 && 0 <= w <= capacity ==> #[trigger] dp@[ii]@[w] == best(items@, ii as nat, w),
            forall|ii: int| 0 <= ii <= i0 ==> #[trigger] dp@[ii]@.len() == capacity + 1,
        decreases h - i0,
    {
        let i = i0 + 1;
        let it = &items[i - 1];
        let mut row: Vec<i64> = Vec::new();
        let mut w: usize = 0;
        while w <= capacity
            invariant
                h == items@.len(),
                capacity < usize::MAX,
                forall|ii: int, ww: int|
                    1 <= ii < i && 0 <= ww <= capacity && items@[ii - 1].weight <= ww
                        ==> #[trigger] take_value(items@, ii, ww) <= i64::MAX,
                forall|ww: int|
                    0 <= ww < w && items@[i - 1].weight <= ww ==> #[trigger] take_value(items@, i as int, ww) <= i64::MAX,
                1 <= i <= h,
                *it == items@[i - 1],
                dp@.len() == i,
                forall|ii: int, ww: int| 0 <= ii < i && 0 <= ww <= capacity ==> #[trigger] dp@[ii]@[ww] == best(items@, ii as nat, ww),
                forall|ii: int| 0 <= ii < i ==> #[trigger] dp@[ii]@.len() == capacity + 1,
                w <= capacity + 1,
                row@.len() == w,
                forall|ww: int| 0 <= ww < w ==> #[trigger] row@[ww] == best(items@, i as nat, ww),
            decreases capacity + 1 - w,
        {
            let mut best_here = dp[i - 1][w];
            if it.weight <= w {
                proof {
                    lemma_best_bounds(items@, (i - 1) as nat, (w - it.weight) as int);
                }
                let cand = match dp[i - 1][w - it.weight].checked_add(it.value) {
                    Some(c) => c,
                    None => {
                        proof {
                            assert(take_value(items@, i as int, w as int) > i64::MAX);
                        }
                        return None;
                    },
                };
                if cand > best_here {
                    best_here = cand;
                }
            }
            row.push(best_here);
            w += 1;
        }
        dp.push(row);
        i0 += 1;
    }
    let total_value = dp[h][capacity];
    proof {
        assert(fits(items@, capacity as int));
    }
    let mut chosen: Vec<i64> = Vec::new();
    let mut w = capacity;
    let mut i = h;
    let ghost mut sel: Seq<bool> = Seq::new(h as nat, |j: int| false);
    proof {
        lemma_none_selected(items@, sel, h as nat);
    }
    while i > 0
        invariant
            h == items@.len(),
            dp@.len() == h + 1,
            forall|ii: int, ww: int| 0 <= ii <= h && 0 <= ww <= capacity ==> #[trigger] dp@[ii]@[ww] == best(items@, ii as nat, ww),
            forall|ii: int| 0 <= ii <= h ==> #[trigger] dp@[ii]@.len() == capacity + 1,
            i <= h,
            w <= capacity,
            sel.len() == h,
            forall|j: int| 0 <= j < i ==> !sel[j],
            best(items@, h as nat, capacity as int) == best(items@, i as nat, w as int) + sel_value(items@, sel, h as nat),
            sel_weight(items@, sel, h as nat) == capacity - w,
            sel_ids(items@, sel, h as nat) == chosen@.reverse(),
            traced_ids(items@, h as nat, capacity as int) == traced_ids(items@, i as nat, w as int) + chosen@.reverse(),
        decreases i,
    {
        if dp[i][w] != dp[i - 1][w] {
            let it = &items[i - 1];
            proof {
                lemma_select_below(items@, sel, i - 1, h as nat);
                sel = sel.update(i - 1, true);
            }
            let ghost before = chosen@;
            chosen.push(it.id);
            assert(chosen@.reverse() =~= seq![it.id] + before.reverse());
            proof {
                assert(traced_ids(items@, i as nat, w as int) == traced_ids(items@, (i - 1) as nat, w - it.weight).push(it.id));
                assert(traced_ids(items@, (i - 1) as nat, w - it.weight).push(it.id) + before.reverse()
                    =~= traced_ids(items@, (i - 1) as nat, w - it.weight) + chosen@.reverse());
            }
            w = w - it.weight;
        }
        i -= 1;
    }
    let mut result: Vec<i64> = Vec::new();
    let mut k = chosen.len();
    while k > 0
        invariant
            k <= chosen@.len(),
            result@ == chosen@.reverse().take((chosen@.len() - k) as int),
        decreases k,
    {
        k -= 1;
        result.push(chosen[k]);
        assert(chosen@.reverse().take((chosen@.len() - k) as int) =~= chosen@.reverse().take((chosen@.len() - k - 1) as int).push(chosen@[k as int]));
    }
    assert(chosen@.reverse().take(chosen@.len() as int) =~= chosen@.reverse());
    assert(traced_ids(items@, 0, w as int) + chosen@.reverse() =~= chosen@.reverse());
    Some((total_value, result))
}

} // verus!
