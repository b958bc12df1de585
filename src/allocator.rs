//! Validator allocation: which whitelisted validators a delegation, an
//! undelegation or a redelegation goes to. Random choices come from a
//! generator seeded by the caller (the block height), so every node computes
//! the same instructions.

use vstd::prelude::*;
use rand::prng::XorShiftRng;
use crate::error::HubError;

verus! {

#[verifier::external_type_specification]
#[verifier::external_body]
pub struct ExXorShiftRng(XorShiftRng);

/// Relies on rand_core's `SeedableRng::seed_from_u64`, as rand 0.5 exports it
/// for `XorShiftRng`: a generator built from the seed alone.
#[verifier::external_body]
fn seeded_rng(seed: u64) -> XorShiftRng {
    <XorShiftRng as rand::SeedableRng>::seed_from_u64(seed)
}

/// Relies on rand 0.5's `Rng::gen_range(low, high)`: a value in
/// `[low, high)`; it panics when `low >= high`.
#[verifier::external_body]
fn draw_index(rng: &mut XorShiftRng, n: usize) -> (r: usize)
    requires
        n > 0,
    ensures
        r < n,
{
    rand::Rng::gen_range(rng, 0, n)
}

/// Undelegate `amount` from the validator at `validator` in the whitelist.
#[derive(Clone, Copy, Debug, PartialEq, Eq, Structural)]
pub struct UndelegateOrder {
    pub validator: usize,
    pub amount: u128,
}

pub open spec fn seq_total(s: Seq<u128>) -> int
    decreases s.len(),
{
    if s.len() == 0 {
        0
    } else {
        seq_total(s.drop_last()) + s.last()
    }
}

/// How many entries are not zero.
pub open spec fn nonzero_count(s: Seq<u128>) -> int
    decreases s.len(),
{
    if s.len() == 0 {
        0
    } else {
        nonzero_count(s.drop_last()) + if s.last() > 0 {
            1int
        } else {
            0
        }
    }
}

/// Sum of the orders' amounts.
pub open spec fn orders_total(s: Seq<UndelegateOrder>) -> int
    decreases s.len(),
{
    if s.len() == 0 {
        0
    } else {
        orders_total(s.drop_last()) + s.last().amount
    }
}

/// What the orders take from validator `v`.
pub open spec fn allocated_to(s: Seq<UndelegateOrder>, v: int) -> int
    decreases s.len(),
{
    if s.len() == 0 {
        0
    } else {
        allocated_to(s.drop_last(), v) + if s.last().validator == v {
            s.last().amount as int
        } else {
            0
        }
    }
}

proof fn lemma_total_update(s: Seq<u128>, i: int, v: u128)
    requires
        0 <= i < s.len(),
    ensures
        seq_total(s.update(i, v)) == seq_total(s) - s[i] + v,
        nonzero_count(s.update(i, v)) == nonzero_count(s) - (if s[i] > 0 { 1int } else { 0 }) + (
        if v > 0 {
            1int
        } else {
            0
        }),
    decreases s.len(),
{
    if i == s.len() - 1 {
        assert(s.update(i, v).drop_last() == s.drop_last());
    } else {
        assert(s.update(i, v).drop_last() == s.drop_last().update(i, v));
        lemma_total_update(s.drop_last(), i, v);
    }
}

proof fn lemma_total_nonneg_prefix(s: Seq<u128>, i: int)
    requires
        0 <= i <= s.len(),
    ensures
        0 <= seq_total(s.subrange(0, i)) <= seq_total(s),
        nonzero_count(s) >= 0,
    decreases s.len(),
{
    if s.len() > 0 {
        if i == s.len() {
            assert(s.subrange(0, i) == s);
            lemma_total_nonneg_prefix(s.drop_last(), i - 1);
        } else {
            assert(s.drop_last().subrange(0, i) == s.subrange(0, i));
            lemma_total_nonneg_prefix(s.drop_last(), i);
        }
    }
}

proof fn lemma_all_zero(s: Seq<u128>)
    requires
        forall|k: int| 0 <= k < s.len() ==> s[k] == 0,
    ensures
        seq_total(s) == 0,
    decreases s.len(),
{
    if s.len() > 0 {
        lemma_all_zero(s.drop_last());
    }
}

/// An index at or after `start`, cyclically, whose entry is not zero.
fn next_nonzero(remaining: &Vec<u128>, start: usize) -> (r: usize)
    requires
        start < remaining.len(),
        seq_total(remaining@) > 0,
    ensures
        r < remaining.len(),
        remaining[r as int] > 0,
{
    let mut i: usize = start;
    while i < remaining.len()
        invariant
            start <= i <= remaining.len(),
            forall|k: int| start <= k < i ==> remaining[k] == 0,
        decreases remaining.len() - i,
    {
        if remaining[i] > 0 {
            return i;
        }
        i += 1;
    }
    let mut j: usize = 0;
    while j < start
        invariant
            j <= start < remaining.len(),
            forall|k: int| start <= k < remaining.len() ==> remaining[k] == 0,
            forall|k: int| 0 <= k < j ==> remaining[k] == 0,
        decreases start - j,
    {
        if remaining[j] > 0 {
            return j;
        }
        j += 1;
    }
    proof {
        lemma_all_zero(remaining@);
    }
    0
}

/// Whether the delegations add up to at least `claim`.
fn covers(delegations: &Vec<u128>, claim: u128) -> (r: bool)
    ensures
        r == (seq_total(delegations@) >= claim),
{
    let mut acc: u128 = 0;
    let mut i: usize = 0;
    while i < delegations.len()
        invariant
            i <= delegations.len(),
            acc == seq_total(delegations@.subrange(0, i as int)),
            acc < claim || claim == 0,
        decreases delegations.len() - i,
    {
        if claim == 0 {
            proof { lemma_total_nonneg_prefix(delegations@, 0); }
            return true;
        }
        proof {
            assert(delegations@.subrange(0, i + 1).drop_last() == delegations@.subrange(0, i as int));
        }
        if delegations[i] >= claim - acc {
            proof { lemma_total_nonneg_prefix(delegations@, i + 1); }
            return true;
        }
        acc = acc + delegations[i];
        i += 1;
    }
    assert(delegations@.subrange(0, delegations.len() as int) == delegations@);
    claim == 0
}

/// Spreads an undelegation of `claim` over the validators whose current
/// delegations are `delegations` (in whitelist order): a validator is drawn
/// at random, gives what it has up to what is still owed, and the next draw
/// goes on until the claim is covered. A draw that falls on a validator with
/// nothing left moves on to the next one that has some.
pub fn spread_undelegate(claim: u128, delegations: &Vec<u128>, seed: u64) -> (r: Result<
    Vec<UndelegateOrder>,
    HubError,
>)
    ensures
        seq_total(delegations@) < claim ==> r == Err::<Vec<UndelegateOrder>, HubError>(
            HubError::InsufficientDelegations,
        ),
        seq_total(delegations@) >= claim ==> r is Ok,
        r matches Ok(orders) ==> {
            &&& orders_total(orders@) == claim
            &&& forall|v: int|
                0 <= v < delegations.len() ==> #[trigger] allocated_to(orders@, v)
                    <= delegations[v]
            &&& forall|k: int|
                0 <= k < orders.len() ==> #[trigger] orders[k].validator < delegations.len()
                    && orders[k].amount > 0
            &&& forall|k1: int, k2: int|
                0 <= k1 < k2 < orders.len() ==> #[trigger] orders[k1].validator
                    != #[trigger] orders[k2].validator
        },
{
    if !covers(delegations, claim) {
        return Err(HubError::InsufficientDelegations);
    }
    let n = delegations.len();
    let mut remaining: Vec<u128> = Vec::new();
    let mut c: usize = 0;
    while c < n
        invariant
            c <= n == delegations.len(),
            remaining@ == delegations@.subrange(0, c as int),
        decreases n - c,
    {
        remaining.push(delegations[c]);
        c += 1;
    }
    assert(remaining@ == delegations@);
    let mut orders: Vec<UndelegateOrder> = Vec::new();
    let mut left = claim;
    let mut rng = seeded_rng(seed);
    proof {
        lemma_total_nonneg_prefix(remaining@, 0);
    }
    while left > 0
        invariant
            n == delegations.len() == remaining.len(),
            seq_total(remaining@) >= left,
            orders_total(orders@) + left == claim,
            forall|v: int| 0 <= v < n ==> #[trigger] allocated_to(orders@, v) + remaining[v] == delegations[v],
            forall|v: int| n <= v || v < 0 ==> #[trigger] allocated_to(orders@, v) == 0,
            forall|k: int|
                0 <= k < orders.len() ==> #[trigger] orders[k].validator < n && orders[k].amount > 0,
            forall|k: int|
                0 <= k < orders.len() ==> left == 0 || remaining[#[trigger] orders[k].validator as int] == 0,
            forall|k1: int, k2: int|
                0 <= k1 < k2 < orders.len() ==> #[trigger] orders[k1].validator
                    != #[trigger] orders[k2].validator,
            nonzero_count(remaining@) >= 0,
        decreases nonzero_count(remaining@) + if left > 0 {
            1int
        } else {
            0
        },
    {
        assert(n > 0) by {
            if n == 0 {
                assert(remaining@ == Seq::<u128>::empty());
            }
        }
        let drawn = draw_index(&mut rng, n);
        let j = next_nonzero(&remaining, drawn);
        let have = remaining[j];
        let amount = if left < have { left } else { have };
        let order = UndelegateOrder { validator: j, amount };
        let ghost prev = orders@;
        orders.push(order);
        proof {
            assert(orders@.drop_last() == prev);
            lemma_total_update(remaining@, j as int, (have - amount) as u128);
            assert forall|v: int| 0 <= v < n implies #[trigger] allocated_to(orders@, v) + (if v == j { (have - amount) as int } else { remaining[v] as int }) == delegations[v] by {
                assert(allocated_to(orders@, v) == allocated_to(prev, v) + if v == j { amount as int } else { 0 });
            }
            assert forall|v: int| n <= v || v < 0 implies #[trigger] allocated_to(orders@, v) == 0 by {
                assert(allocated_to(orders@, v) == allocated_to(prev, v));
            }
            assert forall|k: int| 0 <= k < orders.len() implies #[trigger] orders[k].validator < n && orders[k].amount > 0 by {
                if k < prev.len() {
                    assert(orders[k] == prev[k]);
                }
            }
            assert forall|k1: int, k2: int|
                0 <= k1 < k2 < orders.len() implies #[trigger] orders[k1].validator
                    != #[trigger] orders[k2].validator by {
                assert(orders[k1] == prev[k1]);
                if k2 == prev.len() {
                    assert(remaining[prev[k1].validator as int] == 0);
                } else {
                    assert(orders[k2] == prev[k2]);
                }
            }
        }
        let ghost before = remaining@;
        remaining.set(j, have - amount);
        left = left - amount;
        proof {
            assert(remaining@ == before.update(j as int, (have - amount) as u128));
            lemma_total_nonneg_prefix(remaining@, 0);
            assert forall|k: int| 0 <= k < orders.len() implies left == 0 || remaining[#[trigger] orders[k].validator as int] == 0 by {
                if k < prev.len() {
                    assert(orders[k] == prev[k]);
                }
            }
        }
    }
    Ok(orders)
}

/// Position `k` steps after `start` in a ring of `n`.
pub open spec fn cyclic(start: int, k: int, n: int) -> int {
    if start + k < n {
        start + k
    } else {
        start + k - n
    }
}

/// A validator, drawn at random, whose delegation exceeds `claim`; a draw
/// that falls on one with too little moves on to the next that has enough.
pub fn choose_validator(delegations: &Vec<u128>, claim: u128, seed: u64) -> (r: Result<
    usize,
    HubError,
>)
    ensures
        r matches Ok(i) ==> i < delegations.len() && delegations[i as int] > claim,
        r is Err <==> forall|i: int| 0 <= i < delegations.len() ==> delegations[i] <= claim,
        r is Err ==> r == Err::<usize, HubError>(HubError::InsufficientDelegations),
{
    let n = delegations.len();
    if n == 0 {
        return Err(HubError::InsufficientDelegations);
    }
    let mut rng = seeded_rng(seed);
    let start = draw_index(&mut rng, n);
    let mut step: usize = 0;
    while step < n
        invariant
            n == delegations.len(),
            start < n,
            step <= n,
            forall|k: int|
                0 <= k < step ==> delegations[#[trigger] cyclic(start as int, k, n as int)] <= claim,
        decreases n - step,
    {
        let i = if start < n - step { start + step } else { start - (n - step) };
        assert(i == cyclic(start as int, step as int, n as int));
        if delegations[i] > claim {
            return Ok(i);
        }
        step += 1;
    }
    assert forall|i: int| 0 <= i < delegations.len() implies delegations[i] <= claim by {
        let k = if i >= start { i - start } else { i + n - start };
        assert(0 <= k < n);
        assert(cyclic(start as int, k, n as int) == i);
    }
    Err(HubError::InsufficientDelegations)
}

/// The position of `validator` in the whitelist.
pub fn validator_index(whitelist: &Vec<String>, validator: &String) -> (r: Result<usize, HubError>)
    ensures
        r matches Ok(i) ==> i < whitelist.len() && whitelist[i as int]@ == validator@,
        r is Err <==> forall|i: int| 0 <= i < whitelist.len() ==> whitelist[i]@ != validator@,
        r is Err ==> r == Err::<usize, HubError>(HubError::UnknownValidator),
{
    let mut i: usize = 0;
    while i < whitelist.len()
        invariant
            i <= whitelist.len(),
            forall|k: int| 0 <= k < i ==> whitelist[k]@ != validator@,
        decreases whitelist.len() - i,
    {
        if whitelist[i] == *validator {
            return Ok(i);
        }
        i += 1;
    }
    Err(HubError::UnknownValidator)
}

/// Adds `validator` to the whitelist, if the chain knows it (it is among
/// `known`); one already listed stays listed once.
pub fn register_validator(whitelist: &mut Vec<String>, validator: String, known: &Vec<String>) -> (r:
    Result<(), HubError>)
    ensures
        (forall|i: int| 0 <= i < known.len() ==> known[i]@ != validator@) ==> r == Err::<
            (),
            HubError,
        >(HubError::UnknownValidator) && final(whitelist)@ == old(whitelist)@,
        (exists|i: int| 0 <= i < known.len() && known[i]@ == validator@) ==> r is Ok,
        r is Ok && (exists|i: int| 0 <= i < old(whitelist).len() && old(whitelist)[i]@ == validator@)
            ==> final(whitelist)@ == old(whitelist)@,
        r is Ok && (forall|i: int| 0 <= i < old(whitelist).len() ==> old(whitelist)[i]@ != validator@)
            ==> final(whitelist)@ == old(whitelist)@.push(validator),
{
    match validator_index(known, &validator) {
        Ok(_) => {},
        Err(e) => {
            return Err(e);
        },
    }
    match validator_index(whitelist, &validator) {
        Ok(_) => Ok(()),
        Err(_) => {
            whitelist.push(validator);
            Ok(())
        },
    }
}

/// The whitelist without every entry equal to `v`, order kept.
pub open spec fn without(s: Seq<String>, v: Seq<char>) -> Seq<String>
    decreases s.len(),
{
    if s.len() == 0 {
        s
    } else if s.last()@ == v {
        without(s.drop_last(), v)
    } else {
        without(s.drop_last(), v).push(s.last())
    }
}

/// No entry of `without(s, v)` is `v`, and it is empty exactly when every
/// entry of `s` is `v`.
pub proof fn lemma_without(s: Seq<String>, v: Seq<char>)
    ensures
        forall|t: int| 0 <= t < without(s, v).len() ==> (#[trigger] without(s, v)[t])@ != v,
        without(s, v).len() == 0 <==> forall|j: int| 0 <= j < s.len() ==> (#[trigger] s[j])@ == v,
    decreases s.len(),
{
    if s.len() > 0 {
        lemma_without(s.drop_last(), v);
        let w = without(s.drop_last(), v);
        if s.last()@ != v {
            assert forall|t: int| 0 <= t < without(s, v).len() implies (#[trigger] without(s, v)[t])@ != v by {
                if t < w.len() {
                    assert(without(s, v)[t] == w[t]);
                }
            }
        } else {
            assert forall|j: int| 0 <= j < s.len() && w.len() == 0 implies (#[trigger] s[j])@ == v by {
                if j < s.len() - 1 {
                    assert(s[j] == s.drop_last()[j]);
                }
            }
            if w.len() > 0 {
                let j = choose|j: int| 0 <= j < s.drop_last().len() && s.drop_last()[j]@ != v;
                assert(s[j] == s.drop_last()[j]);
            }
        }
        if s.last()@ != v {
            assert(!(s[s.len() - 1]@ == v));
        }
    }
}

/// Takes `validator` out of the whitelist (every entry equal to it) and
/// draws, among the validators left, the one that receives its delegation.
/// Returns that validator's position in the shortened whitelist. Nothing
/// changes on an error.
pub fn deregister_validator(whitelist: &mut Vec<String>, validator: &String, seed: u64) -> (r:
    Result<usize, HubError>)
    ensures
        (forall|i: int| 0 <= i < old(whitelist).len() ==> old(whitelist)[i]@ != validator@) ==> r
            == Err::<usize, HubError>(HubError::UnknownValidator),
        (exists|i: int| 0 <= i < old(whitelist).len() && old(whitelist)[i]@ == validator@)
            && (forall|j: int| 0 <= j < old(whitelist).len() ==> old(whitelist)[j]@ == validator@)
            ==> r == Err::<usize, HubError>(HubError::NoValidators),
        (exists|i: int| 0 <= i < old(whitelist).len() && old(whitelist)[i]@ == validator@)
            && (exists|j: int| 0 <= j < old(whitelist).len() && old(whitelist)[j]@ != validator@)
            ==> r is Ok,
        r is Err ==> final(whitelist)@ == old(whitelist)@,
        r is Ok ==> final(whitelist)@ == without(old(whitelist)@, validator@),
        r matches Ok(t) ==> t < final(whitelist).len() && final(whitelist)[t as int]@ != validator@,
{
    match validator_index(whitelist, validator) {
        Ok(_) => {},
        Err(e) => {
            return Err(e);
        },
    }
    let mut kept: Vec<String> = Vec::new();
    let mut i: usize = 0;
    while i < whitelist.len()
        invariant
            i <= whitelist.len(),
            kept@ == without(whitelist@.subrange(0, i as int), validator@),
        decreases whitelist.len() - i,
    {
        proof {
            assert(whitelist@.subrange(0, i + 1).drop_last() == whitelist@.subrange(0, i as int));
        }
        if whitelist[i] != *validator {
            kept.push(whitelist[i].clone());
        }
        i += 1;
    }
    assert(whitelist@.subrange(0, whitelist.len() as int) == whitelist@);
    proof {
        lemma_without(whitelist@, validator@);
    }
    if kept.len() == 0 {
        return Err(HubError::NoValidators);
    }
    let mut rng = seeded_rng(seed);
    let t = draw_index(&mut rng, kept.len());
    *whitelist = kept;
    Ok(t)
}

} // verus!
