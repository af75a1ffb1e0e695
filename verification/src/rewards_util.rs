//! Weighted fee arithmetic over coin lists.  Two policies: an additive
//! extraction that takes each recipient's floored share out of the amounts
//! and leaves the rounding dust with the source, and a full proportional
//! distribution over normalized weights whose rounding dust is simply never
//! handed out.  All shares round down, per coin, per recipient, in list
//! order, so the dust falls deterministically.
use crate::coins::Coin;
use crate::fixed::{frac_div, lemma_from_ratio_le_one, lemma_mul_div_le};
use crate::fixed::{mul_frac_floor, spec_mul_floor, FRAC_ONE};
use vstd::arithmetic::mul::lemma_mul_nonnegative;
use vstd::prelude::*;

verus! {

/// One recipient's floored share of one coin amount.
pub open spec fn share_of(amount: u128, weight: u128) -> int {
    spec_mul_floor(amount, weight)
}

pub proof fn lemma_share_nonneg(amount: u128, weight: u128)
    ensures
        share_of(amount, weight) >= 0,
{
    lemma_mul_nonnegative(amount as int, weight as int);
    vstd::arithmetic::div_mod::lemma_div_pos_is_pos(amount * weight, FRAC_ONE as int);
}

/// The coins one recipient of weight `w` receives: its nonzero shares of
/// the amounts, in the amounts' order.
pub open spec fn row_for(rs: Seq<(Seq<char>, u128)>, w: u128) -> Seq<(Seq<char>, u128)>
    decreases rs.len(),
{
    if rs.len() == 0 {
        Seq::empty()
    } else {
        let rest = row_for(rs.drop_first(), w);
        if share_of(rs[0].1, w) != 0 {
            seq![(rs[0].0, share_of(rs[0].1, w) as u128)] + rest
        } else {
            rest
        }
    }
}

pub proof fn lemma_row_for_push(rs: Seq<(Seq<char>, u128)>, e: (Seq<char>, u128), w: u128)
    ensures
        row_for(rs.push(e), w) == row_for(rs, w) + (if share_of(e.1, w) != 0 {
            seq![(e.0, share_of(e.1, w) as u128)]
        } else {
            Seq::<(Seq<char>, u128)>::empty()
        }),
    decreases rs.len(),
{
    let tail = if share_of(e.1, w) != 0 {
        seq![(e.0, share_of(e.1, w) as u128)]
    } else {
        Seq::<(Seq<char>, u128)>::empty()
    };
    if rs.len() == 0 {
        assert(rs.push(e).len() == 1);
        assert(rs.push(e)[0] == e);
        assert(rs.push(e).drop_first() =~= Seq::<(Seq<char>, u128)>::empty());
        assert(row_for(rs.push(e).drop_first(), w) == Seq::<(Seq<char>, u128)>::empty());
        assert(row_for(rs.push(e), w) =~= row_for(rs, w) + tail);
    } else {
        assert(rs.push(e)[0] == rs[0]);
        assert(rs.push(e).drop_first() =~= rs.drop_first().push(e));
        lemma_row_for_push(rs.drop_first(), e, w);
        if share_of(rs[0].1, w) != 0 {
            let head = seq![(rs[0].0, share_of(rs[0].1, w) as u128)];
            assert(head + (row_for(rs.drop_first(), w) + tail) =~= (head + row_for(
                rs.drop_first(),
                w,
            )) + tail);
        }
    }
}

/// The sum of the weights.
pub open spec fn weight_sum(fs: Seq<(Seq<char>, u128)>) -> int
    decreases fs.len(),
{
    if fs.len() == 0 {
        0
    } else {
        fs[0].1 + weight_sum(fs.drop_first())
    }
}

pub proof fn lemma_weight_sum_nonneg(fs: Seq<(Seq<char>, u128)>)
    ensures
        weight_sum(fs) >= 0,
    decreases fs.len(),
{
    if fs.len() > 0 {
        lemma_weight_sum_nonneg(fs.drop_first());
    }
}

pub proof fn lemma_weight_sum_push(fs: Seq<(Seq<char>, u128)>, e: (Seq<char>, u128))
    ensures
        weight_sum(fs.push(e)) == weight_sum(fs) + e.1,
    decreases fs.len(),
{
    if fs.len() == 0 {
        assert(fs.push(e).len() == 1);
        assert(fs.push(e)[0] == e);
        assert(fs.push(e).drop_first() =~= Seq::<(Seq<char>, u128)>::empty());
        assert(weight_sum(fs.push(e).drop_first()) == 0);
    } else {
        assert(fs.push(e)[0] == fs[0]);
        assert(fs.push(e).drop_first() =~= fs.drop_first().push(e));
        lemma_weight_sum_push(fs.drop_first(), e);
    }
}

/// A prefix of the weights sums to no more than all of them.
pub proof fn lemma_weight_sum_prefix(fs: Seq<(Seq<char>, u128)>, i: int)
    requires
        0 <= i <= fs.len(),
    ensures
        0 <= weight_sum(fs.take(i)) <= weight_sum(fs),
    decreases fs.len() - i,
{
    if i == fs.len() {
        assert(fs.take(i) =~= fs);
        lemma_weight_sum_nonneg(fs);
    } else {
        assert(fs.take(i + 1) =~= fs.take(i).push(fs[i]));
        lemma_weight_sum_push(fs.take(i), fs[i]);
        lemma_weight_sum_prefix(fs, i + 1);
        lemma_weight_sum_nonneg(fs.take(i));
    }
}

/// No single weight exceeds the sum of all of them.
pub proof fn lemma_weight_le_sum(fs: Seq<(Seq<char>, u128)>, i: int)
    requires
        0 <= i < fs.len(),
    ensures
        fs[i].1 <= weight_sum(fs),
    decreases i,
{
    lemma_weight_sum_nonneg(fs.drop_first());
    if i == 0 {
    } else {
        lemma_weight_le_sum(fs.drop_first(), i - 1);
        assert(fs.drop_first()[i - 1] == fs[i]);
    }
}

/// The combined fee taken out of one coin amount by all recipients.
pub open spec fn coin_fee_total(amount: u128, fs: Seq<(Seq<char>, u128)>) -> int
    decreases fs.len(),
{
    if fs.len() == 0 {
        0
    } else {
        share_of(amount, fs[0].1) + coin_fee_total(amount, fs.drop_first())
    }
}

pub proof fn lemma_coin_fee_total_push(amount: u128, fs: Seq<(Seq<char>, u128)>, e: (
    Seq<char>,
    u128,
))
    ensures
        coin_fee_total(amount, fs.push(e)) == coin_fee_total(amount, fs) + share_of(amount, e.1),
    decreases fs.len(),
{
    if fs.len() == 0 {
        assert(fs.push(e).len() == 1);
        assert(fs.push(e)[0] == e);
        assert(fs.push(e).drop_first() =~= Seq::<(Seq<char>, u128)>::empty());
        assert(coin_fee_total(amount, fs.push(e).drop_first()) == 0);
    } else {
        assert(fs.push(e)[0] == fs[0]);
        assert(fs.push(e).drop_first() =~= fs.drop_first().push(e));
        lemma_coin_fee_total_push(amount, fs.drop_first(), e);
    }
}

/// A prefix of the recipients takes no more than all of them.
pub proof fn lemma_coin_fee_total_prefix(amount: u128, fs: Seq<(Seq<char>, u128)>, i: int)
    requires
        0 <= i <= fs.len(),
    ensures
        0 <= coin_fee_total(amount, fs.take(i)) <= coin_fee_total(amount, fs),
    decreases fs.len() - i,
{
    if i == fs.len() {
        assert(fs.take(i) =~= fs);
        lemma_coin_fee_total_nonneg(amount, fs);
    } else {
        assert(fs.take(i + 1) =~= fs.take(i).push(fs[i]));
        lemma_coin_fee_total_push(amount, fs.take(i), fs[i]);
        lemma_coin_fee_total_prefix(amount, fs, i + 1);
        lemma_coin_fee_total_nonneg(amount, fs.take(i));
        lemma_share_nonneg(amount, fs[i].1);
    }
}

pub proof fn lemma_coin_fee_total_nonneg(amount: u128, fs: Seq<(Seq<char>, u128)>)
    ensures
        coin_fee_total(amount, fs) >= 0,
    decreases fs.len(),
{
    if fs.len() > 0 {
        lemma_share_nonneg(amount, fs[0].1);
        lemma_coin_fee_total_nonneg(amount, fs.drop_first());
    }
}

/// One recipient's share is within the combined fee.
pub proof fn lemma_share_le_total(amount: u128, fs: Seq<(Seq<char>, u128)>, i: int)
    requires
        0 <= i < fs.len(),
    ensures
        share_of(amount, fs[i].1) <= coin_fee_total(amount, fs),
    decreases i,
{
    lemma_coin_fee_total_nonneg(amount, fs.drop_first());
    lemma_share_nonneg(amount, fs[0].1);
    if i > 0 {
        lemma_share_le_total(amount, fs.drop_first(), i - 1);
        assert(fs.drop_first()[i - 1] == fs[i]);
    }
}

/// What is left of the amounts after the additive extraction: each amount
/// less its combined fee, amounts that reach zero dropped.
pub open spec fn remaining_coins(rs: Seq<(Seq<char>, u128)>, fs: Seq<(Seq<char>, u128)>) -> Seq<
    (Seq<char>, u128),
>
    decreases rs.len(),
{
    if rs.len() == 0 {
        Seq::empty()
    } else {
        let left = rs[0].1 - coin_fee_total(rs[0].1, fs);
        let rest = remaining_coins(rs.drop_first(), fs);
        if left != 0 {
            seq![(rs[0].0, left as u128)] + rest
        } else {
            rest
        }
    }
}

pub proof fn lemma_remaining_coins_push(rs: Seq<(Seq<char>, u128)>, e: (Seq<char>, u128), fs: Seq<
    (Seq<char>, u128),
>)
    ensures
        remaining_coins(rs.push(e), fs) == remaining_coins(rs, fs) + (if e.1 - coin_fee_total(
            e.1,
            fs,
        ) != 0 {
            seq![(e.0, (e.1 - coin_fee_total(e.1, fs)) as u128)]
        } else {
            Seq::<(Seq<char>, u128)>::empty()
        }),
    decreases rs.len(),
{
    let tail = if e.1 - coin_fee_total(e.1, fs) != 0 {
        seq![(e.0, (e.1 - coin_fee_total(e.1, fs)) as u128)]
    } else {
        Seq::<(Seq<char>, u128)>::empty()
    };
    if rs.len() == 0 {
        assert(rs.push(e).len() == 1);
        assert(rs.push(e)[0] == e);
        assert(rs.push(e).drop_first() =~= Seq::<(Seq<char>, u128)>::empty());
        assert(remaining_coins(rs.push(e).drop_first(), fs) == Seq::<(Seq<char>, u128)>::empty());
        assert(remaining_coins(rs.push(e), fs) =~= remaining_coins(rs, fs) + tail);
    } else {
        assert(rs.push(e)[0] == rs[0]);
        assert(rs.push(e).drop_first() =~= rs.drop_first().push(e));
        lemma_remaining_coins_push(rs.drop_first(), e, fs);
        let left = rs[0].1 - coin_fee_total(rs[0].1, fs);
        if left != 0 {
            let head = seq![(rs[0].0, left as u128)];
            assert(head + (remaining_coins(rs.drop_first(), fs) + tail) =~= (head + remaining_coins(
                rs.drop_first(),
                fs,
            )) + tail);
        }
    }
}

/// The rows of the split: one entry per recipient whose row is non-empty,
/// in recipient order.
pub open spec fn split_rows(rs: Seq<(Seq<char>, u128)>, fs: Seq<(Seq<char>, u128)>) -> Seq<
    (Seq<char>, Seq<(Seq<char>, u128)>),
>
    decreases fs.len(),
{
    if fs.len() == 0 {
        Seq::empty()
    } else {
        let row = row_for(rs, fs[0].1);
        let rest = split_rows(rs, fs.drop_first());
        if row.len() != 0 {
            seq![(fs[0].0, row)] + rest
        } else {
            rest
        }
    }
}

pub proof fn lemma_split_rows_push(rs: Seq<(Seq<char>, u128)>, fs: Seq<(Seq<char>, u128)>, e: (
    Seq<char>,
    u128,
))
    ensures
        split_rows(rs, fs.push(e)) == split_rows(rs, fs) + (if row_for(rs, e.1).len() != 0 {
            seq![(e.0, row_for(rs, e.1))]
        } else {
            Seq::<(Seq<char>, Seq<(Seq<char>, u128)>)>::empty()
        }),
    decreases fs.len(),
{
    let tail = if row_for(rs, e.1).len() != 0 {
        seq![(e.0, row_for(rs, e.1))]
    } else {
        Seq::<(Seq<char>, Seq<(Seq<char>, u128)>)>::empty()
    };
    if fs.len() == 0 {
        assert(fs.push(e).len() == 1);
        assert(fs.push(e)[0] == e);
        assert(fs.push(e).drop_first() =~= Seq::<(Seq<char>, u128)>::empty());
        assert(split_rows(rs, fs.push(e).drop_first()) == Seq::<(Seq<char>, Seq<(Seq<char>, u128)>)>::empty());
        assert(split_rows(rs, fs.push(e)) =~= split_rows(rs, fs) + tail);
    } else {
        assert(fs.push(e)[0] == fs[0]);
        assert(fs.push(e).drop_first() =~= fs.drop_first().push(e));
        lemma_split_rows_push(rs, fs.drop_first(), e);
        if row_for(rs, fs[0].1).len() != 0 {
            let head = seq![(fs[0].0, row_for(rs, fs[0].1))];
            assert(head + (split_rows(rs, fs.drop_first()) + tail) =~= (head + split_rows(
                rs,
                fs.drop_first(),
            )) + tail);
        }
    }
}

/// The weights scaled so that they sum to about one whole: each becomes its
/// floored fraction of the total.
pub open spec fn norm_fees(fs: Seq<(Seq<char>, u128)>) -> Seq<(Seq<char>, u128)> {
    Seq::new(fs.len(), |i: int| (fs[i].0, ((fs[i].1 * FRAC_ONE) / weight_sum(fs)) as u128))
}

/// Calculates the fees sent to each address and reduces the amounts in
/// place by what was taken; rounding dust stays with the amounts.
/// Recipients whose every share floored to zero are dropped, as are amounts
/// fully consumed.
pub fn calculate_fee_split(rewards: &mut Vec<Coin>, fees: &Vec<(String, u128)>) -> (result: Vec<
    (String, Vec<Coin>),
>)
    requires
        forall|j: int|
            0 <= j < old(rewards).deep_view().len() ==> coin_fee_total(
                (#[trigger] old(rewards).deep_view()[j]).1,
                fees.deep_view(),
            ) <= old(rewards).deep_view()[j].1,
    ensures
        result.deep_view() == split_rows(old(rewards).deep_view(), fees.deep_view()),
        final(rewards).deep_view() == remaining_coins(old(rewards).deep_view(), fees.deep_view()),
{
    let ghost rs = rewards.deep_view();
    let ghost fs = fees.deep_view();
    let nf = fees.len();
    let nr = rewards.len();
    let mut result: Vec<(String, Vec<Coin>)> = Vec::new();
    let mut i: usize = 0;
    while i < nf
        invariant
            i <= nf,
            nf == fs.len(),
            nr == rs.len(),
            *rewards == *old(rewards),
            rs == rewards.deep_view(),
            fs == fees.deep_view(),
            forall|j2: int|
                0 <= j2 < rs.len() ==> coin_fee_total((#[trigger] rs[j2]).1, fs) <= rs[j2].1,
            result.deep_view() == split_rows(rs, fs.take(i as int)),
        decreases nf - i,
    {
        let w = fees[i].1;
        proof {
            assert(fs[i as int] == (fees@[i as int].0@, fees@[i as int].1));
        }
        let mut row: Vec<Coin> = Vec::new();
        let mut j: usize = 0;
        while j < nr
            invariant
                j <= nr,
                nr == rs.len(),
                *rewards == *old(rewards),
                rs == rewards.deep_view(),
                fs == fees.deep_view(),
                0 <= i < fs.len(),
                w == fs[i as int].1,
                forall|j2: int|
                    0 <= j2 < rs.len() ==> coin_fee_total((#[trigger] rs[j2]).1, fs) <= rs[j2].1,
                row.deep_view() == row_for(rs.take(j as int), w),
            decreases nr - j,
        {
            proof {
                assert(rs[j as int] == rewards@[j as int].deep_view());
                assert(rs.take(j + 1) =~= rs.take(j as int).push(rs[j as int]));
                lemma_row_for_push(rs.take(j as int), rs[j as int], w);
                lemma_share_le_total(rewards@[j as int].amount, fs, i as int);
            }
            let share = mul_frac_floor(rewards[j].amount, w);
            if share != 0 {
                let c = Coin { denom: rewards[j].denom.clone(), amount: share };
                assert(c.deep_view() == (rs[j as int].0, share_of(rs[j as int].1, w) as u128));
                row.push(c);
            }
            proof {
                assert(row.deep_view() =~= row_for(rs.take(j + 1), w));
            }
            j = j + 1;
        }
        proof {
            assert(rs.take(nr as int) =~= rs);
            assert(fs.take(i + 1) =~= fs.take(i as int).push(fs[i as int]));
            lemma_split_rows_push(rs, fs.take(i as int), fs[i as int]);
        }
        if row.len() > 0 {
            let addr = fees[i].0.clone();
            result.push((addr, row));
        }
        proof {
            assert(result.deep_view() =~= split_rows(rs, fs.take(i + 1)));
        }
        i = i + 1;
    }
    proof {
        assert(fs.take(nf as int) =~= fs);
    }
    let mut remaining: Vec<Coin> = Vec::new();
    let mut j: usize = 0;
    while j < nr
        invariant
            j <= nr,
            nr == rs.len(),
            nf == fs.len(),
            *rewards == *old(rewards),
            rs == rewards.deep_view(),
            fs == fees.deep_view(),
            forall|j2: int|
                0 <= j2 < rs.len() ==> coin_fee_total((#[trigger] rs[j2]).1, fs) <= rs[j2].1,
            remaining.deep_view() == remaining_coins(rs.take(j as int), fs),
        decreases nr - j,
    {
        proof {
            assert(rs[j as int] == rewards@[j as int].deep_view());
        }
        let a = rewards[j].amount;
        proof {
            assert(coin_fee_total(a, fs) <= a);
        }
        let mut total: u128 = 0;
        let mut ii: usize = 0;
        while ii < nf
            invariant
                ii <= nf,
                nf == fs.len(),
                *rewards == *old(rewards),
                fs == fees.deep_view(),
                coin_fee_total(a, fs) <= a,
                total == coin_fee_total(a, fs.take(ii as int)),
            decreases nf - ii,
        {
            proof {
                assert(fs[ii as int] == (fees@[ii as int].0@, fees@[ii as int].1));
                lemma_share_le_total(a, fs, ii as int);
            }
            let share = mul_frac_floor(a, fees[ii].1);
            proof {
                assert(fs.take(ii + 1) =~= fs.take(ii as int).push(fs[ii as int]));
                lemma_coin_fee_total_push(a, fs.take(ii as int), fs[ii as int]);
                lemma_coin_fee_total_prefix(a, fs, ii + 1);
            }
            total = total + share;
            ii = ii + 1;
        }
        proof {
            assert(fs.take(nf as int) =~= fs);
            assert(rs.take(j + 1) =~= rs.take(j as int).push(rs[j as int]));
            lemma_remaining_coins_push(rs.take(j as int), rs[j as int], fs);
        }
        let left = a - total;
        if left != 0 {
            let c = Coin { denom: rewards[j].denom.clone(), amount: left };
            assert(c.deep_view() == (rs[j as int].0, (rs[j as int].1 - coin_fee_total(
                rs[j as int].1,
                fs,
            )) as u128));
            remaining.push(c);
        }
        proof {
            assert(remaining.deep_view() =~= remaining_coins(rs.take(j + 1), fs));
        }
        j = j + 1;
    }
    proof {
        assert(rs.take(nr as int) =~= rs);
    }
    *rewards = remaining;
    result
}

/// Splits the entire input amount among the recipients according to their
/// relative weights; what the floors leave over is handed to no one.
pub fn calculate_fee_distribution(rewards: Vec<Coin>, fees: &Vec<(String, u128)>) -> (result: Vec<
    (String, Vec<Coin>),
>)
    requires
        weight_sum(fees.deep_view()) <= u128::MAX,
        rewards@.len() > 0 && fees@.len() > 0 ==> weight_sum(fees.deep_view()) > 0,
    ensures
        result.deep_view() == split_rows(rewards.deep_view(), norm_fees(fees.deep_view())),
{
    let ghost rs = rewards.deep_view();
    let ghost fs = fees.deep_view();
    let ghost nfs = norm_fees(fs);
    let nf = fees.len();
    let nr = rewards.len();
    let mut total: u128 = 0;
    let mut ii: usize = 0;
    while ii < nf
        invariant
            ii <= nf,
            nf == fs.len(),
            fs == fees.deep_view(),
            weight_sum(fs) <= u128::MAX,
            total == weight_sum(fs.take(ii as int)),
        decreases nf - ii,
    {
        proof {
            assert(fs[ii as int] == (fees@[ii as int].0@, fees@[ii as int].1));
            assert(fs.take(ii + 1) =~= fs.take(ii as int).push(fs[ii as int]));
            lemma_weight_sum_push(fs.take(ii as int), fs[ii as int]);
            lemma_weight_sum_prefix(fs, ii + 1);
        }
        total = total + fees[ii].1;
        ii = ii + 1;
    }
    proof {
        assert(fs.take(nf as int) =~= fs);
    }
    let mut result: Vec<(String, Vec<Coin>)> = Vec::new();
    let mut i: usize = 0;
    while i < nf
        invariant
            i <= nf,
            nf == fs.len(),
            nr == rs.len(),
            rs == rewards.deep_view(),
            fs == fees.deep_view(),
            nfs == norm_fees(fs),
            total == weight_sum(fs),
            nr > 0 && nf > 0 ==> total > 0,
            result.deep_view() == split_rows(rs, nfs.take(i as int)),
        decreases nf - i,
    {
        proof {
            assert(fs[i as int] == (fees@[i as int].0@, fees@[i as int].1));
            assert(nfs[i as int] == (fs[i as int].0, ((fs[i as int].1 * FRAC_ONE) / weight_sum(
                fs,
            )) as u128));
        }
        let mut row: Vec<Coin> = Vec::new();
        if nr > 0 {
            proof {
                lemma_weight_le_sum(fs, i as int);
                lemma_from_ratio_le_one(fees@[i as int].1, total);
            }
            let wn = frac_div(fees[i].1, total);
            assert(wn == nfs[i as int].1);
            let mut j: usize = 0;
            while j < nr
                invariant
                    j <= nr,
                    nr == rs.len(),
                    rs == rewards.deep_view(),
                    wn <= FRAC_ONE,
                    row.deep_view() == row_for(rs.take(j as int), wn),
                decreases nr - j,
            {
                proof {
                    assert(rs[j as int] == rewards@[j as int].deep_view());
                    assert(rs.take(j + 1) =~= rs.take(j as int).push(rs[j as int]));
                    lemma_row_for_push(rs.take(j as int), rs[j as int], wn);
                    lemma_mul_div_le(rewards@[j as int].amount, wn, FRAC_ONE);
                }
                let share = mul_frac_floor(rewards[j].amount, wn);
                if share != 0 {
                    let c = Coin { denom: rewards[j].denom.clone(), amount: share };
                    assert(c.deep_view() == (rs[j as int].0, share_of(rs[j as int].1, wn) as u128));
                    row.push(c);
                }
                proof {
                    assert(row.deep_view() =~= row_for(rs.take(j + 1), wn));
                }
                j = j + 1;
            }
            proof {
                assert(rs.take(nr as int) =~= rs);
            }
        } else {
            proof {
                assert(rs.len() == 0);
                assert(rs =~= Seq::<(Seq<char>, u128)>::empty());
                assert(row.deep_view() =~= row_for(rs, nfs[i as int].1));
            }
        }
        proof {
            assert(nfs.take(i + 1) =~= nfs.take(i as int).push(nfs[i as int]));
            lemma_split_rows_push(rs, nfs.take(i as int), nfs[i as int]);
        }
        if row.len() > 0 {
            let addr = fees[i].0.clone();
            result.push((addr, row));
        }
        proof {
            assert(result.deep_view() =~= split_rows(rs, nfs.take(i + 1)));
        }
        i = i + 1;
    }
    proof {
        assert(nfs.take(nf as int) =~= nfs);
    }
    result
}

} // verus!
