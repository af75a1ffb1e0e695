//! Plain coin values — a denomination and an amount — and the normal form
//! for coin lists: amounts merged per denomination, zero amounts dropped,
//! denominations in ascending order.
use crate::sorted_map::{keys_sorted, seq_get, SortedMap};
use vstd::prelude::*;

verus! {

/// An amount of one denomination.
#[derive(Debug)]
pub struct Coin {
    pub denom: String,
    pub amount: u128,
}

impl View for Coin {
    type V = (Seq<char>, u128);

    open spec fn view(&self) -> (Seq<char>, u128) {
        (self.denom@, self.amount)
    }
}

impl DeepView for Coin {
    type V = (Seq<char>, u128);

    open spec fn deep_view(&self) -> (Seq<char>, u128) {
        self.view()
    }
}

impl Clone for Coin {
    fn clone(&self) -> (r: Self)
        ensures
            r@ == self@,
    {
        Coin { denom: self.denom.clone(), amount: self.amount }
    }
}

/// The total carried by denomination `d` over the list.
pub open spec fn sum_for(s: Seq<(Seq<char>, u128)>, d: Seq<char>) -> int
    decreases s.len(),
{
    if s.len() == 0 {
        0
    } else {
        (if s[0].0 == d {
            s[0].1 as int
        } else {
            0
        }) + sum_for(s.drop_first(), d)
    }
}

/// Appending one entry adds its amount to its own denomination's total and
/// leaves every other total unchanged.
pub proof fn lemma_sum_for_push(s: Seq<(Seq<char>, u128)>, e: (Seq<char>, u128), d: Seq<char>)
    ensures
        sum_for(s.push(e), d) == sum_for(s, d) + (if e.0 == d {
            e.1 as int
        } else {
            0
        }),
    decreases s.len(),
{
    if s.len() == 0 {
        assert(s.push(e).len() == 1);
        assert(s.push(e)[0] == e);
        assert(s.push(e).drop_first() =~= Seq::<(Seq<char>, u128)>::empty());
        assert(sum_for(s.push(e).drop_first(), d) == 0);
    } else {
        assert(s.push(e)[0] == s[0]);
        assert(s.push(e).drop_first() =~= s.drop_first().push(e));
        lemma_sum_for_push(s.drop_first(), e, d);
    }
}

pub proof fn lemma_sum_for_nonneg(s: Seq<(Seq<char>, u128)>, d: Seq<char>)
    ensures
        sum_for(s, d) >= 0,
    decreases s.len(),
{
    if s.len() > 0 {
        lemma_sum_for_nonneg(s.drop_first(), d);
    }
}

/// A prefix never carries more of a denomination than the whole list.
pub proof fn lemma_sum_for_prefix(s: Seq<(Seq<char>, u128)>, j: int, d: Seq<char>)
    requires
        0 <= j <= s.len(),
    ensures
        0 <= sum_for(s.take(j), d) <= sum_for(s, d),
    decreases s.len() - j,
{
    if j == s.len() {
        assert(s.take(j) =~= s);
        lemma_sum_for_nonneg(s, d);
    } else {
        assert(s.take(j + 1) =~= s.take(j).push(s[j]));
        lemma_sum_for_push(s.take(j), s[j], d);
        lemma_sum_for_prefix(s, j + 1, d);
        lemma_sum_for_nonneg(s.take(j), d);
    }
}

/// A denomination on no entry sums to zero.
pub proof fn lemma_sum_for_absent(s: Seq<(Seq<char>, u128)>, d: Seq<char>)
    requires
        forall|j: int| 0 <= j < s.len() ==> s[j].0 != d,
    ensures
        sum_for(s, d) == 0,
    decreases s.len(),
{
    if s.len() > 0 {
        lemma_sum_for_absent(s.drop_first(), d);
    }
}

/// The lookup in a merge table, with absent keys reading as zero.
pub open spec fn table_sum(s: Seq<(Seq<char>, u128)>, d: Seq<char>) -> int {
    match seq_get(s, d) {
        Some(v) => v as int,
        None => 0,
    }
}

/// In a sorted table each denomination occurs at most once, so its summed
/// total is exactly what the lookup reads.
pub proof fn lemma_sum_is_table(s: Seq<(Seq<char>, u128)>, d: Seq<char>)
    requires
        keys_sorted(s),
    ensures
        sum_for(s, d) == table_sum(s, d),
    decreases s.len(),
{
    if s.len() > 0 {
        crate::sorted_map::lemma_keys_sorted_drop_first(s);
        lemma_sum_is_table(s.drop_first(), d);
        if s[0].0 == d {
            assert forall|j: int| 0 <= j < s.drop_first().len() implies s.drop_first()[j].0
                != d by {
                assert(s.drop_first()[j] == s[j + 1]);
                assert(crate::str_order::lex_lt(s[0].0, s[j + 1].0));
                crate::str_order::lemma_lex_irrefl(s[0].0);
            }
            lemma_sum_for_absent(s.drop_first(), d);
            crate::sorted_map::lemma_get_absent(s.drop_first(), d);
        }
    }
}

/// Bring a coin list to normal form: one entry per denomination carrying
/// the summed amount, zero totals dropped, denominations ascending.
pub fn normalize(coins: Vec<Coin>) -> (r: Vec<Coin>)
    requires
        forall|d: Seq<char>| sum_for(coins.deep_view(), d) <= u128::MAX,
    ensures
        keys_sorted(r.deep_view()),
        forall|d: Seq<char>| sum_for(r.deep_view(), d) == sum_for(coins.deep_view(), d),
        forall|i: int| 0 <= i < r.deep_view().len() ==> r.deep_view()[i].1 > 0,
{
    let ghost cs = coins.deep_view();
    let n = coins.len();
    let mut acc: SortedMap<u128> = SortedMap::new();
    let mut j: usize = 0;
    while j < n
        invariant
            j <= n,
            n == coins@.len(),
            cs == coins.deep_view(),
            cs.len() == n,
            acc.wf(),
            forall|d: Seq<char>| sum_for(cs, d) <= u128::MAX,
            forall|d: Seq<char>| table_sum(acc@, d) == sum_for(cs.take(j as int), d),
            forall|i: int| 0 <= i < acc@.len() ==> acc@[i].1 > 0,
        decreases n - j,
    {
        proof {
            assert(cs[j as int] == coins@[j as int].deep_view());
            assert(cs.take(j + 1) =~= cs.take(j as int).push(cs[j as int]));
        }
        let amount = coins[j].amount;
        let ghost d0 = coins@[j as int].denom@;
        if amount > 0 {
            let cur: u128 = match acc.get(&coins[j].denom) {
                Some(v) => *v,
                None => 0,
            };
            proof {
                assert(cs[j as int] == (d0, amount));
                lemma_sum_for_push(cs.take(j as int), cs[j as int], d0);
                lemma_sum_for_prefix(cs, j + 1, d0);
                assert(table_sum(acc@, d0) == sum_for(cs.take(j as int), d0));
                assert(cur as int == table_sum(acc@, d0));
                assert(cur + amount == sum_for(cs.take(j + 1), d0));
                assert(sum_for(cs.take(j + 1), d0) <= sum_for(cs, d0));
            }
            let ghost sa = acc@;
            let denom = coins[j].denom.clone();
            assert(denom@ == d0);
            acc.insert(denom, cur + amount);
            proof {
                assert forall|d: Seq<char>| table_sum(acc@, d) == sum_for(cs.take(j + 1), d) by {
                    lemma_sum_for_push(cs.take(j as int), cs[j as int], d);
                    if d == d0 {
                        assert(seq_get(acc@, d0) == Some((cur + amount) as u128));
                    } else {
                        assert(table_sum(sa, d) == sum_for(cs.take(j as int), d));
                        assert(seq_get(acc@, d) == seq_get(sa, d));
                    }
                }
                assert forall|i: int| 0 <= i < acc@.len() implies acc@[i].1 > 0 by {
                    let p = crate::sorted_map::first_ge(sa, d0);
                    crate::sorted_map::lemma_sorted_get_position(sa, d0);
                    if crate::sorted_map::seq_has_key(sa, d0) {
                        assert(acc@ == sa.update(p, (d0, (cur + amount) as u128)));
                        if i != p {
                            assert(acc@[i] == sa[i]);
                        }
                    } else {
                        assert(acc@ == sa.insert(p, (d0, (cur + amount) as u128)));
                        if i < p {
                            assert(acc@[i] == sa[i]);
                        } else if i > p {
                            assert(acc@[i] == sa[i - 1]);
                        }
                    }
                }
            }
        } else {
            proof {
                assert forall|d: Seq<char>| table_sum(acc@, d) == sum_for(cs.take(j + 1), d) by {
                    lemma_sum_for_push(cs.take(j as int), cs[j as int], d);
                }
            }
        }
        j = j + 1;
    }
    proof {
        assert(cs.take(n as int) =~= cs);
    }
    let m = acc.entries.len();
    let mut out: Vec<Coin> = Vec::new();
    let mut i: usize = 0;
    while i < m
        invariant
            i <= m,
            m == acc@.len(),
            m == acc.entries@.len(),
            out@.len() == i,
            forall|k: int| 0 <= k < i ==> #[trigger] out@[k].deep_view() == acc@[k],
        decreases m - i,
    {
        proof {
            assert(acc@[i as int] == (acc.entries@[i as int].0@, acc.entries@[i as int].1));
        }
        let c = Coin { denom: acc.entries[i].0.clone(), amount: acc.entries[i].1 };
        assert(c.deep_view() == acc@[i as int]);
        out.push(c);
        i = i + 1;
    }
    proof {
        assert(out.deep_view() =~= acc@);
        assert forall|d: Seq<char>| sum_for(out.deep_view(), d) == sum_for(cs, d) by {
            lemma_sum_is_table(acc@, d);
        }
    }
    out
}

} // verus!
