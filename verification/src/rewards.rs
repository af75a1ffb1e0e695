//! The reward accrual ledger: per user and per denomination a running
//! balance of rewards owed, plus the set of every denomination ever
//! credited, so a user's full balance can be enumerated.
use crate::coins::{table_sum, Coin};
use crate::sorted_map::{seq_get, seq_has_key, SortedMap};
use vstd::prelude::*;

verus! {

/// One user's accrued balance in one denomination.
#[derive(Debug)]
pub struct RewardInfo {
    pub user: String,
    pub denom: String,
    /// Amount of rewards accrued
    pub accrued: u128,
}

impl RewardInfo {
    pub fn new(user: String, denom: String) -> (r: Self)
        ensures
            r.user@ == user@,
            r.denom@ == denom@,
            r.accrued == 0,
    {
        Self { user, denom, accrued: 0 }
    }
}

/// The ledger: the set of denominations ever seen, and per user the table
/// of accrued amounts by denomination.
pub struct RewardsSM {
    pub global_indices: SortedMap<bool>,
    pub user_rewards: SortedMap<SortedMap<u128>>,
}

/// What one user has accrued in one denomination, reading absences as zero.
pub open spec fn accrued_of(
    users: Seq<(Seq<char>, Seq<(Seq<char>, u128)>)>,
    u: Seq<char>,
    d: Seq<char>,
) -> int {
    match seq_get(users, u) {
        Some(m) => table_sum(m, d),
        None => 0,
    }
}

/// The non-zero balances of one user over the seen denominations, in the
/// denomination set's (ascending) order.
pub open spec fn accrued_list(
    gis: Seq<(Seq<char>, bool)>,
    m: Seq<(Seq<char>, u128)>,
) -> Seq<(Seq<char>, u128)>
    decreases gis.len(),
{
    if gis.len() == 0 {
        Seq::empty()
    } else {
        let rest = accrued_list(gis.drop_first(), m);
        if table_sum(m, gis[0].0) != 0 {
            seq![(gis[0].0, table_sum(m, gis[0].0) as u128)] + rest
        } else {
            rest
        }
    }
}

pub proof fn lemma_accrued_list_push(
    gis: Seq<(Seq<char>, bool)>,
    e: (Seq<char>, bool),
    m: Seq<(Seq<char>, u128)>,
)
    ensures
        accrued_list(gis.push(e), m) == accrued_list(gis, m) + (if table_sum(m, e.0) != 0 {
            seq![(e.0, table_sum(m, e.0) as u128)]
        } else {
            Seq::<(Seq<char>, u128)>::empty()
        }),
    decreases gis.len(),
{
    let tail = if table_sum(m, e.0) != 0 {
        seq![(e.0, table_sum(m, e.0) as u128)]
    } else {
        Seq::<(Seq<char>, u128)>::empty()
    };
    if gis.len() == 0 {
        assert(gis.push(e).len() == 1);
        assert(gis.push(e)[0] == e);
        assert(gis.push(e).drop_first() =~= Seq::<(Seq<char>, bool)>::empty());
        assert(accrued_list(gis.push(e).drop_first(), m) == Seq::<(Seq<char>, u128)>::empty());
        assert(accrued_list(gis.push(e), m) =~= accrued_list(gis, m) + tail);
    } else {
        assert(gis.push(e)[0] == gis[0]);
        assert(gis.push(e).drop_first() =~= gis.drop_first().push(e));
        lemma_accrued_list_push(gis.drop_first(), e, m);
        if table_sum(m, gis[0].0) != 0 {
            let head = seq![(gis[0].0, table_sum(m, gis[0].0) as u128)];
            assert(head + (accrued_list(gis.drop_first(), m) + tail) =~= (head + accrued_list(
                gis.drop_first(),
                m,
            )) + tail);
        }
    }
}

/// The inner accrual table of one user, or the empty table.
pub open spec fn user_table(
    users: Seq<(Seq<char>, Seq<(Seq<char>, u128)>)>,
    u: Seq<char>,
) -> Seq<(Seq<char>, u128)> {
    match seq_get(users, u) {
        Some(m) => m,
        None => Seq::empty(),
    }
}

impl Default for RewardsSM {
    fn default() -> (r: Self)
        ensures
            r.wf(),
            r.global_indices@ == Seq::<(Seq<char>, bool)>::empty(),
            r.user_rewards@ == Seq::<(Seq<char>, Seq<(Seq<char>, u128)>)>::empty(),
    {
        RewardsSM { global_indices: SortedMap::new(), user_rewards: SortedMap::new() }
    }
}

impl RewardsSM {
    /// Both tables are sorted, and every user's inner table is too.
    pub open spec fn wf(self) -> bool {
        &&& self.global_indices.wf()
        &&& self.user_rewards.wf()
        &&& forall|i: int|
            0 <= i < self.user_rewards@.len() ==> crate::sorted_map::keys_sorted(
                #[trigger] self.user_rewards@[i].1,
            )
    }

    pub fn new() -> (r: Self)
        ensures
            r.wf(),
            r.global_indices@ == Seq::<(Seq<char>, bool)>::empty(),
            r.user_rewards@ == Seq::<(Seq<char>, Seq<(Seq<char>, u128)>)>::empty(),
    {
        Self { global_indices: SortedMap::new(), user_rewards: SortedMap::new() }
    }

    /// Every user's stored inner table is sorted.
    proof fn lemma_inner_sorted(&self, u: Seq<char>)
        requires
            self.wf(),
        ensures
            crate::sorted_map::keys_sorted(user_table(self.user_rewards@, u)),
    {
        if seq_has_key(self.user_rewards@, u) {
            crate::sorted_map::lemma_sorted_get_position(self.user_rewards@, u);
        }
    }

    /// Get the list of accrued rewards for the specified user: each seen
    /// denomination with a non-zero balance, denominations ascending.
    pub fn get_accrued(&self, user: &String) -> (r: Vec<Coin>)
        requires
            self.wf(),
        ensures
            r.deep_view() == accrued_list(
                self.global_indices@,
                user_table(self.user_rewards@, user@),
            ),
    {
        proof {
            self.lemma_inner_sorted(user@);
        }
        let ghost m = user_table(self.user_rewards@, user@);
        let inner_opt = self.user_rewards.get(user);
        let n = self.global_indices.entries.len();
        let mut out: Vec<Coin> = Vec::new();
        let mut k: usize = 0;
        while k < n
            invariant
                k <= n,
                n == self.global_indices@.len(),
                n == self.global_indices.entries@.len(),
                m == user_table(self.user_rewards@, user@),
                match inner_opt {
                    Some(im) => seq_get(self.user_rewards@, user@) == Some(im.deep_view()) && im@
                        == m,
                    None => seq_get(self.user_rewards@, user@) is None && m == Seq::<
                        (Seq<char>, u128),
                    >::empty(),
                },
                out.deep_view() == accrued_list(self.global_indices@.take(k as int), m),
            decreases n - k,
        {
            let ghost gis = self.global_indices@;
            proof {
                assert(gis[k as int] == (
                    self.global_indices.entries@[k as int].0@,
                    self.global_indices.entries@[k as int].1,
                ));
                assert(gis.take(k + 1) =~= gis.take(k as int).push(gis[k as int]));
                lemma_accrued_list_push(gis.take(k as int), gis[k as int], m);
            }
            let amount: u128 = match inner_opt {
                Some(im) => match im.get(&self.global_indices.entries[k].0) {
                    Some(v) => *v,
                    None => 0,
                },
                None => 0,
            };
            proof {
                assert(amount as int == table_sum(m, gis[k as int].0));
            }
            if amount != 0 {
                let c = Coin { denom: self.global_indices.entries[k].0.clone(), amount };
                assert(c.deep_view() == (gis[k as int].0, table_sum(m, gis[k as int].0) as u128));
                out.push(c);
            }
            proof {
                assert(out.deep_view() =~= accrued_list(gis.take(k + 1), m));
            }
            k = k + 1;
        }
        proof {
            assert(self.global_indices@.take(n as int) =~= self.global_indices@);
        }
        out
    }

    /// Claim the accrued rewards for the specified user: returns the same
    /// list as a read would and zeroes every seen denomination's balance.
    pub fn claim_accrued(&mut self, user: &String) -> (r: Vec<Coin>)
        requires
            old(self).wf(),
        ensures
            final(self).wf(),
            r.deep_view() == accrued_list(
                old(self).global_indices@,
                user_table(old(self).user_rewards@, user@),
            ),
            final(self).global_indices@ == old(self).global_indices@,
            forall|d: Seq<char>|
                accrued_of(final(self).user_rewards@, user@, d) == (if seq_has_key(
                    old(self).global_indices@,
                    d,
                ) {
                    0int
                } else {
                    accrued_of(old(self).user_rewards@, user@, d)
                }),
            forall|u2: Seq<char>|
                u2 != user@ ==> seq_get(final(self).user_rewards@, u2) == seq_get(
                    old(self).user_rewards@,
                    u2,
                ),
    {
        proof {
            self.lemma_inner_sorted(user@);
        }
        let ghost users0 = old(self).user_rewards@;
        let ghost gis = self.global_indices@;
        let ghost m0 = user_table(users0, user@);
        let mut inner: SortedMap<u128> = match self.user_rewards.remove(user) {
            Some(m) => m,
            None => SortedMap::new(),
        };
        proof {
            assert forall|i: int|
                0 <= i < self.user_rewards@.len() implies crate::sorted_map::keys_sorted(
                #[trigger] self.user_rewards@[i].1,
            ) by {
                if crate::sorted_map::seq_has_key(users0, user@) {
                    let p = crate::sorted_map::first_ge(users0, user@);
                    crate::sorted_map::lemma_sorted_get_position(users0, user@);
                    assert(self.user_rewards@ == users0.remove(p));
                    if i < p {
                        assert(self.user_rewards@[i] == users0[i]);
                    } else {
                        assert(self.user_rewards@[i] == users0[i + 1]);
                    }
                }
            }
        }
        let ghost users_rm = self.user_rewards@;
        let n = self.global_indices.entries.len();
        let mut out: Vec<Coin> = Vec::new();
        let mut k: usize = 0;
        while k < n
            invariant
                k <= n,
                n == gis.len(),
                gis == self.global_indices@,
                n == self.global_indices.entries@.len(),
                self.global_indices.wf(),
                inner.wf(),
                self.user_rewards@ == users_rm,
                self.user_rewards.wf(),
                forall|u2: Seq<char>|
                    u2 != user@ ==> seq_get(users_rm, u2) == seq_get(users0, u2),
                forall|i: int|
                    0 <= i < self.user_rewards@.len() ==> crate::sorted_map::keys_sorted(
                        #[trigger] self.user_rewards@[i].1,
                    ),
                out.deep_view() == accrued_list(gis.take(k as int), m0),
                forall|d: Seq<char>|
                    table_sum(inner@, d) == (if (exists|i: int|
                        0 <= i < k && #[trigger] gis[i].0 == d) {
                        0int
                    } else {
                        table_sum(m0, d)
                    }),
            decreases n - k,
        {
            proof {
                assert(gis[k as int] == (
                    self.global_indices.entries@[k as int].0@,
                    self.global_indices.entries@[k as int].1,
                ));
                assert(gis.take(k + 1) =~= gis.take(k as int).push(gis[k as int]));
                lemma_accrued_list_push(gis.take(k as int), gis[k as int], m0);
                assert forall|i: int| 0 <= i < k implies gis[i].0 != gis[k as int].0 by {
                    assert(crate::str_order::lex_lt(gis[i].0, gis[k as int].0));
                    crate::str_order::lemma_lex_irrefl(gis[k as int].0);
                }
            }
            let ghost d0 = self.global_indices.entries@[k as int].0@;
            let cur: u128 = match inner.get(&self.global_indices.entries[k].0) {
                Some(v) => *v,
                None => 0,
            };
            proof {
                assert(cur as int == table_sum(inner@, d0));
                assert(cur as int == table_sum(m0, d0));
            }
            if cur != 0 {
                let c = Coin { denom: self.global_indices.entries[k].0.clone(), amount: cur };
                assert(c.deep_view() == (gis[k as int].0, table_sum(m0, gis[k as int].0) as u128));
                out.push(c);
            }
            let ghost in0 = inner@;
            let denom = self.global_indices.entries[k].0.clone();
            assert(denom@ == d0);
            inner.insert(denom, 0);
            proof {
                assert(out.deep_view() =~= accrued_list(gis.take(k + 1), m0));
                assert forall|d: Seq<char>|
                    table_sum(inner@, d) == (if (exists|i: int|
                        0 <= i < k + 1 && #[trigger] gis[i].0 == d) {
                        0int
                    } else {
                        table_sum(m0, d)
                    }) by {
                    if d == d0 {
                        assert(seq_get(inner@, d0) == Some(0u128));
                        assert(gis[k as int].0 == d);
                    } else {
                        assert(table_sum(in0, d) == (if (exists|i: int|
                            0 <= i < k && #[trigger] gis[i].0 == d) {
                            0int
                        } else {
                            table_sum(m0, d)
                        }));
                        assert(seq_get(inner@, d) == seq_get(in0, d));
                        assert((exists|i: int| 0 <= i < k + 1 && #[trigger] gis[i].0 == d) <==> (
                        exists|i: int| 0 <= i < k && #[trigger] gis[i].0 == d));
                    }
                }
            }
            k = k + 1;
        }
        proof {
            assert(gis.take(n as int) =~= gis);
        }
        let ghost before_put = self.user_rewards@;
        let user_key = user.clone();
        self.user_rewards.insert(user_key, inner);
        proof {
            assert forall|d: Seq<char>|
                accrued_of(self.user_rewards@, user@, d) == (if seq_has_key(gis, d) {
                    0int
                } else {
                    accrued_of(users0, user@, d)
                }) by {
                assert(seq_get(self.user_rewards@, user@) == Some(inner@));
                if seq_has_key(gis, d) {
                    crate::sorted_map::lemma_sorted_get_position(gis, d);
                    let p = crate::sorted_map::first_ge(gis, d);
                    assert(gis[p].0 == d);
                } else {
                    assert forall|i: int| 0 <= i < n implies gis[i].0 != d by {
                        crate::sorted_map::lemma_entry_key_found(gis, i);
                    }
                }
            }
            assert forall|u2: Seq<char>| u2 != user@ implies seq_get(self.user_rewards@, u2)
                == seq_get(users0, u2) by {
                assert(seq_get(self.user_rewards@, u2) == seq_get(before_put, u2));
                assert(seq_get(before_put, u2) == seq_get(users0, u2));
            }
            assert forall|i: int|
                0 <= i < self.user_rewards@.len() implies crate::sorted_map::keys_sorted(
                #[trigger] self.user_rewards@[i].1,
            ) by {
                let p = crate::sorted_map::first_ge(before_put, user@);
                crate::sorted_map::lemma_sorted_get_position(before_put, user@);
                if crate::sorted_map::seq_has_key(before_put, user@) {
                    assert(self.user_rewards@ == before_put.update(p, (user@, inner@)));
                    if i != p {
                        assert(self.user_rewards@[i] == before_put[i]);
                    }
                } else {
                    assert(self.user_rewards@ == before_put.insert(p, (user@, inner@)));
                    if i < p {
                        assert(self.user_rewards@[i] == before_put[i]);
                    } else if i > p {
                        assert(self.user_rewards@[i] == before_put[i - 1]);
                    }
                }
            }
        }
        out
    }

    /// Add to the accrued rewards for the specified user, registering any
    /// denomination not seen before.
    pub fn add_accrued_rewards(&mut self, user: &String, rewards: &Vec<Coin>)
        requires
            old(self).wf(),
            forall|d: Seq<char>|
                accrued_of(old(self).user_rewards@, user@, d) + crate::coins::sum_for(
                    rewards.deep_view(),
                    d,
                ) <= u128::MAX,
        ensures
            final(self).wf(),
            forall|d: Seq<char>|
                accrued_of(final(self).user_rewards@, user@, d) == accrued_of(
                    old(self).user_rewards@,
                    user@,
                    d,
                ) + crate::coins::sum_for(rewards.deep_view(), d),
            forall|u2: Seq<char>|
                u2 != user@ ==> seq_get(final(self).user_rewards@, u2) == seq_get(
                    old(self).user_rewards@,
                    u2,
                ),
            forall|d: Seq<char>|
                seq_has_key(final(self).global_indices@, d) <==> (seq_has_key(
                    old(self).global_indices@,
                    d,
                ) || (exists|i: int|
                    0 <= i < rewards.deep_view().len() && #[trigger] rewards.deep_view()[i].0
                        == d)),
    {
        let ghost cs = rewards.deep_view();
        proof {
            self.lemma_inner_sorted(user@);
        }
        let ghost users0 = old(self).user_rewards@;
        let mut inner: SortedMap<u128> = match self.user_rewards.remove(user) {
            Some(m) => m,
            None => SortedMap::new(),
        };
        proof {
            assert forall|i: int|
                0 <= i < self.user_rewards@.len() implies crate::sorted_map::keys_sorted(
                #[trigger] self.user_rewards@[i].1,
            ) by {
                if crate::sorted_map::seq_has_key(users0, user@) {
                    let p = crate::sorted_map::first_ge(users0, user@);
                    crate::sorted_map::lemma_sorted_get_position(users0, user@);
                    assert(self.user_rewards@ == users0.remove(p));
                    if i < p {
                        assert(self.user_rewards@[i] == users0[i]);
                    } else {
                        assert(self.user_rewards@[i] == users0[i + 1]);
                    }
                }
            }
            if crate::sorted_map::seq_has_key(users0, user@) {
                crate::sorted_map::lemma_sorted_get_position(users0, user@);
            }
        }
        let ghost users_rm = self.user_rewards@;
        let n = rewards.len();
        let mut j: usize = 0;
        while j < n
            invariant
                j <= n,
                n == cs.len(),
                cs == rewards.deep_view(),
                inner.wf(),
                self.global_indices.wf(),
                forall|d: Seq<char>|
                    accrued_of(users0, user@, d) + crate::coins::sum_for(cs, d) <= u128::MAX,
                forall|d: Seq<char>|
                    table_sum(inner@, d) == accrued_of(users0, user@, d) + crate::coins::sum_for(
                        cs.take(j as int),
                        d,
                    ),
                forall|d: Seq<char>|
                    seq_has_key(self.global_indices@, d) <==> (seq_has_key(
                        old(self).global_indices@,
                        d,
                    ) || (exists|i: int| 0 <= i < j && #[trigger] cs[i].0 == d)),
                self.user_rewards@ == users_rm,
                self.user_rewards.wf(),
                forall|u2: Seq<char>|
                    u2 != user@ ==> seq_get(users_rm, u2) == seq_get(users0, u2),
                forall|i: int|
                    0 <= i < self.user_rewards@.len() ==> crate::sorted_map::keys_sorted(
                        #[trigger] self.user_rewards@[i].1,
                    ),
            decreases n - j,
        {
            proof {
                assert(cs[j as int] == rewards@[j as int].deep_view());
                assert(cs.take(j + 1) =~= cs.take(j as int).push(cs[j as int]));
            }
            let ghost d0 = rewards@[j as int].denom@;
            let amount = rewards[j].amount;
            let cur: u128 = match inner.get(&rewards[j].denom) {
                Some(v) => *v,
                None => 0,
            };
            proof {
                crate::coins::lemma_sum_for_push(cs.take(j as int), cs[j as int], d0);
                crate::coins::lemma_sum_for_prefix(cs, j + 1, d0);
                assert(table_sum(inner@, d0) == accrued_of(users0, user@, d0)
                    + crate::coins::sum_for(cs.take(j as int), d0));
                assert(cur as int == table_sum(inner@, d0));
                assert(cur + amount <= u128::MAX);
            }
            let ghost in0 = inner@;
            let denom = rewards[j].denom.clone();
            assert(denom@ == d0);
            inner.insert(denom, cur + amount);
            proof {
                assert forall|d: Seq<char>|
                    table_sum(inner@, d) == accrued_of(users0, user@, d) + crate::coins::sum_for(
                        cs.take(j + 1),
                        d,
                    ) by {
                    crate::coins::lemma_sum_for_push(cs.take(j as int), cs[j as int], d);
                    if d == d0 {
                        assert(seq_get(inner@, d0) == Some((cur + amount) as u128));
                    } else {
                        assert(table_sum(in0, d) == accrued_of(users0, user@, d)
                            + crate::coins::sum_for(cs.take(j as int), d));
                        assert(seq_get(inner@, d) == seq_get(in0, d));
                    }
                }
            }
            let ghost gi0 = self.global_indices@;
            let had = self.global_indices.has(&rewards[j].denom);
            if !had {
                let denom2 = rewards[j].denom.clone();
                self.global_indices.insert(denom2, true);
            }
            proof {
                assert(seq_has_key(self.global_indices@, d0)) by {
                    if had {
                        assert(self.global_indices@ == gi0);
                        assert(seq_has_key(gi0, d0));
                    } else {
                        assert(seq_get(self.global_indices@, d0) == Some(true));
                    }
                }
                assert forall|d: Seq<char>|
                    seq_has_key(self.global_indices@, d) <==> (seq_has_key(
                        old(self).global_indices@,
                        d,
                    ) || (exists|i: int| 0 <= i <= j && #[trigger] cs[i].0 == d)) by {
                    if d == d0 {
                        assert(cs[j as int].0 == d);
                        assert(seq_has_key(self.global_indices@, d));
                    } else {
                        assert(seq_get(self.global_indices@, d) == seq_get(gi0, d));
                        assert(forall|i: int|
                            0 <= i <= j && #[trigger] cs[i].0 == d <==> 0 <= i < j && cs[i].0 == d);
                    }
                }
            }
            j = j + 1;
        }
        proof {
            assert(cs.take(n as int) =~= cs);
        }
        let ghost before_put = self.user_rewards@;
        let user_key = user.clone();
        self.user_rewards.insert(user_key, inner);
        proof {
            assert forall|d: Seq<char>|
                accrued_of(self.user_rewards@, user@, d) == accrued_of(users0, user@, d)
                    + crate::coins::sum_for(cs, d) by {
                assert(seq_get(self.user_rewards@, user@) is Some);
            }
            assert forall|u2: Seq<char>| u2 != user@ implies seq_get(self.user_rewards@, u2)
                == seq_get(users0, u2) by {
                assert(seq_get(self.user_rewards@, u2) == seq_get(before_put, u2));
                assert(seq_get(before_put, u2) == seq_get(users0, u2));
            }
            assert forall|i: int|
                0 <= i < self.user_rewards@.len() implies crate::sorted_map::keys_sorted(
                #[trigger] self.user_rewards@[i].1,
            ) by {
                let p = crate::sorted_map::first_ge(before_put, user@);
                crate::sorted_map::lemma_sorted_get_position(before_put, user@);
                if crate::sorted_map::seq_has_key(before_put, user@) {
                    assert(self.user_rewards@ == before_put.update(p, (user@, inner@)));
                    if i != p {
                        assert(self.user_rewards@[i] == before_put[i]);
                    }
                } else {
                    assert(self.user_rewards@ == before_put.insert(p, (user@, inner@)));
                    if i < p {
                        assert(self.user_rewards@[i] == before_put[i]);
                    } else if i > p {
                        assert(self.user_rewards@[i] == before_put[i - 1]);
                    }
                }
            }
        }
    }
}

} // verus!
