//! Round bookkeeping across restarts: a monotonically increasing round
//! index, and a bounded ring of the last ten rounds' snapshots, evicted as
//! the index moves on.
use crate::coins::Coin;
use crate::config::Config;
use crate::error::ContractError;
use crate::game::{GameSM, GameSmSnapshot, PlayerStatusView};
use crate::rewards_util::{norm_fees, split_rows, weight_sum};
use vstd::prelude::*;

verus! {

/// The ghost image of a stored snapshot.
pub type SnapView = (
    crate::decay_game::DecayGame,
    Option<(Seq<char>, i64)>,
    Seq<(Seq<char>, crate::decay_game::DecayGameAccount)>,
    Seq<PlayerStatusView>,
    Seq<(Seq<char>, u128)>,
);

impl DeepView for GameSmSnapshot {
    type V = SnapView;

    open spec fn deep_view(&self) -> SnapView {
        (
            self.decay_game,
            self.current_winner.deep_view(),
            self.accounts.deep_view(),
            self.players.deep_view(),
            self.referrals.deep_view(),
        )
    }
}

/// What a snapshot of the given round state looks like.
pub open spec fn game_snap_view(g: GameSM) -> SnapView {
    (
        g.game_base.decay_game,
        g.game_base.winner_view(),
        g.accounts@,
        g.players@.map_values(|e: (Seq<char>, PlayerStatusView)| e.1),
        g.ref_weight@,
    )
}

/// The snapshot stored under round index `k`, if any.
pub open spec fn snaps_get(s: Seq<(u64, SnapView)>, k: int) -> Option<SnapView>
    decreases s.len(),
{
    if s.len() == 0 {
        None
    } else if s[0].0 == k {
        Some(s[0].1)
    } else {
        snaps_get(s.drop_first(), k)
    }
}

pub proof fn lemma_snaps_get_by_index(s: Seq<(u64, SnapView)>, i: int)
    requires
        0 <= i < s.len(),
        forall|j: int| 0 <= j < i ==> s[j].0 != s[i].0,
    ensures
        snaps_get(s, s[i].0 as int) == Some(s[i].1),
    decreases i,
{
    if i > 0 {
        lemma_snaps_get_by_index(s.drop_first(), i - 1);
        assert(s.drop_first()[i - 1] == s[i]);
    }
}

pub proof fn lemma_snaps_get_absent(s: Seq<(u64, SnapView)>, k: int)
    requires
        forall|j: int| 0 <= j < s.len() ==> s[j].0 != k,
    ensures
        snaps_get(s, k) is None,
    decreases s.len(),
{
    if s.len() > 0 {
        lemma_snaps_get_absent(s.drop_first(), k);
    }
}

/// Appending a fresh index stores it and touches no other lookup.
pub proof fn lemma_snaps_get_push(s: Seq<(u64, SnapView)>, e: (u64, SnapView), k: int)
    requires
        forall|j: int| 0 <= j < s.len() ==> s[j].0 != e.0,
    ensures
        snaps_get(s.push(e), k) == (if e.0 == k {
            Some(e.1)
        } else {
            snaps_get(s, k)
        }),
    decreases s.len(),
{
    if s.len() == 0 {
        assert(s.push(e).len() == 1);
        assert(s.push(e)[0] == e);
        assert(s.push(e).drop_first() =~= Seq::<(u64, SnapView)>::empty());
        assert(snaps_get(s.push(e).drop_first(), k) is None);
    } else {
        assert(s.push(e)[0] == s[0]);
        assert(s.push(e).drop_first() =~= s.drop_first().push(e));
        lemma_snaps_get_push(s.drop_first(), e, k);
    }
}

/// Removing the entry at `p` erases exactly its own index's lookup.
pub proof fn lemma_snaps_get_remove(s: Seq<(u64, SnapView)>, p: int, k: int)
    requires
        0 <= p < s.len(),
        forall|j: int| 0 <= j < s.len() && j != p ==> s[j].0 != s[p].0,
    ensures
        snaps_get(s.remove(p), k) == (if s[p].0 == k {
            None
        } else {
            snaps_get(s, k)
        }),
    decreases s.len(),
{
    let t = s.remove(p);
    assert(t.len() == s.len() - 1);
    if p == 0 {
        assert(t =~= s.drop_first());
        if s[0].0 == k {
            assert forall|j: int| 0 <= j < t.len() implies t[j].0 != k by {
                assert(t[j] == s[j + 1]);
            }
            lemma_snaps_get_absent(t, k);
        }
    } else {
        assert(t[0] == s[0]);
        assert(t.drop_first() =~= s.drop_first().remove(p - 1));
        assert forall|j: int|
            0 <= j < s.drop_first().len() && j != p - 1 implies (#[trigger] s.drop_first()[j].0)
                != s.drop_first()[p - 1].0 by {
            assert(s.drop_first()[j] == s[j + 1]);
            assert(s.drop_first()[p - 1] == s[p]);
        }
        lemma_snaps_get_remove(s.drop_first(), p - 1, k);
        assert(s.drop_first()[p - 1] == s[p]);
        if s[0].0 == k {
            assert(s[p].0 != k);
        }
    }
}

/// One game contract's whole stored state: the live round, its index, and
/// the snapshot ring.
#[derive(Debug)]
pub struct RoundState {
    pub game: GameSM,
    pub idx: u64,
    pub snapshots: Vec<(u64, GameSmSnapshot)>,
}

impl RoundState {
    /// Snapshot indices are strictly increasing and all within the last
    /// ten rounds before the live index.
    pub open spec fn ring_wf(self) -> bool {
        &&& forall|i: int, j: int|
            0 <= i < j < self.snapshots@.len() ==> (#[trigger] self.snapshots.deep_view()[i].0) < (
            #[trigger] self.snapshots.deep_view()[j].0)
        &&& forall|i: int|
            0 <= i < self.snapshots@.len() ==> 1 <= (#[trigger] self.snapshots.deep_view()[i].0)
                < self.idx && self.snapshots.deep_view()[i].0 + 10 >= self.idx
    }

    pub open spec fn wf(self) -> bool {
        &&& self.game.wf()
        &&& self.ring_wf()
        &&& self.idx >= 1
    }

    /// A fresh contract state: round one, nothing stored yet.
    pub fn new(decay_starts_at: u64, decay_ends_at: u64) -> (r: Self)
        ensures
            r.idx == 1,
            r.snapshots@.len() == 0,
            r.game.game_base.decay_game == (crate::decay_game::DecayGame {
                decay_starts_at,
                decay_ends_at,
                total: 0,
                exited: 0,
                rewards: 0,
            }),
            r.wf(),
            r.game.leader_ok(),
    {
        let mut game = GameSM::new();
        let _ = game.initialize(decay_starts_at, decay_ends_at);
        RoundState { game, idx: 1, snapshots: Vec::new() }
    }

    /// Look a stored round's snapshot up; evicted or never-taken indices
    /// are not found.
    pub fn get_snapshot(&self, idx: u64) -> (r: Option<&GameSmSnapshot>)
        requires
            self.ring_wf(),
        ensures
            match r {
                Some(s) => snaps_get(self.snapshots.deep_view(), idx as int) == Some(s.deep_view()),
                None => snaps_get(self.snapshots.deep_view(), idx as int) is None,
            },
    {
        let ghost sv = self.snapshots.deep_view();
        let n = self.snapshots.len();
        let mut j: usize = 0;
        while j < n
            invariant
                j <= n,
                n == sv.len(),
                sv == self.snapshots.deep_view(),
                forall|j2: int| 0 <= j2 < j ==> sv[j2].0 != idx,
            decreases n - j,
        {
            proof {
                assert(sv[j as int] == self.snapshots@[j as int].deep_view());
            }
            if self.snapshots[j].0 == idx {
                proof {
                    lemma_snaps_get_by_index(sv, j as int);
                }
                return Some(&self.snapshots[j].1);
            }
            j = j + 1;
        }
        proof {
            lemma_snaps_get_absent(sv, idx as int);
        }
        None
    }
}

/// Snapshot the finished round under the live index, evict the snapshot
/// ten rounds back, and open a fresh round whose window starts after the
/// configured delay.
pub fn execute_restart(state: &mut RoundState, now: u64, duration: u64, delay: u64) -> (r: Result<
    u64,
    ContractError,
>)
    requires
        old(state).wf(),
        now + delay + duration <= u64::MAX,
        old(state).idx < u64::MAX,
    ensures
        match r {
            Ok(i) => {
                let dg = old(state).game.game_base.decay_game;
                &&& now > dg.decay_ends_at && dg.rewards == dg.total - dg.exited
                &&& i == old(state).idx + 1
                &&& final(state).idx == old(state).idx + 1
                &&& final(state).game.game_base.decay_game == (crate::decay_game::DecayGame {
                    decay_starts_at: (now + delay) as u64,
                    decay_ends_at: (now + delay + duration) as u64,
                    total: 0,
                    exited: 0,
                    rewards: 0,
                })
                &&& final(state).game.accounts@.len() == 0
                &&& final(state).game.ref_weight@.len() == 0
                &&& final(state).game.players@.len() == 0
                &&& snaps_get(final(state).snapshots.deep_view(), old(state).idx as int) == Some(
                    game_snap_view(old(state).game),
                )
                &&& snaps_get(final(state).snapshots.deep_view(), old(state).idx - 10) is None
                &&& forall|k: int|
                    k != old(state).idx && k != old(state).idx - 10 ==> snaps_get(
                        final(state).snapshots.deep_view(),
                        k,
                    ) == snaps_get(old(state).snapshots.deep_view(), k)
                &&& final(state).wf()
                &&& final(state).game.leader_ok()
            },
            Err(e) => {
                let dg = old(state).game.game_base.decay_game;
                &&& *final(state) == *old(state)
                &&& !(now > dg.decay_ends_at && dg.rewards == dg.total - dg.exited)
                &&& e is GameNotEnded
            },
        },
{
    if !state.game.is_completed(now) {
        return Err(ContractError::GameNotEnded);
    }
    let snap = match state.game.get_snap() {
        Ok(s) => s,
        Err(e) => {
            return Err(e);
        },
    };
    let idx = state.idx;
    let ghost sv0 = state.snapshots.deep_view();
    let n = state.snapshots.len();
    if idx > 10u64 {
        let remove_idx = idx - 10u64;
        let mut j: usize = 0;
        loop
            invariant
                j <= n,
                n == state.snapshots@.len(),
                *state == *old(state),
                sv0 == state.snapshots.deep_view(),
                forall|j2: int| 0 <= j2 < j ==> sv0[j2].0 != remove_idx,
                remove_idx == idx - 10,
                idx == state.idx,
            ensures
                j <= n,
                *state == *old(state),
                sv0 == state.snapshots.deep_view(),
                forall|j2: int| 0 <= j2 < j ==> sv0[j2].0 != remove_idx,
                j < n ==> sv0[j as int].0 == remove_idx,
                remove_idx == idx - 10,
            decreases n - j,
        {
            if j == n {
                break ;
            }
            proof {
                assert(sv0[j as int] == state.snapshots@[j as int].deep_view());
            }
            if state.snapshots[j].0 == remove_idx {
                break ;
            }
            j = j + 1;
        }
        if j < n {
            state.snapshots.remove(j);
            proof {
                assert(state.snapshots.deep_view() =~= sv0.remove(j as int));
                assert forall|j2: int|
                    0 <= j2 < sv0.len() && j2 != j implies sv0[j2].0 != sv0[j as int].0 by {
                    if j2 < j {
                        assert(sv0[j2].0 < sv0[j as int].0);
                    } else {
                        assert(sv0[j as int].0 < sv0[j2].0);
                    }
                }
                assert forall|k: int|
                    snaps_get(state.snapshots.deep_view(), k) == (if k == idx - 10 {
                        None
                    } else {
                        snaps_get(sv0, k)
                    }) by {
                    lemma_snaps_get_remove(sv0, j as int, k);
                }
                let t = state.snapshots.deep_view();
                assert forall|i: int|
                    0 <= i < t.len() implies 1 <= (#[trigger] t[i].0) < idx && t[i].0 + 10 >= idx
                        && t[i].0 != idx - 10 by {
                    if i < j {
                        assert(t[i] == sv0[i]);
                    } else {
                        assert(t[i] == sv0[i + 1]);
                    }
                }
                assert forall|a: int, b: int| 0 <= a < b < t.len() implies (#[trigger] t[a].0) < (
                #[trigger] t[b].0) by {
                    if a < j {
                        assert(t[a] == sv0[a]);
                    } else {
                        assert(t[a] == sv0[a + 1]);
                    }
                    if b < j {
                        assert(t[b] == sv0[b]);
                    } else {
                        assert(t[b] == sv0[b + 1]);
                    }
                }
            }
        } else {
            proof {
                lemma_snaps_get_absent(sv0, idx - 10);
            }
        }
    } else {
        proof {
            assert forall|j2: int| 0 <= j2 < sv0.len() implies sv0[j2].0 != idx - 10 by {
                assert(sv0[j2].0 >= 1);
            }
            lemma_snaps_get_absent(sv0, idx - 10);
        }
    }
    let ghost sv1 = state.snapshots.deep_view();
    proof {
        assert(snaps_get(sv1, idx - 10) is None);
        assert forall|i: int|
            0 <= i < sv1.len() implies 1 <= (#[trigger] sv1[i].0) < idx && sv1[i].0 != idx
                - 10 by {}
        assert forall|a: int, b: int| 0 <= a < b < sv1.len() implies (#[trigger] sv1[a].0) < (
        #[trigger] sv1[b].0) by {}
        assert forall|i: int| 0 <= i < sv1.len() implies (#[trigger] sv1[i].0) + 10 >= idx + 1 by {
            if sv1[i].0 + 10 == idx {
                assert(sv1[i].0 == idx - 10);
            }
        }
    }
    state.snapshots.push((idx, snap));
    proof {
        assert(state.snapshots.deep_view() =~= sv1.push((idx, game_snap_view(old(state).game))));
        assert forall|k: int|
            snaps_get(state.snapshots.deep_view(), k) == (if k == idx {
                Some(game_snap_view(old(state).game))
            } else {
                snaps_get(sv1, k)
            }) by {
            lemma_snaps_get_push(sv1, (idx, game_snap_view(old(state).game)), k);
        }
    }
    let start = now + delay;
    let _ = state.game.restart(start, start + duration);
    state.idx = idx + 1;
    proof {
        let t = state.snapshots.deep_view();
        assert(t.len() == sv1.len() + 1);
        assert(t[t.len() - 1] == (idx, game_snap_view(old(state).game)));
        assert forall|a: int, b: int| 0 <= a < b < t.len() implies (#[trigger] t[a].0) < (
        #[trigger] t[b].0) by {
            if b < t.len() - 1 {
                assert(t[a] == sv1[a] && t[b] == sv1[b]);
            } else if a < t.len() - 1 {
                assert(t[a] == sv1[a]);
            }
        }
        assert forall|i: int|
            0 <= i < t.len() implies 1 <= (#[trigger] t[i].0) < state.idx && t[i].0 + 10
                >= state.idx by {
            if i < t.len() - 1 {
                assert(t[i] == sv1[i]);
            }
        }
    }
    Ok(idx + 1u64)
}

/// What closing a round yields: the winner and its points, the coin rows
/// owed to the winner, the platform and (when referrals exist) the
/// referral pool, and the referral weights to forward.
#[derive(Debug)]
pub struct EndgameOutcome {
    pub winner: String,
    pub points: i64,
    pub payouts: Vec<(String, Vec<Coin>)>,
    pub ref_weights: Vec<(String, u128)>,
}

/// The recipient list the prize is distributed over: the winner with the
/// winner's share, the platform with its fee, and — only when referral
/// weights exist — the referral pool with its fee.
pub open spec fn endgame_fees(
    winner: Seq<char>,
    share: u128,
    platform: Seq<char>,
    platform_bp: u128,
    ref_addr: Seq<char>,
    ref_bp: u128,
    has_ref: bool,
) -> Seq<(Seq<char>, u128)> {
    if has_ref {
        seq![(winner, share), (platform, platform_bp), (ref_addr, ref_bp)]
    } else {
        seq![(winner, share), (platform, platform_bp)]
    }
}

/// Close the round: finalize the pot, then split it proportionally over
/// the winner's share and the fees.  The host sends the resulting rows.
pub fn execute_endgame(state: &mut RoundState, now: u64, config: &Config) -> (r: Result<
    EndgameOutcome,
    ContractError,
>)
    requires
        old(state).wf(),
        old(state).game.game_base.decay_game.rewards <= old(
            state,
        ).game.game_base.decay_game.total - old(state).game.game_base.decay_game.exited,
        config.winner_share + config.fees.fee_platform.bp + config.fees.fee_ref.bp <= u128::MAX,
        config.winner_share + config.fees.fee_platform.bp > 0,
    ensures
        final(state).idx == old(state).idx,
        final(state).snapshots == old(state).snapshots,
        final(state).game.accounts == old(state).game.accounts,
        final(state).game.players == old(state).game.players,
        final(state).game.ref_weight == old(state).game.ref_weight,
        final(state).game.game_base.current_winner == old(state).game.game_base.current_winner,
        final(state).wf(),
        match r {
            Ok(out) => {
                let dg = old(state).game.game_base.decay_game;
                let amount = (dg.total - dg.exited) as u128;
                &&& now > dg.decay_ends_at && dg.total - dg.exited - dg.rewards != 0
                &&& old(state).game.game_base.winner_view() == Some((out.winner@, out.points))
                &&& out.ref_weights.deep_view() == old(state).game.ref_weight@
                &&& out.payouts.deep_view() == split_rows(
                    seq![(config.ticket_denom@, amount)],
                    norm_fees(
                        endgame_fees(
                            out.winner@,
                            config.winner_share,
                            config.fees.fee_platform.address@,
                            config.fees.fee_platform.bp,
                            config.fees.fee_ref.address@,
                            config.fees.fee_ref.bp,
                            old(state).game.ref_weight@.len() > 0,
                        ),
                    ),
                )
                &&& final(state).game.game_base.decay_game == crate::decay_game::finalized_pool(dg)
            },
            Err(e) => {
                let dg = old(state).game.game_base.decay_game;
                &&& *final(state) == *old(state)
                &&& e matches ContractError::DecayGameError(inner) && if now <= dg.decay_ends_at {
                    inner is DecayNotEnded
                } else {
                    inner is NoRewards && dg.total - dg.exited - dg.rewards == 0
                }
            },
        },
{
    let ghost dg0 = state.game.game_base.decay_game;
    let (winner_opt, amount) = match state.game.endgame(now) {
        Ok(x) => x,
        Err(e) => {
            return Err(e);
        },
    };
    let (winner, points) = match winner_opt {
        Some(w) => w,
        None => {
            // a finalized pot is positive, so the pool was funded and a
            // winner has been cached ever since the first join
            proof {
                assert(dg0.total > 0);
                assert(false);
            }
            return Err(ContractError::NotFound);
        },
    };
    let ref_weights = match state.game.get_ref_weights() {
        Ok(v) => v,
        Err(e) => {
            // get_ref_weights never fails
            proof {
                assert(false);
            }
            return Err(e);
        },
    };
    let mut fees: Vec<(String, u128)> = Vec::new();
    fees.push((winner.clone(), config.winner_share));
    fees.push((config.fees.fee_platform.address.clone(), config.fees.fee_platform.bp));
    if ref_weights.len() > 0 {
        fees.push((config.fees.fee_ref.address.clone(), config.fees.fee_ref.bp));
    }
    let ghost fsv = endgame_fees(
        winner@,
        config.winner_share,
        config.fees.fee_platform.address@,
        config.fees.fee_platform.bp,
        config.fees.fee_ref.address@,
        config.fees.fee_ref.bp,
        old(state).game.ref_weight@.len() > 0,
    );
    proof {
        assert(fees.deep_view() =~= fsv);
        let tail2 = fsv.drop_first();
        assert(weight_sum(fsv) == fsv[0].1 + weight_sum(tail2));
        if fsv.len() == 3 {
            let tail3 = tail2.drop_first();
            assert(weight_sum(tail2) == tail2[0].1 + weight_sum(tail3));
            assert(tail3.len() == 1);
            assert(weight_sum(tail3) == tail3[0].1 + weight_sum(tail3.drop_first()));
            assert(tail3.drop_first().len() == 0);
            assert(weight_sum(fsv) == config.winner_share + config.fees.fee_platform.bp
                + config.fees.fee_ref.bp);
        } else {
            assert(tail2.len() == 1);
            assert(weight_sum(tail2) == tail2[0].1 + weight_sum(tail2.drop_first()));
            assert(tail2.drop_first().len() == 0);
            assert(weight_sum(fsv) == config.winner_share + config.fees.fee_platform.bp);
        }
    }
    let rewards = vec![Coin { denom: config.ticket_denom.clone(), amount }];
    proof {
        assert(rewards.deep_view() =~= seq![(config.ticket_denom@, amount)]);
    }
    let payouts = crate::rewards_util::calculate_fee_distribution(rewards, &fees);
    Ok(EndgameOutcome { winner, points, payouts, ref_weights })
}

} // verus!
