//! The competitive scoring overlay on top of the decay pool: players join
//! with a stake, exchange points through plays, and the cached leader
//! pointer tracks the top scorer without a rescan on every play.
use crate::decay_game::{decay_factor_at, exit_pending, DecayGame, DecayGameAccount};
use crate::error::ContractError;
use crate::sorted_map::{keys_sorted, seq_get, seq_has_key, seq_put, SortedMap};
use crate::str_order::lex_lt;
use vstd::prelude::*;

verus! {

/// A play: keep to oneself, hit a target, or help a target.
#[derive(Debug)]
pub enum PlayMsg {
    Keep,
    Hit { target: String },
    Help { target: String },
}

/// The ghost image of a play, with the target as its characters.
pub enum PlayMsgView {
    Keep,
    Hit { target: Seq<char> },
    Help { target: Seq<char> },
}

impl DeepView for PlayMsg {
    type V = PlayMsgView;

    open spec fn deep_view(&self) -> PlayMsgView {
        match self {
            PlayMsg::Keep => PlayMsgView::Keep,
            PlayMsg::Hit { target } => PlayMsgView::Hit { target: target@ },
            PlayMsg::Help { target } => PlayMsgView::Help { target: target@ },
        }
    }
}

impl Clone for PlayMsg {
    fn clone(&self) -> (r: Self)
        ensures
            r.deep_view() == self.deep_view(),
    {
        match self {
            PlayMsg::Keep => PlayMsg::Keep,
            PlayMsg::Hit { target } => PlayMsg::Hit { target: target.clone() },
            PlayMsg::Help { target } => PlayMsg::Help { target: target.clone() },
        }
    }
}

/// The point schedule of a configuration.
#[derive(Clone, Copy, Debug, PartialEq, Eq, Structural)]
pub struct Point {
    pub myself: i64,
    pub other: i64,
}

#[derive(Clone, Copy, Debug, PartialEq, Eq, Structural)]
pub struct Points {
    pub keep: i64,
    pub hit: i64,
    pub help: Point,
}

/// One player's standing: points (never negative), the plays made, and the
/// time of the last play.
#[derive(Debug)]
pub struct PlayerStatus {
    pub address: String,
    pub points: i64,
    pub history: Vec<PlayMsg>,
    pub last_play: u64,
}

/// The ghost image of a player.
pub struct PlayerStatusView {
    pub address: Seq<char>,
    pub points: i64,
    pub history: Seq<PlayMsgView>,
    pub last_play: u64,
}

impl DeepView for PlayerStatus {
    type V = PlayerStatusView;

    open spec fn deep_view(&self) -> PlayerStatusView {
        PlayerStatusView {
            address: self.address@,
            points: self.points,
            history: self.history.deep_view(),
            last_play: self.last_play,
        }
    }
}

impl PlayerStatus {
    pub fn new(account: String) -> (r: Self)
        ensures
            r.deep_view() == (PlayerStatusView {
                address: account@,
                points: 0,
                history: Seq::empty(),
                last_play: 0,
            }),
    {
        let r = Self { address: account, points: 0i64, history: vec![], last_play: 0 };
        proof {
            assert(r.history.deep_view() =~= Seq::<PlayMsgView>::empty());
        }
        r
    }
}

impl DeepView for DecayGame {
    type V = DecayGame;

    open spec fn deep_view(&self) -> DecayGame {
        *self
    }
}

impl DeepView for DecayGameAccount {
    type V = DecayGameAccount;

    open spec fn deep_view(&self) -> DecayGameAccount {
        *self
    }
}

/// The pool and the cached leader pointer.
#[derive(Debug)]
pub struct GameBase {
    pub decay_game: DecayGame,
    pub current_winner: Option<(String, i64)>,
}

impl GameBase {
    pub fn new(decay_starts_at: u64, decay_ends_at: u64) -> (r: Self)
        ensures
            r.decay_game == (DecayGame {
                decay_starts_at,
                decay_ends_at,
                total: 0,
                exited: 0,
                rewards: 0,
            }),
            r.current_winner is None,
    {
        Self { decay_game: DecayGame::new(decay_starts_at, decay_ends_at), current_winner: None }
    }

    /// The cached winner as characters and points.
    pub open spec fn winner_view(self) -> Option<(Seq<char>, i64)> {
        match self.current_winner {
            Some(w) => Some((w.0@, w.1)),
            None => None,
        }
    }
}

/// The whole state of one round of the game.
#[derive(Debug)]
pub struct GameSM {
    pub game_base: GameBase,
    pub accounts: SortedMap<DecayGameAccount>,
    pub ref_weight: SortedMap<u128>,
    pub players: SortedMap<PlayerStatus>,
}

/// An immutable copy of a whole round, as stored across restarts.
#[derive(Debug)]
pub struct GameSmSnapshot {
    pub decay_game: DecayGame,
    pub accounts: Vec<(String, DecayGameAccount)>,
    pub current_winner: Option<(String, i64)>,
    pub players: Vec<PlayerStatus>,
    pub referrals: Vec<(String, u128)>,
}

/// The stake still counted as never having exited: what accounts with a
/// zero decay snapshot hold.
pub open spec fn unexited_total(s: Seq<(Seq<char>, DecayGameAccount)>) -> int
    decreases s.len(),
{
    if s.len() == 0 {
        0
    } else {
        (if s[0].1.decay_snapshot == 0 {
            s[0].1.amount as int
        } else {
            0
        }) + unexited_total(s.drop_first())
    }
}

pub proof fn lemma_unexited_total_nonneg(s: Seq<(Seq<char>, DecayGameAccount)>)
    ensures
        unexited_total(s) >= 0,
    decreases s.len(),
{
    if s.len() > 0 {
        lemma_unexited_total_nonneg(s.drop_first());
    }
}

/// One never-exited member's stake is within the never-exited total.
pub proof fn lemma_unexited_member(s: Seq<(Seq<char>, DecayGameAccount)>, i: int)
    requires
        0 <= i < s.len(),
        s[i].1.decay_snapshot == 0,
    ensures
        s[i].1.amount <= unexited_total(s),
    decreases i,
{
    lemma_unexited_total_nonneg(s.drop_first());
    if i > 0 {
        lemma_unexited_member(s.drop_first(), i - 1);
        assert(s.drop_first()[i - 1] == s[i]);
        if s[0].1.decay_snapshot == 0 {
        }
    }
}

/// Replacing the entry at `i` shifts the total by the difference of the
/// two entries' contributions.
pub proof fn lemma_unexited_update(s: Seq<(Seq<char>, DecayGameAccount)>, i: int, e: (
    Seq<char>,
    DecayGameAccount,
))
    requires
        0 <= i < s.len(),
    ensures
        unexited_total(s.update(i, e)) == unexited_total(s) - (if s[i].1.decay_snapshot == 0 {
            s[i].1.amount as int
        } else {
            0
        }) + (if e.1.decay_snapshot == 0 {
            e.1.amount as int
        } else {
            0
        }),
    decreases s.len(),
{
    let t = s.update(i, e);
    assert(t.len() == s.len());
    if i == 0 {
        assert(t[0] == e);
        assert(t.drop_first() =~= s.drop_first());
    } else {
        assert(t[0] == s[0]);
        assert(t.drop_first() =~= s.drop_first().update(i - 1, e));
        lemma_unexited_update(s.drop_first(), i - 1, e);
        assert(s.drop_first()[i - 1] == s[i]);
    }
}

/// Inserting an entry adds its contribution.
pub proof fn lemma_unexited_insert(s: Seq<(Seq<char>, DecayGameAccount)>, i: int, e: (
    Seq<char>,
    DecayGameAccount,
))
    requires
        0 <= i <= s.len(),
    ensures
        unexited_total(s.insert(i, e)) == unexited_total(s) + (if e.1.decay_snapshot == 0 {
            e.1.amount as int
        } else {
            0
        }),
    decreases s.len(),
{
    let t = s.insert(i, e);
    assert(t.len() == s.len() + 1);
    if i == 0 {
        assert(t[0] == e);
        assert(t.drop_first() =~= s);
    } else {
        assert(t[0] == s[0]);
        assert(t.drop_first() =~= s.drop_first().insert(i - 1, e));
        lemma_unexited_insert(s.drop_first(), i - 1, e);
    }
}

/// The incremental leader rule: a strictly higher score takes the cache,
/// ties keep the incumbent, and an empty cache is always taken.
pub open spec fn check_winner_spec(
    w: Option<(Seq<char>, i64)>,
    account: Seq<char>,
    points: i64,
) -> Option<(Seq<char>, i64)> {
    match w {
        None => Some((account, points)),
        Some(cur) => if points > cur.1 {
            Some((account, points))
        } else {
            Some(cur)
        },
    }
}

/// One step of the full rescan: a strictly higher score displaces the
/// running best.
pub open spec fn scan_step(acc: (Option<Seq<char>>, i64), e: (Seq<char>, PlayerStatusView)) -> (
    Option<Seq<char>>,
    i64,
) {
    if e.1.points > acc.1 {
        (Some(e.0), e.1.points)
    } else {
        acc
    }
}

/// The full rescan over the player table in order.
pub open spec fn scan_from(
    s: Seq<(Seq<char>, PlayerStatusView)>,
    acc: (Option<Seq<char>>, i64),
) -> (Option<Seq<char>>, i64)
    decreases s.len(),
{
    if s.len() == 0 {
        acc
    } else {
        scan_from(s.drop_first(), scan_step(acc, s[0]))
    }
}

/// What a full rescan of the table yields for the cache.
pub open spec fn rescan_winner(s: Seq<(Seq<char>, PlayerStatusView)>) -> Option<(Seq<char>, i64)> {
    let r = scan_from(s, (None, i64::MIN as i64));
    match r.0 {
        Some(a) => Some((a, r.1)),
        None => None,
    }
}

/// Points move by saturating addition, floored at zero: a player can never
/// go negative.
pub open spec fn apply_points_spec(p: i64, d: i64) -> i64 {
    let s = p + d;
    let sat = if s > i64::MAX {
        i64::MAX as int
    } else if s < i64::MIN {
        i64::MIN as int
    } else {
        s
    };
    if sat < 0 {
        0
    } else {
        sat as i64
    }
}

/// Whom a play targets.
pub open spec fn msg_target(m: PlayMsgView) -> Option<Seq<char>> {
    match m {
        PlayMsgView::Keep => None,
        PlayMsgView::Hit { target } => Some(target),
        PlayMsgView::Help { target } => Some(target),
    }
}

/// The actor's own point delta under the schedule.
pub open spec fn self_delta(m: PlayMsgView, pts: Points) -> i64 {
    match m {
        PlayMsgView::Keep => pts.keep,
        PlayMsgView::Hit { .. } => 0,
        PlayMsgView::Help { .. } => pts.help.myself,
    }
}

/// The target's point delta under the schedule.
pub open spec fn target_delta(m: PlayMsgView, pts: Points) -> i64 {
    match m {
        PlayMsgView::Keep => 0,
        PlayMsgView::Hit { .. } => pts.hit,
        PlayMsgView::Help { .. } => pts.help.other,
    }
}

/// A player after its own play: points applied, the play recorded, the
/// clock noted.
pub open spec fn after_play(p: PlayerStatusView, d: i64, m: PlayMsgView, now: u64) -> PlayerStatusView {
    PlayerStatusView {
        address: p.address,
        points: apply_points_spec(p.points, d),
        history: p.history.push(m),
        last_play: now,
    }
}

/// A player after being targeted: only its points move.
pub open spec fn after_target(p: PlayerStatusView, d: i64) -> PlayerStatusView {
    PlayerStatusView { points: apply_points_spec(p.points, d), ..p }
}

/// The leader property over a player table and a cache value: a filled
/// cache names a real player, carries that player's points, and no player
/// beats it.
pub open spec fn leader_ok_seq(
    ps: Seq<(Seq<char>, PlayerStatusView)>,
    w: Option<(Seq<char>, i64)>,
) -> bool {
    match w {
        None => true,
        Some(cur) => {
            &&& seq_get(ps, cur.0) matches Some(pl) && pl.points == cur.1
            &&& forall|i: int| 0 <= i < ps.len() ==> (#[trigger] ps[i].1.points) <= cur.1
        },
    }
}

/// A placeholder player, used only to keep specifications total where a
/// lookup is known to succeed.
pub open spec fn no_player(k: Seq<char>) -> PlayerStatusView {
    PlayerStatusView { address: k, points: 0, history: Seq::empty(), last_play: 0 }
}

pub open spec fn player_or_default(
    ps: Seq<(Seq<char>, PlayerStatusView)>,
    k: Seq<char>,
) -> PlayerStatusView {
    match seq_get(ps, k) {
        Some(p) => p,
        None => no_player(k),
    }
}

/// The whole effect of one play on the player table and the cache,
/// assuming its checks passed: the target (if any) takes its delta first
/// and the cache follows — by a full rescan exactly when a hit lands on
/// the cached leader — then the actor's own play lands and the cache is
/// compared once more.
pub open spec fn play_result(
    ps: Seq<(Seq<char>, PlayerStatusView)>,
    w: Option<(Seq<char>, i64)>,
    m: PlayMsgView,
    account: Seq<char>,
    pts: Points,
    now: u64,
) -> (Seq<(Seq<char>, PlayerStatusView)>, Option<(Seq<char>, i64)>) {
    let actor1 = after_play(player_or_default(ps, account), self_delta(m, pts), m, now);
    match msg_target(m) {
        None => (
            seq_put(ps, account, actor1),
            check_winner_spec(w, account, actor1.points),
        ),
        Some(t) => {
            let tgt1 = after_target(player_or_default(ps, t), target_delta(m, pts));
            let ps1 = seq_put(ps, t, tgt1);
            let w1 = if (m is Hit) && (w matches Some(cur) && cur.0 == t) {
                rescan_winner(ps1)
            } else {
                check_winner_spec(w, t, tgt1.points)
            };
            let ps2 = seq_put(ps1, account, actor1);
            let w2 = check_winner_spec(w1, account, actor1.points);
            (ps2, w2)
        },
    }
}

/// Every entry of a put table is the stored entry or one of the old ones,
/// so point bounds carry over.
pub proof fn lemma_put_points_bound(
    s: Seq<(Seq<char>, PlayerStatusView)>,
    k: Seq<char>,
    v: PlayerStatusView,
    lo: i64,
    hi: i64,
)
    requires
        keys_sorted(s),
        forall|i: int| 0 <= i < s.len() ==> lo <= (#[trigger] s[i].1.points) <= hi,
        lo <= v.points <= hi,
    ensures
        forall|i: int|
            0 <= i < seq_put(s, k, v).len() ==> lo <= (
            #[trigger] seq_put(s, k, v)[i].1.points) <= hi,
{
    let t = seq_put(s, k, v);
    let p = crate::sorted_map::first_ge(s, k);
    crate::sorted_map::lemma_sorted_get_position(s, k);
    assert forall|i: int| 0 <= i < t.len() implies lo <= (#[trigger] t[i].1.points) <= hi by {
        if seq_has_key(s, k) {
            if i != p {
                assert(t[i] == s[i]);
            }
        } else {
            if i < p {
                assert(t[i] == s[i]);
            } else if i > p {
                assert(t[i] == s[i - 1]);
            }
        }
    }
}

/// After raising one player's points (never above what they were only by a
/// nonnegative move — formally: the stored points are at least the old
/// ones), one incremental comparison restores the leader property.
pub proof fn lemma_leader_after_raise(
    s: Seq<(Seq<char>, PlayerStatusView)>,
    w: Option<(Seq<char>, i64)>,
    k: Seq<char>,
    v: PlayerStatusView,
)
    requires
        keys_sorted(s),
        leader_ok_seq(s, w),
        s.len() > 0 ==> w is Some,
        seq_get(s, k) matches Some(pk) && v.points >= pk.points,
    ensures
        leader_ok_seq(seq_put(s, k, v), check_winner_spec(w, k, v.points)),
        check_winner_spec(w, k, v.points) is Some,
    decreases 0int,
{
    let t = seq_put(s, k, v);
    let p = crate::sorted_map::first_ge(s, k);
    crate::sorted_map::lemma_sorted_get_position(s, k);
    assert(seq_has_key(s, k));
    assert(t == s.update(p, (k, v)));
    assert(s[p].1 == player_or_default(s, k));
    assert(seq_get(t, k) == Some(v)) by {
        assert forall|j: int| 0 <= j < p implies t[j].0 != k by {
            assert(t[j] == s[j]);
            assert(lex_lt(s[j].0, k));
            crate::str_order::lemma_lex_irrefl(k);
        }
        crate::sorted_map::lemma_get_by_index(t, k, p);
    }
    match w {
        None => {
            assert(s.len() == 0);
            assert(false);
        },
        Some(cur) => {
            let wnew = check_winner_spec(w, k, v.points);
            if v.points > cur.1 {
                assert(wnew == Some((k, v.points)));
                assert forall|i: int| 0 <= i < t.len() implies (#[trigger] t[i].1.points)
                    <= v.points by {
                    if i != p {
                        assert(t[i] == s[i]);
                    }
                }
            } else {
                assert(wnew == Some(cur));
                if cur.0 == k {
                    assert(s[p].1.points == cur.1);
                    assert(v.points == cur.1);
                    assert(seq_get(t, cur.0) == Some(v));
                } else {
                    assert(seq_get(t, cur.0) == seq_get(s, cur.0)) by {
                        crate::sorted_map::lemma_get_update_other(s, p, (k, v), cur.0);
                    }
                }
                assert forall|i: int| 0 <= i < t.len() implies (#[trigger] t[i].1.points)
                    <= cur.1 by {
                    if i != p {
                        assert(t[i] == s[i]);
                    }
                }
            }
        },
    }
}

/// After lowering a player who is not the cached leader, one incremental
/// comparison leaves the leader property standing.
pub proof fn lemma_leader_after_lower(
    s: Seq<(Seq<char>, PlayerStatusView)>,
    w: Option<(Seq<char>, i64)>,
    k: Seq<char>,
    v: PlayerStatusView,
)
    requires
        keys_sorted(s),
        leader_ok_seq(s, w),
        w matches Some(cur) && cur.0 != k && v.points <= cur.1,
        seq_has_key(s, k),
    ensures
        leader_ok_seq(seq_put(s, k, v), check_winner_spec(w, k, v.points)),
        check_winner_spec(w, k, v.points) is Some,
{
    let t = seq_put(s, k, v);
    let p = crate::sorted_map::first_ge(s, k);
    crate::sorted_map::lemma_sorted_get_position(s, k);
    assert(t == s.update(p, (k, v)));
    let cur = w->Some_0;
    assert(check_winner_spec(w, k, v.points) == Some(cur));
    assert(seq_get(t, cur.0) == seq_get(s, cur.0)) by {
        crate::sorted_map::lemma_get_update_other(s, p, (k, v), cur.0);
    }
    assert forall|i: int| 0 <= i < t.len() implies (#[trigger] t[i].1.points) <= cur.1 by {
        if i != p {
            assert(t[i] == s[i]);
        }
    }
}

/// The full rescan of a sorted table restores the leader property, and on
/// a table of nonnegative scores it always names a leader.
pub proof fn lemma_rescan_ok(s: Seq<(Seq<char>, PlayerStatusView)>)
    requires
        keys_sorted(s),
        forall|i: int| 0 <= i < s.len() ==> (#[trigger] s[i].1.points) >= 0,
    ensures
        leader_ok_seq(s, rescan_winner(s)),
        s.len() > 0 ==> rescan_winner(s) is Some,
{
    lemma_scan_props(s, (None, i64::MIN as i64));
    let r = scan_from(s, (None, i64::MIN as i64));
    if s.len() > 0 {
        assert(s[0].1.points <= r.1);
        assert(r.1 >= 0);
        assert(r != (None::<Seq<char>>, i64::MIN as i64));
    }
    match rescan_winner(s) {
        None => {
        },
        Some(cur) => {
            let i = choose|i: int|
                0 <= i < s.len() && r.0 == Some(#[trigger] s[i].0) && r.1 == s[i].1.points;
            assert(cur == (s[i].0, s[i].1.points));
            assert(seq_get(s, s[i].0) == Some(s[i].1)) by {
                crate::sorted_map::lemma_sorted_get_position(s, s[i].0);
                assert forall|j: int| 0 <= j < i implies lex_lt(s[j].0, s[i].0) by {}
                crate::str_order::lemma_lex_irrefl(s[i].0);
                crate::sorted_map::lemma_scan_first_ge(s, s[i].0, i);
                crate::sorted_map::lemma_entry_key_found(s, i);
            }
        },
    }
}

/// What the rescan's running state guarantees: the best seen so far bounds
/// everything scanned, and comes from the table or the start value.
pub proof fn lemma_scan_props(s: Seq<(Seq<char>, PlayerStatusView)>, acc: (Option<Seq<char>>, i64))
    ensures
        ({
            let r = scan_from(s, acc);
            &&& r.1 >= acc.1
            &&& forall|i: int| 0 <= i < s.len() ==> (#[trigger] s[i].1.points) <= r.1
            &&& (r == acc || exists|i: int|
                0 <= i < s.len() && r.0 == Some(#[trigger] s[i].0) && r.1 == s[i].1.points)
        }),
    decreases s.len(),
{
    if s.len() > 0 {
        let acc2 = scan_step(acc, s[0]);
        lemma_scan_props(s.drop_first(), acc2);
        let r = scan_from(s, acc);
        assert forall|i: int| 0 <= i < s.len() implies (#[trigger] s[i].1.points) <= r.1 by {
            if i > 0 {
                assert(s.drop_first()[i - 1] == s[i]);
            }
        }
        if r != acc {
            if r == acc2 {
                assert(r.0 == Some(s[0].0) && r.1 == s[0].1.points);
            } else {
                let j = choose|j: int|
                    0 <= j < s.drop_first().len() && r.0 == Some(
                        #[trigger] s.drop_first()[j].0,
                    ) && r.1 == s.drop_first()[j].1.points;
                assert(s.drop_first()[j] == s[j + 1]);
                assert(r.0 == Some(s[j + 1].0) && r.1 == s[j + 1].1.points);
            }
        }
    }
}

impl Clone for PlayerStatus {
    fn clone(&self) -> (r: Self)
        ensures
            r.deep_view() == self.deep_view(),
    {
        let n = self.history.len();
        let mut history: Vec<PlayMsg> = Vec::new();
        let mut i: usize = 0;
        while i < n
            invariant
                i <= n,
                n == self.history@.len(),
                history@.len() == i,
                forall|k: int|
                    0 <= k < i ==> #[trigger] history@[k].deep_view()
                        == self.history@[k].deep_view(),
            decreases n - i,
        {
            history.push(self.history[i].clone());
            i = i + 1;
        }
        let r = Self {
            address: self.address.clone(),
            points: self.points,
            history,
            last_play: self.last_play,
        };
        proof {
            assert(r.history.deep_view() =~= self.history.deep_view());
        }
        r
    }
}

impl GameSM {
    /// The structural invariant of a round: sorted tables, a pool whose
    /// exited stake plus the stake still standing fits the total, a cached
    /// winner whenever players exist, and no negative points.
    pub open spec fn wf(self) -> bool {
        &&& self.accounts.wf()
        &&& self.ref_weight.wf()
        &&& self.players.wf()
        &&& self.game_base.decay_game.wf()
        &&& self.game_base.decay_game.exited + unexited_total(self.accounts@)
            <= self.game_base.decay_game.total
        &&& (self.players@.len() > 0 ==> self.game_base.current_winner is Some)
        &&& (self.game_base.decay_game.total > 0 ==> self.game_base.current_winner is Some)
        &&& forall|i: int| 0 <= i < self.players@.len() ==> (#[trigger] self.players@[i].1.points)
            >= 0
    }

    /// The cached leader really is a player, carries that player's points,
    /// and no player beats it.
    pub open spec fn leader_ok(self) -> bool {
        match self.game_base.winner_view() {
            None => true,
            Some(w) => {
                &&& seq_get(self.players@, w.0) matches Some(pl) && pl.points == w.1
                &&& forall|i: int| 0 <= i < self.players@.len() ==> (
                #[trigger] self.players@[i].1.points) <= w.1
            },
        }
    }

    pub fn new() -> (r: Self)
        ensures
            r.game_base.decay_game == (DecayGame {
                decay_starts_at: 0,
                decay_ends_at: 0,
                total: 0,
                exited: 0,
                rewards: 0,
            }),
            r.game_base.current_winner is None,
            r.accounts@ == Seq::<(Seq<char>, DecayGameAccount)>::empty(),
            r.ref_weight@ == Seq::<(Seq<char>, u128)>::empty(),
            r.players@ == Seq::<(Seq<char>, PlayerStatusView)>::empty(),
            r.wf(),
            r.leader_ok(),
    {
        Self {
            game_base: GameBase::new(0, 0),
            accounts: SortedMap::new(),
            ref_weight: SortedMap::new(),
            players: SortedMap::new(),
        }
    }

    /// Open a fresh pool window; the tables are left as they are, so this
    /// is for a newly created or just-cleared round.
    pub fn initialize(&mut self, decay_starts_at: u64, decay_ends_at: u64) -> (r: Result<
        (),
        ContractError,
    >)
        ensures
            r is Ok,
            final(self).game_base.decay_game == (DecayGame {
                decay_starts_at,
                decay_ends_at,
                total: 0,
                exited: 0,
                rewards: 0,
            }),
            final(self).game_base.current_winner is None,
            final(self).accounts == old(self).accounts,
            final(self).ref_weight == old(self).ref_weight,
            final(self).players == old(self).players,
            old(self).accounts@.len() == 0 && old(self).players@.len() == 0 && old(self).wf()
                ==> final(self).wf() && final(self).leader_ok(),
    {
        self.game_base = GameBase::new(decay_starts_at, decay_ends_at);
        Ok(())
    }

    /// Count one more referral for `addr`: its weight grows by one whole.
    pub fn increase_ref(&mut self, addr: &String) -> (r: Result<(), ContractError>)
        requires
            old(self).wf(),
            crate::coins::table_sum(old(self).ref_weight@, addr@) + crate::fixed::FRAC_ONE
                <= u128::MAX,
        ensures
            r is Ok,
            final(self).wf(),
            crate::coins::table_sum(final(self).ref_weight@, addr@) == crate::coins::table_sum(
                old(self).ref_weight@,
                addr@,
            ) + crate::fixed::FRAC_ONE,
            forall|a2: Seq<char>|
                a2 != addr@ ==> seq_get(final(self).ref_weight@, a2) == seq_get(
                    old(self).ref_weight@,
                    a2,
                ),
            final(self).game_base == old(self).game_base,
            final(self).accounts == old(self).accounts,
            final(self).players == old(self).players,
            old(self).leader_ok() ==> final(self).leader_ok(),
    {
        let cur: u128 = match self.ref_weight.get(addr) {
            Some(w) => *w,
            None => 0,
        };
        let key = addr.clone();
        self.ref_weight.insert(key, cur + crate::fixed::FRAC_ONE);
        Ok(())
    }

    /// The incremental leader update: take the cache if the score is
    /// strictly higher or the cache is empty.
    pub fn check_winner(game_base: &mut GameBase, account: &String, points: i64)
        ensures
            final(game_base).decay_game == old(game_base).decay_game,
            final(game_base).winner_view() == check_winner_spec(
                old(game_base).winner_view(),
                account@,
                points,
            ),
    {
        let take = match &game_base.current_winner {
            None => true,
            Some(cur) => points > cur.1,
        };
        if take {
            game_base.current_winner = Some((account.clone(), points));
        }
    }

    /// Apply a point delta: saturating addition, then floored at zero.
    pub fn apply_points(player: &mut PlayerStatus, points: i64)
        ensures
            final(player).points == apply_points_spec(old(player).points, points),
            final(player).address == old(player).address,
            final(player).history == old(player).history,
            final(player).last_play == old(player).last_play,
    {
        let p = player.points;
        let sat: i64 = if points > 0 && p > i64::MAX - points {
            i64::MAX
        } else if points < 0 && p < i64::MIN - points {
            i64::MIN
        } else {
            p + points
        };
        player.points = if sat < 0 {
            0
        } else {
            sat
        };
    }

    /// One play by one player: rejected while the cooldown runs, otherwise
    /// the points land, the play is recorded, and the clock restarts.
    pub fn update_play(
        player: &mut PlayerStatus,
        points: i64,
        msg: PlayMsg,
        now: u64,
        delay: u64,
    ) -> (r: Result<(), ContractError>)
        ensures
            match r {
                Ok(()) => now >= old(player).last_play + delay && final(player).deep_view()
                    == after_play(old(player).deep_view(), points, msg.deep_view(), now),
                Err(e) => now < old(player).last_play + delay && *final(player) == *old(player) && (
                e matches ContractError::Invalid(s) && s@ == "play_timestamp"@),
            },
    {
        if !(delay <= now && now - delay >= player.last_play) {
            return Err(ContractError::Invalid("play_timestamp".to_owned()));
        }
        Self::apply_points(player, points);
        player.history.push(msg);
        player.last_play = now;
        proof {
            assert(player.history.deep_view() =~= old(player).history.deep_view().push(
                msg.deep_view(),
            ));
        }
        Ok(())
    }

    /// Stake a ticket: rejected once the window has closed; otherwise the
    /// pool grows, a fresh account and player are stored under the
    /// identity, and the cache takes the newcomer only if it beats it.
    pub fn join(&mut self, now: u64, account: &String, amount: u128) -> (r: Result<
        (),
        ContractError,
    >)
        requires
            old(self).wf(),
            old(self).game_base.decay_game.total + amount <= u128::MAX,
        ensures
            match r {
                Ok(()) => {
                    &&& now <= old(self).game_base.decay_game.decay_ends_at
                    &&& final(self).game_base.decay_game == (DecayGame {
                        total: (old(self).game_base.decay_game.total + amount) as u128,
                        ..old(self).game_base.decay_game
                    })
                    &&& seq_get(final(self).accounts@, account@) == Some(DecayGameAccount {
                        amount,
                        decay_snapshot: 0,
                        pending: 0,
                    })
                    &&& forall|a2: Seq<char>|
                        a2 != account@ ==> seq_get(final(self).accounts@, a2) == seq_get(
                            old(self).accounts@,
                            a2,
                        )
                    &&& seq_get(final(self).players@, account@) == Some(PlayerStatusView {
                        address: account@,
                        points: 0,
                        history: Seq::empty(),
                        last_play: 0,
                    })
                    &&& forall|a2: Seq<char>|
                        a2 != account@ ==> seq_get(final(self).players@, a2) == seq_get(
                            old(self).players@,
                            a2,
                        )
                    &&& final(self).game_base.winner_view() == check_winner_spec(
                        old(self).game_base.winner_view(),
                        account@,
                        0,
                    )
                    &&& final(self).ref_weight == old(self).ref_weight
                    &&& final(self).wf()
                    &&& (old(self).leader_ok() && !seq_has_key(old(self).players@, account@)
                        ==> final(self).leader_ok())
                },
                Err(e) => now > old(self).game_base.decay_game.decay_ends_at && *final(self)
                    == *old(self) && (e matches ContractError::DecayGameError(inner) && (inner
                    matches crate::decay_game::DecayGameError::Invalid(s) && s@ == "game_ended"@)),
            },
    {
        let account_data = match self.game_base.decay_game.join(amount, now) {
            Ok(a) => a,
            Err(e) => {
                return Err(ContractError::DecayGameError(e));
            },
        };
        Self::check_winner(&mut self.game_base, account, 0i64);
        let ghost acc0 = self.accounts@;
        let ghost pl0 = self.players@;
        self.accounts.insert(account.clone(), account_data);
        self.players.insert(account.clone(), PlayerStatus::new(account.clone()));
        proof {
            let p = crate::sorted_map::first_ge(acc0, account@);
            crate::sorted_map::lemma_sorted_get_position(acc0, account@);
            let e = (account@, account_data);
            if seq_has_key(acc0, account@) {
                assert(self.accounts@ == acc0.update(p, e));
                lemma_unexited_update(acc0, p, e);
            } else {
                assert(self.accounts@ == acc0.insert(p, e));
                lemma_unexited_insert(acc0, p, e);
            }
            let q = crate::sorted_map::first_ge(pl0, account@);
            crate::sorted_map::lemma_sorted_get_position(pl0, account@);
            let pe = (
                account@,
                PlayerStatusView {
                    address: account@,
                    points: 0,
                    history: Seq::empty(),
                    last_play: 0,
                },
            );
            assert forall|i: int|
                0 <= i < self.players@.len() implies (#[trigger] self.players@[i].1.points)
                >= 0 by {
                if seq_has_key(pl0, account@) {
                    assert(self.players@ == pl0.update(q, pe));
                    if i != q {
                        assert(self.players@[i] == pl0[i]);
                    }
                } else {
                    assert(self.players@ == pl0.insert(q, pe));
                    if i < q {
                        assert(self.players@[i] == pl0[i]);
                    } else if i > q {
                        assert(self.players@[i] == pl0[i - 1]);
                    }
                }
            }
            if old(self).leader_ok() && !seq_has_key(pl0, account@) {
                assert(self.players@ == pl0.insert(q, pe));
                match old(self).game_base.winner_view() {
                    None => {
                        assert(pl0.len() == 0);
                        assert(self.players@.len() == 1);
                        assert(self.players@[0] == pe);
                    },
                    Some(w) => {
                        let wp = choose|pl: PlayerStatusView|
                            seq_get(pl0, w.0) == Some(pl) && pl.points == w.1;
                        assert(w.1 >= 0) by {
                            crate::sorted_map::lemma_sorted_get_position(pl0, w.0);
                            let wi = crate::sorted_map::first_ge(pl0, w.0);
                            assert(pl0[wi].1.points >= 0);
                        }
                        assert(final(self).game_base.winner_view() == Some(w));
                        assert(w.0 != account@);
                        assert(seq_get(self.players@, w.0) == seq_get(pl0, w.0));
                        assert forall|i: int|
                            0 <= i < self.players@.len() implies (
                        #[trigger] self.players@[i].1.points) <= w.1 by {
                            if i < q {
                                assert(self.players@[i] == pl0[i]);
                            } else if i > q {
                                assert(self.players@[i] == pl0[i - 1]);
                            }
                        }
                    },
                }
            }
        }
        Ok(())
    }

    /// Leave the round before its window closes: at most once per account,
    /// paying out the decayed share immediately.
    pub fn exit(&mut self, now: u64, account: &String) -> (r: Result<(u128, u128), ContractError>)
        requires
            old(self).wf(),
        ensures
            final(self).wf(),
            final(self).players == old(self).players,
            final(self).ref_weight == old(self).ref_weight,
            final(self).game_base.current_winner == old(self).game_base.current_winner,
            old(self).leader_ok() ==> final(self).leader_ok(),
            match r {
                Ok(out) => {
                    &&& now < old(self).game_base.decay_game.decay_ends_at
                    &&& seq_get(old(self).accounts@, account@) matches Some(acct) && {
                        let f = decay_factor_at(old(self).game_base.decay_game, now);
                        let p = exit_pending(old(self).game_base.decay_game, acct.amount, now);
                        &&& acct.decay_snapshot == 0
                        &&& out == ((p as u128, f as u128))
                        &&& final(self).game_base.decay_game == (DecayGame {
                            exited: (old(self).game_base.decay_game.exited + p) as u128,
                            ..old(self).game_base.decay_game
                        })
                        &&& seq_get(final(self).accounts@, account@) == Some(DecayGameAccount {
                            amount: acct.amount,
                            decay_snapshot: (f as u128),
                            pending: 0,
                        })
                        &&& forall|a2: Seq<char>|
                            a2 != account@ ==> seq_get(final(self).accounts@, a2) == seq_get(
                                old(self).accounts@,
                                a2,
                            )
                    }
                },
                Err(e) => *final(self) == *old(self) && if now
                    >= old(self).game_base.decay_game.decay_ends_at {
                    e matches ContractError::Invalid(s) && s@ == "game_ended"@
                } else if seq_get(old(self).accounts@, account@) is None {
                    e is NotFound
                } else {
                    seq_get(old(self).accounts@, account@) matches Some(acct)
                        && acct.decay_snapshot != 0 && (e matches ContractError::Invalid(s) && s@
                        == "already_exited"@)
                },
            },
    {
        if !(now < self.game_base.decay_game.decay_ends_at) {
            return Err(ContractError::Invalid("game_ended".to_owned()));
        }
        let mut account_data: DecayGameAccount = match self.accounts.get(account) {
            Some(a) => *a,
            None => {
                return Err(ContractError::NotFound);
            },
        };
        if account_data.decay_snapshot != 0 {
            return Err(ContractError::Invalid("already_exited".to_owned()));
        }
        proof {
            crate::sorted_map::lemma_sorted_get_position(self.accounts@, account@);
            let p = crate::sorted_map::first_ge(self.accounts@, account@);
            lemma_unexited_member(self.accounts@, p);
        }
        self.game_base.decay_game.exit(now, &mut account_data);
        let amount = self.game_base.decay_game.claim(&mut account_data);
        let ghost acc0 = old(self).accounts@;
        self.accounts.insert(account.clone(), account_data);
        proof {
            let p = crate::sorted_map::first_ge(acc0, account@);
            crate::sorted_map::lemma_sorted_get_position(acc0, account@);
            let e = (account@, account_data);
            assert(self.accounts@ == acc0.update(p, e));
            lemma_unexited_update(acc0, p, e);
            let dg0 = old(self).game_base.decay_game;
            let f = decay_factor_at(dg0, now);
            let pnd = exit_pending(dg0, account_data.amount, now);
            assert(pnd <= account_data.amount);
            assert(self.game_base.decay_game.exited == dg0.exited + pnd);
            assert(acc0[p].1.decay_snapshot == 0 && acc0[p].1.amount == account_data.amount);
            assert(unexited_total(self.accounts@) == unexited_total(acc0) - account_data.amount + (
            if account_data.decay_snapshot == 0 {
                account_data.amount as int
            } else {
                0
            }));
            if account_data.decay_snapshot == 0 {
                assert(f == 0);
                assert(account_data.amount * 0 == 0) by (nonlinear_arith);
                assert(pnd == 0);
            }
        }
        Ok((amount, account_data.decay_snapshot))
    }

    /// Close the round: once the window has passed and a pot remains, the
    /// pot is finalized and handed back with the cached winner.
    pub fn endgame(&mut self, now: u64) -> (r: Result<
        (Option<(String, i64)>, u128),
        ContractError,
    >)
        requires
            old(self).wf(),
            old(self).game_base.decay_game.rewards <= old(self).game_base.decay_game.total - old(
                self,
            ).game_base.decay_game.exited,
        ensures
            final(self).wf(),
            final(self).accounts == old(self).accounts,
            final(self).players == old(self).players,
            final(self).ref_weight == old(self).ref_weight,
            final(self).game_base.current_winner == old(self).game_base.current_winner,
            old(self).leader_ok() ==> final(self).leader_ok(),
            match r {
                Ok(out) => {
                    let dg = old(self).game_base.decay_game;
                    &&& now > dg.decay_ends_at
                    &&& dg.total - dg.exited - dg.rewards != 0
                    &&& out.1 == dg.total - dg.exited
                    &&& (match out.0 {
                        Some(w) => old(self).game_base.winner_view() == Some((w.0@, w.1)),
                        None => old(self).game_base.winner_view() is None,
                    })
                    &&& final(self).game_base.decay_game == crate::decay_game::finalized_pool(dg)
                },
                Err(e) => {
                    let dg = old(self).game_base.decay_game;
                    &&& *final(self) == *old(self)
                    &&& e matches ContractError::DecayGameError(inner) && if now
                        <= dg.decay_ends_at {
                        inner is DecayNotEnded
                    } else {
                        inner is NoRewards && dg.total - dg.exited - dg.rewards == 0
                    }
                },
            },
    {
        let amount = match self.game_base.decay_game.distribute_rewards(now) {
            Ok(a) => a,
            Err(e) => {
                return Err(ContractError::DecayGameError(e));
            },
        };
        let winner: Option<(String, i64)> = match &self.game_base.current_winner {
            Some(w) => Some((w.0.clone(), w.1)),
            None => None,
        };
        Ok((winner, amount))
    }

    /// Wipe the round and open a new window: every account, referral
    /// weight and player is dropped.
    pub fn restart(&mut self, decay_starts_at: u64, decay_ends_at: u64) -> (r: Result<
        (),
        ContractError,
    >)
        ensures
            r is Ok,
            final(self).game_base.decay_game == (DecayGame {
                decay_starts_at,
                decay_ends_at,
                total: 0,
                exited: 0,
                rewards: 0,
            }),
            final(self).game_base.current_winner is None,
            final(self).accounts@ == Seq::<(Seq<char>, DecayGameAccount)>::empty(),
            final(self).ref_weight@ == Seq::<(Seq<char>, u128)>::empty(),
            final(self).players@ == Seq::<(Seq<char>, PlayerStatusView)>::empty(),
            final(self).wf(),
            final(self).leader_ok(),
    {
        self.accounts.clear();
        self.ref_weight.clear();
        self.players.clear();
        let r = self.initialize(decay_starts_at, decay_ends_at);
        r
    }

    /// One play: the actor (who must have joined) takes its own points and
    /// records the play after the cooldown check, the named target (never
    /// the actor itself) takes its side of the schedule, and the cached
    /// leader follows — by a full rescan exactly when a hit lands on the
    /// cached leader, by a single comparison everywhere else.
    pub fn play(&mut self, msg: PlayMsg, account: &String, config: &crate::config::Config, now: u64)
        -> (r: Result<(), ContractError>)
        requires
            old(self).wf(),
        ensures
            final(self).accounts == old(self).accounts,
            final(self).ref_weight == old(self).ref_weight,
            final(self).game_base.decay_game == old(self).game_base.decay_game,
            match r {
                Ok(()) => ({
                    let m = msg.deep_view();
                    let res = play_result(
                        old(self).players@,
                        old(self).game_base.winner_view(),
                        m,
                        account@,
                        config.points,
                        now,
                    );
                    &&& seq_get(old(self).players@, account@) matches Some(actor) && now
                        >= actor.last_play + config.delay_play_seconds
                    &&& (msg_target(m) matches Some(t) ==> t != account@ && seq_has_key(
                        old(self).players@,
                        t,
                    ))
                    &&& final(self).players@ == res.0
                    &&& final(self).game_base.winner_view() == res.1
                    &&& final(self).wf()
                }),
                Err(e) => *final(self) == *old(self) && ({
                    let m = msg.deep_view();
                    if seq_get(old(self).players@, account@) is None {
                        e is NotFound
                    } else if msg_target(m) matches Some(t) && t == account@ {
                        e matches ContractError::Invalid(s) && s@ == "target"@
                    } else if now < player_or_default(old(self).players@, account@).last_play
                        + config.delay_play_seconds {
                        e matches ContractError::Invalid(s) && s@ == "play_timestamp"@
                    } else {
                        msg_target(m) matches Some(t) && seq_get(old(self).players@, t) is None
                            && e is NotFound
                    }
                }),
            },
            (r is Ok && old(self).leader_ok() && config.points.keep >= 0
                && config.points.help.myself >= 0 && config.points.help.other >= 0
                && config.points.hit <= 0) ==> final(self).leader_ok(),
    {
        let ghost ps0 = self.players@;
        let ghost w0 = self.game_base.winner_view();
        let ghost m = msg.deep_view();
        let mut player: PlayerStatus = match self.players.get(account) {
            Some(p) => p.clone(),
            None => {
                return Err(ContractError::NotFound);
            },
        };
        let ghost actor0 = player.deep_view();
        let (player_points, target_points, hit): (i64, i64, bool) = match &msg {
            PlayMsg::Keep => (config.points.keep, 0i64, false),
            PlayMsg::Hit { .. } => (0i64, config.points.hit, true),
            PlayMsg::Help { .. } => (config.points.help.myself, config.points.help.other, false),
        };
        let target: Option<&String> = match &msg {
            PlayMsg::Keep => None,
            PlayMsg::Hit { target } => Some(target),
            PlayMsg::Help { target } => Some(target),
        };
        if let Some(t) = target {
            if t.eq(account) {
                return Err(ContractError::Invalid("target".to_owned()));
            }
        }
        match Self::update_play(&mut player, player_points, msg.clone(), now,
            config.delay_play_seconds) {
            Ok(()) => {},
            Err(e) => {
                return Err(e);
            },
        }
        let ghost actor1 = player.deep_view();
        proof {
            assert(actor1 == after_play(actor0, self_delta(m, config.points), m, now));
            assert(actor1.points >= 0);
            if self_delta(m, config.points) >= 0 {
                assert(actor1.points >= actor0.points);
            }
        }
        match target {
            None => {
                let new_pts = player.points;
                self.players.insert(account.clone(), player);
                proof {
                    assert(self.players@ == seq_put(ps0, account@, actor1));
                    lemma_put_points_bound(ps0, account@, actor1, 0, i64::MAX);
                }
                Self::check_winner(&mut self.game_base, account, new_pts);
                proof {
                    if old(self).leader_ok() && config.points.keep >= 0 {
                        lemma_leader_after_raise(ps0, w0, account@, actor1);
                    }
                }
                Ok(())
            },
            Some(t) => {
                let mut target_player: PlayerStatus = match self.players.get(t) {
                    Some(p) => p.clone(),
                    None => {
                        return Err(ContractError::NotFound);
                    },
                };
                let ghost tgt0 = target_player.deep_view();
                Self::apply_points(&mut target_player, target_points);
                let ghost tgt1 = target_player.deep_view();
                proof {
                    assert(tgt1 == after_target(tgt0, target_delta(m, config.points)));
                    assert(tgt1.points >= 0);
                }
                let tpts = target_player.points;
                self.players.insert(t.clone(), target_player);
                let ghost ps1 = self.players@;
                proof {
                    assert(ps1 == seq_put(ps0, t@, tgt1));
                    lemma_put_points_bound(ps0, t@, tgt1, 0, i64::MAX);
                }
                let is_leader_hit = hit && (match &self.game_base.current_winner {
                    Some(cur) => cur.0.eq(t),
                    None => false,
                });
                if is_leader_hit {
                    let _ = Self::update_winner(&self.players, &mut self.game_base);
                } else {
                    Self::check_winner(&mut self.game_base, t, tpts);
                }
                let ghost w1 = self.game_base.winner_view();
                proof {
                    let lead = old(self).leader_ok() && config.points.keep >= 0
                        && config.points.help.myself >= 0 && config.points.help.other >= 0
                        && config.points.hit <= 0;
                    if lead {
                        if is_leader_hit {
                            lemma_rescan_ok(ps1);
                            assert(w1 is Some);
                        } else if hit {
                            assert(ps0.len() > 0);
                            assert(w0 matches Some(cur) && cur.0 != t@);
                            assert(tgt1.points <= tgt0.points) by {
                                assert(target_delta(m, config.points) <= 0);
                                crate::sorted_map::lemma_sorted_get_position(ps0, t@);
                                let fg = crate::sorted_map::first_ge(ps0, t@);
                                assert(ps0[fg].1 == tgt0);
                                assert(ps0[fg].1.points >= 0);
                            }
                            assert(tgt0.points <= w0->Some_0.1) by {
                                crate::sorted_map::lemma_sorted_get_position(ps0, t@);
                                let fg = crate::sorted_map::first_ge(ps0, t@);
                                assert(ps0[fg].1 == tgt0);
                                assert(ps0[fg].1.points <= w0->Some_0.1);
                            }
                            lemma_leader_after_lower(ps0, w0, t@, tgt1);
                        } else {
                            assert(tgt1.points >= tgt0.points) by {
                                assert(target_delta(m, config.points) >= 0);
                            }
                            lemma_leader_after_raise(ps0, w0, t@, tgt1);
                        }
                        assert(leader_ok_seq(ps1, w1));
                        assert(w1 is Some);
                    }
                }
                let new_pts = player.points;
                self.players.insert(account.clone(), player);
                proof {
                    assert(self.players@ == seq_put(ps1, account@, actor1));
                    lemma_put_points_bound(ps1, account@, actor1, 0, i64::MAX);
                    assert(seq_get(ps1, account@) == seq_get(ps0, account@));
                }
                Self::check_winner(&mut self.game_base, account, new_pts);
                proof {
                    let lead = old(self).leader_ok() && config.points.keep >= 0
                        && config.points.help.myself >= 0 && config.points.help.other >= 0
                        && config.points.hit <= 0;
                    if lead {
                        assert(self_delta(m, config.points) >= 0);
                        assert(actor1.points >= actor0.points);
                        lemma_leader_after_raise(ps1, w1, account@, actor1);
                    }
                }
                Ok(())
            },
        }
    }

    /// Whether the window has passed at `now`.
    pub fn is_ended(&self, now: u64) -> (r: bool)
        ensures
            r == (now > self.game_base.decay_game.decay_ends_at),
    {
        !(now <= self.game_base.decay_game.decay_ends_at)
    }

    /// Whether the window has opened at `now`.
    pub fn is_started(&self, now: u64) -> (r: bool)
        ensures
            r == (now >= self.game_base.decay_game.decay_starts_at),
    {
        !(now < self.game_base.decay_game.decay_starts_at)
    }

    /// Whether the round is over and its rewards were finalized.
    pub fn is_completed(&self, now: u64) -> (r: bool)
        requires
            self.game_base.decay_game.wf(),
        ensures
            r == (now > self.game_base.decay_game.decay_ends_at
                && self.game_base.decay_game.rewards == self.game_base.decay_game.total
                - self.game_base.decay_game.exited),
    {
        let dg = &self.game_base.decay_game;
        if now <= dg.decay_ends_at || !(dg.rewards == dg.total - dg.exited) {
            false
        } else {
            true
        }
    }

    pub fn has_joined(&self, addr: &String) -> (r: bool)
        ensures
            r == seq_has_key(self.accounts@, addr@),
    {
        self.accounts.has(addr)
    }

    /// Whether the account exited already; an account that never joined is
    /// not found.
    pub fn has_exited(&self, addr: &String) -> (r: Result<bool, ContractError>)
        ensures
            match r {
                Ok(b) => seq_get(self.accounts@, addr@) matches Some(acct) && b == (
                acct.decay_snapshot != 0),
                Err(e) => seq_get(self.accounts@, addr@) is None && e is NotFound,
            },
    {
        let account = match self.accounts.get(addr) {
            Some(a) => a,
            None => {
                return Err(ContractError::NotFound);
            },
        };
        if account.decay_snapshot != 0 {
            return Ok(true);
        }
        Ok(false)
    }

    /// All referral weights, by referrer address ascending.
    pub fn get_ref_weights(&self) -> (r: Result<Vec<(String, u128)>, ContractError>)
        ensures
            r matches Ok(v) && v.deep_view() == self.ref_weight@,
    {
        let n = self.ref_weight.entries.len();
        let mut out: Vec<(String, u128)> = Vec::new();
        let mut k: usize = 0;
        while k < n
            invariant
                k <= n,
                n == self.ref_weight.entries@.len(),
                out@.len() == k,
                forall|i: int|
                    0 <= i < k ==> (#[trigger] out@[i].deep_view()) == self.ref_weight@[i],
            decreases n - k,
        {
            proof {
                assert(self.ref_weight@[k as int] == (
                    self.ref_weight.entries@[k as int].0@,
                    self.ref_weight.entries@[k as int].1,
                ));
            }
            out.push((self.ref_weight.entries[k].0.clone(), self.ref_weight.entries[k].1));
            k = k + 1;
        }
        proof {
            assert(out.deep_view() =~= self.ref_weight@);
        }
        Ok(out)
    }

    /// A full copy of the round: the pool, the cached winner, and every
    /// account, player and referral weight in table order.
    pub fn get_snap(&self) -> (r: Result<GameSmSnapshot, ContractError>)
        ensures
            r matches Ok(snap) && {
                &&& snap.decay_game == self.game_base.decay_game
                &&& (match snap.current_winner {
                    Some(w) => self.game_base.winner_view() == Some((w.0@, w.1)),
                    None => self.game_base.winner_view() is None,
                })
                &&& snap.accounts.deep_view() == self.accounts@
                &&& snap.players.deep_view() == self.players@.map_values(
                    |e: (Seq<char>, PlayerStatusView)| e.1,
                )
                &&& snap.referrals.deep_view() == self.ref_weight@
            },
    {
        let decay_game = self.game_base.decay_game;
        let current_winner: Option<(String, i64)> = match &self.game_base.current_winner {
            Some(w) => Some((w.0.clone(), w.1)),
            None => None,
        };
        let referrals = match self.get_ref_weights() {
            Ok(v) => v,
            Err(e) => {
                return Err(e);
            },
        };
        let np = self.players.entries.len();
        let mut players: Vec<PlayerStatus> = Vec::new();
        let mut k: usize = 0;
        while k < np
            invariant
                k <= np,
                np == self.players.entries@.len(),
                players@.len() == k,
                forall|i: int|
                    0 <= i < k ==> (#[trigger] players@[i].deep_view()) == self.players@[i].1,
            decreases np - k,
        {
            proof {
                assert(self.players@[k as int] == (
                    self.players.entries@[k as int].0@,
                    self.players.entries@[k as int].1.deep_view(),
                ));
            }
            players.push(self.players.entries[k].1.clone());
            k = k + 1;
        }
        let na = self.accounts.entries.len();
        let mut accounts: Vec<(String, DecayGameAccount)> = Vec::new();
        let mut j: usize = 0;
        while j < na
            invariant
                j <= na,
                na == self.accounts.entries@.len(),
                accounts@.len() == j,
                forall|i: int|
                    0 <= i < j ==> (#[trigger] accounts@[i].deep_view()) == self.accounts@[i],
            decreases na - j,
        {
            proof {
                assert(self.accounts@[j as int] == (
                    self.accounts.entries@[j as int].0@,
                    self.accounts.entries@[j as int].1,
                ));
            }
            accounts.push((self.accounts.entries[j].0.clone(), self.accounts.entries[j].1));
            j = j + 1;
        }
        let snap = GameSmSnapshot { decay_game, accounts, current_winner, players, referrals };
        proof {
            assert(snap.accounts.deep_view() =~= self.accounts@);
            assert(snap.players.deep_view() =~= self.players@.map_values(
                |e: (Seq<char>, PlayerStatusView)| e.1,
            ));
        }
        Ok(snap)
    }

    /// The full rescan: walk every player in table order and cache the
    /// first strict maximum.
    pub fn update_winner(players: &SortedMap<PlayerStatus>, game_base: &mut GameBase) -> (r: Result<
        (),
        ContractError,
    >)
        ensures
            r is Ok,
            final(game_base).decay_game == old(game_base).decay_game,
            final(game_base).winner_view() == rescan_winner(players@),
    {
        let ghost ps = players@;
        let n = players.entries.len();
        let mut max_points: i64 = i64::MIN;
        let mut winner: Option<String> = None;
        let mut k: usize = 0;
        proof {
            assert(ps.skip(0) =~= ps);
        }
        while k < n
            invariant
                k <= n,
                n == ps.len(),
                ps == players@,
                n == players.entries@.len(),
                scan_from(ps, (None, i64::MIN as i64)) == scan_from(
                    ps.skip(k as int),
                    (
                        match winner {
                            Some(w) => Some(w@),
                            None => None,
                        },
                        max_points,
                    ),
                ),
            decreases n - k,
        {
            proof {
                assert(ps[k as int] == (
                    players.entries@[k as int].0@,
                    players.entries@[k as int].1.deep_view(),
                ));
                assert(ps.skip(k as int)[0] == ps[k as int]);
                assert(ps.skip(k as int).drop_first() =~= ps.skip(k + 1));
            }
            if players.entries[k].1.points > max_points {
                max_points = players.entries[k].1.points;
                winner = Some(players.entries[k].0.clone());
            }
            k = k + 1;
        }
        proof {
            assert(ps.skip(n as int) =~= Seq::<(Seq<char>, PlayerStatusView)>::empty());
        }
        game_base.current_winner = match winner {
            Some(addr) => Some((addr, max_points)),
            None => None,
        };
        Ok(())
    }
}

} // verus!
