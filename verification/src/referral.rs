//! The referral registry: users generate codes, referees bind themselves
//! to a code's owner, and the bindings can be read back either way.
use crate::error::ContractError;
use crate::sorted_map::{seq_get, SortedMap};
use vstd::prelude::*;

verus! {

/// Which senders or denominations an operation is open to: everyone, or
/// only the listed ones.
#[derive(Debug)]
pub enum Whitelist {
    All,
    Listed(Vec<String>),
}

/// The registry's configuration.
#[derive(Debug)]
pub struct Config {
    pub owner: String,
    pub whitelisted_denoms: Whitelist,
    pub whitelisted_contracts: Whitelist,
}

#[derive(Debug)]
pub struct InstantiateMsg {
    pub owner: String,
    pub whitelisted_denoms: Whitelist,
    pub whitelisted_contracts: Whitelist,
}

#[derive(Debug)]
pub struct ConfigUpdate {
    pub owner: Option<String>,
    pub whitelisted_denoms: Option<Whitelist>,
    pub whitelisted_contracts: Option<Whitelist>,
}

impl Config {
    /// The configuration an instantiation sets up.
    pub fn from(msg: InstantiateMsg) -> (r: Self)
        ensures
            r.owner == msg.owner,
            r.whitelisted_denoms == msg.whitelisted_denoms,
            r.whitelisted_contracts == msg.whitelisted_contracts,
    {
        Self {
            owner: msg.owner,
            whitelisted_denoms: msg.whitelisted_denoms,
            whitelisted_contracts: msg.whitelisted_contracts,
        }
    }

    /// Apply an update field by field; absent fields keep their value.
    pub fn apply_update(&mut self, msg: ConfigUpdate) -> (r: Result<(), ContractError>)
        ensures
            r is Ok,
            final(self).owner == (match msg.owner {
                Some(o) => o,
                None => old(self).owner,
            }),
            final(self).whitelisted_denoms == (match msg.whitelisted_denoms {
                Some(w) => w,
                None => old(self).whitelisted_denoms,
            }),
            final(self).whitelisted_contracts == (match msg.whitelisted_contracts {
                Some(w) => w,
                None => old(self).whitelisted_contracts,
            }),
    {
        if let Some(owner) = msg.owner {
            self.owner = owner;
        }
        if let Some(whitelisted_denoms) = msg.whitelisted_denoms {
            self.whitelisted_denoms = whitelisted_denoms;
        }
        if let Some(whitelisted_contracts) = msg.whitelisted_contracts {
            self.whitelisted_contracts = whitelisted_contracts;
        }
        Ok(())
    }
}

/// What a referral operation can fail with.
#[derive(Debug)]
pub enum ReferralError {
    /// The user generated a code before.
    UserAlreadyHasCode,
    /// No user owns the given code.
    CodeNotFound,
    /// The referee is already bound to a code.
    RefereeAlreadyAdded,
    /// The code resolves to no address.
    AddrNotFound,
}

/// The three bindings of the registry: user to code, code to user, and
/// referee to the referring user.
#[derive(Debug)]
pub struct ReferralSM {
    pub user_to_code: SortedMap<String>,
    pub code_to_user: SortedMap<String>,
    pub referee_to_user: SortedMap<String>,
}

/// The referees bound to `user`, in ascending order.
pub open spec fn referees_of(s: Seq<(Seq<char>, Seq<char>)>, user: Seq<char>) -> Seq<Seq<char>>
    decreases s.len(),
{
    if s.len() == 0 {
        Seq::empty()
    } else {
        let rest = referees_of(s.drop_first(), user);
        if s[0].1 == user {
            seq![s[0].0] + rest
        } else {
            rest
        }
    }
}

pub proof fn lemma_referees_of_push(s: Seq<(Seq<char>, Seq<char>)>, e: (Seq<char>, Seq<char>), user: Seq<char>)
    ensures
        referees_of(s.push(e), user) == referees_of(s, user) + (if e.1 == user {
            seq![e.0]
        } else {
            Seq::<Seq<char>>::empty()
        }),
    decreases s.len(),
{
    let tail = if e.1 == user {
        seq![e.0]
    } else {
        Seq::<Seq<char>>::empty()
    };
    if s.len() == 0 {
        assert(s.push(e).len() == 1);
        assert(s.push(e)[0] == e);
        assert(s.push(e).drop_first() =~= Seq::<(Seq<char>, Seq<char>)>::empty());
        assert(referees_of(s.push(e).drop_first(), user) == Seq::<Seq<char>>::empty());
        assert(referees_of(s.push(e), user) =~= referees_of(s, user) + tail);
    } else {
        assert(s.push(e)[0] == s[0]);
        assert(s.push(e).drop_first() =~= s.drop_first().push(e));
        lemma_referees_of_push(s.drop_first(), e, user);
        if s[0].1 == user {
            assert(seq![s[0].0] + (referees_of(s.drop_first(), user) + tail) =~= (seq![s[0].0]
                + referees_of(s.drop_first(), user)) + tail);
        }
    }
}

impl ReferralSM {
    pub open spec fn wf(self) -> bool {
        &&& self.user_to_code.wf()
        &&& self.code_to_user.wf()
        &&& self.referee_to_user.wf()
    }

    pub fn new() -> (r: Self)
        ensures
            r.wf(),
            r.user_to_code@ == Seq::<(Seq<char>, Seq<char>)>::empty(),
            r.code_to_user@ == Seq::<(Seq<char>, Seq<char>)>::empty(),
            r.referee_to_user@ == Seq::<(Seq<char>, Seq<char>)>::empty(),
    {
        Self {
            user_to_code: SortedMap::new(),
            code_to_user: SortedMap::new(),
            referee_to_user: SortedMap::new(),
        }
    }

    /// Register a code for a user who has none yet; the code is bound back
    /// to the user.
    pub fn gen_code(&mut self, user: &String, code: &String) -> (r: Result<(), ReferralError>)
        requires
            old(self).wf(),
        ensures
            final(self).wf(),
            final(self).referee_to_user == old(self).referee_to_user,
            match r {
                Ok(()) => {
                    &&& seq_get(old(self).user_to_code@, user@) is None
                    &&& seq_get(final(self).user_to_code@, user@) == Some(code@)
                    &&& forall|u2: Seq<char>|
                        u2 != user@ ==> seq_get(final(self).user_to_code@, u2) == seq_get(
                            old(self).user_to_code@,
                            u2,
                        )
                    &&& seq_get(final(self).code_to_user@, code@) == Some(user@)
                    &&& forall|c2: Seq<char>|
                        c2 != code@ ==> seq_get(final(self).code_to_user@, c2) == seq_get(
                            old(self).code_to_user@,
                            c2,
                        )
                },
                Err(e) => seq_get(old(self).user_to_code@, user@) is Some && *final(self) == *old(
                    self,
                ) && e is UserAlreadyHasCode,
            },
    {
        if self.user_to_code.has(user) {
            return Err(ReferralError::UserAlreadyHasCode);
        }
        self.user_to_code.insert(user.clone(), code.clone());
        self.code_to_user.insert(code.clone(), user.clone());
        Ok(())
    }

    /// The user's code, or the empty string if none was generated.
    pub fn get_code(&self, user: &String) -> (r: String)
        ensures
            r@ == (match seq_get(self.user_to_code@, user@) {
                Some(c) => c,
                None => Seq::<char>::empty(),
            }),
    {
        match self.user_to_code.get(user) {
            Some(c) => c.clone(),
            None => {
                let r = String::new();
                proof {
                    assert(r@ =~= Seq::<char>::empty());
                }
                r
            },
        }
    }

    /// The address a code resolves to.
    pub fn get_addr(&self, code: &String) -> (r: Result<String, ReferralError>)
        ensures
            match r {
                Ok(a) => seq_get(self.code_to_user@, code@) == Some(a@),
                Err(e) => seq_get(self.code_to_user@, code@) is None && e is AddrNotFound,
            },
    {
        match self.code_to_user.get(code) {
            Some(a) => Ok(a.clone()),
            None => Err(ReferralError::AddrNotFound),
        }
    }

    /// Bind a referee to the owner of `code`: the code must exist and the
    /// referee must not be bound yet.
    pub fn add_referee(&mut self, referee: &String, code: &String) -> (r: Result<
        (),
        ReferralError,
    >)
        requires
            old(self).wf(),
        ensures
            final(self).wf(),
            final(self).user_to_code == old(self).user_to_code,
            final(self).code_to_user == old(self).code_to_user,
            match r {
                Ok(()) => {
                    &&& seq_get(old(self).code_to_user@, code@) matches Some(u) && seq_get(
                        final(self).referee_to_user@,
                        referee@,
                    ) == Some(u)
                    &&& seq_get(old(self).referee_to_user@, referee@) is None
                    &&& forall|r2: Seq<char>|
                        r2 != referee@ ==> seq_get(final(self).referee_to_user@, r2) == seq_get(
                            old(self).referee_to_user@,
                            r2,
                        )
                },
                Err(e) => *final(self) == *old(self) && if seq_get(
                    old(self).code_to_user@,
                    code@,
                ) is None {
                    e is CodeNotFound
                } else {
                    seq_get(old(self).referee_to_user@, referee@) is Some
                        && e is RefereeAlreadyAdded
                },
            },
    {
        let user: String = match self.code_to_user.get(code) {
            Some(u) => u.clone(),
            None => {
                return Err(ReferralError::CodeNotFound);
            },
        };
        if self.referee_to_user.has(referee) {
            return Err(ReferralError::RefereeAlreadyAdded);
        }
        self.referee_to_user.insert(referee.clone(), user);
        Ok(())
    }

    /// Who referred the given referee, or the empty string if nobody did.
    pub fn get_referrer(&self, referee: &String) -> (r: String)
        ensures
            r@ == (match seq_get(self.referee_to_user@, referee@) {
                Some(u) => u,
                None => Seq::<char>::empty(),
            }),
    {
        match self.referee_to_user.get(referee) {
            Some(u) => u.clone(),
            None => {
                let r = String::new();
                proof {
                    assert(r@ =~= Seq::<char>::empty());
                }
                r
            },
        }
    }

    /// All referees bound to `user`, in ascending order.
    pub fn get_referral_struct(&self, user: &String) -> (r: Vec<String>)
        ensures
            r.deep_view() == referees_of(self.referee_to_user@, user@),
    {
        let ghost rs = self.referee_to_user@;
        let n = self.referee_to_user.entries.len();
        let mut out: Vec<String> = Vec::new();
        let mut k: usize = 0;
        while k < n
            invariant
                k <= n,
                n == self.referee_to_user.entries@.len(),
                n == rs.len(),
                rs == self.referee_to_user@,
                out.deep_view() == referees_of(rs.take(k as int), user@),
            decreases n - k,
        {
            proof {
                assert(rs[k as int] == (
                    self.referee_to_user.entries@[k as int].0@,
                    self.referee_to_user.entries@[k as int].1@,
                ));
                assert(rs.take(k + 1) =~= rs.take(k as int).push(rs[k as int]));
                lemma_referees_of_push(rs.take(k as int), rs[k as int], user@);
            }
            if self.referee_to_user.entries[k].1.eq(user) {
                out.push(self.referee_to_user.entries[k].0.clone());
            }
            proof {
                assert(out.deep_view() =~= referees_of(rs.take(k + 1), user@));
            }
            k = k + 1;
        }
        proof {
            assert(rs.take(n as int) =~= rs);
        }
        out
    }
}

} // verus!
