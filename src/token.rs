use vstd::prelude::*;

use crate::error::ContractError;
use crate::identity::{copy_bytes, Identity};
use crate::ledger::{
    all_nonneg, balance_in, find_owner, lemma_balance_absent, lemma_balance_at,
    lemma_balance_bounded, lemma_push, lemma_update, owners_unique, sum_of, Balance,
};

verus! {

/// Number of decimal places every token of this ledger shows.
pub const DECIMALS: u32 = 7;

/// The ledger's one record.
#[derive(Debug, Clone)]
pub struct State {
    pub name: Vec<u8>,
    pub symbol: Vec<u8>,
    pub decimals: u32,
    pub total_supply: i128,
    pub balances: Vec<Balance>,
    pub admin: Identity,
}

/// The key under which the ledger keeps its record.
#[derive(Debug, Clone, Copy, PartialEq, Eq, Structural)]
pub enum Key {
    State,
}

/// What the ledger publishes: `INIT`, `XFER` and `MINT`.
#[derive(Debug, Clone)]
pub enum TokenEvent {
    Init { admin: Identity, name: Vec<u8>, symbol: Vec<u8>, supply: i128 },
    Transfer { from: Identity, to: Identity, amount: i128 },
    Mint { admin: Identity, to: Identity, amount: i128 },
}

/// The ledger contract's stored record and the events published so far that
/// the host has not yet taken.
#[derive(Debug, Clone)]
pub struct TokenContract {
    pub state: Option<State>,
    pub events: Vec<TokenEvent>,
}

impl State {
    /// One entry per holder, none negative, and the supply is their sum.
    pub open spec fn wf(&self) -> bool {
        &&& owners_unique(self.balances@)
        &&& all_nonneg(self.balances@)
        &&& sum_of(self.balances@) == self.total_supply
        &&& self.decimals == DECIMALS
    }

    pub open spec fn balance_of(&self, who: Seq<u8>) -> int {
        balance_in(self.balances@, who)
    }

    /// `after` differs from `self` only in the balances, and by `delta`
    /// for each holder.
    pub open spec fn moved(&self, after: State, delta: spec_fn(Seq<u8>) -> int) -> bool {
        &&& after.name == self.name
        &&& after.symbol == self.symbol
        &&& after.decimals == self.decimals
        &&& after.admin == self.admin
        &&& forall|who: Seq<u8>| #[trigger]
            after.balance_of(who) == self.balance_of(who) + delta(who)
    }
}

impl TokenContract {
    pub open spec fn wf(&self) -> bool {
        self.state matches Some(st) ==> st.wf()
    }

    /// `who`'s balance; zero while the ledger does not exist.
    pub open spec fn balance_of(&self, who: Seq<u8>) -> int {
        match self.state {
            Some(st) => st.balance_of(who),
            None => 0,
        }
    }

    /// Why a transfer aborts, if it does.
    pub open spec fn transfer_error(&self, from: Seq<u8>, amount: int, authorized: bool) -> Option<
        ContractError,
    > {
        if !authorized {
            Some(ContractError::Unauthorized)
        } else if amount <= 0 {
            Some(ContractError::InvalidAmount)
        } else if self.state is None {
            Some(ContractError::NotInitialized)
        } else if self.balance_of(from) < amount {
            Some(ContractError::InsufficientBalance)
        } else {
            None
        }
    }

    /// Why a mint aborts, if it does.
    pub open spec fn mint_error(&self, admin: Seq<u8>, amount: int, authorized: bool) -> Option<
        ContractError,
    > {
        if !authorized {
            Some(ContractError::Unauthorized)
        } else if amount <= 0 {
            Some(ContractError::InvalidAmount)
        } else if self.state is None {
            Some(ContractError::NotInitialized)
        } else if self.state->Some_0.admin@ != admin {
            Some(ContractError::NotAdmin)
        } else if self.state->Some_0.total_supply + amount > i128::MAX {
            Some(ContractError::ArithmeticOverflow)
        } else {
            None
        }
    }

    /// Moves `amount` from `from` to `to`. `authorized` is the host's
    /// verdict on `from`'s authorization.
    pub fn transfer(&mut self, from: Identity, to: Identity, amount: i128, authorized: bool) -> (r:
        Result<(), ContractError>)
        requires
            old(self).wf(),
        ensures
            final(self).wf(),
            r is Err <==> old(self).transfer_error(from@, amount as int, authorized) is Some,
            r matches Err(e) ==> Some(e) == old(self).transfer_error(
                from@,
                amount as int,
                authorized,
            ) && *final(self) == *old(self),
            r is Ok ==> {
                let st = old(self).state->Some_0;
                let st2 = final(self).state->Some_0;
                &&& final(self).state is Some
                &&& st2.total_supply == st.total_supply
                &&& st.moved(
                    st2,
                    (|who: Seq<u8>|
                        (if who == to@ {
                            amount as int
                        } else {
                            0
                        }) - (if who == from@ {
                            amount as int
                        } else {
                            0
                        })),
                )
                &&& final(self).events@ == old(self).events@.push(
                    TokenEvent::Transfer { from, to, amount },
                )
            },
    {
        if !authorized {
            return Err(ContractError::Unauthorized);
        }
        if amount <= 0 {
            return Err(ContractError::InvalidAmount);
        }
        let (from_idx, from_bal) = match &self.state {
            None => return Err(ContractError::NotInitialized),
            Some(st) => {
                let idx = find_owner(&st.balances, &from);
                let bal: i128 = match idx {
                    Some(i) => {
                        proof {
                            lemma_balance_at(st.balances@, i as int);
                        }
                        st.balances[i].amount
                    },
                    None => {
                        proof {
                            lemma_balance_absent(st.balances@, from@);
                        }
                        0
                    },
                };
                if bal < amount {
                    return Err(ContractError::InsufficientBalance);
                }
                (idx, bal)
            },
        };
        let i = from_idx.unwrap();
        let mut st = self.state.take().unwrap();
        let ghost s0 = st.balances@;
        let debited = Balance { owner: from.duplicate(), amount: from_bal - amount };
        proof {
            lemma_update(s0, i as int, debited);
        }
        st.balances[i] = debited;
        let ghost s1 = st.balances@;
        assert(all_nonneg(s1)) by {
            assert forall|k: int| 0 <= k < s1.len() implies #[trigger] s1[k].amount >= 0 by {
                if k != i {
                    assert(s1[k] == s0[k]);
                }
            }
        }
        match find_owner(&st.balances, &to) {
            Some(j) => {
                let held = st.balances[j].amount;
                proof {
                    lemma_balance_at(s1, j as int);
                    lemma_balance_bounded(s1, to@);
                }
                let credited = Balance { owner: to.duplicate(), amount: held + amount };
                proof {
                    lemma_update(s1, j as int, credited);
                }
                st.balances[j] = credited;
                let ghost s2 = st.balances@;
                assert(all_nonneg(s2)) by {
                    assert forall|k: int| 0 <= k < s2.len() implies #[trigger] s2[k].amount
                        >= 0 by {
                        if k != j {
                            assert(s2[k] == s1[k]);
                        }
                    }
                }
            },
            None => {
                proof {
                    lemma_balance_absent(s1, to@);
                }
                let credited = Balance { owner: to.duplicate(), amount };
                proof {
                    lemma_push(s1, credited);
                }
                st.balances.push(credited);
                let ghost s2 = st.balances@;
                assert(owners_unique(s2)) by {
                    assert forall|x: int, y: int| 0 <= x < y < s2.len() implies #[trigger] s2[x].owner@
                        != #[trigger] s2[y].owner@ by {
                        if y == s2.len() - 1 {
                            assert(s1[x].owner@ != to@);
                        } else {
                            assert(s1[x].owner@ != s1[y].owner@);
                        }
                    }
                }
                assert(all_nonneg(s2)) by {
                    assert forall|k: int| 0 <= k < s2.len() implies #[trigger] s2[k].amount
                        >= 0 by {
                        if k < s1.len() {
                            assert(s2[k] == s1[k]);
                        }
                    }
                }
            },
        }
        self.state = Some(st);
        self.events.push(TokenEvent::Transfer { from, to, amount });
        Ok(())
    }
}

impl TokenContract {
    /// A ledger with no record yet.
    pub fn new() -> (r: TokenContract)
        ensures
            r.wf(),
            r.state is None,
            r.events@.len() == 0,
    {
        TokenContract { state: None, events: Vec::new() }
    }

    /// Whether the record under `key` is present.
    pub fn has(&self, key: Key) -> (r: bool)
        ensures
            r == (self.state is Some),
    {
        match key {
            Key::State => self.state.is_some(),
        }
    }

    /// Whether `wf` holds; a record read back from a store is checked with
    /// this before any operation.
    pub fn is_valid(&self) -> (r: bool)
        ensures
            r == self.wf(),
    {
        let st = match &self.state {
            Some(st) => st,
            None => return true,
        };
        if st.decimals != DECIMALS {
            return false;
        }
        let n = st.balances.len();
        let mut sum: i128 = 0;
        let mut i: usize = 0;
        while i < n
            invariant
                self.state == Some(*st),
                st.decimals == DECIMALS,
                n == st.balances@.len(),
                i <= n,
                sum == sum_of(st.balances@.subrange(0, i as int)),
                0 <= sum,
                all_nonneg(st.balances@.subrange(0, i as int)),
                owners_unique(st.balances@.subrange(0, i as int)),
            decreases n - i,
        {
            let ghost pre = st.balances@.subrange(0, i as int);
            let ghost cur = st.balances@.subrange(0, i + 1);
            assert(cur.drop_last() =~= pre);
            let amount = st.balances[i].amount;
            if amount < 0 {
                proof {
                    if all_nonneg(st.balances@) {
                        assert(st.balances@[i as int].amount >= 0);
                    }
                }
                return false;
            }
            let owner = &st.balances[i].owner;
            assert(owner@ == st.balances@[i as int].owner@);
            match find_owner(&st.balances, owner) {
                Some(j) => {
                    if j != i {
                        proof {
                            if owners_unique(st.balances@) {
                                if j < i {
                                    assert(st.balances@[j as int].owner@
                                        != st.balances@[i as int].owner@);
                                } else {
                                    assert(st.balances@[i as int].owner@
                                        != st.balances@[j as int].owner@);
                                }
                            }
                        }
                        return false;
                    }
                    assert(forall|x: int| 0 <= x < i ==> #[trigger] st.balances@[x].owner@ != owner@);
                },
                None => {
                    assert(st.balances@[i as int].owner@ != st.balances@[i as int].owner@);
                },
            }
            if sum > i128::MAX - amount {
                proof {
                    if all_nonneg(st.balances@) {
                        lemma_prefix_sum_le(st.balances@, i + 1);
                    }
                }
                return false;
            }
            assert forall|x: int, y: int| 0 <= x < y < cur.len() implies #[trigger] cur[x].owner@
                != #[trigger] cur[y].owner@ by {
                assert(cur[x] == st.balances@[x]);
                assert(cur[y] == st.balances@[y]);
                if y < i {
                    assert(cur[x] == pre[x] && cur[y] == pre[y]);
                } else {
                    assert(st.balances@[x].owner@ != owner@);
                }
            }
            sum = sum + amount;
            i = i + 1;
        }
        assert(st.balances@.subrange(0, n as int) =~= st.balances@);
        sum == st.total_supply
    }
}

/// A prefix of a list without negative entries sums to no more than the list.
proof fn lemma_prefix_sum_le(s: Seq<Balance>, k: int)
    requires
        all_nonneg(s),
        0 <= k <= s.len(),
    ensures
        sum_of(s.subrange(0, k)) <= sum_of(s),
    decreases s.len() - k,
{
    if k < s.len() {
        let a = s.subrange(0, k);
        let b = s.subrange(0, k + 1);
        assert(b.drop_last() =~= a);
        assert(s[k] == b.last());
        lemma_prefix_sum_le(s, k + 1);
    } else {
        assert(s.subrange(0, k) =~= s);
    }
}

impl TokenContract {
    /// Why `init` aborts, if it does.
    pub open spec fn init_error(&self, supply: int) -> Option<ContractError> {
        if self.state is Some {
            Some(ContractError::AlreadyInitialized)
        } else if supply <= 0 {
            Some(ContractError::InvalidAmount)
        } else {
            None
        }
    }

    /// Creates the ledger with the whole `supply` held by `admin`. The name
    /// and symbol are display text, kept as the bytes given.
    pub fn init(&mut self, admin: Identity, name: Vec<u8>, symbol: Vec<u8>, supply: i128) -> (r:
        Result<(), ContractError>)
        requires
            old(self).wf(),
        ensures
            final(self).wf(),
            r is Err <==> old(self).init_error(supply as int) is Some,
            r matches Err(e) ==> Some(e) == old(self).init_error(supply as int) && *final(self)
                == *old(self),
            r is Ok ==> {
                let st = final(self).state->Some_0;
                &&& final(self).state is Some
                &&& st.name == name
                &&& st.symbol == symbol
                &&& st.decimals == DECIMALS
                &&& st.total_supply == supply
                &&& st.admin == admin
                &&& forall|who: Seq<u8>| #[trigger]
                    st.balance_of(who) == if who == admin@ {
                        supply as int
                    } else {
                        0
                    }
                &&& final(self).events@.len() == old(self).events@.len() + 1
                &&& final(self).events@.drop_last() == old(self).events@
                &&& final(self).events@.last() matches TokenEvent::Init {
                    admin: a,
                    name: n,
                    symbol: y,
                    supply: q,
                } && a@ == admin@ && n@ == name@ && y@ == symbol@ && q == supply
            },
    {
        if self.state.is_some() {
            return Err(ContractError::AlreadyInitialized);
        }
        if supply <= 0 {
            return Err(ContractError::InvalidAmount);
        }
        let mut balances: Vec<Balance> = Vec::new();
        balances.push(Balance { owner: admin.duplicate(), amount: supply });
        proof {
            lemma_push(Seq::empty(), balances@[0]);
            assert(balances@ =~= Seq::<Balance>::empty().push(balances@[0]));
        }
        let event = TokenEvent::Init {
            admin: admin.duplicate(),
            name: copy_bytes(&name),
            symbol: copy_bytes(&symbol),
            supply,
        };
        self.state = Some(
            State { name, symbol, decimals: DECIMALS, total_supply: supply, balances, admin },
        );
        let ghost before = self.events@;
        self.events.push(event);
        assert(self.events@.drop_last() =~= before);
        Ok(())
    }

    /// Credits `amount` new tokens to `to`. `authorized` is the host's
    /// verdict on `admin`'s authorization; `admin` must also be the
    /// ledger's admin.
    pub fn mint(&mut self, admin: Identity, to: Identity, amount: i128, authorized: bool) -> (r:
        Result<(), ContractError>)
        requires
            old(self).wf(),
        ensures
            final(self).wf(),
            r is Err <==> old(self).mint_error(admin@, amount as int, authorized) is Some,
            r matches Err(e) ==> Some(e) == old(self).mint_error(admin@, amount as int, authorized)
                && *final(self) == *old(self),
            r is Ok ==> {
                let st = old(self).state->Some_0;
                let st2 = final(self).state->Some_0;
                &&& final(self).state is Some
                &&& st2.total_supply == st.total_supply + amount
                &&& st.moved(
                    st2,
                    (|who: Seq<u8>|
                        if who == to@ {
                            amount as int
                        } else {
                            0
                        }),
                )
                &&& final(self).events@ == old(self).events@.push(
                    TokenEvent::Mint { admin, to, amount },
                )
            },
    {
        if !authorized {
            return Err(ContractError::Unauthorized);
        }
        if amount <= 0 {
            return Err(ContractError::InvalidAmount);
        }
        let total = match &self.state {
            None => return Err(ContractError::NotInitialized),
            Some(st) => {
                if !st.admin.same_as(&admin) {
                    return Err(ContractError::NotAdmin);
                }
                match st.total_supply.checked_add(amount) {
                    Some(t) => t,
                    None => return Err(ContractError::ArithmeticOverflow),
                }
            },
        };
        let mut st = self.state.take().unwrap();
        let ghost s0 = st.balances@;
        match find_owner(&st.balances, &to) {
            Some(j) => {
                let held = st.balances[j].amount;
                proof {
                    lemma_balance_at(s0, j as int);
                    lemma_balance_bounded(s0, to@);
                }
                let credited = Balance { owner: to.duplicate(), amount: held + amount };
                proof {
                    lemma_update(s0, j as int, credited);
                }
                st.balances[j] = credited;
                let ghost s2 = st.balances@;
                assert(all_nonneg(s2)) by {
                    assert forall|k: int| 0 <= k < s2.len() implies #[trigger] s2[k].amount
                        >= 0 by {
                        if k != j {
                            assert(s2[k] == s0[k]);
                        }
                    }
                }
            },
            None => {
                proof {
                    lemma_balance_absent(s0, to@);
                }
                let credited = Balance { owner: to.duplicate(), amount };
                proof {
                    lemma_push(s0, credited);
                }
                st.balances.push(credited);
                let ghost s2 = st.balances@;
                assert(owners_unique(s2)) by {
                    assert forall|x: int, y: int| 0 <= x < y < s2.len() implies #[trigger] s2[x].owner@
                        != #[trigger] s2[y].owner@ by {
                        if y == s2.len() - 1 {
                            assert(s0[x].owner@ != to@);
                        } else {
                            assert(s0[x].owner@ != s0[y].owner@);
                        }
                    }
                }
                assert(all_nonneg(s2)) by {
                    assert forall|k: int| 0 <= k < s2.len() implies #[trigger] s2[k].amount
                        >= 0 by {
                        if k < s0.len() {
                            assert(s2[k] == s0[k]);
                        }
                    }
                }
            },
        }
        st.total_supply = total;
        self.state = Some(st);
        self.events.push(TokenEvent::Mint { admin, to, amount });
        Ok(())
    }

    /// `addr`'s balance, zero for an identity without an entry.
    pub fn balance(&self, addr: &Identity) -> (r: Result<i128, ContractError>)
        requires
            self.wf(),
        ensures
            self.state is None ==> r == Err::<i128, ContractError>(ContractError::NotInitialized),
            self.state is Some ==> (r matches Ok(b) && b == self.balance_of(addr@)),
    {
        match &self.state {
            None => Err(ContractError::NotInitialized),
            Some(st) => match find_owner(&st.balances, addr) {
                Some(i) => {
                    proof {
                        lemma_balance_at(st.balances@, i as int);
                    }
                    Ok(st.balances[i].amount)
                },
                None => {
                    proof {
                        lemma_balance_absent(st.balances@, addr@);
                    }
                    Ok(0)
                },
            },
        }
    }

    /// The token's name.
    pub fn name(&self) -> (r: Result<Vec<u8>, ContractError>)
        ensures
            self.state is None ==> r == Err::<Vec<u8>, ContractError>(ContractError::NotInitialized),
            self.state matches Some(st) ==> (r matches Ok(n) && n@ == st.name@),
    {
        match &self.state {
            None => Err(ContractError::NotInitialized),
            Some(st) => Ok(copy_bytes(&st.name)),
        }
    }

    /// The token's symbol.
    pub fn symbol(&self) -> (r: Result<Vec<u8>, ContractError>)
        ensures
            self.state is None ==> r == Err::<Vec<u8>, ContractError>(ContractError::NotInitialized),
            self.state matches Some(st) ==> (r matches Ok(y) && y@ == st.symbol@),
    {
        match &self.state {
            None => Err(ContractError::NotInitialized),
            Some(st) => Ok(copy_bytes(&st.symbol)),
        }
    }

    /// The total supply.
    pub fn total_supply(&self) -> (r: Result<i128, ContractError>)
        ensures
            self.state is None ==> r == Err::<i128, ContractError>(ContractError::NotInitialized),
            self.state matches Some(st) ==> r == Ok::<i128, ContractError>(st.total_supply),
    {
        match &self.state {
            None => Err(ContractError::NotInitialized),
            Some(st) => Ok(st.total_supply),
        }
    }

    /// Hands over the events published since the last call, oldest first.
    pub fn take_events(&mut self) -> (r: Vec<TokenEvent>)
        ensures
            r@ == old(self).events@,
            final(self).events@.len() == 0,
            final(self).state == old(self).state,
    {
        self.events.split_off(0)
    }
}

/// Once the ledger exists, every further `init` aborts with
/// `AlreadyInitialized`, whatever its supply.
pub proof fn lemma_init_only_once(c: TokenContract, supply: int)
    requires
        c.state is Some,
    ensures
        c.init_error(supply) == Some(ContractError::AlreadyInitialized),
{
}

/// In a well-formed ledger the total supply is the sum of all balances;
/// every operation keeps the ledger well-formed.
pub proof fn lemma_supply_is_sum(c: TokenContract)
    requires
        c.wf(),
        c.state is Some,
    ensures
        c.state->Some_0.total_supply == sum_of(c.state->Some_0.balances@),
        forall|who: Seq<u8>| 0 <= #[trigger] c.balance_of(who) <= c.state->Some_0.total_supply,
{
    assert forall|who: Seq<u8>| 0 <= #[trigger] c.balance_of(who) <= c.state->Some_0.total_supply by {
        lemma_balance_bounded(c.state->Some_0.balances@, who);
    }
}

} // verus!
