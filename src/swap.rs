use vstd::prelude::*;

use crate::error::ContractError;
use crate::identity::Identity;

verus! {

/// The pool's two reserves and the token it trades against.
#[derive(Debug, Clone)]
pub struct Pool {
    pub xlm_reserve: i128,
    pub token_reserve: i128,
    pub token_contract: Identity,
}

/// The keys under which the pool keeps its records.
#[derive(Debug, Clone, Copy, PartialEq, Eq, Structural)]
pub enum Keys {
    Pool,
    Admin,
    TotalSwaps,
}

/// What a successful swap publishes under the `SWAP` topic.
#[derive(Debug, Clone)]
pub struct SwapEvent {
    pub user: Identity,
    pub amount_in: i128,
    pub amount_out: i128,
}

/// The pool contract's stored records, one per key of `Keys`, and the events
/// published so far that the host has not yet taken.
#[derive(Debug, Clone)]
pub struct SwapContract {
    pub pool: Option<Pool>,
    pub admin: Option<Identity>,
    pub total_swaps: Option<i64>,
    pub events: Vec<SwapEvent>,
}

/// Input fee, in thousandths, kept on the input leg of every swap.
pub const FEE_FACTOR: i128 = 997;

/// The scale of `FEE_FACTOR`.
pub const FEE_SCALE: i128 = 1000;

/// Output of a constant-product swap of `amount_in` against reserves
/// `reserve_in` (the side paid into) and `reserve_out`, with the 0.3% fee
/// taken from the input and the quotient rounded down.
pub open spec fn quote(amount_in: int, reserve_in: int, reserve_out: int) -> int {
    (amount_in * 997 * reserve_out) / (reserve_in * 1000 + amount_in * 997)
}

/// Every intermediate value of `quote` fits in an `i128` (for non-negative
/// inputs).
pub open spec fn quote_fits(amount_in: int, reserve_in: int, reserve_out: int) -> bool {
    &&& amount_in * 997 <= i128::MAX
    &&& amount_in * 997 * reserve_out <= i128::MAX
    &&& reserve_in * 1000 + amount_in * 997 <= i128::MAX
}

/// The reserve paid into (`xlm_in` says which side that is).
pub open spec fn reserve_in(p: Pool, xlm_in: bool) -> int {
    if xlm_in {
        p.xlm_reserve as int
    } else {
        p.token_reserve as int
    }
}

/// The reserve paid out of.
pub open spec fn reserve_out(p: Pool, xlm_in: bool) -> int {
    if xlm_in {
        p.token_reserve as int
    } else {
        p.xlm_reserve as int
    }
}

/// The pool after `amount_in` was paid in and `amount_out` paid out.
pub open spec fn pool_after(p: Pool, amount_in: int, amount_out: int, xlm_in: bool) -> Pool {
    if xlm_in {
        Pool {
            xlm_reserve: (p.xlm_reserve + amount_in) as i128,
            token_reserve: (p.token_reserve - amount_out) as i128,
            token_contract: p.token_contract,
        }
    } else {
        Pool {
            xlm_reserve: (p.xlm_reserve - amount_out) as i128,
            token_reserve: (p.token_reserve + amount_in) as i128,
            token_contract: p.token_contract,
        }
    }
}

/// Computes `quote`, or reports that an intermediate value overflows.
fn compute_out(amount_in: i128, reserve_in: i128, reserve_out: i128) -> (r: Result<
    i128,
    ContractError,
>)
    requires
        amount_in >= 0,
        reserve_in > 0,
        reserve_out > 0,
    ensures
        quote_fits(amount_in as int, reserve_in as int, reserve_out as int) ==> r == Ok::<
            i128,
            ContractError,
        >(quote(amount_in as int, reserve_in as int, reserve_out as int) as i128),
        !quote_fits(amount_in as int, reserve_in as int, reserve_out as int) ==> r == Err::<
            i128,
            ContractError,
        >(ContractError::ArithmeticOverflow),
        r is Ok ==> 0 <= quote(amount_in as int, reserve_in as int, reserve_out as int)
            <= i128::MAX,
{
    let effective_in = match amount_in.checked_mul(FEE_FACTOR) {
        Some(v) => v,
        None => return Err(ContractError::ArithmeticOverflow),
    };
    assert(effective_in >= 0);
    let numerator = match effective_in.checked_mul(reserve_out) {
        Some(v) => v,
        None => return Err(ContractError::ArithmeticOverflow),
    };
    assert(numerator >= 0) by (nonlinear_arith)
        requires
            numerator == effective_in * reserve_out,
            effective_in >= 0,
            reserve_out > 0,
    ;
    let scaled = match reserve_in.checked_mul(FEE_SCALE) {
        Some(v) => v,
        None => return Err(ContractError::ArithmeticOverflow),
    };
    let denominator = match scaled.checked_add(effective_in) {
        Some(v) => v,
        None => return Err(ContractError::ArithmeticOverflow),
    };
    assert(0 <= numerator / denominator <= numerator) by (nonlinear_arith)
        requires
            numerator >= 0,
            denominator > 0,
    ;
    Ok(numerator / denominator)
}


impl SwapContract {
    /// Records of the pool's constraints: positive reserves and a
    /// non-negative swap counter.
    pub open spec fn wf(&self) -> bool {
        &&& (self.pool matches Some(p) ==> p.xlm_reserve > 0 && p.token_reserve > 0)
        &&& (self.total_swaps matches Some(n) ==> n >= 0)
    }

    /// The swap counter, zero while absent.
    pub open spec fn swap_count(&self) -> int {
        match self.total_swaps {
            Some(n) => n as int,
            None => 0,
        }
    }

    /// Why a swap of `amount_in` (paying xlm in when `xlm_in`) aborts, if
    /// it does.
    pub open spec fn swap_error(&self, authorized: bool, amount_in: int, xlm_in: bool) -> Option<
        ContractError,
    > {
        if !authorized {
            Some(ContractError::Unauthorized)
        } else if amount_in <= 0 {
            Some(ContractError::InvalidAmount)
        } else if self.pool is None {
            Some(ContractError::NotInitialized)
        } else {
            let p = self.pool->Some_0;
            let rin = reserve_in(p, xlm_in);
            let rout = reserve_out(p, xlm_in);
            if !quote_fits(amount_in, rin, rout) {
                Some(ContractError::ArithmeticOverflow)
            } else if quote(amount_in, rin, rout) <= 0 || quote(amount_in, rin, rout) >= rout {
                Some(ContractError::InsufficientLiquidity)
            } else if self.swap_count() + 1 > i64::MAX {
                Some(ContractError::ArithmeticOverflow)
            } else {
                None
            }
        }
    }

    /// The effect of a successful swap that paid `out` for `amount_in`.
    pub open spec fn swapped(
        &self,
        after: &SwapContract,
        user: Identity,
        amount_in: int,
        out: int,
        xlm_in: bool,
    ) -> bool {
        let p = self.pool->Some_0;
        &&& out == quote(amount_in, reserve_in(p, xlm_in), reserve_out(p, xlm_in))
        &&& 0 < out < reserve_out(p, xlm_in)
        &&& after.pool == Some(pool_after(p, amount_in, out, xlm_in))
        &&& after.admin == self.admin
        &&& after.total_swaps == Some((self.swap_count() + 1) as i64)
        &&& after.events@ == self.events@.push(
            SwapEvent { user, amount_in: amount_in as i128, amount_out: out as i128 },
        )
    }

    fn apply_swap(&mut self, user: Identity, amount_in: i128, authorized: bool, xlm_in: bool) -> (r:
        Result<i128, ContractError>)
        requires
            old(self).wf(),
        ensures
            final(self).wf(),
            r is Err <==> old(self).swap_error(authorized, amount_in as int, xlm_in) is Some,
            r matches Err(e) ==> Some(e) == old(self).swap_error(
                authorized,
                amount_in as int,
                xlm_in,
            ) && *final(self) == *old(self),
            r matches Ok(out) ==> old(self).swapped(
                final(self),
                user,
                amount_in as int,
                out as int,
                xlm_in,
            ),
    {
        if !authorized {
            return Err(ContractError::Unauthorized);
        }
        if amount_in <= 0 {
            return Err(ContractError::InvalidAmount);
        }
        let (rin, rout) = match &self.pool {
            Some(p) => if xlm_in {
                (p.xlm_reserve, p.token_reserve)
            } else {
                (p.token_reserve, p.xlm_reserve)
            },
            None => return Err(ContractError::NotInitialized),
        };
        let out = match compute_out(amount_in, rin, rout) {
            Ok(v) => v,
            Err(e) => return Err(e),
        };
        if out <= 0 || out >= rout {
            return Err(ContractError::InsufficientLiquidity);
        }
        let count: i64 = match self.total_swaps {
            Some(n) => n,
            None => 0,
        };
        if count == i64::MAX {
            return Err(ContractError::ArithmeticOverflow);
        }
        let ghost before = *self;
        let mut p = self.pool.take().unwrap();
        if xlm_in {
            p.xlm_reserve = p.xlm_reserve + amount_in;
            p.token_reserve = p.token_reserve - out;
        } else {
            p.token_reserve = p.token_reserve + amount_in;
            p.xlm_reserve = p.xlm_reserve - out;
        }
        self.pool = Some(p);
        self.total_swaps = Some(count + 1);
        self.events.push(SwapEvent { user, amount_in, amount_out: out });
        assert(self.pool == Some(pool_after(before.pool->Some_0, amount_in as int, out as int, xlm_in)));
        Ok(out)
    }

    /// Pays `xlm_in` into the pool for `user` and returns the tokens paid
    /// out. `authorized` is the host's verdict on `user`'s authorization.
    pub fn swap_xlm_to_token(&mut self, user: Identity, xlm_in: i128, authorized: bool) -> (r:
        Result<i128, ContractError>)
        requires
            old(self).wf(),
        ensures
            final(self).wf(),
            r is Err <==> old(self).swap_error(authorized, xlm_in as int, true) is Some,
            r matches Err(e) ==> Some(e) == old(self).swap_error(authorized, xlm_in as int, true)
                && *final(self) == *old(self),
            r matches Ok(out) ==> old(self).swapped(
                final(self),
                user,
                xlm_in as int,
                out as int,
                true,
            ),
    {
        self.apply_swap(user, xlm_in, authorized, true)
    }

    /// Pays `token_in` into the pool for `user` and returns the xlm paid
    /// out. `authorized` is the host's verdict on `user`'s authorization.
    pub fn swap_token_to_xlm(&mut self, user: Identity, token_in: i128, authorized: bool) -> (r:
        Result<i128, ContractError>)
        requires
            old(self).wf(),
        ensures
            final(self).wf(),
            r is Err <==> old(self).swap_error(authorized, token_in as int, false) is Some,
            r matches Err(e) ==> Some(e) == old(self).swap_error(
                authorized,
                token_in as int,
                false,
            ) && *final(self) == *old(self),
            r matches Ok(out) ==> old(self).swapped(
                final(self),
                user,
                token_in as int,
                out as int,
                false,
            ),
    {
        self.apply_swap(user, token_in, authorized, false)
    }
}

impl SwapContract {
    /// A contract with no records yet.
    pub fn new() -> (r: SwapContract)
        ensures
            r.wf(),
            r.pool is None,
            r.admin is None,
            r.total_swaps is None,
            r.events@.len() == 0,
    {
        SwapContract { pool: None, admin: None, total_swaps: None, events: Vec::new() }
    }

    /// Whether the record under `key` is present.
    pub fn has(&self, key: Keys) -> (r: bool)
        ensures
            r == match key {
                Keys::Pool => self.pool is Some,
                Keys::Admin => self.admin is Some,
                Keys::TotalSwaps => self.total_swaps is Some,
            },
    {
        match key {
            Keys::Pool => self.pool.is_some(),
            Keys::Admin => self.admin.is_some(),
            Keys::TotalSwaps => self.total_swaps.is_some(),
        }
    }

    /// Whether the records meet `wf`; records read back from a store are
    /// checked with this before any operation.
    pub fn is_valid(&self) -> (r: bool)
        ensures
            r == self.wf(),
    {
        let pool_ok = match &self.pool {
            Some(p) => p.xlm_reserve > 0 && p.token_reserve > 0,
            None => true,
        };
        let count_ok = match self.total_swaps {
            Some(n) => n >= 0,
            None => true,
        };
        pool_ok && count_ok
    }

    /// Why `init` with these seeds aborts, if it does.
    pub open spec fn init_error(&self, xlm_seed: int, token_seed: int) -> Option<ContractError> {
        if self.pool is Some {
            Some(ContractError::AlreadyInitialized)
        } else if xlm_seed <= 0 || token_seed <= 0 {
            Some(ContractError::InvalidAmount)
        } else {
            None
        }
    }

    /// Creates the pool with the two seed reserves, records `admin` and
    /// starts the swap counter at zero. No event is published.
    pub fn init(
        &mut self,
        admin: Identity,
        token_contract: Identity,
        xlm_seed: i128,
        token_seed: i128,
    ) -> (r: Result<(), ContractError>)
        requires
            old(self).wf(),
        ensures
            final(self).wf(),
            r is Err <==> old(self).init_error(xlm_seed as int, token_seed as int) is Some,
            r matches Err(e) ==> Some(e) == old(self).init_error(xlm_seed as int, token_seed as int)
                && *final(self) == *old(self),
            r is Ok ==> final(self).pool == Some(
                Pool { xlm_reserve: xlm_seed, token_reserve: token_seed, token_contract },
            ) && final(self).admin == Some(admin) && final(self).total_swaps == Some(0i64)
                && final(self).events == old(self).events,
    {
        if self.pool.is_some() {
            return Err(ContractError::AlreadyInitialized);
        }
        if xlm_seed <= 0 || token_seed <= 0 {
            return Err(ContractError::InvalidAmount);
        }
        self.pool = Some(Pool { xlm_reserve: xlm_seed, token_reserve: token_seed, token_contract });
        self.admin = Some(admin);
        self.total_swaps = Some(0);
        Ok(())
    }

    /// A copy of the pool record.
    pub fn get_pool(&self) -> (r: Result<Pool, ContractError>)
        ensures
            self.pool is None <==> r == Err::<Pool, ContractError>(ContractError::NotInitialized),
            self.pool matches Some(p) ==> (r matches Ok(q) && q.xlm_reserve == p.xlm_reserve
                && q.token_reserve == p.token_reserve && q.token_contract@ == p.token_contract@),
    {
        match &self.pool {
            Some(p) => Ok(
                Pool {
                    xlm_reserve: p.xlm_reserve,
                    token_reserve: p.token_reserve,
                    token_contract: p.token_contract.duplicate(),
                },
            ),
            None => Err(ContractError::NotInitialized),
        }
    }

    /// The tokens that paying in `xlm_in` would bring now, by the swap's
    /// formula but without its liquidity guard; nothing changes.
    pub fn get_price(&self, xlm_in: i128) -> (r: Result<i128, ContractError>)
        requires
            self.wf(),
        ensures
            self.pool is None ==> r == Err::<i128, ContractError>(ContractError::NotInitialized),
            self.pool matches Some(p) ==> {
                if xlm_in < 0 {
                    r == Err::<i128, ContractError>(ContractError::InvalidAmount)
                } else if !quote_fits(xlm_in as int, p.xlm_reserve as int, p.token_reserve as int) {
                    r == Err::<i128, ContractError>(ContractError::ArithmeticOverflow)
                } else {
                    r == Ok::<i128, ContractError>(
                        quote(xlm_in as int, p.xlm_reserve as int, p.token_reserve as int) as i128,
                    )
                }
            },
    {
        match &self.pool {
            Some(p) => {
                if xlm_in < 0 {
                    return Err(ContractError::InvalidAmount);
                }
                compute_out(xlm_in, p.xlm_reserve, p.token_reserve)
            },
            None => Err(ContractError::NotInitialized),
        }
    }

    /// The number of swaps made so far.
    pub fn total_swaps(&self) -> (r: i64)
        ensures
            r as int == self.swap_count(),
    {
        match self.total_swaps {
            Some(n) => n,
            None => 0,
        }
    }

    /// Hands over the events published since the last call, oldest first.
    pub fn take_events(&mut self) -> (r: Vec<SwapEvent>)
        ensures
            r@ == old(self).events@,
            final(self).events@.len() == 0,
            final(self).pool == old(self).pool,
            final(self).admin == old(self).admin,
            final(self).total_swaps == old(self).total_swaps,
    {
        self.events.split_off(0)
    }
}

/// Once the pool exists, every further `init` aborts with
/// `AlreadyInitialized`, whatever its seeds.
pub proof fn lemma_init_only_once(c: SwapContract, xlm_seed: int, token_seed: int)
    requires
        c.pool is Some,
    ensures
        c.init_error(xlm_seed, token_seed) == Some(ContractError::AlreadyInitialized),
{
}

/// The product of the two reserves.
pub open spec fn reserve_product(p: Pool) -> int {
    p.xlm_reserve as int * p.token_reserve as int
}

/// A successful swap, in either direction, strictly raises the product of
/// the reserves: the fee stays in the pool.
pub proof fn lemma_fee_capture(
    c: SwapContract,
    after: SwapContract,
    user: Identity,
    amount_in: int,
    out: int,
    xlm_in: bool,
)
    requires
        c.wf(),
        c.swap_error(true, amount_in, xlm_in) is None,
        c.swapped(&after, user, amount_in, out, xlm_in),
    ensures
        reserve_product(after.pool->Some_0) > reserve_product(c.pool->Some_0),
{
    let p = c.pool->Some_0;
    let x = reserve_in(p, xlm_in);
    let t = reserve_out(p, xlm_in);
    let num = amount_in * 997 * t;
    let den = x * 1000 + amount_in * 997;
    assert(den > 0) by (nonlinear_arith)
        requires
            x > 0,
            amount_in > 0,
            den == x * 1000 + amount_in * 997,
    ;
    assert(out * den <= num) by (nonlinear_arith)
        requires
            out == num / den,
            den > 0,
    ;
    assert((x + amount_in) * (t - out) > x * t) by (nonlinear_arith)
        requires
            out * den <= num,
            num == amount_in * 997 * t,
            den == x * 1000 + amount_in * 997,
            0 < out < t,
            amount_in > 0,
            x > 0,
    ;
    let q = pool_after(p, amount_in, out, xlm_in);
    assert(after.pool->Some_0 == q);
    if xlm_in {
        assert(q.xlm_reserve == x + amount_in && q.token_reserve == t - out);
    } else {
        assert(q.token_reserve == x + amount_in && q.xlm_reserve == t - out);
        assert(q.xlm_reserve as int * q.token_reserve as int == (x + amount_in) * (t - out))
            by (nonlinear_arith)
            requires
                q.token_reserve == x + amount_in,
                q.xlm_reserve == t - out,
        ;
    }
}

/// Paying in `amount_in`, then at once paying the whole output back the
/// other way, returns strictly less than `amount_in`.
pub proof fn lemma_round_trip_loses(
    c: SwapContract,
    mid: SwapContract,
    end: SwapContract,
    user: Identity,
    amount_in: int,
    out: int,
    back: int,
    xlm_in: bool,
)
    requires
        c.wf(),
        c.swap_error(true, amount_in, xlm_in) is None,
        c.swapped(&mid, user, amount_in, out, xlm_in),
        mid.swapped(&end, user, out, back, !xlm_in),
    ensures
        back < amount_in,
{
    let p = c.pool->Some_0;
    let m = mid.pool->Some_0;
    assert(reserve_in(m, !xlm_in) == reserve_out(p, xlm_in) - out);
    assert(reserve_out(m, !xlm_in) == reserve_in(p, xlm_in) + amount_in);
    lemma_quote_round_trip(reserve_in(p, xlm_in), reserve_out(p, xlm_in), amount_in);
}

proof fn lemma_quote_round_trip(x: int, t: int, amount_in: int)
    requires
        x > 0,
        t > 0,
        amount_in > 0,
        0 < quote(amount_in, x, t) < t,
    ensures
        quote(quote(amount_in, x, t), t - quote(amount_in, x, t), x + amount_in) < amount_in,
{
    let b = quote(amount_in, x, t);
    let den1 = x * 1000 + amount_in * 997;
    let num1 = amount_in * 997 * t;
    assert(den1 > 0) by (nonlinear_arith)
        requires
            x > 0,
            amount_in > 0,
            den1 == x * 1000 + amount_in * 997,
    ;
    assert(b * den1 <= num1) by (nonlinear_arith)
        requires
            b == num1 / den1,
            den1 > 0,
    ;
    let den2 = (t - b) * 1000 + b * 997;
    let num2 = b * 997 * (x + amount_in);
    assert(den2 > 0) by (nonlinear_arith)
        requires
            0 < b < t,
            den2 == (t - b) * 1000 + b * 997,
    ;
    let a2 = num2 / den2;
    assert(a2 * den2 <= num2) by (nonlinear_arith)
        requires
            a2 == num2 / den2,
            den2 > 0,
    ;
    // a2 < (x + amount_in) * b / t <= amount_in
    assert(a2 * t < (x + amount_in) * b) by (nonlinear_arith)
        requires
            a2 * den2 <= num2,
            num2 == b * 997 * (x + amount_in),
            den2 == (t - b) * 1000 + b * 997,
            0 < b < t,
            x > 0,
            amount_in > 0,
            a2 >= 0,
    ;
    assert((x + amount_in) * b <= amount_in * t) by (nonlinear_arith)
        requires
            b * den1 <= num1,
            num1 == amount_in * 997 * t,
            den1 == x * 1000 + amount_in * 997,
            x > 0,
            amount_in > 0,
            b > 0,
    ;
    assert(a2 < amount_in) by (nonlinear_arith)
        requires
            a2 * t < (x + amount_in) * b,
            (x + amount_in) * b <= amount_in * t,
            t > 0,
    ;
}

/// When the first leg of a round trip is not rounded (its quotient is
/// exact), paying the output straight back returns at least
/// `amount_in * 0.997^2`, rounded down: the loss is the fee on each leg and
/// no more, up to the final rounding.
pub proof fn lemma_round_trip_bounded(
    c: SwapContract,
    mid: SwapContract,
    end: SwapContract,
    user: Identity,
    amount_in: int,
    out: int,
    back: int,
    xlm_in: bool,
)
    requires
        c.wf(),
        c.swap_error(true, amount_in, xlm_in) is None,
        c.swapped(&mid, user, amount_in, out, xlm_in),
        mid.swapped(&end, user, out, back, !xlm_in),
        (amount_in * 997 * reserve_out(c.pool->Some_0, xlm_in)) % (reserve_in(
            c.pool->Some_0,
            xlm_in,
        ) * 1000 + amount_in * 997) == 0,
    ensures
        back >= (amount_in * 994009) / 1000000,
{
    let p = c.pool->Some_0;
    let m = mid.pool->Some_0;
    assert(reserve_in(m, !xlm_in) == reserve_out(p, xlm_in) - out);
    assert(reserve_out(m, !xlm_in) == reserve_in(p, xlm_in) + amount_in);
    lemma_quote_round_trip_bound(reserve_in(p, xlm_in), reserve_out(p, xlm_in), amount_in);
}

proof fn lemma_quote_round_trip_bound(x: int, t: int, a: int)
    requires
        x > 0,
        t > 0,
        a > 0,
        0 < quote(a, x, t) < t,
        (a * 997 * t) % (x * 1000 + a * 997) == 0,
    ensures
        quote(quote(a, x, t), t - quote(a, x, t), x + a) >= (a * 994009) / 1000000,
{
    let b = quote(a, x, t);
    let d = x * 1000 + a * 997;
    let n1 = a * 997 * t;
    assert(d > 0) by (nonlinear_arith)
        requires
            x > 0,
            a > 0,
            d == x * 1000 + a * 997,
    ;
    vstd::arithmetic::div_mod::lemma_fundamental_div_mod(n1, d);
    assert(b * d == n1) by (nonlinear_arith)
        requires
            n1 == d * (n1 / d) + n1 % d,
            n1 % d == 0,
            b == n1 / d,
    ;
    let d2 = (t - b) * 1000 + b * 997;
    let n2 = b * 997 * (x + a);
    let a2 = n2 / d2;
    assert(d2 == 1000 * t - 3 * b);
    assert(d2 > 0);
    assert(d2 * d == t * (x * 1000000 + a * 994009)) by (nonlinear_arith)
        requires
            d2 == 1000 * t - 3 * b,
            d == x * 1000 + a * 997,
            b * d == a * 997 * t,
    ;
    assert(n2 * d == a * t * (x + a) * 994009) by (nonlinear_arith)
        requires
            n2 == b * 997 * (x + a),
            b * d == a * 997 * t,
    ;
    let lhs = a * 994009 * d2;
    let rhs = 1000000 * n2;
    assert(lhs * d == a * 994009 * (t * (x * 1000000 + a * 994009))) by (nonlinear_arith)
        requires
            lhs == a * 994009 * d2,
            d2 * d == t * (x * 1000000 + a * 994009),
    ;
    assert(rhs * d == 1000000 * (a * t * (x + a) * 994009)) by (nonlinear_arith)
        requires
            rhs == 1000000 * n2,
            n2 * d == a * t * (x + a) * 994009,
    ;
    assert((rhs - lhs) * d == 994009 * 5991 * (a * a * t)) by (nonlinear_arith)
        requires
            lhs * d == a * 994009 * (t * (x * 1000000 + a * 994009)),
            rhs * d == 1000000 * (a * t * (x + a) * 994009),
    ;
    assert(a * a * t > 0) by (nonlinear_arith)
        requires
            a > 0,
            t > 0,
    ;
    assert(lhs <= rhs) by (nonlinear_arith)
        requires
            (rhs - lhs) * d == 994009 * 5991 * (a * a * t),
            a * a * t > 0,
            d > 0,
    ;
    let low = (a * 994009) / 1000000;
    assert(low * 1000000 <= a * 994009) by (nonlinear_arith)
        requires
            low == (a * 994009) / 1000000,
    ;
    assert(low * d2 <= n2) by (nonlinear_arith)
        requires
            low * 1000000 <= a * 994009,
            lhs == a * 994009 * d2,
            rhs == 1000000 * n2,
            lhs <= rhs,
            d2 > 0,
    ;
    vstd::arithmetic::div_mod::lemma_fundamental_div_mod(n2, d2);
    vstd::arithmetic::div_mod::lemma_mod_bound(n2, d2);
    assert(low <= a2) by (nonlinear_arith)
        requires
            low * d2 <= n2,
            n2 == d2 * a2 + n2 % d2,
            n2 % d2 < d2,
            d2 > 0,
    ;
}

} // verus!
