use vstd::prelude::*;

use crate::identity::Identity;

verus! {

/// One holder's balance.
#[derive(Debug, Clone)]
pub struct Balance {
    pub owner: Identity,
    pub amount: i128,
}

/// Sum of all balances in `s`.
pub open spec fn sum_of(s: Seq<Balance>) -> int
    decreases s.len(),
{
    if s.len() == 0 {
        0
    } else {
        sum_of(s.drop_last()) + s.last().amount
    }
}

/// The balance that `s` holds for `who`; zero without an entry.
pub open spec fn balance_in(s: Seq<Balance>, who: Seq<u8>) -> int
    decreases s.len(),
{
    if s.len() == 0 {
        0
    } else if s.last().owner@ == who {
        s.last().amount as int
    } else {
        balance_in(s.drop_last(), who)
    }
}

/// No holder has two entries.
pub open spec fn owners_unique(s: Seq<Balance>) -> bool {
    forall|i: int, j: int|
        0 <= i < j < s.len() ==> #[trigger] s[i].owner@ != #[trigger] s[j].owner@
}

/// No entry is negative.
pub open spec fn all_nonneg(s: Seq<Balance>) -> bool {
    forall|i: int| 0 <= i < s.len() ==> #[trigger] s[i].amount >= 0
}

/// With one entry per holder, a holder's balance is its entry's amount.
pub proof fn lemma_balance_at(s: Seq<Balance>, i: int)
    requires
        owners_unique(s),
        0 <= i < s.len(),
    ensures
        balance_in(s, s[i].owner@) == s[i].amount,
    decreases s.len(),
{
    if i != s.len() - 1 {
        assert(s[i].owner@ != s[s.len() - 1].owner@);
        assert(s.drop_last()[i] == s[i]);
        lemma_balance_at(s.drop_last(), i);
    }
}

/// A holder without an entry has a zero balance.
pub proof fn lemma_balance_absent(s: Seq<Balance>, who: Seq<u8>)
    requires
        forall|i: int| 0 <= i < s.len() ==> #[trigger] s[i].owner@ != who,
    ensures
        balance_in(s, who) == 0,
    decreases s.len(),
{
    if s.len() > 0 {
        assert(s[s.len() - 1].owner@ != who);
        lemma_balance_absent(s.drop_last(), who);
    }
}

/// Appending an entry adds its amount to the sum and to its owner's balance.
pub proof fn lemma_push(s: Seq<Balance>, b: Balance)
    ensures
        sum_of(s.push(b)) == sum_of(s) + b.amount,
        forall|who: Seq<u8>|
            #[trigger] balance_in(s.push(b), who) == if who == b.owner@ {
                b.amount as int
            } else {
                balance_in(s, who)
            },
{
    assert(s.push(b).drop_last() =~= s);
}

/// Replacing entry `i` by one of the same owner changes that owner's balance
/// and the sum by the difference, and nothing else.
pub proof fn lemma_update(s: Seq<Balance>, i: int, b: Balance)
    requires
        owners_unique(s),
        0 <= i < s.len(),
        b.owner@ == s[i].owner@,
    ensures
        sum_of(s.update(i, b)) == sum_of(s) - s[i].amount + b.amount,
        forall|who: Seq<u8>|
            #[trigger] balance_in(s.update(i, b), who) == if who == b.owner@ {
                b.amount as int
            } else {
                balance_in(s, who)
            },
        owners_unique(s.update(i, b)),
    decreases s.len(),
{
    let u = s.update(i, b);
    if i == s.len() - 1 {
        assert(u.drop_last() =~= s.drop_last());
        assert forall|who: Seq<u8>| #[trigger]
            balance_in(u, who) == if who == b.owner@ {
                b.amount as int
            } else {
                balance_in(s, who)
            } by {
            if who != b.owner@ {
                assert(s.last().owner@ == b.owner@);
            }
        }
    } else {
        let d = s.drop_last();
        assert(u.drop_last() =~= d.update(i, b));
        assert(d[i] == s[i]);
        lemma_update(d, i, b);
        assert(s.last().owner@ != s[i].owner@);
        assert(u.last() == s.last());
        assert forall|who: Seq<u8>| #[trigger]
            balance_in(u, who) == if who == b.owner@ {
                b.amount as int
            } else {
                balance_in(s, who)
            } by {
            assert(balance_in(d.update(i, b), who) == if who == b.owner@ {
                b.amount as int
            } else {
                balance_in(d, who)
            });
        }
    }
    assert forall|x: int, y: int| 0 <= x < y < u.len() implies #[trigger] u[x].owner@
        != #[trigger] u[y].owner@ by {
        assert(s[x].owner@ != s[y].owner@);
    }
}

/// With no negative entries, each balance lies between zero and the sum.
pub proof fn lemma_balance_bounded(s: Seq<Balance>, who: Seq<u8>)
    requires
        all_nonneg(s),
    ensures
        0 <= balance_in(s, who) <= sum_of(s),
        0 <= sum_of(s),
    decreases s.len(),
{
    if s.len() > 0 {
        let d = s.drop_last();
        assert forall|i: int| 0 <= i < d.len() implies #[trigger] d[i].amount >= 0 by {
            assert(d[i] == s[i]);
        }
        assert(s[s.len() - 1].amount >= 0);
        lemma_balance_bounded(d, who);
    }
}

/// The index of `who`'s entry, if it has one.
pub fn find_owner(balances: &Vec<Balance>, who: &Identity) -> (r: Option<usize>)
    ensures
        r matches Some(i) ==> i < balances@.len() && balances@[i as int].owner@ == who@ && forall|
            j: int,
        | 0 <= j < i ==> #[trigger] balances@[j].owner@ != who@,
        r is None ==> forall|i: int|
            0 <= i < balances@.len() ==> #[trigger] balances@[i].owner@ != who@,
{
    let mut i: usize = 0;
    while i < balances.len()
        invariant
            i <= balances@.len(),
            forall|j: int| 0 <= j < i ==> #[trigger] balances@[j].owner@ != who@,
        decreases balances@.len() - i,
    {
        if balances[i].owner.same_as(who) {
            return Some(i);
        }
        i = i + 1;
    }
    None
}

} // verus!
