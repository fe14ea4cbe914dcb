//! The trades of one user, newest first.

use vstd::prelude::*;
use crate::types::{Timestamp, Trade, UserId};

verus! {

/// `user` is the maker or the taker of the trade.
pub open spec fn involves(t: Trade, user: UserId) -> bool {
    t.maker_user_id == user || t.taker_user_id == user
}

/// The trades of `user` among `trades`, in their order.
pub open spec fn of_user(trades: Seq<Trade>, user: UserId) -> Seq<Trade>
    decreases trades.len(),
{
    if trades.len() == 0 {
        Seq::empty()
    } else if involves(trades.last(), user) {
        of_user(trades.drop_last(), user).push(trades.last())
    } else {
        of_user(trades.drop_last(), user)
    }
}

/// No trade stands before a newer one.
pub open spec fn newest_first(s: Seq<Trade>) -> bool {
    forall|i: int, j: int| 0 <= i < j < s.len() ==> s[i].timestamp >= s[j].timestamp
}

/// `i` is where a trade of time `at` goes: behind all trades that are as
/// new or newer, before the first older one.
pub open spec fn is_rank(s: Seq<Trade>, at: Timestamp, i: int) -> bool {
    &&& 0 <= i <= s.len()
    &&& forall|j: int| 0 <= j < i ==> (#[trigger] s[j]).timestamp >= at
    &&& i < s.len() ==> s[i].timestamp < at
}

/// Where a trade of time `at` goes.
pub open spec fn rank(s: Seq<Trade>, at: Timestamp) -> int {
    choose|i: int| is_rank(s, at, i)
}

/// The trades by time, newest first; trades of one time keep their order.
pub open spec fn by_time(s: Seq<Trade>) -> Seq<Trade>
    decreases s.len(),
{
    if s.len() == 0 {
        Seq::empty()
    } else {
        let front = by_time(s.drop_last());
        front.insert(rank(front, s.last().timestamp), s.last())
    }
}

/// The newest `limit` trades of `user` among `trades`, newest first.
pub open spec fn user_history(trades: Seq<Trade>, user: UserId, limit: int) -> Seq<Trade> {
    let all = by_time(of_user(trades, user));
    if limit < all.len() {
        all.take(limit)
    } else {
        all
    }
}

/// A time has one place among trades.
pub proof fn lemma_rank_unique(s: Seq<Trade>, at: Timestamp, i: int)
    requires
        is_rank(s, at, i),
    ensures
        rank(s, at) == i,
{
    let j = rank(s, at);
    assert(is_rank(s, at, j));
    if j < i {
        assert(s[j].timestamp >= at);
    } else if i < j {
        assert(s[i].timestamp >= at);
    }
}

/// Every time has a place among trades.
pub proof fn lemma_rank_exists(s: Seq<Trade>, at: Timestamp, n: int)
    requires
        0 <= n <= s.len(),
        forall|j: int| 0 <= j < n ==> (#[trigger] s[j]).timestamp >= at,
    ensures
        is_rank(s, at, rank(s, at)),
    decreases s.len() - n,
{
    if n < s.len() && s[n].timestamp >= at {
        lemma_rank_exists(s, at, n + 1);
    } else {
        assert(is_rank(s, at, n));
    }
}

/// Sorting by time keeps every trade, once for each time it occurs, and
/// puts no trade before a newer one.
pub proof fn law_by_time_sorts(s: Seq<Trade>)
    ensures
        newest_first(by_time(s)),
        by_time(s).len() == s.len(),
        by_time(s).to_multiset() == s.to_multiset(),
    decreases s.len(),
{
    if s.len() == 0 {
        assert(s =~= Seq::<Trade>::empty());
    } else {
        let front = by_time(s.drop_last());
        let t = s.last();
        law_by_time_sorts(s.drop_last());
        lemma_rank_exists(front, t.timestamp, 0);
        let r = rank(front, t.timestamp);
        let out = front.insert(r, t);
        assert forall|i: int, j: int| 0 <= i < j < out.len() implies out[i].timestamp >= out[j].timestamp by {
            if j < r {
                assert(out[i] == front[i] && out[j] == front[j]);
            } else if j == r {
                assert(out[i] == front[i]);
            } else if i < r {
                assert(out[i] == front[i] && out[j] == front[j - 1]);
                if j - 1 > r {
                    assert(front[r].timestamp >= front[j - 1].timestamp);
                }
                assert(front[i].timestamp >= front[j - 1].timestamp);
            } else if i == r {
                assert(out[j] == front[j - 1]);
                if j - 1 > r {
                    assert(front[r].timestamp >= front[j - 1].timestamp);
                }
            } else {
                assert(out[i] == front[i - 1] && out[j] == front[j - 1]);
            }
        }
        vstd::seq_lib::to_multiset_insert(front, r, t);
        assert(s =~= s.drop_last().push(t));
        vstd::seq_lib::to_multiset_build(s.drop_last(), t);
        assert(out.to_multiset() == front.to_multiset().insert(t));
        assert(s.drop_last().push(t).to_multiset() == s.drop_last().to_multiset().insert(t));
    }
}

/// The newest `limit` trades of `user` among `trades`, newest first; trades
/// of one time stay in the order in which they were given.
pub fn trades_for_user(trades: &Vec<Trade>, user: UserId, limit: usize) -> (r: Vec<Trade>)
    ensures
        r@ == user_history(trades@, user, limit as int),
{
    let mut out: Vec<Trade> = Vec::new();
    let mut i: usize = 0;
    assert(trades@.take(0) =~= Seq::<Trade>::empty());
    while i < trades.len()
        invariant
            0 <= i <= trades.len(),
            out@ == by_time(of_user(trades@.take(i as int), user)),
        decreases trades.len() - i,
    {
        let t = trades[i];
        proof {
            assert(trades@.take(i as int + 1).drop_last() =~= trades@.take(i as int));
            assert(trades@.take(i as int + 1).last() == t);
        }
        if t.maker_user_id == user || t.taker_user_id == user {
            let ghost front = out@;
            let ghost before = of_user(trades@.take(i as int), user);
            let mut k: usize = 0;
            while k < out.len() && out[k].timestamp >= t.timestamp
                invariant
                    0 <= k <= out.len(),
                    out@ == front,
                    forall|j: int| 0 <= j < k ==> (#[trigger] out@[j]).timestamp >= t.timestamp,
                decreases out.len() - k,
            {
                k = k + 1;
            }
            proof {
                assert(is_rank(front, t.timestamp, k as int));
                lemma_rank_unique(front, t.timestamp, k as int);
                assert(before.push(t).drop_last() =~= before);
            }
            out.insert(k, t);
        }
        i = i + 1;
    }
    assert(trades@.take(i as int) =~= trades@);
    if limit < out.len() {
        out.truncate(limit);
        assert(out@ =~= by_time(of_user(trades@, user)).take(limit as int));
    }
    out
}

} // verus!
