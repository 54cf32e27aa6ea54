//! Limit order book reducer.
//!
//! [`OrderbookState`] mirrors settled outcomes: it owns the order map and
//! one price-level index per side, applies one settlement event at a time,
//! and answers depth, spread and snapshot queries. It never matches
//! orders; matching happens upstream and this state only replays it.
//!
//! Orders are never deleted: a cancelled or fully filled order leaves the
//! price-level index but stays queryable by id in its terminal status.

use vstd::prelude::*;

use crate::fanout::Fanout;
use std::collections::HashMap;

verus! {

/// Which side of the book an order rests on.
#[derive(Clone, Copy, PartialEq, Eq, Structural, Debug)]
pub enum OrderSide {
    Buy,
    Sell,
}

impl OrderSide {
    /// The wire label of the side.
    pub fn as_label(&self) -> (r: &'static str)
        ensures
            self == OrderSide::Buy ==> r@ == "Buy"@,
            self == OrderSide::Sell ==> r@ == "Sell"@,
    {
        match self {
            OrderSide::Buy => "Buy",
            OrderSide::Sell => "Sell",
        }
    }
}

/// Lifecycle status of an order. `Open` and `PartiallyFilled` orders rest
/// in the book; `Filled` and `Cancelled` are terminal.
#[derive(Clone, Copy, PartialEq, Eq, Structural, Debug)]
pub enum OrderStatus {
    Open,
    PartiallyFilled,
    Filled,
    Cancelled,
}

pub open spec fn is_active(st: OrderStatus) -> bool {
    st == OrderStatus::Open || st == OrderStatus::PartiallyFilled
}

/// One settled order. Amounts are fixed-point micros (see [`crate::fixed`]).
#[derive(Clone, Copy, PartialEq, Eq, Structural, Debug)]
pub struct OrderInfo {
    pub order_id: u64,
    pub side: OrderSide,
    pub price: u128,
    pub quantity: u128,
    pub filled_quantity: u128,
    pub status: OrderStatus,
}

impl OrderInfo {
    /// Quantity still resting: the original size minus what has filled,
    /// clamped at zero rather than allowed to underflow.
    pub open spec fn spec_remaining(self) -> u128 {
        crate::fixed::spec_sat_sub(self.quantity, self.filled_quantity)
    }

    pub fn remaining_quantity(&self) -> (r: u128)
        ensures
            r == self.spec_remaining(),
    {
        crate::fixed::sat_sub(self.quantity, self.filled_quantity)
    }
}

/// Why a mutating book operation was rejected. Both cases are non-fatal:
/// the caller logs them and continues with the next event.
#[derive(Clone, Copy, PartialEq, Eq, Structural, Debug)]
pub enum ReducerError {
    /// The event referenced an order id absent from the book.
    NotFound,
    /// A place event reused an id that is already known. Duplicate ids are
    /// rejected, never overwritten: the first record wins.
    DuplicateOrder,
}

/// All resting orders that share one price on one side, in arrival order
/// (time priority: the earliest-placed order stands first).
pub struct Level {
    pub price: u128,
    pub orders: Vec<u64>,
}

// --- spec views of one side's level sequence ---

/// Levels are strictly sorted by price, hold no empty level and no
/// duplicated id within a level.
pub open spec fn levels_wf(ls: Seq<Level>) -> bool {
    &&& forall|i: int, j: int|
        #![trigger ls[i].price, ls[j].price]
        0 <= i < j < ls.len() ==> ls[i].price < ls[j].price
    &&& forall|i: int| 0 <= i < ls.len() ==> #[trigger] ls[i].orders@.len() > 0
    &&& forall|i: int, k1: int, k2: int|
        #![trigger ls[i].orders@[k1], ls[i].orders@[k2]]
        0 <= i < ls.len() && 0 <= k1 < k2 < ls[i].orders@.len() ==> ls[i].orders@[k1]
            != ls[i].orders@[k2]
}

pub open spec fn side_has_price(ls: Seq<Level>, p: u128) -> bool {
    exists|i: int| 0 <= i < ls.len() && ls[i].price == p
}

pub open spec fn price_index(ls: Seq<Level>, p: u128) -> int {
    choose|i: int| 0 <= i < ls.len() && ls[i].price == p
}

/// The ids resting at price `p`, oldest first; empty when no such level.
pub open spec fn orders_at(ls: Seq<Level>, p: u128) -> Seq<u64> {
    if side_has_price(ls, p) {
        ls[price_index(ls, p)].orders@
    } else {
        Seq::empty()
    }
}

pub open spec fn side_contains(ls: Seq<Level>, id: u64) -> bool {
    exists|i: int| 0 <= i < ls.len() && ls[i].orders@.contains(id)
}

/// With distinct level prices, the level at index `i` is exactly the level
/// `orders_at` reads for its price.
proof fn lemma_orders_at_level(ls: Seq<Level>, i: int)
    requires
        forall|a: int, b: int|
            #![trigger ls[a].price, ls[b].price]
            0 <= a < b < ls.len() ==> ls[a].price < ls[b].price,
        0 <= i < ls.len(),
    ensures
        side_has_price(ls, ls[i].price),
        price_index(ls, ls[i].price) == i,
        orders_at(ls, ls[i].price) == ls[i].orders@,
{
    assert(side_has_price(ls, ls[i].price));
    let j = price_index(ls, ls[i].price);
    if j < i {
        assert(ls[j].price < ls[i].price);
    } else if j > i {
        assert(ls[i].price < ls[j].price);
    }
}

/// `s` with the one occurrence of `id` removed, when present.
pub open spec fn remove_id(s: Seq<u64>, id: u64) -> Seq<u64> {
    if s.contains(id) {
        s.remove(choose|k: int| 0 <= k < s.len() && s[k] == id)
    } else {
        s
    }
}

/// Positional shape of appending `id` to the existing level `j`.
pub open spec fn level_updated(pre: Seq<Level>, post: Seq<Level>, j: int, price: u128, id: u64) -> bool {
    &&& 0 <= j < pre.len()
    &&& post.len() == pre.len()
    &&& pre[j].price == price
    &&& post[j].price == price
    &&& post[j].orders@ == pre[j].orders@.push(id)
    &&& forall|i: int| 0 <= i < pre.len() && i != j ==> post[i] == pre[i]
}

/// Positional shape of opening a new level for `price` at index `j`.
pub open spec fn level_inserted(pre: Seq<Level>, post: Seq<Level>, j: int, price: u128, id: u64) -> bool {
    &&& 0 <= j <= pre.len()
    &&& post.len() == pre.len() + 1
    &&& !side_has_price(pre, price)
    &&& post[j].price == price
    &&& post[j].orders@ == seq![id]
    &&& forall|i: int| 0 <= i < j ==> post[i] == pre[i]
    &&& forall|i: int| j <= i < pre.len() ==> post[i + 1] == pre[i]
}

/// One side after resting `id` at `price`: either appended to the level
/// that already had that price, or a fresh singleton level in price order.
pub open spec fn side_added(pre: Seq<Level>, post: Seq<Level>, price: u128, id: u64) -> bool {
    exists|j: int| level_updated(pre, post, j, price, id) || level_inserted(
        pre,
        post,
        j,
        price,
        id,
    )
}

/// What `side_added` means for the abstract per-price view.
proof fn lemma_side_added_effect(pre: Seq<Level>, post: Seq<Level>, price: u128, id: u64)
    requires
        levels_wf(pre),
        levels_wf(post),
        side_added(pre, post, price, id),
    ensures
        orders_at(post, price) == orders_at(pre, price).push(id),
        forall|p: u128| p != price ==> orders_at(post, p) == orders_at(pre, p),
        forall|x: u64| #[trigger] side_contains(post, x) <==> (side_contains(pre, x) || x == id),
{
    let j = choose|j: int|
        level_updated(pre, post, j, price, id) || level_inserted(pre, post, j, price, id);
    if level_updated(pre, post, j, price, id) {
        lemma_orders_at_level(pre, j);
        lemma_orders_at_level(post, j);
        assert forall|p: u128| p != price implies orders_at(post, p) == orders_at(pre, p) by {
            if side_has_price(pre, p) {
                let i = price_index(pre, p);
                lemma_orders_at_level(pre, i);
                assert(post[i] == pre[i]);
                lemma_orders_at_level(post, i);
            } else if side_has_price(post, p) {
                let i = price_index(post, p);
                assert(post[i] == pre[i]);
                assert(side_has_price(pre, p));
            }
        };
        assert forall|x: u64| #[trigger] side_contains(post, x) implies (side_contains(pre, x) || x
            == id) by {
            let i = choose|i: int| 0 <= i < post.len() && post[i].orders@.contains(x);
            if i == j {
                let k = choose|k: int| 0 <= k < post[j].orders@.len() && post[j].orders@[k] == x;
                if k < pre[j].orders@.len() {
                    assert(pre[j].orders@[k] == x);
                    assert(side_contains(pre, x));
                } else {
                    assert(x == id);
                }
            } else {
                assert(post[i] == pre[i]);
                assert(side_contains(pre, x));
            }
        };
        assert forall|x: u64| (side_contains(pre, x) || x == id) implies #[trigger] side_contains(
            post,
            x,
        ) by {
            if side_contains(pre, x) {
                let i = choose|i: int| 0 <= i < pre.len() && pre[i].orders@.contains(x);
                if i == j {
                    let k = choose|k: int| 0 <= k < pre[j].orders@.len() && pre[j].orders@[k] == x;
                    assert(post[j].orders@[k] == x);
                } else {
                    assert(post[i] == pre[i]);
                }
                assert(side_contains(post, x));
            } else {
                assert(post[j].orders@[pre[j].orders@.len() as int] == id);
                assert(side_contains(post, id));
            }
        };
    } else {
        assert(level_inserted(pre, post, j, price, id));
        lemma_orders_at_level(post, j);
        assert(orders_at(pre, price) == Seq::<u64>::empty());
        assert(orders_at(post, price) =~= orders_at(pre, price).push(id));
        assert forall|p: u128| p != price implies orders_at(post, p) == orders_at(pre, p) by {
            if side_has_price(pre, p) {
                let i = price_index(pre, p);
                lemma_orders_at_level(pre, i);
                if i < j {
                    assert(post[i] == pre[i]);
                    lemma_orders_at_level(post, i);
                } else {
                    assert(post[i + 1] == pre[i]);
                    lemma_orders_at_level(post, i + 1);
                }
            } else if side_has_price(post, p) {
                let i = price_index(post, p);
                if i < j {
                    assert(post[i] == pre[i]);
                    assert(side_has_price(pre, p));
                } else if i > j {
                    assert(post[(i - 1) + 1] == pre[i - 1]);
                    assert(side_has_price(pre, p));
                }
            }
        };
        assert forall|x: u64| #[trigger] side_contains(post, x) implies (side_contains(pre, x) || x
            == id) by {
            let i = choose|i: int| 0 <= i < post.len() && post[i].orders@.contains(x);
            if i == j {
                assert(post[j].orders@ == seq![id]);
                let k = choose|k: int| 0 <= k < post[j].orders@.len() && post[j].orders@[k] == x;
                assert(x == id);
            } else if i < j {
                assert(post[i] == pre[i]);
                assert(side_contains(pre, x));
            } else {
                assert(post[(i - 1) + 1] == pre[i - 1]);
                assert(side_contains(pre, x));
            }
        };
        assert forall|x: u64| (side_contains(pre, x) || x == id) implies #[trigger] side_contains(
            post,
            x,
        ) by {
            if side_contains(pre, x) {
                let i = choose|i: int| 0 <= i < pre.len() && pre[i].orders@.contains(x);
                if i < j {
                    assert(post[i] == pre[i]);
                } else {
                    assert(post[i + 1] == pre[i]);
                }
                assert(side_contains(post, x));
            } else {
                assert(post[j].orders@[0] == id);
                assert(side_contains(post, id));
            }
        };
    }
}

/// Positional shape of taking `id` out of level `j`, which keeps other
/// orders resting there.
pub open spec fn level_shrunk(
    pre: Seq<Level>,
    post: Seq<Level>,
    j: int,
    k: int,
    price: u128,
    id: u64,
) -> bool {
    &&& 0 <= j < pre.len()
    &&& 0 <= k < pre[j].orders@.len()
    &&& pre[j].price == price
    &&& pre[j].orders@[k] == id
    &&& pre[j].orders@.len() > 1
    &&& post.len() == pre.len()
    &&& post[j].price == price
    &&& post[j].orders@ == pre[j].orders@.remove(k)
    &&& forall|i: int| 0 <= i < pre.len() && i != j ==> post[i] == pre[i]
}

/// Positional shape of dropping level `j` because `id` was its only order.
pub open spec fn level_dropped(pre: Seq<Level>, post: Seq<Level>, j: int, price: u128, id: u64) -> bool {
    &&& 0 <= j < pre.len()
    &&& pre[j].price == price
    &&& pre[j].orders@ == seq![id]
    &&& post == pre.remove(j)
}

/// One side after `id` left `price`: untouched when it was not resting
/// there, its level shrunk or dropped when it was.
pub open spec fn side_removed(pre: Seq<Level>, post: Seq<Level>, price: u128, id: u64) -> bool {
    ||| (post == pre && !orders_at(pre, price).contains(id))
    ||| exists|j: int, k: int| level_shrunk(pre, post, j, k, price, id)
    ||| exists|j: int| level_dropped(pre, post, j, price, id)
}

/// What `side_removed` means for the abstract per-price view, when `id`
/// rests nowhere but possibly at `price`.
proof fn lemma_side_removed_effect(pre: Seq<Level>, post: Seq<Level>, price: u128, id: u64)
    requires
        levels_wf(pre),
        levels_wf(post),
        side_removed(pre, post, price, id),
        forall|i: int| #![trigger pre[i]]
            0 <= i < pre.len() && pre[i].price != price ==> !pre[i].orders@.contains(id),
    ensures
        orders_at(post, price) == remove_id(orders_at(pre, price), id),
        forall|p: u128| p != price ==> orders_at(post, p) == orders_at(pre, p),
        forall|x: u64| x != id ==> (#[trigger] side_contains(post, x) <==> side_contains(pre, x)),
        !side_contains(post, id),
{
    if post == pre && !orders_at(pre, price).contains(id) {
        assert(remove_id(orders_at(pre, price), id) == orders_at(pre, price));
        assert forall|x: u64| !(x != id) implies !side_contains(post, x) by {
            if side_contains(post, id) {
                let i = choose|i: int| 0 <= i < post.len() && post[i].orders@.contains(id);
                lemma_orders_at_level(pre, i);
                if pre[i].price == price {
                    assert(orders_at(pre, price).contains(id));
                } else {
                    assert(!pre[i].orders@.contains(id));
                }
            }
        };
    } else if exists|j: int, k: int| level_shrunk(pre, post, j, k, price, id) {
        let (j, k): (int, int) = choose|j: int, k: int| level_shrunk(pre, post, j, k, price, id);
        lemma_orders_at_level(pre, j);
        lemma_orders_at_level(post, j);
        let s = pre[j].orders@;
        assert(s.contains(id));
        let kk = choose|kk: int| 0 <= kk < s.len() && s[kk] == id;
        assert(kk == k);
        assert(orders_at(post, price) == remove_id(orders_at(pre, price), id));
        assert forall|p: u128| p != price implies orders_at(post, p) == orders_at(pre, p) by {
            if side_has_price(pre, p) {
                let i = price_index(pre, p);
                lemma_orders_at_level(pre, i);
                assert(post[i] == pre[i]);
                lemma_orders_at_level(post, i);
            } else if side_has_price(post, p) {
                let i = price_index(post, p);
                assert(post[i] == pre[i]);
                assert(side_has_price(pre, p));
            }
        };
        assert forall|x: u64| x != id implies (#[trigger] side_contains(post, x)
            <==> side_contains(pre, x)) by {
            if side_contains(post, x) {
                let i = choose|i: int| 0 <= i < post.len() && post[i].orders@.contains(x);
                if i == j {
                    let q = choose|q: int|
                        0 <= q < post[j].orders@.len() && post[j].orders@[q] == x;
                    if q < k {
                        assert(s[q] == x);
                    } else {
                        assert(s[q + 1] == x);
                    }
                    assert(s.contains(x));
                } else {
                    assert(post[i] == pre[i]);
                }
                assert(side_contains(pre, x));
            }
            if side_contains(pre, x) {
                let i = choose|i: int| 0 <= i < pre.len() && pre[i].orders@.contains(x);
                if i == j {
                    let q = choose|q: int| 0 <= q < s.len() && s[q] == x;
                    assert(q != k);
                    if q < k {
                        assert(post[j].orders@[q] == x);
                    } else {
                        assert(post[j].orders@[q - 1] == s[q]);
                    }
                    assert(post[j].orders@.contains(x));
                } else {
                    assert(post[i] == pre[i]);
                }
                assert(side_contains(post, x));
            }
        };
        assert forall|i: int| 0 <= i < post.len() implies !post[i].orders@.contains(id) by {
            if i == j {
                if post[j].orders@.contains(id) {
                    let q = choose|q: int|
                        0 <= q < post[j].orders@.len() && post[j].orders@[q] == id;
                    if q < k {
                        assert(s[q] == id && s[k] == id);
                    } else {
                        assert(s[q + 1] == id && s[k] == id);
                    }
                }
            } else {
                assert(post[i] == pre[i]);
                if pre[i].price == price {
                    assert(pre[i].price < pre[j].price || pre[j].price < pre[i].price);
                } else {
                    assert(!pre[i].orders@.contains(id));
                }
            }
        };
        assert(!side_contains(post, id));
    } else {
        let j = choose|j: int| level_dropped(pre, post, j, price, id);
        lemma_orders_at_level(pre, j);
        assert(orders_at(pre, price) == seq![id]);
        assert(orders_at(pre, price)[0] == id);
        assert(orders_at(pre, price).contains(id));
        let kk = choose|kk: int|
            0 <= kk < orders_at(pre, price).len() && orders_at(pre, price)[kk] == id;
        assert(kk == 0);
        assert(remove_id(orders_at(pre, price), id) =~= Seq::<u64>::empty());
        assert forall|p: u128| side_has_price(post, p) implies p != price && orders_at(post, p)
            == orders_at(pre, p) by {
            let i = price_index(post, p);
            lemma_orders_at_level(post, i);
            if i < j {
                assert(post[i] == pre[i]);
                lemma_orders_at_level(pre, i);
                assert(pre[i].price < pre[j].price);
            } else {
                assert(post[i] == pre[i + 1]);
                lemma_orders_at_level(pre, i + 1);
                assert(pre[j].price < pre[i + 1].price);
            }
        };
        assert(!side_has_price(post, price));
        assert(orders_at(post, price) == remove_id(orders_at(pre, price), id));
        assert forall|p: u128| p != price implies orders_at(post, p) == orders_at(pre, p) by {
            if side_has_price(post, p) {
            } else if side_has_price(pre, p) {
                let i = price_index(pre, p);
                lemma_orders_at_level(pre, i);
                if i < j {
                    assert(post[i] == pre[i]);
                    assert(side_has_price(post, p));
                } else {
                    assert(i != j);
                    assert(post[i - 1] == pre[i]);
                    assert(side_has_price(post, p));
                }
            }
        };
        assert forall|x: u64| x != id implies (#[trigger] side_contains(post, x)
            <==> side_contains(pre, x)) by {
            if side_contains(post, x) {
                let i = choose|i: int| 0 <= i < post.len() && post[i].orders@.contains(x);
                if i < j {
                    assert(post[i] == pre[i]);
                } else {
                    assert(post[i] == pre[i + 1]);
                }
                assert(side_contains(pre, x));
            }
            if side_contains(pre, x) {
                let i = choose|i: int| 0 <= i < pre.len() && pre[i].orders@.contains(x);
                if i == j {
                    let q = choose|q: int| 0 <= q < pre[j].orders@.len() && pre[j].orders@[q] == x;
                    assert(pre[j].orders@[q] == id);
                } else if i < j {
                    assert(post[i] == pre[i]);
                    assert(side_contains(post, x));
                } else {
                    assert(post[i - 1] == pre[i]);
                    assert(side_contains(post, x));
                }
            }
        };
        assert forall|i: int| 0 <= i < post.len() implies !post[i].orders@.contains(id) by {
            if i < j {
                assert(post[i] == pre[i]);
                assert(pre[i].price < pre[j].price);
                assert(!pre[i].orders@.contains(id));
            } else {
                assert(post[i] == pre[i + 1]);
                assert(pre[j].price < pre[i + 1].price);
                assert(!pre[i + 1].orders@.contains(id));
            }
        };
        assert(!side_contains(post, id));
    }
}

/// Takes `id` out of the level at `price`; a no-op when it does not rest
/// there. An emptied level leaves the side entirely.
fn remove_from_levels(ls: &mut Vec<Level>, price: u128, id: u64)
    requires
        levels_wf(old(ls)@),
        forall|i: int| #![trigger old(ls)@[i]]
            0 <= i < old(ls)@.len() && old(ls)@[i].price != price ==> !old(ls)@[i].orders@.contains(
                id,
            ),
    ensures
        levels_wf(final(ls)@),
        orders_at(final(ls)@, price) == remove_id(orders_at(old(ls)@, price), id),
        forall|p: u128| p != price ==> orders_at(final(ls)@, p) == orders_at(old(ls)@, p),
        forall|x: u64| x != id ==> (#[trigger] side_contains(final(ls)@, x) <==> side_contains(
            old(ls)@,
            x,
        )),
        !side_contains(final(ls)@, id),
{
    let ghost pre = ls@;
    let mut li: usize = 0;
    while li < ls.len() && ls[li].price != price
        invariant
            ls@ == pre,
            0 <= li <= pre.len(),
            forall|i: int| 0 <= i < li ==> pre[i].price != price,
        decreases pre.len() - li,
    {
        li = li + 1;
    }
    if li == ls.len() {
        proof {
            assert(!side_has_price(pre, price));
            assert(side_removed(pre, ls@, price, id));
            lemma_side_removed_effect(pre, ls@, price, id);
        }
        return ;
    }
    let mut lvl = ls.remove(li);
    let n = lvl.orders.len();
    let mut k: usize = 0;
    while k < n && lvl.orders[k] != id
        invariant
            n == lvl.orders@.len(),
            lvl.orders@ == pre[li as int].orders@,
            lvl.price == pre[li as int].price,
            li < pre.len(),
            0 <= k <= n,
            forall|q: int| 0 <= q < k ==> lvl.orders@[q] != id,
        decreases n - k,
    {
        k = k + 1;
    }
    if k == n {
        // id does not rest at this price; restore the level untouched
        ls.insert(li, lvl);
        proof {
            assert(ls@ =~= pre);
            lemma_orders_at_level(pre, li as int);
            assert(!orders_at(pre, price).contains(id));
            assert(side_removed(pre, ls@, price, id));
            lemma_side_removed_effect(pre, ls@, price, id);
        }
        return ;
    }
    lvl.orders.remove(k);
    if lvl.orders.len() == 0 {
        proof {
            assert(pre[li as int].orders@.len() == 1);
            assert(pre[li as int].orders@ =~= seq![id]);
            assert(ls@ == pre.remove(li as int));
            assert(level_dropped(pre, ls@, li as int, price, id));
            assert forall|a: int, b: int|
                #![trigger ls@[a].price, ls@[b].price]
                0 <= a < b < ls@.len() implies ls@[a].price < ls@[b].price by {
                if b < li as int {
                } else if a < li as int {
                    assert(ls@[b] == pre[b + 1]);
                } else {
                    assert(ls@[a] == pre[a + 1] && ls@[b] == pre[b + 1]);
                }
            };
            assert(levels_wf(ls@));
            lemma_side_removed_effect(pre, ls@, price, id);
        }
    } else {
        ls.insert(li, lvl);
        proof {
            assert(ls@ =~= pre.update(li as int, lvl));
            assert(level_shrunk(pre, ls@, li as int, k as int, price, id));
            let s = pre[li as int].orders@;
            assert forall|q1: int, q2: int|
                #![trigger lvl.orders@[q1], lvl.orders@[q2]]
                0 <= q1 < q2 < lvl.orders@.len() implies lvl.orders@[q1] != lvl.orders@[q2] by {
                let r1: int = if q1 < k as int {
                    q1
                } else {
                    q1 + 1
                };
                let r2: int = if q2 < k as int {
                    q2
                } else {
                    q2 + 1
                };
                assert(lvl.orders@[q1] == s[r1]);
                assert(lvl.orders@[q2] == s[r2]);
            };
            assert(levels_wf(ls@));
            lemma_side_removed_effect(pre, ls@, price, id);
        }
    }
}

/// Rests `id` at `price`, keeping the side sorted and time priority at
/// the level's tail.
fn insert_into_levels(ls: &mut Vec<Level>, price: u128, id: u64)
    requires
        levels_wf(old(ls)@),
        !side_contains(old(ls)@, id),
    ensures
        levels_wf(final(ls)@),
        orders_at(final(ls)@, price) == orders_at(old(ls)@, price).push(id),
        forall|p: u128| p != price ==> orders_at(final(ls)@, p) == orders_at(old(ls)@, p),
        forall|x: u64| #[trigger]
            side_contains(final(ls)@, x) <==> (side_contains(old(ls)@, x) || x == id),
{
    let ghost pre = ls@;
    let mut pos: usize = 0;
    while pos < ls.len() && ls[pos].price < price
        invariant
            ls@ == pre,
            0 <= pos <= ls@.len(),
            forall|i: int| 0 <= i < pos ==> ls@[i].price < price,
        decreases ls@.len() - pos,
    {
        pos = pos + 1;
    }
    if pos < ls.len() && ls[pos].price == price {
        let mut lvl = ls.remove(pos);
        proof {
            assert forall|k: int| 0 <= k < lvl.orders@.len() implies lvl.orders@[k] != id by {
                if lvl.orders@[k] == id {
                    assert(pre[pos as int].orders@.contains(id));
                    assert(side_contains(pre, id));
                }
            };
        }
        lvl.orders.push(id);
        ls.insert(pos, lvl);
        proof {
            assert(ls@ =~= pre.update(pos as int, lvl));
            assert(level_updated(pre, ls@, pos as int, price, id));
            assert(levels_wf(ls@));
            lemma_side_added_effect(pre, ls@, price, id);
        }
    } else {
        proof {
            assert forall|i: int| 0 <= i < pre.len() implies pre[i].price != price by {
                if i < pos {
                    assert(pre[i].price < price);
                } else if pos < pre.len() {
                    if i > pos {
                        assert(pre[pos as int].price < pre[i].price);
                    }
                }
            };
        }
        let lvl = Level { price, orders: vec![id] };
        ls.insert(pos, lvl);
        proof {
            let post = ls@;
            let j = pos as int;
            assert(post == pre.insert(j, lvl));
            assert forall|i: int| 0 <= i < j implies post[i] == pre[i] by {
                assert(post[i] == pre.insert(j, lvl)[i]);
            };
            assert forall|i: int| j <= i < pre.len() implies post[i + 1] == pre[i] by {
                assert(post[i + 1] == pre.insert(j, lvl)[i + 1]);
            };
            assert(post[j] == lvl);
            assert(post[j].orders@ =~= seq![id]);
            assert(level_inserted(pre, post, j, price, id));
            assert forall|a: int, b: int|
                #![trigger post[a].price, post[b].price]
                0 <= a < b < post.len() implies post[a].price < post[b].price by {
                if b < j {
                    assert(post[a] == pre[a] && post[b] == pre[b]);
                } else if a > j {
                    assert(post[a] == pre[a - 1] && post[b] == pre[b - 1]);
                } else if a < j && b == j {
                    assert(post[a] == pre[a]);
                    assert(pre[a].price < price);
                } else if a == j && b > j {
                    assert(post[b] == pre[b - 1]);
                    assert(b - 1 >= j);
                    assert(pre[b - 1].price > price) by {
                        assert(pre[b - 1].price != price);
                        if pos < pre.len() {
                            if b - 1 > j {
                                assert(pre[j].price < pre[b - 1].price);
                                assert(pre[j].price >= price);
                            } else {
                                assert(pre[j].price >= price);
                            }
                        }
                    };
                } else if a < j && b > j {
                    assert(post[a] == pre[a] && post[b] == pre[b - 1]);
                    assert(pre[a].price < price);
                    assert(pre[b - 1].price > price) by {
                        assert(pre[b - 1].price != price);
                        if b - 1 == j {
                            assert(pre[j].price >= price);
                        } else {
                            assert(pre[j].price < pre[b - 1].price);
                            assert(pre[j].price >= price);
                        }
                    };
                }
            };
            assert(levels_wf(post));
            lemma_side_added_effect(pre, ls@, price, id);
        }
    }
}

/// Every id resting in `ls` belongs to a known order of side `side`,
/// resting at that level's price, in an active status.
pub open spec fn entries_ok(orders: Map<u64, OrderInfo>, ls: Seq<Level>, side: OrderSide) -> bool {
    forall|i: int, k: int|
        #![trigger ls[i].orders@[k]]
        0 <= i < ls.len() && 0 <= k < ls[i].orders@.len() ==> {
            let id = ls[i].orders@[k];
            &&& orders.contains_key(id)
            &&& orders[id].side == side
            &&& orders[id].price == ls[i].price
            &&& is_active(orders[id].status)
        }
}

/// What `entries_ok` gives for one id found through the per-price view.
proof fn lemma_resting_order_facts(
    orders: Map<u64, OrderInfo>,
    ls: Seq<Level>,
    side: OrderSide,
    p: u128,
    x: u64,
)
    requires
        levels_wf(ls),
        entries_ok(orders, ls, side),
        orders_at(ls, p).contains(x),
    ensures
        orders.contains_key(x),
        orders[x].side == side,
        orders[x].price == p,
        is_active(orders[x].status),
        side_contains(ls, x),
{
    let i = price_index(ls, p);
    lemma_orders_at_level(ls, i);
    let k = choose|k: int| 0 <= k < ls[i].orders@.len() && ls[i].orders@[k] == x;
    assert(ls[i].orders@[k] == x);
}

/// `entries_ok` from per-price facts alone.
proof fn lemma_entries_ok_intro(orders: Map<u64, OrderInfo>, ls: Seq<Level>, side: OrderSide)
    requires
        levels_wf(ls),
        forall|p: u128, x: u64|
            #![trigger orders_at(ls, p).contains(x)]
            orders_at(ls, p).contains(x) ==> {
                &&& orders.contains_key(x)
                &&& orders[x].side == side
                &&& orders[x].price == p
                &&& is_active(orders[x].status)
            },
    ensures
        entries_ok(orders, ls, side),
{
    assert forall|i: int, k: int|
        0 <= i < ls.len() && 0 <= k < ls[i].orders@.len() implies {
        let id = #[trigger] ls[i].orders@[k];
        &&& orders.contains_key(id)
        &&& orders[id].side == side
        &&& orders[id].price == ls[i].price
        &&& is_active(orders[id].status)
    } by {
        lemma_orders_at_level(ls, i);
        assert(orders_at(ls, ls[i].price).contains(ls[i].orders@[k]));
    };
}

/// Ids within one price level are distinct, seen through `orders_at`.
proof fn lemma_no_dup_orders_at(ls: Seq<Level>, p: u128)
    requires
        levels_wf(ls),
    ensures
        forall|k1: int, k2: int|
            #![trigger orders_at(ls, p)[k1], orders_at(ls, p)[k2]]
            0 <= k1 < k2 < orders_at(ls, p).len() ==> orders_at(ls, p)[k1] != orders_at(ls, p)[k2],
{
    if side_has_price(ls, p) {
        let i = price_index(ls, p);
        assert(orders_at(ls, p) == ls[i].orders@);
    }
}

/// Membership in `remove_id`, given distinct ids.
proof fn lemma_remove_id_contains(s: Seq<u64>, id: u64)
    requires
        forall|k1: int, k2: int|
            #![trigger s[k1], s[k2]]
            0 <= k1 < k2 < s.len() ==> s[k1] != s[k2],
    ensures
        forall|x: u64| #[trigger]
            remove_id(s, id).contains(x) <==> (s.contains(x) && x != id),
{
    if s.contains(id) {
        let k = choose|k: int| 0 <= k < s.len() && s[k] == id;
        let r = s.remove(k);
        assert forall|x: u64| #[trigger] r.contains(x) implies (s.contains(x) && x != id) by {
            let q = choose|q: int| 0 <= q < r.len() && r[q] == x;
            if q < k {
                assert(s[q] == x);
                assert(s.contains(x));
                if x == id {
                    assert(s[q] == s[k]);
                }
            } else {
                assert(s[q + 1] == x);
                assert(s.contains(x));
                if x == id {
                    assert(s[q + 1] == s[k] && q + 1 != k);
                }
            }
        };
        assert forall|x: u64| (s.contains(x) && x != id) implies #[trigger] r.contains(x) by {
            let q = choose|q: int| 0 <= q < s.len() && s[q] == x;
            if q < k {
                assert(r[q] == x);
            } else {
                assert(q != k);
                assert(r[q - 1] == s[q]);
            }
            assert(r.contains(x));
        };
    }
}

/// A resting id is always a known order.
proof fn lemma_side_contains_key(
    orders: Map<u64, OrderInfo>,
    ls: Seq<Level>,
    side: OrderSide,
    id: u64,
)
    requires
        entries_ok(orders, ls, side),
        side_contains(ls, id),
    ensures
        orders.contains_key(id),
{
    let i = choose|i: int| 0 <= i < ls.len() && ls[i].orders@.contains(id);
    let k = choose|k: int| 0 <= k < ls[i].orders@.len() && ls[i].orders@[k] == id;
    assert(ls[i].orders@[k] == id);
}

/// The side an order does not rest on.
pub open spec fn opposite(side: OrderSide) -> OrderSide {
    if side == OrderSide::Buy {
        OrderSide::Sell
    } else {
        OrderSide::Buy
    }
}

/// A known order never rests on the side opposite to its own.
proof fn lemma_not_on_opposite(pre: OrderbookState, id: u64)
    requires
        pre.wf_core(),
        pre.orders@.contains_key(id),
    ensures
        !side_contains(pre.side_levels(opposite(pre.orders@[id].side)), id),
{
    let other = opposite(pre.orders@[id].side);
    let ls = pre.side_levels(other);
    if side_contains(ls, id) {
        let i = choose|i: int| 0 <= i < ls.len() && ls[i].orders@.contains(id);
        let k = choose|k: int| 0 <= k < ls[i].orders@.len() && ls[i].orders@[k] == id;
        assert(ls[i].orders@[k] == id);
        assert(pre.orders@[id].side == other);
    }
}

/// Depth cap of the snapshots broadcast after each mutation.
pub const SNAPSHOT_DEPTH: usize = 20;

/// One aggregated price level of a snapshot.
#[derive(Clone, Copy, PartialEq, Eq, Structural, Debug)]
pub struct SnapshotLevel {
    pub price: u128,
    /// Sum of the constituent orders' remaining quantities, clamped at
    /// the largest representable amount.
    pub total_quantity: u128,
    pub order_count: usize,
}

/// A consistent, point-in-time read projection of the book: best-first
/// levels up to a depth cap, the best prices, their spread and midpoint,
/// and the wall-clock time it was taken. Recomputed on every request,
/// never cached.
pub struct OrderbookSnapshot {
    pub symbol: String,
    /// Best first: highest bid price first.
    pub bids: Vec<SnapshotLevel>,
    /// Best first: lowest ask price first.
    pub asks: Vec<SnapshotLevel>,
    pub best_bid: Option<u128>,
    pub best_ask: Option<u128>,
    pub spread: Option<u128>,
    pub mid_price: Option<u128>,
    pub timestamp: i64,
}

/// Best-bid/best-ask summary answered to quote queries.
#[derive(Clone, Copy, PartialEq, Eq, Structural, Debug)]
pub struct QuoteSummary {
    pub bid: u128,
    pub ask: u128,
    pub spread: u128,
    pub mid_price: u128,
    pub bid_orders: usize,
    pub ask_orders: usize,
}

/// The saturating sum of the remaining quantities of `ids`, read from
/// `orders`; an unknown id contributes nothing.
pub open spec fn spec_level_quantity(orders: Map<u64, OrderInfo>, ids: Seq<u64>) -> u128
    decreases ids.len(),
{
    if ids.len() == 0 {
        0
    } else {
        crate::fixed::spec_sat_add(
            spec_level_quantity(orders, ids.drop_last()),
            if orders.contains_key(ids.last()) {
                orders[ids.last()].spec_remaining()
            } else {
                0
            },
        )
    }
}

fn sum_remaining(orders: &HashMap<u64, OrderInfo>, ids: &Vec<u64>) -> (r: u128)
    ensures
        r == spec_level_quantity(orders@, ids@),
{
    let mut acc: u128 = 0;
    let mut k: usize = 0;
    while k < ids.len()
        invariant
            0 <= k <= ids@.len(),
            acc == spec_level_quantity(orders@, ids@.take(k as int)),
        decreases ids@.len() - k,
    {
        let id = ids[k];
        let rem = match orders.get(&id) {
            Some(o) => o.remaining_quantity(),
            None => 0,
        };
        proof {
            let t1 = ids@.take(k as int + 1);
            assert(t1.drop_last() =~= ids@.take(k as int));
            assert(t1.last() == ids@[k as int]);
        }
        acc = crate::fixed::sat_add(acc, rem);
        k = k + 1;
    }
    proof {
        assert(ids@.take(ids@.len() as int) =~= ids@);
    }
    acc
}

// --- the book itself ---

/// The live order book for one market.
pub struct OrderbookState {
    /// The market this book mirrors, attached to outgoing snapshots.
    pub symbol: String,
    /// Every order ever seen, keyed by its externally assigned id.
    pub orders: HashMap<u64, OrderInfo>,
    /// Buy levels, ascending by price: the best bid is the last level.
    pub bids: Vec<Level>,
    /// Sell levels, ascending by price: the best ask is the first level.
    pub asks: Vec<Level>,
    /// Fire-and-forget publish handle: when attached, every mutation
    /// broadcasts a fresh snapshot. The book never tracks its subscribers.
    pub publish: Option<Fanout<OrderbookSnapshot>>,
}

impl OrderbookState {
    pub open spec fn side_levels(&self, side: OrderSide) -> Seq<Level> {
        if side == OrderSide::Buy {
            self.bids@
        } else {
            self.asks@
        }
    }

    /// Every id resting in a side belongs to a known order of that side,
    /// resting at that level's price, in an active status.
    pub open spec fn side_entries_ok(&self, side: OrderSide) -> bool {
        entries_ok(self.orders@, self.side_levels(side), side)
    }

    /// The book invariant proper: sides are well formed, ids are keyed
    /// consistently, and an order rests at its price if and only if its
    /// status is active.
    pub open spec fn wf_core(&self) -> bool {
        &&& levels_wf(self.bids@)
        &&& levels_wf(self.asks@)
        &&& self.side_entries_ok(OrderSide::Buy)
        &&& self.side_entries_ok(OrderSide::Sell)
        &&& forall|id: u64| #[trigger]
            self.orders@.contains_key(id) ==> self.orders@[id].order_id == id
        &&& forall|id: u64| #[trigger]
            self.orders@.contains_key(id) && is_active(self.orders@[id].status)
                ==> orders_at(self.side_levels(self.orders@[id].side), self.orders@[id].price)
                .contains(id)
    }

    /// The full invariant: the book proper plus an intact publish handle.
    pub open spec fn wf(&self) -> bool {
        &&& self.wf_core()
        &&& match self.publish {
            Some(ch) => ch.wf(),
            None => true,
        }
    }

    /// An empty book with no publish handle.
    pub fn new(symbol: String) -> (r: Self)
        ensures
            r.wf(),
            r.symbol@ == symbol@,
            r.orders@ == Map::<u64, OrderInfo>::empty(),
            r.bids@ == Seq::<Level>::empty(),
            r.asks@ == Seq::<Level>::empty(),
            r.publish is None,
    {
        let r = OrderbookState {
            symbol,
            orders: HashMap::new(),
            bids: Vec::new(),
            asks: Vec::new(),
            publish: None,
        };
        proof {
            assert(r.wf());
        }
        r
    }

    /// An empty book that broadcasts a snapshot after every mutation.
    pub fn with_broadcast(symbol: String, channel: Fanout<OrderbookSnapshot>) -> (r: Self)
        requires
            channel.wf(),
        ensures
            r.wf(),
            r.symbol@ == symbol@,
            r.orders@ == Map::<u64, OrderInfo>::empty(),
            r.bids@ == Seq::<Level>::empty(),
            r.asks@ == Seq::<Level>::empty(),
            r.publish == Some(channel),
    {
        let r = OrderbookState {
            symbol,
            orders: HashMap::new(),
            bids: Vec::new(),
            asks: Vec::new(),
            publish: Some(channel),
        };
        proof {
            assert(r.wf_core());
        }
        r
    }

    /// Looks an order up by id, whatever its status.
    pub fn get_order(&self, order_id: u64) -> (r: Option<&OrderInfo>)
        ensures
            match r {
                Some(o) => self.orders@.contains_key(order_id) && *o == self.orders@[order_id],
                None => !self.orders@.contains_key(order_id),
            },
    {
        self.orders.get(&order_id)
    }

    /// What a successful `add_order` does: the order is recorded, and an
    /// active one joins the tail of its side's level at its price.
    pub open spec fn add_effect(pre: Self, post: Self, order: OrderInfo) -> bool {
        let id = order.order_id;
        &&& post.symbol@ == pre.symbol@
        &&& post.orders@ == pre.orders@.insert(id, order)
        &&& if is_active(order.status) {
            &&& orders_at(post.side_levels(order.side), order.price) == orders_at(
                pre.side_levels(order.side),
                order.price,
            ).push(id)
            &&& forall|p: u128|
                p != order.price ==> orders_at(post.side_levels(order.side), p) == orders_at(
                    pre.side_levels(order.side),
                    p,
                )
            &&& post.side_levels(opposite(order.side)) == pre.side_levels(opposite(order.side))
            &&& forall|x: u64| #[trigger]
                side_contains(post.side_levels(order.side), x) <==> (side_contains(
                    pre.side_levels(order.side),
                    x,
                ) || x == id)
        } else {
            &&& post.bids@ == pre.bids@
            &&& post.asks@ == pre.asks@
        }
    }

    /// What a successful `cancel_order` does: the record stays with status
    /// `Cancelled`, and the id leaves its price level.
    pub open spec fn cancel_effect(pre: Self, post: Self, id: u64) -> bool {
        let side = pre.orders@[id].side;
        let price = pre.orders@[id].price;
        &&& post.symbol@ == pre.symbol@
        &&& pre.orders@.contains_key(id)
        &&& post.orders@ == pre.orders@.insert(
            id,
            OrderInfo { status: OrderStatus::Cancelled, ..pre.orders@[id] },
        )
        &&& orders_at(post.side_levels(side), price) == remove_id(
            orders_at(pre.side_levels(side), price),
            id,
        )
        &&& forall|p: u128|
            p != price ==> orders_at(post.side_levels(side), p) == orders_at(
                pre.side_levels(side),
                p,
            )
        &&& forall|x: u64|
            x != id ==> (#[trigger] side_contains(post.side_levels(side), x) <==> side_contains(
                pre.side_levels(side),
                x,
            ))
        &&& post.side_levels(opposite(side)) == pre.side_levels(opposite(side))
        &&& !side_contains(post.bids@, id)
        &&& !side_contains(post.asks@, id)
    }

    /// What a successful `update_order` does: filled quantity and status
    /// are set. A terminal status takes the id out of its price level; an
    /// order already resting keeps its time-priority position; a terminal
    /// order turned active again re-enters at the back of the queue.
    pub open spec fn update_effect(
        pre: Self,
        post: Self,
        id: u64,
        filled: u128,
        status: OrderStatus,
    ) -> bool {
        let side = pre.orders@[id].side;
        let price = pre.orders@[id].price;
        &&& post.symbol@ == pre.symbol@
        &&& pre.orders@.contains_key(id)
        &&& post.orders@ == pre.orders@.insert(
            id,
            OrderInfo { filled_quantity: filled, status: status, ..pre.orders@[id] },
        )
        &&& post.side_levels(opposite(side)) == pre.side_levels(opposite(side))
        &&& if is_active(status) {
            if is_active(pre.orders@[id].status) {
                &&& post.bids@ == pre.bids@
                &&& post.asks@ == pre.asks@
            } else {
                &&& orders_at(post.side_levels(side), price) == orders_at(
                    pre.side_levels(side),
                    price,
                ).push(id)
                &&& forall|p: u128|
                    p != price ==> orders_at(post.side_levels(side), p) == orders_at(
                        pre.side_levels(side),
                        p,
                    )
            }
        } else {
            &&& orders_at(post.side_levels(side), price) == remove_id(
                orders_at(pre.side_levels(side), price),
                id,
            )
            &&& forall|p: u128|
                p != price ==> orders_at(post.side_levels(side), p) == orders_at(
                    pre.side_levels(side),
                    p,
                )
            &&& !side_contains(post.bids@, id)
            &&& !side_contains(post.asks@, id)
        }
    }

    pub open spec fn spec_best_bid(&self) -> Option<u128> {
        if self.bids@.len() == 0 {
            None
        } else {
            Some(self.bids@.last().price)
        }
    }

    pub open spec fn spec_best_ask(&self) -> Option<u128> {
        if self.asks@.len() == 0 {
            None
        } else {
            Some(self.asks@[0].price)
        }
    }

    /// Records a newly placed order and, when its status is active, rests
    /// it at the tail of its side's price level (time priority). A reused
    /// order id is rejected: the first record wins.
    pub fn add_order(&mut self, order: OrderInfo) -> (r: Result<(), ReducerError>)
        requires
            old(self).wf(),
        ensures
            final(self).wf(),
            match r {
                Ok(()) => {
                    &&& !old(self).orders@.contains_key(order.order_id)
                    &&& Self::add_effect(*old(self), *final(self), order)
                    &&& Self::snapshot_published(*old(self), *final(self))
                },
                Err(e) => {
                    &&& e == ReducerError::DuplicateOrder
                    &&& old(self).orders@.contains_key(order.order_id)
                    &&& *final(self) == *old(self)
                },
            },
    {
        let id = order.order_id;
        if self.orders.contains_key(&id) {
            return Err(ReducerError::DuplicateOrder);
        }
        self.orders.insert(id, order);
        if order.status == OrderStatus::Open || order.status == OrderStatus::PartiallyFilled {
            proof {
                if side_contains(self.bids@, id) {
                    lemma_side_contains_key(old(self).orders@, self.bids@, OrderSide::Buy, id);
                }
                if side_contains(self.asks@, id) {
                    lemma_side_contains_key(old(self).orders@, self.asks@, OrderSide::Sell, id);
                }
            }
            match order.side {
                OrderSide::Buy => insert_into_levels(&mut self.bids, order.price, id),
                OrderSide::Sell => insert_into_levels(&mut self.asks, order.price, id),
            }
            proof {
                self.lemma_wf_after_rest(*old(self), order);
            }
        } else {
            proof {
                let pre = *old(self);
                let post = *self;
                assert forall|p: u128, x: u64|
                    orders_at(post.bids@, p).contains(x) implies {
                    &&& post.orders@.contains_key(x)
                    &&& post.orders@[x].side == OrderSide::Buy
                    &&& post.orders@[x].price == p
                    &&& is_active(post.orders@[x].status)
                } by {
                    lemma_resting_order_facts(pre.orders@, pre.bids@, OrderSide::Buy, p, x);
                };
                lemma_entries_ok_intro(post.orders@, post.bids@, OrderSide::Buy);
                assert forall|p: u128, x: u64|
                    orders_at(post.asks@, p).contains(x) implies {
                    &&& post.orders@.contains_key(x)
                    &&& post.orders@[x].side == OrderSide::Sell
                    &&& post.orders@[x].price == p
                    &&& is_active(post.orders@[x].status)
                } by {
                    lemma_resting_order_facts(pre.orders@, pre.asks@, OrderSide::Sell, p, x);
                };
                lemma_entries_ok_intro(post.orders@, post.asks@, OrderSide::Sell);
                assert forall|x: u64| #[trigger]
                    post.orders@.contains_key(x) && is_active(post.orders@[x].status) implies
                    orders_at(
                    post.side_levels(post.orders@[x].side),
                    post.orders@[x].price,
                ).contains(x) by {
                    assert(x != id);
                    assert(pre.orders@.contains_key(x));
                };
                assert(post.wf_core());
            }
        }
        self.emit_snapshot();
        Ok(())
    }

    /// The well-formedness argument for resting an order: the book's maps
    /// were well formed, the order map gained (or re-gained) `order` in an
    /// active status, and its side's levels gained exactly that id at the
    /// order's price. An id already known must have been off the book.
    proof fn lemma_wf_after_rest(&self, pre: Self, order: OrderInfo)
        requires
            pre.wf_core(),
            pre.orders@.contains_key(order.order_id) ==> {
                &&& pre.orders@[order.order_id].side == order.side
                &&& pre.orders@[order.order_id].price == order.price
                &&& !is_active(pre.orders@[order.order_id].status)
            },
            is_active(order.status),
            self.orders@ == pre.orders@.insert(order.order_id, order),
            levels_wf(self.side_levels(order.side)),
            self.side_levels(opposite(order.side)) == pre.side_levels(opposite(order.side)),
            orders_at(self.side_levels(order.side), order.price) == orders_at(
                pre.side_levels(order.side),
                order.price,
            ).push(order.order_id),
            forall|p: u128|
                p != order.price ==> orders_at(self.side_levels(order.side), p) == orders_at(
                    pre.side_levels(order.side),
                    p,
                ),
            forall|x: u64| #[trigger]
                side_contains(self.side_levels(order.side), x) <==> (side_contains(
                    pre.side_levels(order.side),
                    x,
                ) || x == order.order_id),
        ensures
            self.wf_core(),
    {
        let id = order.order_id;
        let side = order.side;
        let other = opposite(side);
        assert(levels_wf(self.side_levels(other)));
        // the changed side
        assert forall|p: u128, x: u64|
            orders_at(self.side_levels(side), p).contains(x) implies {
            &&& self.orders@.contains_key(x)
            &&& self.orders@[x].side == side
            &&& self.orders@[x].price == p
            &&& is_active(self.orders@[x].status)
        } by {
            if p == order.price {
                let s = orders_at(pre.side_levels(side), order.price);
                let q = choose|q: int| 0 <= q < s.push(id).len() && s.push(id)[q] == x;
                if q < s.len() {
                    assert(s[q] == x);
                    assert(s.contains(x));
                    lemma_resting_order_facts(pre.orders@, pre.side_levels(side), side, p, x);
                    assert(x != id);
                } else {
                    assert(x == id);
                }
            } else {
                lemma_resting_order_facts(pre.orders@, pre.side_levels(side), side, p, x);
                assert(x != id);
            }
        };
        lemma_entries_ok_intro(self.orders@, self.side_levels(side), side);
        // the untouched side
        assert forall|p: u128, x: u64|
            orders_at(self.side_levels(other), p).contains(x) implies {
            &&& self.orders@.contains_key(x)
            &&& self.orders@[x].side == other
            &&& self.orders@[x].price == p
            &&& is_active(self.orders@[x].status)
        } by {
            lemma_resting_order_facts(pre.orders@, pre.side_levels(other), other, p, x);
            assert(x != id);
        };
        lemma_entries_ok_intro(self.orders@, self.side_levels(other), other);
        assert(self.side_entries_ok(OrderSide::Buy));
        assert(self.side_entries_ok(OrderSide::Sell));
        // every active order still rests at its price
        assert forall|x: u64| #[trigger]
            self.orders@.contains_key(x) && is_active(self.orders@[x].status) implies orders_at(
            self.side_levels(self.orders@[x].side),
            self.orders@[x].price,
        ).contains(x) by {
            if x == id {
                let s = orders_at(pre.side_levels(side), order.price);
                assert(s.push(id)[s.len() as int] == id);
                assert(orders_at(self.side_levels(side), order.price).contains(id));
            } else {
                assert(pre.orders@.contains_key(x));
                let xs = pre.orders@[x].side;
                let xp = pre.orders@[x].price;
                assert(orders_at(pre.side_levels(xs), xp).contains(x));
                if xs == side && xp == order.price {
                    let s = orders_at(pre.side_levels(side), order.price);
                    let q = choose|q: int| 0 <= q < s.len() && s[q] == x;
                    assert(s.push(id)[q] == x);
                    assert(orders_at(self.side_levels(side), order.price).contains(x));
                } else if xs == side {
                    assert(orders_at(self.side_levels(xs), xp) == orders_at(
                        pre.side_levels(xs),
                        xp,
                    ));
                } else {
                    assert(self.side_levels(xs) == pre.side_levels(xs));
                }
            }
        };
    }

    /// The well-formedness argument for taking an order off the book: its
    /// record turned terminal and its id left its side's price level.
    proof fn lemma_wf_after_unrest(&self, pre: Self, v: OrderInfo)
        requires
            pre.wf_core(),
            pre.orders@.contains_key(v.order_id),
            pre.orders@[v.order_id].side == v.side,
            pre.orders@[v.order_id].price == v.price,
            !is_active(v.status),
            self.orders@ == pre.orders@.insert(v.order_id, v),
            levels_wf(self.side_levels(v.side)),
            self.side_levels(opposite(v.side)) == pre.side_levels(opposite(v.side)),
            orders_at(self.side_levels(v.side), v.price) == remove_id(
                orders_at(pre.side_levels(v.side), v.price),
                v.order_id,
            ),
            forall|p: u128|
                p != v.price ==> orders_at(self.side_levels(v.side), p) == orders_at(
                    pre.side_levels(v.side),
                    p,
                ),
            forall|x: u64|
                x != v.order_id ==> (#[trigger] side_contains(self.side_levels(v.side), x)
                    <==> side_contains(pre.side_levels(v.side), x)),
            !side_contains(self.side_levels(v.side), v.order_id),
        ensures
            self.wf_core(),
    {
        let id = v.order_id;
        let side = v.side;
        let price = v.price;
        let other = opposite(side);
        assert(levels_wf(self.side_levels(other)));
        lemma_no_dup_orders_at(pre.side_levels(side), price);
        // the changed side
        assert forall|p: u128, x: u64|
            orders_at(self.side_levels(side), p).contains(x) implies {
            &&& self.orders@.contains_key(x)
            &&& self.orders@[x].side == side
            &&& self.orders@[x].price == p
            &&& is_active(self.orders@[x].status)
        } by {
            if p == price {
                lemma_remove_id_contains(orders_at(pre.side_levels(side), price), id);
                assert(orders_at(pre.side_levels(side), price).contains(x) && x != id);
                lemma_resting_order_facts(pre.orders@, pre.side_levels(side), side, p, x);
            } else {
                lemma_resting_order_facts(pre.orders@, pre.side_levels(side), side, p, x);
                assert(x != id);
            }
        };
        lemma_entries_ok_intro(self.orders@, self.side_levels(side), side);
        // the untouched side
        assert forall|p: u128, x: u64|
            orders_at(self.side_levels(other), p).contains(x) implies {
            &&& self.orders@.contains_key(x)
            &&& self.orders@[x].side == other
            &&& self.orders@[x].price == p
            &&& is_active(self.orders@[x].status)
        } by {
            lemma_resting_order_facts(pre.orders@, pre.side_levels(other), other, p, x);
            assert(x != id);
        };
        lemma_entries_ok_intro(self.orders@, self.side_levels(other), other);
        assert(self.side_entries_ok(OrderSide::Buy));
        assert(self.side_entries_ok(OrderSide::Sell));
        // every still-active order still rests at its price
        assert forall|x: u64| #[trigger]
            self.orders@.contains_key(x) && is_active(self.orders@[x].status) implies orders_at(
            self.side_levels(self.orders@[x].side),
            self.orders@[x].price,
        ).contains(x) by {
            assert(x != id);
            assert(pre.orders@.contains_key(x));
            let xs = pre.orders@[x].side;
            let xp = pre.orders@[x].price;
            assert(orders_at(pre.side_levels(xs), xp).contains(x));
            if xs == side && xp == price {
                lemma_remove_id_contains(orders_at(pre.side_levels(side), price), id);
            } else if xs == side {
                assert(orders_at(self.side_levels(xs), xp) == orders_at(pre.side_levels(xs), xp));
            } else {
                assert(self.side_levels(xs) == pre.side_levels(xs));
            }
        };
    }

    /// Cancels a resting order: the id leaves its price level (a no-op if
    /// it already left) and the record stays queryable with status
    /// `Cancelled`. An unknown id is reported, never fatal.
    pub fn cancel_order(&mut self, order_id: u64) -> (r: Result<(), ReducerError>)
        requires
            old(self).wf(),
        ensures
            final(self).wf(),
            match r {
                Ok(()) => {
                    &&& old(self).orders@.contains_key(order_id)
                    &&& Self::cancel_effect(*old(self), *final(self), order_id)
                    &&& Self::snapshot_published(*old(self), *final(self))
                },
                Err(e) => {
                    &&& e == ReducerError::NotFound
                    &&& !old(self).orders@.contains_key(order_id)
                    &&& *final(self) == *old(self)
                },
            },
    {
        let existing = match self.orders.get(&order_id) {
            Some(o) => *o,
            None => {
                return Err(ReducerError::NotFound);
            },
        };
        let updated = OrderInfo { status: OrderStatus::Cancelled, ..existing };
        self.orders.insert(order_id, updated);
        proof {
            self.lemma_off_book_elsewhere(*old(self), existing);
        }
        match existing.side {
            OrderSide::Buy => remove_from_levels(&mut self.bids, existing.price, order_id),
            OrderSide::Sell => remove_from_levels(&mut self.asks, existing.price, order_id),
        }
        proof {
            lemma_not_on_opposite(*old(self), order_id);
            self.lemma_wf_after_unrest(*old(self), updated);
        }
        self.emit_snapshot();
        Ok(())
    }

    /// Sets an order's filled quantity and status. A terminal status takes
    /// the id off its price level; a partially filled order keeps its
    /// original time-priority position. An unknown id is reported, never
    /// fatal.
    pub fn update_order(&mut self, order_id: u64, filled_quantity: u128, status: OrderStatus) -> (r:
        Result<(), ReducerError>)
        requires
            old(self).wf(),
        ensures
            final(self).wf(),
            match r {
                Ok(()) => {
                    &&& old(self).orders@.contains_key(order_id)
                    &&& Self::update_effect(
                        *old(self),
                        *final(self),
                        order_id,
                        filled_quantity,
                        status,
                    )
                    &&& Self::snapshot_published(*old(self), *final(self))
                },
                Err(e) => {
                    &&& e == ReducerError::NotFound
                    &&& !old(self).orders@.contains_key(order_id)
                    &&& *final(self) == *old(self)
                },
            },
    {
        let existing = match self.orders.get(&order_id) {
            Some(o) => *o,
            None => {
                return Err(ReducerError::NotFound);
            },
        };
        let updated = OrderInfo { filled_quantity, status, ..existing };
        self.orders.insert(order_id, updated);
        let was_active = existing.status == OrderStatus::Open || existing.status
            == OrderStatus::PartiallyFilled;
        let now_active = status == OrderStatus::Open || status == OrderStatus::PartiallyFilled;
        if now_active {
            if !was_active {
                // a terminal order turned active again re-enters at the
                // back of its price level's queue
                proof {
                    if side_contains(self.side_levels(existing.side), order_id) {
                        lemma_resting_order_facts(
                            old(self).orders@,
                            old(self).side_levels(existing.side),
                            existing.side,
                            existing.price,
                            order_id,
                        );
                        lemma_side_contains_key(
                            old(self).orders@,
                            old(self).side_levels(existing.side),
                            existing.side,
                            order_id,
                        );
                        let ls = old(self).side_levels(existing.side);
                        let i = choose|i: int| 0 <= i < ls.len() && ls[i].orders@.contains(
                            order_id,
                        );
                        let k = choose|k: int|
                            0 <= k < ls[i].orders@.len() && ls[i].orders@[k] == order_id;
                        assert(ls[i].orders@[k] == order_id);
                        assert(is_active(old(self).orders@[order_id].status));
                    }
                }
                match existing.side {
                    OrderSide::Buy => insert_into_levels(&mut self.bids, existing.price, order_id),
                    OrderSide::Sell => insert_into_levels(&mut self.asks, existing.price, order_id),
                }
                proof {
                    self.lemma_wf_after_rest(*old(self), updated);
                }
            } else {
                proof {
                    self.lemma_wf_after_in_place(*old(self), updated);
                }
            }
        } else {
            proof {
                self.lemma_off_book_elsewhere(*old(self), existing);
            }
            match existing.side {
                OrderSide::Buy => remove_from_levels(&mut self.bids, existing.price, order_id),
                OrderSide::Sell => remove_from_levels(&mut self.asks, existing.price, order_id),
            }
            proof {
                lemma_not_on_opposite(*old(self), order_id);
                self.lemma_wf_after_unrest(*old(self), updated);
            }
        }
        self.emit_snapshot();
        Ok(())
    }

    /// The well-formedness argument for an in-place update: the order was
    /// and stays active, so both sides' levels are untouched.
    proof fn lemma_wf_after_in_place(&self, pre: Self, v: OrderInfo)
        requires
            pre.wf_core(),
            pre.orders@.contains_key(v.order_id),
            pre.orders@[v.order_id].side == v.side,
            pre.orders@[v.order_id].price == v.price,
            is_active(pre.orders@[v.order_id].status),
            is_active(v.status),
            self.orders@ == pre.orders@.insert(v.order_id, v),
            self.bids@ == pre.bids@,
            self.asks@ == pre.asks@,
        ensures
            self.wf_core(),
    {
        let id = v.order_id;
        assert forall|p: u128, x: u64|
            orders_at(self.bids@, p).contains(x) implies {
            &&& self.orders@.contains_key(x)
            &&& self.orders@[x].side == OrderSide::Buy
            &&& self.orders@[x].price == p
            &&& is_active(self.orders@[x].status)
        } by {
            lemma_resting_order_facts(pre.orders@, pre.bids@, OrderSide::Buy, p, x);
        };
        lemma_entries_ok_intro(self.orders@, self.bids@, OrderSide::Buy);
        assert forall|p: u128, x: u64|
            orders_at(self.asks@, p).contains(x) implies {
            &&& self.orders@.contains_key(x)
            &&& self.orders@[x].side == OrderSide::Sell
            &&& self.orders@[x].price == p
            &&& is_active(self.orders@[x].status)
        } by {
            lemma_resting_order_facts(pre.orders@, pre.asks@, OrderSide::Sell, p, x);
        };
        lemma_entries_ok_intro(self.orders@, self.asks@, OrderSide::Sell);
        assert(self.side_entries_ok(OrderSide::Buy));
        assert(self.side_entries_ok(OrderSide::Sell));
        assert forall|x: u64| #[trigger]
            self.orders@.contains_key(x) && is_active(self.orders@[x].status) implies orders_at(
            self.side_levels(self.orders@[x].side),
            self.orders@[x].price,
        ).contains(x) by {
            if x == id {
                assert(orders_at(pre.side_levels(v.side), v.price).contains(id));
            } else {
                assert(pre.orders@.contains_key(x));
            }
        };
    }

    /// An order's id cannot rest at a foreign price or on the other side.
    proof fn lemma_off_book_elsewhere(&self, pre: Self, existing: OrderInfo)
        requires
            pre.wf_core(),
            self.bids@ == pre.bids@,
            self.asks@ == pre.asks@,
            pre.orders@.contains_key(existing.order_id),
            pre.orders@[existing.order_id] == existing,
        ensures
            forall|i: int|
                #![trigger self.side_levels(existing.side)[i]]
                0 <= i < self.side_levels(existing.side).len() && self.side_levels(existing.side)[i].price
                    != existing.price ==> !self.side_levels(existing.side)[i].orders@.contains(
                    existing.order_id,
                ),
    {
        let ls = pre.side_levels(existing.side);
        assert forall|i: int|
            0 <= i < ls.len() && ls[i].price != existing.price implies !ls[i].orders@.contains(
            existing.order_id,
        ) by {
            if ls[i].orders@.contains(existing.order_id) {
                lemma_orders_at_level(ls, i);
                lemma_resting_order_facts(
                    pre.orders@,
                    ls,
                    existing.side,
                    ls[i].price,
                    existing.order_id,
                );
            }
        };
    }

    /// Best prices of both sides: `None` exactly when either side holds no
    /// resting order, else the highest bid and the lowest ask.
    pub fn get_spread(&self) -> (r: Option<(u128, u128)>)
        requires
            self.wf(),
        ensures
            r is Some <==> (self.bids@.len() > 0 && self.asks@.len() > 0),
            match r {
                Some(ba) => {
                    &&& Some(ba.0) == self.spec_best_bid()
                    &&& Some(ba.1) == self.spec_best_ask()
                    &&& side_has_price(self.bids@, ba.0)
                    &&& side_has_price(self.asks@, ba.1)
                    &&& forall|p: u128| side_has_price(self.bids@, p) ==> p <= ba.0
                    &&& forall|p: u128| side_has_price(self.asks@, p) ==> ba.1 <= p
                },
                None => self.bids@.len() == 0 || self.asks@.len() == 0,
            },
    {
        if self.bids.len() > 0 && self.asks.len() > 0 {
            let best_bid = self.bids[self.bids.len() - 1].price;
            let best_ask = self.asks[0].price;
            proof {
                assert forall|p: u128| side_has_price(self.bids@, p) implies p <= best_bid by {
                    let i = choose|i: int| 0 <= i < self.bids@.len() && self.bids@[i].price == p;
                    if i < self.bids@.len() - 1 {
                        assert(self.bids@[i].price < self.bids@[self.bids@.len() - 1].price);
                    }
                };
                assert forall|p: u128| side_has_price(self.asks@, p) implies best_ask <= p by {
                    let i = choose|i: int| 0 <= i < self.asks@.len() && self.asks@[i].price == p;
                    if i > 0 {
                        assert(self.asks@[0].price < self.asks@[i].price);
                    }
                };
            }
            Some((best_bid, best_ask))
        } else {
            None
        }
    }

    /// Up to `n` bid levels as `(price, resting order count)`, best first
    /// (highest price first).
    pub fn get_bid_depth(&self, n: usize) -> (r: Vec<(u128, usize)>)
        requires
            self.wf(),
        ensures
            r@.len() == if n <= self.bids@.len() {
                n as int
            } else {
                self.bids@.len() as int
            },
            forall|i: int|
                #![trigger r@[i]]
                0 <= i < r@.len() ==> {
                    let lvl = self.bids@[self.bids@.len() - 1 - i];
                    r@[i].0 == lvl.price && r@[i].1 == lvl.orders@.len()
                },
    {
        let mut r: Vec<(u128, usize)> = Vec::new();
        let total = self.bids.len();
        let mut i: usize = 0;
        while i < n && i < total
            invariant
                0 <= i <= total,
                total == self.bids@.len(),
                i <= n,
                r@.len() == i as int,
                forall|q: int|
                    #![trigger r@[q]]
                    0 <= q < i as int ==> {
                        let lvl = self.bids@[total - 1 - q];
                        r@[q].0 == lvl.price && r@[q].1 == lvl.orders@.len()
                    },
            decreases total - i,
        {
            let lvl = &self.bids[total - 1 - i];
            r.push((lvl.price, lvl.orders.len()));
            i = i + 1;
        }
        r
    }

    /// Up to `n` ask levels as `(price, resting order count)`, best first
    /// (lowest price first).
    pub fn get_ask_depth(&self, n: usize) -> (r: Vec<(u128, usize)>)
        requires
            self.wf(),
        ensures
            r@.len() == if n <= self.asks@.len() {
                n as int
            } else {
                self.asks@.len() as int
            },
            forall|i: int|
                #![trigger r@[i]]
                0 <= i < r@.len() ==> {
                    let lvl = self.asks@[i];
                    r@[i].0 == lvl.price && r@[i].1 == lvl.orders@.len()
                },
    {
        let mut r: Vec<(u128, usize)> = Vec::new();
        let total = self.asks.len();
        let mut i: usize = 0;
        while i < n && i < total
            invariant
                0 <= i <= total,
                i <= n,
                total == self.asks@.len(),
                r@.len() == i as int,
                forall|q: int|
                    #![trigger r@[q]]
                    0 <= q < i as int ==> {
                        let lvl = self.asks@[q];
                        r@[q].0 == lvl.price && r@[q].1 == lvl.orders@.len()
                    },
            decreases total - i,
        {
            let lvl = &self.asks[i];
            r.push((lvl.price, lvl.orders.len()));
            i = i + 1;
        }
        r
    }

    /// What a snapshot holds, relative to the book it was taken from.
    /// Its timestamp is constrained by the taker, not here.
    pub open spec fn snapshot_matches(s: OrderbookSnapshot, st: Self, depth: int) -> bool {
        &&& s.symbol@ == st.symbol@
        &&& s.bids@.len() == if depth <= st.bids@.len() {
            depth
        } else {
            st.bids@.len() as int
        }
        &&& forall|i: int|
            #![trigger s.bids@[i]]
            0 <= i < s.bids@.len() ==> {
                let lvl = st.bids@[st.bids@.len() - 1 - i];
                &&& s.bids@[i].price == lvl.price
                &&& s.bids@[i].order_count == lvl.orders@.len()
                &&& s.bids@[i].total_quantity == spec_level_quantity(st.orders@, lvl.orders@)
            }
        &&& s.asks@.len() == if depth <= st.asks@.len() {
            depth
        } else {
            st.asks@.len() as int
        }
        &&& forall|i: int|
            #![trigger s.asks@[i]]
            0 <= i < s.asks@.len() ==> {
                let lvl = st.asks@[i];
                &&& s.asks@[i].price == lvl.price
                &&& s.asks@[i].order_count == lvl.orders@.len()
                &&& s.asks@[i].total_quantity == spec_level_quantity(st.orders@, lvl.orders@)
            }
        &&& s.best_bid == st.spec_best_bid()
        &&& s.best_ask == st.spec_best_ask()
        &&& s.spread == match (st.spec_best_bid(), st.spec_best_ask()) {
            (Some(b), Some(a)) => Some(crate::fixed::spec_sat_sub(a, b)),
            _ => None::<u128>,
        }
        &&& s.mid_price == match (st.spec_best_bid(), st.spec_best_ask()) {
            (Some(b), Some(a)) => Some((crate::fixed::spec_sat_add(b, a) / 2) as u128),
            _ => None::<u128>,
        }
    }

    /// Builds a point-in-time projection: up to `depth` levels per side,
    /// best first, each summing its orders' remaining quantities.
    pub fn snapshot(&self, depth: usize, timestamp: i64) -> (r: OrderbookSnapshot)
        requires
            self.wf_core(),
        ensures
            Self::snapshot_matches(r, *self, depth as int),
            r.timestamp == timestamp,
    {
        let mut bids: Vec<SnapshotLevel> = Vec::new();
        let total_b = self.bids.len();
        let mut i: usize = 0;
        while i < depth && i < total_b
            invariant
                0 <= i <= total_b,
                i <= depth,
                total_b == self.bids@.len(),
                bids@.len() == i as int,
                forall|q: int|
                    #![trigger bids@[q]]
                    0 <= q < i as int ==> {
                        let lvl = self.bids@[total_b - 1 - q];
                        &&& bids@[q].price == lvl.price
                        &&& bids@[q].order_count == lvl.orders@.len()
                        &&& bids@[q].total_quantity == spec_level_quantity(
                            self.orders@,
                            lvl.orders@,
                        )
                    },
            decreases total_b - i,
        {
            let lvl = &self.bids[total_b - 1 - i];
            let qty = sum_remaining(&self.orders, &lvl.orders);
            bids.push(
                SnapshotLevel { price: lvl.price, total_quantity: qty, order_count: lvl.orders.len() },
            );
            i = i + 1;
        }
        let mut asks: Vec<SnapshotLevel> = Vec::new();
        let total_a = self.asks.len();
        let mut j: usize = 0;
        while j < depth && j < total_a
            invariant
                0 <= j <= total_a,
                j <= depth,
                total_a == self.asks@.len(),
                asks@.len() == j as int,
                forall|q: int|
                    #![trigger asks@[q]]
                    0 <= q < j as int ==> {
                        let lvl = self.asks@[q];
                        &&& asks@[q].price == lvl.price
                        &&& asks@[q].order_count == lvl.orders@.len()
                        &&& asks@[q].total_quantity == spec_level_quantity(
                            self.orders@,
                            lvl.orders@,
                        )
                    },
            decreases total_a - j,
        {
            let lvl = &self.asks[j];
            let qty = sum_remaining(&self.orders, &lvl.orders);
            asks.push(
                SnapshotLevel { price: lvl.price, total_quantity: qty, order_count: lvl.orders.len() },
            );
            j = j + 1;
        }
        let best_bid = if self.bids.len() > 0 {
            Some(self.bids[self.bids.len() - 1].price)
        } else {
            None
        };
        let best_ask = if self.asks.len() > 0 {
            Some(self.asks[0].price)
        } else {
            None
        };
        let (spread, mid_price) = match (best_bid, best_ask) {
            (Some(b), Some(a)) => (
                Some(crate::fixed::sat_sub(a, b)),
                Some(crate::fixed::sat_add(b, a) / 2),
            ),
            _ => (None, None),
        };
        OrderbookSnapshot {
            symbol: self.symbol.clone(),
            bids,
            asks,
            best_bid,
            best_ask,
            spread,
            mid_price,
            timestamp,
        }
    }

    /// The best-level summary answered to quote queries: best prices,
    /// their spread and midpoint, and how many orders rest at each.
    pub fn quote(&self) -> (r: Option<QuoteSummary>)
        requires
            self.wf(),
        ensures
            r is Some <==> (self.bids@.len() > 0 && self.asks@.len() > 0),
            match r {
                Some(q) => {
                    &&& Some(q.bid) == self.spec_best_bid()
                    &&& Some(q.ask) == self.spec_best_ask()
                    &&& q.spread == crate::fixed::spec_sat_sub(q.ask, q.bid)
                    &&& q.mid_price == (crate::fixed::spec_sat_add(q.bid, q.ask) / 2) as u128
                    &&& q.bid_orders == self.bids@.last().orders@.len()
                    &&& q.ask_orders == self.asks@[0].orders@.len()
                },
                None => self.bids@.len() == 0 || self.asks@.len() == 0,
            },
    {
        match self.get_spread() {
            Some((bid, ask)) => {
                let bid_orders = self.bids[self.bids.len() - 1].orders.len();
                let ask_orders = self.asks[0].orders.len();
                Some(
                    QuoteSummary {
                        bid,
                        ask,
                        spread: crate::fixed::sat_sub(ask, bid),
                        mid_price: crate::fixed::sat_add(bid, ask) / 2,
                        bid_orders,
                        ask_orders,
                    },
                )
            },
            None => None,
        }
    }

    /// Applies one decoded settlement event to the book, exactly as the
    /// dedicated operations would: a place event records a fresh open
    /// order, a cancel turns it terminal, a fill terminates it at its full
    /// original quantity, a partial fill sets the filled amount and keeps
    /// it resting. Trades and unrecognized events leave the book alone.
    pub fn apply_event(&mut self, ev: &crate::events::SettlementEvent) -> (r: Result<
        (),
        ReducerError,
    >)
        requires
            old(self).wf(),
        ensures
            final(self).wf(),
            match *ev {
                crate::events::SettlementEvent::OrderPlaced { order_id, side, price, quantity } => {
                    let order = OrderInfo {
                        order_id,
                        side,
                        price,
                        quantity,
                        filled_quantity: 0,
                        status: OrderStatus::Open,
                    };
                    if old(self).orders@.contains_key(order_id) {
                        &&& r == Err::<(), ReducerError>(ReducerError::DuplicateOrder)
                        &&& *final(self) == *old(self)
                    } else {
                        &&& r is Ok
                        &&& Self::add_effect(*old(self), *final(self), order)
                        &&& Self::snapshot_published(*old(self), *final(self))
                    }
                },
                crate::events::SettlementEvent::OrderCancelled { order_id, .. } => {
                    if old(self).orders@.contains_key(order_id) {
                        &&& r is Ok
                        &&& Self::cancel_effect(*old(self), *final(self), order_id)
                        &&& Self::snapshot_published(*old(self), *final(self))
                    } else {
                        &&& r == Err::<(), ReducerError>(ReducerError::NotFound)
                        &&& *final(self) == *old(self)
                    }
                },
                crate::events::SettlementEvent::OrderFilled { order_id, .. } => {
                    if old(self).orders@.contains_key(order_id) {
                        &&& r is Ok
                        &&& Self::update_effect(
                            *old(self),
                            *final(self),
                            order_id,
                            old(self).orders@[order_id].quantity,
                            OrderStatus::Filled,
                        )
                        &&& Self::snapshot_published(*old(self), *final(self))
                    } else {
                        &&& r == Err::<(), ReducerError>(ReducerError::NotFound)
                        &&& *final(self) == *old(self)
                    }
                },
                crate::events::SettlementEvent::OrderPartiallyFilled {
                    order_id,
                    filled_quantity,
                    ..
                } => {
                    if old(self).orders@.contains_key(order_id) {
                        &&& r is Ok
                        &&& Self::update_effect(
                            *old(self),
                            *final(self),
                            order_id,
                            filled_quantity,
                            OrderStatus::PartiallyFilled,
                        )
                        &&& Self::snapshot_published(*old(self), *final(self))
                    } else {
                        &&& r == Err::<(), ReducerError>(ReducerError::NotFound)
                        &&& *final(self) == *old(self)
                    }
                },
                crate::events::SettlementEvent::TradeExecuted { .. } => {
                    &&& r is Ok
                    &&& *final(self) == *old(self)
                },
                crate::events::SettlementEvent::Unrecognized => {
                    &&& r is Ok
                    &&& *final(self) == *old(self)
                },
            },
    {
        match ev {
            crate::events::SettlementEvent::OrderPlaced { order_id, side, price, quantity } => self
                .add_order(
                OrderInfo {
                    order_id: *order_id,
                    side: *side,
                    price: *price,
                    quantity: *quantity,
                    filled_quantity: 0,
                    status: OrderStatus::Open,
                },
            ),
            crate::events::SettlementEvent::OrderCancelled { order_id, .. } => self.cancel_order(
                *order_id,
            ),
            crate::events::SettlementEvent::OrderFilled { order_id, .. } => {
                let quantity = match self.orders.get(order_id) {
                    Some(o) => o.quantity,
                    None => {
                        return Err(ReducerError::NotFound);
                    },
                };
                self.update_order(*order_id, quantity, OrderStatus::Filled)
            },
            crate::events::SettlementEvent::OrderPartiallyFilled {
                order_id,
                filled_quantity,
                ..
            } => self.update_order(*order_id, *filled_quantity, OrderStatus::PartiallyFilled),
            crate::events::SettlementEvent::TradeExecuted { .. } => Ok(()),
            crate::events::SettlementEvent::Unrecognized => Ok(()),
        }
    }

    /// The publish handle's part of every mutation: absent it stays
    /// absent; attached, it carried exactly one fresh snapshot of the
    /// mutated book, taken at the broadcast depth cap.
    pub open spec fn snapshot_published(pre: Self, post: Self) -> bool {
        match (pre.publish, post.publish) {
            (None, None) => true,
            (Some(c0), Some(c1)) => {
                &&& c1.wf()
                &&& exists|s: OrderbookSnapshot|
                    #[trigger] Fanout::publish_effect(c0, c1, s) && Self::snapshot_matches(
                        s,
                        post,
                        SNAPSHOT_DEPTH as int,
                    )
            },
            _ => false,
        }
    }

    /// Broadcasts a snapshot of the current book when a handle is
    /// attached; the book proper is untouched.
    fn emit_snapshot(&mut self)
        requires
            old(self).wf(),
        ensures
            final(self).wf(),
            final(self).symbol@ == old(self).symbol@,
            final(self).orders@ == old(self).orders@,
            final(self).bids@ == old(self).bids@,
            final(self).asks@ == old(self).asks@,
            Self::snapshot_published(*old(self), *final(self)),
    {
        if self.publish.is_some() {
            let snap = self.snapshot(SNAPSHOT_DEPTH, crate::clock::now_millis());
            match &mut self.publish {
                Some(ch) => {
                    ch.publish(snap);
                },
                None => {},
            }
        }
    }
}

} // verus!

verus! {

/// An id found through the per-price view always rests in the side.
proof fn lemma_orders_at_implies_side_contains(ls: Seq<Level>, p: u128, x: u64)
    requires
        orders_at(ls, p).contains(x),
    ensures
        side_contains(ls, x),
{
    let i = price_index(ls, p);
    assert(side_has_price(ls, p));
    assert(0 <= i < ls.len() && ls[i].orders@.contains(x));
}

/// An order placed and then cancelled leaves both sides of the book — no
/// depth query lists it at any price any more — yet it stays retrievable
/// by id, with status `Cancelled` and its original price and size.
pub proof fn lemma_placed_then_cancelled(
    st0: OrderbookState,
    st1: OrderbookState,
    st2: OrderbookState,
    order: OrderInfo,
)
    requires
        st0.wf(),
        !st0.orders@.contains_key(order.order_id),
        OrderbookState::add_effect(st0, st1, order),
        st1.wf(),
        OrderbookState::cancel_effect(st1, st2, order.order_id),
        st2.wf(),
    ensures
        !side_contains(st2.bids@, order.order_id),
        !side_contains(st2.asks@, order.order_id),
        forall|p: u128| !orders_at(st2.bids@, p).contains(order.order_id),
        forall|p: u128| !orders_at(st2.asks@, p).contains(order.order_id),
        st2.orders@.contains_key(order.order_id),
        st2.orders@[order.order_id].status == OrderStatus::Cancelled,
        st2.orders@[order.order_id].price == order.price,
        st2.orders@[order.order_id].quantity == order.quantity,
        st2.orders@[order.order_id].filled_quantity == order.filled_quantity,
{
    let id = order.order_id;
    assert(st1.orders@[id] == order);
    assert forall|p: u128| !orders_at(st2.bids@, p).contains(id) by {
        if orders_at(st2.bids@, p).contains(id) {
            lemma_orders_at_implies_side_contains(st2.bids@, p, id);
        }
    };
    assert forall|p: u128| !orders_at(st2.asks@, p).contains(id) by {
        if orders_at(st2.asks@, p).contains(id) {
            lemma_orders_at_implies_side_contains(st2.asks@, p, id);
        }
    };
}

/// A partial fill of `x` sets status `PartiallyFilled` and the filled
/// amount, leaves the remaining quantity at `quantity − x` (clamped at
/// zero), and keeps the order resting at its original price, its level's
/// queue unchanged (time priority kept).
pub proof fn lemma_partial_fill_keeps_position(
    st0: OrderbookState,
    st1: OrderbookState,
    order_id: u64,
    x: u128,
)
    requires
        st0.wf(),
        st0.orders@.contains_key(order_id),
        is_active(st0.orders@[order_id].status),
        OrderbookState::update_effect(st0, st1, order_id, x, OrderStatus::PartiallyFilled),
        st1.wf(),
    ensures
        st1.orders@.contains_key(order_id),
        st1.orders@[order_id].status == OrderStatus::PartiallyFilled,
        st1.orders@[order_id].filled_quantity == x,
        st1.orders@[order_id].spec_remaining() == crate::fixed::spec_sat_sub(
            st0.orders@[order_id].quantity,
            x,
        ),
        orders_at(
            st1.side_levels(st0.orders@[order_id].side),
            st0.orders@[order_id].price,
        ).contains(order_id),
        orders_at(st1.side_levels(st0.orders@[order_id].side), st0.orders@[order_id].price)
            == orders_at(st0.side_levels(st0.orders@[order_id].side), st0.orders@[order_id].price),
{
    assert(orders_at(
        st0.side_levels(st0.orders@[order_id].side),
        st0.orders@[order_id].price,
    ).contains(order_id));
}

/// A terminal fill takes the order off both sides: no depth query of any
/// requested depth lists it at any price. The record stays, `Filled`.
pub proof fn lemma_fill_leaves_book(
    st0: OrderbookState,
    st1: OrderbookState,
    order_id: u64,
    filled: u128,
)
    requires
        st0.wf(),
        st0.orders@.contains_key(order_id),
        OrderbookState::update_effect(st0, st1, order_id, filled, OrderStatus::Filled),
        st1.wf(),
    ensures
        !side_contains(st1.bids@, order_id),
        !side_contains(st1.asks@, order_id),
        forall|p: u128| !orders_at(st1.bids@, p).contains(order_id),
        forall|p: u128| !orders_at(st1.asks@, p).contains(order_id),
        st1.orders@.contains_key(order_id),
        st1.orders@[order_id].status == OrderStatus::Filled,
        st1.orders@[order_id].filled_quantity == filled,
{
    assert forall|p: u128| !orders_at(st1.bids@, p).contains(order_id) by {
        if orders_at(st1.bids@, p).contains(order_id) {
            lemma_orders_at_implies_side_contains(st1.bids@, p, order_id);
        }
    };
    assert forall|p: u128| !orders_at(st1.asks@, p).contains(order_id) by {
        if orders_at(st1.asks@, p).contains(order_id) {
            lemma_orders_at_implies_side_contains(st1.asks@, p, order_id);
        }
    };
}

} // verus!
