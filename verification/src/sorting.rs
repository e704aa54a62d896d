//! Stable sorting by a rank of two numbers, by merging.
use vstd::multiset::*;
use vstd::prelude::*;

verus! {

/// The views of the items of a sequence.
pub open spec fn views<T: View>(items: Seq<T>) -> Seq<T::V> {
    Seq::new(items.len(), |i: int| items[i]@)
}

/// Whether rank `a` comes before rank `b` or is the same.
pub open spec fn rank_le(a: (int, int), b: (int, int)) -> bool {
    a.0 < b.0 || (a.0 == b.0 && a.1 <= b.1)
}

/// `sorted` with `item` put behind the last item that does not rank above it,
/// seen from the end.
pub open spec fn placed<A>(sorted: Seq<A>, item: A, rank: spec_fn(A) -> (int, int)) -> Seq<A>
    decreases sorted.len(),
{
    if sorted.len() == 0 || rank_le(rank(sorted.last()), rank(item)) {
        sorted.push(item)
    } else {
        placed(sorted.drop_last(), item, rank).push(sorted.last())
    }
}

/// The items in the order of their ranks; items of one rank stay in the order
/// in which they were.
pub open spec fn in_order<A>(items: Seq<A>, rank: spec_fn(A) -> (int, int)) -> Seq<A>
    decreases items.len(),
{
    if items.len() == 0 {
        items
    } else {
        placed(in_order(items.drop_last(), rank), items.last(), rank)
    }
}

/// Whether no item ranks above one that stands behind it.
pub open spec fn ascending<A>(items: Seq<A>, rank: spec_fn(A) -> (int, int)) -> bool {
    forall|i: int, j: int|
        0 <= i < j < items.len() ==> rank_le(rank(#[trigger] items[i]), rank(#[trigger] items[j]))
}

/// Two sorted sequences as one, put together from the end; of items of one rank
/// those of `front` come first.
pub open spec fn merged<A>(front: Seq<A>, behind: Seq<A>, rank: spec_fn(A) -> (int, int)) -> Seq<A>
    decreases front.len() + behind.len(),
{
    if front.len() == 0 {
        behind
    } else if behind.len() == 0 {
        front
    } else if rank_le(rank(front.last()), rank(behind.last())) {
        merged(front, behind.drop_last(), rank).push(behind.last())
    } else {
        merged(front.drop_last(), behind, rank).push(front.last())
    }
}

/// To place an item in two sequences that are put together is to place it in
/// the second first.
proof fn lemma_placed_merged<A>(
    front: Seq<A>,
    behind: Seq<A>,
    item: A,
    rank: spec_fn(A) -> (int, int),
)
    ensures
        placed(merged(front, behind, rank), item, rank) == merged(
            front,
            placed(behind, item, rank),
            rank,
        ),
    decreases front.len() + behind.len(),
{
    let all = merged(front, behind, rank);
    let more = placed(behind, item, rank);
    if front.len() == 0 {
    } else if behind.len() == 0 {
        assert(more == behind.push(item));
        assert(more.drop_last() =~= behind);
        assert(more.last() == item);
        if rank_le(rank(front.last()), rank(item)) {
            assert(merged(front, behind, rank) == front);
        } else {
            let fewer = front.drop_last();
            lemma_placed_merged(fewer, behind, item, rank);
            assert(merged(fewer, behind, rank) =~= fewer);
        }
    } else if rank_le(rank(front.last()), rank(behind.last())) {
        assert(all.drop_last() =~= merged(front, behind.drop_last(), rank));
        if rank_le(rank(behind.last()), rank(item)) {
            assert(more.drop_last() =~= behind);
        } else {
            assert(more.drop_last() =~= placed(behind.drop_last(), item, rank));
            lemma_placed_merged(front, behind.drop_last(), item, rank);
        }
    } else {
        assert(all.drop_last() =~= merged(front.drop_last(), behind, rank));
        if rank_le(rank(front.last()), rank(item)) {
            assert(more.drop_last() =~= behind);
        } else {
            lemma_placed_merged(front.drop_last(), behind, item, rank);
        }
    }
}

/// To sort a sequence is to sort two parts of it and put them together.
proof fn lemma_in_order_merged<A>(front: Seq<A>, behind: Seq<A>, rank: spec_fn(A) -> (int, int))
    ensures
        in_order(front + behind, rank) == merged(
            in_order(front, rank),
            in_order(behind, rank),
            rank,
        ),
    decreases behind.len(),
{
    if behind.len() == 0 {
        assert(front + behind =~= front);
    } else {
        assert((front + behind).drop_last() =~= front + behind.drop_last());
        lemma_in_order_merged(front, behind.drop_last(), rank);
        lemma_placed_merged(
            in_order(front, rank),
            in_order(behind.drop_last(), rank),
            behind.last(),
            rank,
        );
    }
}

/// Placing keeps the order and adds the one item.
proof fn lemma_placed<A>(sorted: Seq<A>, item: A, rank: spec_fn(A) -> (int, int))
    requires
        ascending(sorted, rank),
    ensures
        ascending(placed(sorted, item, rank), rank),
        placed(sorted, item, rank).len() == sorted.len() + 1,
        placed(sorted, item, rank).to_multiset() == sorted.to_multiset().insert(item),
    decreases sorted.len(),
{
    broadcast use vstd::seq_lib::group_to_multiset_ensures;

    if sorted.len() == 0 || rank_le(rank(sorted.last()), rank(item)) {
    } else {
        let init = sorted.drop_last();
        let rest = placed(init, item, rank);
        lemma_placed(init, item, rank);
        assert(sorted =~= init.push(sorted.last()));
        let out = rest.push(sorted.last());
        assert forall|i: int, j: int| 0 <= i < j < out.len() implies rank_le(
            rank(#[trigger] out[i]),
            rank(#[trigger] out[j]),
        ) by {
            if j == rest.len() {
                assert(rest.to_multiset().count(rest[i]) > 0);
                if rest[i] != item {
                    assert(init.to_multiset().count(rest[i]) > 0);
                    let k = choose|k: int| 0 <= k < init.len() && init[k] == rest[i];
                    assert(sorted[k] == init[k]);
                }
            }
        }
        assert(out.to_multiset() =~= sorted.to_multiset().insert(item));
    }
}

/// Sorting gives the same items, each as often, in ascending order of rank.
pub proof fn lemma_in_order<A>(items: Seq<A>, rank: spec_fn(A) -> (int, int))
    ensures
        ascending(in_order(items, rank), rank),
        in_order(items, rank).len() == items.len(),
        in_order(items, rank).to_multiset() == items.to_multiset(),
    decreases items.len(),
{
    broadcast use vstd::seq_lib::group_to_multiset_ensures;

    if items.len() > 0 {
        let init = items.drop_last();
        lemma_in_order(init, rank);
        lemma_placed(in_order(init, rank), items.last(), rank);
        assert(items =~= init.push(items.last()));
        assert(items.to_multiset() =~= init.to_multiset().insert(items.last()));
    }
}

/// What is in a sequence is in it when it is sorted, and the other way round.
pub proof fn lemma_in_order_contains<A>(items: Seq<A>, rank: spec_fn(A) -> (int, int), item: A)
    ensures
        in_order(items, rank).contains(item) <==> items.contains(item),
{
    broadcast use vstd::seq_lib::group_to_multiset_ensures;

    lemma_in_order(items, rank);
    let sorted = in_order(items, rank);
    assert(sorted.contains(item) <==> sorted.to_multiset().count(item) > 0);
    assert(items.contains(item) <==> items.to_multiset().count(item) > 0);
}

/// An item that can be ranked. A type may have two orders, told apart by
/// `second`.
pub trait Ranked: View + Sized {
    /// The rank of an item with this view.
    spec fn rank(item: Self::V, second: bool) -> (int, int);

    /// The rank of this item.
    fn rank_of(&self, second: bool) -> (rank: (usize, usize))
        ensures
            (rank.0 as int, rank.1 as int) == Self::rank(self@, second),
    ;
}

/// The rank function of a type in one of its orders.
pub open spec fn ranking<T: Ranked>(second: bool) -> spec_fn(T::V) -> (int, int) {
    |item: T::V| T::rank(item, second)
}

/// The items in reverse.
fn turn_round<T: View>(items: Vec<T>) -> (turned: Vec<T>)
    ensures
        views(turned@) == views(items@).reverse(),
{
    let ghost all = views(items@);
    let mut rest = items;
    let mut turned: Vec<T> = Vec::new();
    while rest.len() > 0
        invariant
            all.len() == rest@.len() + turned@.len(),
            forall|k: int| 0 <= k < rest@.len() ==> all[k] == (#[trigger] rest@[k])@,
            forall|k: int|
                0 <= k < turned@.len() ==> all[all.len() - 1 - k] == (#[trigger] turned@[k])@,
        decreases rest@.len(),
    {
        match rest.pop() {
            Some(item) => {
                turned.push(item);
            },
            None => {},
        }
    }
    assert(views(turned@) =~= all.reverse());
    turned
}

/// Puts two sorted lists together.
fn merge<T: Ranked>(front: Vec<T>, behind: Vec<T>, second: bool) -> (out: Vec<T>)
    ensures
        views(out@) == merged(views(front@), views(behind@), ranking::<T>(second)),
{
    let ghost rank = ranking::<T>(second);
    let ghost whole = merged(views(front@), views(behind@), rank);
    let mut front = front;
    let mut behind = behind;
    let mut turned: Vec<T> = Vec::new();
    assert(whole + views(turned@).reverse() =~= whole);
    while front.len() > 0 && behind.len() > 0
        invariant
            rank == ranking::<T>(second),
            merged(views(front@), views(behind@), rank) + views(turned@).reverse() == whole,
        decreases front@.len() + behind@.len(),
    {
        let a = front[front.len() - 1].rank_of(second);
        let b = behind[behind.len() - 1].rank_of(second);
        let ghost one = views(front@);
        let ghost two = views(behind@);
        let ghost done = views(turned@);
        assert(one.last() == front@.last()@);
        assert(two.last() == behind@.last()@);
        let last = if a.0 < b.0 || (a.0 == b.0 && a.1 <= b.1) {
            let last = behind.pop();
            assert(views(behind@) =~= two.drop_last());
            last
        } else {
            let last = front.pop();
            assert(views(front@) =~= one.drop_last());
            last
        };
        match last {
            Some(item) => {
                turned.push(item);
                assert(views(turned@) =~= done.push(item@));
                assert(merged(views(front@), views(behind@), rank) + views(turned@).reverse()
                    =~= merged(one, two, rank) + done.reverse());
            },
            None => {},
        }
    }
    let ghost left = merged(views(front@), views(behind@), rank);
    let mut out = if front.len() == 0 {
        behind
    } else {
        front
    };
    assert(views(out@) =~= left);
    let mut rest = turn_round(turned);
    let ghost tail = views(rest@);
    let ghost head = views(out@);
    out.append(&mut rest);
    assert(views(out@) =~= head + tail);
    out
}

/// Sorts `items` by rank. Items of one rank keep their order.
pub fn sort_items<T: Ranked>(items: Vec<T>, second: bool) -> (sorted: Vec<T>)
    ensures
        views(sorted@) == in_order(views(items@), ranking::<T>(second)),
    decreases items@.len(),
{
    let ghost all = views(items@);
    let ghost rank = ranking::<T>(second);
    if items.len() < 2 {
        proof {
            if all.len() == 1 {
                let none = all.drop_last();
                assert(in_order(none, rank) == none);
                assert(placed(none, all.last(), rank) =~= all);
            }
        }
        return items;
    }
    let mut front = items;
    let middle: usize = front.len() / 2;
    let behind = front.split_off(middle);
    proof {
        assert(views(front@) + views(behind@) =~= all);
        lemma_in_order_merged(views(front@), views(behind@), rank);
    }
    merge(sort_items(front, second), sort_items(behind, second), second)
}

} // verus!
