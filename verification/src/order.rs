//! A stable sort of items that carry a replay position.

use vstd::prelude::*;

verus! {

/// Where an item stands in a replay: its block time, then its log index, then
/// the rank of its action.
#[derive(Clone, Copy, Debug, PartialEq, Eq, Structural)]
pub struct Position {
    pub ts_ms: u64,
    pub seq: u64,
    pub rank: u8,
}

/// `a` stands at or before `b`: time first, then log index, then rank.
pub open spec fn at_or_before(a: Position, b: Position) -> bool {
    if a.ts_ms != b.ts_ms {
        a.ts_ms < b.ts_ms
    } else if a.seq != b.seq {
        a.seq < b.seq
    } else {
        a.rank <= b.rank
    }
}

/// An item with a replay position.
pub trait Positioned {
    spec fn spec_position(&self) -> Position;

    fn position(&self) -> (position: Position)
        ensures
            position == self.spec_position(),
    ;
}

/// No item stands before one that precedes it.
pub open spec fn in_order<T: Positioned>(items: Seq<T>) -> bool {
    forall|i: int, j: int|
        0 <= i <= j < items.len() ==> at_or_before(
            (#[trigger] items[i]).spec_position(),
            (#[trigger] items[j]).spec_position(),
        )
}

/// The items at position `p`, in the order in which they stand.
pub open spec fn at_position<T: Positioned>(items: Seq<T>, p: Position) -> Seq<T> {
    items.filter(|item: T| item.spec_position() == p)
}

/// `sorted` is `items` in replay order, with items of one position left in the
/// order they came in.
pub open spec fn is_stable_sort<T: Positioned>(items: Seq<T>, sorted: Seq<T>) -> bool {
    &&& in_order(sorted)
    &&& forall|p: Position| #[trigger] at_position(sorted, p) == at_position(items, p)
    &&& sorted.to_multiset() == items.to_multiset()
}

proof fn lemma_at_position_push<T: Positioned>(items: Seq<T>, item: T, p: Position)
    ensures
        at_position(items.push(item), p) == (if item.spec_position() == p {
            at_position(items, p).push(item)
        } else {
            at_position(items, p)
        }),
{
    reveal(Seq::filter);
    assert(items.push(item).drop_last() =~= items);
}

proof fn lemma_at_position_absent<T: Positioned>(items: Seq<T>, p: Position)
    requires
        forall|i: int| 0 <= i < items.len() ==> (#[trigger] items[i]).spec_position() != p,
    ensures
        at_position(items, p) == Seq::<T>::empty(),
    decreases items.len(),
{
    reveal(Seq::filter);
    if items.len() > 0 {
        let rest = items.drop_last();
        assert forall|i: int| 0 <= i < rest.len() implies (#[trigger] rest[i]).spec_position()
            != p by {
            assert(rest[i] == items[i]);
        }
        lemma_at_position_absent(rest, p);
        assert(items.last() == items[items.len() - 1]);
    }
    assert(at_position(items, p) =~= Seq::<T>::empty());
}

proof fn lemma_insert_keeps_order<T: Positioned>(items: Seq<T>, at: int, item: T)
    requires
        in_order(items),
        0 <= at <= items.len(),
        at > 0 ==> at_or_before(items[at - 1].spec_position(), item.spec_position()),
        forall|i: int|
            at <= i < items.len() ==> !at_or_before(
                (#[trigger] items[i]).spec_position(),
                item.spec_position(),
            ),
    ensures
        in_order(items.insert(at, item)),
        items.insert(at, item).to_multiset() == items.to_multiset().insert(item),
        forall|p: Position| #[trigger]
            at_position(items.insert(at, item), p) == at_position(items.push(item), p),
{
    let head = items.subrange(0, at);
    let tail = items.subrange(at, items.len() as int);
    let out = items.insert(at, item);
    assert(items =~= head + tail);
    assert forall|i: int, j: int| 0 <= i <= j < out.len() implies at_or_before(
        (#[trigger] out[i]).spec_position(),
        (#[trigger] out[j]).spec_position(),
    ) by {
        let a = if i < at {
            items[i]
        } else if i == at {
            item
        } else {
            items[i - 1]
        };
        let b = if j < at {
            items[j]
        } else if j == at {
            item
        } else {
            items[j - 1]
        };
        assert(out[i] == a && out[j] == b);
        if i < at && j == at {
            assert(at_or_before(items[i].spec_position(), items[at - 1].spec_position()));
        }
    }
    assert forall|p: Position| #[trigger]
        at_position(out, p) == at_position(items.push(item), p) by {
        let pred = |x: T| x.spec_position() == p;
        Seq::filter_distributes_over_add(head.push(item), tail, pred);
        Seq::filter_distributes_over_add(head, tail, pred);
        lemma_at_position_push(head, item, p);
        lemma_at_position_push(items, item, p);
        if item.spec_position() == p {
            assert forall|i: int| 0 <= i < tail.len() implies (#[trigger] tail[i]).spec_position()
                != p by {
                assert(tail[i] == items[at + i]);
            }
            lemma_at_position_absent(tail, p);
            assert(at_position(out, p) =~= at_position(items.push(item), p));
        }
    }
    vstd::seq_lib::lemma_multiset_commutative(head.push(item), tail);
    vstd::seq_lib::lemma_multiset_commutative(head, tail);
    head.to_multiset_ensures();
    assert(out =~= head.push(item) + tail);
    assert(out.to_multiset() =~= items.to_multiset().insert(item));
}

/// Two stable sorts of the same items are the same sequence.
pub proof fn law_stable_sort_is_unique<T: Positioned>(a: Seq<T>, b: Seq<T>)
    requires
        in_order(a),
        in_order(b),
        forall|p: Position| #[trigger] at_position(a, p) == at_position(b, p),
    ensures
        a == b,
    decreases a.len(),
{
    if a.len() == 0 {
        if b.len() > 0 {
            let p = b.last().spec_position();
            assert(b =~= b.drop_last().push(b.last()));
            lemma_at_position_push(b.drop_last(), b.last(), p);
            lemma_at_position_absent(a, p);
            assert(at_position(a, p).len() == at_position(b, p).len());
        }
        assert(a =~= b);
    } else {
        let p = a.last().spec_position();
        assert(a =~= a.drop_last().push(a.last()));
        lemma_at_position_push(a.drop_last(), a.last(), p);
        assert(at_position(a, p) == at_position(b, p));
        if b.len() == 0 {
            lemma_at_position_absent(b, p);
        }
        assert(b.len() > 0);
        let q = b.last().spec_position();
        assert(b =~= b.drop_last().push(b.last()));
        lemma_at_position_push(b.drop_last(), b.last(), q);
        assert(at_position(a, q) == at_position(b, q));
        lemma_somewhere(a, q);
        lemma_somewhere(b, p);
        let i = choose|i: int| 0 <= i < a.len() && (#[trigger] a[i]).spec_position() == q;
        let j = choose|j: int| 0 <= j < b.len() && (#[trigger] b[j]).spec_position() == p;
        assert(at_or_before(a[i].spec_position(), a[a.len() - 1].spec_position()));
        assert(at_or_before(b[j].spec_position(), b[b.len() - 1].spec_position()));
        assert(p == q);
        assert(a.last() == at_position(a, p).last());
        assert(b.last() == at_position(b, p).last());
        let a1 = a.drop_last();
        let b1 = b.drop_last();
        assert forall|r: Position| #[trigger] at_position(a1, r) == at_position(b1, r) by {
            lemma_at_position_push(a1, a.last(), r);
            lemma_at_position_push(b1, b.last(), r);
            assert(at_position(a, r) == at_position(b, r));
            if r == p {
                assert(at_position(a, r).drop_last() =~= at_position(a1, r));
                assert(at_position(b, r).drop_last() =~= at_position(b1, r));
            }
        }
        assert(in_order(a1)) by {
            assert forall|i: int, j: int| 0 <= i <= j < a1.len() implies at_or_before(
                (#[trigger] a1[i]).spec_position(),
                (#[trigger] a1[j]).spec_position(),
            ) by {
                assert(a1[i] == a[i] && a1[j] == a[j]);
            }
        }
        assert(in_order(b1)) by {
            assert forall|i: int, j: int| 0 <= i <= j < b1.len() implies at_or_before(
                (#[trigger] b1[i]).spec_position(),
                (#[trigger] b1[j]).spec_position(),
            ) by {
                assert(b1[i] == b[i] && b1[j] == b[j]);
            }
        }
        law_stable_sort_is_unique(a1, b1);
    }
}

proof fn lemma_somewhere<T: Positioned>(items: Seq<T>, p: Position)
    requires
        at_position(items, p).len() > 0,
    ensures
        exists|i: int| 0 <= i < items.len() && (#[trigger] items[i]).spec_position() == p,
{
    if forall|i: int| 0 <= i < items.len() ==> (#[trigger] items[i]).spec_position() != p {
        lemma_at_position_absent(items, p);
    }
}

/// What is in order already is its own stable sort.
pub proof fn law_sorting_again_changes_nothing<T: Positioned>(items: Seq<T>, sorted: Seq<T>)
    requires
        in_order(items),
        is_stable_sort(items, sorted),
    ensures
        sorted == items,
{
    law_stable_sort_is_unique(sorted, items);
}

fn stands_at_or_before(a: Position, b: Position) -> (yes: bool)
    ensures
        yes == at_or_before(a, b),
{
    if a.ts_ms != b.ts_ms {
        a.ts_ms < b.ts_ms
    } else if a.seq != b.seq {
        a.seq < b.seq
    } else {
        a.rank <= b.rank
    }
}

/// Puts the items in replay order. Items of one position keep the order they
/// came in. Items that come in order are moved once each.
pub fn stable_sort<T: Positioned>(items: Vec<T>) -> (sorted: Vec<T>)
    ensures
        is_stable_sort(items@, sorted@),
{
    let ghost all = items@;
    let mut sorted: Vec<T> = Vec::new();
    assert(items@.take(0) =~= Seq::<T>::empty());
    for item in it: items
        invariant
            it.seq() == all,
            is_stable_sort(all.take(it.index() as int), sorted@),
    {
        let ghost done = it.index() as int;
        let ghost before = sorted@;
        let position = item.position();
        let mut at: usize = sorted.len();
        while at > 0 && !stands_at_or_before(sorted[at - 1].position(), position)
            invariant
                at <= sorted@.len(),
                sorted@ == before,
                position == item.spec_position(),
                forall|i: int|
                    at <= i < before.len() ==> !at_or_before(
                        (#[trigger] before[i]).spec_position(),
                        position,
                    ),
            decreases at,
        {
            at = at - 1;
        }
        proof {
            lemma_insert_keeps_order(before, at as int, item);
            assert(all.take(done + 1) =~= all.take(done).push(item));
            assert forall|p: Position| #[trigger]
                at_position(before.insert(at as int, item), p) == at_position(
                    all.take(done + 1),
                    p,
                ) by {
                lemma_at_position_push(before, item, p);
                lemma_at_position_push(all.take(done), item, p);
                assert(at_position(before, p) == at_position(all.take(done), p));
            }
            all.take(done).to_multiset_ensures();
        }
        sorted.insert(at, item);
    }
    assert(all.take(all.len() as int) =~= all);
    sorted
}

} // verus!
