//! Lists made up of what each item of another list gives.
use vstd::prelude::*;

verus! {

/// What `f` gives for each item of `list`, one after the other.
pub open spec fn gathered<A, B>(list: Seq<A>, f: spec_fn(A) -> Seq<B>) -> Seq<B>
    decreases list.len(),
{
    if list.len() == 0 {
        Seq::empty()
    } else {
        gathered(list.drop_last(), f) + f(list.last())
    }
}

/// One more item adds what `f` gives for it.
pub proof fn lemma_gathered_next<A, B>(list: Seq<A>, i: int, f: spec_fn(A) -> Seq<B>)
    requires
        0 <= i < list.len(),
    ensures
        gathered(list.take(i + 1), f) == gathered(list.take(i), f) + f(list[i]),
{
    assert(list.take(i + 1).drop_last() =~= list.take(i));
    assert(list.take(i + 1).last() == list[i]);
}

/// The beginning and the end of `gathered` over the first items of a list.
pub proof fn lemma_gathered_ends<A, B>(list: Seq<A>, f: spec_fn(A) -> Seq<B>)
    ensures
        gathered(list.take(0), f) == Seq::<B>::empty(),
        list.take(list.len() as int) == list,
{
    assert(list.take(0) =~= Seq::<A>::empty());
    assert(list.take(list.len() as int) =~= list);
}

/// What two lists give comes one after the other.
pub proof fn lemma_gathered_split<A, B>(a: Seq<A>, b: Seq<A>, f: spec_fn(A) -> Seq<B>)
    ensures
        gathered(a + b, f) == gathered(a, f) + gathered(b, f),
    decreases b.len(),
{
    if b.len() == 0 {
        assert(a + b =~= a);
        assert(gathered(a, f) + gathered(b, f) =~= gathered(a, f));
    } else {
        assert((a + b).drop_last() =~= a + b.drop_last());
        assert((a + b).last() == b.last());
        lemma_gathered_split(a, b.drop_last(), f);
        assert(gathered(a + b, f) =~= gathered(a, f) + gathered(b, f));
    }
}

/// Where `f` gives nothing for an item, the item can be left out; where it
/// gives a value, that value is among those gathered.
pub proof fn lemma_gathered_contains<A, B>(list: Seq<A>, f: spec_fn(A) -> Seq<B>, x: B)
    ensures
        gathered(list, f).contains(x) <==> exists|i: int|
            0 <= i < list.len() && (#[trigger] f(list[i])).contains(x),
    decreases list.len(),
{
    if list.len() > 0 {
        let rest = list.drop_last();
        let before = gathered(rest, f);
        let all = gathered(list, f);
        lemma_gathered_contains(rest, f, x);
        if all.contains(x) {
            let k = choose|k: int| 0 <= k < all.len() && all[k] == x;
            if k < before.len() {
                assert(before[k] == x);
                let i = choose|i: int| 0 <= i < rest.len() && (#[trigger] f(rest[i])).contains(x);
                assert(f(list[i]).contains(x));
            } else {
                assert(f(list.last())[k - before.len()] == x);
                assert(f(list[list.len() - 1]).contains(x));
            }
        }
        if exists|i: int| 0 <= i < list.len() && (#[trigger] f(list[i])).contains(x) {
            let i = choose|i: int| 0 <= i < list.len() && (#[trigger] f(list[i])).contains(x);
            if i < rest.len() {
                assert(f(rest[i]).contains(x));
                let k = choose|k: int| 0 <= k < before.len() && before[k] == x;
                assert(all[k] == x);
            } else {
                let last = f(list[i]);
                let k = choose|k: int| 0 <= k < last.len() && last[k] == x;
                assert(all[before.len() + k] == x);
            }
        }
    }
}

/// Where the items of the list at place `r` begin in all of them.
pub open spec fn offset<A>(lists: Seq<Seq<A>>, r: int) -> int {
    lists.take(r).flatten_alt().len() as int
}

/// An item of one of several lists stands behind those of the lists before it.
pub proof fn lemma_flat_at<A>(lists: Seq<Seq<A>>, r: int, i: int)
    requires
        0 <= r < lists.len(),
        0 <= i < lists[r].len(),
    ensures
        0 <= offset(lists, r) + i < lists.flatten_alt().len(),
        lists.flatten_alt()[offset(lists, r) + i] == lists[r][i],
    decreases lists.len(),
{
    let rest = lists.drop_last();
    if r < rest.len() {
        assert(rest.take(r) =~= lists.take(r));
        lemma_flat_at(rest, r, i);
    } else {
        assert(lists.take(r) =~= rest);
    }
}

/// Every item of all lists is one of one of them.
pub proof fn lemma_flat_from<A>(lists: Seq<Seq<A>>, n: int) -> (from: (int, int))
    requires
        0 <= n < lists.flatten_alt().len(),
    ensures
        0 <= from.0 < lists.len(),
        0 <= from.1 < lists[from.0].len(),
        n == offset(lists, from.0) + from.1,
        lists.flatten_alt()[n] == lists[from.0][from.1],
    decreases lists.len(),
{
    let rest = lists.drop_last();
    let start = rest.flatten_alt().len() as int;
    if n < start {
        let (r, i) = lemma_flat_from(rest, n);
        assert(rest.take(r) =~= lists.take(r));
        (r, i)
    } else {
        let last = lists.len() - 1;
        assert(lists.take(last) =~= rest);
        (last, n - start)
    }
}

/// A later list begins behind an earlier one.
pub proof fn lemma_offset_order<A>(lists: Seq<Seq<A>>, r: int, s: int)
    requires
        0 <= r < s <= lists.len(),
    ensures
        offset(lists, r) + lists[r].len() <= offset(lists, s),
    decreases s,
{
    let some = lists.take(s);
    assert(some.drop_last() =~= lists.take(s - 1));
    assert(some.last() == lists[s - 1]);
    assert(offset(lists, s) == offset(lists, s - 1) + lists[s - 1].len());
    if r < s - 1 {
        lemma_offset_order(lists, r, s - 1);
    }
}

/// Where each item gives one value at most, no more values than items are
/// gathered.
pub proof fn lemma_gathered_len<A, B>(list: Seq<A>, f: spec_fn(A) -> Seq<B>)
    requires
        forall|i: int| 0 <= i < list.len() ==> (#[trigger] f(list[i])).len() <= 1,
    ensures
        gathered(list, f).len() <= list.len(),
    decreases list.len(),
{
    if list.len() > 0 {
        let rest = list.drop_last();
        assert forall|i: int| 0 <= i < rest.len() implies (#[trigger] f(rest[i])).len() <= 1 by {
            assert(f(list[i]).len() <= 1);
        }
        lemma_gathered_len(rest, f);
        assert(f(list[list.len() - 1]).len() <= 1);
    }
}

} // verus!
