//! The order of changes: ascending by priority, changes of one priority in
//! the order in which they were emitted.

use crate::change::{change_views, Change, ChangeView};
use crate::config::{Config, ConfigView};
use vstd::prelude::*;

verus! {

/// The changes of `changes` whose priority against `config` is `priority`,
/// in their order.
pub open spec fn with_priority(changes: Seq<ChangeView>, config: ConfigView, priority: u8) -> Seq<
    ChangeView,
> {
    changes.filter(|change: ChangeView| change.priority(config) == Some(priority))
}

/// The changes of `changes` whose priority is below `limit`, ascending by
/// priority; changes of one priority keep their order.
pub open spec fn ordered_below(changes: Seq<ChangeView>, config: ConfigView, limit: nat) -> Seq<
    ChangeView,
>
    decreases limit,
{
    if limit == 0 {
        Seq::empty()
    } else {
        ordered_below(changes, config, (limit - 1) as nat) + with_priority(
            changes,
            config,
            (limit - 1) as u8,
        )
    }
}

/// `changes` sorted by priority, stably: the changes of priority 0 in their
/// order, then those of priority 1, and so on. A change without a priority
/// against `config` has no place in the result.
pub open spec fn ordered(changes: Seq<ChangeView>, config: ConfigView) -> Seq<ChangeView> {
    ordered_below(changes, config, 256)
}

/// Whether every change of `changes` has a priority against `config`.
pub open spec fn all_prioritised(changes: Seq<ChangeView>, config: ConfigView) -> bool {
    forall|i: int| 0 <= i < changes.len() ==> (#[trigger] changes[i]).priority(config) is Some
}

/// No changes, ordered, are no changes.
pub proof fn lemma_ordered_nothing(config: ConfigView, limit: nat)
    ensures
        ordered_below(Seq::empty(), config, limit) == Seq::<ChangeView>::empty(),
    decreases limit,
{
    if limit > 0 {
        lemma_ordered_nothing(config, (limit - 1) as nat);
        assert(with_priority(Seq::empty(), config, (limit - 1) as u8) =~= Seq::empty());
    }
}

/// A change is among the ordered changes below a limit exactly if it is
/// among the changes and its priority is below the limit.
pub proof fn lemma_ordered_below_contains(
    changes: Seq<ChangeView>,
    config: ConfigView,
    limit: nat,
    change: ChangeView,
)
    requires
        limit <= 256,
    ensures
        ordered_below(changes, config, limit).contains(change) <==> (changes.contains(change)
            && change.priority(config) is Some && change.priority(config)->0 < limit),
    decreases limit,
{
    if limit > 0 {
        let below = ordered_below(changes, config, (limit - 1) as nat);
        let pred = |c: ChangeView| c.priority(config) == Some((limit - 1) as u8);
        let here = changes.filter(pred);
        let all = ordered_below(changes, config, limit);
        assert(all == below + here);
        lemma_ordered_below_contains(changes, config, (limit - 1) as nat, change);
        if all.contains(change) {
            let i = choose|i: int| 0 <= i < all.len() && all[i] == change;
            if i < below.len() {
                assert(below[i] == change);
                assert(below.contains(change));
            } else {
                assert(here[i - below.len()] == change);
                assert(here.contains(change));
                changes.lemma_filter_pred(pred, i - below.len());
                changes.lemma_filter_contains_rev(pred, change);
            }
        }
        if changes.contains(change) && change.priority(config) is Some && change.priority(
            config,
        )->0 < limit {
            if change.priority(config)->0 < limit - 1 {
                assert(below.contains(change));
                let i = choose|i: int| 0 <= i < below.len() && below[i] == change;
                assert(all[i] == change);
            } else {
                assert(pred(change));
                let k = choose|k: int| 0 <= k < changes.len() && changes[k] == change;
                changes.lemma_filter_contains(pred, k);
                assert(here.contains(change));
                let i = choose|i: int| 0 <= i < here.len() && here[i] == change;
                assert(all[below.len() + i] == change);
            }
        }
    } else {
        assert(ordered_below(changes, config, limit) =~= Seq::empty());
    }
}

/// A change is among the ordered changes exactly if it is among the changes
/// and has a priority.
pub proof fn lemma_ordered_contains(changes: Seq<ChangeView>, config: ConfigView, change: ChangeView)
    ensures
        ordered(changes, config).contains(change) <==> (changes.contains(change)
            && change.priority(config) is Some),
{
    lemma_ordered_below_contains(changes, config, 256, change);
}

/// The ordered changes below a limit have priorities below it and ascend by
/// priority.
pub proof fn lemma_ordered_below_ascends(changes: Seq<ChangeView>, config: ConfigView, limit: nat)
    requires
        limit <= 256,
    ensures
        forall|i: int|
            0 <= i < ordered_below(changes, config, limit).len() ==> (#[trigger] ordered_below(
                changes,
                config,
                limit,
            )[i]).priority(config) is Some && ordered_below(changes, config, limit)[i].priority(
                config,
            )->0 < limit,
        forall|i: int, j: int|
            0 <= i <= j < ordered_below(changes, config, limit).len() ==> (#[trigger] ordered_below(
                changes,
                config,
                limit,
            )[i]).priority(config)->0 <= (#[trigger] ordered_below(changes, config, limit)[j]).priority(
                config,
            )->0,
    decreases limit,
{
    if limit > 0 {
        let below = ordered_below(changes, config, (limit - 1) as nat);
        let pred = |c: ChangeView| c.priority(config) == Some((limit - 1) as u8);
        let here = changes.filter(pred);
        let all = ordered_below(changes, config, limit);
        lemma_ordered_below_ascends(changes, config, (limit - 1) as nat);
        assert forall|i: int| 0 <= i < all.len() implies (#[trigger] all[i]).priority(config) is Some
            && all[i].priority(config)->0 < limit && (i < below.len() ==> all[i] == below[i]) && (i
            >= below.len() ==> all[i].priority(config) == Some((limit - 1) as u8)) by {
            if i < below.len() {
                assert(all[i] == below[i]);
            } else {
                assert(all[i] == here[i - below.len()]);
                changes.lemma_filter_pred(pred, i - below.len());
            }
        }
    }
}

/// The ordered changes ascend by priority.
pub proof fn lemma_ordered_ascends(changes: Seq<ChangeView>, config: ConfigView)
    ensures
        forall|i: int, j: int|
            0 <= i <= j < ordered(changes, config).len() ==> (#[trigger] ordered(
                changes,
                config,
            )[i]).priority(config)->0 <= (#[trigger] ordered(changes, config)[j]).priority(
                config,
            )->0,
{
    lemma_ordered_below_ascends(changes, config, 256);
}

/// Whether the priority of a change against `config` is below `limit`.
pub open spec fn ranks_below(config: ConfigView, limit: nat) -> spec_fn(ChangeView) -> bool {
    |change: ChangeView| change.priority(config) is Some && change.priority(config)->0 < limit
}

/// The changes that pass one of two tests that no change passes both of
/// are, as a multiset, those that pass the one and those that pass the
/// other.
pub proof fn lemma_filter_splits<A>(
    list: Seq<A>,
    either: spec_fn(A) -> bool,
    one: spec_fn(A) -> bool,
    other: spec_fn(A) -> bool,
)
    requires
        forall|item: A| #[trigger] either(item) <==> (one(item) || other(item)),
        forall|item: A| !(#[trigger] one(item) && other(item)),
    ensures
        list.filter(either).to_multiset() == list.filter(one).to_multiset().add(
            list.filter(other).to_multiset(),
        ),
    decreases list.len(),
{
    broadcast use vstd::seq_lib::group_to_multiset_ensures;

    if list.len() == 0 {
        assert(list.filter(either) =~= Seq::empty());
        assert(list.filter(one) =~= Seq::empty());
        assert(list.filter(other) =~= Seq::empty());
        assert(list.filter(either).to_multiset() =~= list.filter(one).to_multiset().add(
            list.filter(other).to_multiset(),
        ));
    } else {
        let front = list.drop_last();
        let last = list.last();
        lemma_filter_splits(front, either, one, other);
        assert(front.push(last) =~= list);
        front.lemma_filter_push(last, either);
        front.lemma_filter_push(last, one);
        front.lemma_filter_push(last, other);
        assert(list.filter(either).to_multiset() =~= list.filter(one).to_multiset().add(
            list.filter(other).to_multiset(),
        ));
    }
}

/// The ordered changes below a limit are, as a multiset, the changes whose
/// priority is below the limit.
pub proof fn lemma_ordered_below_counts(changes: Seq<ChangeView>, config: ConfigView, limit: nat)
    requires
        limit <= 256,
    ensures
        ordered_below(changes, config, limit).to_multiset() == changes.filter(
            ranks_below(config, limit),
        ).to_multiset(),
    decreases limit,
{
    broadcast use vstd::seq_lib::group_to_multiset_ensures;

    if limit == 0 {
        let none = ranks_below(config, 0);
        assert(changes.all(|change: ChangeView| !none(change)));
        changes.lemma_all_neg_filter_empty(none);
        assert(changes.filter(none) =~= Seq::empty());
    } else {
        let below = ordered_below(changes, config, (limit - 1) as nat);
        let here = with_priority(changes, config, (limit - 1) as u8);
        lemma_ordered_below_counts(changes, config, (limit - 1) as nat);
        vstd::seq_lib::lemma_multiset_commutative(below, here);
        lemma_filter_splits(
            changes,
            ranks_below(config, limit),
            ranks_below(config, (limit - 1) as nat),
            |change: ChangeView| change.priority(config) == Some((limit - 1) as u8),
        );
    }
}

/// Changes that all have a priority are kept by the ordering, each as often
/// as it occurs: the ordered changes are a rearrangement of the changes.
pub proof fn lemma_ordered_rearranges(changes: Seq<ChangeView>, config: ConfigView)
    requires
        all_prioritised(changes, config),
    ensures
        ordered(changes, config).to_multiset() == changes.to_multiset(),
        ordered(changes, config).len() == changes.len(),
{
    broadcast use vstd::seq_lib::group_to_multiset_ensures;

    lemma_ordered_below_counts(changes, config, 256);
    let all = ranks_below(config, 256);
    lemma_filter_keeps_all(changes, all);
    vstd::seq_lib::to_multiset_len(ordered(changes, config));
    vstd::seq_lib::to_multiset_len(changes);
}

/// A test that every item passes filters nothing out.
pub proof fn lemma_filter_keeps_all<A>(list: Seq<A>, pred: spec_fn(A) -> bool)
    requires
        forall|i: int| 0 <= i < list.len() ==> pred(#[trigger] list[i]),
    ensures
        list.filter(pred) == list,
    decreases list.len(),
{
    if list.len() == 0 {
        assert(list.filter(pred) =~= list);
    } else {
        let front = list.drop_last();
        assert forall|i: int| 0 <= i < front.len() implies pred(#[trigger] front[i]) by {
            assert(front[i] == list[i]);
        }
        lemma_filter_keeps_all(front, pred);
        assert(front.push(list.last()) =~= list);
        front.lemma_filter_push(list.last(), pred);
    }
}

/// Filtering by one test and then by another is filtering by both.
pub proof fn lemma_filter_twice<A>(
    list: Seq<A>,
    first: spec_fn(A) -> bool,
    second: spec_fn(A) -> bool,
    both: spec_fn(A) -> bool,
)
    requires
        forall|item: A| #[trigger] both(item) <==> (first(item) && second(item)),
    ensures
        list.filter(first).filter(second) == list.filter(both),
    decreases list.len(),
{
    if list.len() == 0 {
        assert(list.filter(first) =~= Seq::empty());
        assert(list.filter(both) =~= Seq::empty());
        assert(list.filter(first).filter(second) =~= Seq::empty());
    } else {
        let front = list.drop_last();
        let last = list.last();
        lemma_filter_twice(front, first, second, both);
        assert(front.push(last) =~= list);
        front.lemma_filter_push(last, first);
        front.lemma_filter_push(last, both);
        if first(last) {
            front.filter(first).lemma_filter_push(last, second);
        }
    }
}

/// Tests that agree on every item of a list keep the same items of it.
pub proof fn lemma_filter_alike<A>(list: Seq<A>, one: spec_fn(A) -> bool, other: spec_fn(A) -> bool)
    requires
        forall|i: int| 0 <= i < list.len() ==> one(#[trigger] list[i]) == other(list[i]),
    ensures
        list.filter(one) == list.filter(other),
    decreases list.len(),
{
    if list.len() == 0 {
        assert(list.filter(one) =~= Seq::empty());
        assert(list.filter(other) =~= Seq::empty());
    } else {
        let front = list.drop_last();
        let last = list.last();
        assert forall|i: int| 0 <= i < front.len() implies one(#[trigger] front[i]) == other(
            front[i],
        ) by {
            assert(front[i] == list[i]);
        }
        lemma_filter_alike(front, one, other);
        assert(front.push(last) =~= list);
        assert(last == list[list.len() - 1]);
        front.lemma_filter_push(last, one);
        front.lemma_filter_push(last, other);
    }
}

/// Whether a change passes `pred` and has a priority below `limit`.
pub open spec fn passing_below(
    config: ConfigView,
    limit: nat,
    pred: spec_fn(ChangeView) -> bool,
) -> spec_fn(ChangeView) -> bool {
    |change: ChangeView|
        pred(change) && change.priority(config) is Some && change.priority(config)->0 < limit
}

/// Whether a change passes `pred` and has the priority `priority`.
pub open spec fn passing_at(
    config: ConfigView,
    priority: u8,
    pred: spec_fn(ChangeView) -> bool,
) -> spec_fn(ChangeView) -> bool {
    |change: ChangeView| change.priority(config) == Some(priority) && pred(change)
}

/// Of the changes that pass a test, the ordered changes below a limit hold
/// as many as have a priority below the limit.
pub proof fn lemma_ordered_below_keeps_count(
    changes: Seq<ChangeView>,
    config: ConfigView,
    limit: nat,
    pred: spec_fn(ChangeView) -> bool,
)
    requires
        limit <= 256,
    ensures
        ordered_below(changes, config, limit).filter(pred).len() == changes.filter(
            passing_below(config, limit, pred),
        ).len(),
    decreases limit,
{
    broadcast use vstd::seq_lib::group_to_multiset_ensures;

    if limit == 0 {
        let none = passing_below(config, 0, pred);
        assert(changes.all(|change: ChangeView| !none(change)));
        changes.lemma_all_neg_filter_empty(none);
        assert(ordered_below(changes, config, 0).filter(pred) =~= Seq::empty());
    } else {
        let k = (limit - 1) as u8;
        let below = ordered_below(changes, config, (limit - 1) as nat);
        let at = |change: ChangeView| change.priority(config) == Some(k);
        let here = changes.filter(at);
        assert(ordered_below(changes, config, limit) == below + here);
        lemma_ordered_below_keeps_count(changes, config, (limit - 1) as nat, pred);
        Seq::filter_distributes_over_add(below, here, pred);
        lemma_filter_twice(changes, at, pred, passing_at(config, k, pred));
        lemma_filter_splits(
            changes,
            passing_below(config, limit, pred),
            passing_below(config, (limit - 1) as nat, pred),
            passing_at(config, k, pred),
        );
        vstd::seq_lib::to_multiset_len(changes.filter(passing_below(config, limit, pred)));
        vstd::seq_lib::to_multiset_len(
            changes.filter(passing_below(config, (limit - 1) as nat, pred)),
        );
        vstd::seq_lib::to_multiset_len(changes.filter(passing_at(config, k, pred)));
    }
}

/// Of the changes that pass a test, ordering keeps as many as there are,
/// where all changes have a priority.
pub proof fn lemma_ordered_keeps_count(
    changes: Seq<ChangeView>,
    config: ConfigView,
    pred: spec_fn(ChangeView) -> bool,
)
    requires
        all_prioritised(changes, config),
    ensures
        ordered(changes, config).filter(pred).len() == changes.filter(pred).len(),
{
    lemma_ordered_below_keeps_count(changes, config, 256, pred);
    lemma_filter_alike(changes, passing_below(config, 256, pred), pred);
}

/// The changes of the priority numbered `q`.
spec fn group(changes: Seq<ChangeView>, config: ConfigView, q: int) -> Seq<ChangeView> {
    with_priority(changes, config, q as u8)
}

/// Sorts `changes` by their priority against `config`; changes of one
/// priority keep their order.
pub(crate) fn sort_by_priority(changes: Vec<Change>, config: &Config) -> (sorted: Vec<Change>)
    requires
        all_prioritised(change_views(changes@), config@),
    ensures
        change_views(sorted@) == ordered(change_views(changes@), config@),
{
    let ghost all = change_views(changes@);
    let ghost cfg = config@;
    let mut buckets: Vec<Vec<Change>> = Vec::new();
    let mut p: usize = 0;
    while p < 256
        invariant
            p <= 256,
            buckets.len() == p,
            forall|q: int| 0 <= q < p ==> (#[trigger] buckets[q])@.len() == 0,
        decreases 256 - p,
    {
        buckets.push(Vec::new());
        p += 1;
    }
    proof {
        assert(all.take(0) =~= Seq::empty());
        assert forall|q: int| 0 <= q < 256 implies change_views((#[trigger] buckets[q])@)
            == group(all.take(0), cfg, q) by {
            assert(change_views(buckets[q]@) =~= Seq::empty());
        }
    }
    let ghost items = changes@;
    for change in it: changes.into_iter()
        invariant
            it.seq() == items,
            all == change_views(items),
            cfg == config@,
            all_prioritised(all, cfg),
            buckets.len() == 256,
            forall|q: int|
                0 <= q < 256 ==> change_views((#[trigger] buckets[q])@) == group(
                    all.take(it.index() as int),
                    cfg,
                    q,
                ),
    {
        let ghost n = it.index() as int;
        let ghost before = buckets@;
        assert(all[n] == change@);
        let priority = match change.priority(config) {
            Ok(priority) => priority,
            Err(_) => 0,
        };
        proof {
            assert(all.take(n + 1) =~= all.take(n).push(change@));
            assert forall|q: int| 0 <= q < 256 implies #[trigger] group(all.take(n + 1), cfg, q)
                == (if q == priority {
                group(all.take(n), cfg, q).push(change@)
            } else {
                group(all.take(n), cfg, q)
            }) by {
                all.take(n).lemma_filter_push(
                    change@,
                    |c: ChangeView| c.priority(cfg) == Some(q as u8),
                );
            }
        }
        buckets[priority as usize].push(change);
        proof {
            assert forall|q: int| 0 <= q < 256 implies change_views((#[trigger] buckets[q])@)
                == group(all.take(n + 1), cfg, q) by {
                if q == priority {
                    assert(change_views(buckets[q]@) =~= change_views(before[q]@).push(change@));
                } else {
                    assert(buckets[q] == before[q]);
                }
            }
        }
    }
    proof {
        assert(all.take(all.len() as int) =~= all);
    }
    let mut sorted: Vec<Change> = Vec::new();
    let ghost filled = buckets@;
    for bucket in it: buckets.into_iter()
        invariant
            it.seq() == filled,
            filled.len() == 256,
            forall|q: int|
                0 <= q < 256 ==> change_views((#[trigger] filled[q])@) == group(all, cfg, q),
            change_views(sorted@) == ordered_below(all, cfg, it.index() as nat),
    {
        let ghost sofar = change_views(sorted@);
        let mut bucket = bucket;
        let ghost added = change_views(bucket@);
        sorted.append(&mut bucket);
        assert(change_views(sorted@) =~= sofar + added);
    }
    sorted
}

} // verus!
