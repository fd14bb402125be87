//! Sets of strings, in insertion order.

use vstd::prelude::*;

verus! {

/// `list` with `item` added at the end unless it is present.
pub open spec fn with_item(list: Seq<Seq<char>>, item: Seq<char>) -> Seq<Seq<char>> {
    if list.contains(item) {
        list
    } else {
        list.push(item)
    }
}

/// `list` after the items of `more` were added one by one, in their order.
pub open spec fn with_items(list: Seq<Seq<char>>, more: Seq<Seq<char>>) -> Seq<Seq<char>>
    decreases more.len(),
{
    if more.len() == 0 {
        list
    } else {
        with_item(with_items(list, more.drop_last()), more.last())
    }
}

/// The items of `list` that `other` does not hold, in the order of `list`.
pub open spec fn missing_from(list: Seq<Seq<char>>, other: Seq<Seq<char>>) -> Seq<Seq<char>> {
    list.filter(|item: Seq<char>| !other.contains(item))
}

/// No item of a list is missing from the list itself.
pub proof fn lemma_missing_from_itself(list: Seq<Seq<char>>)
    ensures
        missing_from(list, list) == Seq::<Seq<char>>::empty(),
{
    lemma_none_missing(list, list, list.len() as int);
    assert(list.take(list.len() as int) =~= list);
}

/// The first `n` items of `list` are not missing from `other` where
/// `other` holds every item of `list`.
proof fn lemma_none_missing(list: Seq<Seq<char>>, other: Seq<Seq<char>>, n: int)
    requires
        0 <= n <= list.len(),
        forall|i: int| 0 <= i < list.len() ==> other.contains(#[trigger] list[i]),
    ensures
        missing_from(list.take(n), other) == Seq::<Seq<char>>::empty(),
    decreases n,
{
    let absent = |item: Seq<char>| !other.contains(item);
    if n == 0 {
        assert(list.take(0) =~= Seq::empty());
        assert(list.take(0).filter(absent) =~= Seq::empty());
    } else {
        lemma_none_missing(list, other, n - 1);
        assert(list.take(n) =~= list.take(n - 1).push(list[n - 1]));
        list.take(n - 1).lemma_filter_push(list[n - 1], absent);
    }
}

/// Every item of a list is missing from the empty list.
pub proof fn lemma_missing_from_nothing(list: Seq<Seq<char>>)
    ensures
        missing_from(list, Seq::empty()) == list,
    decreases list.len(),
{
    let absent = |item: Seq<char>| !Seq::<Seq<char>>::empty().contains(item);
    if list.len() == 0 {
        assert(list.filter(absent) =~= list);
    } else {
        lemma_missing_from_nothing(list.drop_last());
        assert(list.drop_last().push(list.last()) =~= list);
        list.drop_last().lemma_filter_push(list.last(), absent);
    }
}

/// Adding an item keeps the items distinct.
pub proof fn lemma_with_item(list: Seq<Seq<char>>, item: Seq<char>)
    requires
        list.no_duplicates(),
    ensures
        with_item(list, item).no_duplicates(),
{
    let next = with_item(list, item);
    if !list.contains(item) {
        assert forall|i: int, j: int| 0 <= i < next.len() && 0 <= j < next.len() && i != j implies next[i]
            != next[j] by {
            if i < list.len() {
                assert(list.contains(next[i]));
            }
            if j < list.len() {
                assert(list.contains(next[j]));
            }
        }
    }
}

/// Adding an item acts on the set as an insertion.
pub proof fn lemma_with_item_set(list: Seq<Seq<char>>, item: Seq<char>)
    ensures
        with_item(list, item).to_set() == list.to_set().insert(item),
{
    let next = with_item(list, item);
    assert forall|x: Seq<char>| next.to_set().contains(x) <==> list.to_set().insert(item).contains(
        x,
    ) by {
        if next.contains(x) {
            let i = choose|i: int| 0 <= i < next.len() && next[i] == x;
            if i < list.len() {
                assert(list[i] == x);
            }
        }
        if list.contains(x) {
            let i = choose|i: int| 0 <= i < list.len() && list[i] == x;
            assert(next[i] == x);
        }
        if x == item && !list.contains(item) {
            assert(next[list.len() as int] == x);
        }
    }
    assert(next.to_set() =~= list.to_set().insert(item));
}

/// Adding a list of items acts on the sets as the union, and keeps the
/// items distinct where they were.
pub proof fn lemma_with_items(list: Seq<Seq<char>>, more: Seq<Seq<char>>)
    ensures
        list.no_duplicates() ==> with_items(list, more).no_duplicates(),
        with_items(list, more).to_set() == list.to_set().union(more.to_set()),
    decreases more.len(),
{
    if more.len() == 0 {
        assert(more.to_set() =~= Set::<Seq<char>>::empty());
        assert(list.to_set() =~= list.to_set().union(more.to_set()));
    } else {
        let front = more.drop_last();
        lemma_with_items(list, front);
        if list.no_duplicates() {
            lemma_with_item(with_items(list, front), more.last());
        }
        lemma_with_item_set(with_items(list, front), more.last());
        assert(more.to_set() =~= front.to_set().insert(more.last())) by {
            assert forall|x: Seq<char>| more.to_set().contains(x) <==> front.to_set().insert(
                more.last(),
            ).contains(x) by {
                if more.contains(x) {
                    let i = choose|i: int| 0 <= i < more.len() && more[i] == x;
                    if i < front.len() {
                        assert(front[i] == x);
                    }
                }
                if front.contains(x) {
                    let i = choose|i: int| 0 <= i < front.len() && front[i] == x;
                    assert(more[i] == x);
                }
                if x == more.last() {
                    assert(more[more.len() - 1] == x);
                }
            }
        }
        assert(with_items(list, more).to_set() =~= list.to_set().union(more.to_set()));
    }
}

/// A set of strings that keeps its items in insertion order.
#[derive(Debug)]
pub struct StrSet {
    pub(crate) items: Vec<String>,
}

impl View for StrSet {
    type V = Seq<Seq<char>>;

    /// The items in insertion order.
    closed spec fn view(&self) -> Seq<Seq<char>> {
        Seq::new(self.items@.len(), |i: int| self.items@[i]@)
    }
}

impl StrSet {
    /// Every item occurs once.
    #[verifier::type_invariant]
    pub open spec fn wf(self) -> bool {
        self@.no_duplicates()
    }

    /// Creates an empty set.
    pub fn new() -> (set: Self)
        ensures
            set@ == Seq::<Seq<char>>::empty(),
    {
        let set = StrSet { items: Vec::new() };
        assert(set@ =~= Seq::<Seq<char>>::empty());
        set
    }

    /// The number of items.
    pub fn len(&self) -> (n: usize)
        ensures
            n == self@.len(),
    {
        self.items.len()
    }

    /// Whether the set holds no item.
    pub fn is_empty(&self) -> (empty: bool)
        ensures
            empty == (self@.len() == 0),
    {
        self.items.len() == 0
    }

    /// Whether the set holds `item`.
    pub fn contains(&self, item: &str) -> (found: bool)
        ensures
            self.wf(),
            found == self@.contains(item@),
    {
        proof {
            use_type_invariant(self);
        }
        let wanted = String::from_str(item);
        let mut i: usize = 0;
        while i < self.items.len()
            invariant
                self.wf(),
                i <= self.items@.len(),
                wanted@ == item@,
                forall|j: int| 0 <= j < i ==> (#[trigger] self@[j]) != item@,
            decreases self.items@.len() - i,
        {
            if self.items[i] == wanted {
                assert(self@[i as int] == item@);
                return true;
            }
            i += 1;
        }
        false
    }

    /// The item at position `i` of the insertion order.
    pub fn item_at(&self, i: usize) -> (item: &String)
        requires
            i < self@.len(),
        ensures
            self.wf(),
            item@ == self@[i as int],
    {
        proof {
            use_type_invariant(self);
        }
        &self.items[i]
    }

    /// Adds `item`; returns whether it was new.
    pub fn insert(&mut self, item: String) -> (added: bool)
        ensures
            final(self).wf(),
            final(self)@ == with_item(old(self)@, item@),
            added == !old(self)@.contains(item@),
    {
        let ghost before = self@;
        if self.contains(item.as_str()) {
            false
        } else {
            let mut items = Vec::new();
            core::mem::swap(&mut self.items, &mut items);
            items.push(item);
            proof {
                lemma_with_item(before, item@);
                let after = Seq::new(items@.len(), |i: int| items@[i]@);
                assert(after =~= with_item(before, item@));
            }
            self.items = items;
            true
        }
    }

    /// Adds every item of `other`, in its order.
    pub fn extend(&mut self, other: StrSet)
        ensures
            final(self).wf(),
            final(self)@ == with_items(old(self)@, other@),
    {
        proof {
            use_type_invariant(&*self);
        }
        let ghost start = self@;
        let ghost more = other@;
        let incoming = other.items;
        let ghost raw = incoming@;
        for item in it: incoming.into_iter()
            invariant
                it.seq() == raw,
                more.len() == raw.len(),
                forall|i: int| 0 <= i < raw.len() ==> (#[trigger] more[i]) == raw[i]@,
                self.wf(),
                self@ == with_items(start, more.take(it.index() as int)),
        {
            proof {
                assert(more.take(it.index() + 1).drop_last() =~= more.take(it.index() as int));
            }
            self.insert(item);
        }
        proof {
            assert(more.take(more.len() as int) =~= more);
        }
    }

    /// The items in insertion order.
    pub fn items(&self) -> (items: &Vec<String>)
        ensures
            self.wf(),
            items.deep_view() == self@,
    {
        proof {
            use_type_invariant(self);
            assert(self.items.deep_view() =~= self@);
        }
        &self.items
    }

    /// The items that `other` does not hold, in insertion order.
    pub fn difference(&self, other: &StrSet) -> (missing: Vec<String>)
        ensures
            missing.deep_view() == missing_from(self@, other@),
    {
        let ghost absent = |item: Seq<char>| !other@.contains(item);
        let mut missing: Vec<String> = Vec::new();
        let mut i: usize = 0;
        while i < self.items.len()
            invariant
                i <= self.items@.len(),
                absent == (|item: Seq<char>| !other@.contains(item)),
                missing.len() == self@.take(i as int).filter(absent).len(),
                forall|j: int|
                    0 <= j < missing.len() ==> (#[trigger] missing[j])@ == self@.take(
                        i as int,
                    ).filter(absent)[j],
            decreases self.items@.len() - i,
        {
            proof {
                assert(self@.take(i + 1) =~= self@.take(i as int).push(self@[i as int]));
                self@.take(i as int).lemma_filter_push(self@[i as int], absent);
            }
            if !other.contains(self.items[i].as_str()) {
                missing.push(self.items[i].clone());
            }
            i += 1;
        }
        proof {
            assert(self@.take(self@.len() as int) =~= self@);
            assert(missing.deep_view() =~= missing_from(self@, other@));
        }
        missing
    }
}

} // verus!
