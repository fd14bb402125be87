//! Template variables: nested values that fragments contribute to and that
//! merge by structure.

use crate::strmap::{
    as_map, distinct_keys, has_key, index_of_key, lemma_lookup_at, lemma_with_entries,
    lemma_with_entry, lemma_without_key, lookup, StrMap,
};
use vstd::prelude::*;

verus! {

/// A template variable's value.
#[derive(Debug)]
pub enum TemplateValue {
    /// A leaf string.
    Value(String),
    /// Named values.
    Mapping(StrMap<TemplateValue>),
    /// Values in a row.
    Sequence(Vec<TemplateValue>),
}

/// The three kinds of template value.
#[derive(Clone, Copy, Debug, PartialEq, Eq, Structural)]
pub enum TemplateKind {
    Value,
    Mapping,
    Sequence,
}

/// What a template value is, as a mathematical tree.
pub enum TemplateTree {
    Value(Seq<char>),
    Mapping(Map<Seq<char>, TemplateTree>),
    Sequence(Seq<TemplateTree>),
}

impl TemplateTree {
    /// The kind of the tree's root.
    pub open spec fn kind(self) -> TemplateKind {
        match self {
            TemplateTree::Value(_) => TemplateKind::Value,
            TemplateTree::Mapping(_) => TemplateKind::Mapping,
            TemplateTree::Sequence(_) => TemplateKind::Sequence,
        }
    }
}

/// Whether the trees `a` and `b` merge without conflict: they are of one
/// kind, not both leaves, and where both are mappings the values under each
/// common key merge in turn.
pub open spec fn mergeable(a: TemplateTree, b: TemplateTree) -> bool
    decreases a,
{
    match (a, b) {
        (TemplateTree::Mapping(x), TemplateTree::Mapping(y)) => forall|k: Seq<char>|
            x.contains_key(k) && y.contains_key(k) ==> mergeable(x[k], y[k]),
        (TemplateTree::Sequence(_), TemplateTree::Sequence(_)) => true,
        _ => false,
    }
}

/// The merge of `b` into `a`: sequences are concatenated, mappings merged key
/// by key. Where the trees do not merge, the result is `a`.
pub open spec fn merged(a: TemplateTree, b: TemplateTree) -> TemplateTree
    decreases a,
{
    match (a, b) {
        (TemplateTree::Mapping(x), TemplateTree::Mapping(y)) => TemplateTree::Mapping(
            Map::new(
                |k: Seq<char>| x.contains_key(k) || y.contains_key(k),
                |k: Seq<char>|
                    if x.contains_key(k) && y.contains_key(k) {
                        merged(x[k], y[k])
                    } else if x.contains_key(k) {
                        x[k]
                    } else {
                        y[k]
                    },
            ),
        ),
        (TemplateTree::Sequence(x), TemplateTree::Sequence(y)) => TemplateTree::Sequence(x + y),
        _ => a,
    }
}

/// The merge of the mapping `y` into the mapping `x`, key by key.
pub open spec fn merged_maps(
    x: Map<Seq<char>, TemplateTree>,
    y: Map<Seq<char>, TemplateTree>,
) -> Map<Seq<char>, TemplateTree> {
    merged(TemplateTree::Mapping(x), TemplateTree::Mapping(y))->Mapping_0
}

/// Whether the mappings `x` and `y` merge without conflict.
pub open spec fn mergeable_maps(
    x: Map<Seq<char>, TemplateTree>,
    y: Map<Seq<char>, TemplateTree>,
) -> bool {
    mergeable(TemplateTree::Mapping(x), TemplateTree::Mapping(y))
}

/// Mappings that merge hold values that merge under each common key.
pub proof fn lemma_mergeable_at(
    x: Map<Seq<char>, TemplateTree>,
    y: Map<Seq<char>, TemplateTree>,
    key: Seq<char>,
)
    requires
        mergeable_maps(x, y),
        x.contains_key(key),
        y.contains_key(key),
    ensures
        mergeable(x[key], y[key]),
{
    assert(TemplateTree::Mapping(x)->Mapping_0 == x);
    assert(TemplateTree::Mapping(y)->Mapping_0 == y);
}

/// The subtree of `tree` that the keys of `path` lead to, through mappings.
pub open spec fn subtree(tree: TemplateTree, path: Seq<Seq<char>>) -> Option<TemplateTree>
    decreases path.len(),
{
    if path.len() == 0 {
        Some(tree)
    } else {
        match tree {
            TemplateTree::Mapping(m) => if m.contains_key(path[0]) {
                subtree(m[path[0]], path.skip(1))
            } else {
                None
            },
            _ => None,
        }
    }
}

/// Whether `a` stands for `b` in a comparison read in the direction
/// `forward`. Leaves stand for equal leaves. A mapping stands for one with
/// the same keys whose values it stands for, key by key. Of two sequences,
/// read forward, the first stands for the second when each of its items is
/// found in the second. Read backward, the roles of the two sequences are
/// exchanged: each item of the second is found in the first.
pub open spec fn stands_for(a: TemplateTree, b: TemplateTree, forward: bool) -> bool
    decreases a, 0nat,
{
    match (a, b) {
        (TemplateTree::Value(x), TemplateTree::Value(y)) => x == y,
        (TemplateTree::Mapping(x), TemplateTree::Mapping(y)) => x.dom() == y.dom() && forall|
            k: Seq<char>,
        | x.contains_key(k) ==> stands_for(x[k], y[k], forward),
        (TemplateTree::Sequence(x), TemplateTree::Sequence(y)) => if forward {
            forall|i: int| #![trigger x[i]] 0 <= i < x.len() ==> found_in(x[i], y)
        } else {
            forall|j: int| #![trigger y[j]] 0 <= j < y.len() ==> found_among(x, y[j])
        },
        _ => false,
    }
}

/// Whether `item` is found in `others`: some item of `others` compares as
/// the same as `item`, the item of `others` standing on the left of that
/// comparison.
pub open spec fn found_in(item: TemplateTree, others: Seq<TemplateTree>) -> bool
    decreases item, 1nat,
{
    exists|j: int| 0 <= j < others.len() && stands_for(item, #[trigger] others[j], false)
}

/// Whether `other` is found among `items`: some item of `items` compares as
/// the same as `other`, the item of `items` standing on the left of that
/// comparison.
pub open spec fn found_among(items: Seq<TemplateTree>, other: TemplateTree) -> bool
    decreases items, 1nat,
{
    exists|i: int| 0 <= i < items.len() && stands_for(#[trigger] items[i], other, true)
}

/// The comparison of template trees that decides whether templates changed:
/// `a` equals `b` when `a` stands for `b`, read forward. On sequences it asks
/// only that every item of `a` is found in `b`, so it is not symmetric.
pub open spec fn tree_eq(a: TemplateTree, b: TemplateTree) -> bool {
    stands_for(a, b, true)
}

/// The comparison of two template contexts: the same names, and each value
/// equal to its counterpart.
pub open spec fn context_eq(
    a: Map<Seq<char>, TemplateTree>,
    b: Map<Seq<char>, TemplateTree>,
) -> bool {
    tree_eq(TemplateTree::Mapping(a), TemplateTree::Mapping(b))
}

/// The trees of the values of `list`, by key.
pub open spec fn tree_map(list: Seq<(Seq<char>, TemplateValue)>) -> Map<Seq<char>, TemplateTree> {
    Map::new(|k: Seq<char>| has_key(list, k), |k: Seq<char>| list[index_of_key(list, k)].1@)
}

/// The trees of the values of `items`, in their order.
pub open spec fn tree_seq(items: Seq<TemplateValue>) -> Seq<TemplateTree> {
    Seq::new(items.len(), |i: int| items[i]@)
}

/// The tree that `value` stands for.
pub closed spec fn tree_of(value: TemplateValue) -> TemplateTree
    decreases value,
{
    match value {
        TemplateValue::Value(s) => TemplateTree::Value(s@),
        TemplateValue::Mapping(m) => TemplateTree::Mapping(
            Map::new(
                |k: Seq<char>|
                    exists|i: int| 0 <= i < m.entries@.len() && (#[trigger] m.entries@[i]).0@ == k,
                |k: Seq<char>|
                    {
                        let i = choose|i: int|
                            0 <= i < m.entries@.len() && (#[trigger] m.entries@[i]).0@ == k;
                        if 0 <= i < m.entries@.len() {
                            tree_of(m.entries@[i].1)
                        } else {
                            arbitrary()
                        }
                    },
            ),
        ),
        TemplateValue::Sequence(v) => TemplateTree::Sequence(
            Seq::new(
                v@.len(),
                |i: int|
                    if 0 <= i < v@.len() {
                        tree_of(v@[i])
                    } else {
                        arbitrary()
                    },
            ),
        ),
    }
}

impl View for TemplateValue {
    type V = TemplateTree;

    open spec fn view(&self) -> TemplateTree {
        tree_of(*self)
    }
}

/// What the view of a value is, by its kind.
pub proof fn lemma_view(value: TemplateValue)
    ensures
        match value {
            TemplateValue::Value(s) => value@ == TemplateTree::Value(s@),
            TemplateValue::Mapping(m) => m.wf() ==> value@ == TemplateTree::Mapping(
                tree_map(m.entries()),
            ),
            TemplateValue::Sequence(v) => value@ == TemplateTree::Sequence(tree_seq(v@)),
        },
{
    match value {
        TemplateValue::Value(s) => {},
        TemplateValue::Mapping(m) => {
            if m.wf() {
                m.lemma_entries();
                let list = m.entries();
                let raw = m.entries@;
                let left = value@->Mapping_0;
                let right = tree_map(list);
                assert forall|k: Seq<char>| left.dom().contains(k) <==> right.dom().contains(
                    k,
                ) by {
                    if left.dom().contains(k) {
                        let i = choose|i: int| 0 <= i < raw.len() && (#[trigger] raw[i]).0@ == k;
                        assert(list[i].0 == k);
                    }
                    if has_key(list, k) {
                        let i = index_of_key(list, k);
                        assert(raw[i].0@ == k);
                    }
                }
                assert forall|k: Seq<char>| left.dom().contains(k) implies left[k]
                    == right[k] by {
                    let i = choose|i: int| 0 <= i < raw.len() && (#[trigger] raw[i]).0@ == k;
                    assert(list[i].0 == k);
                    lemma_lookup_at(list, i);
                }
                assert(left =~= right);
            }
        },
        TemplateValue::Sequence(v) => {
            assert(value@->Sequence_0 =~= tree_seq(v@));
        },
    }
}

/// The trees of a list whose keys are distinct, entry by entry.
pub proof fn lemma_tree_map(list: Seq<(Seq<char>, TemplateValue)>)
    requires
        distinct_keys(list),
    ensures
        forall|k: Seq<char>| tree_map(list).contains_key(k) <==> has_key(list, k),
        forall|i: int|
            0 <= i < list.len() ==> tree_map(list).contains_key((#[trigger] list[i]).0)
                && tree_map(list)[list[i].0] == list[i].1@,
{
    assert forall|i: int| 0 <= i < list.len() implies tree_map(list).contains_key(
        (#[trigger] list[i]).0,
    ) && tree_map(list)[list[i].0] == list[i].1@ by {
        lemma_lookup_at(list, i);
    }
}

/// A conflict that keeps two template values from merging: at `path` the
/// one holds `existing` and the other `incoming`, which are two leaves or
/// of different kinds.
#[derive(Debug)]
pub struct MergeConflict {
    /// The keys that lead from the roots to the place of the conflict.
    pub path: Vec<String>,
    /// What the value that is merged into holds there.
    pub existing: TemplateValue,
    /// What the value that is merged in holds there.
    pub incoming: TemplateValue,
}

/// Whether `x` and `y` do not merge whatever they hold: they are two
/// leaves, or of different kinds.
pub open spec fn clash(x: TemplateTree, y: TemplateTree) -> bool {
    x.kind() != y.kind() || (x is Value && y is Value)
}

impl MergeConflict {
    /// The path of the conflict as plain values.
    pub open spec fn path(self) -> Seq<Seq<char>> {
        self.path.deep_view()
    }

    /// Whether the conflict is one of merging `b` into `a`: its path leads
    /// through mappings of both trees to the two values that it names, and
    /// these clash.
    pub open spec fn arises_from(self, a: TemplateTree, b: TemplateTree) -> bool {
        &&& subtree(a, self.path()) == Some(self.existing@)
        &&& subtree(b, self.path()) == Some(self.incoming@)
        &&& clash(self.existing@, self.incoming@)
    }

    /// The same conflict, seen from a mapping that holds the two values under
    /// `key`.
    fn under(self, key: String) -> (outer: MergeConflict)
        ensures
            outer.path() == seq![key@] + self.path(),
            outer.existing@ == self.existing@,
            outer.incoming@ == self.incoming@,
    {
        let MergeConflict { path, existing, incoming } = self;
        let mut path = path;
        let ghost inner = path.deep_view();
        path.insert(0, key);
        assert(path.deep_view() =~= seq![key@] + inner);
        MergeConflict { path, existing, incoming }
    }
}

/// A conflict below a common key of two mappings is a conflict of the
/// mappings.
proof fn lemma_conflict_under(
    inner: MergeConflict,
    outer: MergeConflict,
    key: Seq<char>,
    x: Map<Seq<char>, TemplateTree>,
    y: Map<Seq<char>, TemplateTree>,
)
    requires
        x.contains_key(key),
        y.contains_key(key),
        inner.arises_from(x[key], y[key]),
        outer.path() == seq![key] + inner.path(),
        outer.existing@ == inner.existing@,
        outer.incoming@ == inner.incoming@,
    ensures
        outer.arises_from(TemplateTree::Mapping(x), TemplateTree::Mapping(y)),
{
    assert(outer.path().skip(1) =~= inner.path());
    assert(outer.path()[0] == key);
}

/// Trees between which a conflict arises do not merge.
pub proof fn lemma_conflict_blocks_merge(conflict: MergeConflict, a: TemplateTree, b: TemplateTree)
    requires
        conflict.arises_from(a, b),
    ensures
        !mergeable(a, b),
{
    lemma_clash_blocks_merge(a, b, conflict.path());
}

/// Trees whose subtrees at one path are two leaves, or of different kinds, do
/// not merge.
pub proof fn lemma_clash_blocks_merge(a: TemplateTree, b: TemplateTree, path: Seq<Seq<char>>)
    requires
        subtree(a, path) is Some,
        subtree(b, path) is Some,
        clash(subtree(a, path)->0, subtree(b, path)->0),
    ensures
        !mergeable(a, b),
    decreases path.len(),
{
    if path.len() > 0 {
        let x = a->Mapping_0;
        let y = b->Mapping_0;
        lemma_clash_blocks_merge(x[path[0]], y[path[0]], path.skip(1));
    }
}

impl TemplateValue {
    /// The kind of the value.
    pub fn kind(&self) -> (kind: TemplateKind)
        ensures
            kind == self@.kind(),
    {
        proof {
            lemma_view(*self);
            if let TemplateValue::Mapping(m) = self {
                use_type_invariant(m);
            }
        }
        match self {
            TemplateValue::Value(_) => TemplateKind::Value,
            TemplateValue::Mapping(_) => TemplateKind::Mapping,
            TemplateValue::Sequence(_) => TemplateKind::Sequence,
        }
    }

    /// Looks for a conflict that keeps `other` from merging into `self`.
    pub fn conflict_with(&self, other: &TemplateValue) -> (found: Option<MergeConflict>)
        ensures
            found is None <==> mergeable(self@, other@),
            found matches Some(c) ==> c.arises_from(self@, other@),
        decreases self,
    {
        proof {
            lemma_view(*self);
            lemma_view(*other);
            if let TemplateValue::Mapping(m) = self {
                use_type_invariant(m);
            }
            if let TemplateValue::Mapping(m) = other {
                use_type_invariant(m);
            }
        }
        match (self, other) {
            (TemplateValue::Sequence(_), TemplateValue::Sequence(_)) => None,
            (TemplateValue::Mapping(x), TemplateValue::Mapping(y)) => conflict_between(x, y),
            _ => {
                let path: Vec<String> = Vec::new();
                assert(path.deep_view() =~= Seq::<Seq<char>>::empty());
                Some(MergeConflict { path, existing: self.clone(), incoming: other.clone() })
            },
        }
    }

    /// Merges `other` into `self`: sequences are concatenated, mappings
    /// merged key by key. Two leaves, or two values of different kinds,
    /// conflict; then nothing is changed and the conflict is returned.
    pub fn combine(&mut self, other: TemplateValue) -> (done: Result<(), MergeConflict>)
        ensures
            match done {
                Ok(()) => mergeable(old(self)@, other@) && final(self)@ == merged(
                    old(self)@,
                    other@,
                ),
                Err(conflict) => !mergeable(old(self)@, other@) && *final(self) == *old(self)
                    && conflict.arises_from(old(self)@, other@),
            },
    {
        match self.conflict_with(&other) {
            Some(conflict) => Err(conflict),
            None => {
                let mut mine = TemplateValue::Value(String::new());
                core::mem::swap(self, &mut mine);
                *self = merge(mine, other);
                Ok(())
            },
        }
    }
}

/// Looks for a conflict that keeps the mapping `y` from merging into the
/// mapping `x`, going through `y` in its order.
pub fn conflict_between(x: &StrMap<TemplateValue>, y: &StrMap<TemplateValue>) -> (found: Option<
    MergeConflict,
>)
    ensures
        found is None <==> mergeable_maps(tree_map(x.entries()), tree_map(y.entries())),
        found matches Some(c) ==> c.arises_from(
            TemplateTree::Mapping(tree_map(x.entries())),
            TemplateTree::Mapping(tree_map(y.entries())),
        ),
    decreases x,
{
    proof {
        use_type_invariant(x);
        use_type_invariant(y);
        lemma_tree_map(x.entries());
        lemma_tree_map(y.entries());
    }
    let ghost xs = x.entries();
    let ghost ys = y.entries();
    let ghost tx = tree_map(xs);
    let ghost ty = tree_map(ys);
    let mut i: usize = 0;
    while i < y.len()
        invariant
            i <= ys.len(),
            xs == x.entries(),
            ys == y.entries(),
            tx == tree_map(xs),
            ty == tree_map(ys),
            x.wf(),
            y.wf(),
            forall|j: int|
                0 <= j < i && has_key(xs, (#[trigger] ys[j]).0) ==> mergeable(
                    tx[ys[j].0],
                    ys[j].1@,
                ),
        decreases ys.len() - i,
    {
        let key = y.key_at(i);
        let theirs = y.value_at(i);
        proof {
            lemma_tree_map(xs);
            lemma_tree_map(ys);
            lemma_lookup_at(ys, i as int);
        }
        match x.get(key.as_str()) {
            Some(mine) => {
                proof {
                    let at = index_of_key(xs, key@);
                    x.lemma_entries();
                    assert(xs[at] == (x.entries@[at].0@, x.entries@[at].1));
                    assert(*mine == x.entries@[at].1);
                    assert(decreases_to!(x => x.entries@[at].1));
                    assert(tx[key@] == mine@);
                    assert(ty[key@] == theirs@);
                }
                match mine.conflict_with(theirs) {
                    Some(conflict) => {
                        let outer = conflict.under(key.clone());
                        proof {
                            lemma_conflict_under(conflict, outer, key@, tx, ty);
                            lemma_conflict_blocks_merge(
                                outer,
                                TemplateTree::Mapping(tx),
                                TemplateTree::Mapping(ty),
                            );
                        }
                        return Some(outer);
                    },
                    None => {},
                }
            },
            None => {},
        }
        i += 1;
    }
    proof {
        assert forall|k: Seq<char>| tx.contains_key(k) && ty.contains_key(k) implies mergeable(
            tx[k],
            ty[k],
        ) by {
            let j = index_of_key(ys, k);
            lemma_lookup_at(ys, j);
            assert(has_key(xs, ys[j].0));
        }
    }
    None
}

/// Merges `b` into `a`.
pub(crate) fn merge(a: TemplateValue, b: TemplateValue) -> (both: TemplateValue)
    requires
        mergeable(a@, b@),
    ensures
        both@ == merged(a@, b@),
    decreases a,
{
    proof {
        lemma_view(a);
        lemma_view(b);
        if let TemplateValue::Mapping(m) = &a {
            use_type_invariant(m);
        }
        if let TemplateValue::Mapping(m) = &b {
            use_type_invariant(m);
        }
    }
    match (a, b) {
        (TemplateValue::Sequence(x), TemplateValue::Sequence(y)) => {
            let mut x = x;
            let mut y = y;
            let ghost left = x@;
            let ghost right = y@;
            x.append(&mut y);
            let both = TemplateValue::Sequence(x);
            proof {
                lemma_view(both);
                assert(tree_seq(left + right) =~= tree_seq(left) + tree_seq(right));
            }
            both
        },
        (TemplateValue::Mapping(x), TemplateValue::Mapping(y)) => {
            let both = TemplateValue::Mapping(merge_maps(x, y));
            proof {
                lemma_view(both);
                if let TemplateValue::Mapping(m) = &both {
                    use_type_invariant(m);
                }
            }
            both
        },
        (a, _) => a,
    }
}

/// Whether `key` is the key of one of the first `n` entries of `list`.
pub open spec fn among_first<V>(list: Seq<(Seq<char>, V)>, n: int, key: Seq<char>) -> bool {
    exists|j: int| 0 <= j < n && j < list.len() && (#[trigger] list[j]).0 == key
}

/// Merges the mapping `y` into the mapping `x`. The keys of `x` keep their
/// order; the keys that only `y` holds follow in the order of `y`.
pub(crate) fn merge_maps(x: StrMap<TemplateValue>, y: StrMap<TemplateValue>) -> (both: StrMap<
    TemplateValue,
>)
    requires
        mergeable_maps(tree_map(x.entries()), tree_map(y.entries())),
    ensures
        tree_map(both.entries()) == merged_maps(tree_map(x.entries()), tree_map(y.entries())),
    decreases x,
{
    proof {
        use_type_invariant(&x);
        use_type_invariant(&y);
        x.lemma_entries();
    }
    let ghost whole = x;
    let ghost xs = x.entries();
    let ghost ys = y.entries();
    let ghost tx = tree_map(xs);
    let ghost ty = tree_map(ys);
    let mut rest = y;
    let mut both: StrMap<TemplateValue> = StrMap::new();
    let incoming = x.entries;
    let ghost raw = incoming@;
    proof {
        lemma_tree_map(xs);
        lemma_tree_map(ys);
    }
    for entry in it: incoming.into_iter()
        invariant
            it.seq() == raw,
            whole == x,
            raw == whole.entries@,
            xs.len() == raw.len(),
            forall|i: int| 0 <= i < raw.len() ==> (#[trigger] xs[i]) == (raw[i].0@, raw[i].1),
            distinct_keys(xs),
            distinct_keys(ys),
            tx == tree_map(xs),
            ty == tree_map(ys),
            mergeable_maps(tx, ty),
            both.wf(),
            rest.wf(),
            forall|k: Seq<char>|
                has_key(both.entries(), k) <==> among_first(xs, it.index() as int, k),
            forall|j: int|
                0 <= j < it.index() ==> tree_map(both.entries())[(#[trigger] xs[j]).0] == (
                if ty.contains_key(xs[j].0) {
                    merged(xs[j].1@, ty[xs[j].0])
                } else {
                    xs[j].1@
                }),
            forall|k: Seq<char>|
                lookup(rest.entries(), k) == (if among_first(xs, it.index() as int, k) {
                    None
                } else {
                    lookup(ys, k)
                }),
    {
        let ghost n = it.index() as int;
        let ghost before = both.entries();
        let ghost rest_before = rest.entries();
        let (key, mine) = entry;
        proof {
            assert(xs[n] == (key@, mine));
            lemma_lookup_at(xs, n);
            lemma_tree_map(xs);
            lemma_tree_map(ys);
            lemma_tree_map(before);
            assert(!among_first(xs, n, key@)) by {
                if among_first(xs, n, key@) {
                    let j = choose|j: int| 0 <= j < n && j < xs.len() && (#[trigger] xs[j]).0 == key@;
                    assert(xs[j].0 != xs[n].0);
                }
            }
            assert forall|k: Seq<char>| among_first(xs, n + 1, k) <==> (among_first(xs, n, k) || k
                == key@) by {
                if among_first(xs, n + 1, k) {
                    let j = choose|j: int|
                        0 <= j < n + 1 && j < xs.len() && (#[trigger] xs[j]).0 == k;
                    if j < n {
                        assert(among_first(xs, n, k));
                    }
                }
                if among_first(xs, n, k) {
                    let j = choose|j: int| 0 <= j < n && j < xs.len() && (#[trigger] xs[j]).0 == k;
                    assert(among_first(xs, n + 1, k));
                }
                if k == key@ {
                    assert(xs[n].0 == k);
                    assert(among_first(xs, n + 1, k));
                }
            }
            lemma_without_key(rest_before, key@);
            assert(decreases_to!(whole => raw[n].1));
        }
        let theirs = rest.remove(key.as_str());
        let value = match theirs {
            Some(theirs) => {
                proof {
                    assert(lookup(ys, key@) == Some(theirs));
                    assert(has_key(ys, key@));
                    let at = index_of_key(ys, key@);
                    lemma_lookup_at(ys, at);
                    assert(ty[key@] == theirs@);
                    assert(tx[key@] == mine@);
                    assert(tx.contains_key(key@) && ty.contains_key(key@));
                    lemma_mergeable_at(tx, ty, key@);
                }
                merge(mine, theirs)
            },
            None => {
                proof {
                    assert(!has_key(ys, key@));
                }
                mine
            },
        };
        proof {
            lemma_with_entry(before, key@, value);
        }
        both.insert(key, value);
        proof {
            let after = both.entries();
            lemma_tree_map(after);
            assert forall|j: int| 0 <= j < n + 1 implies tree_map(after)[(#[trigger] xs[j]).0] == (
            if ty.contains_key(xs[j].0) {
                merged(xs[j].1@, ty[xs[j].0])
            } else {
                xs[j].1@
            }) by {
                let k = xs[j].0;
                if j < n {
                    assert(k != key@) by {
                        assert(xs[j].0 != xs[n].0);
                    }
                    assert(among_first(xs, n, k));
                    assert(lookup(after, k) == lookup(before, k));
                    assert(has_key(before, k));
                    lemma_lookup_at(before, index_of_key(before, k));
                    lemma_lookup_at(after, index_of_key(after, k));
                } else {
                    assert(lookup(after, key@) == Some(value));
                    lemma_lookup_at(after, index_of_key(after, key@));
                }
            }
            assert forall|k: Seq<char>| has_key(after, k) <==> among_first(xs, n + 1, k) by {
                if k != key@ {
                    assert(has_key(after, k) == has_key(before, k));
                } else {
                    assert(lookup(after, key@) == Some(value));
                }
            }
            assert forall|k: Seq<char>| lookup(rest.entries(), k) == (if among_first(xs, n + 1, k) {
                None
            } else {
                lookup(ys, k)
            }) by {
                if k != key@ {
                    assert(lookup(rest.entries(), k) == lookup(rest_before, k));
                }
            }
        }
    }
    let ghost mid = both.entries();
    let ghost left = rest.entries();
    both.extend(rest);
    proof {
        let n = xs.len() as int;
        let out = both.entries();
        lemma_with_entries(mid, left);
        lemma_tree_map(mid);
        lemma_tree_map(out);
        lemma_tree_map(left);
        let goal = merged_maps(tx, ty);
        assert forall|k: Seq<char>| has_key(xs, k) <==> among_first(xs, n, k) by {
            if has_key(xs, k) {
                let j = index_of_key(xs, k);
                assert(xs[j].0 == k);
            }
        }
        assert forall|k: Seq<char>| tree_map(out).contains_key(k) <==> goal.contains_key(k) by {
            assert(as_map(out).contains_key(k) <==> (as_map(mid).contains_key(k) || as_map(
                left,
            ).contains_key(k)));
            assert(lookup(left, k) is Some <==> has_key(left, k));
            assert(lookup(ys, k) is Some <==> has_key(ys, k));
        }
        assert forall|k: Seq<char>| tree_map(out).contains_key(k) implies tree_map(out)[k]
            == goal[k] by {
            assert(lookup(left, k) is Some <==> has_key(left, k));
            assert(lookup(ys, k) is Some <==> has_key(ys, k));
            let joint = as_map(mid).union_prefer_right(as_map(left));
            assert(as_map(out) == joint);
            assert(has_key(out, k));
            assert(joint.dom().contains(k));
            assert(joint[k] == if as_map(left).dom().contains(k) {
                as_map(left)[k]
            } else {
                as_map(mid)[k]
            });
            assert(tree_map(out)[k] == as_map(out)[k]@);
            if has_key(xs, k) {
                let j = index_of_key(xs, k);
                lemma_lookup_at(xs, j);
                assert(among_first(xs, n, k));
                assert(!has_key(left, k));
                assert(tree_map(mid)[xs[j].0] == tree_map(out)[k]);
            } else {
                assert(!among_first(xs, n, k));
                assert(lookup(left, k) == lookup(ys, k));
            }
        }
        assert(tree_map(out) =~= goal);
    }
    both
}

/// Compares `a` with `b` in the direction `forward`.
pub fn compare(a: &TemplateValue, b: &TemplateValue, forward: bool) -> (same: bool)
    ensures
        same == stands_for(a@, b@, forward),
    decreases a,
{
    proof {
        lemma_view(*a);
        lemma_view(*b);
        if let TemplateValue::Mapping(m) = a {
            use_type_invariant(m);
        }
        if let TemplateValue::Mapping(m) = b {
            use_type_invariant(m);
        }
    }
    match (a, b) {
        (TemplateValue::Value(x), TemplateValue::Value(y)) => *x == *y,
        (TemplateValue::Mapping(x), TemplateValue::Mapping(y)) => compare_maps(x, y, forward),
        (TemplateValue::Sequence(x), TemplateValue::Sequence(y)) => {
            let ghost tx = tree_seq(x@);
            let ghost ty = tree_seq(y@);
            if forward {
                let mut i: usize = 0;
                while i < x.len()
                    invariant
                        forward,
                        i <= x.len(),
                        tx == tree_seq(x@),
                        ty == tree_seq(y@),
                        *a == TemplateValue::Sequence(*x),
                        a@ == TemplateTree::Sequence(tx),
                        b@ == TemplateTree::Sequence(ty),
                        forall|p: int| #![trigger tx[p]] 0 <= p < i ==> found_in(tx[p], ty),
                    decreases x.len() - i,
                {
                    let mut found = false;
                    let mut j: usize = 0;
                    while j < y.len() && !found
                        invariant
                            i < x.len(),
                            j <= y.len(),
                            tx == tree_seq(x@),
                            ty == tree_seq(y@),
                            *a == TemplateValue::Sequence(*x),
                            a@ == TemplateTree::Sequence(tx),
                            b@ == TemplateTree::Sequence(ty),
                            found ==> found_in(tx[i as int], ty),
                            !found ==> forall|q: int|
                                #![trigger ty[q]]
                                0 <= q < j ==> !stands_for(tx[i as int], ty[q], false),
                        decreases (y.len() - j) + (if found { 0int } else { 1int }),
                    {
                        proof {
                            assert(decreases_to!(*a => x@[i as int]));
                        }
                        if compare(&x[i], &y[j], false) {
                            assert(stands_for(tx[i as int], ty[j as int], false));
                            found = true;
                        } else {
                            j += 1;
                        }
                    }
                    if !found {
                        assert(!found_in(tx[i as int], ty));
                        assert(TemplateTree::Sequence(tx)->Sequence_0 == tx);
                        return false;
                    }
                    i += 1;
                }
                true
            } else {
                let mut j: usize = 0;
                while j < y.len()
                    invariant
                        !forward,
                        j <= y.len(),
                        tx == tree_seq(x@),
                        ty == tree_seq(y@),
                        *a == TemplateValue::Sequence(*x),
                        a@ == TemplateTree::Sequence(tx),
                        b@ == TemplateTree::Sequence(ty),
                        forall|q: int| #![trigger ty[q]] 0 <= q < j ==> found_among(tx, ty[q]),
                    decreases y.len() - j,
                {
                    let mut found = false;
                    let mut i: usize = 0;
                    while i < x.len() && !found
                        invariant
                            j < y.len(),
                            i <= x.len(),
                            tx == tree_seq(x@),
                            ty == tree_seq(y@),
                            *a == TemplateValue::Sequence(*x),
                            a@ == TemplateTree::Sequence(tx),
                            b@ == TemplateTree::Sequence(ty),
                            found ==> found_among(tx, ty[j as int]),
                            !found ==> forall|p: int|
                                #![trigger tx[p]]
                                0 <= p < i ==> !stands_for(tx[p], ty[j as int], true),
                        decreases (x.len() - i) + (if found { 0int } else { 1int }),
                    {
                        proof {
                            assert(decreases_to!(*a => x@[i as int]));
                        }
                        if compare(&x[i], &y[j], true) {
                            assert(stands_for(tx[i as int], ty[j as int], true));
                            found = true;
                        } else {
                            i += 1;
                        }
                    }
                    if !found {
                        assert(!found_among(tx, ty[j as int]));
                        assert(TemplateTree::Sequence(ty)->Sequence_0 == ty);
                        return false;
                    }
                    j += 1;
                }
                true
            }
        },
        _ => false,
    }
}

/// Compares the mapping `x` with the mapping `y` in the direction `forward`.
pub fn compare_maps(x: &StrMap<TemplateValue>, y: &StrMap<TemplateValue>, forward: bool) -> (same:
    bool)
    ensures
        same == stands_for(
            TemplateTree::Mapping(tree_map(x.entries())),
            TemplateTree::Mapping(tree_map(y.entries())),
            forward,
        ),
    decreases x,
{
    proof {
        use_type_invariant(x);
        use_type_invariant(y);
    }
    let ghost xs = x.entries();
    let ghost ys = y.entries();
    let ghost tx = tree_map(xs);
    let ghost ty = tree_map(ys);
    proof {
        lemma_tree_map(xs);
        lemma_tree_map(ys);
    }
    let mut i: usize = 0;
    while i < x.len()
        invariant
            i <= xs.len(),
            xs == x.entries(),
            ys == y.entries(),
            tx == tree_map(xs),
            ty == tree_map(ys),
            x.wf(),
            y.wf(),
            forall|j: int|
                0 <= j < i ==> has_key(ys, (#[trigger] xs[j]).0) && stands_for(
                    xs[j].1@,
                    ty[xs[j].0],
                    forward,
                ),
        decreases xs.len() - i,
    {
        let key = x.key_at(i);
        let mine = x.value_at(i);
        proof {
            lemma_tree_map(xs);
            lemma_tree_map(ys);
            lemma_lookup_at(xs, i as int);
            x.lemma_entries();
            assert(*mine == x.entries@[i as int].1);
            assert(decreases_to!(x => x.entries@[i as int].1));
        }
        match y.get(key.as_str()) {
            Some(theirs) => {
                proof {
                    lemma_lookup_at(ys, index_of_key(ys, key@));
                    assert(ty[key@] == theirs@);
                    assert(tx[key@] == mine@);
                }
                if !compare(mine, theirs, forward) {
                    assert(tx.contains_key(key@));
                    return false;
                }
            },
            None => {
                assert(tx.contains_key(key@) && !ty.contains_key(key@));
                assert(tx.dom() != ty.dom());
                return false;
            },
        }
        i += 1;
    }
    let mut j: usize = 0;
    while j < y.len()
        invariant
            j <= ys.len(),
            xs == x.entries(),
            ys == y.entries(),
            x.wf(),
            y.wf(),
            tx == tree_map(xs),
            ty == tree_map(ys),
            forall|q: int| 0 <= q < j ==> has_key(xs, (#[trigger] ys[q]).0),
        decreases ys.len() - j,
    {
        let key = y.key_at(j);
        if !x.contains_key(key.as_str()) {
            proof {
                lemma_tree_map(xs);
                lemma_tree_map(ys);
                lemma_lookup_at(ys, j as int);
                assert(ty.contains_key(ys[j as int].0) && !tx.contains_key(ys[j as int].0));
                assert(tx.dom() != ty.dom());
            }
            return false;
        }
        j += 1;
    }
    proof {
        lemma_tree_map(xs);
        lemma_tree_map(ys);
        assert forall|k: Seq<char>| tx.dom().contains(k) <==> ty.dom().contains(k) by {
            if has_key(xs, k) {
                let p = index_of_key(xs, k);
                assert(has_key(ys, xs[p].0));
            }
            if has_key(ys, k) {
                let q = index_of_key(ys, k);
                assert(has_key(xs, ys[q].0));
            }
        }
        assert(tx.dom() =~= ty.dom());
        assert forall|k: Seq<char>| tx.contains_key(k) implies stands_for(
            tx[k],
            ty[k],
            forward,
        ) by {
            let p = index_of_key(xs, k);
            lemma_lookup_at(xs, p);
            assert(stands_for(xs[p].1@, ty[xs[p].0], forward));
        }
    }
    true
}

/// Two mappings that hold leaves under one key merge in neither order.
pub proof fn lemma_leaves_conflict(
    a: Map<Seq<char>, TemplateTree>,
    b: Map<Seq<char>, TemplateTree>,
    key: Seq<char>,
)
    requires
        a.contains_key(key),
        b.contains_key(key),
        a[key] is Value,
        b[key] is Value,
    ensures
        !mergeable_maps(a, b),
        !mergeable_maps(b, a),
{
    if mergeable_maps(a, b) {
        lemma_mergeable_at(a, b, key);
    }
    if mergeable_maps(b, a) {
        lemma_mergeable_at(b, a, key);
    }
}

/// Merging is associative: whether three trees merge, and into what, does
/// not depend on which two are merged first.
pub proof fn lemma_merge_associative(a: TemplateTree, b: TemplateTree, c: TemplateTree)
    ensures
        (mergeable(a, b) && mergeable(merged(a, b), c)) == (mergeable(b, c) && mergeable(
            a,
            merged(b, c),
        )),
        mergeable(a, b) && mergeable(merged(a, b), c) ==> merged(merged(a, b), c) == merged(
            a,
            merged(b, c),
        ),
    decreases a,
{
    match (a, b, c) {
        (TemplateTree::Sequence(x), TemplateTree::Sequence(y), TemplateTree::Sequence(z)) => {
            assert((x + y) + z =~= x + (y + z));
        },
        (TemplateTree::Mapping(x), TemplateTree::Mapping(y), TemplateTree::Mapping(z)) => {
            let xy = merged(a, b)->Mapping_0;
            let yz = merged(b, c)->Mapping_0;
            let left = mergeable(a, b) && mergeable(merged(a, b), c);
            let right = mergeable(b, c) && mergeable(a, merged(b, c));
            if left {
                assert forall|k: Seq<char>| y.contains_key(k) && z.contains_key(k) implies mergeable(
                    y[k],
                    z[k],
                ) by {
                    assert(xy.contains_key(k));
                    if x.contains_key(k) {
                        lemma_merge_associative(x[k], y[k], z[k]);
                    }
                }
                assert forall|k: Seq<char>| x.contains_key(k) && yz.contains_key(k) implies mergeable(
                    x[k],
                    yz[k],
                ) by {
                    assert(xy.contains_key(k));
                    if y.contains_key(k) && z.contains_key(k) {
                        lemma_merge_associative(x[k], y[k], z[k]);
                    }
                }
                assert(right);
            }
            if right {
                assert forall|k: Seq<char>| x.contains_key(k) && y.contains_key(k) implies mergeable(
                    x[k],
                    y[k],
                ) by {
                    assert(yz.contains_key(k));
                    if z.contains_key(k) {
                        lemma_merge_associative(x[k], y[k], z[k]);
                    }
                }
                assert forall|k: Seq<char>| xy.contains_key(k) && z.contains_key(k) implies mergeable(
                    xy[k],
                    z[k],
                ) by {
                    if x.contains_key(k) {
                        assert(yz.contains_key(k));
                    }
                    if x.contains_key(k) && y.contains_key(k) {
                        lemma_merge_associative(x[k], y[k], z[k]);
                    }
                }
                assert(left);
            }
            if left {
                let one = merged(merged(a, b), c)->Mapping_0;
                let two = merged(a, merged(b, c))->Mapping_0;
                assert forall|k: Seq<char>| one.contains_key(k) implies one[k] == two[k] by {
                    if x.contains_key(k) && y.contains_key(k) && z.contains_key(k) {
                        lemma_merge_associative(x[k], y[k], z[k]);
                    }
                    if xy.contains_key(k) {
                    }
                    if yz.contains_key(k) {
                    }
                }
                assert(one =~= two);
            }
        },
        _ => {},
    }
}

/// Every tree stands for itself, in both directions: a tree compared with
/// itself is found unchanged.
pub proof fn lemma_stands_for_itself(a: TemplateTree, forward: bool)
    ensures
        stands_for(a, a, forward),
    decreases a,
{
    match a {
        TemplateTree::Value(_) => {},
        TemplateTree::Mapping(x) => {
            assert forall|k: Seq<char>| x.contains_key(k) implies stands_for(
                x[k],
                x[k],
                forward,
            ) by {
                lemma_stands_for_itself(x[k], forward);
            }
        },
        TemplateTree::Sequence(x) => {
            if forward {
                assert forall|i: int| #![trigger x[i]] 0 <= i < x.len() implies found_in(x[i], x) by {
                    lemma_stands_for_itself(x[i], false);
                }
            } else {
                assert forall|j: int| #![trigger x[j]] 0 <= j < x.len() implies found_among(x, x[j]) by {
                    lemma_stands_for_itself(x[j], true);
                }
            }
        },
    }
}

/// Whether two trees merge does not depend on which is merged into which.
pub proof fn lemma_mergeable_symmetric(a: TemplateTree, b: TemplateTree)
    ensures
        mergeable(a, b) == mergeable(b, a),
    decreases a,
{
    match (a, b) {
        (TemplateTree::Mapping(x), TemplateTree::Mapping(y)) => {
            assert forall|k: Seq<char>| x.contains_key(k) && y.contains_key(k) implies mergeable(
                x[k],
                y[k],
            ) == mergeable(y[k], x[k]) by {
                lemma_mergeable_symmetric(x[k], y[k]);
            }
        },
        _ => {},
    }
}

/// Whether the merge of two trees is the same in both orders as far as
/// their sequences go: where both hold a sequence at one place, joining the
/// two gives the same in both orders.
pub open spec fn sequences_commute(a: TemplateTree, b: TemplateTree) -> bool
    decreases a,
{
    match (a, b) {
        (TemplateTree::Mapping(x), TemplateTree::Mapping(y)) => forall|k: Seq<char>|
            x.contains_key(k) && y.contains_key(k) ==> sequences_commute(x[k], y[k]),
        (TemplateTree::Sequence(x), TemplateTree::Sequence(y)) => x + y == y + x,
        _ => true,
    }
}

/// Trees that merge, and whose sequences commute, merge into the same tree
/// in both orders.
pub proof fn lemma_merge_commutes(a: TemplateTree, b: TemplateTree)
    requires
        mergeable(a, b),
        sequences_commute(a, b),
    ensures
        merged(a, b) == merged(b, a),
    decreases a,
{
    match (a, b) {
        (TemplateTree::Mapping(x), TemplateTree::Mapping(y)) => {
            let one = merged(a, b)->Mapping_0;
            let two = merged(b, a)->Mapping_0;
            assert forall|k: Seq<char>| one.contains_key(k) implies one[k] == two[k] by {
                if x.contains_key(k) && y.contains_key(k) {
                    lemma_merge_commutes(x[k], y[k]);
                }
            }
            assert(one =~= two);
        },
        _ => {},
    }
}

impl PartialEq for TemplateValue {
    /// Compares two values as the comparison of templates has it, which on
    /// sequences asks only that every item of `self` is found in `other`.
    fn eq(&self, other: &Self) -> (same: bool) {
        compare(self, other, true)
    }
}

impl vstd::std_specs::cmp::PartialEqSpecImpl for TemplateValue {
    open spec fn obeys_eq_spec() -> bool {
        true
    }

    open spec fn eq_spec(&self, other: &Self) -> bool {
        tree_eq(self@, other@)
    }
}

impl Clone for TemplateValue {
    /// Copies the value with all its parts.
    fn clone(&self) -> (copy: Self)
        ensures
            copy@ == self@,
        decreases self,
    {
        proof {
            lemma_view(*self);
            if let TemplateValue::Mapping(map) = self {
                use_type_invariant(map);
            }
        }
        match self {
            TemplateValue::Value(text) => {
                let copy = TemplateValue::Value(text.clone());
                proof {
                    lemma_view(copy);
                }
                copy
            },
            TemplateValue::Mapping(map) => {
                let copy = TemplateValue::Mapping(clone_map(map));
                proof {
                    lemma_view(copy);
                    if let TemplateValue::Mapping(made) = &copy {
                        use_type_invariant(made);
                    }
                }
                copy
            },
            TemplateValue::Sequence(items) => {
                let mut copies: Vec<TemplateValue> = Vec::new();
                let mut i: usize = 0;
                while i < items.len()
                    invariant
                        i <= items.len(),
                        *self == TemplateValue::Sequence(*items),
                        copies.len() == i,
                        forall|j: int| 0 <= j < i ==> (#[trigger] copies[j])@ == items@[j]@,
                    decreases items.len() - i,
                {
                    proof {
                        assert(self->Sequence_0 == *items);
                        assert(decreases_to!(*self => items@[i as int]));
                    }
                    copies.push(items[i].clone());
                    i += 1;
                }
                let copy = TemplateValue::Sequence(copies);
                proof {
                    lemma_view(copy);
                    assert(tree_seq(copies@) =~= tree_seq(items@));
                }
                copy
            },
        }
    }
}

/// Copies the mapping with all its values, in its order.
pub fn clone_map(map: &StrMap<TemplateValue>) -> (copy: StrMap<TemplateValue>)
    ensures
        tree_map(copy.entries()) == tree_map(map.entries()),
    decreases map,
{
    proof {
        use_type_invariant(map);
    }
    let ghost xs = map.entries();
    let mut copy: StrMap<TemplateValue> = StrMap::new();
    let mut i: usize = 0;
    while i < map.len()
        invariant
            i <= xs.len(),
            xs == map.entries(),
            map.wf(),
            copy.wf(),
            copy.entries().len() == i,
            forall|j: int|
                0 <= j < i ==> (#[trigger] copy.entries()[j]).0 == xs[j].0 && copy.entries()[j].1@
                    == xs[j].1@,
        decreases xs.len() - i,
    {
        let key = map.key_at(i);
        let value = map.value_at(i);
        let ghost before = copy.entries();
        proof {
            map.lemma_entries();
            assert(*value == map.entries@[i as int].1);
            assert(decreases_to!(map => map.entries@[i as int].1));
            assert(!has_key(before, key@)) by {
                if has_key(before, key@) {
                    let j = index_of_key(before, key@);
                    assert(before[j].0 == xs[j].0);
                    assert(xs[j].0 != xs[i as int].0);
                }
            }
        }
        copy.insert(key.clone(), value.clone());
        i += 1;
    }
    proof {
        let ys = copy.entries();
        lemma_tree_map(xs);
        lemma_tree_map(ys);
        assert forall|k: Seq<char>| tree_map(ys).contains_key(k) <==> tree_map(xs).contains_key(
            k,
        ) by {
            if has_key(ys, k) {
                let j = index_of_key(ys, k);
                assert(xs[j].0 == k);
            }
            if has_key(xs, k) {
                let j = index_of_key(xs, k);
                assert(ys[j].0 == k);
            }
        }
        assert forall|k: Seq<char>| tree_map(ys).contains_key(k) implies tree_map(ys)[k]
            == tree_map(xs)[k] by {
            let j = index_of_key(ys, k);
            assert(ys[j].0 == xs[j].0);
            lemma_lookup_at(ys, j);
            lemma_lookup_at(xs, j);
        }
        assert(tree_map(ys) =~= tree_map(xs));
    }
    copy
}

} // verus!
