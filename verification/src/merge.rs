//! The merge of trees, stated without regard to the order of their entries.

use crate::config::{
    packages_of, with_packages, ConfigView, FileView, HookView, ManagerView,
};
use crate::strmap::{
    as_map, distinct_keys, has_key, index_of_key, lemma_lookup_at, lemma_with_entries,
    lemma_with_entry, lookup,
};
use crate::strset::{lemma_with_items, with_items};
use crate::template::{
    lemma_leaves_conflict, lemma_merge_associative, lemma_merge_commutes,
    lemma_mergeable_symmetric, mergeable_maps, merged, merged_maps, sequences_commute,
    TemplateTree,
};
use vstd::prelude::*;

verus! {

/// The content of a desired-state tree as maps and sets.
pub struct ConfigTree {
    pub managers: Map<Seq<char>, ManagerView>,
    pub packages: Map<Seq<char>, Set<Seq<char>>>,
    pub once: Map<Seq<char>, HookView>,
    pub update: Map<Seq<char>, HookView>,
    pub files: Map<Seq<char>, FileView>,
    pub template: Map<Seq<char>, TemplateTree>,
    pub import: Set<Seq<char>>,
    pub disable: bool,
}

/// The packages of each manager of `list`, as sets.
pub open spec fn package_sets(list: Seq<(Seq<char>, Seq<Seq<char>>)>) -> Map<
    Seq<char>,
    Set<Seq<char>>,
> {
    Map::new(|k: Seq<char>| has_key(list, k), |k: Seq<char>| list[index_of_key(list, k)].1.to_set())
}

/// The sets of `a` and `b` joined, manager by manager.
pub open spec fn union_packages(
    a: Map<Seq<char>, Set<Seq<char>>>,
    b: Map<Seq<char>, Set<Seq<char>>>,
) -> Map<Seq<char>, Set<Seq<char>>> {
    Map::new(
        |k: Seq<char>| a.contains_key(k) || b.contains_key(k),
        |k: Seq<char>|
            (if a.contains_key(k) {
                a[k]
            } else {
                Set::empty()
            }).union(
                if b.contains_key(k) {
                    b[k]
                } else {
                    Set::empty()
                },
            ),
    )
}

impl ConfigView {
    /// The content of the tree, without the order of its entries.
    pub open spec fn tree(self) -> ConfigTree {
        ConfigTree {
            managers: as_map(self.managers),
            packages: package_sets(self.packages),
            once: as_map(self.hooks.once),
            update: as_map(self.hooks.update),
            files: as_map(self.files),
            template: self.template,
            import: self.module.import.to_set(),
            disable: self.module.disable,
        }
    }
}

impl ConfigTree {
    /// Whether `other` merges into this tree without conflict.
    pub open spec fn merges_with(self, other: ConfigTree) -> bool {
        mergeable_maps(self.template, other.template)
    }

    /// The merge of `other` into this tree.
    pub open spec fn merged_with(self, other: ConfigTree) -> ConfigTree {
        ConfigTree {
            managers: self.managers.union_prefer_right(other.managers),
            packages: union_packages(self.packages, other.packages),
            once: self.once.union_prefer_right(other.once),
            update: self.update.union_prefer_right(other.update),
            files: self.files.union_prefer_right(other.files),
            template: merged_maps(self.template, other.template),
            import: self.import,
            disable: self.disable,
        }
    }

    /// Whether the merge of the two trees is the same in both orders as far
    /// as replacement and joining go: what both trees name, they name alike;
    /// where both hold a sequence at one place of the template variables,
    /// joining the two gives the same in both orders; and their import
    /// directives are the same.
    pub open spec fn agrees_with(self, other: ConfigTree) -> bool {
        &&& forall|k: Seq<char>|
            self.managers.contains_key(k) && other.managers.contains_key(k) ==> self.managers[k]
                == other.managers[k]
        &&& forall|k: Seq<char>|
            self.once.contains_key(k) && other.once.contains_key(k) ==> self.once[k] == other.once[k]
        &&& forall|k: Seq<char>|
            self.update.contains_key(k) && other.update.contains_key(k) ==> self.update[k]
                == other.update[k]
        &&& forall|k: Seq<char>|
            self.files.contains_key(k) && other.files.contains_key(k) ==> self.files[k]
                == other.files[k]
        &&& sequences_commute(
            TemplateTree::Mapping(self.template),
            TemplateTree::Mapping(other.template),
        )
        &&& self.import == other.import
        &&& self.disable == other.disable
    }
}

/// Adding packages keeps names and packages distinct; on the sets it joins
/// them manager by manager.
pub proof fn lemma_with_packages(
    list: Seq<(Seq<char>, Seq<Seq<char>>)>,
    more: Seq<(Seq<char>, Seq<Seq<char>>)>,
)
    requires
        distinct_keys(list),
        distinct_keys(more),
    ensures
        distinct_keys(with_packages(list, more)),
        package_sets(with_packages(list, more)) == union_packages(
            package_sets(list),
            package_sets(more),
        ),
    decreases more.len(),
{
    let out = with_packages(list, more);
    if more.len() == 0 {
        let right = union_packages(package_sets(list), package_sets(more));
        assert forall|k: Seq<char>| package_sets(out).contains_key(k) implies package_sets(out)[k]
            == right[k] by {
            assert(package_sets(out)[k] =~= right[k]);
        }
        assert(package_sets(out) =~= right);
    } else {
        let front = more.drop_last();
        let manager = more.last().0;
        let packages = more.last().1;
        let sofar = with_packages(list, front);
        assert(distinct_keys(front)) by {
            assert forall|i: int, j: int| 0 <= i < j < front.len() implies front[i].0
                != front[j].0 by {
                assert(more[i].0 != more[j].0);
            }
        }
        lemma_with_packages(list, front);
        let present = packages_of(sofar, manager);
        let joint = with_items(present, packages);
        lemma_with_items(present, packages);
        lemma_with_entry(sofar, manager, joint);
        lemma_lookup_at(more, more.len() - 1);
        assert(!has_key(front, manager)) by {
            if has_key(front, manager) {
                let i = index_of_key(front, manager);
                assert(more[i].0 != more[more.len() - 1].0);
            }
        }
        assert forall|k: Seq<char>| k != manager implies has_key(more, k) == has_key(front, k)
            && lookup(more, k) == lookup(front, k) by {
            if has_key(more, k) {
                let i = index_of_key(more, k);
                assert(front[i] == more[i]);
                lemma_lookup_at(more, i);
                lemma_lookup_at(front, i);
            }
            if has_key(front, k) {
                let i = index_of_key(front, k);
                assert(front[i] == more[i]);
                lemma_lookup_at(more, i);
                lemma_lookup_at(front, i);
            }
        }
        let left = package_sets(out);
        let right = union_packages(package_sets(list), package_sets(more));
        let middle = union_packages(package_sets(list), package_sets(front));
        assert(package_sets(sofar) == middle);
        assert forall|k: Seq<char>| left.contains_key(k) <==> right.contains_key(k) by {
            if k != manager {
                assert(has_key(out, k) == has_key(sofar, k));
                assert(package_sets(sofar).contains_key(k) == middle.contains_key(k));
            } else {
                assert(lookup(out, manager) == Some(joint));
            }
        }
        assert forall|k: Seq<char>| left.contains_key(k) implies left[k] == right[k] by {
            if k != manager {
                assert(lookup(out, k) == lookup(sofar, k));
                assert(has_key(sofar, k));
                assert(package_sets(sofar)[k] == middle[k]);
                assert(lookup(more, k) == lookup(front, k));
                assert(left[k] == package_sets(sofar)[k]);
                assert(middle[k] =~= right[k]);
            } else {
                assert(lookup(out, manager) == Some(joint));
                assert(left[k] == joint.to_set());
                assert(package_sets(more)[manager] == packages.to_set());
                if has_key(sofar, manager) {
                    assert(package_sets(sofar)[manager] == present.to_set());
                    assert(middle[manager] == present.to_set());
                    assert(package_sets(list).contains_key(manager));
                    assert(middle[manager] =~= package_sets(list)[manager]);
                } else {
                    assert(!middle.contains_key(manager));
                    assert(present =~= Seq::empty());
                    assert(present.to_set() =~= Set::empty());
                }
                assert(left[k] =~= right[k]);
            }
        }
        assert(left =~= right);
    }
}

/// The content of a merge of trees is the merge of their contents.
pub proof fn lemma_merged_tree(a: ConfigView, b: ConfigView)
    requires
        a.wf(),
        b.wf(),
    ensures
        a.merged_with(b).wf(),
        a.merges_with(b) == a.tree().merges_with(b.tree()),
        a.merged_with(b).tree() == a.tree().merged_with(b.tree()),
{
    lemma_with_entries(a.managers, b.managers);
    lemma_with_entries(a.hooks.once, b.hooks.once);
    lemma_with_entries(a.hooks.update, b.hooks.update);
    lemma_with_entries(a.files, b.files);
    lemma_with_packages(a.packages, b.packages);
}

/// Merging trees is associative: whether three trees merge, and into what,
/// does not depend on which two are merged first.
pub proof fn lemma_merge_is_associative(a: ConfigTree, b: ConfigTree, c: ConfigTree)
    ensures
        (a.merges_with(b) && a.merged_with(b).merges_with(c)) == (b.merges_with(c)
            && a.merges_with(b.merged_with(c))),
        a.merges_with(b) && a.merged_with(b).merges_with(c) ==> a.merged_with(b).merged_with(c)
            == a.merged_with(b.merged_with(c)),
{
    let ta = TemplateTree::Mapping(a.template);
    let tb = TemplateTree::Mapping(b.template);
    let tc = TemplateTree::Mapping(c.template);
    lemma_merge_associative(ta, tb, tc);
    assert(merged(ta, tb) == TemplateTree::Mapping(merged_maps(a.template, b.template)));
    assert(merged(tb, tc) == TemplateTree::Mapping(merged_maps(b.template, c.template)));
    if a.merges_with(b) && a.merged_with(b).merges_with(c) {
        let one = a.merged_with(b).merged_with(c);
        let two = a.merged_with(b.merged_with(c));
        assert(one.managers =~= two.managers);
        assert(one.once =~= two.once);
        assert(one.update =~= two.update);
        assert(one.files =~= two.files);
        assert(one.packages =~= two.packages) by {
            assert forall|k: Seq<char>| one.packages.contains_key(k) implies one.packages[k]
                =~= two.packages[k] by {}
        }
        assert(one.template == two.template);
    }
}

/// Whether two trees merge does not depend on which is merged into which.
pub proof fn lemma_merges_in_both_orders(a: ConfigTree, b: ConfigTree)
    ensures
        a.merges_with(b) == b.merges_with(a),
{
    let ta = TemplateTree::Mapping(a.template);
    let tb = TemplateTree::Mapping(b.template);
    lemma_mergeable_symmetric(ta, tb);
}

/// Trees that merge and agree merge into the same tree in both orders.
pub proof fn lemma_merge_is_commutative(a: ConfigTree, b: ConfigTree)
    requires
        a.merges_with(b),
        a.agrees_with(b),
    ensures
        a.merged_with(b) == b.merged_with(a),
{
    let one = a.merged_with(b);
    let two = b.merged_with(a);
    lemma_merge_commutes(TemplateTree::Mapping(a.template), TemplateTree::Mapping(b.template));
    assert(one.managers =~= two.managers);
    assert(one.once =~= two.once);
    assert(one.update =~= two.update);
    assert(one.files =~= two.files);
    assert(one.packages =~= two.packages) by {
        assert forall|k: Seq<char>| one.packages.contains_key(k) implies one.packages[k]
            =~= two.packages[k] by {}
    }
}

/// Trees whose template variables hold leaves under one name merge in
/// neither order.
pub proof fn lemma_leaf_conflict(a: ConfigTree, b: ConfigTree, name: Seq<char>)
    requires
        a.template.contains_key(name),
        b.template.contains_key(name),
        a.template[name] is Value,
        b.template[name] is Value,
    ensures
        !a.merges_with(b),
        !b.merges_with(a),
{
    lemma_leaves_conflict(a.template, b.template, name);
}

} // verus!
