//! What holds of the list of used globals, whatever the tree.

use vstd::prelude::*;
use crate::collect_globals::{
    all_references, element_references, is_global_listing, layout_references,
    lemma_recorded_is_referenced, listing_ids, only_used_global_differs, recorded,
    referenced_component, references_along, sub_component_layouts,
};
use crate::names::{lemma_strictly_sorted_distinct, lemma_strictly_sorted_unique};
use crate::object_tree::{ElementType, NamedReference, ObjectTree};
use crate::visit::{children_order, sub_component_order, visit_order};

verus! {

/// Whether two trees hold the same elements and the same components, but for
/// the lists of used globals.
pub open spec fn same_structure(a: &ObjectTree, b: &ObjectTree) -> bool {
    &&& a.elements@ == b.elements@
    &&& a.components@.len() == b.components@.len()
    &&& forall|c: int|
        0 <= c < a.components@.len() ==> {
            &&& (#[trigger] a.components@[c]).id == b.components@[c].id
            &&& a.components@[c].root_element == b.components@[c].root_element
            &&& a.components@[c].layouts == b.components@[c].layouts
        }
}

proof fn lemma_same_element_wf(a: &ObjectTree, b: &ObjectTree, e: int)
    requires
        same_structure(a, b),
        0 <= e < a.elements@.len(),
    ensures
        a.element_wf(e) == b.element_wf(e),
{
    match a.elements@[e].base_type {
        ElementType::Component(c) => {
            if c < a.components@.len() {
                assert(a.components@[c as int].root_element == b.components@[c
                    as int].root_element);
            }
        },
        _ => {},
    }
}

proof fn lemma_same_visit_order(a: &ObjectTree, b: &ObjectTree, e: int)
    requires
        same_structure(a, b),
    ensures
        visit_order(a, e) == visit_order(b, e),
    decreases e, 1int, 0int,
{
    if 0 <= e < a.elements@.len() {
        lemma_same_element_wf(a, b, e);
        if a.element_wf(e) {
            lemma_same_sub_component_order(a, b, e);
            lemma_same_children_order(a, b, e, a.elements@[e].children@.len() as int);
        }
    }
}

proof fn lemma_same_sub_component_order(a: &ObjectTree, b: &ObjectTree, e: int)
    requires
        same_structure(a, b),
    ensures
        sub_component_order(a, e) == sub_component_order(b, e),
    decreases e, 0int, 0int,
{
    if 0 <= e < a.elements@.len() {
        lemma_same_element_wf(a, b, e);
        if a.element_wf(e) && a.elements@[e].repeated {
            match a.elements@[e].base_type {
                ElementType::Component(c) => {
                    assert(a.components@[c as int].root_element == b.components@[c
                        as int].root_element);
                    lemma_same_visit_order(a, b, a.components@[c as int].root_element as int);
                },
                _ => {},
            }
        }
    }
}

proof fn lemma_same_children_order(a: &ObjectTree, b: &ObjectTree, e: int, n: int)
    requires
        same_structure(a, b),
    ensures
        children_order(a, e, n) == children_order(b, e, n),
    decreases e, 0int, n,
{
    if 0 <= e < a.elements@.len() {
        lemma_same_element_wf(a, b, e);
        if a.element_wf(e) && 0 < n <= a.elements@[e].children@.len() {
            lemma_same_children_order(a, b, e, n - 1);
            lemma_same_visit_order(a, b, a.elements@[e].children@[n - 1] as int);
        }
    }
}

proof fn lemma_same_references_along(a: &ObjectTree, b: &ObjectTree, order: Seq<usize>, n: int)
    requires
        same_structure(a, b),
        a.wf(),
        forall|i: int| 0 <= i < order.len() ==> order[i] < a.elements@.len(),
    ensures
        references_along(a, order, n) == references_along(b, order, n),
    decreases n,
{
    if 0 < n <= order.len() {
        lemma_same_references_along(a, b, order, n - 1);
        let e = order[n - 1] as int;
        assert(a.element_wf(e));
        if a.elements@[e].repeated {
            match a.elements@[e].base_type {
                ElementType::Component(c) => {
                    assert(a.components@[c as int].layouts == b.components@[c as int].layouts);
                },
                _ => {},
            }
        }
        assert(sub_component_layouts(a, e) == sub_component_layouts(b, e));
        assert(element_references(a, e) == element_references(b, e));
    }
}

proof fn lemma_same_recorded(
    a: &ObjectTree,
    b: &ObjectTree,
    references: Seq<NamedReference>,
    id: Seq<char>,
)
    requires
        same_structure(a, b),
        a.wf(),
        crate::object_tree::references_resolve(references, a.elements@.len() as int),
    ensures
        recorded(a, references, id, None) == recorded(b, references, id, None),
    decreases references.len(),
{
    if references.len() > 0 {
        let last = references.last();
        assert(references[references.len() - 1].element < a.elements@.len());
        assert(a.element_wf(last.element as int));
        let c = referenced_component(a, last);
        assert(a.components@[c as int].id == b.components@[c as int].id);
        assert(a.components@[c as int].root_element == b.components@[c as int].root_element);
        let rest = references.drop_last();
        assert forall|i: int| 0 <= i < rest.len() implies (#[trigger] rest[i]).element
            < a.elements@.len() by {
            assert(rest[i] == references[i]);
        }
        lemma_same_recorded(a, b, rest, id);
    }
}

/// A listing of the globals used by a component is one for the same
/// component in any tree of the same structure.
pub proof fn lemma_same_listing(a: &ObjectTree, b: &ObjectTree, root: int, listing: Seq<usize>)
    requires
        same_structure(a, b),
        a.wf(),
        0 <= root < a.components@.len(),
        is_global_listing(a, root, listing),
    ensures
        is_global_listing(b, root, listing),
{
    assert(a.component_wf(root));
    let start = a.components@[root].root_element as int;
    assert(a.components@[root].root_element == b.components@[root].root_element);
    assert(a.components@[root].layouts == b.components@[root].layouts);
    lemma_same_visit_order(a, b, start);
    crate::visit::lemma_visit_order_in_range(a, start);
    let order = visit_order(a, start);
    lemma_same_references_along(a, b, order, order.len() as int);
    let references = all_references(a, root);
    assert(references == all_references(b, root));
    crate::collect_globals::lemma_references_resolve(a, root);
    assert(listing_ids(a, listing) =~= listing_ids(b, listing)) by {
        assert forall|i: int| 0 <= i < listing.len() implies a.components@[listing[i] as int].id@
            == b.components@[listing[i] as int].id@ by {
            assert(a.components@[listing[i] as int].id == b.components@[listing[i] as int].id);
        }
    }
    assert forall|id: Seq<char>|
        recorded(a, references, id, None) == #[trigger] recorded(b, references, id, None) by {
        lemma_same_recorded(a, b, references, id);
    }
    assert forall|i: int| 0 <= i < listing.len() implies recorded(
        b,
        references,
        #[trigger] listing_ids(b, listing)[i],
        None,
    ) == Some(listing[i]) by {
        let id = listing_ids(a, listing)[i];
        assert(recorded(a, references, id, None) == Some(listing[i]));
        assert(recorded(b, references, id, None) == recorded(a, references, id, None));
    }
}

/// A component has one list of used globals: two listings of the globals
/// used by the same component of the same tree are equal, in content and in
/// order.
pub proof fn lemma_listing_unique(
    tree: &ObjectTree,
    root: int,
    first: Seq<usize>,
    second: Seq<usize>,
)
    requires
        is_global_listing(tree, root, first),
        is_global_listing(tree, root, second),
    ensures
        first == second,
{
    let references = all_references(tree, root);
    let a = listing_ids(tree, first);
    let b = listing_ids(tree, second);
    assert forall|k: Seq<char>| a.contains(k) <==> b.contains(k) by {
        if a.contains(k) {
            let i = choose|i: int| 0 <= i < a.len() && a[i] == k;
            assert(recorded(tree, references, a[i], None) == Some(first[i]));
        }
        if b.contains(k) {
            let i = choose|i: int| 0 <= i < b.len() && b[i] == k;
            assert(recorded(tree, references, b[i], None) == Some(second[i]));
        }
    }
    lemma_strictly_sorted_unique(a, b);
    assert forall|i: int| 0 <= i < first.len() implies first[i] == second[i] by {
        assert(recorded(tree, references, a[i], None) == Some(first[i]));
        assert(recorded(tree, references, b[i], None) == Some(second[i]));
    }
    assert(first =~= second);
}

/// Running the pass a second time on a tree that nothing else has changed
/// gives the same list of used globals, in the same order.
///
/// `before` is the tree as it was, `after` the tree that the first run left,
/// and `again` the tree that the second run left.
pub proof fn lemma_collect_globals_deterministic(
    before: &ObjectTree,
    after: &ObjectTree,
    again: &ObjectTree,
    root: int,
)
    requires
        before.wf(),
        0 <= root < before.components@.len(),
        only_used_global_differs(before, after, root),
        is_global_listing(before, root, after.components@[root].used_global@),
        only_used_global_differs(after, again, root),
        is_global_listing(after, root, again.components@[root].used_global@),
    ensures
        again.components@[root].used_global@ == after.components@[root].used_global@,
{
    crate::collect_globals::lemma_wf_kept(before, after, root);
    assert(same_structure(after, before)) by {
        assert forall|c: int| 0 <= c < after.components@.len() implies {
            &&& (#[trigger] after.components@[c]).id == before.components@[c].id
            &&& after.components@[c].root_element == before.components@[c].root_element
            &&& after.components@[c].layouts == before.components@[c].layouts
        } by {
            if c != root {
                assert(after.components@[c] == before.components@[c]);
            }
        }
    }
    lemma_same_listing(after, before, root, again.components@[root].used_global@);
    lemma_listing_unique(
        before,
        root,
        after.components@[root].used_global@,
        again.components@[root].used_global@,
    );
}

/// No global stands twice in the list of used globals, however often and
/// wherever it is referenced; nor do two globals of one id.
pub proof fn lemma_listing_has_no_duplicates(
    tree: &ObjectTree,
    root: int,
    listing: Seq<usize>,
    i: int,
    j: int,
)
    requires
        is_global_listing(tree, root, listing),
        0 <= i < listing.len(),
        0 <= j < listing.len(),
        tree.components@[listing[i] as int].id@ == tree.components@[listing[j] as int].id@,
    ensures
        i == j,
{
    let ids = listing_ids(tree, listing);
    assert(ids[i] == ids[j]);
    lemma_strictly_sorted_distinct(ids, i, j);
}

/// Whether some reference reachable from component `root` leads to
/// component `c`.
pub open spec fn is_referenced(tree: &ObjectTree, root: int, c: usize) -> bool {
    exists|i: int|
        0 <= i < all_references(tree, root).len() && referenced_component(
            tree,
            #[trigger] all_references(tree, root)[i],
        ) == c
}

/// Whether `c` is the only global of its id that is referenced from
/// component `root`.
pub open spec fn is_only_referenced_global_of_its_id(
    tree: &ObjectTree,
    root: int,
    c: usize,
) -> bool {
    forall|i: int|
        0 <= i < all_references(tree, root).len() ==> {
            let other = referenced_component(tree, #[trigger] all_references(tree, root)[i]);
            tree.spec_is_global(other as int) && tree.components@[other as int].id@
                == tree.components@[c as int].id@ ==> other == c
        }
}

/// A global that is referenced, from however many places, has its id in the
/// list of used globals exactly once. Where it is the only referenced global
/// of its id, it stands there itself.
pub proof fn lemma_referenced_global_listed_once(
    tree: &ObjectTree,
    root: int,
    listing: Seq<usize>,
    c: usize,
) -> (at: int)
    requires
        is_global_listing(tree, root, listing),
        tree.spec_is_global(c as int),
        is_referenced(tree, root, c),
    ensures
        0 <= at < listing.len(),
        tree.components@[listing[at] as int].id@ == tree.components@[c as int].id@,
        forall|other: int|
            0 <= other < listing.len() && tree.components@[listing[other] as int].id@
                == tree.components@[c as int].id@ ==> other == at,
        is_only_referenced_global_of_its_id(tree, root, c) ==> listing[at] == c,
{
    let references = all_references(tree, root);
    let id = tree.components@[c as int].id@;
    let ids = listing_ids(tree, listing);
    lemma_recorded_is_referenced(tree, references, id);
    let witness = choose|i: int|
        0 <= i < references.len() && referenced_component(tree, #[trigger] references[i]) == c;
    assert(recorded(tree, references, id, None) is Some);
    assert(ids.contains(id));
    let at = choose|at: int| 0 <= at < ids.len() && ids[at] == id;
    assert forall|other: int|
        0 <= other < listing.len() && tree.components@[listing[other] as int].id@
            == id implies other == at by {
        lemma_listing_has_no_duplicates(tree, root, listing, other, at);
    }
    assert(recorded(tree, references, ids[at], None) == Some(listing[at]));
    if is_only_referenced_global_of_its_id(tree, root, c) {
        let found = listing[at];
        let from = choose|i: int|
            0 <= i < references.len() && referenced_component(tree, references[i]) == found;
        assert(referenced_component(tree, references[from]) == found);
    }
    at
}

/// A root component that is itself a global and refers to itself is
/// recorded: its id stands in its own list of used globals. Where no other
/// referenced global has that id, the component stands there itself.
pub proof fn lemma_self_reference_recorded(tree: &ObjectTree, root: usize, listing: Seq<usize>)
    requires
        is_global_listing(tree, root as int, listing),
        tree.spec_is_global(root as int),
        is_referenced(tree, root as int, root),
    ensures
        listing_ids(tree, listing).contains(tree.components@[root as int].id@),
        is_only_referenced_global_of_its_id(tree, root as int, root) ==> listing.contains(root),
{
    let at = lemma_referenced_global_listed_once(tree, root as int, listing, root);
    assert(listing_ids(tree, listing)[at] == tree.components@[root as int].id@);
    if is_only_referenced_global_of_its_id(tree, root as int, root) {
        assert(listing[at] == root);
    }
}

/// Where no reference reachable from a component leads to a global, its list
/// of used globals is empty.
pub proof fn lemma_no_global_referenced(tree: &ObjectTree, root: int, listing: Seq<usize>)
    requires
        is_global_listing(tree, root, listing),
        forall|i: int|
            0 <= i < all_references(tree, root).len() ==> !tree.spec_is_global(
                referenced_component(tree, #[trigger] all_references(tree, root)[i]) as int,
            ),
    ensures
        listing.len() == 0,
{
    if listing.len() > 0 {
        let references = all_references(tree, root);
        let id = listing_ids(tree, listing)[0];
        assert(recorded(tree, references, id, None) == Some(listing[0]));
        lemma_recorded_is_referenced(tree, references, id);
    }
}

} // verus!
