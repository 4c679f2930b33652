//! The pass that fills a root component's list of used globals.

use vstd::prelude::*;
use crate::name_map::NameMap;
use crate::names::strictly_sorted;
use crate::object_tree::{
    all_below, references_resolve, ElementType, Layout, NamedReference, ObjectTree,
};
use crate::visit::{lemma_visit_order_in_range, visit_elements, visit_order};

verus! {

/// The named references held by the first `n` of `layouts`, in order.
pub open spec fn layout_references(layouts: Seq<Layout>, n: int) -> Seq<NamedReference>
    decreases n,
{
    if 0 < n <= layouts.len() {
        layout_references(layouts, n - 1) + layouts[n - 1].named_references@
    } else {
        Seq::empty()
    }
}

/// The layouts that are looked at with element `e`: those of its base
/// component where `e` is a repeated instance of one, none otherwise.
pub open spec fn sub_component_layouts(tree: &ObjectTree, e: int) -> Seq<Layout> {
    if tree.elements@[e].repeated {
        match tree.elements@[e].base_type {
            ElementType::Component(c) => tree.components@[c as int].layouts@,
            _ => Seq::empty(),
        }
    } else {
        Seq::empty()
    }
}

/// The named references looked at when element `e` is visited: those in the
/// layouts of its repeated sub-component, then its own.
pub open spec fn element_references(tree: &ObjectTree, e: int) -> Seq<NamedReference> {
    let layouts = sub_component_layouts(tree, e);
    layout_references(layouts, layouts.len() as int) + tree.elements@[e].named_references@
}

/// The named references looked at along the first `n` elements of `order`.
pub open spec fn references_along(tree: &ObjectTree, order: Seq<usize>, n: int) -> Seq<
    NamedReference,
>
    decreases n,
{
    if 0 < n <= order.len() {
        references_along(tree, order, n - 1) + element_references(tree, order[n - 1] as int)
    } else {
        Seq::empty()
    }
}

/// Every named reference reachable from component `root`, in the order in
/// which the pass looks at them: those of the visited elements, then those in
/// the component's own layouts.
pub open spec fn all_references(tree: &ObjectTree, root: int) -> Seq<NamedReference> {
    let order = visit_order(tree, tree.components@[root].root_element as int);
    let layouts = tree.components@[root].layouts@;
    references_along(tree, order, order.len() as int) + layout_references(
        layouts,
        layouts.len() as int,
    )
}

/// The component that encloses the element a reference points to.
pub open spec fn referenced_component(tree: &ObjectTree, reference: NamedReference) -> usize {
    tree.elements@[reference.element as int].enclosing_component
}

/// The global recorded under `id` once `references` have been looked at,
/// where `before` was recorded under it at the start: the component of the
/// last reference that leads to a global of that id, or `before` if there is
/// no such reference.
pub open spec fn recorded(
    tree: &ObjectTree,
    references: Seq<NamedReference>,
    id: Seq<char>,
    before: Option<usize>,
) -> Option<usize>
    decreases references.len(),
{
    if references.len() == 0 {
        before
    } else {
        let c = referenced_component(tree, references.last());
        if tree.spec_is_global(c as int) && tree.components@[c as int].id@ == id {
            Some(c)
        } else {
            recorded(tree, references.drop_last(), id, before)
        }
    }
}

/// The ids of the components in `listing`.
pub open spec fn listing_ids(tree: &ObjectTree, listing: Seq<usize>) -> Seq<Seq<char>> {
    Seq::new(listing.len(), |i: int| tree.components@[listing[i] as int].id@)
}

/// Whether `listing` is the list of globals used by component `root`: it is
/// strictly sorted by id, and it holds under each id exactly the global that
/// the references reachable from `root` record there.
pub open spec fn is_global_listing(tree: &ObjectTree, root: int, listing: Seq<usize>) -> bool {
    let references = all_references(tree, root);
    &&& all_below(listing, tree.components@.len() as int)
    &&& strictly_sorted(listing_ids(tree, listing))
    &&& forall|i: int|
        0 <= i < listing.len() ==> recorded(
            tree,
            references,
            #[trigger] listing_ids(tree, listing)[i],
            None,
        ) == Some(listing[i])
    &&& forall|id: Seq<char>|
        (#[trigger] recorded(tree, references, id, None)) is Some ==> listing_ids(
            tree,
            listing,
        ).contains(id)
}

/// Looking at `first` and then at `second` records what looking at `second`
/// records on top of what `first` recorded.
pub proof fn lemma_recorded_concat(
    tree: &ObjectTree,
    first: Seq<NamedReference>,
    second: Seq<NamedReference>,
    id: Seq<char>,
    before: Option<usize>,
)
    ensures
        recorded(tree, first + second, id, before) == recorded(
            tree,
            second,
            id,
            recorded(tree, first, id, before),
        ),
    decreases second.len(),
{
    if second.len() == 0 {
        assert(first + second =~= first);
    } else {
        assert((first + second).last() == second.last());
        assert((first + second).drop_last() =~= first + second.drop_last());
        lemma_recorded_concat(tree, first, second.drop_last(), id, before);
    }
}

/// What is recorded under an id is a global component of that id that one of
/// the references leads to.
pub proof fn lemma_recorded_is_referenced(
    tree: &ObjectTree,
    references: Seq<NamedReference>,
    id: Seq<char>,
)
    ensures
        match recorded(tree, references, id, None) {
            Some(c) => tree.spec_is_global(c as int) && tree.components@[c as int].id@ == id
                && exists|i: int|
                0 <= i < references.len() && referenced_component(tree, references[i]) == c,
            None => forall|i: int|
                0 <= i < references.len() ==> !(tree.spec_is_global(
                    referenced_component(tree, #[trigger] references[i]) as int,
                ) && tree.components@[referenced_component(tree, references[i]) as int].id@
                    == id),
        },
    decreases references.len(),
{
    if references.len() > 0 {
        let c = referenced_component(tree, references.last());
        let rest = references.drop_last();
        lemma_recorded_is_referenced(tree, rest, id);
        if tree.spec_is_global(c as int) && tree.components@[c as int].id@ == id {
            assert(referenced_component(tree, references[references.len() - 1]) == c);
        } else {
            match recorded(tree, rest, id, None) {
                Some(found) => {
                    let i = choose|i: int|
                        0 <= i < rest.len() && referenced_component(tree, rest[i]) == found;
                    assert(references[i] == rest[i]);
                },
                None => {
                    assert forall|i: int| 0 <= i < references.len() implies !(tree.spec_is_global(
                        referenced_component(tree, #[trigger] references[i]) as int,
                    ) && tree.components@[referenced_component(tree, references[i]) as int].id@
                        == id) by {
                        if i < rest.len() {
                            assert(references[i] == rest[i]);
                        }
                    }
                },
            }
        }
    }
}

fn record_references(
    tree: &ObjectTree,
    references: &Vec<NamedReference>,
    globals: &mut NameMap<usize>,
)
    requires
        tree.wf(),
        references_resolve(references@, tree.elements@.len() as int),
        old(globals).wf(),
    ensures
        final(globals).wf(),
        forall|id: Seq<char>|
            (#[trigger] final(globals).value_of(id)) == recorded(
                tree,
                references@,
                id,
                old(globals).value_of(id),
            ),
{
    let ghost start = *globals;
    let mut i: usize = 0;
    while i < references.len()
        invariant
            tree.wf(),
            references_resolve(references@, tree.elements@.len() as int),
            globals.wf(),
            i <= references@.len(),
            forall|id: Seq<char>|
                (#[trigger] globals.value_of(id)) == recorded(
                    tree,
                    references@.take(i as int),
                    id,
                    start.value_of(id),
                ),
        decreases references@.len() - i,
    {
        let ghost before = *globals;
        let target = references[i].element;
        assert(references@[i as int].element < tree.elements@.len());
        assert(tree.element_wf(target as int));
        let c = tree.elements[target].enclosing_component;
        assert(tree.component_wf(c as int));
        if tree.is_global(c) {
            globals.insert(tree.components[c].id.clone(), c);
        }
        proof {
            let next = references@.take(i as int + 1);
            assert(next.last() == references@[i as int]);
            assert(next.drop_last() =~= references@.take(i as int));
            assert forall|id: Seq<char>| (#[trigger] globals.value_of(id)) == recorded(
                tree,
                next,
                id,
                start.value_of(id),
            ) by {
                assert(before.value_of(id) == recorded(
                    tree,
                    references@.take(i as int),
                    id,
                    start.value_of(id),
                ));
            }
        }
        i += 1;
    }
    assert(references@.take(i as int) =~= references@);
}

fn record_layouts(tree: &ObjectTree, layouts: &Vec<Layout>, globals: &mut NameMap<usize>)
    requires
        tree.wf(),
        crate::object_tree::layouts_resolve(layouts@, tree.elements@.len() as int),
        old(globals).wf(),
    ensures
        final(globals).wf(),
        forall|id: Seq<char>|
            (#[trigger] final(globals).value_of(id)) == recorded(
                tree,
                layout_references(layouts@, layouts@.len() as int),
                id,
                old(globals).value_of(id),
            ),
{
    let ghost start = *globals;
    let mut i: usize = 0;
    while i < layouts.len()
        invariant
            tree.wf(),
            crate::object_tree::layouts_resolve(layouts@, tree.elements@.len() as int),
            globals.wf(),
            i <= layouts@.len(),
            forall|id: Seq<char>|
                (#[trigger] globals.value_of(id)) == recorded(
                    tree,
                    layout_references(layouts@, i as int),
                    id,
                    start.value_of(id),
                ),
        decreases layouts@.len() - i,
    {
        let ghost before = *globals;
        assert(references_resolve(
            layouts@[i as int].named_references@,
            tree.elements@.len() as int,
        ));
        record_references(tree, &layouts[i].named_references, globals);
        proof {
            assert forall|id: Seq<char>| (#[trigger] globals.value_of(id)) == recorded(
                tree,
                layout_references(layouts@, i as int + 1),
                id,
                start.value_of(id),
            ) by {
                assert(before.value_of(id) == recorded(
                    tree,
                    layout_references(layouts@, i as int),
                    id,
                    start.value_of(id),
                ));
                lemma_recorded_concat(
                    tree,
                    layout_references(layouts@, i as int),
                    layouts@[i as int].named_references@,
                    id,
                    start.value_of(id),
                );
            }
        }
        i += 1;
    }
}

/// Whether `after` is `before` with nothing changed but the list of used
/// globals of component `root`.
pub open spec fn only_used_global_differs(
    before: &ObjectTree,
    after: &ObjectTree,
    root: int,
) -> bool {
    &&& after.elements@ == before.elements@
    &&& after.components@.len() == before.components@.len()
    &&& forall|c: int|
        0 <= c < before.components@.len() && c != root ==> after.components@[c]
            == before.components@[c]
    &&& after.components@[root].id == before.components@[root].id
    &&& after.components@[root].root_element == before.components@[root].root_element
    &&& after.components@[root].layouts == before.components@[root].layouts
}

/// Writing a list of existing components as the used globals of a component
/// keeps the tree well formed.
pub proof fn lemma_wf_kept(before: &ObjectTree, after: &ObjectTree, root: int)
    requires
        before.wf(),
        0 <= root < before.components@.len(),
        only_used_global_differs(before, after, root),
        all_below(after.components@[root].used_global@, before.components@.len() as int),
    ensures
        after.wf(),
{
    assert forall|e: int| 0 <= e < after.elements@.len() implies #[trigger] after.element_wf(
        e,
    ) by {
        assert(before.element_wf(e));
        match before.elements@[e].base_type {
            ElementType::Component(c) => {
                if c as int != root {
                    assert(after.components@[c as int] == before.components@[c as int]);
                }
            },
            _ => {},
        }
    }
    assert forall|c: int| 0 <= c < after.components@.len() implies #[trigger] after.component_wf(
        c,
    ) by {
        assert(before.component_wf(c));
        if c != root {
            assert(after.components@[c] == before.components@[c]);
        }
    }
}

/// Every reference reachable from a component of a well-formed tree points
/// to an element that exists.
pub proof fn lemma_references_resolve(tree: &ObjectTree, root: int)
    requires
        tree.wf(),
        0 <= root < tree.components@.len(),
    ensures
        references_resolve(all_references(tree, root), tree.elements@.len() as int),
{
    let count = tree.elements@.len() as int;
    assert(tree.component_wf(root));
    let order = visit_order(tree, tree.components@[root].root_element as int);
    lemma_visit_order_in_range(tree, tree.components@[root].root_element as int);
    lemma_references_along_resolve(tree, order, order.len() as int);
    let layouts = tree.components@[root].layouts@;
    lemma_layout_references_resolve(layouts, layouts.len() as int, count);
    lemma_resolve_concat(
        references_along(tree, order, order.len() as int),
        layout_references(layouts, layouts.len() as int),
        count,
    );
}

proof fn lemma_resolve_concat(a: Seq<NamedReference>, b: Seq<NamedReference>, count: int)
    requires
        references_resolve(a, count),
        references_resolve(b, count),
    ensures
        references_resolve(a + b, count),
{
    assert forall|i: int| 0 <= i < (a + b).len() implies (#[trigger] (a + b)[i]).element
        < count by {
        if i < a.len() {
            assert((a + b)[i] == a[i]);
        } else {
            assert((a + b)[i] == b[i - a.len()]);
        }
    }
}

proof fn lemma_layout_references_resolve(layouts: Seq<Layout>, n: int, count: int)
    requires
        crate::object_tree::layouts_resolve(layouts, count),
        0 <= n <= layouts.len(),
    ensures
        references_resolve(layout_references(layouts, n), count),
    decreases n,
{
    if n > 0 {
        lemma_layout_references_resolve(layouts, n - 1, count);
        assert(references_resolve(layouts[n - 1].named_references@, count));
        lemma_resolve_concat(
            layout_references(layouts, n - 1),
            layouts[n - 1].named_references@,
            count,
        );
    }
}

proof fn lemma_references_along_resolve(tree: &ObjectTree, order: Seq<usize>, n: int)
    requires
        tree.wf(),
        all_below(order, tree.elements@.len() as int),
        0 <= n <= order.len(),
    ensures
        references_resolve(references_along(tree, order, n), tree.elements@.len() as int),
    decreases n,
{
    let count = tree.elements@.len() as int;
    if n > 0 {
        lemma_references_along_resolve(tree, order, n - 1);
        let e = order[n - 1] as int;
        assert(tree.element_wf(e));
        let layouts = sub_component_layouts(tree, e);
        if tree.elements@[e].repeated {
            match tree.elements@[e].base_type {
                ElementType::Component(c) => {
                    assert(tree.component_wf(c as int));
                },
                _ => {},
            }
        }
        lemma_layout_references_resolve(layouts, layouts.len() as int, count);
        lemma_resolve_concat(
            layout_references(layouts, layouts.len() as int),
            tree.elements@[e].named_references@,
            count,
        );
        lemma_resolve_concat(
            references_along(tree, order, n - 1),
            element_references(tree, e),
            count,
        );
    }
}

fn record_element(tree: &ObjectTree, e: usize, globals: &mut NameMap<usize>)
    requires
        tree.wf(),
        e < tree.elements@.len(),
        old(globals).wf(),
    ensures
        final(globals).wf(),
        forall|id: Seq<char>|
            (#[trigger] final(globals).value_of(id)) == recorded(
                tree,
                element_references(tree, e as int),
                id,
                old(globals).value_of(id),
            ),
{
    let ghost start = *globals;
    assert(tree.element_wf(e as int));
    let element = &tree.elements[e];
    if element.repeated {
        match &element.base_type {
            ElementType::Component(base) => {
                assert(tree.component_wf(*base as int));
                record_layouts(tree, &tree.components[*base].layouts, globals);
            },
            _ => {},
        }
    }
    let ghost layouts = sub_component_layouts(tree, e as int);
    let ghost from_layouts = layout_references(layouts, layouts.len() as int);
    assert(forall|id: Seq<char>|
        (#[trigger] globals.value_of(id)) == recorded(
            tree,
            from_layouts,
            id,
            start.value_of(id),
        ));
    let ghost middle = *globals;
    record_references(tree, &element.named_references, globals);
    proof {
        assert forall|id: Seq<char>| (#[trigger] globals.value_of(id)) == recorded(
            tree,
            element_references(tree, e as int),
            id,
            start.value_of(id),
        ) by {
            assert(middle.value_of(id) == recorded(tree, from_layouts, id, start.value_of(id)));
            lemma_recorded_concat(
                tree,
                from_layouts,
                element.named_references@,
                id,
                start.value_of(id),
            );
        }
    }
}

/// Computes the globals that component `root` uses.
pub fn used_globals(tree: &ObjectTree, root: usize) -> (listing: Vec<usize>)
    requires
        tree.wf(),
        root < tree.components@.len(),
    ensures
        is_global_listing(tree, root as int, listing@),
{
    assert(tree.component_wf(root as int));
    let component = &tree.components[root];
    let order = visit_elements(tree, component.root_element);
    proof {
        lemma_visit_order_in_range(tree, component.root_element as int);
    }
    let mut globals: NameMap<usize> = NameMap::new();
    let mut i: usize = 0;
    while i < order.len()
        invariant
            tree.wf(),
            all_below(order@, tree.elements@.len() as int),
            globals.wf(),
            i <= order@.len(),
            forall|id: Seq<char>|
                (#[trigger] globals.value_of(id)) == recorded(
                    tree,
                    references_along(tree, order@, i as int),
                    id,
                    None,
                ),
        decreases order@.len() - i,
    {
        let ghost before = globals;
        record_element(tree, order[i], &mut globals);
        proof {
            assert forall|id: Seq<char>| (#[trigger] globals.value_of(id)) == recorded(
                tree,
                references_along(tree, order@, i as int + 1),
                id,
                None,
            ) by {
                assert(before.value_of(id) == recorded(
                    tree,
                    references_along(tree, order@, i as int),
                    id,
                    None,
                ));
                lemma_recorded_concat(
                    tree,
                    references_along(tree, order@, i as int),
                    element_references(tree, order@[i as int] as int),
                    id,
                    None,
                );
            }
        }
        i += 1;
    }
    let ghost along = globals;
    record_layouts(tree, &component.layouts, &mut globals);
    let ghost references = all_references(tree, root as int);
    proof {
        assert forall|id: Seq<char>| (#[trigger] globals.value_of(id)) == recorded(
            tree,
            references,
            id,
            None,
        ) by {
            assert(along.value_of(id) == recorded(
                tree,
                references_along(tree, order@, order@.len() as int),
                id,
                None,
            ));
            lemma_recorded_concat(
                tree,
                references_along(tree, order@, order@.len() as int),
                layout_references(component.layouts@, component.layouts@.len() as int),
                id,
                None,
            );
        }
    }
    let mut listing: Vec<usize> = Vec::new();
    let mut k: usize = 0;
    while k < globals.len()
        invariant
            k <= globals.entries@.len(),
            listing@.len() == k,
            forall|j: int| 0 <= j < k ==> listing@[j] == globals.entries@[j].value,
        decreases globals.entries@.len() - k,
    {
        listing.push(globals.entries[k].value);
        k += 1;
    }
    proof {
        assert forall|j: int| 0 <= j < listing@.len() implies listing@[j] < tree.components@.len()
            && tree.components@[listing@[j] as int].id@ == globals.entries@[j].name@
            && recorded(tree, references, globals.entries@[j].name@, None) == Some(
            listing@[j],
        ) by {
            globals.lemma_index_of(j);
            let name = globals.entries@[j].name@;
            assert(globals.value_of(name) == recorded(tree, references, name, None));
            lemma_recorded_is_referenced(tree, references, name);
            let c = listing@[j];
            let at = choose|at: int|
                0 <= at < references.len() && referenced_component(tree, references[at]) == c;
            lemma_references_resolve(tree, root as int);
            assert(references[at].element < tree.elements@.len());
            assert(tree.element_wf(references[at].element as int));
        }
        assert(listing_ids(tree, listing@) =~= globals.names());
        assert forall|id: Seq<char>|
            (#[trigger] recorded(tree, references, id, None)) is Some implies listing_ids(
            tree,
            listing@,
        ).contains(id) by {
            assert(globals.value_of(id) is Some);
            let at = globals.index_of(id);
            assert(listing_ids(tree, listing@)[at] == id);
        }
    }
    listing
}

/// Fills the list of used globals of the component at `root_component`.
///
/// Every named reference reachable from the component is resolved to the
/// component that encloses its element. Those that are globals are recorded
/// by id, and the list is written in the order of the ids. Nothing else in
/// the tree changes.
pub fn collect_globals(tree: &mut ObjectTree, root_component: usize)
    requires
        old(tree).wf(),
        root_component < old(tree).components@.len(),
    ensures
        final(tree).wf(),
        only_used_global_differs(old(tree), final(tree), root_component as int),
        is_global_listing(
            old(tree),
            root_component as int,
            final(tree).components@[root_component as int].used_global@,
        ),
{
    let listing = used_globals(tree, root_component);
    tree.components[root_component].used_global = listing;
    proof {
        lemma_wf_kept(old(tree), tree, root_component as int);
    }
}

} // verus!
