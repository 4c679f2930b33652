//! The traversal of a component's elements.
//!
//! Elements are visited depth first, a parent before its children and the
//! children in their order. An element that is a repeated instance of a
//! component is preceded by the elements of that component, so that what is
//! instantiated dynamically is not missed.

use vstd::prelude::*;
use crate::object_tree::{all_below, ElementType, ObjectTree};

verus! {

/// The elements visited for the repeated sub-component of element `e`, which
/// come before `e` itself. Empty unless `e` is repeated and an instance of a
/// component.
pub open spec fn sub_component_order(tree: &ObjectTree, e: int) -> Seq<usize>
    decreases e, 0int, 0int,
{
    if 0 <= e < tree.elements@.len() && tree.element_wf(e) && tree.elements@[e].repeated {
        match tree.elements@[e].base_type {
            ElementType::Component(c) => visit_order(
                tree,
                tree.components@[c as int].root_element as int,
            ),
            _ => Seq::empty(),
        }
    } else {
        Seq::empty()
    }
}

/// The elements visited below the first `n` children of element `e`.
pub open spec fn children_order(tree: &ObjectTree, e: int, n: int) -> Seq<usize>
    decreases e, 0int, n,
{
    if 0 <= e < tree.elements@.len() && tree.element_wf(e) && 0 < n
        <= tree.elements@[e].children@.len() {
        children_order(tree, e, n - 1) + visit_order(
            tree,
            tree.elements@[e].children@[n - 1] as int,
        )
    } else {
        Seq::empty()
    }
}

/// The elements visited from element `e`, in the order of the visits: those
/// of its repeated sub-component, `e` itself, then what is below each child.
pub open spec fn visit_order(tree: &ObjectTree, e: int) -> Seq<usize>
    decreases e, 1int, 0int,
{
    if 0 <= e < tree.elements@.len() && tree.element_wf(e) {
        sub_component_order(tree, e) + seq![e as usize] + children_order(
            tree,
            e,
            tree.elements@[e].children@.len() as int,
        )
    } else {
        Seq::empty()
    }
}

proof fn lemma_all_below_concat(a: Seq<usize>, b: Seq<usize>, bound: int)
    requires
        all_below(a, bound),
        all_below(b, bound),
    ensures
        all_below(a + b, bound),
{
    assert forall|i: int| 0 <= i < (a + b).len() implies (a + b)[i] < bound by {
        if i < a.len() {
            assert((a + b)[i] == a[i]);
        } else {
            assert((a + b)[i] == b[i - a.len()]);
        }
    }
}

/// Every element visited from an element of a well-formed tree exists.
pub proof fn lemma_visit_order_in_range(tree: &ObjectTree, e: int)
    requires
        tree.wf(),
        0 <= e < tree.elements@.len(),
    ensures
        all_below(visit_order(tree, e), tree.elements@.len() as int),
    decreases e, 1int, 0int,
{
    let count = tree.elements@.len() as int;
    assert(tree.element_wf(e));
    lemma_sub_component_in_range(tree, e);
    lemma_children_in_range(tree, e, tree.elements@[e].children@.len() as int);
    lemma_all_below_concat(sub_component_order(tree, e), seq![e as usize], count);
    lemma_all_below_concat(
        sub_component_order(tree, e) + seq![e as usize],
        children_order(tree, e, tree.elements@[e].children@.len() as int),
        count,
    );
}

proof fn lemma_sub_component_in_range(tree: &ObjectTree, e: int)
    requires
        tree.wf(),
        0 <= e < tree.elements@.len(),
    ensures
        all_below(sub_component_order(tree, e), tree.elements@.len() as int),
    decreases e, 0int, 0int,
{
    assert(tree.element_wf(e));
    if tree.elements@[e].repeated {
        match tree.elements@[e].base_type {
            ElementType::Component(c) => {
                lemma_visit_order_in_range(tree, tree.components@[c as int].root_element as int);
            },
            _ => {},
        }
    }
}

proof fn lemma_children_in_range(tree: &ObjectTree, e: int, n: int)
    requires
        tree.wf(),
        0 <= e < tree.elements@.len(),
        0 <= n <= tree.elements@[e].children@.len(),
    ensures
        all_below(children_order(tree, e, n), tree.elements@.len() as int),
    decreases e, 0int, n,
{
    assert(tree.element_wf(e));
    if n > 0 {
        lemma_children_in_range(tree, e, n - 1);
        lemma_visit_order_in_range(tree, tree.elements@[e].children@[n - 1] as int);
        lemma_all_below_concat(
            children_order(tree, e, n - 1),
            visit_order(tree, tree.elements@[e].children@[n - 1] as int),
            tree.elements@.len() as int,
        );
    }
}

fn visit_into(tree: &ObjectTree, e: usize, visited: &mut Vec<usize>)
    requires
        tree.wf(),
        e < tree.elements@.len(),
    ensures
        final(visited)@ == old(visited)@ + visit_order(tree, e as int),
    decreases e,
{
    let ghost before = visited@;
    assert(tree.element_wf(e as int));
    let element = &tree.elements[e];
    if element.repeated {
        match &element.base_type {
            ElementType::Component(c) => {
                visit_into(tree, tree.components[*c].root_element, visited);
            },
            _ => {},
        }
    }
    assert(visited@ == before + sub_component_order(tree, e as int));
    visited.push(e);
    let mut i: usize = 0;
    while i < element.children.len()
        invariant
            tree.wf(),
            e < tree.elements@.len(),
            *element == tree.elements@[e as int],
            i <= element.children@.len(),
            visited@ == before + sub_component_order(tree, e as int) + seq![e] + children_order(
                tree,
                e as int,
                i as int,
            ),
        decreases element.children@.len() - i,
    {
        assert(tree.element_wf(e as int));
        visit_into(tree, element.children[i], visited);
        i += 1;
        assert(visited@ =~= before + sub_component_order(tree, e as int) + seq![e]
            + children_order(tree, e as int, i as int));
    }
    assert(visited@ =~= before + visit_order(tree, e as int));
}

/// Lists the elements reached from `root`, in the order in which a traversal
/// visits them.
pub fn visit_elements(tree: &ObjectTree, root: usize) -> (visited: Vec<usize>)
    requires
        tree.wf(),
        root < tree.elements@.len(),
    ensures
        visited@ == visit_order(tree, root as int),
{
    let mut visited: Vec<usize> = Vec::new();
    visit_into(tree, root, &mut visited);
    assert(visited@ =~= visit_order(tree, root as int));
    visited
}

} // verus!
