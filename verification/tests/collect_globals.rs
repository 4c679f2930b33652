//! The pass that lists the globals a component uses, and the traversal under it.

use ui_introspect::collect_globals::{collect_globals, used_globals};
use ui_introspect::name_map::NameMap;
use ui_introspect::object_tree::{
    Component, Element, ElementType, Layout, NamedReference, ObjectTree,
};
use ui_introspect::visit::visit_elements;

fn reference(element: usize, name: &str) -> NamedReference {
    NamedReference { element, name: name.to_string() }
}

fn element(
    base_type: ElementType,
    enclosing_component: usize,
    children: Vec<usize>,
    named_references: Vec<NamedReference>,
) -> Element {
    Element {
        id: String::new(),
        base_type,
        property_declarations: NameMap::new(),
        bindings: NameMap::new(),
        named_references,
        children,
        repeated: false,
        enclosing_component,
        source_file: None,
        node: None,
    }
}

fn component(id: &str, root_element: usize) -> Component {
    Component { id: id.to_string(), root_element, layouts: Vec::new(), used_global: Vec::new() }
}

/// A window that refers to two globals, `Palette` and `Theme`.
///
/// Components: 0 `Main`, 1 `Theme`, 2 `Palette`.
/// Elements: 0 and 1 are the roots of the globals; 2 and 3 are nested below
/// 4, the root of `Main`.
fn window_with_two_globals() -> ObjectTree {
    let mut tree = ObjectTree::new();
    tree.add_element(element(ElementType::Global, 1, vec![], vec![]));
    tree.add_element(element(ElementType::Global, 2, vec![], vec![]));
    tree.add_element(element(
        ElementType::Invalid,
        0,
        vec![],
        vec![reference(1, "accent"), reference(0, "dark")],
    ));
    tree.add_element(element(ElementType::Invalid, 0, vec![2], vec![reference(1, "base")]));
    tree.add_element(element(
        ElementType::Invalid,
        0,
        vec![3],
        vec![reference(1, "accent"), reference(3, "width")],
    ));
    tree.add_component(component("Main", 4));
    tree.add_component(component("Theme", 0));
    tree.add_component(component("Palette", 1));
    tree.components[0].layouts.push(Layout { named_references: vec![reference(1, "spacing")] });
    tree
}

#[test]
fn globals_are_listed_once_and_in_the_order_of_their_ids() {
    let mut tree = window_with_two_globals();
    assert!(tree.is_well_formed());
    collect_globals(&mut tree, 0);
    // `Palette` (component 2) comes before `Theme` (component 1).
    assert_eq!(tree.components[0].used_global, vec![2, 1]);
    assert!(tree.is_well_formed());
}

#[test]
fn collecting_changes_nothing_but_the_list() {
    let mut tree = window_with_two_globals();
    collect_globals(&mut tree, 0);
    assert_eq!(tree.elements.len(), 5);
    assert_eq!(tree.components.len(), 3);
    assert_eq!(tree.components[0].id, "Main");
    assert_eq!(tree.components[0].root_element, 4);
    assert_eq!(tree.components[0].layouts.len(), 1);
    assert!(tree.components[1].used_global.is_empty());
    assert!(tree.components[2].used_global.is_empty());
    assert_eq!(tree.elements[4].children, vec![3]);
}

#[test]
fn collecting_twice_gives_the_same_list() {
    let mut tree = window_with_two_globals();
    collect_globals(&mut tree, 0);
    let first = tree.components[0].used_global.clone();
    collect_globals(&mut tree, 0);
    assert_eq!(tree.components[0].used_global, first);
    assert_eq!(used_globals(&tree, 0), first);
}

#[test]
fn a_global_referenced_from_many_places_is_listed_once() {
    let mut tree = ObjectTree::new();
    tree.add_element(element(ElementType::Global, 1, vec![], vec![]));
    tree.add_element(element(ElementType::Invalid, 0, vec![], vec![reference(0, "a")]));
    tree.add_element(element(
        ElementType::Invalid,
        0,
        vec![1],
        vec![reference(0, "a"), reference(0, "b")],
    ));
    tree.add_element(element(ElementType::Invalid, 0, vec![2], vec![reference(0, "c")]));
    tree.add_component(component("Main", 3));
    tree.add_component(component("Settings", 0));
    tree.components[0].layouts.push(Layout { named_references: vec![reference(0, "d")] });
    assert!(tree.is_well_formed());
    collect_globals(&mut tree, 0);
    assert_eq!(tree.components[0].used_global, vec![1]);
}

#[test]
fn a_global_that_refers_to_itself_is_recorded() {
    let mut tree = ObjectTree::new();
    tree.add_element(element(ElementType::Global, 0, vec![], vec![reference(0, "value")]));
    tree.add_component(component("Settings", 0));
    assert!(tree.is_well_formed());
    collect_globals(&mut tree, 0);
    assert_eq!(tree.components[0].used_global, vec![0]);
}

#[test]
fn without_references_to_globals_the_list_is_empty() {
    let mut tree = ObjectTree::new();
    tree.add_element(element(ElementType::Global, 1, vec![], vec![]));
    tree.add_element(element(ElementType::Invalid, 0, vec![], vec![reference(2, "x")]));
    tree.add_element(element(ElementType::Invalid, 0, vec![1], vec![reference(1, "y")]));
    tree.add_component(component("Main", 2));
    tree.add_component(component("Unused", 0));
    tree.components[0].used_global = vec![1];
    assert!(tree.is_well_formed());
    collect_globals(&mut tree, 0);
    assert_eq!(tree.components[0].used_global, Vec::<usize>::new());
}

#[test]
fn an_element_without_references_gives_an_empty_list() {
    let mut tree = ObjectTree::new();
    tree.add_element(element(ElementType::Invalid, 0, vec![], vec![]));
    tree.add_component(component("Main", 0));
    collect_globals(&mut tree, 0);
    assert!(tree.components[0].used_global.is_empty());
}

/// `Main` holds a repeated instance of `Row`. An element of `Row` and a layout
/// of `Row` refer to globals that nothing in `Main` itself refers to.
fn window_with_repeated_row() -> ObjectTree {
    let mut tree = ObjectTree::new();
    // 0, 1: roots of the globals `Colors` and `Sizes`.
    tree.add_element(element(ElementType::Global, 1, vec![], vec![]));
    tree.add_element(element(ElementType::Global, 2, vec![], vec![]));
    // 2: a child in `Row`; 3: the root of `Row`.
    tree.add_element(element(ElementType::Invalid, 3, vec![], vec![reference(0, "red")]));
    tree.add_element(element(ElementType::Invalid, 3, vec![2], vec![]));
    // 4: the repeated instance of `Row` in `Main`; 5: the root of `Main`.
    let mut repeated = element(ElementType::Component(3), 0, vec![], vec![]);
    repeated.repeated = true;
    tree.add_element(repeated);
    tree.add_element(element(ElementType::Invalid, 0, vec![4], vec![]));
    tree.add_component(component("Main", 5));
    tree.add_component(component("Colors", 0));
    tree.add_component(component("Sizes", 1));
    tree.add_component(component("Row", 3));
    tree.components[3].layouts.push(Layout { named_references: vec![reference(1, "gap")] });
    tree
}

#[test]
fn references_in_a_repeated_sub_component_are_found() {
    let mut tree = window_with_repeated_row();
    assert!(tree.is_well_formed());
    collect_globals(&mut tree, 0);
    assert_eq!(tree.components[0].used_global, vec![1, 2]);
}

#[test]
fn an_instance_that_is_not_repeated_is_not_descended_into() {
    let mut tree = window_with_repeated_row();
    tree.elements[4].repeated = false;
    assert!(tree.is_well_formed());
    collect_globals(&mut tree, 0);
    assert!(tree.components[0].used_global.is_empty());
    assert_eq!(visit_elements(&tree, 5), vec![5, 4]);
}

#[test]
fn of_two_globals_with_one_id_the_one_referenced_last_is_kept() {
    let mut tree = ObjectTree::new();
    tree.add_element(element(ElementType::Global, 1, vec![], vec![]));
    tree.add_element(element(ElementType::Global, 2, vec![], vec![]));
    tree.add_element(element(
        ElementType::Invalid,
        0,
        vec![],
        vec![reference(1, "a"), reference(0, "a")],
    ));
    tree.add_component(component("Main", 2));
    tree.add_component(component("Twin", 0));
    tree.add_component(component("Twin", 1));
    collect_globals(&mut tree, 0);
    assert_eq!(tree.components[0].used_global, vec![1]);
    tree.components[0].layouts.push(Layout { named_references: vec![reference(1, "b")] });
    collect_globals(&mut tree, 0);
    assert_eq!(tree.components[0].used_global, vec![2]);
}

#[test]
fn ids_are_ordered_by_their_bytes() {
    let mut tree = ObjectTree::new();
    for c in 1..=4 {
        tree.add_element(element(ElementType::Global, c, vec![], vec![]));
    }
    tree.add_element(element(
        ElementType::Invalid,
        0,
        vec![],
        vec![reference(0, "p"), reference(1, "p"), reference(2, "p"), reference(3, "p")],
    ));
    tree.add_component(component("Main", 4));
    tree.add_component(component("b", 0));
    tree.add_component(component("B", 1));
    tree.add_component(component("ab", 2));
    tree.add_component(component("a", 3));
    collect_globals(&mut tree, 0);
    // "B" < "a" < "ab" < "b"
    assert_eq!(tree.components[0].used_global, vec![2, 4, 3, 1]);
}

#[test]
fn elements_are_visited_parent_first_and_children_in_order() {
    let mut tree = ObjectTree::new();
    tree.add_element(element(ElementType::Invalid, 0, vec![], vec![]));
    tree.add_element(element(ElementType::Invalid, 0, vec![], vec![]));
    tree.add_element(element(ElementType::Invalid, 0, vec![1, 0], vec![]));
    tree.add_element(element(ElementType::Invalid, 0, vec![], vec![]));
    tree.add_element(element(ElementType::Invalid, 0, vec![3, 2], vec![]));
    tree.add_component(component("Main", 4));
    assert!(tree.is_well_formed());
    assert_eq!(visit_elements(&tree, 4), vec![4, 3, 2, 1, 0]);
    assert_eq!(visit_elements(&tree, 2), vec![2, 1, 0]);
    assert_eq!(visit_elements(&tree, 0), vec![0]);
}

#[test]
fn a_repeated_sub_component_is_visited_before_its_instance() {
    let tree = window_with_repeated_row();
    assert_eq!(visit_elements(&tree, 5), vec![5, 3, 2, 4]);
}

#[test]
fn is_global_looks_at_the_root_element() {
    let tree = window_with_two_globals();
    assert!(!tree.is_global(0));
    assert!(tree.is_global(1));
    assert!(tree.is_global(2));
}

#[test]
fn an_empty_tree_is_well_formed() {
    let tree = ObjectTree::new();
    assert!(tree.is_well_formed());
    assert!(tree.elements.is_empty());
    assert!(tree.components.is_empty());
}

#[test]
fn a_child_stored_after_its_parent_is_refused() {
    let mut tree = ObjectTree::new();
    tree.add_element(element(ElementType::Invalid, 0, vec![1], vec![]));
    tree.add_element(element(ElementType::Invalid, 0, vec![], vec![]));
    tree.add_component(component("Main", 0));
    assert!(!tree.is_well_formed());
}

#[test]
fn an_element_that_is_its_own_child_is_refused() {
    let mut tree = ObjectTree::new();
    tree.add_element(element(ElementType::Invalid, 0, vec![0], vec![]));
    tree.add_component(component("Main", 0));
    assert!(!tree.is_well_formed());
}

#[test]
fn a_component_that_instantiates_itself_is_refused() {
    let mut tree = ObjectTree::new();
    tree.add_element(element(ElementType::Component(0), 0, vec![], vec![]));
    tree.add_component(component("Main", 0));
    assert!(!tree.is_well_formed());
}

#[test]
fn dangling_indices_are_refused() {
    let mut tree = window_with_two_globals();
    tree.elements[2].named_references.push(reference(5, "x"));
    assert!(!tree.is_well_formed());

    let mut tree = window_with_two_globals();
    tree.elements[2].enclosing_component = 3;
    assert!(!tree.is_well_formed());

    let mut tree = window_with_two_globals();
    tree.components[1].root_element = 5;
    assert!(!tree.is_well_formed());

    let mut tree = window_with_two_globals();
    tree.components[0].layouts[0].named_references[0].element = 9;
    assert!(!tree.is_well_formed());

    let mut tree = window_with_two_globals();
    tree.components[2].used_global.push(3);
    assert!(!tree.is_well_formed());

    let mut tree = window_with_two_globals();
    tree.elements[3].base_type = ElementType::Component(7);
    assert!(!tree.is_well_formed());
}

#[test]
fn add_returns_the_index() {
    let mut tree = ObjectTree::new();
    assert_eq!(tree.add_element(element(ElementType::Global, 0, vec![], vec![])), 0);
    assert_eq!(tree.add_element(element(ElementType::Invalid, 0, vec![0], vec![])), 1);
    assert_eq!(tree.add_component(component("A", 0)), 0);
    assert_eq!(tree.add_component(component("B", 1)), 1);
    assert_eq!(tree.components[1].id, "B");
    assert_eq!(tree.elements[1].children, vec![0]);
}
