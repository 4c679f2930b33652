//! What holds of the listing of an element's properties, whatever the tree.

use vstd::prelude::*;
use crate::name_map::NameEntry;
use crate::object_tree::{
    BuiltinElement, BuiltinProperty, Element, ElementType, ObjectTree, PropertyDeclaration,
};
use crate::properties::{
    builtin_entries, builtin_entry, common_entries, declaration_entry, declared_entries,
    definition_of, element_uri, end_of_chain, has_explicit_binding, inherited_entries,
    is_core_geometry, layout_entries, layout_entry, listed_definition, places_found, plain_entry,
    property_entries, reports_properties, reserved_entries, reserved_entry, shown_entries,
    Position, PropertyEntry, PropertyInformation,
};
use crate::reserved::{
    accessibility_properties, drop_shadow_properties, geometry_properties, layout_properties,
    rotation_properties,
};

verus! {

/// Whether the way from element `e` along its base ends at a global.
pub open spec fn ends_at_global(tree: &ObjectTree, e: int) -> bool
    decreases e,
{
    if 0 <= e < tree.elements@.len() && tree.element_wf(e) {
        match tree.elements@[e].base_type {
            ElementType::Component(c) => ends_at_global(
                tree,
                tree.components@[c as int].root_element as int,
            ),
            ElementType::Global => true,
            _ => false,
        }
    } else {
        false
    }
}

/// Whether component `c` lies on the way from element `e` along its base.
pub open spec fn on_base_chain(tree: &ObjectTree, e: int, c: usize) -> bool
    decreases e,
{
    if 0 <= e < tree.elements@.len() && tree.element_wf(e) {
        match tree.elements@[e].base_type {
            ElementType::Component(base) => base == c || on_base_chain(
                tree,
                tree.components@[base as int].root_element as int,
                c,
            ),
            _ => false,
        }
    } else {
        false
    }
}

/// Whether every entry of `entries` belongs to a declaration of the element
/// asked about or of a component on the way from element `e` along its base:
/// its group is empty or the id of such a component.
pub open spec fn all_from_declarations(
    tree: &ObjectTree,
    e: int,
    entries: Seq<PropertyEntry>,
) -> bool {
    forall|i: int|
        0 <= i < entries.len() ==> (#[trigger] entries[i]).group == Seq::<char>::empty()
            || exists|c: usize|
            on_base_chain(tree, e, c) && tree.components@[c as int].id@ == entries[i].group
}

proof fn lemma_declared_groups(
    declarations: Seq<NameEntry<PropertyDeclaration>>,
    file: Option<Seq<char>>,
    group: Seq<char>,
)
    ensures
        forall|i: int|
            0 <= i < shown_entries(declarations, file, group).len() ==> (
            #[trigger] shown_entries(declarations, file, group)[i]).group == group,
    decreases declarations.len(),
{
    if declarations.len() > 0 {
        lemma_declared_groups(declarations.drop_last(), file, group);
        let kept = shown_entries(declarations.drop_last(), file, group);
        let all = shown_entries(declarations, file, group);
        match declaration_entry(declarations.last(), file, group) {
            Some(other) => {
                assert(all == kept + seq![other]);
            },
            None => {
                assert(all == kept);
            },
        }
    }
}

proof fn lemma_declared_contains(
    declarations: Seq<NameEntry<PropertyDeclaration>>,
    file: Option<Seq<char>>,
    group: Seq<char>,
    j: int,
)
    requires
        0 <= j < declarations.len(),
        declaration_entry(declarations[j], file, group) is Some,
    ensures
        shown_entries(declarations, file, group).contains(
            declaration_entry(declarations[j], file, group).unwrap(),
        ),
    decreases declarations.len(),
{
    let entry = declaration_entry(declarations[j], file, group).unwrap();
    let rest = declarations.drop_last();
    let kept = shown_entries(rest, file, group);
    let all = shown_entries(declarations, file, group);
    if j == declarations.len() - 1 {
        assert(all == kept + seq![entry]);
        assert(all[kept.len() as int] == entry);
    } else {
        assert(rest[j] == declarations[j]);
        lemma_declared_contains(rest, file, group, j);
        let at = choose|at: int| 0 <= at < kept.len() && kept[at] == entry;
        match declaration_entry(declarations.last(), file, group) {
            Some(other) => {
                assert(all == kept + seq![other]);
                assert(all[at] == entry);
            },
            None => {
                assert(all == kept);
            },
        }
    }
}

proof fn lemma_contains_concat_left<A>(a: Seq<A>, b: Seq<A>, x: A)
    requires
        a.contains(x),
    ensures
        (a + b).contains(x),
{
    let i = choose|i: int| 0 <= i < a.len() && a[i] == x;
    assert((a + b)[i] == x);
}

proof fn lemma_contains_concat_right<A>(a: Seq<A>, b: Seq<A>, x: A)
    requires
        b.contains(x),
    ensures
        (a + b).contains(x),
{
    let i = choose|i: int| 0 <= i < b.len() && b[i] == x;
    assert((a + b)[a.len() + i] == x);
}

/// A property that a component on the way along the base of an element
/// declares is listed for the element under the id of that component.
///
/// `declaration` is the place of the declaration among those of the root
/// element of component `c`; the declaration must be one that is shown.
pub proof fn lemma_inherited_declaration_listed(
    tree: &ObjectTree,
    e: int,
    c: usize,
    declaration: int,
) -> (entry: PropertyEntry)
    requires
        tree.wf(),
        0 <= e < tree.elements@.len(),
        on_base_chain(tree, e, c),
        c < tree.components@.len(),
        0 <= declaration < tree.elements@[tree.components@[c as int].root_element
            as int].property_declarations.entries@.len(),
        declaration_entry(
            tree.elements@[tree.components@[c as int].root_element
                as int].property_declarations.entries@[declaration],
            element_uri(tree.elements@[tree.components@[c as int].root_element as int]),
            tree.components@[c as int].id@,
        ) is Some,
    ensures
        property_entries(tree, e).contains(entry),
        entry.group == tree.components@[c as int].id@,
        Some(entry) == declaration_entry(
            tree.elements@[tree.components@[c as int].root_element
                as int].property_declarations.entries@[declaration],
            element_uri(tree.elements@[tree.components@[c as int].root_element as int]),
            tree.components@[c as int].id@,
        ),
{
    let accessible = has_explicit_binding(tree.elements@[e], "accessible-role"@);
    let entry = lemma_inherited_contains(tree, e, c, declaration, accessible);
    lemma_contains_concat_right(
        declared_entries(tree.elements@[e], Seq::empty()),
        inherited_entries(tree, e, accessible),
        entry,
    );
    entry
}

proof fn lemma_inherited_contains(
    tree: &ObjectTree,
    e: int,
    c: usize,
    declaration: int,
    accessible: bool,
) -> (entry: PropertyEntry)
    requires
        tree.wf(),
        0 <= e < tree.elements@.len(),
        on_base_chain(tree, e, c),
        c < tree.components@.len(),
        0 <= declaration < tree.elements@[tree.components@[c as int].root_element
            as int].property_declarations.entries@.len(),
        declaration_entry(
            tree.elements@[tree.components@[c as int].root_element
                as int].property_declarations.entries@[declaration],
            element_uri(tree.elements@[tree.components@[c as int].root_element as int]),
            tree.components@[c as int].id@,
        ) is Some,
    ensures
        inherited_entries(tree, e, accessible).contains(entry),
        Some(entry) == declaration_entry(
            tree.elements@[tree.components@[c as int].root_element
                as int].property_declarations.entries@[declaration],
            element_uri(tree.elements@[tree.components@[c as int].root_element as int]),
            tree.components@[c as int].id@,
        ),
    decreases e,
{
    assert(tree.element_wf(e));
    match tree.elements@[e].base_type {
        ElementType::Component(base) => {
            let root = tree.components@[base as int].root_element as int;
            let own = declared_entries(tree.elements@[root], tree.components@[base as int].id@);
            let further = inherited_entries(tree, root, accessible);
            if base == c {
                let element = tree.elements@[root];
                let entry = declaration_entry(
                    element.property_declarations.entries@[declaration],
                    element_uri(element),
                    tree.components@[c as int].id@,
                ).unwrap();
                lemma_declared_contains(
                    element.property_declarations.entries@,
                    element_uri(element),
                    tree.components@[c as int].id@,
                    declaration,
                );
                lemma_contains_concat_left(own, further, entry);
                entry
            } else {
                let entry = lemma_inherited_contains(tree, root, c, declaration, accessible);
                lemma_contains_concat_right(own, further, entry);
                entry
            }
        },
        _ => {
            arbitrary()
        },
    }
}

proof fn lemma_inherited_from_declarations(tree: &ObjectTree, e: int, accessible: bool)
    requires
        tree.wf(),
        0 <= e < tree.elements@.len(),
        ends_at_global(tree, e),
    ensures
        all_from_declarations(tree, e, inherited_entries(tree, e, accessible)),
    decreases e,
{
    assert(tree.element_wf(e));
    match tree.elements@[e].base_type {
        ElementType::Component(base) => {
            let root = tree.components@[base as int].root_element as int;
            let element = tree.elements@[root];
            let id = tree.components@[base as int].id@;
            let own = declared_entries(element, id);
            let further = inherited_entries(tree, root, accessible);
            lemma_declared_groups(
                element.property_declarations.entries@,
                element_uri(element),
                id,
            );
            lemma_inherited_from_declarations(tree, root, accessible);
            assert forall|i: int| 0 <= i < (own + further).len() implies (#[trigger] (own
                + further)[i]).group == Seq::<char>::empty() || exists|c: usize|
                on_base_chain(tree, e, c) && tree.components@[c as int].id@ == (own
                    + further)[i].group by {
                if i < own.len() {
                    assert((own + further)[i] == own[i]);
                    assert(on_base_chain(tree, e, base));
                } else {
                    let entry = further[i - own.len()];
                    assert((own + further)[i] == entry);
                    if entry.group != Seq::<char>::empty() {
                        let c = choose|c: usize|
                            on_base_chain(tree, root, c) && tree.components@[c as int].id@
                                == entry.group;
                        assert(on_base_chain(tree, e, c));
                    }
                }
            }
        },
        _ => {},
    }
}

/// For an element whose way along its base ends at a global, nothing is
/// listed but declared properties: every entry stands under no group or
/// under the id of a component on that way. No reserved property of
/// geometry, layout or accessibility is added.
pub proof fn lemma_global_termination(tree: &ObjectTree, e: int)
    requires
        tree.wf(),
        0 <= e < tree.elements@.len(),
        ends_at_global(tree, e),
    ensures
        all_from_declarations(tree, e, property_entries(tree, e)),
{
    let accessible = has_explicit_binding(tree.elements@[e], "accessible-role"@);
    let element = tree.elements@[e];
    let own = declared_entries(element, Seq::empty());
    let further = inherited_entries(tree, e, accessible);
    lemma_declared_groups(
        element.property_declarations.entries@,
        element_uri(element),
        Seq::empty(),
    );
    lemma_inherited_from_declarations(tree, e, accessible);
    assert forall|i: int| 0 <= i < (own + further).len() implies (#[trigger] (own
        + further)[i]).group == Seq::<char>::empty() || exists|c: usize|
        on_base_chain(tree, e, c) && tree.components@[c as int].id@ == (own + further)[i].group by {
        if i < own.len() {
            assert((own + further)[i] == own[i]);
        } else {
            assert((own + further)[i] == further[i - own.len()]);
        }
    }
}

/// Whether `group` is one of the three groups of reserved properties that
/// every element has but a global.
pub open spec fn is_common_group(group: Seq<char>) -> bool {
    group == "geometry"@ || group == "layout"@ || group == "accessibility"@
}

/// For an element whose way along its base ends at a global, no entry stands
/// under geometry, layout or accessibility, as long as no component on that
/// way has one of these three words as its id.
pub proof fn lemma_global_has_no_common_group(tree: &ObjectTree, e: int)
    requires
        tree.wf(),
        0 <= e < tree.elements@.len(),
        ends_at_global(tree, e),
        forall|c: usize|
            on_base_chain(tree, e, c) ==> !is_common_group(
                (#[trigger] tree.components@[c as int]).id@,
            ),
    ensures
        forall|i: int|
            0 <= i < property_entries(tree, e).len() ==> !is_common_group(
                (#[trigger] property_entries(tree, e)[i]).group,
            ),
{
    lemma_global_termination(tree, e);
    reveal_strlit("geometry");
    reveal_strlit("layout");
    reveal_strlit("accessibility");
    assert("geometry"@.len() == 8);
    assert("layout"@.len() == 6);
    assert("accessibility"@.len() == 13);
    assert(!is_common_group(Seq::<char>::empty()));
    let entries = property_entries(tree, e);
    assert forall|i: int| 0 <= i < entries.len() implies !is_common_group(
        (#[trigger] entries[i]).group,
    ) by {
        if entries[i].group != Seq::<char>::empty() {
            let c = choose|c: usize|
                on_base_chain(tree, e, c) && tree.components@[c as int].id@ == entries[i].group;
            assert(!is_common_group(tree.components@[c as int].id@));
        }
    }
}

/// A property declared on an element whose base could not be resolved is
/// listed as the element's own: the listing is what the element declares,
/// under no group, followed by the reserved properties that every element
/// has, the geometry first.
pub proof fn lemma_invalid_base_listing(tree: &ObjectTree, e: int)
    requires
        tree.wf(),
        0 <= e < tree.elements@.len(),
        tree.elements@[e].base_type is Invalid,
    ensures
        property_entries(tree, e) == declared_entries(tree.elements@[e], Seq::empty())
            + common_entries(has_explicit_binding(tree.elements@[e], "accessible-role"@)),
        forall|declaration: int|
            0 <= declaration < tree.elements@[e].property_declarations.entries@.len()
                && declaration_entry(
                tree.elements@[e].property_declarations.entries@[declaration],
                element_uri(tree.elements@[e]),
                Seq::empty(),
            ) is Some ==> property_entries(tree, e).contains(
                declaration_entry(
                    #[trigger] tree.elements@[e].property_declarations.entries@[declaration],
                    element_uri(tree.elements@[e]),
                    Seq::empty(),
                ).unwrap(),
            ),
        forall|i: int|
            0 <= i < geometry_properties().len() ==> property_entries(tree, e).contains(
                reserved_entry(#[trigger] geometry_properties()[i], "geometry"@),
            ),
{
    assert(tree.element_wf(e));
    let element = tree.elements@[e];
    let accessible = has_explicit_binding(element, "accessible-role"@);
    let own = declared_entries(element, Seq::empty());
    let common = common_entries(accessible);
    assert forall|declaration: int|
        0 <= declaration < element.property_declarations.entries@.len() && declaration_entry(
            element.property_declarations.entries@[declaration],
            element_uri(element),
            Seq::empty(),
        ) is Some implies property_entries(tree, e).contains(
        declaration_entry(
            #[trigger] element.property_declarations.entries@[declaration],
            element_uri(element),
            Seq::empty(),
        ).unwrap(),
    ) by {
        lemma_declared_contains(
            element.property_declarations.entries@,
            element_uri(element),
            Seq::empty(),
            declaration,
        );
        lemma_contains_concat_left(
            own,
            common,
            declaration_entry(
                element.property_declarations.entries@[declaration],
                element_uri(element),
                Seq::empty(),
            ).unwrap(),
        );
    }
    let geometry = reserved_entries(geometry_properties(), "geometry"@);
    assert forall|i: int| 0 <= i < geometry_properties().len() implies property_entries(
        tree,
        e,
    ).contains(reserved_entry(#[trigger] geometry_properties()[i], "geometry"@)) by {
        let entry = reserved_entry(geometry_properties()[i], "geometry"@);
        assert(geometry[i] == entry);
        assert(common[i] == entry);
        assert(common.contains(entry));
        lemma_contains_concat_right(own, common, entry);
    }
}

/// The entries of `entries` that stand under `group`, in their order.
pub open spec fn in_group(entries: Seq<PropertyEntry>, group: Seq<char>) -> Seq<PropertyEntry> {
    entries.filter(|entry: PropertyEntry| entry.group == group)
}

proof fn lemma_none_in_group(entries: Seq<PropertyEntry>, group: Seq<char>)
    requires
        forall|i: int| 0 <= i < entries.len() ==> (#[trigger] entries[i]).group != group,
    ensures
        in_group(entries, group) == Seq::<PropertyEntry>::empty(),
    decreases entries.len(),
{
    reveal(Seq::filter);
    if entries.len() > 0 {
        lemma_none_in_group(entries.drop_last(), group);
        assert(entries.last() == entries[entries.len() - 1]);
    }
    assert(in_group(entries, group) =~= Seq::<PropertyEntry>::empty());
}

proof fn lemma_all_in_group(entries: Seq<PropertyEntry>, group: Seq<char>)
    requires
        forall|i: int| 0 <= i < entries.len() ==> (#[trigger] entries[i]).group == group,
    ensures
        in_group(entries, group) == entries,
    decreases entries.len(),
{
    reveal(Seq::filter);
    if entries.len() > 0 {
        lemma_all_in_group(entries.drop_last(), group);
        assert(entries.last() == entries[entries.len() - 1]);
        assert(entries.drop_last().push(entries.last()) =~= entries);
    }
    assert(in_group(entries, group) =~= entries);
}

proof fn lemma_layout_groups(table: Seq<(Seq<char>, Seq<char>)>)
    ensures
        forall|i: int|
            0 <= i < layout_entries(table).len() ==> (#[trigger] layout_entries(table)[i]).group
                == "layout"@,
    decreases table.len(),
{
    if table.len() > 0 {
        lemma_layout_groups(table.drop_last());
        let kept = layout_entries(table.drop_last());
        let all = layout_entries(table);
        match layout_entry(table.last()) {
            Some(other) => {
                assert(all == kept + seq![other]);
            },
            None => {
                assert(all == kept);
            },
        }
    }
}

/// Of the reserved properties that every element has, those under
/// accessibility are the accessible role alone, unless the element binds the
/// accessible role itself: then the other accessibility properties follow it.
pub proof fn lemma_accessibility_gating(accessible: bool)
    ensures
        in_group(common_entries(accessible), "accessibility"@) == seq![
            plain_entry("accessible-role"@, "enum AccessibleRole"@, "accessibility"@),
        ] + if accessible {
            reserved_entries(accessibility_properties(), "accessibility"@)
        } else {
            Seq::empty()
        },
{
    let group = "accessibility"@;
    let in_it = |entry: PropertyEntry| entry.group == group;
    let geometry = reserved_entries(geometry_properties(), "geometry"@);
    let layout = layout_entries(layout_properties());
    let role = seq![plain_entry("accessible-role"@, "enum AccessibleRole"@, group)];
    let others = if accessible {
        reserved_entries(accessibility_properties(), group)
    } else {
        Seq::empty()
    };
    reveal_strlit("geometry");
    reveal_strlit("layout");
    reveal_strlit("accessibility");
    assert("geometry"@.len() == 8);
    assert("layout"@.len() == 6);
    assert("accessibility"@.len() == 13);
    lemma_layout_groups(layout_properties());
    lemma_none_in_group(geometry, group);
    lemma_none_in_group(layout, group);
    lemma_all_in_group(role, group);
    lemma_all_in_group(others, group);
    Seq::filter_distributes_over_add(geometry, layout, in_it);
    Seq::filter_distributes_over_add(geometry + layout, role, in_it);
    Seq::filter_distributes_over_add(geometry + layout + role, others, in_it);
    assert(common_entries(accessible) == geometry + layout + role + others);
    assert(in_group(common_entries(accessible), group) =~= role + others);
}

/// What the components on the way from element `e` along its base declare,
/// each under its id.
pub open spec fn chain_declarations(tree: &ObjectTree, e: int) -> Seq<PropertyEntry>
    decreases e,
{
    if 0 <= e < tree.elements@.len() && tree.element_wf(e) {
        match tree.elements@[e].base_type {
            ElementType::Component(c) => {
                let root = tree.components@[c as int].root_element as int;
                declared_entries(tree.elements@[root], tree.components@[c as int].id@)
                    + chain_declarations(tree, root)
            },
            _ => Seq::empty(),
        }
    } else {
        Seq::empty()
    }
}

/// What the built-in element at the end of the way from element `e` brings;
/// nothing where the way does not end at one.
pub open spec fn builtin_part(tree: &ObjectTree, e: int) -> Seq<PropertyEntry> {
    match tree.elements@[end_of_chain(tree, e)].base_type {
        ElementType::Builtin(builtin) => builtin_entries(builtin),
        _ => Seq::empty(),
    }
}

proof fn lemma_end_of_chain(tree: &ObjectTree, e: int)
    requires
        tree.wf(),
        0 <= e < tree.elements@.len(),
    ensures
        0 <= end_of_chain(tree, e) < tree.elements@.len(),
        !(tree.elements@[end_of_chain(tree, e)].base_type is Component),
    decreases e,
{
    assert(tree.element_wf(e));
    match tree.elements@[e].base_type {
        ElementType::Component(c) => {
            lemma_end_of_chain(tree, tree.components@[c as int].root_element as int);
        },
        _ => {},
    }
}

proof fn lemma_inherited_parts(tree: &ObjectTree, e: int, accessible: bool)
    requires
        tree.wf(),
        0 <= e < tree.elements@.len(),
    ensures
        inherited_entries(tree, e, accessible) == chain_declarations(tree, e) + if tree.elements@[
            end_of_chain(tree, e)].base_type is Global {
            Seq::empty()
        } else {
            builtin_part(tree, e) + common_entries(accessible)
        },
    decreases e,
{
    assert(tree.element_wf(e));
    let tail = if tree.elements@[end_of_chain(tree, e)].base_type is Global {
        Seq::empty()
    } else {
        builtin_part(tree, e) + common_entries(accessible)
    };
    match tree.elements@[e].base_type {
        ElementType::Component(c) => {
            let root = tree.components@[c as int].root_element as int;
            lemma_inherited_parts(tree, root, accessible);
            let own = declared_entries(tree.elements@[root], tree.components@[c as int].id@);
            assert(inherited_entries(tree, e, accessible) =~= (own + chain_declarations(
                tree,
                root,
            )) + tail);
        },
        _ => {
            assert(inherited_entries(tree, e, accessible) =~= chain_declarations(tree, e) + tail);
        },
    }
}

/// The listing of an element whose way along its base does not end at a
/// global has four parts: what the element declares, what the components on
/// the way declare, what the built-in element at the end brings, and what
/// every element has.
pub proof fn lemma_listing_parts(tree: &ObjectTree, e: int)
    requires
        tree.wf(),
        0 <= e < tree.elements@.len(),
        !(tree.elements@[end_of_chain(tree, e)].base_type is Global),
    ensures
        property_entries(tree, e) == declared_entries(tree.elements@[e], Seq::empty())
            + chain_declarations(tree, e) + builtin_part(tree, e) + common_entries(
            has_explicit_binding(tree.elements@[e], "accessible-role"@),
        ),
{
    let accessible = has_explicit_binding(tree.elements@[e], "accessible-role"@);
    lemma_inherited_parts(tree, e, accessible);
    assert(property_entries(tree, e) =~= declared_entries(tree.elements@[e], Seq::empty())
        + chain_declarations(tree, e) + builtin_part(tree, e) + common_entries(accessible));
}

proof fn lemma_chain_declarations_groups(tree: &ObjectTree, e: int)
    requires
        tree.wf(),
        0 <= e < tree.elements@.len(),
    ensures
        all_from_declarations(tree, e, chain_declarations(tree, e)),
    decreases e,
{
    assert(tree.element_wf(e));
    match tree.elements@[e].base_type {
        ElementType::Component(base) => {
            let root = tree.components@[base as int].root_element as int;
            let element = tree.elements@[root];
            let id = tree.components@[base as int].id@;
            let own = declared_entries(element, id);
            let further = chain_declarations(tree, root);
            lemma_declared_groups(
                element.property_declarations.entries@,
                element_uri(element),
                id,
            );
            lemma_chain_declarations_groups(tree, root);
            assert forall|i: int| 0 <= i < (own + further).len() implies (#[trigger] (own
                + further)[i]).group == Seq::<char>::empty() || exists|c: usize|
                on_base_chain(tree, e, c) && tree.components@[c as int].id@ == (own
                    + further)[i].group by {
                if i < own.len() {
                    assert((own + further)[i] == own[i]);
                    assert(on_base_chain(tree, e, base));
                } else {
                    let entry = further[i - own.len()];
                    assert((own + further)[i] == entry);
                    if entry.group != Seq::<char>::empty() {
                        let c = choose|c: usize|
                            on_base_chain(tree, root, c) && tree.components@[c as int].id@
                                == entry.group;
                        assert(on_base_chain(tree, e, c));
                    }
                }
            }
        },
        _ => {},
    }
}

/// The intrinsic properties of a built-in element that are shown.
pub open spec fn intrinsic_entries(
    properties: Seq<NameEntry<BuiltinProperty>>,
    group: Seq<char>,
) -> Seq<PropertyEntry> {
    properties.filter_map(|p: NameEntry<BuiltinProperty>| builtin_entry(p, group))
}

proof fn lemma_intrinsic_entries(properties: Seq<NameEntry<BuiltinProperty>>, group: Seq<char>)
    ensures
        forall|i: int|
            0 <= i < intrinsic_entries(properties, group).len() ==> {
                let entry = #[trigger] intrinsic_entries(properties, group)[i];
                entry.group == group && !is_core_geometry(entry.name)
            },
    decreases properties.len(),
{
    if properties.len() > 0 {
        lemma_intrinsic_entries(properties.drop_last(), group);
        let kept = intrinsic_entries(properties.drop_last(), group);
        let all = intrinsic_entries(properties, group);
        match builtin_entry(properties.last(), group) {
            Some(other) => {
                assert(all == kept + seq![other]);
            },
            None => {
                assert(all == kept);
            },
        }
    }
}

/// Whether `group` is one under which a built-in element named `name` lists
/// properties.
pub open spec fn is_builtin_group(name: Seq<char>, group: Seq<char>) -> bool {
    group == name || group == Seq::<char>::empty() || group == "rotation"@ || group
        == "drop-shadow"@
}

/// A built-in element lists none of the four properties of position and
/// size, and lists every property under its own name, under no group, or
/// under rotation or drop shadow.
pub proof fn lemma_builtin_entries(builtin: BuiltinElement)
    ensures
        forall|i: int|
            0 <= i < builtin_entries(builtin).len() ==> {
                let entry = #[trigger] builtin_entries(builtin)[i];
                !is_core_geometry(entry.name) && is_builtin_group(builtin.name@, entry.group)
            },
{
    let intrinsic = intrinsic_entries(builtin.properties.entries@, builtin.name@);
    let clip = if builtin.name@ == "Rectangle"@ {
        seq![plain_entry("clip"@, "bool"@, Seq::empty())]
    } else {
        Seq::empty()
    };
    let universal = seq![
        plain_entry("opacity"@, "float"@, Seq::empty()),
        plain_entry("visible"@, "bool"@, Seq::empty()),
    ];
    let rotation = if builtin.name@ == "Image"@ {
        reserved_entries(rotation_properties(), "rotation"@)
    } else {
        Seq::empty()
    };
    let shadow = if builtin.name@ == "Rectangle"@ {
        reserved_entries(drop_shadow_properties(), "drop-shadow"@)
    } else {
        Seq::empty()
    };
    lemma_intrinsic_entries(builtin.properties.entries@, builtin.name@);
    reveal_strlit("x");
    reveal_strlit("y");
    reveal_strlit("width");
    reveal_strlit("height");
    reveal_strlit("clip");
    reveal_strlit("opacity");
    reveal_strlit("visible");
    reveal_strlit("rotation-angle");
    reveal_strlit("rotation-origin-x");
    reveal_strlit("rotation-origin-y");
    reveal_strlit("drop-shadow-offset-x");
    reveal_strlit("drop-shadow-offset-y");
    reveal_strlit("drop-shadow-blur");
    reveal_strlit("drop-shadow-color");
    assert("x"@.len() == 1 && "y"@.len() == 1 && "width"@.len() == 5 && "height"@.len() == 6);
    assert("clip"@.len() == 4 && "opacity"@.len() == 7 && "visible"@.len() == 7);
    assert("rotation-angle"@.len() == 14 && "rotation-origin-x"@.len() == 17
        && "rotation-origin-y"@.len() == 17);
    assert("drop-shadow-offset-x"@.len() == 20 && "drop-shadow-offset-y"@.len() == 20
        && "drop-shadow-blur"@.len() == 16 && "drop-shadow-color"@.len() == 17);
    let good = |entry: PropertyEntry|
        !is_core_geometry(entry.name) && is_builtin_group(builtin.name@, entry.group);
    assert forall|i: int| 0 <= i < clip.len() implies good(#[trigger] clip[i]) by {}
    assert forall|i: int| 0 <= i < universal.len() implies good(#[trigger] universal[i]) by {}
    assert forall|i: int| 0 <= i < rotation.len() implies good(#[trigger] rotation[i]) by {
        assert(rotation[i] == reserved_entry(rotation_properties()[i], "rotation"@));
    }
    assert forall|i: int| 0 <= i < shadow.len() implies good(#[trigger] shadow[i]) by {
        assert(shadow[i] == reserved_entry(drop_shadow_properties()[i], "drop-shadow"@));
    }
    assert forall|i: int| 0 <= i < intrinsic.len() implies good(#[trigger] intrinsic[i]) by {}
    lemma_all_concat(intrinsic, clip, good);
    lemma_all_concat(intrinsic + clip, universal, good);
    lemma_all_concat(intrinsic + clip + universal, rotation, good);
    lemma_all_concat(intrinsic + clip + universal + rotation, shadow, good);
    assert(builtin_entries(builtin) == intrinsic + clip + universal + rotation + shadow);
    assert forall|i: int| 0 <= i < builtin_entries(builtin).len() implies {
        let entry = #[trigger] builtin_entries(builtin)[i];
        !is_core_geometry(entry.name) && is_builtin_group(builtin.name@, entry.group)
    } by {
        assert(good(builtin_entries(builtin)[i]));
    }
}

proof fn lemma_all_concat(
    a: Seq<PropertyEntry>,
    b: Seq<PropertyEntry>,
    good: spec_fn(PropertyEntry) -> bool,
)
    requires
        forall|i: int| 0 <= i < a.len() ==> good(#[trigger] a[i]),
        forall|i: int| 0 <= i < b.len() ==> good(#[trigger] b[i]),
    ensures
        forall|i: int| 0 <= i < (a + b).len() ==> good(#[trigger] (a + b)[i]),
{
    assert forall|i: int| 0 <= i < (a + b).len() implies good(#[trigger] (a + b)[i]) by {
        if i < a.len() {
            assert((a + b)[i] == a[i]);
        } else {
            assert((a + b)[i] == b[i - a.len()]);
        }
    }
}

/// A property that the element does not bind has no place of definition.
pub proof fn lemma_unbound_has_no_definition(element: Element, name: Seq<char>)
    requires
        element.bindings.value_of(name) is None,
    ensures
        definition_of(element, name) is None,
{
}

/// In the listing of an element whose way along its base does not end at a
/// global, each reserved property of geometry stands under geometry, without
/// a place of declaration, and with the place where the element binds it,
/// where it does: a bound `width` has a definition, an unbound `x` has none.
///
/// `infos` is a listing as the query gives it, and `property` the place of
/// the reserved property in the table of geometry.
pub proof fn lemma_reserved_geometry_listed<F: Fn(u32) -> Position>(
    tree: &ObjectTree,
    e: int,
    infos: Seq<PropertyInformation>,
    to_position: F,
    property: int,
) -> (at: int)
    requires
        tree.wf(),
        0 <= e < tree.elements@.len(),
        !(tree.elements@[end_of_chain(tree, e)].base_type is Global),
        reports_properties(infos, property_entries(tree, e), tree, e, to_position),
        0 <= property < geometry_properties().len(),
    ensures
        0 <= at < infos.len(),
        infos[at].name@ == geometry_properties()[property].0,
        infos[at].type_text@ == geometry_properties()[property].1,
        infos[at].group@ == "geometry"@,
        infos[at].declared_at is None,
        places_found(
            to_position,
            definition_of(tree.elements@[e], geometry_properties()[property].0),
            infos[at].defined_at,
        ),
        tree.elements@[e].bindings.value_of(geometry_properties()[property].0) is None
            ==> infos[at].defined_at is None,
{
    lemma_listing_parts(tree, e);
    let accessible = has_explicit_binding(tree.elements@[e], "accessible-role"@);
    let front = declared_entries(tree.elements@[e], Seq::empty()) + chain_declarations(tree, e)
        + builtin_part(tree, e);
    let common = common_entries(accessible);
    let geometry = reserved_entries(geometry_properties(), "geometry"@);
    let at = front.len() + property;
    assert(geometry[property] == reserved_entry(geometry_properties()[property], "geometry"@));
    assert(common[property] == geometry[property]);
    assert(property_entries(tree, e) == front + common);
    assert(property_entries(tree, e)[at] == common[property]);
    at
}

/// In the listing of an element whose way along its base does not end at a
/// global, the entries under accessibility are the accessible role alone,
/// unless the element itself binds the role in the source text: then the
/// other accessibility properties follow it.
///
/// This needs that neither a component on the way nor the built-in element
/// at its end is itself called `accessibility`.
pub proof fn lemma_accessibility_group(tree: &ObjectTree, e: int)
    requires
        tree.wf(),
        0 <= e < tree.elements@.len(),
        !(tree.elements@[end_of_chain(tree, e)].base_type is Global),
        forall|c: usize|
            on_base_chain(tree, e, c) ==> (#[trigger] tree.components@[c as int]).id@
                != "accessibility"@,
        match tree.elements@[end_of_chain(tree, e)].base_type {
            ElementType::Builtin(builtin) => builtin.name@ != "accessibility"@,
            _ => true,
        },
    ensures
        in_group(property_entries(tree, e), "accessibility"@) == seq![
            plain_entry("accessible-role"@, "enum AccessibleRole"@, "accessibility"@),
        ] + if has_explicit_binding(tree.elements@[e], "accessible-role"@) {
            reserved_entries(accessibility_properties(), "accessibility"@)
        } else {
            Seq::empty()
        },
{
    let group = "accessibility"@;
    let in_it = |entry: PropertyEntry| entry.group == group;
    let accessible = has_explicit_binding(tree.elements@[e], "accessible-role"@);
    let element = tree.elements@[e];
    let own = declared_entries(element, Seq::empty());
    let chain = chain_declarations(tree, e);
    let builtin = builtin_part(tree, e);
    let common = common_entries(accessible);
    reveal_strlit("accessibility");
    reveal_strlit("rotation");
    reveal_strlit("drop-shadow");
    assert("accessibility"@.len() == 13);
    assert("rotation"@.len() == 8);
    assert("drop-shadow"@.len() == 11);
    lemma_listing_parts(tree, e);
    lemma_declared_groups(
        element.property_declarations.entries@,
        element_uri(element),
        Seq::empty(),
    );
    lemma_chain_declarations_groups(tree, e);
    assert forall|i: int| 0 <= i < chain.len() implies (#[trigger] chain[i]).group != group by {
        if chain[i].group != Seq::<char>::empty() {
            let c = choose|c: usize|
                on_base_chain(tree, e, c) && tree.components@[c as int].id@ == chain[i].group;
            assert(tree.components@[c as int].id@ != group);
        }
    }
    assert forall|i: int| 0 <= i < builtin.len() implies (#[trigger] builtin[i]).group
        != group by {
        match tree.elements@[end_of_chain(tree, e)].base_type {
            ElementType::Builtin(b) => {
                lemma_builtin_entries(b);
                assert(is_builtin_group(b.name@, builtin_entries(b)[i].group));
            },
            _ => {},
        }
    }
    lemma_none_in_group(own, group);
    lemma_none_in_group(chain, group);
    lemma_none_in_group(builtin, group);
    lemma_accessibility_gating(accessible);
    Seq::filter_distributes_over_add(own, chain, in_it);
    Seq::filter_distributes_over_add(own + chain, builtin, in_it);
    Seq::filter_distributes_over_add(own + chain + builtin, common, in_it);
    assert(in_group(property_entries(tree, e), group) =~= in_group(common, group));
}

/// The way from an element along its base ends at a global exactly where the
/// element at its end has the base type of one.
pub proof fn lemma_ends_at_global(tree: &ObjectTree, e: int)
    requires
        tree.wf(),
        0 <= e < tree.elements@.len(),
    ensures
        ends_at_global(tree, e) == (tree.elements@[end_of_chain(tree, e)].base_type is Global),
    decreases e,
{
    assert(tree.element_wf(e));
    match tree.elements@[e].base_type {
        ElementType::Component(c) => {
            lemma_ends_at_global(tree, tree.components@[c as int].root_element as int);
        },
        _ => {},
    }
}

/// In the listing of an element whose way along its base ends at a global
/// no property has a place of definition, whatever the element binds.
pub proof fn lemma_global_listing_has_no_definitions<F: Fn(u32) -> Position>(
    tree: &ObjectTree,
    e: int,
    infos: Seq<PropertyInformation>,
    to_position: F,
)
    requires
        tree.wf(),
        0 <= e < tree.elements@.len(),
        ends_at_global(tree, e),
        reports_properties(infos, property_entries(tree, e), tree, e, to_position),
    ensures
        forall|i: int| 0 <= i < infos.len() ==> (#[trigger] infos[i]).defined_at is None,
{
    lemma_ends_at_global(tree, e);
    assert forall|i: int| 0 <= i < infos.len() implies (#[trigger] infos[i]).defined_at
        is None by {
        assert(places_found(
            to_position,
            listed_definition(tree, e, property_entries(tree, e)[i].name),
            infos[i].defined_at,
        ));
    }
}

/// A declaration that is shown is reported with its place exactly where the
/// path of the element's file can be converted to a URI; the place is then
/// in that URI, at the offset of the type.
pub proof fn lemma_place_of_declaration(element: Element, group: Seq<char>, declaration: int)
    requires
        0 <= declaration < element.property_declarations.entries@.len(),
        declaration_entry(
            element.property_declarations.entries@[declaration],
            element_uri(element),
            group,
        ) is Some,
    ensures
        ({
            let entry = declaration_entry(
                element.property_declarations.entries@[declaration],
                element_uri(element),
                group,
            ).unwrap();
            &&& declared_entries(element, group).contains(entry)
            &&& entry.declared is Some <==> element_uri(element) is Some
            &&& entry.declared is Some ==> entry.declared.unwrap().place == element_uri(
                element,
            ).unwrap() && Some(entry.declared.unwrap().offset)
                == element.property_declarations.entries@[declaration].value.type_node_offset
            &&& element.source_file is None ==> entry.declared is None
        }),
{
    lemma_declared_contains(
        element.property_declarations.entries@,
        element_uri(element),
        group,
        declaration,
    );
}

} // verus!
