//! The parts that the listing of an element's properties is made of.

use i_slint_compiler::diagnostics::BuildDiagnostics;
use i_slint_compiler::parser::{parse, SyntaxKind, SyntaxNode};

use ui_introspect::name_map::NameMap;
use ui_introspect::object_tree::{
    Binding, BuiltinElement, BuiltinProperty, Component, Element, ElementType, ObjectTree,
    PropertyDeclaration,
};
use ui_introspect::properties::{
    get_builtin_properties, get_common_properties, get_element_information,
    convert_paths, get_declared_properties, get_element_properties, get_layout_properties,
    get_properties, get_properties_under, get_reserved_properties, query_properties_under,
    source_file, DeclarationInformation, Position, PropertyInformation,
};
use ui_introspect::reserved::ReservedProperty;

fn triples(listing: &[PropertyInformation]) -> Vec<(&str, &str, &str)> {
    listing
        .iter()
        .map(|p| {
            assert_eq!(p.declared_at, None);
            assert_eq!(p.defined_at, None);
            (p.name.as_str(), p.type_text.as_str(), p.group.as_str())
        })
        .collect()
}

const COMMON: [(&str, &str, &str); 18] = [
    ("x", "length", "geometry"),
    ("y", "length", "geometry"),
    ("width", "length", "geometry"),
    ("height", "length", "geometry"),
    ("z", "float", "geometry"),
    ("min-width", "length", "layout"),
    ("min-height", "length", "layout"),
    ("max-width", "length", "layout"),
    ("max-height", "length", "layout"),
    ("preferred-width", "length", "layout"),
    ("preferred-height", "length", "layout"),
    ("horizontal-stretch", "float", "layout"),
    ("vertical-stretch", "float", "layout"),
    ("col", "int", "layout"),
    ("row", "int", "layout"),
    ("colspan", "int", "layout"),
    ("rowspan", "int", "layout"),
    ("accessible-role", "enum AccessibleRole", "accessibility"),
];

const ACCESSIBILITY: [(&str, &str, &str); 9] = [
    ("accessible-checkable", "bool", "accessibility"),
    ("accessible-checked", "bool", "accessibility"),
    ("accessible-delegate-focus", "int", "accessibility"),
    ("accessible-description", "string", "accessibility"),
    ("accessible-label", "string", "accessibility"),
    ("accessible-value", "string", "accessibility"),
    ("accessible-value-maximum", "float", "accessibility"),
    ("accessible-value-minimum", "float", "accessibility"),
    ("accessible-value-step", "float", "accessibility"),
];

#[test]
fn common_properties_are_geometry_layout_and_the_role() {
    assert_eq!(triples(&get_common_properties(false)), COMMON.to_vec());
}

#[test]
fn common_properties_of_an_accessible_element_end_with_accessibility() {
    let mut expected = COMMON.to_vec();
    expected.extend(ACCESSIBILITY);
    assert_eq!(triples(&get_common_properties(true)), expected);
}

fn reserved(name: &str, type_text: &str) -> ReservedProperty {
    ReservedProperty { name: name.to_string(), type_text: type_text.to_string() }
}

#[test]
fn reserved_properties_are_listed_under_the_group() {
    let table = vec![reserved("a", "int"), reserved("b", "length"), reserved("a", "bool")];
    assert_eq!(
        triples(&get_reserved_properties("things", &table)),
        vec![("a", "int", "things"), ("b", "length", "things"), ("a", "bool", "things")]
    );
    assert!(get_reserved_properties("things", &Vec::new()).is_empty());
    assert_eq!(triples(&get_reserved_properties("", &table))[1], ("b", "length", ""));
}

#[test]
fn layout_properties_leave_the_padding_out() {
    let table = vec![
        reserved("padding", "length"),
        reserved("min-width", "length"),
        reserved("padding-left", "length"),
        reserved("paddin", "length"),
        reserved("padding2", "int"),
        reserved("left-padding", "float"),
    ];
    assert_eq!(
        triples(&get_layout_properties(&table)),
        vec![
            ("min-width", "length", "layout"),
            ("paddin", "length", "layout"),
            ("left-padding", "float", "layout"),
        ]
    );
}

fn builtin(name: &str, properties: Vec<(&str, &str, bool)>) -> BuiltinElement {
    let mut map = NameMap::new();
    for (property, type_text, is_property_type) in properties {
        map.insert(
            property.to_string(),
            BuiltinProperty { type_text: type_text.to_string(), is_property_type },
        );
    }
    BuiltinElement { name: name.to_string(), properties: map }
}

#[test]
fn a_builtin_element_gives_its_value_properties_but_not_its_geometry() {
    let text = builtin(
        "Text",
        vec![
            ("width", "length", true),
            ("text", "string", true),
            ("x", "length", true),
            ("clicked", "callback", false),
            ("height", "length", true),
            ("color", "brush", true),
            ("y", "length", true),
            ("xx", "int", true),
        ],
    );
    assert_eq!(
        triples(&get_builtin_properties(&text)),
        vec![
            ("color", "brush", "Text"),
            ("text", "string", "Text"),
            ("xx", "int", "Text"),
            ("opacity", "float", ""),
            ("visible", "bool", ""),
        ]
    );
}

#[test]
fn a_rectangle_has_clip_and_a_drop_shadow() {
    let rectangle = builtin("Rectangle", vec![("background", "brush", true)]);
    assert_eq!(
        triples(&get_builtin_properties(&rectangle)),
        vec![
            ("background", "brush", "Rectangle"),
            ("clip", "bool", ""),
            ("opacity", "float", ""),
            ("visible", "bool", ""),
            ("drop-shadow-offset-x", "length", "drop-shadow"),
            ("drop-shadow-offset-y", "length", "drop-shadow"),
            ("drop-shadow-blur", "length", "drop-shadow"),
            ("drop-shadow-color", "color", "drop-shadow"),
        ]
    );
}

#[test]
fn an_image_has_a_rotation() {
    let image = builtin("Image", vec![]);
    assert_eq!(
        triples(&get_builtin_properties(&image)),
        vec![
            ("opacity", "float", ""),
            ("visible", "bool", ""),
            ("rotation-angle", "angle", "rotation"),
            ("rotation-origin-x", "length", "rotation"),
            ("rotation-origin-y", "length", "rotation"),
        ]
    );
    // The name decides, to the letter.
    assert_eq!(triples(&get_builtin_properties(&builtin("image", vec![]))).len(), 2);
    assert_eq!(triples(&get_builtin_properties(&builtin("Rectangles", vec![]))).len(), 2);
}

fn any_node() -> SyntaxNode {
    fn first_element(node: &SyntaxNode) -> Option<SyntaxNode> {
        if node.kind() == SyntaxKind::Element {
            return Some(node.clone());
        }
        node.children().find_map(|child| first_element(&child))
    }
    let mut diagnostics = BuildDiagnostics::default();
    let document = parse(String::from("Main := Rectangle { }"), None, &mut diagnostics);
    first_element(&document).expect("the document holds an element")
}

fn element(
    base_type: ElementType,
    source_file: Option<&str>,
    declarations: Vec<(&str, &str, bool, Option<u32>)>,
) -> Element {
    let mut property_declarations = NameMap::new();
    for (name, type_text, is_property_type, type_node_offset) in declarations {
        property_declarations.insert(
            name.to_string(),
            PropertyDeclaration {
                type_text: type_text.to_string(),
                is_property_type,
                type_node_offset,
            },
        );
    }
    Element {
        id: String::from("it"),
        base_type,
        property_declarations,
        bindings: NameMap::new(),
        named_references: Vec::new(),
        children: Vec::new(),
        repeated: false,
        enclosing_component: 0,
        source_file: source_file.map(String::from),
        node: Some(any_node()),
    }
}

fn by_tens(offset: u32) -> Position {
    Position { line: offset / 10, character: offset % 10 }
}

fn brief(listing: &[PropertyInformation]) -> Vec<(&str, &str, &str, Option<Position>)> {
    listing
        .iter()
        .map(|p| {
            assert_eq!(p.defined_at, None);
            (
                p.name.as_str(),
                p.type_text.as_str(),
                p.group.as_str(),
                p.declared_at.as_ref().map(|d| d.start_position),
            )
        })
        .collect()
}

#[test]
fn declared_properties_are_listed_in_the_order_of_their_names() {
    let e = element(
        ElementType::Invalid,
        Some("/project/ui/main.slint"),
        vec![
            ("total", "duration", true, Some(57)),
            ("clicked", "callback", false, Some(80)),
            ("made-up", "int", true, None),
            ("elapsed", "duration", true, Some(103)),
            ("hidden", "callback(int)", false, None),
        ],
    );
    let listing = get_element_properties(&e, &by_tens, "Base");
    assert_eq!(
        brief(&listing),
        vec![
            ("elapsed", "duration", "Base", Some(Position { line: 10, character: 3 })),
            ("total", "duration", "Base", Some(Position { line: 5, character: 7 })),
        ]
    );
    for property in &listing {
        assert_eq!(property.declared_at.as_ref().unwrap().uri, "file:///project/ui/main.slint");
    }
}

#[test]
fn without_a_file_a_declaration_has_no_place() {
    let e = element(ElementType::Invalid, None, vec![("total", "duration", true, Some(57))]);
    assert_eq!(
        get_element_properties(&e, &by_tens, ""),
        vec![PropertyInformation {
            name: String::from("total"),
            type_text: String::from("duration"),
            declared_at: None,
            defined_at: None,
            group: String::new(),
        }]
    );
}

#[test]
fn with_a_path_that_is_not_absolute_a_declaration_has_no_place() {
    for path in ["ui/main.slint", "main.slint", "", "./main.slint", "../ui/main.slint"] {
        let e = element(
            ElementType::Invalid,
            Some(path),
            vec![
                ("total", "duration", true, Some(57)),
                ("clicked", "callback", false, Some(80)),
                ("elapsed", "duration", true, Some(103)),
            ],
        );
        // The properties are listed all the same, without a place.
        assert_eq!(
            brief(&get_element_properties(&e, &by_tens, "Base")),
            vec![("elapsed", "duration", "Base", None), ("total", "duration", "Base", None)]
        );
    }
}

#[test]
fn declarations_are_reported_under_the_converted_uri() {
    let e = element(
        ElementType::Invalid,
        Some("/somewhere/else.slint"),
        vec![
            ("total", "duration", true, Some(57)),
            ("clicked", "callback", false, Some(80)),
            ("made-up", "int", true, None),
            ("elapsed", "duration", true, Some(103)),
        ],
    );
    let uri = String::from("file:///project/ui/main.slint");
    let listing = get_declared_properties(&e, Some(uri.clone()), &by_tens, "Base");
    assert_eq!(
        listing,
        vec![
            PropertyInformation {
                name: String::from("elapsed"),
                type_text: String::from("duration"),
                declared_at: Some(DeclarationInformation {
                    uri: uri.clone(),
                    start_position: Position { line: 10, character: 3 },
                }),
                defined_at: None,
                group: String::from("Base"),
            },
            PropertyInformation {
                name: String::from("total"),
                type_text: String::from("duration"),
                declared_at: Some(DeclarationInformation {
                    uri,
                    start_position: Position { line: 5, character: 7 },
                }),
                defined_at: None,
                group: String::from("Base"),
            },
        ]
    );
}

#[test]
fn without_a_converted_uri_declarations_have_no_place() {
    let e = element(
        ElementType::Invalid,
        Some("/project/ui/main.slint"),
        vec![("total", "duration", true, Some(57)), ("clicked", "callback", false, Some(80))],
    );
    assert_eq!(
        get_declared_properties(&e, None, &by_tens, ""),
        vec![PropertyInformation {
            name: String::from("total"),
            type_text: String::from("duration"),
            declared_at: None,
            defined_at: None,
            group: String::new(),
        }]
    );
    // The element's own file does not matter, only what it was converted to.
    let e = element(ElementType::Invalid, None, vec![("total", "duration", true, Some(57))]);
    let listing = get_declared_properties(&e, Some(String::from("file:///a.slint")), &by_tens, "");
    assert_eq!(listing[0].declared_at.as_ref().unwrap().uri, "file:///a.slint");
}

#[test]
fn a_path_with_a_space_is_escaped_in_the_uri() {
    let e = element(
        ElementType::Invalid,
        Some("/my project/main.slint"),
        vec![("total", "duration", true, Some(0))],
    );
    let listing = get_element_properties(&e, &by_tens, "");
    assert_eq!(listing[0].declared_at.as_ref().unwrap().uri, "file:///my%20project/main.slint");
}

#[test]
fn the_source_file_is_the_elements() {
    let e = element(ElementType::Global, Some("/a/b.slint"), vec![]);
    assert_eq!(source_file(&e), Some(String::from("/a/b.slint")));
    let e = element(ElementType::Global, None, vec![]);
    assert_eq!(source_file(&e), None);
}

fn enclosing() -> Component {
    Component {
        id: String::from("Main"),
        root_element: 0,
        layouts: Vec::new(),
        used_global: Vec::new(),
    }
}

#[test]
fn an_element_with_an_unresolved_base_lists_what_it_declares_and_the_common_properties() {
    let mut tree = ObjectTree::new();
    tree.add_component(enclosing());
    let index = tree.add_element(element(
        ElementType::Invalid,
        Some("/a/main.slint"),
        vec![("abcd", "int", true, Some(42))],
    ));
    assert!(tree.is_well_formed());
    let listing = get_properties(&tree, index, &by_tens);
    let mut expected = vec![("abcd", "int", "", Some(Position { line: 4, character: 2 }))];
    expected.extend(COMMON.iter().map(|(n, t, g)| (*n, *t, *g, None)));
    assert_eq!(brief(&listing), expected);
}

#[test]
fn a_global_lists_only_what_it_declares() {
    let mut tree = ObjectTree::new();
    tree.add_component(enclosing());
    let index = tree.add_element(element(
        ElementType::Global,
        None,
        vec![("glob", "int", true, Some(3)), ("changed", "callback", false, Some(9))],
    ));
    let listing = get_properties(&tree, index, &by_tens);
    assert_eq!(brief(&listing), vec![("glob", "int", "", None)]);
}

#[test]
fn what_a_global_inherits_is_listed_without_reserved_properties() {
    let mut tree = ObjectTree::new();
    tree.add_component(enclosing());
    let base_root = tree.add_element(element(
        ElementType::Global,
        Some("/a/base.slint"),
        vec![("inherited", "string", true, Some(15))],
    ));
    let base = tree.add_component(Component {
        id: String::from("Base"),
        root_element: base_root,
        layouts: Vec::new(),
        used_global: Vec::new(),
    });
    let index = tree.add_element(element(
        ElementType::Component(base),
        None,
        vec![("own", "int", true, Some(3))],
    ));
    assert!(tree.is_well_formed());
    let listing = get_properties(&tree, index, &by_tens);
    assert_eq!(
        brief(&listing),
        vec![
            ("own", "int", "", None),
            ("inherited", "string", "Base", Some(Position { line: 1, character: 5 })),
        ]
    );
}

#[test]
fn each_component_on_the_way_gives_its_declarations_under_its_id() {
    let mut tree = ObjectTree::new();
    tree.add_component(enclosing());
    let rectangle = builtin("Rectangle", vec![("background", "brush", true)]);
    let first_root = tree.add_element(element(
        ElementType::Builtin(rectangle),
        None,
        vec![("foo", "int", true, Some(1)), ("shadowed", "int", true, Some(2))],
    ));
    let first = tree.add_component(Component {
        id: String::from("Base1"),
        root_element: first_root,
        layouts: Vec::new(),
        used_global: Vec::new(),
    });
    let second_root = tree.add_element(element(
        ElementType::Component(first),
        None,
        vec![("bar", "bool", true, Some(3)), ("shadowed", "string", true, Some(4))],
    ));
    let second = tree.add_component(Component {
        id: String::from("Base2"),
        root_element: second_root,
        layouts: Vec::new(),
        used_global: Vec::new(),
    });
    let index = tree.add_element(element(ElementType::Component(second), None, vec![]));
    assert!(tree.is_well_formed());
    let listing = get_properties(&tree, index, &by_tens);
    let mut expected = vec![
        ("bar", "bool", "Base2", None),
        ("shadowed", "string", "Base2", None),
        ("foo", "int", "Base1", None),
        ("shadowed", "int", "Base1", None),
        ("background", "brush", "Rectangle", None),
        ("clip", "bool", "", None),
        ("opacity", "float", "", None),
        ("visible", "bool", "", None),
        ("drop-shadow-offset-x", "length", "drop-shadow", None),
        ("drop-shadow-offset-y", "length", "drop-shadow", None),
        ("drop-shadow-blur", "length", "drop-shadow", None),
        ("drop-shadow-color", "color", "drop-shadow", None),
    ];
    expected.extend(COMMON.iter().map(|(n, t, g)| (*n, *t, *g, None)));
    assert_eq!(brief(&listing), expected);
}

fn role_binding(has_binding: bool, priority: i32) -> NameMap<Binding> {
    let mut bindings = NameMap::new();
    bindings.insert(
        String::from("accessible-role"),
        Binding { span: None, has_binding, priority },
    );
    bindings
}

fn accessibility_of(tree: &ObjectTree, index: usize) -> Vec<String> {
    get_properties(tree, index, &by_tens)
        .into_iter()
        .filter(|p| p.group == "accessibility")
        .map(|p| p.name)
        .collect()
}

#[test]
fn only_an_explicit_role_on_the_element_itself_adds_accessibility() {
    let mut tree = ObjectTree::new();
    tree.add_component(enclosing());
    // The base binds the role.
    let mut base_root = element(ElementType::Invalid, None, vec![]);
    base_root.bindings = role_binding(true, 1);
    let base_root = tree.add_element(base_root);
    let base = tree.add_component(Component {
        id: String::from("Base"),
        root_element: base_root,
        layouts: Vec::new(),
        used_global: Vec::new(),
    });
    let inheriting = tree.add_element(element(ElementType::Component(base), None, vec![]));
    let mut supplied = element(ElementType::Invalid, None, vec![]);
    supplied.bindings = role_binding(true, 0);
    let supplied = tree.add_element(supplied);
    let mut empty = element(ElementType::Invalid, None, vec![]);
    empty.bindings = role_binding(false, 1);
    let empty = tree.add_element(empty);
    let mut inlined = element(ElementType::Invalid, None, vec![]);
    inlined.bindings = role_binding(true, 3);
    let inlined = tree.add_element(inlined);
    let unbound = tree.add_element(element(ElementType::Invalid, None, vec![]));
    assert!(tree.is_well_formed());

    assert_eq!(accessibility_of(&tree, base_root).len(), 10);
    assert_eq!(accessibility_of(&tree, base_root)[0], "accessible-role");
    assert_eq!(accessibility_of(&tree, base_root)[1], "accessible-checkable");
    assert_eq!(accessibility_of(&tree, inheriting), vec!["accessible-role"]);
    assert_eq!(accessibility_of(&tree, supplied), vec!["accessible-role"]);
    assert_eq!(accessibility_of(&tree, empty), vec!["accessible-role"]);
    assert_eq!(accessibility_of(&tree, inlined).len(), 10);
    assert_eq!(accessibility_of(&tree, unbound), vec!["accessible-role"]);
}

#[test]
fn the_element_is_named_by_its_id_and_its_base() {
    let mut tree = ObjectTree::new();
    tree.add_component(enclosing());
    let global = tree.add_element(element(ElementType::Global, None, vec![]));
    let invalid = tree.add_element(element(ElementType::Invalid, None, vec![]));
    let text = tree.add_element(element(ElementType::Builtin(builtin("Text", vec![])), None, vec![]));
    let instance = tree.add_element(element(ElementType::Component(0), None, vec![]));
    let native =
        tree.add_element(element(ElementType::Native(String::from("NativeButton")), None, vec![]));
    assert!(tree.is_well_formed());
    let of = |index: usize| {
        let information = get_element_information(&tree, index).unwrap();
        assert_eq!(information.id, "it");
        information.type_text
    };
    assert_eq!(of(global), "");
    assert_eq!(of(invalid), "<error>");
    assert_eq!(of(text), "Text");
    assert_eq!(of(instance), "Main");
    assert_eq!(of(native), "NativeButton");
}

fn with_uris(listing: &[PropertyInformation]) -> Vec<(&str, &str, Option<(&str, Position)>)> {
    listing
        .iter()
        .filter(|p| p.declared_at.is_some() || p.group == "" || p.group.starts_with("Base"))
        .map(|p| {
            (
                p.name.as_str(),
                p.group.as_str(),
                p.declared_at.as_ref().map(|d| (d.uri.as_str(), d.start_position)),
            )
        })
        .collect()
}

/// An instance of `Base2`, which derives from `Base1`, which derives from a
/// global. Each of the three elements declares one property.
fn instance_of_two_bases() -> (ObjectTree, usize) {
    let mut tree = ObjectTree::new();
    tree.add_component(enclosing());
    let first_root = tree.add_element(element(
        ElementType::Global,
        Some("/lib/base1.slint"),
        vec![("foo", "int", true, Some(11))],
    ));
    let first = tree.add_component(Component {
        id: String::from("Base1"),
        root_element: first_root,
        layouts: Vec::new(),
        used_global: Vec::new(),
    });
    let second_root = tree.add_element(element(
        ElementType::Component(first),
        Some("/lib/base2.slint"),
        vec![("bar", "bool", true, Some(22))],
    ));
    let second = tree.add_component(Component {
        id: String::from("Base2"),
        root_element: second_root,
        layouts: Vec::new(),
        used_global: Vec::new(),
    });
    let index = tree.add_element(element(
        ElementType::Component(second),
        Some("/app/main.slint"),
        vec![("own", "string", true, Some(33))],
    ));
    assert!(tree.is_well_formed());
    (tree, index)
}

#[test]
fn each_element_on_the_way_is_reported_under_its_own_uri() {
    let (tree, index) = instance_of_two_bases();
    let uris = vec![
        Some(String::from("file:///app/main.slint")),
        Some(String::from("file:///lib/base2.slint")),
        Some(String::from("file:///lib/base1.slint")),
    ];
    let listing = get_properties_under(&tree, index, &uris, &by_tens);
    assert_eq!(
        with_uris(&listing),
        vec![
            ("own", "", Some(("file:///app/main.slint", Position { line: 3, character: 3 }))),
            ("bar", "Base2", Some(("file:///lib/base2.slint", Position { line: 2, character: 2 }))),
            ("foo", "Base1", Some(("file:///lib/base1.slint", Position { line: 1, character: 1 }))),
        ]
    );
    assert_eq!(listing.len(), 3);
}

#[test]
fn without_a_uri_an_element_is_listed_without_places() {
    let (tree, index) = instance_of_two_bases();
    let uris = vec![Some(String::from("a:")), None, Some(String::from("c:"))];
    assert_eq!(
        with_uris(&get_properties_under(&tree, index, &uris, &by_tens)),
        vec![
            ("own", "", Some(("a:", Position { line: 3, character: 3 }))),
            ("bar", "Base2", None),
            ("foo", "Base1", Some(("c:", Position { line: 1, character: 1 }))),
        ]
    );
    // URIs that are missing at the end count as none; those beyond the way are not looked at.
    let uris = vec![None, Some(String::from("b:"))];
    assert_eq!(
        with_uris(&get_properties_under(&tree, index, &uris, &by_tens)),
        vec![
            ("own", "", None),
            ("bar", "Base2", Some(("b:", Position { line: 2, character: 2 }))),
            ("foo", "Base1", None),
        ]
    );
    let listing = get_properties_under(&tree, index, &Vec::new(), &by_tens);
    assert_eq!(
        with_uris(&listing),
        vec![("own", "", None), ("bar", "Base2", None), ("foo", "Base1", None)]
    );
    let mut many = vec![Some(String::from("u:")); 7];
    many[3] = None;
    let listing = get_properties_under(&tree, index, &many, &by_tens);
    assert!(listing.iter().all(|p| p.declared_at.as_ref().unwrap().uri == "u:"));
}

#[test]
fn the_paths_on_the_way_are_converted_to_file_uris() {
    let (mut tree, index) = instance_of_two_bases();
    tree.elements[1].source_file = Some(String::from("relative/base2.slint"));
    assert_eq!(
        with_uris(&get_properties(&tree, index, &by_tens)),
        vec![
            ("own", "", Some(("file:///app/main.slint", Position { line: 3, character: 3 }))),
            ("bar", "Base2", None),
            ("foo", "Base1", Some(("file:///lib/base1.slint", Position { line: 1, character: 1 }))),
        ]
    );
}

#[test]
fn the_path_of_each_element_on_the_way_is_converted() {
    let (mut tree, index) = instance_of_two_bases();
    assert_eq!(
        convert_paths(&tree, index),
        vec![
            Some(String::from("file:///app/main.slint")),
            Some(String::from("file:///lib/base2.slint")),
            Some(String::from("file:///lib/base1.slint")),
        ]
    );
    assert_eq!(convert_paths(&tree, 1).len(), 2);
    assert_eq!(convert_paths(&tree, 0), vec![Some(String::from("file:///lib/base1.slint"))]);
    tree.elements[1].source_file = None;
    tree.elements[0].source_file = Some(String::from("not/absolute.slint"));
    assert_eq!(
        convert_paths(&tree, index),
        vec![Some(String::from("file:///app/main.slint")), None, None]
    );
}

#[test]
fn a_query_under_uris_reports_them() {
    let (tree, index) = instance_of_two_bases();
    let uris = vec![None, None, Some(String::from("urn:base1"))];
    let response = query_properties_under(&tree, index, &uris, &by_tens);
    assert_eq!(
        with_uris(&response.properties),
        vec![
            ("own", "", None),
            ("bar", "Base2", None),
            ("foo", "Base1", Some(("urn:base1", Position { line: 1, character: 1 }))),
        ]
    );
    let element = response.element.unwrap();
    assert_eq!(element.id, "it");
    assert_eq!(element.type_text, "Base2");
    assert_eq!(response.source_uri.as_deref(), Some("/app/main.slint"));
}

#[test]
fn a_native_base_is_listed_as_an_unresolved_one() {
    let mut tree = ObjectTree::new();
    tree.add_component(enclosing());
    let index = tree.add_element(element(
        ElementType::Native(String::from("NativeButton")),
        None,
        vec![("abcd", "int", true, Some(42))],
    ));
    assert!(tree.is_well_formed());
    let listing = get_properties(&tree, index, &by_tens);
    let mut expected = vec![("abcd", "int", "", None)];
    expected.extend(COMMON.iter().map(|(n, t, g)| (*n, *t, *g, None)));
    assert_eq!(brief(&listing), expected);
}
