//! The search for the binding around an offset.

use i_slint_compiler::diagnostics::BuildDiagnostics;
use i_slint_compiler::parser::{parse, SyntaxKind, SyntaxNode};

use ui_introspect::name_map::NameMap;
use ui_introspect::object_tree::{Binding, Element, ElementType, SourceSpan};
use ui_introspect::properties::{
    find_expression_range, insert_property_definitions, text_range_to_lsp_range,
    DefinitionInformation, Position, PositionRange, PropertyInformation,
};
use ui_introspect::syntax::{
    is_searchable, right_biased_chain, select_definition_ranges, AncestorKind, DefinitionRanges, SyntaxAncestor,
    TextRange,
};

fn range(start: u32, end: u32) -> TextRange {
    TextRange { start, end }
}

fn ancestor(kind: AncestorKind, start: u32, end: u32, first_child: Option<TextRange>) -> SyntaxAncestor {
    SyntaxAncestor { kind, range: range(start, end), first_child }
}

#[test]
fn the_binding_and_its_expression_are_found() {
    let chain = vec![
        ancestor(AncestorKind::Other, 12, 21, None),
        ancestor(AncestorKind::BindingExpression, 11, 22, Some(range(12, 21))),
        ancestor(AncestorKind::Binding, 0, 22, Some(range(11, 22))),
        ancestor(AncestorKind::Element, 0, 40, None),
        ancestor(AncestorKind::Other, 0, 50, None),
    ];
    assert!(is_searchable(&chain));
    assert_eq!(
        select_definition_ranges(&chain),
        Some(DefinitionRanges { binding: range(0, 22), expression: range(12, 21) })
    );
}

#[test]
fn the_last_binding_expression_before_the_binding_counts() {
    let chain = vec![
        ancestor(AncestorKind::BindingExpression, 14, 18, Some(range(15, 17))),
        ancestor(AncestorKind::Other, 13, 19, None),
        ancestor(AncestorKind::BindingExpression, 11, 22, Some(range(12, 21))),
        ancestor(AncestorKind::Binding, 5, 23, None),
        ancestor(AncestorKind::BindingExpression, 1, 30, Some(range(2, 29))),
    ];
    assert_eq!(
        select_definition_ranges(&chain),
        Some(DefinitionRanges { binding: range(5, 23), expression: range(12, 21) })
    );
}

#[test]
fn an_element_ends_the_search_without_a_binding() {
    let chain = vec![
        ancestor(AncestorKind::BindingExpression, 11, 22, Some(range(12, 21))),
        ancestor(AncestorKind::Element, 0, 40, None),
        ancestor(AncestorKind::Binding, 0, 50, None),
    ];
    assert!(is_searchable(&chain));
    assert_eq!(select_definition_ranges(&chain), None);
}

#[test]
fn a_binding_without_an_expression_is_not_found() {
    let chain = vec![
        ancestor(AncestorKind::Other, 3, 4, None),
        ancestor(AncestorKind::Binding, 0, 22, None),
    ];
    assert_eq!(select_definition_ranges(&chain), None);
    assert_eq!(select_definition_ranges(&Vec::new()), None);
    let chain = vec![ancestor(AncestorKind::Other, 3, 4, None)];
    assert_eq!(select_definition_ranges(&chain), None);
}

#[test]
fn the_expression_must_lie_strictly_inside_the_binding() {
    let found = |binding: TextRange, expression: TextRange| {
        select_definition_ranges(&vec![
            ancestor(AncestorKind::BindingExpression, 0, 0, Some(expression)),
            SyntaxAncestor { kind: AncestorKind::Binding, range: binding, first_child: None },
        ])
    };
    assert!(found(range(10, 20), range(11, 19)).is_some());
    // An empty expression is a valid one.
    assert!(found(range(10, 20), range(15, 15)).is_some());
    assert_eq!(found(range(10, 20), range(10, 19)), None);
    assert_eq!(found(range(10, 20), range(11, 20)), None);
    assert_eq!(found(range(10, 20), range(9, 19)), None);
    assert_eq!(found(range(10, 20), range(11, 21)), None);
    assert_eq!(found(range(10, 20), range(16, 15)), None);
    assert_eq!(found(range(0, 0), range(0, 0)), None);
}

#[test]
fn a_binding_expression_without_a_child_cannot_be_searched() {
    let chain = vec![
        ancestor(AncestorKind::BindingExpression, 11, 22, None),
        ancestor(AncestorKind::Binding, 0, 22, None),
    ];
    assert!(!is_searchable(&chain));
    // Behind the binding that ends the search it does no harm.
    let chain = vec![
        ancestor(AncestorKind::BindingExpression, 11, 22, Some(range(12, 21))),
        ancestor(AncestorKind::Binding, 0, 22, None),
        ancestor(AncestorKind::BindingExpression, 0, 30, None),
    ];
    assert!(is_searchable(&chain));
    let chain = vec![
        ancestor(AncestorKind::Element, 0, 22, None),
        ancestor(AncestorKind::BindingExpression, 0, 30, None),
    ];
    assert!(is_searchable(&chain));
    assert!(is_searchable(&Vec::new()));
}

#[test]
fn a_range_holds_its_start_and_not_its_end() {
    let r = range(4, 9);
    assert!(!r.contains(3));
    assert!(r.contains(4));
    assert!(r.contains(8));
    assert!(!r.contains(9));
    assert!(!TextRange::empty().contains(0));
    assert_eq!(TextRange::empty(), range(0, 0));
}

#[test]
fn the_end_of_a_range_is_placed_one_byte_further() {
    let placed = text_range_to_lsp_range(range(7, 16), &|offset| Position {
        line: 2,
        character: offset,
    });
    assert_eq!(
        placed,
        PositionRange {
            start: Position { line: 2, character: 7 },
            end: Position { line: 2, character: 17 },
        }
    );
}

const SOURCE: &str = "Main := Rectangle {\n    background: lightblue;\n    Text { text: \"a\"; }\n}\n";

fn first_of_kind(node: &SyntaxNode, kind: SyntaxKind) -> Option<SyntaxNode> {
    if node.kind() == kind {
        return Some(node.clone());
    }
    node.children().find_map(|child| first_of_kind(&child, kind))
}

fn root_element(source: &str) -> SyntaxNode {
    let mut diagnostics = BuildDiagnostics::default();
    let document = parse(source.to_string(), None, &mut diagnostics);
    first_of_kind(&document, SyntaxKind::Element).expect("the document holds an element")
}

fn on_one_line(offset: u32) -> Position {
    Position { line: 0, character: offset }
}

#[test]
fn the_expression_of_a_binding_is_found_in_the_syntax_tree() {
    let node = root_element(SOURCE);
    let at = SOURCE.find("lightblue").unwrap() as u32;
    let binding_start = SOURCE.find("background").unwrap() as u32;
    let binding_end = SOURCE.find(";").unwrap() as u32 + 1;
    let expected = DefinitionInformation {
        property_definition_range: PositionRange {
            start: on_one_line(binding_start),
            end: on_one_line(binding_end + 1),
        },
        expression_range: PositionRange {
            start: on_one_line(at),
            end: on_one_line(at + 9 + 1),
        },
    };
    for offset in at..at + 9 {
        assert_eq!(find_expression_range(&node, offset, &on_one_line), Some(expected));
    }
}

#[test]
fn outside_a_binding_no_expression_is_found() {
    let node = root_element(SOURCE);
    // In the name of the element, before any binding.
    let at = SOURCE.find("Rectangle").unwrap() as u32;
    assert_eq!(find_expression_range(&node, at + 2, &on_one_line), None);
    // In the name of the property, which is in the binding but not in its expression.
    let at = SOURCE.find("background").unwrap() as u32;
    assert_eq!(find_expression_range(&node, at + 2, &on_one_line), None);
}

#[test]
fn an_offset_outside_the_element_finds_nothing() {
    let node = root_element(SOURCE);
    assert_eq!(find_expression_range(&node, 0, &on_one_line), None);
    assert_eq!(find_expression_range(&node, 3, &on_one_line), None);
    assert_eq!(find_expression_range(&node, SOURCE.len() as u32 + 5, &on_one_line), None);
    assert_eq!(find_expression_range(&node, u32::MAX, &on_one_line), None);
}

fn bound_element(source: &str, bindings: Vec<(&str, Option<SourceSpan>)>) -> Element {
    let mut map = NameMap::new();
    for (name, span) in bindings {
        map.insert(name.to_string(), Binding { span, has_binding: true, priority: 1 });
    }
    Element {
        id: String::new(),
        base_type: ElementType::Invalid,
        property_declarations: NameMap::new(),
        bindings: map,
        named_references: Vec::new(),
        children: Vec::new(),
        repeated: false,
        enclosing_component: 0,
        source_file: Some(String::from("/a/main.slint")),
        node: Some(root_element(source)),
    }
}

fn unplaced(name: &str) -> PropertyInformation {
    PropertyInformation {
        name: name.to_string(),
        type_text: String::from("brush"),
        declared_at: None,
        defined_at: None,
        group: String::from("Rectangle"),
    }
}

fn span(file: Option<&str>, offset: usize) -> Option<SourceSpan> {
    Some(SourceSpan { source_file: file.map(String::from), offset: offset as u32 })
}

#[test]
fn definitions_are_inserted_for_bindings_of_the_element() {
    let at = SOURCE.find("lightblue").unwrap();
    let element = bound_element(SOURCE, vec![("background", span(Some("/a/main.slint"), at))]);
    let mut properties = vec![unplaced("x"), unplaced("background"), unplaced("background")];
    insert_property_definitions(&element, &mut properties, &on_one_line);
    assert_eq!(properties[0], unplaced("x"));
    for property in &properties[1..] {
        assert_eq!(property.name, "background");
        assert_eq!(property.type_text, "brush");
        assert_eq!(property.group, "Rectangle");
        assert_eq!(property.declared_at, None);
        let definition = property.defined_at.unwrap();
        assert_eq!(definition.expression_range.start, on_one_line(at as u32));
        assert_eq!(definition.expression_range.end, on_one_line(at as u32 + 10));
    }
}

#[test]
fn a_binding_from_elsewhere_gives_no_definition() {
    let at = SOURCE.find("lightblue").unwrap();
    let cases = vec![
        // Written in another file.
        span(Some("/a/base.slint"), at),
        // Written in no known file.
        span(None, at),
        // Written before the element.
        span(Some("/a/main.slint"), 2),
        // Written behind the element.
        span(Some("/a/main.slint"), SOURCE.len() + 10),
        // Not in an expression.
        span(Some("/a/main.slint"), SOURCE.find("background").unwrap()),
        // Not written at all.
        None,
    ];
    for case in cases {
        let element = bound_element(SOURCE, vec![("background", case)]);
        let mut properties = vec![unplaced("background")];
        insert_property_definitions(&element, &mut properties, &on_one_line);
        assert_eq!(properties, vec![unplaced("background")]);
    }
}

#[test]
fn a_definition_that_is_not_found_leaves_the_old_one() {
    let element = bound_element(SOURCE, vec![("background", span(Some("/a/base.slint"), 30))]);
    let old = DefinitionInformation {
        property_definition_range: PositionRange { start: on_one_line(1), end: on_one_line(9) },
        expression_range: PositionRange { start: on_one_line(3), end: on_one_line(8) },
    };
    let mut property = unplaced("background");
    property.defined_at = Some(old);
    let mut properties = vec![property];
    insert_property_definitions(&element, &mut properties, &on_one_line);
    assert_eq!(properties[0].defined_at, Some(old));
}

#[test]
fn the_binding_of_a_child_is_not_the_parents() {
    // The offset lies in the element's range, in a binding of its child.
    let at = SOURCE.find("\"a\"").unwrap();
    let element = bound_element(SOURCE, vec![("text", span(Some("/a/main.slint"), at))]);
    let mut properties = vec![unplaced("text")];
    insert_property_definitions(&element, &mut properties, &on_one_line);
    let definition = properties[0].defined_at.unwrap();
    assert_eq!(definition.expression_range.start, on_one_line(at as u32));
    assert_eq!(definition.expression_range.end, on_one_line(at as u32 + 4));
}

#[test]
fn of_the_chains_at_an_offset_the_right_one_is_searched() {
    let left = vec![ancestor(AncestorKind::Binding, 0, 22, None)];
    let right = vec![
        ancestor(AncestorKind::Other, 22, 23, None),
        ancestor(AncestorKind::Element, 0, 40, None),
    ];
    assert_eq!(right_biased_chain(vec![left.clone(), right.clone()]), right);
    assert_eq!(right_biased_chain(vec![right.clone(), left.clone()]), left);
    assert_eq!(right_biased_chain(vec![left.clone()]), left);
    assert_eq!(right_biased_chain(Vec::new()), Vec::new());
    assert_eq!(right_biased_chain(vec![left, Vec::new()]), Vec::new());
}

#[test]
fn between_a_binding_and_what_follows_the_binding_is_not_found() {
    // `a:1;b:2;` leaves no white space between the two bindings.
    let source = "Main := Rectangle {a:1;b:2;}";
    let node = root_element(source);
    let first = source.find("1").unwrap() as u32;
    let second = source.find("2").unwrap() as u32;
    // Inside the first expression the first binding is found.
    let found = find_expression_range(&node, first, &on_one_line).unwrap();
    assert_eq!(found.expression_range.start, on_one_line(first));
    assert_eq!(found.property_definition_range.start, on_one_line(first - 2));
    // Where the first binding ends and the second begins, the token on the
    // right decides: it is the name of the second binding, outside any expression.
    assert_eq!(find_expression_range(&node, first + 2, &on_one_line), None);
    let found = find_expression_range(&node, second, &on_one_line).unwrap();
    assert_eq!(found.expression_range.start, on_one_line(second));
    assert_eq!(found.property_definition_range.start, on_one_line(second - 2));
}

#[test]
fn paths_are_compared_by_their_components() {
    let at = SOURCE.find("lightblue").unwrap();
    for written in ["/a/main.slint", "/a//main.slint", "/a/./main.slint", "/a/main.slint/"] {
        let element = bound_element(SOURCE, vec![("background", span(Some(written), at))]);
        let mut properties = vec![unplaced("background")];
        insert_property_definitions(&element, &mut properties, &on_one_line);
        assert!(properties[0].defined_at.is_some());
    }
    for written in ["/a/Main.slint", "/a/b/../main.slint", "a/main.slint", "/main.slint", ""] {
        let element = bound_element(SOURCE, vec![("background", span(Some(written), at))]);
        let mut properties = vec![unplaced("background")];
        insert_property_definitions(&element, &mut properties, &on_one_line);
        assert_eq!(properties[0].defined_at, None);
    }
    // An element without a file takes a binding without one.
    let mut element = bound_element(SOURCE, vec![("background", span(None, at))]);
    element.source_file = None;
    let mut properties = vec![unplaced("background")];
    insert_property_definitions(&element, &mut properties, &on_one_line);
    assert!(properties[0].defined_at.is_some());
}
