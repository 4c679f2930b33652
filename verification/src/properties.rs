//! The properties that an editor can show for an element, with the place
//! where each was declared and the place where its value was assigned.

use vstd::prelude::*;
use crate::name_map::NameEntry;
use crate::names::{name_equal, starts_with};
use crate::object_tree::{
    BuiltinElement, BuiltinProperty, Element, ElementType, ObjectTree, PropertyDeclaration,
};
use crate::reserved::{
    accessibility_properties, accessible_role_type_text, bool_type_text, drop_shadow_properties,
    float_type_text, geometry_properties, layout_properties, reserved_accessibility_properties,
    reserved_drop_shadow_properties, reserved_geometry_properties, reserved_layout_properties,
    reserved_rotation_properties, rotation_properties, table_view, ReservedProperty,
};
use crate::syntax::{
    ancestors_at_offset, definition_ranges, element_node_range, is_searchable, node_text_range,
    right_biased_chain, searchable, select_definition_ranges, token_ancestors, DefinitionRanges,
    TextRange,
};

verus! {

/// A place in a text document: a line and a character on it, both counted
/// from zero.
#[derive(Clone, Copy, Debug, PartialEq, Eq, Structural)]
pub struct Position {
    pub line: u32,
    pub character: u32,
}

/// A range in a text document. The end is the first place behind it.
#[derive(Clone, Copy, Debug, PartialEq, Eq, Structural)]
pub struct PositionRange {
    pub start: Position,
    pub end: Position,
}

/// Where the value of a property was assigned.
#[derive(Clone, Copy, Debug, PartialEq, Eq, Structural)]
pub struct DefinitionInformation {
    /// The whole binding.
    pub property_definition_range: PositionRange,
    /// The expression on its right-hand side.
    pub expression_range: PositionRange,
}

/// Where a property was declared.
#[derive(Clone, Debug, PartialEq, Eq)]
pub struct DeclarationInformation {
    pub uri: String,
    /// Where the type stands in the declaration.
    pub start_position: Position,
}

/// One property of an element, as shown to an editor.
#[derive(Clone, Debug, PartialEq, Eq)]
pub struct PropertyInformation {
    pub name: String,
    /// The property's type in canonical textual form.
    pub type_text: String,
    pub declared_at: Option<DeclarationInformation>,
    /// A range in the source file of the element.
    pub defined_at: Option<DefinitionInformation>,
    /// Where the property comes from: the id of a component, the name of a
    /// built-in element, a category of reserved properties, or nothing.
    pub group: String,
}

/// The element that a query was answered for.
#[derive(Clone, Debug, PartialEq, Eq)]
pub struct ElementInformation {
    pub id: String,
    pub type_text: String,
}

/// The answer to a query for the properties of an element.
#[derive(Clone, Debug, PartialEq, Eq)]
pub struct QueryPropertyResponse {
    pub properties: Vec<PropertyInformation>,
    pub element: Option<ElementInformation>,
    pub source_uri: Option<String>,
}

impl QueryPropertyResponse {
    /// The answer where there is no element at the place asked about.
    pub fn no_element_response(uri: String) -> (response: Self)
        ensures
            response.properties@.len() == 0,
            response.element is None,
            response.source_uri == Some(uri),
    {
        QueryPropertyResponse { properties: Vec::new(), element: None, source_uri: Some(uri) }
    }
}

/// What a listing says of one property, apart from positions in text: its
/// name, its type, its group, and the place of its declaration where it has
/// one that can be shown.
pub struct PropertyEntry {
    pub name: Seq<char>,
    pub type_text: Seq<char>,
    pub group: Seq<char>,
    pub declared: Option<Declared>,
}

/// The place of a declaration: the URI that it is reported under, and the
/// byte offset of the type in the declaration.
pub struct Declared {
    pub place: Seq<char>,
    pub offset: u32,
}

/// A file's path as a sequence of characters.
pub open spec fn path_view(path: Option<String>) -> Option<Seq<char>> {
    match path {
        Some(p) => Some(p@),
        None => None,
    }
}

/// Whether `info` names the property, the type and the group of `entry`.
pub open spec fn same_texts(info: PropertyInformation, entry: PropertyEntry) -> bool {
    &&& info.name@ == entry.name
    &&& info.type_text@ == entry.type_text
    &&& info.group@ == entry.group
}

/// Whether `info` is `entry` without any place in text.
pub open spec fn is_plain(info: PropertyInformation, entry: PropertyEntry) -> bool {
    &&& same_texts(info, entry)
    &&& entry.declared is None
    &&& info.declared_at is None
    &&& info.defined_at is None
}

/// Whether `info` reports `entry` in full: the declaration has a place
/// exactly where the entry has one, its URI is the entry's place, and its
/// start is a position that `to_position` gives for the entry's offset.
pub open spec fn reports<F: Fn(u32) -> Position>(
    info: PropertyInformation,
    entry: PropertyEntry,
    to_position: F,
) -> bool {
    &&& same_texts(info, entry)
    &&& match entry.declared {
        Some(declared) => match info.declared_at {
            Some(declaration) => declaration.uri@ == declared.place && to_position.ensures(
                (declared.offset,),
                declaration.start_position,
            ),
            None => false,
        },
        None => info.declared_at is None,
    }
}

pub open spec fn all_plain(infos: Seq<PropertyInformation>, entries: Seq<PropertyEntry>) -> bool {
    &&& infos.len() == entries.len()
    &&& forall|i: int| 0 <= i < infos.len() ==> is_plain(#[trigger] infos[i], entries[i])
}

pub open spec fn all_report<F: Fn(u32) -> Position>(
    infos: Seq<PropertyInformation>,
    entries: Seq<PropertyEntry>,
    to_position: F,
) -> bool {
    &&& infos.len() == entries.len()
    &&& forall|i: int|
        0 <= i < infos.len() ==> reports(#[trigger] infos[i], entries[i], to_position)
}

/// Whether none of `infos` says where its value was assigned.
pub open spec fn none_defined(infos: Seq<PropertyInformation>) -> bool {
    forall|i: int| 0 <= i < infos.len() ==> (#[trigger] infos[i]).defined_at is None
}

/// The entry of a reserved property in `group`.
pub open spec fn reserved_entry(
    property: (Seq<char>, Seq<char>),
    group: Seq<char>,
) -> PropertyEntry {
    PropertyEntry { name: property.0, type_text: property.1, group, declared: None }
}

/// The entries of a table of reserved properties under `group`.
pub open spec fn reserved_entries(
    table: Seq<(Seq<char>, Seq<char>)>,
    group: Seq<char>,
) -> Seq<PropertyEntry> {
    table.map_values(|p: (Seq<char>, Seq<char>)| reserved_entry(p, group))
}

/// The entry of a declaration, or nothing for a declaration that is not
/// shown: a callback or a function, or one that the compiler made up. The
/// entry has a place where there is a `place` to report it under: the URI
/// that the path of the element's file was converted to.
pub open spec fn declaration_entry(
    declaration: NameEntry<PropertyDeclaration>,
    place: Option<Seq<char>>,
    group: Seq<char>,
) -> Option<PropertyEntry> {
    match declaration.value.type_node_offset {
        Some(offset) => if declaration.value.is_property_type {
            Some(
                PropertyEntry {
                    name: declaration.name@,
                    type_text: declaration.value.type_text@,
                    group,
                    declared: match place {
                        Some(place) => Some(Declared { place, offset }),
                        None => None,
                    },
                },
            )
        } else {
            None
        },
        None => None,
    }
}

/// The entries of the declarations in `declarations` that are shown, each
/// with a place where there is a `place` to report it under.
pub open spec fn shown_entries(
    declarations: Seq<NameEntry<PropertyDeclaration>>,
    place: Option<Seq<char>>,
    group: Seq<char>,
) -> Seq<PropertyEntry> {
    declarations.filter_map(|d: NameEntry<PropertyDeclaration>| declaration_entry(d, place, group))
}

/// The entries of the properties that `element` declares, under `group`, in
/// the order of their names, each with a place where there is a `place` to
/// report it under.
pub open spec fn placed_entries(
    element: Element,
    place: Option<Seq<char>>,
    group: Seq<char>,
) -> Seq<PropertyEntry> {
    shown_entries(element.property_declarations.entries@, place, group)
}

/// The file URL that stands for a path, where the path can be converted to
/// one. The path of a file must be absolute for that.
pub uninterp spec fn file_url(path: Seq<char>) -> Option<Seq<char>>;

/// The URI under which the declarations of `element` are reported: the file
/// URL of the path of its file. There is none where the element has no file
/// or the path cannot be converted.
pub open spec fn element_uri(element: Element) -> Option<Seq<char>> {
    match element.source_file {
        Some(path) => file_url(path@),
        None => None,
    }
}

/// The entries of the properties that `element` declares, under `group`, in
/// the order of their names. An entry has a place where the element has a
/// URI.
pub open spec fn declared_entries(element: Element, group: Seq<char>) -> Seq<PropertyEntry> {
    placed_entries(element, element_uri(element), group)
}

proof fn lemma_all_report_concat<F: Fn(u32) -> Position>(
    a: Seq<PropertyInformation>,
    ea: Seq<PropertyEntry>,
    b: Seq<PropertyInformation>,
    eb: Seq<PropertyEntry>,
    to_position: F,
)
    requires
        all_report(a, ea, to_position),
        all_report(b, eb, to_position),
        none_defined(a),
        none_defined(b),
    ensures
        all_report(a + b, ea + eb, to_position),
        none_defined(a + b),
{
    assert forall|i: int| 0 <= i < (a + b).len() implies reports(
        #[trigger] (a + b)[i],
        (ea + eb)[i],
        to_position,
    ) && (a + b)[i].defined_at is None by {
        if i < a.len() {
            assert((a + b)[i] == a[i]);
        } else {
            assert((a + b)[i] == b[i - a.len()]);
        }
    }
}

proof fn lemma_plain_reports<F: Fn(u32) -> Position>(
    infos: Seq<PropertyInformation>,
    entries: Seq<PropertyEntry>,
    to_position: F,
)
    requires
        all_plain(infos, entries),
    ensures
        all_report(infos, entries, to_position),
        none_defined(infos),
{
}

proof fn lemma_all_plain_concat(
    a: Seq<PropertyInformation>,
    ea: Seq<PropertyEntry>,
    b: Seq<PropertyInformation>,
    eb: Seq<PropertyEntry>,
)
    requires
        all_plain(a, ea),
        all_plain(b, eb),
    ensures
        all_plain(a + b, ea + eb),
{
    assert forall|i: int| 0 <= i < (a + b).len() implies is_plain(
        #[trigger] (a + b)[i],
        (ea + eb)[i],
    ) by {
        if i < a.len() {
            assert((a + b)[i] == a[i]);
        } else {
            assert((a + b)[i] == b[i - a.len()]);
        }
    }
}

/// Lists reserved properties under `group`, none of them placed in text.
pub fn get_reserved_properties(group: &str, properties: &Vec<ReservedProperty>) -> (listing: Vec<
    PropertyInformation,
>)
    ensures
        all_plain(listing@, reserved_entries(table_view(properties@), group@)),
{
    let mut listing: Vec<PropertyInformation> = Vec::new();
    let mut i: usize = 0;
    while i < properties.len()
        invariant
            i <= properties@.len(),
            all_plain(listing@, reserved_entries(table_view(properties@.take(i as int)), group@)),
        decreases properties@.len() - i,
    {
        let property = &properties[i];
        let info = PropertyInformation {
            name: property.name.clone(),
            type_text: property.type_text.clone(),
            declared_at: None,
            defined_at: None,
            group: group.to_owned(),
        };
        proof {
            let before = properties@.take(i as int);
            let after = properties@.take(i as int + 1);
            assert(after =~= before.push(properties@[i as int]));
            assert(reserved_entries(table_view(after), group@) =~= reserved_entries(
                table_view(before),
                group@,
            ).push(reserved_entry(properties@[i as int]@, group@)));
        }
        listing.push(info);
        i += 1;
    }
    assert(properties@.take(i as int) =~= properties@);
    listing
}

/// The path of the file that `element` was written in.
pub fn source_file(element: &Element) -> (path: Option<String>)
    ensures
        path_view(path) == path_view(element.source_file),
{
    match &element.source_file {
        Some(p) => Some(p.clone()),
        None => None,
    }
}

/// Calls `lsp_types::Url::from_file_path` and writes the URL out as a string.
/// The conversion reads nothing but the path, and fails on a path that is
/// not absolute. The contract only gives the result its name.
#[verifier::external_body]
pub(crate) fn file_path_url(path: &str) -> (url: Option<String>)
    ensures
        path_view(url) == file_url(path@),
{
    lsp_types::Url::from_file_path(path).ok().map(|u| u.to_string())
}

/// Converts the path of the file of `element` to a URI.
pub fn convert_path(element: &Element) -> (uri: Option<String>)
    ensures
        path_view(uri) == element_uri(*element),
{
    match &element.source_file {
        Some(path) => file_path_url(path.as_str()),
        None => None,
    }
}

/// Lists the properties that `element` declares, under `group`, reporting
/// their places under `converted`, the URI that the path of the element's
/// file was converted to.
///
/// Callbacks and functions are left out, and so are declarations that the
/// compiler made up. With a URI, each property is placed in it at the start
/// of the type in its declaration. Without one, none has a place.
pub fn get_declared_properties<F: Fn(u32) -> Position>(
    element: &Element,
    converted: Option<String>,
    offset_to_position: &F,
    group: &str,
) -> (listing: Vec<PropertyInformation>)
    requires
        forall|offset: u32| offset_to_position.requires((offset,)),
    ensures
        all_report(
            listing@,
            placed_entries(*element, path_view(converted), group@),
            *offset_to_position,
        ),
        none_defined(listing@),
{
    let declarations = &element.property_declarations.entries;
    let ghost shown = |d: NameEntry<PropertyDeclaration>|
        declaration_entry(d, path_view(converted), group@);
    let mut listing: Vec<PropertyInformation> = Vec::new();
    let mut i: usize = 0;
    while i < declarations.len()
        invariant
            forall|offset: u32| offset_to_position.requires((offset,)),
            declarations == &element.property_declarations.entries,
            shown == |d: NameEntry<PropertyDeclaration>|
                declaration_entry(d, path_view(converted), group@),
            i <= declarations@.len(),
            all_report(
                listing@,
                declarations@.take(i as int).filter_map(shown),
                *offset_to_position,
            ),
            none_defined(listing@),
        decreases declarations@.len() - i,
    {
        let declaration = &declarations[i];
        proof {
            declarations@.lemma_filter_map_take_succ(shown, i as int);
        }
        if declaration.value.is_property_type {
            match declaration.value.type_node_offset {
                Some(offset) => {
                    let declared_at = match &converted {
                        Some(uri) => {
                            let start_position = offset_to_position(offset);
                            Some(DeclarationInformation { uri: uri.clone(), start_position })
                        },
                        None => None,
                    };
                    let info = PropertyInformation {
                        name: declaration.name.clone(),
                        type_text: declaration.value.type_text.clone(),
                        declared_at,
                        defined_at: None,
                        group: group.to_owned(),
                    };
                    assert(reports(
                        info,
                        shown(declarations@[i as int]).unwrap(),
                        *offset_to_position,
                    ));
                    listing.push(info);
                },
                None => {},
            }
        }
        i += 1;
    }
    assert(declarations@.take(i as int) =~= declarations@);
    listing
}

/// Lists the properties that `element` declares, under `group`.
///
/// Callbacks and functions are left out, and so are declarations that the
/// compiler made up. Where the path of the element's file can be converted
/// to a URI, each property is placed in it at the start of the type in its
/// declaration; where there is no file, or its path cannot be converted, none
/// has a place.
pub fn get_element_properties<F: Fn(u32) -> Position>(
    element: &Element,
    offset_to_position: &F,
    group: &str,
) -> (listing: Vec<PropertyInformation>)
    requires
        forall|offset: u32| offset_to_position.requires((offset,)),
    ensures
        all_report(listing@, declared_entries(*element, group@), *offset_to_position),
        none_defined(listing@),
{
    get_declared_properties(element, convert_path(element), offset_to_position, group)
}

/// Whether `range` is `span` with its two ends placed by `to_position`. The
/// end of a span is placed one byte further on.
pub open spec fn places_range<F: Fn(u32) -> Position>(
    to_position: F,
    span: TextRange,
    range: PositionRange,
) -> bool {
    &&& to_position.ensures((span.start,), range.start)
    &&& to_position.ensures(((span.end + 1) as u32,), range.end)
}

/// Whether `definition` is `ranges` placed by `to_position`.
pub open spec fn places_definition<F: Fn(u32) -> Position>(
    to_position: F,
    ranges: DefinitionRanges,
    definition: DefinitionInformation,
) -> bool {
    &&& places_range(to_position, ranges.binding, definition.property_definition_range)
    &&& places_range(to_position, ranges.expression, definition.expression_range)
}

/// Turns a range of byte offsets into a range of positions. The start is
/// placed as it is, the end one byte further on.
pub fn text_range_to_lsp_range<F: Fn(u32) -> Position>(
    range: TextRange,
    offset_to_position: &F,
) -> (placed: PositionRange)
    requires
        range.end < u32::MAX,
        forall|offset: u32| offset_to_position.requires((offset,)),
    ensures
        places_range(*offset_to_position, range, placed),
{
    let start = offset_to_position(range.start);
    let end = offset_to_position(range.end + 1);
    PositionRange { start, end }
}

/// The binding around `offset` in `node` and the expression in it, as byte
/// ranges.
///
/// There is none where the offset lies outside the node, where the chain of
/// nodes above it cannot be searched, where the search finds no binding with
/// an expression strictly inside it, or where the binding ends at the last
/// offset there is.
pub open spec fn expression_ranges(
    node: i_slint_compiler::parser::SyntaxNode,
    offset: u32,
) -> Option<DefinitionRanges> {
    let span = element_node_range(node);
    let chain = ancestors_at_offset(node, offset);
    if span.start <= offset <= span.end && searchable(chain) {
        match definition_ranges(chain) {
            Some(ranges) => if ranges.binding.end < u32::MAX {
                Some(ranges)
            } else {
                None
            },
            None => None,
        }
    } else {
        None
    }
}

/// Whether `found` is `expected` placed by `to_position`.
pub open spec fn places_found<F: Fn(u32) -> Position>(
    to_position: F,
    expected: Option<DefinitionRanges>,
    found: Option<DefinitionInformation>,
) -> bool {
    match expected {
        Some(ranges) => match found {
            Some(definition) => places_definition(to_position, ranges, definition),
            None => false,
        },
        None => found is None,
    }
}

/// Finds the binding around `offset` in an element's syntax node, and the
/// expression in it, and places both.
pub fn find_expression_range<F: Fn(u32) -> Position>(
    node: &i_slint_compiler::parser::SyntaxNode,
    offset: u32,
    offset_to_position: &F,
) -> (found: Option<DefinitionInformation>)
    requires
        forall|offset: u32| offset_to_position.requires((offset,)),
    ensures
        places_found(*offset_to_position, expression_ranges(*node, offset), found),
{
    let span = node_text_range(node);
    if offset < span.start || offset > span.end {
        return None;
    }
    let chain = right_biased_chain(token_ancestors(node, offset));
    if !is_searchable(&chain) {
        return None;
    }
    match select_definition_ranges(&chain) {
        Some(ranges) => {
            if ranges.binding.end == u32::MAX {
                return None;
            }
            Some(
                DefinitionInformation {
                    property_definition_range: text_range_to_lsp_range(
                        ranges.binding,
                        offset_to_position,
                    ),
                    expression_range: text_range_to_lsp_range(
                        ranges.expression,
                        offset_to_position,
                    ),
                },
            )
        },
        None => None,
    }
}

/// The offset of the binding for `name` on `element`, where the binding was
/// written in the element's own file and inside the element's own node.
pub open spec fn binding_offset(element: Element, name: Seq<char>) -> Option<u32> {
    match element.bindings.value_of(name) {
        Some(binding) => match binding.span {
            Some(span) => if same_source(element.source_file, span.source_file)
                && element.node is Some && element_node_range(element.node.unwrap()).spec_contains(
                span.offset,
            ) {
                Some(span.offset)
            } else {
                None
            },
            None => None,
        },
        None => None,
    }
}

/// Where the value of the property `name` was assigned on `element`, as byte
/// ranges.
pub open spec fn definition_of(element: Element, name: Seq<char>) -> Option<DefinitionRanges> {
    match binding_offset(element, name) {
        Some(offset) => expression_ranges(element.node.unwrap(), offset),
        None => None,
    }
}

/// Whether `after` is `before` with nothing changed but the place where the
/// value was assigned.
pub open spec fn same_but_definition(
    before: PropertyInformation,
    after: PropertyInformation,
) -> bool {
    &&& after.name == before.name
    &&& after.type_text == before.type_text
    &&& after.declared_at == before.declared_at
    &&& after.group == before.group
}

/// Whether two paths name the same file: whether they are equal component
/// by component.
pub uninterp spec fn same_file_path(a: Seq<char>, b: Seq<char>) -> bool;

/// Whether a binding was written in the file of the element: both files are
/// known and their paths are the same, or neither is known.
pub open spec fn same_source(element: Option<String>, binding: Option<String>) -> bool {
    match element {
        Some(a) => match binding {
            Some(b) => same_file_path(a@, b@),
            None => false,
        },
        None => binding is None,
    }
}

/// Compares two paths with the `==` of `std::path::Path`, which compares
/// them by their components. The contract only gives the result its name.
#[verifier::external_body]
pub(crate) fn paths_equal(a: &str, b: &str) -> (same: bool)
    ensures
        same == same_file_path(a@, b@),
{
    std::path::Path::new(a) == std::path::Path::new(b)
}

/// Whether a binding was written in the file of the element.
pub fn is_same_source(element: &Option<String>, binding: &Option<String>) -> (same: bool)
    ensures
        same == same_source(*element, *binding),
{
    match element {
        Some(a) => match binding {
            Some(b) => paths_equal(a.as_str(), b.as_str()),
            None => false,
        },
        None => binding.is_none(),
    }
}

/// Adds to each property in `properties` the place where its value was
/// assigned on `element`.
///
/// A property gets one where the element has a binding for it that was
/// written in the element's file and inside the element's node, and the
/// syntax tree shows a binding with an expression around it. The others are
/// left as they are.
pub fn insert_property_definitions<F: Fn(u32) -> Position>(
    element: &Element,
    properties: &mut Vec<PropertyInformation>,
    offset_to_position: &F,
)
    requires
        element.node is Some,
        element.bindings.wf(),
        forall|offset: u32| offset_to_position.requires((offset,)),
    ensures
        final(properties)@.len() == old(properties)@.len(),
        forall|i: int|
            0 <= i < old(properties)@.len() ==> same_but_definition(
                old(properties)@[i],
                #[trigger] final(properties)@[i],
            ),
        forall|i: int|
            0 <= i < old(properties)@.len() ==> match definition_of(
                *element,
                old(properties)@[i].name@,
            ) {
                Some(ranges) => places_found(
                    *offset_to_position,
                    Some(ranges),
                    (#[trigger] final(properties)@[i]).defined_at,
                ),
                None => final(properties)@[i].defined_at == old(properties)@[i].defined_at,
            },
{
    let element_node = match &element.node {
        Some(node) => node,
        None => {
            return ;
        },
    };
    let element_range = node_text_range(element_node);
    let ghost before = properties@;
    let mut i: usize = 0;
    while i < properties.len()
        invariant
            element.node == Some(*element_node),
            element.bindings.wf(),
            element_range == element_node_range(*element_node),
            forall|offset: u32| offset_to_position.requires((offset,)),
            i <= properties@.len(),
            properties@.len() == before.len(),
            forall|j: int| i <= j < before.len() ==> properties@[j] == before[j],
            forall|j: int|
                0 <= j < i ==> same_but_definition(before[j], #[trigger] properties@[j]),
            forall|j: int|
                0 <= j < i ==> match definition_of(*element, before[j].name@) {
                    Some(ranges) => places_found(
                        *offset_to_position,
                        Some(ranges),
                        (#[trigger] properties@[j]).defined_at,
                    ),
                    None => properties@[j].defined_at == before[j].defined_at,
                },
        decreases properties@.len() - i,
    {
        let ghost current = properties@;
        let mut definition: Option<DefinitionInformation> = None;
        match element.bindings.get(properties[i].name.as_str()) {
            Some(binding) => {
                match &binding.span {
                    Some(span) => {
                        if is_same_source(&element.source_file, &span.source_file)
                            && element_range.contains(span.offset) {
                            definition =
                            find_expression_range(element_node, span.offset, offset_to_position);
                        }
                    },
                    None => {},
                }
            },
            None => {},
        }
        assert(places_found(
            *offset_to_position,
            definition_of(*element, before[i as int].name@),
            definition,
        ));
        match definition {
            Some(d) => {
                properties[i].defined_at = Some(d);
            },
            None => {},
        }
        assert(forall|j: int| 0 <= j < before.len() && j != i ==> properties@[j] == current[j]);
        i += 1;
    }
}

/// An entry without a place of declaration.
pub open spec fn plain_entry(
    name: Seq<char>,
    type_text: Seq<char>,
    group: Seq<char>,
) -> PropertyEntry {
    PropertyEntry { name, type_text, group, declared: None }
}

/// Whether `name` is one of the four properties of position and size, which
/// every element has among its reserved properties.
pub open spec fn is_core_geometry(name: Seq<char>) -> bool {
    name == "x"@ || name == "y"@ || name == "width"@ || name == "height"@
}

/// The entry of an intrinsic property of the built-in element `group`, or
/// nothing for one that is not shown: a callback or a function, or one of the
/// four properties of position and size.
pub open spec fn builtin_entry(
    property: NameEntry<BuiltinProperty>,
    group: Seq<char>,
) -> Option<PropertyEntry> {
    if is_core_geometry(property.name@) || !property.value.is_property_type {
        None
    } else {
        Some(plain_entry(property.name@, property.value.type_text@, group))
    }
}

/// The entries that a built-in element brings: its intrinsic properties under
/// its name; `clip` on a rectangle; `opacity` and `visible`; the rotation of
/// an image; the drop shadow of a rectangle.
pub open spec fn builtin_entries(builtin: BuiltinElement) -> Seq<PropertyEntry> {
    let intrinsic = builtin.properties.entries@.filter_map(
        |p: NameEntry<BuiltinProperty>| builtin_entry(p, builtin.name@),
    );
    let clip = if builtin.name@ == "Rectangle"@ {
        seq![plain_entry("clip"@, "bool"@, Seq::empty())]
    } else {
        Seq::empty()
    };
    let universal = seq![
        plain_entry("opacity"@, "float"@, Seq::empty()),
        plain_entry("visible"@, "bool"@, Seq::empty()),
    ];
    let rotation = if builtin.name@ == "Image"@ {
        reserved_entries(rotation_properties(), "rotation"@)
    } else {
        Seq::empty()
    };
    let shadow = if builtin.name@ == "Rectangle"@ {
        reserved_entries(drop_shadow_properties(), "drop-shadow"@)
    } else {
        Seq::empty()
    };
    intrinsic + clip + universal + rotation + shadow
}

/// The entry of a reserved layout property, or nothing for the padding and
/// its four sides.
pub open spec fn layout_entry(property: (Seq<char>, Seq<char>)) -> Option<PropertyEntry> {
    if "padding"@.is_prefix_of(property.0) {
        None
    } else {
        Some(reserved_entry(property, "layout"@))
    }
}

/// The entries of the reserved layout properties in `table` that are shown.
pub open spec fn layout_entries(table: Seq<(Seq<char>, Seq<char>)>) -> Seq<PropertyEntry> {
    table.filter_map(|p: (Seq<char>, Seq<char>)| layout_entry(p))
}

/// The entries that every element has that is not a global: geometry, layout
/// without the padding, the accessible role, and the other accessibility
/// properties where `accessible` says so.
pub open spec fn common_entries(accessible: bool) -> Seq<PropertyEntry> {
    let role = seq![plain_entry("accessible-role"@, "enum AccessibleRole"@, "accessibility"@)];
    let others = if accessible {
        reserved_entries(accessibility_properties(), "accessibility"@)
    } else {
        Seq::empty()
    };
    reserved_entries(geometry_properties(), "geometry"@) + layout_entries(layout_properties())
        + role + others
}

/// The entries that element `e` has from its base: what each component on
/// the way declares, under that component's id, and at the end of the way
/// what a built-in element brings and what every element has. A way that ends
/// at a global brings nothing more.
pub open spec fn inherited_entries(tree: &ObjectTree, e: int, accessible: bool) -> Seq<
    PropertyEntry,
>
    decreases e,
{
    if 0 <= e < tree.elements@.len() && tree.element_wf(e) {
        match tree.elements@[e].base_type {
            ElementType::Component(c) => {
                let root = tree.components@[c as int].root_element as int;
                declared_entries(tree.elements@[root], tree.components@[c as int].id@)
                    + inherited_entries(tree, root, accessible)
            },
            ElementType::Builtin(builtin) => builtin_entries(builtin) + common_entries(accessible),
            ElementType::Global => Seq::empty(),
            ElementType::Native(_) => common_entries(accessible),
            ElementType::Invalid => common_entries(accessible),
        }
    } else {
        Seq::empty()
    }
}

/// Whether `element` itself has a binding for `name` that stands in the
/// source text.
pub open spec fn has_explicit_binding(element: Element, name: Seq<char>) -> bool {
    match element.bindings.value_of(name) {
        Some(binding) => binding.spec_is_explicit(),
        None => false,
    }
}

/// The entries of every property visible on element `e`: those it declares
/// itself, under no group, then those it has from its base.
pub open spec fn property_entries(tree: &ObjectTree, e: int) -> Seq<PropertyEntry> {
    declared_entries(tree.elements@[e], Seq::empty()) + inherited_entries(
        tree,
        e,
        has_explicit_binding(tree.elements@[e], "accessible-role"@),
    )
}

fn plain_property(name: &str, type_text: String, group: &str) -> (info: PropertyInformation)
    ensures
        is_plain(info, plain_entry(name@, type_text@, group@)),
{
    PropertyInformation {
        name: name.to_owned(),
        type_text,
        declared_at: None,
        defined_at: None,
        group: group.to_owned(),
    }
}

fn append_plain(
    listing: &mut Vec<PropertyInformation>,
    more: Vec<PropertyInformation>,
    Ghost(entries): Ghost<Seq<PropertyEntry>>,
    Ghost(more_entries): Ghost<Seq<PropertyEntry>>,
)
    requires
        all_plain(old(listing)@, entries),
        all_plain(more@, more_entries),
    ensures
        all_plain(final(listing)@, entries + more_entries),
{
    let mut more = more;
    proof {
        lemma_all_plain_concat(listing@, entries, more@, more_entries);
    }
    listing.append(&mut more);
}

/// Lists the reserved layout properties in `table`, without the padding and
/// its four sides.
pub fn get_layout_properties(table: &Vec<ReservedProperty>) -> (listing: Vec<PropertyInformation>)
    ensures
        all_plain(listing@, layout_entries(table_view(table@))),
{
    let ghost shown = |p: (Seq<char>, Seq<char>)| layout_entry(p);
    let ghost pairs = table_view(table@);
    let mut listing: Vec<PropertyInformation> = Vec::new();
    let mut i: usize = 0;
    while i < table.len()
        invariant
            i <= table@.len(),
            pairs == table_view(table@),
            shown == |p: (Seq<char>, Seq<char>)| layout_entry(p),
            all_plain(listing@, pairs.take(i as int).filter_map(shown)),
        decreases table@.len() - i,
    {
        let property = &table[i];
        proof {
            pairs.lemma_filter_map_take_succ(shown, i as int);
            assert(pairs[i as int] == property@);
        }
        if !starts_with(property.name.as_str(), "padding") {
            let info = PropertyInformation {
                name: property.name.clone(),
                type_text: property.type_text.clone(),
                declared_at: None,
                defined_at: None,
                group: "layout".to_owned(),
            };
            listing.push(info);
        }
        i += 1;
    }
    assert(pairs.take(i as int) =~= pairs);
    listing
}

/// Lists what a built-in element brings.
pub fn get_builtin_properties(builtin: &BuiltinElement) -> (listing: Vec<PropertyInformation>)
    ensures
        all_plain(listing@, builtin_entries(*builtin)),
{
    let properties = &builtin.properties.entries;
    let ghost shown = |p: NameEntry<BuiltinProperty>| builtin_entry(p, builtin.name@);
    let mut listing: Vec<PropertyInformation> = Vec::new();
    let mut i: usize = 0;
    while i < properties.len()
        invariant
            properties == &builtin.properties.entries,
            shown == |p: NameEntry<BuiltinProperty>| builtin_entry(p, builtin.name@),
            i <= properties@.len(),
            all_plain(listing@, properties@.take(i as int).filter_map(shown)),
        decreases properties@.len() - i,
    {
        let property = &properties[i];
        proof {
            properties@.lemma_filter_map_take_succ(shown, i as int);
        }
        let name = property.name.as_str();
        let geometry = name_equal(name, "x") || name_equal(name, "y") || name_equal(name, "width")
            || name_equal(name, "height");
        if !geometry && property.value.is_property_type {
            let info = PropertyInformation {
                name: property.name.clone(),
                type_text: property.value.type_text.clone(),
                declared_at: None,
                defined_at: None,
                group: builtin.name.clone(),
            };
            listing.push(info);
        }
        i += 1;
    }
    assert(properties@.take(i as int) =~= properties@);
    let ghost mut entries = properties@.filter_map(shown);
    let rectangle = name_equal(builtin.name.as_str(), "Rectangle");
    let image = name_equal(builtin.name.as_str(), "Image");
    proof {
        reveal_strlit("");
        assert(""@ =~= Seq::<char>::empty());
    }
    if rectangle {
        listing.push(plain_property("clip", bool_type_text(), ""));
        proof {
            entries = entries + seq![plain_entry("clip"@, "bool"@, Seq::empty())];
        }
    }
    assert(all_plain(listing@, entries));
    listing.push(plain_property("opacity", float_type_text(), ""));
    listing.push(plain_property("visible", bool_type_text(), ""));
    proof {
        entries = entries + seq![
            plain_entry("opacity"@, "float"@, Seq::empty()),
            plain_entry("visible"@, "bool"@, Seq::empty()),
        ];
    }
    assert(all_plain(listing@, entries));
    if image {
        let rotation = get_reserved_properties("rotation", &reserved_rotation_properties());
        let ghost more = reserved_entries(rotation_properties(), "rotation"@);
        append_plain(&mut listing, rotation, Ghost(entries), Ghost(more));
        proof {
            entries = entries + more;
        }
    }
    if rectangle {
        let shadow = get_reserved_properties("drop-shadow", &reserved_drop_shadow_properties());
        let ghost more = reserved_entries(drop_shadow_properties(), "drop-shadow"@);
        append_plain(&mut listing, shadow, Ghost(entries), Ghost(more));
        proof {
            entries = entries + more;
        }
    }
    assert(entries =~= builtin_entries(*builtin));
    listing
}

/// Lists what every element has that is not a global.
pub fn get_common_properties(accessible: bool) -> (listing: Vec<PropertyInformation>)
    ensures
        all_plain(listing@, common_entries(accessible)),
{
    let mut listing = get_reserved_properties("geometry", &reserved_geometry_properties());
    let ghost mut entries = reserved_entries(geometry_properties(), "geometry"@);
    let layout = get_layout_properties(&reserved_layout_properties());
    append_plain(
        &mut listing,
        layout,
        Ghost(entries),
        Ghost(layout_entries(layout_properties())),
    );
    proof {
        entries = entries + layout_entries(layout_properties());
    }
    listing.push(plain_property("accessible-role", accessible_role_type_text(), "accessibility"));
    proof {
        entries = entries + seq![
            plain_entry("accessible-role"@, "enum AccessibleRole"@, "accessibility"@),
        ];
    }
    assert(all_plain(listing@, entries));
    if accessible {
        let others = get_reserved_properties(
            "accessibility",
            &reserved_accessibility_properties(),
        );
        let ghost more = reserved_entries(accessibility_properties(), "accessibility"@);
        append_plain(&mut listing, others, Ghost(entries), Ghost(more));
        proof {
            entries = entries + more;
        }
    }
    assert(entries =~= common_entries(accessible));
    listing
}

/// The element at which the way from element `e` along its base ends.
pub open spec fn end_of_chain(tree: &ObjectTree, e: int) -> int
    decreases e,
{
    if 0 <= e < tree.elements@.len() && tree.element_wf(e) {
        match tree.elements@[e].base_type {
            ElementType::Component(c) => end_of_chain(
                tree,
                tree.components@[c as int].root_element as int,
            ),
            _ => e,
        }
    } else {
        e
    }
}

/// Where the listing of element `e` says that the value of the property
/// `name` was assigned. For an element whose way along its base ends at a
/// global no property has such a place.
pub open spec fn listed_definition(tree: &ObjectTree, e: int, name: Seq<char>) -> Option<
    DefinitionRanges,
> {
    if tree.elements@[end_of_chain(tree, e)].base_type is Global {
        None
    } else {
        definition_of(tree.elements@[e], name)
    }
}

/// Whether `infos` is the listing of `entries` for element `e`: it reports
/// each entry in full, placed by `to_position`, with the place where its
/// value was assigned.
pub open spec fn reports_properties<F: Fn(u32) -> Position>(
    infos: Seq<PropertyInformation>,
    entries: Seq<PropertyEntry>,
    tree: &ObjectTree,
    e: int,
    to_position: F,
) -> bool {
    &&& all_report(infos, entries, to_position)
    &&& forall|i: int|
        0 <= i < infos.len() ==> places_found(
            to_position,
            listed_definition(tree, e, entries[i].name),
            (#[trigger] infos[i]).defined_at,
        )
}

/// URIs as sequences of characters.
pub open spec fn uris_view(uris: Seq<Option<String>>) -> Seq<Option<Seq<char>>> {
    uris.map_values(|uri: Option<String>| path_view(uri))
}

/// The URI for the element `k` steps along the way, as far as `uris` goes.
pub open spec fn place_at(uris: Seq<Option<Seq<char>>>, k: int) -> Option<Seq<char>> {
    if 0 <= k < uris.len() {
        uris[k]
    } else {
        None
    }
}

/// The entries that element `e` has from its base, where `e` stands `k - 1`
/// steps along the way and the declarations of the elements further on are
/// reported under `uris`.
pub open spec fn inherited_under(
    tree: &ObjectTree,
    e: int,
    uris: Seq<Option<Seq<char>>>,
    k: int,
    accessible: bool,
) -> Seq<PropertyEntry>
    decreases e,
{
    if 0 <= e < tree.elements@.len() && tree.element_wf(e) {
        match tree.elements@[e].base_type {
            ElementType::Component(c) => {
                let root = tree.components@[c as int].root_element as int;
                placed_entries(
                    tree.elements@[root],
                    place_at(uris, k),
                    tree.components@[c as int].id@,
                ) + inherited_under(tree, root, uris, k + 1, accessible)
            },
            ElementType::Builtin(builtin) => builtin_entries(builtin) + common_entries(accessible),
            ElementType::Global => Seq::empty(),
            ElementType::Native(_) => common_entries(accessible),
            ElementType::Invalid => common_entries(accessible),
        }
    } else {
        Seq::empty()
    }
}

/// The entries of every property visible on element `e`, where the
/// declarations of the element `k` steps along the way of its base are
/// reported under the `k`-th of `uris`, and have no place where that is
/// missing.
pub open spec fn reported_entries(
    tree: &ObjectTree,
    e: int,
    uris: Seq<Option<Seq<char>>>,
) -> Seq<PropertyEntry> {
    placed_entries(tree.elements@[e], place_at(uris, 0), Seq::empty()) + inherited_under(
        tree,
        e,
        uris,
        1,
        has_explicit_binding(tree.elements@[e], "accessible-role"@),
    )
}

/// The URIs of the elements on the way from element `e` along its base, `e`
/// first: for each the file URL of the path of its file.
pub open spec fn chain_uris(tree: &ObjectTree, e: int) -> Seq<Option<Seq<char>>>
    decreases e,
{
    if 0 <= e < tree.elements@.len() && tree.element_wf(e) {
        match tree.elements@[e].base_type {
            ElementType::Component(c) => seq![element_uri(tree.elements@[e])] + chain_uris(
                tree,
                tree.components@[c as int].root_element as int,
            ),
            _ => seq![element_uri(tree.elements@[e])],
        }
    } else {
        Seq::empty()
    }
}

proof fn lemma_inherited_under_chain(
    tree: &ObjectTree,
    current: int,
    uris: Seq<Option<Seq<char>>>,
    k: int,
    accessible: bool,
)
    requires
        tree.wf(),
        0 <= current < tree.elements@.len(),
        1 <= k <= uris.len(),
        uris.skip(k - 1) == chain_uris(tree, current),
    ensures
        inherited_under(tree, current, uris, k, accessible) == inherited_entries(
            tree,
            current,
            accessible,
        ),
    decreases current,
{
    assert(tree.element_wf(current));
    match tree.elements@[current].base_type {
        ElementType::Component(c) => {
            let root = tree.components@[c as int].root_element as int;
            assert(tree.component_wf(c as int));
            assert(tree.element_wf(root));
            let rest = chain_uris(tree, root);
            assert(rest.len() >= 1 && rest[0] == element_uri(tree.elements@[root]));
            assert(chain_uris(tree, current) == seq![element_uri(tree.elements@[current])] + rest);
            assert(uris.skip(k) =~= uris.skip(k - 1).skip(1));
            assert((seq![element_uri(tree.elements@[current])] + rest).skip(1) =~= rest);
            assert(uris.skip(k)[0] == uris[k]);
            assert(place_at(uris, k) == element_uri(tree.elements@[root]));
            lemma_inherited_under_chain(tree, root, uris, k + 1, accessible);
        },
        _ => {},
    }
}

/// What is listed under the URIs of the elements on the way is what is
/// listed for the element.
pub proof fn lemma_reported_under_chain(tree: &ObjectTree, e: int)
    requires
        tree.wf(),
        0 <= e < tree.elements@.len(),
    ensures
        reported_entries(tree, e, chain_uris(tree, e)) == property_entries(tree, e),
{
    let uris = chain_uris(tree, e);
    assert(tree.element_wf(e));
    assert(uris.len() >= 1 && uris[0] == element_uri(tree.elements@[e]));
    assert(uris.skip(0) =~= uris);
    lemma_inherited_under_chain(
        tree,
        e,
        uris,
        1,
        has_explicit_binding(tree.elements@[e], "accessible-role"@),
    );
}

fn uri_at(uris: &Vec<Option<String>>, k: usize) -> (uri: Option<String>)
    ensures
        path_view(uri) == place_at(uris_view(uris@), k as int),
{
    if k < uris.len() {
        match &uris[k] {
            Some(uri) => Some(uri.clone()),
            None => None,
        }
    } else {
        None
    }
}

/// Lists every property visible on the element at `element`, reporting the
/// declarations of the element `k` steps along the way of its base under the
/// `k`-th of `uris`.
///
/// First come the properties that the element declares. Then the way along
/// its base is walked: each component on it gives what its root element
/// declares, under the component's id. A built-in element at the end gives
/// its intrinsic properties and those reserved for its kind. Unless the way
/// ends at a global, the reserved properties of geometry, layout and
/// accessibility follow, and each property that the element binds gets the
/// place of that binding.
pub fn get_properties_under<F: Fn(u32) -> Position>(
    tree: &ObjectTree,
    element: usize,
    uris: &Vec<Option<String>>,
    offset_to_position: &F,
) -> (listing: Vec<PropertyInformation>)
    requires
        tree.wf(),
        element < tree.elements@.len(),
        tree.elements@[element as int].node is Some,
        forall|offset: u32| offset_to_position.requires((offset,)),
    ensures
        reports_properties(
            listing@,
            reported_entries(tree, element as int, uris_view(uris@)),
            tree,
            element as int,
            *offset_to_position,
        ),
{
    assert(tree.element_wf(element as int));
    let queried = &tree.elements[element];
    let ghost places = uris_view(uris@);
    proof {
        reveal_strlit("");
        assert(""@ =~= Seq::<char>::empty());
    }
    let mut listing = get_declared_properties(queried, uri_at(uris, 0), offset_to_position, "");
    let accessible = match queried.bindings.get("accessible-role") {
        Some(binding) => binding.is_explicit(),
        None => false,
    };
    let ghost mut entries = placed_entries(*queried, place_at(places, 0), Seq::empty());
    let count = tree.elements.len();
    let mut current = element;
    let mut k: usize = 1;
    let mut walking = true;
    while walking
        invariant
            tree.wf(),
            current < tree.elements@.len(),
            k + current <= element + 1,
            element < count,
            places == uris_view(uris@),
            end_of_chain(tree, current as int) == end_of_chain(tree, element as int),
            forall|offset: u32| offset_to_position.requires((offset,)),
            all_report(listing@, entries, *offset_to_position),
            none_defined(listing@),
            entries + inherited_under(tree, current as int, places, k as int, accessible)
                == reported_entries(tree, element as int, places),
            accessible == has_explicit_binding(
                tree.elements@[element as int],
                "accessible-role"@,
            ),
            !walking ==> !(tree.elements@[current as int].base_type is Component),
        decreases current + if walking { 1int } else { 0int },
    {
        assert(tree.element_wf(current as int));
        match &tree.elements[current].base_type {
            ElementType::Component(c) => {
                let component = &tree.components[*c];
                let root = component.root_element;
                let mut inherited = get_declared_properties(
                    &tree.elements[root],
                    uri_at(uris, k),
                    offset_to_position,
                    component.id.as_str(),
                );
                let ghost more = placed_entries(
                    tree.elements@[root as int],
                    place_at(places, k as int),
                    component.id@,
                );
                proof {
                    lemma_all_report_concat(
                        listing@,
                        entries,
                        inherited@,
                        more,
                        *offset_to_position,
                    );
                    assert(entries + inherited_under(
                        tree,
                        current as int,
                        places,
                        k as int,
                        accessible,
                    ) =~= (entries + more) + inherited_under(
                        tree,
                        root as int,
                        places,
                        k as int + 1,
                        accessible,
                    ));
                    entries = entries + more;
                }
                listing.append(&mut inherited);
                assert(root < current);
                k += 1;
                current = root;
            },
            _ => {
                walking = false;
            },
        }
    }
    assert(tree.element_wf(current as int));
    assert(end_of_chain(tree, current as int) == current);
    let mut global = false;
    let mut reserved = match &tree.elements[current].base_type {
        ElementType::Builtin(builtin) => {
            let mut from_builtin = get_builtin_properties(builtin);
            let common = get_common_properties(accessible);
            append_plain(
                &mut from_builtin,
                common,
                Ghost(builtin_entries(*builtin)),
                Ghost(common_entries(accessible)),
            );
            from_builtin
        },
        ElementType::Global => {
            global = true;
            Vec::new()
        },
        _ => get_common_properties(accessible),
    };
    proof {
        let more = inherited_under(tree, current as int, places, k as int, accessible);
        assert(all_plain(reserved@, more));
        lemma_plain_reports(reserved@, more, *offset_to_position);
        lemma_all_report_concat(listing@, entries, reserved@, more, *offset_to_position);
        entries = entries + more;
    }
    listing.append(&mut reserved);
    if global {
        return listing;
    }
    let ghost before = listing@;
    insert_property_definitions(queried, &mut listing, offset_to_position);
    proof {
        assert forall|i: int| 0 <= i < listing@.len() implies reports(
            #[trigger] listing@[i],
            entries[i],
            *offset_to_position,
        ) && places_found(
            *offset_to_position,
            listed_definition(tree, element as int, entries[i].name),
            listing@[i].defined_at,
        ) by {
            assert(reports(before[i], entries[i], *offset_to_position));
            assert(same_but_definition(before[i], listing@[i]));
            assert(before[i].defined_at is None);
        }
    }
    listing
}

/// Converts the path of the file of each element on the way along the base
/// of `element` to a URI, the element's own first.
pub fn convert_paths(tree: &ObjectTree, element: usize) -> (uris: Vec<Option<String>>)
    requires
        tree.wf(),
        element < tree.elements@.len(),
    ensures
        uris_view(uris@) == chain_uris(tree, element as int),
{
    let mut uris: Vec<Option<String>> = Vec::new();
    let mut current = element;
    let mut walking = true;
    assert(uris_view(uris@) + chain_uris(tree, current as int) =~= chain_uris(
        tree,
        element as int,
    ));
    while walking
        invariant
            tree.wf(),
            current < tree.elements@.len(),
            walking ==> uris_view(uris@) + chain_uris(tree, current as int) == chain_uris(
                tree,
                element as int,
            ),
            !walking ==> uris_view(uris@) == chain_uris(tree, element as int),
        decreases current + if walking { 1int } else { 0int },
    {
        assert(tree.element_wf(current as int));
        let ghost before = uris@;
        let converted = convert_path(&tree.elements[current]);
        uris.push(converted);
        let ghost own = element_uri(tree.elements@[current as int]);
        assert(uris_view(uris@) =~= uris_view(before).push(own));
        match &tree.elements[current].base_type {
            ElementType::Component(c) => {
                let root = tree.components[*c].root_element;
                assert(uris_view(uris@) + chain_uris(tree, root as int) =~= uris_view(before) + (
                seq![own] + chain_uris(tree, root as int)));
                current = root;
            },
            _ => {
                assert(uris_view(uris@) =~= uris_view(before) + seq![own]);
                walking = false;
            },
        }
    }
    uris
}

/// Lists every property visible on the element at `element`.
///
/// The path of the file of each element on the way along the base is
/// converted to a URI, and the properties are listed with their declarations
/// reported under these.
pub fn get_properties<F: Fn(u32) -> Position>(
    tree: &ObjectTree,
    element: usize,
    offset_to_position: &F,
) -> (listing: Vec<PropertyInformation>)
    requires
        tree.wf(),
        element < tree.elements@.len(),
        tree.elements@[element as int].node is Some,
        forall|offset: u32| offset_to_position.requires((offset,)),
    ensures
        reports_properties(
            listing@,
            property_entries(tree, element as int),
            tree,
            element as int,
            *offset_to_position,
        ),
{
    let uris = convert_paths(tree, element);
    proof {
        lemma_reported_under_chain(tree, element as int);
    }
    get_properties_under(tree, element, &uris, offset_to_position)
}

/// What a listing says of a property, with its texts as sequences of
/// characters: name, type and group, the URI and the start of its
/// declaration, and the place of its definition.
pub open spec fn information_view(info: PropertyInformation) -> (
    Seq<char>,
    Seq<char>,
    Seq<char>,
    Option<(Seq<char>, Position)>,
    Option<DefinitionInformation>,
) {
    (
        info.name@,
        info.type_text@,
        info.group@,
        match info.declared_at {
            Some(declaration) => Some((declaration.uri@, declaration.start_position)),
            None => None,
        },
        info.defined_at,
    )
}

/// Whether `to_position` gives one position for each offset.
pub open spec fn is_function<F: Fn(u32) -> Position>(to_position: F) -> bool {
    forall|offset: u32, a: Position, b: Position|
        to_position.ensures((offset,), a) && to_position.ensures((offset,), b) ==> a == b
}

/// A query is a function of the tree: two listings of the same entries for
/// the same element, placed by the same function from offsets to positions,
/// say the same of every property.
pub proof fn lemma_reports_determine<F: Fn(u32) -> Position>(
    first: Seq<PropertyInformation>,
    second: Seq<PropertyInformation>,
    entries: Seq<PropertyEntry>,
    tree: &ObjectTree,
    e: int,
    to_position: F,
)
    requires
        is_function(to_position),
        reports_properties(first, entries, tree, e, to_position),
        reports_properties(second, entries, tree, e, to_position),
    ensures
        first.len() == second.len(),
        forall|i: int|
            0 <= i < first.len() ==> information_view(#[trigger] first[i]) == information_view(
                second[i],
            ),
{
    assert forall|i: int| 0 <= i < first.len() implies information_view(#[trigger] first[i])
        == information_view(second[i]) by {
        assert(reports(first[i], entries[i], to_position));
        assert(reports(second[i], entries[i], to_position));
        assert(places_found(
            to_position,
            listed_definition(tree, e, entries[i].name),
            first[i].defined_at,
        ));
        assert(places_found(
            to_position,
            listed_definition(tree, e, entries[i].name),
            second[i].defined_at,
        ));
    }
}

/// The name of what element `e` is an instance of: the id of a component,
/// the name of a built-in element or of a native class, nothing for the root
/// of a global, and `<error>` for a base that could not be resolved.
pub open spec fn base_type_text(tree: &ObjectTree, e: int) -> Seq<char> {
    match tree.elements@[e].base_type {
        ElementType::Component(c) => tree.components@[c as int].id@,
        ElementType::Builtin(builtin) => builtin.name@,
        ElementType::Global => Seq::empty(),
        ElementType::Native(class) => class@,
        ElementType::Invalid => "<error>"@,
    }
}

/// Says which element a query was answered for: its id and what it is an
/// instance of.
pub fn get_element_information(tree: &ObjectTree, element: usize) -> (information: Option<
    ElementInformation,
>)
    requires
        tree.wf(),
        element < tree.elements@.len(),
    ensures
        information is Some,
        information.unwrap().id@ == tree.elements@[element as int].id@,
        information.unwrap().type_text@ == base_type_text(tree, element as int),
{
    assert(tree.element_wf(element as int));
    let e = &tree.elements[element];
    let type_text = match &e.base_type {
        ElementType::Component(c) => tree.components[*c].id.clone(),
        ElementType::Builtin(builtin) => builtin.name.clone(),
        ElementType::Global => String::new(),
        ElementType::Native(class) => class.clone(),
        ElementType::Invalid => "<error>".to_owned(),
    };
    Some(ElementInformation { id: e.id.clone(), type_text })
}

/// Answers a query for the properties of the element at `element`: the
/// listing of its properties, the element itself, and the file it was written
/// in.
pub fn query_properties<F: Fn(u32) -> Position>(
    tree: &ObjectTree,
    element: usize,
    offset_to_position: &F,
) -> (response: QueryPropertyResponse)
    requires
        tree.wf(),
        element < tree.elements@.len(),
        tree.elements@[element as int].node is Some,
        forall|offset: u32| offset_to_position.requires((offset,)),
    ensures
        reports_properties(
            response.properties@,
            property_entries(tree, element as int),
            tree,
            element as int,
            *offset_to_position,
        ),
        response.element is Some,
        response.element.unwrap().id@ == tree.elements@[element as int].id@,
        response.element.unwrap().type_text@ == base_type_text(tree, element as int),
        path_view(response.source_uri) == path_view(tree.elements@[element as int].source_file),
{
    let uris = convert_paths(tree, element);
    proof {
        lemma_reported_under_chain(tree, element as int);
    }
    query_properties_under(tree, element, &uris, offset_to_position)
}

/// Answers a query for the properties of the element at `element`, with the
/// declarations of the element `k` steps along the way of its base reported
/// under the `k`-th of `uris`.
pub fn query_properties_under<F: Fn(u32) -> Position>(
    tree: &ObjectTree,
    element: usize,
    uris: &Vec<Option<String>>,
    offset_to_position: &F,
) -> (response: QueryPropertyResponse)
    requires
        tree.wf(),
        element < tree.elements@.len(),
        tree.elements@[element as int].node is Some,
        forall|offset: u32| offset_to_position.requires((offset,)),
    ensures
        reports_properties(
            response.properties@,
            reported_entries(tree, element as int, uris_view(uris@)),
            tree,
            element as int,
            *offset_to_position,
        ),
        response.element is Some,
        response.element.unwrap().id@ == tree.elements@[element as int].id@,
        response.element.unwrap().type_text@ == base_type_text(tree, element as int),
        path_view(response.source_uri) == path_view(tree.elements@[element as int].source_file),
{
    QueryPropertyResponse {
        properties: get_properties_under(tree, element, uris, offset_to_position),
        element: get_element_information(tree, element),
        source_uri: source_file(&tree.elements[element]),
    }
}

} // verus!
