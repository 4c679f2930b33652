//! The reserved properties: those that every element of a kind has without
//! declaring them.
//!
//! The tables are constants of the compiler. They are read through trusted
//! functions, each of which states the table that it reads.

use vstd::prelude::*;

verus! {

/// A reserved property: its name and its type in canonical textual form.
#[derive(Clone, Debug, PartialEq, Eq)]
pub struct ReservedProperty {
    pub name: String,
    pub type_text: String,
}

impl View for ReservedProperty {
    type V = (Seq<char>, Seq<char>);

    open spec fn view(&self) -> (Seq<char>, Seq<char>) {
        (self.name@, self.type_text@)
    }
}

/// A table as the pairs of name and type that it holds.
pub open spec fn table_view(table: Seq<ReservedProperty>) -> Seq<(Seq<char>, Seq<char>)> {
    table.map_values(|p: ReservedProperty| p@)
}

/// The position and size of an element.
pub open spec fn geometry_properties() -> Seq<(Seq<char>, Seq<char>)> {
    seq![
        ("x"@, "length"@),
        ("y"@, "length"@),
        ("width"@, "length"@),
        ("height"@, "length"@),
        ("z"@, "float"@),
    ]
}

/// What an element tells the layout that holds it.
pub open spec fn layout_properties() -> Seq<(Seq<char>, Seq<char>)> {
    seq![
        ("min-width"@, "length"@),
        ("min-height"@, "length"@),
        ("max-width"@, "length"@),
        ("max-height"@, "length"@),
        ("padding"@, "length"@),
        ("padding-left"@, "length"@),
        ("padding-right"@, "length"@),
        ("padding-top"@, "length"@),
        ("padding-bottom"@, "length"@),
        ("preferred-width"@, "length"@),
        ("preferred-height"@, "length"@),
        ("horizontal-stretch"@, "float"@),
        ("vertical-stretch"@, "float"@),
        ("col"@, "int"@),
        ("row"@, "int"@),
        ("colspan"@, "int"@),
        ("rowspan"@, "int"@),
    ]
}

/// The drop shadow of a rectangle.
pub open spec fn drop_shadow_properties() -> Seq<(Seq<char>, Seq<char>)> {
    seq![
        ("drop-shadow-offset-x"@, "length"@),
        ("drop-shadow-offset-y"@, "length"@),
        ("drop-shadow-blur"@, "length"@),
        ("drop-shadow-color"@, "color"@),
    ]
}

/// The rotation of an image.
pub open spec fn rotation_properties() -> Seq<(Seq<char>, Seq<char>)> {
    seq![
        ("rotation-angle"@, "angle"@),
        ("rotation-origin-x"@, "length"@),
        ("rotation-origin-y"@, "length"@),
    ]
}

/// What an element tells assistive technology, besides its role.
pub open spec fn accessibility_properties() -> Seq<(Seq<char>, Seq<char>)> {
    seq![
        ("accessible-checkable"@, "bool"@),
        ("accessible-checked"@, "bool"@),
        ("accessible-delegate-focus"@, "int"@),
        ("accessible-description"@, "string"@),
        ("accessible-label"@, "string"@),
        ("accessible-value"@, "string"@),
        ("accessible-value-maximum"@, "float"@),
        ("accessible-value-minimum"@, "float"@),
        ("accessible-value-step"@, "float"@),
    ]
}

/// Reads `i_slint_compiler::typeregister::RESERVED_GEOMETRY_PROPERTIES`, each
/// type through its `Display`. The contract states the table's five entries.
#[verifier::external_body]
pub(crate) fn reserved_geometry_properties() -> (table: Vec<ReservedProperty>)
    ensures
        table_view(table@) == geometry_properties(),
{
    i_slint_compiler::typeregister::RESERVED_GEOMETRY_PROPERTIES.iter().map(
        |p| ReservedProperty { name: p.0.to_string(), type_text: p.1.to_string() },
    ).collect()
}

/// Reads `i_slint_compiler::typeregister::RESERVED_LAYOUT_PROPERTIES`, each
/// type through its `Display`. The contract states the table's seventeen
/// entries.
#[verifier::external_body]
pub(crate) fn reserved_layout_properties() -> (table: Vec<ReservedProperty>)
    ensures
        table_view(table@) == layout_properties(),
{
    i_slint_compiler::typeregister::RESERVED_LAYOUT_PROPERTIES.iter().map(
        |p| ReservedProperty { name: p.0.to_string(), type_text: p.1.to_string() },
    ).collect()
}

/// Reads `i_slint_compiler::typeregister::RESERVED_DROP_SHADOW_PROPERTIES`,
/// each type through its `Display`. The contract states the table's four
/// entries.
#[verifier::external_body]
pub(crate) fn reserved_drop_shadow_properties() -> (table: Vec<ReservedProperty>)
    ensures
        table_view(table@) == drop_shadow_properties(),
{
    i_slint_compiler::typeregister::RESERVED_DROP_SHADOW_PROPERTIES.iter().map(
        |p| ReservedProperty { name: p.0.to_string(), type_text: p.1.to_string() },
    ).collect()
}

/// Reads `i_slint_compiler::typeregister::RESERVED_ROTATION_PROPERTIES`, each
/// type through its `Display`. The contract states the table's three entries.
#[verifier::external_body]
pub(crate) fn reserved_rotation_properties() -> (table: Vec<ReservedProperty>)
    ensures
        table_view(table@) == rotation_properties(),
{
    i_slint_compiler::typeregister::RESERVED_ROTATION_PROPERTIES.iter().map(
        |p| ReservedProperty { name: p.0.to_string(), type_text: p.1.to_string() },
    ).collect()
}

/// Reads `i_slint_compiler::typeregister::RESERVED_ACCESSIBILITY_PROPERTIES`,
/// each type through its `Display`. The contract states the table's nine
/// entries.
#[verifier::external_body]
pub(crate) fn reserved_accessibility_properties() -> (table: Vec<ReservedProperty>)
    ensures
        table_view(table@) == accessibility_properties(),
{
    i_slint_compiler::typeregister::RESERVED_ACCESSIBILITY_PROPERTIES.iter().map(
        |p| ReservedProperty { name: p.0.to_string(), type_text: p.1.to_string() },
    ).collect()
}

/// Formats `i_slint_compiler::langtype::Type::Bool` through its `Display`,
/// which writes `bool`.
#[verifier::external_body]
pub(crate) fn bool_type_text() -> (text: String)
    ensures
        text@ == "bool"@,
{
    i_slint_compiler::langtype::Type::Bool.to_string()
}

/// Formats `i_slint_compiler::langtype::Type::Float32` through its `Display`,
/// which writes `float`.
#[verifier::external_body]
pub(crate) fn float_type_text() -> (text: String)
    ensures
        text@ == "float"@,
{
    i_slint_compiler::langtype::Type::Float32.to_string()
}

/// Formats the enumeration type of `BUILTIN_ENUMS`' `AccessibleRole` through
/// its `Display`, which writes `enum ` and the enumeration's name.
#[verifier::external_body]
pub(crate) fn accessible_role_type_text() -> (text: String)
    ensures
        text@ == "enum AccessibleRole"@,
{
    i_slint_compiler::langtype::Type::Enumeration(
        i_slint_compiler::typeregister::BUILTIN_ENUMS.with(|e| e.AccessibleRole.clone()),
    ).to_string()
}

} // verus!
