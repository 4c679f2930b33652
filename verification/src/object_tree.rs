//! The object tree: components, the elements they expand to, and the named
//! references between them.
//!
//! Elements and components live in two arenas and refer to each other by index.
//! A component owns the subtree under its root element; every other link (an
//! element's enclosing component, the target of a named reference, the list of
//! globals a component uses) is an index that owns nothing, so the links may
//! form cycles while ownership never does.

use vstd::prelude::*;
use crate::name_map::NameMap;

verus! {

/// A symbolic link to the property `name` of the element at index `element`.
pub struct NamedReference {
    pub element: usize,
    pub name: String,
}

/// Where a binding was written.
pub struct SourceSpan {
    /// The path of the file, where it is known.
    pub source_file: Option<String>,
    /// The byte offset of the assignment in that file.
    pub offset: u32,
}

/// What is bound to a property of an element.
pub struct Binding {
    /// Where the binding was written, if it was written at all.
    pub span: Option<SourceSpan>,
    /// Whether anything is bound: an expression, or another property in a
    /// two-way binding.
    pub has_binding: bool,
    /// How deep the binding was declared: 1 where it stands in the source
    /// text of the element, more for each level of inlining, and 0 where the
    /// compiler supplied it.
    pub priority: i32,
}

impl Binding {
    /// Whether the binding stands in the source text, as opposed to one that
    /// the compiler supplied.
    pub open spec fn spec_is_explicit(&self) -> bool {
        self.has_binding && self.priority > 0
    }

    /// Whether the binding stands in the source text.
    #[verifier::when_used_as_spec(spec_is_explicit)]
    pub fn is_explicit(&self) -> (explicit: bool)
        ensures
            explicit == self.spec_is_explicit(),
    {
        self.has_binding && self.priority > 0
    }
}

/// The declaration of a property on an element.
pub struct PropertyDeclaration {
    /// The declared type, in its canonical textual form.
    pub type_text: String,
    /// Whether the type is that of a value; callbacks and functions are not.
    pub is_property_type: bool,
    /// The byte offset at which the type is written in the declaration. A
    /// declaration that the compiler made up has none.
    pub type_node_offset: Option<u32>,
}

/// An intrinsic property of a built-in element.
pub struct BuiltinProperty {
    pub type_text: String,
    pub is_property_type: bool,
}

/// A built-in primitive such as `Rectangle`, `Image` or `Text`.
pub struct BuiltinElement {
    pub name: String,
    pub properties: NameMap<BuiltinProperty>,
}

/// What an element is an instance of.
pub enum ElementType {
    /// The component at this index.
    Component(usize),
    /// A built-in primitive.
    Builtin(BuiltinElement),
    /// Nothing: the element is the root of a global singleton.
    Global,
    /// The native class of this name, which the compiler has resolved a
    /// built-in primitive to. Such an element is unresolved for the purpose
    /// of listing its properties.
    Native(String),
    /// The base could not be resolved.
    Invalid,
}

/// A node of the UI tree.
pub struct Element {
    /// The identifier given in the source; empty for an anonymous element.
    pub id: String,
    pub base_type: ElementType,
    pub property_declarations: NameMap<PropertyDeclaration>,
    pub bindings: NameMap<Binding>,
    /// The named references that the element's bindings hold.
    pub named_references: Vec<NamedReference>,
    /// The child elements, by index.
    pub children: Vec<usize>,
    /// Whether the element is generated by a `for` or an `if`.
    pub repeated: bool,
    /// The component that contains this element.
    pub enclosing_component: usize,
    /// The path of the file the element was written in.
    pub source_file: Option<String>,
    /// The element's node in the concrete syntax tree.
    pub node: Option<i_slint_compiler::parser::SyntaxNode>,
}

/// A layout constraint; it may refer to properties of any element.
pub struct Layout {
    pub named_references: Vec<NamedReference>,
}

/// A named, reusable definition.
pub struct Component {
    pub id: String,
    pub root_element: usize,
    pub layouts: Vec<Layout>,
    /// The global singletons that this component depends on. Filled for root
    /// components by the pass that collects them, empty otherwise.
    pub used_global: Vec<usize>,
}

/// The arenas that hold a compiled document.
pub struct ObjectTree {
    pub elements: Vec<Element>,
    pub components: Vec<Component>,
}

/// Whether every index in `indices` is less than `bound`.
pub open spec fn all_below(indices: Seq<usize>, bound: int) -> bool {
    forall|i: int| 0 <= i < indices.len() ==> indices[i] < bound
}

/// Whether every reference in `references` names one of the first `count`
/// elements.
pub open spec fn references_resolve(references: Seq<NamedReference>, count: int) -> bool {
    forall|i: int| 0 <= i < references.len() ==> (#[trigger] references[i]).element < count
}

/// Whether the references of every layout in `layouts` resolve.
pub open spec fn layouts_resolve(layouts: Seq<Layout>, count: int) -> bool {
    forall|i: int|
        0 <= i < layouts.len() ==> references_resolve(
            (#[trigger] layouts[i]).named_references@,
            count,
        )
}

impl ObjectTree {
    /// Whether the base of element `e` is well formed: a component base
    /// exists and its root element was stored before `e`.
    pub open spec fn base_wf(&self, e: int) -> bool {
        match self.elements@[e].base_type {
            ElementType::Component(c) => c < self.components@.len()
                && self.components@[c as int].root_element < e,
            ElementType::Builtin(builtin) => builtin.properties.wf(),
            ElementType::Global => true,
            ElementType::Native(_) => true,
            ElementType::Invalid => true,
        }
    }

    /// Whether element `e` is well formed.
    ///
    /// Its children and the root of its base component were stored before it,
    /// which rules out a cycle of ownership or of inheritance. Its enclosing
    /// component and the targets of its named references exist.
    pub open spec fn element_wf(&self, e: int) -> bool {
        let element = self.elements@[e];
        &&& element.property_declarations.wf()
        &&& element.bindings.wf()
        &&& element.enclosing_component < self.components@.len()
        &&& all_below(element.children@, e)
        &&& references_resolve(element.named_references@, self.elements@.len() as int)
        &&& self.base_wf(e)
    }

    /// Whether component `c` is well formed: its root element, the targets of
    /// the references in its layouts and the globals it lists all exist.
    pub open spec fn component_wf(&self, c: int) -> bool {
        let component = self.components@[c];
        &&& component.root_element < self.elements@.len()
        &&& layouts_resolve(component.layouts@, self.elements@.len() as int)
        &&& all_below(component.used_global@, self.components@.len() as int)
    }

    /// The invariant of the object tree.
    pub open spec fn wf(&self) -> bool {
        &&& forall|e: int| 0 <= e < self.elements@.len() ==> #[trigger] self.element_wf(e)
        &&& forall|c: int| 0 <= c < self.components@.len() ==> #[trigger] self.component_wf(c)
    }

    /// Whether component `c` is a global singleton: its root element has the
    /// base type `Global`.
    pub open spec fn spec_is_global(&self, c: int) -> bool {
        self.elements@[self.components@[c].root_element as int].base_type is Global
    }

    /// An object tree without elements or components.
    pub fn new() -> (tree: Self)
        ensures
            tree.elements@.len() == 0,
            tree.components@.len() == 0,
            tree.wf(),
    {
        ObjectTree { elements: Vec::new(), components: Vec::new() }
    }

    /// Stores an element and returns its index.
    pub fn add_element(&mut self, element: Element) -> (index: usize)
        ensures
            index == old(self).elements@.len(),
            final(self).elements@ == old(self).elements@.push(element),
            final(self).components == old(self).components,
    {
        let index = self.elements.len();
        self.elements.push(element);
        index
    }

    /// Stores a component and returns its index.
    pub fn add_component(&mut self, component: Component) -> (index: usize)
        ensures
            index == old(self).components@.len(),
            final(self).components@ == old(self).components@.push(component),
            final(self).elements == old(self).elements,
    {
        let index = self.components.len();
        self.components.push(component);
        index
    }

    /// Whether the component at `component` is a global singleton.
    pub fn is_global(&self, component: usize) -> (global: bool)
        requires
            component < self.components@.len(),
            self.components@[component as int].root_element < self.elements@.len(),
        ensures
            global == self.spec_is_global(component as int),
    {
        let root = self.components[component].root_element;
        match &self.elements[root].base_type {
            ElementType::Global => true,
            _ => false,
        }
    }

    fn element_is_well_formed(&self, e: usize) -> (ok: bool)
        requires
            e < self.elements@.len(),
        ensures
            ok == self.element_wf(e as int),
    {
        let element = &self.elements[e];
        let base_ok = match &element.base_type {
            ElementType::Component(c) => *c < self.components.len()
                && self.components[*c].root_element < e,
            ElementType::Builtin(builtin) => builtin.properties.is_sorted(),
            ElementType::Global => true,
            ElementType::Native(_) => true,
            ElementType::Invalid => true,
        };
        base_ok && element.property_declarations.is_sorted() && element.bindings.is_sorted()
            && element.enclosing_component < self.components.len() && indices_below(
            &element.children,
            e,
        ) && references_in_range(&element.named_references, self.elements.len())
    }

    fn component_is_well_formed(&self, c: usize) -> (ok: bool)
        requires
            c < self.components@.len(),
        ensures
            ok == self.component_wf(c as int),
    {
        let component = &self.components[c];
        if component.root_element >= self.elements.len() {
            return false;
        }
        if !indices_below(&component.used_global, self.components.len()) {
            return false;
        }
        let mut i: usize = 0;
        while i < component.layouts.len()
            invariant
                *component == self.components@[c as int],
                i <= component.layouts@.len(),
                forall|j: int|
                    0 <= j < i ==> references_resolve(
                        (#[trigger] component.layouts@[j]).named_references@,
                        self.elements@.len() as int,
                    ),
            decreases component.layouts@.len() - i,
        {
            if !references_in_range(&component.layouts[i].named_references, self.elements.len()) {
                assert(!references_resolve(
                    component.layouts@[i as int].named_references@,
                    self.elements@.len() as int,
                ));
                return false;
            }
            i += 1;
        }
        true
    }

    /// Whether the invariant holds of the tree as it stands.
    pub fn is_well_formed(&self) -> (ok: bool)
        ensures
            ok == self.wf(),
    {
        let mut e: usize = 0;
        while e < self.elements.len()
            invariant
                e <= self.elements@.len(),
                forall|k: int| 0 <= k < e ==> #[trigger] self.element_wf(k),
            decreases self.elements@.len() - e,
        {
            if !self.element_is_well_formed(e) {
                return false;
            }
            e += 1;
        }
        let mut c: usize = 0;
        while c < self.components.len()
            invariant
                c <= self.components@.len(),
                forall|k: int| 0 <= k < self.elements@.len() ==> #[trigger] self.element_wf(k),
                forall|k: int| 0 <= k < c ==> #[trigger] self.component_wf(k),
            decreases self.components@.len() - c,
        {
            if !self.component_is_well_formed(c) {
                return false;
            }
            c += 1;
        }
        true
    }
}

fn indices_below(indices: &Vec<usize>, bound: usize) -> (ok: bool)
    ensures
        ok == all_below(indices@, bound as int),
{
    let mut i: usize = 0;
    while i < indices.len()
        invariant
            i <= indices@.len(),
            forall|j: int| 0 <= j < i ==> indices@[j] < bound,
        decreases indices@.len() - i,
    {
        if indices[i] >= bound {
            return false;
        }
        i += 1;
    }
    true
}

fn references_in_range(references: &Vec<NamedReference>, count: usize) -> (ok: bool)
    ensures
        ok == references_resolve(references@, count as int),
{
    let mut i: usize = 0;
    while i < references.len()
        invariant
            i <= references@.len(),
            forall|j: int| 0 <= j < i ==> (#[trigger] references@[j]).element < count,
        decreases references@.len() - i,
    {
        if references[i].element >= count {
            return false;
        }
        i += 1;
    }
    true
}

} // verus!
