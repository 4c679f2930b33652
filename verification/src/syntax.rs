//! What the property listing reads from the concrete syntax tree.
//!
//! The syntax tree itself belongs to the compiler and is opaque here. Two
//! trusted functions read from it: the byte range of an element, and the
//! chains of nodes above the tokens at an offset. Everything that is decided
//! from those chains is verified.

use i_slint_compiler::parser::SyntaxKind;
use vstd::prelude::*;

verus! {

/// A half-open range of byte offsets into a source file.
#[derive(Clone, Copy, Debug, PartialEq, Eq, Structural)]
pub struct TextRange {
    pub start: u32,
    pub end: u32,
}

impl TextRange {
    /// The range that the search starts from: empty, at offset 0.
    pub open spec fn spec_empty() -> TextRange {
        TextRange { start: 0, end: 0 }
    }

    #[verifier::when_used_as_spec(spec_empty)]
    pub fn empty() -> (range: TextRange)
        ensures
            range == Self::spec_empty(),
    {
        TextRange { start: 0, end: 0 }
    }

    pub open spec fn spec_contains(&self, offset: u32) -> bool {
        self.start <= offset < self.end
    }

    /// Whether `offset` lies in the range; the end is not part of it.
    #[verifier::when_used_as_spec(spec_contains)]
    pub fn contains(&self, offset: u32) -> (inside: bool)
        ensures
            inside == self.spec_contains(offset),
    {
        self.start <= offset && offset < self.end
    }
}

/// The kinds of syntax node that the search for a binding tells apart.
#[derive(Clone, Copy, Debug, PartialEq, Eq, Structural)]
pub enum AncestorKind {
    /// The right-hand side of a binding, with the white space and the `;`
    /// around the expression.
    BindingExpression,
    /// A whole binding: the property's name, the colon and the right-hand side.
    Binding,
    /// An element.
    Element,
    /// Any other node.
    Other,
}

/// One node on the way from a token up to the root of the syntax tree.
#[derive(Clone, Copy, Debug, PartialEq, Eq, Structural)]
pub struct SyntaxAncestor {
    pub kind: AncestorKind,
    pub range: TextRange,
    /// The range of the node's first child node, if it has one.
    pub first_child: Option<TextRange>,
}

/// The compiler's syntax node, which holds a node of a rowan tree and the
/// file it was read from. Nothing inside it is visible here.
#[verifier::external_type_specification]
#[verifier::external_body]
pub struct ExSyntaxNode(i_slint_compiler::parser::SyntaxNode);

/// The byte range that an element's syntax node covers.
pub uninterp spec fn element_node_range(
    node: i_slint_compiler::parser::SyntaxNode,
) -> TextRange;

/// What a syntax node holds for the search: for each offset in it, the
/// tokens at that offset, left to right, each as the chain of nodes above it,
/// from the token's parent up to the root of the tree. There are two tokens
/// where two meet at the offset, one inside a token, and none in an empty
/// tree.
pub uninterp spec fn token_ancestry(node: i_slint_compiler::parser::SyntaxNode) -> Map<
    u32,
    Seq<Seq<SyntaxAncestor>>,
>;

/// Chains of ancestors as sequences.
pub open spec fn chains_view(chains: Seq<Vec<SyntaxAncestor>>) -> Seq<Seq<SyntaxAncestor>> {
    chains.map_values(|chain: Vec<SyntaxAncestor>| chain@)
}

/// The chain of the token that a search starts from: of the tokens at an
/// offset the right one. Without a token the chain is empty.
pub open spec fn right_biased(chains: Seq<Seq<SyntaxAncestor>>) -> Seq<SyntaxAncestor> {
    if chains.len() == 0 {
        Seq::empty()
    } else {
        chains.last()
    }
}

/// The nodes above the token at `offset` inside `node`, innermost first.
/// Where two tokens meet at `offset` the right one is taken.
pub open spec fn ancestors_at_offset(
    node: i_slint_compiler::parser::SyntaxNode,
    offset: u32,
) -> Seq<SyntaxAncestor> {
    right_biased(token_ancestry(node)[offset])
}

/// Picks the chain that a search starts from: the last of `chains`, or an
/// empty one where there is none.
pub fn right_biased_chain(chains: Vec<Vec<SyntaxAncestor>>) -> (chain: Vec<SyntaxAncestor>)
    ensures
        chain@ == right_biased(chains_view(chains@)),
{
    let mut chains = chains;
    let ghost all = chains@;
    match chains.pop() {
        Some(chain) => {
            assert(chains_view(all).last() == all.last()@);
            chain
        },
        None => Vec::new(),
    }
}

/// Calls rowan's `SyntaxNode::text_range` on the element's node. The contract
/// only gives the result its name.
#[verifier::external_body]
pub(crate) fn node_text_range(node: &i_slint_compiler::parser::SyntaxNode) -> (range:
    TextRange)
    ensures
        range == element_node_range(*node),
{
    let r = node.text_range();
    TextRange { start: r.start().into(), end: r.end().into() }
}

/// Calls rowan's `SyntaxNode::token_at_offset` and walks
/// `SyntaxToken::parent_ancestors` from each token that it gives, left to
/// right, reading of each node its kind, its `text_range` and that of its
/// `first_child`. rowan panics on an offset before the node's start or behind
/// its end, so the contract asks for an offset between the two. Of the result
/// it only says which chains they are.
#[verifier::external_body]
pub(crate) fn token_ancestors(
    node: &i_slint_compiler::parser::SyntaxNode,
    offset: u32,
) -> (chains: Vec<Vec<SyntaxAncestor>>)
    requires
        element_node_range(*node).start <= offset <= element_node_range(*node).end,
    ensures
        chains_view(chains@) == token_ancestry(*node)[offset],
{
    node.token_at_offset(offset.into()).map(|t| t.parent_ancestors().map(|a| SyntaxAncestor {
        kind: match a.kind() {
            SyntaxKind::BindingExpression => AncestorKind::BindingExpression,
            SyntaxKind::Binding => AncestorKind::Binding,
            SyntaxKind::Element => AncestorKind::Element,
            _ => AncestorKind::Other,
        },
        range: TextRange { start: a.text_range().start().into(), end: a.text_range().end().into() },
        first_child: a.first_child().map(|c| TextRange {
            start: c.text_range().start().into(),
            end: c.text_range().end().into(),
        }),
    }).collect()).collect()
}

/// The binding and the expression that a search through a chain of ancestors
/// has found, as byte ranges.
#[derive(Clone, Copy, Debug, PartialEq, Eq, Structural)]
pub struct DefinitionRanges {
    /// The range of the whole binding.
    pub binding: TextRange,
    /// The range of the expression on its right-hand side.
    pub expression: TextRange,
}

/// Where the search through `chain` stops: at the first binding or element,
/// or behind the last node. The search looks at the nodes from `from` on.
pub open spec fn stop_index(chain: Seq<SyntaxAncestor>, from: int) -> int
    decreases chain.len() - from,
{
    if from < 0 || from >= chain.len() {
        chain.len() as int
    } else if chain[from].kind == AncestorKind::Binding || chain[from].kind
        == AncestorKind::Element {
        from
    } else {
        stop_index(chain, from + 1)
    }
}

/// The range of the expression that the search holds after the first `n`
/// nodes: the first child of the last binding expression among them, or the
/// empty range where there is none.
pub open spec fn expression_before(chain: Seq<SyntaxAncestor>, n: int) -> TextRange
    decreases n,
{
    if n <= 0 || n > chain.len() {
        TextRange::spec_empty()
    } else if chain[n - 1].kind == AncestorKind::BindingExpression {
        match chain[n - 1].first_child {
            Some(range) => range,
            None => TextRange::spec_empty(),
        }
    } else {
        expression_before(chain, n - 1)
    }
}

/// Whether every binding expression that the search passes has a child node.
/// A chain read from a syntax tree with a binding expression without one
/// cannot be searched.
pub open spec fn searchable(chain: Seq<SyntaxAncestor>) -> bool {
    forall|i: int|
        0 <= i < stop_index(chain, 0) && chain[i].kind == AncestorKind::BindingExpression
            ==> (#[trigger] chain[i]).first_child is Some
}

/// The range of the binding that the search ends at; empty where it ends at
/// an element or runs out of nodes.
pub open spec fn binding_range(chain: Seq<SyntaxAncestor>) -> TextRange {
    let stop = stop_index(chain, 0);
    if stop < chain.len() && chain[stop].kind == AncestorKind::Binding {
        chain[stop].range
    } else {
        TextRange::spec_empty()
    }
}

/// Whether `expression` lies strictly inside `binding`, with room on both
/// sides. This is what tells a written binding from a degenerate span.
pub open spec fn strictly_inside(binding: TextRange, expression: TextRange) -> bool {
    &&& binding.start < expression.start
    &&& expression.start <= expression.end
    &&& expression.end < binding.end
}

/// What the search through `chain` finds: the enclosing binding and the
/// expression in it, where the one lies strictly inside the other.
pub open spec fn definition_ranges(chain: Seq<SyntaxAncestor>) -> Option<DefinitionRanges> {
    let binding = binding_range(chain);
    let expression = expression_before(chain, stop_index(chain, 0));
    if strictly_inside(binding, expression) {
        Some(DefinitionRanges { binding, expression })
    } else {
        None
    }
}

proof fn lemma_stop_index_bounds(chain: Seq<SyntaxAncestor>, from: int)
    requires
        0 <= from <= chain.len(),
    ensures
        from <= stop_index(chain, from) <= chain.len(),
    decreases chain.len() - from,
{
    if from < chain.len() && !(chain[from].kind == AncestorKind::Binding || chain[from].kind
        == AncestorKind::Element) {
        lemma_stop_index_bounds(chain, from + 1);
    }
}

/// Whether a chain can be searched.
pub fn is_searchable(chain: &Vec<SyntaxAncestor>) -> (ok: bool)
    ensures
        ok == searchable(chain@),
{
    let mut i: usize = 0;
    while i < chain.len()
        invariant
            i <= chain@.len(),
            stop_index(chain@, 0) == stop_index(chain@, i as int),
            forall|j: int|
                0 <= j < i && chain@[j].kind == AncestorKind::BindingExpression ==> (
                #[trigger] chain@[j]).first_child is Some,
        decreases chain@.len() - i,
    {
        let ancestor = chain[i];
        match ancestor.kind {
            AncestorKind::BindingExpression => {
                if ancestor.first_child.is_none() {
                    proof {
                        lemma_stop_index_bounds(chain@, i as int + 1);
                    }
                    return false;
                }
            },
            AncestorKind::Binding => {
                return true;
            },
            AncestorKind::Element => {
                return true;
            },
            AncestorKind::Other => {},
        }
        i += 1;
    }
    true
}

/// Searches a chain of ancestors, innermost first, for the binding that
/// encloses the token and for the expression in it.
///
/// Each binding expression on the way gives the expression range, the last
/// one before the stop being kept. The first binding stops the search and
/// gives the binding range; an element stops it without one.
pub fn select_definition_ranges(chain: &Vec<SyntaxAncestor>) -> (found: Option<DefinitionRanges>)
    requires
        searchable(chain@),
    ensures
        found == definition_ranges(chain@),
{
    let mut binding = TextRange::empty();
    let mut expression = TextRange::empty();
    let mut i: usize = 0;
    while i < chain.len()
        invariant_except_break
            stop_index(chain@, 0) == stop_index(chain@, i as int),
            binding == TextRange::spec_empty(),
        invariant
            i <= chain@.len(),
            searchable(chain@),
            expression == expression_before(chain@, i as int),
        ensures
            binding == binding_range(chain@),
            expression == expression_before(chain@, stop_index(chain@, 0)),
        decreases chain@.len() - i,
    {
        let ancestor = chain[i];
        match ancestor.kind {
            AncestorKind::BindingExpression => {
                proof {
                    lemma_stop_index_bounds(chain@, i as int + 1);
                    assert(chain@[i as int].first_child is Some);
                }
                match ancestor.first_child {
                    Some(range) => {
                        expression = range;
                    },
                    None => {},
                }
            },
            AncestorKind::Binding => {
                binding = ancestor.range;
                break;
            },
            AncestorKind::Element => {
                break;
            },
            AncestorKind::Other => {},
        }
        i += 1;
    }
    if binding.start < expression.start && expression.start <= expression.end && expression.end
        < binding.end {
        Some(DefinitionRanges { binding, expression })
    } else {
        None
    }
}

} // verus!
