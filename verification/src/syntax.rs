//! The parts of tree-sitter the library uses: its types, and one thin call
//! per operation. Nothing here states anything about the parse a grammar
//! produces; the converter and the diff are verified for every outcome.

use tree_sitter::{Node as SyntaxNode, Tree as SyntaxTree};
use vstd::prelude::*;

verus! {

#[verifier::external_type_specification]
#[verifier::external_body]
pub struct ExLanguage(tree_sitter::Language);

#[verifier::external_type_specification]
#[verifier::external_body]
pub struct ExParser(tree_sitter::Parser);

#[verifier::external_type_specification]
#[verifier::external_body]
pub struct ExSyntaxTree(SyntaxTree);

#[verifier::external_type_specification]
#[verifier::external_body]
pub struct ExSyntaxNode<'tree>(SyntaxNode<'tree>);

#[verifier::external_type_specification]
#[verifier::external_body]
pub struct ExLanguageError(tree_sitter::LanguageError);

/// A fresh parser (`Parser::new`).
#[verifier::external_body]
pub(crate) fn new_parser() -> tree_sitter::Parser {
    tree_sitter::Parser::new()
}

/// Assigns the grammar to parse with (`Parser::set_language`); fails when
/// the grammar was generated for an incompatible tree-sitter version.
#[verifier::external_body]
pub(crate) fn set_parser_language(
    parser: &mut tree_sitter::Parser,
    language: &tree_sitter::Language,
) -> Result<(), tree_sitter::LanguageError> {
    parser.set_language(language)
}

/// The message of a language error (its `Display` text), which begins by
/// naming the incompatible version; what follows depends on the error's
/// private version number, so the rest of the text is left unsaid.
#[verifier::external_body]
pub(crate) fn language_error_text(error: &tree_sitter::LanguageError) -> (s: String)
    ensures
        "Incompatible language version "@.is_prefix_of(s@),
{
    error.to_string()
}

/// Limits how long parsing may take, in microseconds, `0` meaning no limit
/// (`Parser::set_timeout_micros`).
#[verifier::external_body]
#[allow(deprecated)]
pub(crate) fn set_parse_timeout(parser: &mut tree_sitter::Parser, timeout_us: u64) {
    parser.set_timeout_micros(timeout_us)
}

/// Parses `source` (`Parser::parse`); `None` when parsing was halted, for
/// instance by the timeout.
#[verifier::external_body]
pub(crate) fn parse_source(parser: &mut tree_sitter::Parser, source: &[u8]) -> Option<SyntaxTree> {
    parser.parse(source, None)
}

/// The root of a syntax tree (`Tree::root_node`).
#[verifier::external_body]
pub(crate) fn root_node<'tree>(tree: &'tree SyntaxTree) -> SyntaxNode<'tree> {
    tree.root_node()
}

/// The grammar's name for a node's type (`Node::kind`).
#[verifier::external_body]
pub(crate) fn node_kind(node: &SyntaxNode) -> &'static str {
    node.kind()
}

/// Whether the node is named in the grammar (`Node::is_named`).
#[verifier::external_body]
pub(crate) fn node_is_named(node: &SyntaxNode) -> bool {
    node.is_named()
}

/// The number of children, named or not (`Node::child_count`).
#[verifier::external_body]
pub(crate) fn node_child_count(node: &SyntaxNode) -> usize {
    node.child_count()
}

/// The child at index `index` (`Node::child`).
#[verifier::external_body]
pub(crate) fn node_child<'tree>(node: &SyntaxNode<'tree>, index: usize) -> Option<SyntaxNode<'tree>> {
    node.child(index)
}

/// The byte where the node starts (`Node::start_byte`).
#[verifier::external_body]
pub(crate) fn node_start_byte(node: &SyntaxNode) -> usize {
    node.start_byte()
}

/// The byte just past the node's end (`Node::end_byte`).
#[verifier::external_body]
pub(crate) fn node_end_byte(node: &SyntaxNode) -> usize {
    node.end_byte()
}

/// How many nodes the subtree rooted at the node holds, itself included
/// (`Node::descendant_count`).
#[verifier::external_body]
pub(crate) fn node_descendant_count(node: &SyntaxNode) -> usize {
    node.descendant_count()
}

/// The bytes as text, when they are valid UTF-8 (`std::str::from_utf8`).
#[verifier::external_body]
pub(crate) fn utf8_str(bytes: &[u8]) -> (r: Option<&str>)
    ensures
        r is Some <==> vstd::utf8::valid_utf8(bytes@),
        r matches Some(text) ==> vstd::utf8::encode_utf8(text@) == bytes@,
{
    std::str::from_utf8(bytes).ok()
}

} // verus!
