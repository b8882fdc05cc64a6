//! The YAML document tree as `marked_yaml` parses it, and the trusted items
//! through which the library reads it.
//!
//! `marked_yaml`'s nodes are opaque to Verus. Their contents are named here
//! (`yaml_node`, `yaml_mapping`, `yaml_scalar`) as a tree of plain values,
//! [`YamlTree`], and each accessor the library calls states its result over
//! those names.
use vstd::prelude::*;

use marked_yaml::types::{MarkedMappingNode, MarkedScalarNode};
use marked_yaml::Node;

verus! {

/// A scalar: its text and the 1-based (line, column) markers of its start
/// and end, as the parser recorded them.
pub struct YamlScalar {
    pub text: Seq<char>,
    pub start: Option<(nat, nat)>,
    pub end: Option<(nat, nat)>,
}

/// A YAML node: a scalar, a mapping (entries in iteration order), or a
/// sequence (whose contents the library never reads).
pub enum YamlTree {
    Scalar(YamlScalar),
    Mapping(Seq<(YamlScalar, YamlTree)>),
    Sequence,
}

#[verifier::external_type_specification]
#[verifier::external_body]
pub struct ExYamlNode(marked_yaml::Node);

#[verifier::external_type_specification]
#[verifier::external_body]
pub struct ExYamlMapping(marked_yaml::types::MarkedMappingNode);

#[verifier::external_type_specification]
#[verifier::external_body]
pub struct ExYamlScalar(marked_yaml::types::MarkedScalarNode);

/// What a `marked_yaml::Node` holds.
pub uninterp spec fn yaml_node(n: Node) -> YamlTree;

/// The entries of a `marked_yaml` mapping node, in iteration order.
pub uninterp spec fn yaml_mapping(m: MarkedMappingNode) -> Seq<(YamlScalar, YamlTree)>;

/// What a `marked_yaml` scalar node holds.
pub uninterp spec fn yaml_scalar(s: MarkedScalarNode) -> YamlScalar;

/// The tree `marked_yaml::parse_yaml` builds from a text, or `None` when it
/// fails (invalid YAML, or a top level that is not a mapping).
pub uninterp spec fn yaml_parse(text: Seq<char>) -> Option<YamlTree>;

/// The value under the first key whose text is `key`.
pub open spec fn lookup(entries: Seq<(YamlScalar, YamlTree)>, key: Seq<char>) -> Option<YamlTree>
    decreases entries.len(),
{
    if entries.len() == 0 {
        None
    } else if entries[0].0.text == key {
        Some(entries[0].1)
    } else {
        lookup(entries.drop_first(), key)
    }
}

/// `marked_yaml::parse_yaml(0, text)`, discarding the error. Its result is
/// the named `yaml_parse` of the text.
#[verifier::external_body]
pub(crate) fn parse_yaml(text: &str) -> (r: Option<Node>)
    ensures
        match r {
            Some(n) => yaml_parse(text@) == Some(yaml_node(n)),
            None => yaml_parse(text@) is None,
        },
{
    marked_yaml::parse_yaml(0, text).ok()
}

/// `Node::as_mapping`: the mapping when the node is one.
#[verifier::external_body]
pub(crate) fn node_as_mapping(n: &Node) -> (r: Option<&MarkedMappingNode>)
    ensures
        match r {
            Some(m) => yaml_node(*n) == YamlTree::Mapping(yaml_mapping(*m)),
            None => !(yaml_node(*n) is Mapping),
        },
{
    n.as_mapping()
}

/// `Node::as_scalar`: the scalar when the node is one.
#[verifier::external_body]
pub(crate) fn node_as_scalar(n: &Node) -> (r: Option<&MarkedScalarNode>)
    ensures
        match r {
            Some(s) => yaml_node(*n) == YamlTree::Scalar(yaml_scalar(*s)),
            None => !(yaml_node(*n) is Scalar),
        },
{
    n.as_scalar()
}

/// The entries of a mapping (`iter()` on the underlying `LinkedHashMap`),
/// in iteration order. Keys compare and hash by their text only, so their
/// texts are unique.
#[verifier::external_body]
pub(crate) fn mapping_entries(m: &MarkedMappingNode) -> (r: Vec<(&MarkedScalarNode, &Node)>)
    ensures
        r@.len() == yaml_mapping(*m).len(),
        forall|i: int|
            0 <= i < r@.len() ==> yaml_scalar(*(#[trigger] r@[i]).0) == yaml_mapping(*m)[i].0
                && yaml_node(*r@[i].1) == yaml_mapping(*m)[i].1,
        forall|i: int, j: int|
            0 <= i < j < r@.len() ==> yaml_scalar(*(#[trigger] r@[i]).0).text != yaml_scalar(
                *(#[trigger] r@[j]).0,
            ).text,
{
    m.iter().collect()
}

/// `MarkedMappingNode::get_node`: the value under the key with this text.
#[verifier::external_body]
pub(crate) fn mapping_get<'a>(m: &'a MarkedMappingNode, key: &str) -> (r: Option<&'a Node>)
    ensures
        match r {
            Some(n) => lookup(yaml_mapping(*m), key@) == Some(yaml_node(*n)),
            None => lookup(yaml_mapping(*m), key@) is None,
        },
{
    m.get_node(key)
}

/// `MarkedScalarNode::as_str`.
#[verifier::external_body]
pub(crate) fn scalar_text(s: &MarkedScalarNode) -> (r: &str)
    ensures
        r@ == yaml_scalar(*s).text,
{
    s.as_str()
}

/// The (line, column) of the start marker of a scalar's span.
#[verifier::external_body]
pub(crate) fn scalar_start(s: &MarkedScalarNode) -> (r: Option<(usize, usize)>)
    ensures
        match r {
            Some((l, c)) => yaml_scalar(*s).start == Some((l as nat, c as nat)),
            None => yaml_scalar(*s).start is None,
        },
{
    s.span().start().map(|m| (m.line(), m.column()))
}

/// The (line, column) of the end marker of a scalar's span.
#[verifier::external_body]
pub(crate) fn scalar_end(s: &MarkedScalarNode) -> (r: Option<(usize, usize)>)
    ensures
        match r {
            Some((l, c)) => yaml_scalar(*s).end == Some((l as nat, c as nat)),
            None => yaml_scalar(*s).end is None,
        },
{
    s.span().end().map(|m| (m.line(), m.column()))
}

} // verus!
