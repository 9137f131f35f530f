//! Inline attributes (`[key::value]`): the same syntax as inline properties.

use vstd::prelude::*;
use crate::parser::inline_property::{
    collect_inline_properties, format_inline_property, groups_by_key, parse_inline_properties,
    props_view, spec_inline_properties,
};
use crate::str_map::StrMap;
use crate::types::InlineAttr;

verus! {

/// Parse all inline attributes of a note, skipping those in code.
pub fn parse_inline_attrs(content: &str) -> (r: Vec<InlineAttr>)
    ensures
        props_view(r@) == spec_inline_properties(content@),
{
    parse_inline_properties(content)
}

/// Group inline attributes by key.
pub fn collect_inline_attrs<'a>(attrs: &'a [InlineAttr]) -> (r: StrMap<Vec<&'a InlineAttr>>)
    ensures
        r.wf(),
        groups_by_key(r.view(), attrs@),
{
    collect_inline_properties(attrs)
}

/// Format an inline attribute as `[key::value]`.
pub fn format_inline_attr(key: &str, value: &str) -> (r: String)
    ensures
        r@ == seq!['['] + key@ + seq![':', ':'] + value@ + seq![']'],
{
    format_inline_property(key, value)
}

} // verus!
