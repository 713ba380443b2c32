use vstd::prelude::*;

use super::semantic_token::{token_of, Token, RULE_LEGEND_TYPE};
use super::{
    analyze_process_list, lemma_merge_empty_right, outline_view, rule_outline, walk_rule,
    AnalysisResult, OutlineKind, OutlineSymbol,
};
use crate::span::Span;
use crate::syntax::Rule;

verus! {

/// Analyses a rule: see `walk_rule`.
pub(super) fn analyze_rule(rule: &Rule) -> (r: AnalysisResult)
    ensures
        r@ == walk_rule(*rule),
    decreases rule,
{
    proof {
        assert(decreases_to!(*rule => rule.head));
        assert(decreases_to!(*rule => rule.propagation));
        assert(decreases_to!(*rule => rule.body));
    }
    let named = !rule.name_span.is_empty();
    let mut result = AnalysisResult::new();
    if named {
        result.tokens.push(Token::covering(rule.name_span, RULE_LEGEND_TYPE));
        assert(result@.tokens =~= seq![token_of(rule.name_span, RULE_LEGEND_TYPE)]);
    }
    let mut inner = analyze_process_list(&rule.head, false);
    match &rule.propagation {
        Some(p) => {
            proof {
                assert(decreases_to!(rule.propagation => rule.propagation->Some_0));
            }
            inner.extend(analyze_process_list(p, false));
        },
        None => {
            proof {
                lemma_merge_empty_right(inner@);
            }
        },
    }
    inner.filter_links_inner();
    match &rule.body {
        Some(b) => {
            proof {
                assert(decreases_to!(rule.body => rule.body->Some_0));
            }
            inner.extend(analyze_process_list(b, false));
        },
        None => {
            proof {
                lemma_merge_empty_right(inner@);
            }
        },
    }
    inner.filter_links_top();
    result.extend(inner);
    let (range, selection_range) = if named {
        (Span::new(rule.name_span.low(), rule.span.high()), rule.name_span)
    } else {
        (rule.span, rule.span)
    };
    let entry = OutlineSymbol {
        name: rule.name.clone(),
        kind: OutlineKind::Rule,
        range,
        selection_range,
        children: Vec::new(),
    };
    assert(outline_view(entry).children =~= Seq::empty());
    result.outline = vec![entry];
    assert(result@.outline =~= seq![rule_outline(*rule)]);
    result
}

} // verus!
