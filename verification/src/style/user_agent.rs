//! The built-in rules, which apply to every document before its own.

use super::laws::rules_agree;
use super::properties::LonghandDeclaration;
use super::selectors::{
    count_classes, count_ids, count_names, specificity_of, Selector, SimpleSelector,
};
use super::style_set::{
    rule_entries, stable_sorted, stylesheet_entries, weight, CssRule, InvalidRule, Rule, StyleSet,
    StyleSetBuilder,
};
use super::values::Display;
use crate::dom::{Document, NodeId};
use std::rc::Rc;
use vstd::prelude::*;
use vstd::string::StringExecFns;

verus! {

/// Names of the elements that are blocks unless the author says otherwise.
pub open spec fn block_names() -> Seq<Seq<char>> {
    seq![
        "html"@,
        "body"@,
        "address"@,
        "article"@,
        "aside"@,
        "blockquote"@,
        "div"@,
        "footer"@,
        "h1"@,
        "h2"@,
        "h3"@,
        "h4"@,
        "h5"@,
        "h6"@,
        "header"@,
        "main"@,
        "nav"@,
        "ol"@,
        "p"@,
        "pre"@,
        "section"@,
        "ul"@,
    ]
}

/// Names of the elements that generate no box unless the author says
/// otherwise.
pub open spec fn hidden_names() -> Seq<Seq<char>> {
    seq!["head"@, "link"@, "meta"@, "script"@, "style"@, "template"@, "title"@]
}

/// `rule` is `name { display: <display> }`.
pub open spec fn is_display_rule(rule: Rule, name: Seq<char>, display: Display) -> bool {
    &&& rule.0.components_spec().len() == 1
    &&& rule.0.components_spec()[0] is LocalName
    &&& rule.0.components_spec()[0]->LocalName_0@ == name
    &&& rule.1@ == seq![LonghandDeclaration::Display(display)]
}

/// `rules` are the built-in rules: `display: block` for each of
/// `block_names`, then `display: none` for each of `hidden_names`.
pub open spec fn is_user_agent_sheet(rules: Seq<Rule>) -> bool {
    &&& rules.len() == block_names().len() + hidden_names().len()
    &&& forall|k: int|
        0 <= k < block_names().len() ==> is_display_rule(
            #[trigger] rules[k],
            block_names()[k],
            Display::block_spec(),
        )
    &&& forall|k: int|
        0 <= k < hidden_names().len() ==> is_display_rule(
            #[trigger] rules[block_names().len() + k],
            hidden_names()[k],
            Display::NoBox,
        )
}

/// `selector` is the element name `name` and nothing else.
spec fn is_name_selector(selector: Selector, name: Seq<char>) -> bool {
    &&& selector.components_spec().len() == 1
    &&& selector.components_spec()[0] is LocalName
    &&& selector.components_spec()[0]->LocalName_0@ == name
    &&& selector.specificity_spec() == 1
}

/// A selector made of one element name weighs 1.
proof fn lemma_name_weighs_one(components: Seq<SimpleSelector>)
    requires
        components.len() == 1,
        components[0] is LocalName,
    ensures
        specificity_of(components) == 1,
{
    let none = components.drop_last();
    assert(count_ids(none) == 0);
    assert(count_classes(none) == 0);
    assert(count_names(none) == 0);
}

/// Rules of one weight are in cascade order as they stand.
proof fn lemma_equal_weights_keep_order(rules: Seq<Rule>, w: u32)
    requires
        forall|i: int| 0 <= i < rules.len() ==> weight(#[trigger] rules[i]) == w,
    ensures
        stable_sorted(rules) == rules,
    decreases rules.len(),
{
    if rules.len() > 0 {
        let tail = rules.drop_first();
        assert forall|i: int| 0 <= i < tail.len() implies weight(#[trigger] tail[i]) == w by {}
        lemma_equal_weights_keep_order(tail, w);
    }
}

/// One selector for each of `names`, in order.
fn name_selectors(names: Vec<&str>) -> (selectors: Vec<Selector>)
    ensures
        selectors@.len() == names@.len(),
        forall|k: int|
            0 <= k < names@.len() ==> is_name_selector(#[trigger] selectors@[k], names@[k]@),
{
    let mut selectors: Vec<Selector> = Vec::new();
    let mut i: usize = 0;
    while i < names.len()
        invariant
            0 <= i <= names@.len(),
            selectors@.len() == i,
            forall|k: int| 0 <= k < i ==> is_name_selector(#[trigger] selectors@[k], names@[k]@),
        decreases names@.len() - i,
    {
        let mut components: Vec<SimpleSelector> = Vec::new();
        components.push(SimpleSelector::LocalName(String::from_str(names[i])));
        proof {
            lemma_name_weighs_one(components@);
        }
        selectors.push(Selector::new(components));
        i = i + 1;
    }
    selectors
}

impl StyleSet {
    /// The built-in rules, in cascade order.
    pub fn user_agent() -> (set: StyleSet)
        ensures
            is_user_agent_sheet(set.rules_spec()),
    {
        let block_list: Vec<&str> =
            vec![
                "html",
                "body",
                "address",
                "article",
                "aside",
                "blockquote",
                "div",
                "footer",
                "h1",
                "h2",
                "h3",
                "h4",
                "h5",
                "h6",
                "header",
                "main",
                "nav",
                "ol",
                "p",
                "pre",
                "section",
                "ul",
            ];
        let hidden_list: Vec<&str> = vec![
            "head",
            "link",
            "meta",
            "script",
            "style",
            "template",
            "title",
        ];
        assert forall|k: int| 0 <= k < block_list@.len() implies (#[trigger] block_list@[k])@
            == block_names()[k] by {}
        assert forall|k: int| 0 <= k < hidden_list@.len() implies (#[trigger] hidden_list@[k])@
            == hidden_names()[k] by {}
        let block = name_selectors(block_list);
        let hidden = name_selectors(hidden_list);
        let as_block = Rc::new(vec![LonghandDeclaration::Display(Display::block())]);
        let as_hidden = Rc::new(vec![LonghandDeclaration::Display(Display::NoBox)]);
        let mut parsed: Vec<Result<CssRule, InvalidRule>> = Vec::new();
        parsed.push(Ok(CssRule::StyleRule { selectors: block, declarations: as_block }));
        parsed.push(Ok(CssRule::StyleRule { selectors: hidden, declarations: as_hidden }));
        let mut builder = StyleSetBuilder::new();
        builder.add_stylesheet(parsed);
        proof {
            assert(as_block@ =~= seq![LonghandDeclaration::Display(Display::block_spec())]);
            assert(as_hidden@ =~= seq![LonghandDeclaration::Display(Display::NoBox)]);
            let first = parsed@.drop_last();
            assert(stylesheet_entries(first.drop_last()) =~= Seq::<Rule>::empty());
            let entries = rule_entries(block@, as_block) + rule_entries(hidden@, as_hidden);
            assert(stylesheet_entries(first) =~= rule_entries(block@, as_block));
            assert forall|i: int| 0 <= i < entries.len() implies weight(#[trigger] entries[i])
                == 1 by {}
            lemma_equal_weights_keep_order(entries, 1);
            assert forall|k: int| 0 <= k < block_names().len() implies is_display_rule(
                #[trigger] entries[k],
                block_names()[k],
                Display::block_spec(),
            ) by {}
            assert forall|k: int| 0 <= k < hidden_names().len() implies is_display_rule(
                #[trigger] entries[block_names().len() + k],
                hidden_names()[k],
                Display::NoBox,
            ) by {}
        }
        builder.finish()
    }
}

/// Whether a rule for the element name `name` matches `node`.
proof fn lemma_display_rule_matches(
    rule: Rule,
    name: Seq<char>,
    display: Display,
    document: Document,
    node: NodeId,
)
    requires
        is_display_rule(rule, name, display),
    ensures
        rule.0.matches_spec(document, node) == (document.data_spec(node) is Element
            && document.data_spec(node)->Element_0.name@ == name),
{
}

/// The built-in rules are one set: any two sequences that hold them agree,
/// and so resolve every element alike.
pub proof fn lemma_user_agent_sheets_agree(first: Seq<Rule>, second: Seq<Rule>)
    requires
        is_user_agent_sheet(first),
        is_user_agent_sheet(second),
    ensures
        rules_agree(first, second),
{
    let blocks = block_names().len() as int;
    assert forall|k: int| 0 <= k < first.len() implies (#[trigger] first[k]).1@ == second[k].1@ by {
        if k >= blocks {
            assert(is_display_rule(
                second[blocks + (k - blocks)],
                hidden_names()[k - blocks],
                Display::NoBox,
            ));
        }
    }
    assert forall|k: int, document: Document, node: NodeId| 0 <= k < first.len() implies
        #[trigger] first[k].0.matches_spec(document, node) == second[k].0.matches_spec(
        document,
        node,
    ) by {
        if k >= blocks {
            let name = hidden_names()[k - blocks];
            assert(is_display_rule(second[blocks + (k - blocks)], name, Display::NoBox));
            lemma_display_rule_matches(first[k], name, Display::NoBox, document, node);
            lemma_display_rule_matches(second[k], name, Display::NoBox, document, node);
        } else {
            let name = block_names()[k];
            lemma_display_rule_matches(first[k], name, Display::block_spec(), document, node);
            lemma_display_rule_matches(second[k], name, Display::block_spec(), document, node);
        }
    }
}

} // verus!
