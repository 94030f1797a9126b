//! Sets of style rules ordered for the cascade, and the cascade itself.

use super::laws::{is_cascade_order, lemma_stable_sorted_order};
use super::properties::{ComputedValues, LonghandDeclaration};
use super::selectors::Selector;
use crate::style::selectors;
use crate::dom::{Document, NodeId};
use std::rc::Rc;
use vstd::prelude::*;

verus! {

/// One selector with the declarations of the rule it was written in. The
/// selectors of one rule share its declarations.
pub type Rule = (Selector, Rc<Vec<LonghandDeclaration>>);

/// A rule as a stylesheet states it.
#[derive(Clone, Debug, PartialEq, Eq)]
pub enum CssRule {
    StyleRule { selectors: Vec<Selector>, declarations: Rc<Vec<LonghandDeclaration>> },
}

/// Stands for a rule that could not be read from its stylesheet.
#[derive(Copy, Clone, Debug, PartialEq, Eq)]
pub struct InvalidRule;

/// Collects the rules of the stylesheets added to it, in the order in which
/// they were written.
pub struct StyleSetBuilder(StyleSet);

/// Rules in the order in which the cascade applies them: by ascending weight
/// of their selectors, and in the order written where the weights are equal.
pub struct StyleSet {
    rules: Vec<Rule>,
}

/// The entries that one rule contributes: one for each selector, in order.
pub open spec fn rule_entries(
    selectors: Seq<Selector>,
    declarations: Rc<Vec<LonghandDeclaration>>,
) -> Seq<Rule> {
    Seq::new(selectors.len(), |i: int| (selectors[i], declarations))
}

/// The entries that a stylesheet contributes: those of each rule that could
/// be read, in order. Rules that could not be read contribute nothing.
pub open spec fn stylesheet_entries(parsed: Seq<Result<CssRule, InvalidRule>>) -> Seq<Rule>
    decreases parsed.len(),
{
    if parsed.len() == 0 {
        Seq::empty()
    } else {
        stylesheet_entries(parsed.drop_last()) + match parsed.last() {
            Ok(CssRule::StyleRule { selectors, declarations }) => rule_entries(
                selectors@,
                declarations,
            ),
            Err(_) => Seq::empty(),
        }
    }
}

/// The weight by which a rule is ordered.
pub open spec fn weight(rule: Rule) -> u32 {
    rule.0.specificity_spec()
}

/// Index of the first of `rules` that weighs at least `w`, or their number
/// if none does.
pub open spec fn first_not_below(rules: Seq<Rule>, w: u32) -> int
    decreases rules.len(),
{
    if rules.len() == 0 {
        0
    } else if weight(rules[0]) >= w {
        0
    } else {
        1 + first_not_below(rules.drop_first(), w)
    }
}

/// `rules` in cascade order: ascending by weight, rules of equal weight in
/// the order in which they stand in `rules`.
pub open spec fn stable_sorted(rules: Seq<Rule>) -> Seq<Rule>
    decreases rules.len(),
{
    if rules.len() == 0 {
        Seq::empty()
    } else {
        let rest = stable_sorted(rules.drop_first());
        rest.insert(first_not_below(rest, weight(rules[0])), rules[0])
    }
}

/// The style that results from applying `declarations` in order to
/// `computed`.
pub open spec fn apply_declarations(
    computed: ComputedValues,
    declarations: Seq<LonghandDeclaration>,
) -> ComputedValues
    decreases declarations.len(),
{
    if declarations.len() == 0 {
        computed
    } else {
        declarations.last().applied_to(apply_declarations(computed, declarations.drop_last()))
    }
}

/// The style that results from applying to `computed`, in order, the
/// declarations of every rule of `rules` whose selector matches `node`.
pub open spec fn apply_rules(
    computed: ComputedValues,
    rules: Seq<Rule>,
    document: Document,
    node: NodeId,
) -> ComputedValues
    decreases rules.len(),
{
    if rules.len() == 0 {
        computed
    } else {
        let before = apply_rules(computed, rules.drop_last(), document, node);
        if rules.last().0.matches_spec(document, node) {
            apply_declarations(before, rules.last().1@)
        } else {
            before
        }
    }
}

/// The style an element starts from: what it inherits from its parent, or
/// from the initial values where it has none, and initial values otherwise.
pub open spec fn starting_style(parent_style: Option<ComputedValues>) -> ComputedValues {
    match parent_style {
        Some(parent) => ComputedValues::inheriting_from(parent, ComputedValues::initial_spec()),
        None => ComputedValues::inheriting_from(
            ComputedValues::initial_spec(),
            ComputedValues::initial_spec(),
        ),
    }
}

/// The resolved style of `node`: its starting style with the matching
/// built-in rules applied, then the matching author rules.
pub open spec fn cascaded_style(
    user_agent: Seq<Rule>,
    author: Seq<Rule>,
    document: Document,
    node: NodeId,
    parent_style: Option<ComputedValues>,
) -> ComputedValues {
    apply_rules(
        apply_rules(starting_style(parent_style), user_agent, document, node),
        author,
        document,
        node,
    )
}

impl StyleSetBuilder {
    /// The rules collected so far, in the order written.
    pub closed spec fn rules_spec(self) -> Seq<Rule> {
        self.0.rules@
    }

    /// A builder that holds no rule.
    pub fn new() -> (builder: StyleSetBuilder)
        ensures
            builder.rules_spec() == Seq::<Rule>::empty(),
    {
        StyleSetBuilder(StyleSet { rules: Vec::new() })
    }

    /// Adds one entry for each selector of `rule`, in order, after the rules
    /// already collected.
    pub fn add_rule(&mut self, rule: CssRule)
        ensures
            final(self).rules_spec() == old(self).rules_spec() + match rule {
                CssRule::StyleRule { selectors, declarations } => rule_entries(
                    selectors@,
                    declarations,
                ),
            },
    {
        match rule {
            CssRule::StyleRule { selectors, declarations } => {
                let ghost before = self.0.rules@;
                let ghost all = selectors@;
                for selector in iter: selectors
                    invariant
                        iter.seq() == all,
                        self.0.rules@ == before + rule_entries(
                            all.take(iter.index() as int),
                            declarations,
                        ),
                {
                    self.0.rules.push((selector, declarations.clone()));
                }
            },
        }
    }

    /// Adds the rules of one stylesheet, given as the outcome of reading each
    /// of its rules in turn. A rule that could not be read is passed over;
    /// those around it are kept.
    pub fn add_stylesheet(&mut self, parsed: Vec<Result<CssRule, InvalidRule>>)
        ensures
            final(self).rules_spec() == old(self).rules_spec() + stylesheet_entries(parsed@),
    {
        let ghost before = self.0.rules@;
        let ghost all = parsed@;
        for result in iter: parsed
            invariant
                iter.seq() == all,
                self.0.rules@ == before + stylesheet_entries(all.take(iter.index() as int)),
        {
            proof {
                assert(all.take(iter.index() + 1).drop_last() == all.take(iter.index() as int));
            }
            match result {
                Ok(rule) => {
                    self.add_rule(rule);
                },
                Err(_) => {},
            }
        }
        assert(all.take(all.len() as int) == all);
    }

    /// Puts the collected rules in cascade order: the same rules, lighter
    /// ones first, and those of one weight in the order written.
    pub fn finish(self) -> (set: StyleSet)
        ensures
            set.rules_spec() == stable_sorted(self.rules_spec()),
            exists|from: Seq<int>, to: Seq<int>|
                is_cascade_order(self.rules_spec(), set.rules_spec(), from, to),
    {
        let mut pending = self.0.rules;
        let ghost all = pending@;
        let mut sorted: Vec<Rule> = Vec::new();
        while pending.len() > 0
            invariant
                pending@ == all.take(pending@.len() as int),
                pending@.len() <= all.len(),
                sorted@ == stable_sorted(all.skip(pending@.len() as int)),
            decreases pending@.len(),
        {
            let ghost k = pending@.len() as int;
            let rule = pending.pop().unwrap();
            let at = position_for(&sorted, rule.0.specificity());
            proof {
                assert(all.skip(k - 1).drop_first() == all.skip(k));
            }
            sorted.insert(at, rule);
        }
        proof {
            let (from, to) = lemma_stable_sorted_order(all);
            assert(is_cascade_order(all, sorted@, from, to));
        }
        StyleSet { rules: sorted }
    }
}

/// Where a rule of weight `w` goes into `sorted`.
fn position_for(sorted: &Vec<Rule>, w: u32) -> (at: usize)
    ensures
        at == first_not_below(sorted@, w),
        at <= sorted@.len(),
{
    let mut at: usize = 0;
    assert(sorted@.skip(0) == sorted@);
    while at < sorted.len() && sorted[at].0.specificity() < w
        invariant
            0 <= at <= sorted@.len(),
            first_not_below(sorted@, w) == at + first_not_below(sorted@.skip(at as int), w),
        decreases sorted@.len() - at,
    {
        proof {
            assert(sorted@.skip(at as int).drop_first() == sorted@.skip(at + 1));
        }
        at = at + 1;
    }
    at
}

impl StyleSet {
    /// The rules, in the order in which the cascade applies them.
    pub closed spec fn rules_spec(self) -> Seq<Rule> {
        self.rules@
    }

    /// The rules, in the order in which the cascade applies them.
    pub fn rules(&self) -> (rules: &Vec<Rule>)
        ensures
            rules@ == self.rules_spec(),
    {
        &self.rules
    }

    /// Applies to `computed`, in order, the declarations of every rule whose
    /// selector matches `node`.
    pub fn cascade_into(&self, document: &Document, node: NodeId, computed: &mut ComputedValues)
        requires
            node < document.len_spec(),
        ensures
            *final(computed) == apply_rules(*old(computed), self.rules_spec(), *document, node),
    {
        let ghost start = *computed;
        let mut i: usize = 0;
        while i < self.rules.len()
            invariant
                0 <= i <= self.rules@.len(),
                node < document.len_spec(),
                *computed == apply_rules(start, self.rules@.take(i as int), *document, node),
            decreases self.rules@.len() - i,
        {
            proof {
                assert(self.rules@.take(i + 1).drop_last() == self.rules@.take(i as int));
            }
            if selectors::matches(&self.rules[i].0, document, node) {
                let declarations = &self.rules[i].1;
                let ghost before = *computed;
                let mut j: usize = 0;
                while j < declarations.len()
                    invariant
                        0 <= j <= declarations@.len(),
                        *computed == apply_declarations(before, declarations@.take(j as int)),
                    decreases declarations@.len() - j,
                {
                    proof {
                        assert(declarations@.take(j + 1).drop_last() == declarations@.take(
                            j as int,
                        ));
                    }
                    declarations[j].cascade_into(computed);
                    j = j + 1;
                }
                proof {
                    assert(declarations@.take(declarations@.len() as int) == declarations@);
                }
            }
            i = i + 1;
        }
        proof {
            assert(self.rules@.take(self.rules@.len() as int) == self.rules@);
        }
    }
}

/// Resolves the style of element `node`: what it inherits from
/// `parent_style` (initial values for the root), then the matching rules of
/// the built-in set `user_agent`, then those of `author`, so that an author
/// declaration always overrides a built-in one.
pub fn cascade(
    user_agent: &StyleSet,
    author: &StyleSet,
    document: &Document,
    node: NodeId,
    parent_style: Option<&ComputedValues>,
) -> (style: Rc<ComputedValues>)
    requires
        node < document.len_spec(),
        document.data_spec(node) is Element,
    ensures
        *style == cascaded_style(
            user_agent.rules_spec(),
            author.rules_spec(),
            *document,
            node,
            match parent_style {
                Some(parent) => Some(*parent),
                None => None,
            },
        ),
{
    let initial = ComputedValues::initial();
    let mut computed = match parent_style {
        Some(parent) => ComputedValues::new_inheriting_from(parent, &initial),
        None => ComputedValues::new_inheriting_from(&initial, &initial),
    };
    user_agent.cascade_into(document, node, &mut computed);
    author.cascade_into(document, node, &mut computed);
    Rc::new(computed)
}

} // verus!
