//! What holds of the cascade: which declaration decides a property.

use super::properties::{
    lemma_applied_longhand, ComputedValues, LonghandDeclaration, LonghandId,
};
use super::style_set::{
    apply_declarations, apply_rules, cascaded_style, first_not_below, stable_sorted,
    starting_style, weight, Rule,
};
use crate::dom::{Document, NodeId};
use vstd::prelude::*;

verus! {

/// The last of `declarations` that sets property `id`.
pub open spec fn last_declared(
    declarations: Seq<LonghandDeclaration>,
    id: LonghandId,
) -> Option<LonghandDeclaration>
    decreases declarations.len(),
{
    if declarations.len() == 0 {
        None
    } else if declarations.last().id_spec() == id {
        Some(declarations.last())
    } else {
        last_declared(declarations.drop_last(), id)
    }
}

/// Whether `rule` matches `node` and declares property `id`.
pub open spec fn rule_sets(rule: Rule, document: Document, node: NodeId, id: LonghandId) -> bool {
    rule.0.matches_spec(document, node) && last_declared(rule.1@, id) is Some
}

/// Index of the last of `rules` that matches `node` and declares `id`.
pub open spec fn winning_rule(
    rules: Seq<Rule>,
    document: Document,
    node: NodeId,
    id: LonghandId,
) -> Option<int>
    decreases rules.len(),
{
    if rules.len() == 0 {
        None
    } else if rule_sets(rules.last(), document, node, id) {
        Some(rules.len() - 1)
    } else {
        winning_rule(rules.drop_last(), document, node, id)
    }
}

/// After a list of declarations is applied, a property holds the value of
/// the last declaration for it, and its earlier value if there is none.
pub proof fn lemma_last_declaration_decides(
    computed: ComputedValues,
    declarations: Seq<LonghandDeclaration>,
    id: LonghandId,
)
    ensures
        apply_declarations(computed, declarations).longhand_spec(id) == match last_declared(
            declarations,
            id,
        ) {
            Some(d) => d,
            None => computed.longhand_spec(id),
        },
    decreases declarations.len(),
{
    if declarations.len() > 0 {
        lemma_last_declaration_decides(computed, declarations.drop_last(), id);
        lemma_applied_longhand(
            declarations.last(),
            apply_declarations(computed, declarations.drop_last()),
            id,
        );
    }
}

/// The winning rule, where there is one, matches and declares the property,
/// and no rule after it does; where there is none, no rule does.
pub proof fn lemma_winning_rule(rules: Seq<Rule>, document: Document, node: NodeId, id: LonghandId)
    ensures
        match winning_rule(rules, document, node, id) {
            Some(k) => 0 <= k < rules.len() && rule_sets(rules[k], document, node, id)
                && forall|j: int|
                k < j < rules.len() ==> !rule_sets(#[trigger] rules[j], document, node, id),
            None => forall|j: int|
                0 <= j < rules.len() ==> !rule_sets(#[trigger] rules[j], document, node, id),
        },
    decreases rules.len(),
{
    if rules.len() > 0 && !rule_sets(rules.last(), document, node, id) {
        let front = rules.drop_last();
        lemma_winning_rule(front, document, node, id);
        assert forall|j: int| 0 <= j < front.len() implies front[j] == rules[j] by {}
        match winning_rule(front, document, node, id) {
            Some(k) => {
                assert forall|j: int| k < j < rules.len() implies !rule_sets(
                    #[trigger] rules[j],
                    document,
                    node,
                    id,
                ) by {}
            },
            None => {
                assert forall|j: int| 0 <= j < rules.len() implies !rule_sets(
                    #[trigger] rules[j],
                    document,
                    node,
                    id,
                ) by {}
            },
        }
    }
}

/// A rule that matches and declares the property, with none after it that
/// does, is the winning rule.
pub proof fn lemma_winning_rule_is(
    rules: Seq<Rule>,
    document: Document,
    node: NodeId,
    id: LonghandId,
    k: int,
)
    requires
        0 <= k < rules.len(),
        rule_sets(rules[k], document, node, id),
        forall|j: int| k < j < rules.len() ==> !rule_sets(#[trigger] rules[j], document, node, id),
    ensures
        winning_rule(rules, document, node, id) == Some(k),
    decreases rules.len(),
{
    if k < rules.len() - 1 {
        let front = rules.drop_last();
        assert forall|j: int| k < j < front.len() implies !rule_sets(
            #[trigger] front[j],
            document,
            node,
            id,
        ) by {}
        lemma_winning_rule_is(front, document, node, id, k);
    }
}

/// After a sequence of rules is applied, a property holds the value that the
/// winning rule last declares for it, and its earlier value if no rule wins.
pub proof fn lemma_winning_rule_decides(
    computed: ComputedValues,
    rules: Seq<Rule>,
    document: Document,
    node: NodeId,
    id: LonghandId,
)
    ensures
        apply_rules(computed, rules, document, node).longhand_spec(id) == match winning_rule(
            rules,
            document,
            node,
            id,
        ) {
            Some(k) => last_declared(rules[k].1@, id)->0,
            None => computed.longhand_spec(id),
        },
    decreases rules.len(),
{
    if rules.len() > 0 {
        let front = rules.drop_last();
        lemma_winning_rule_decides(computed, front, document, node, id);
        lemma_winning_rule(front, document, node, id);
        let before = apply_rules(computed, front, document, node);
        lemma_last_declaration_decides(before, rules.last().1@, id);
    }
}

/// The cascade is a function of its arguments: two results for the same
/// rule sets, node and parent style agree on every property.
pub proof fn lemma_cascade_deterministic(
    user_agent: Seq<Rule>,
    author: Seq<Rule>,
    document: Document,
    node: NodeId,
    parent_style: Option<ComputedValues>,
    first: ComputedValues,
    second: ComputedValues,
)
    requires
        first == cascaded_style(user_agent, author, document, node, parent_style),
        second == cascaded_style(user_agent, author, document, node, parent_style),
    ensures
        forall|id: LonghandId| first.longhand_spec(id) == second.longhand_spec(id),
        first == second,
{
}

/// Where an author rule that matches the element declares a property, the
/// resolved value is the one the last such author rule declares, whatever
/// the built-in rules say and however heavy their selectors are.
pub proof fn lemma_author_overrides_user_agent(
    user_agent: Seq<Rule>,
    author: Seq<Rule>,
    document: Document,
    node: NodeId,
    parent_style: Option<ComputedValues>,
    id: LonghandId,
    k: int,
)
    requires
        0 <= k < author.len(),
        rule_sets(author[k], document, node, id),
    ensures
        winning_rule(author, document, node, id) matches Some(w) && 0 <= w < author.len()
            && rule_sets(author[w], document, node, id) && cascaded_style(
            user_agent,
            author,
            document,
            node,
            parent_style,
        ).longhand_spec(id) == last_declared(author[w].1@, id)->0,
{
    lemma_winning_rule(author, document, node, id);
    lemma_winning_rule_decides(
        apply_rules(starting_style(parent_style), user_agent, document, node),
        author,
        document,
        node,
        id,
    );
}

/// Whether the rule at `i` is applied before the rule at `j`: it weighs
/// less, or the same and stands earlier.
pub open spec fn cascades_before(rules: Seq<Rule>, i: int, j: int) -> bool {
    weight(rules[i]) < weight(rules[j]) || (weight(rules[i]) == weight(rules[j]) && i < j)
}

/// `sorted` holds exactly the rules of `rules`, each once, those that
/// cascade earlier first: `from[k]` is the place in `rules` of the rule at
/// `k` in `sorted`, and `to` leads back.
pub open spec fn is_cascade_order(
    rules: Seq<Rule>,
    sorted: Seq<Rule>,
    from: Seq<int>,
    to: Seq<int>,
) -> bool {
    &&& sorted.len() == rules.len()
    &&& from.len() == rules.len()
    &&& to.len() == rules.len()
    &&& forall|k: int|
        0 <= k < rules.len() ==> 0 <= #[trigger] from[k] < rules.len() && sorted[k]
            == rules[from[k]] && to[from[k]] == k
    &&& forall|i: int|
        0 <= i < rules.len() ==> 0 <= #[trigger] to[i] < rules.len() && from[to[i]] == i
    &&& forall|k: int, l: int|
        0 <= k < l < rules.len() ==> cascades_before(rules, #[trigger] from[k], #[trigger] from[l])
}

/// What `first_not_below` finds: every rule before it weighs less than `w`,
/// and the rule at it, if there is one, does not.
pub proof fn lemma_first_not_below(rules: Seq<Rule>, w: u32)
    ensures
        0 <= first_not_below(rules, w) <= rules.len(),
        forall|j: int| 0 <= j < first_not_below(rules, w) ==> weight(#[trigger] rules[j]) < w,
        first_not_below(rules, w) < rules.len() ==> weight(rules[first_not_below(rules, w)]) >= w,
    decreases rules.len(),
{
    if rules.len() > 0 && weight(rules[0]) < w {
        let tail = rules.drop_first();
        lemma_first_not_below(tail, w);
        assert forall|j: int| 0 <= j < first_not_below(rules, w) implies weight(
            #[trigger] rules[j],
        ) < w by {
            if j > 0 {
                assert(rules[j] == tail[j - 1]);
            }
        }
    }
}

/// The cascade order of a rule set is a rearrangement of its rules in which
/// lighter rules come first and rules of one weight keep their order.
pub proof fn lemma_stable_sorted_order(rules: Seq<Rule>) -> (maps: (Seq<int>, Seq<int>))
    ensures
        is_cascade_order(rules, stable_sorted(rules), maps.0, maps.1),
    decreases rules.len(),
{
    if rules.len() == 0 {
        (Seq::empty(), Seq::empty())
    } else {
        let tail = rules.drop_first();
        let (f, g) = lemma_stable_sorted_order(tail);
        let rest = stable_sorted(tail);
        let w = weight(rules[0]);
        let pos = first_not_below(rest, w);
        lemma_first_not_below(rest, w);
        let n = rules.len() as int;
        let sorted = stable_sorted(rules);
        let from = Seq::new(
            rules.len(),
            |k: int|
                if k < pos {
                    f[k] + 1
                } else if k == pos {
                    0
                } else {
                    f[k - 1] + 1
                },
        );
        let to = Seq::new(
            rules.len(),
            |i: int|
                if i == 0 {
                    pos
                } else if g[i - 1] < pos {
                    g[i - 1]
                } else {
                    g[i - 1] + 1
                },
        );
        assert forall|j: int| 0 <= j < tail.len() implies tail[j] == rules[j + 1] by {}
        // Every rule of `rest` from `pos` on weighs at least `w`.
        assert forall|j: int| pos <= j < rest.len() implies weight(rest[j]) >= w by {
            if j > pos {
                assert(rest[pos] == tail[f[pos]]);
                assert(rest[j] == tail[f[j]]);
            }
        }
        assert forall|k: int| 0 <= k < n implies 0 <= #[trigger] from[k] < n && sorted[k]
            == rules[from[k]] && to[from[k]] == k by {}
        assert forall|i: int| 0 <= i < n implies 0 <= #[trigger] to[i] < n && from[to[i]] == i by {}
        assert forall|k: int, l: int| 0 <= k < l < n implies cascades_before(
            rules,
            #[trigger] from[k],
            #[trigger] from[l],
        ) by {}
        (from, to)
    }
}

/// Among the rules that match an element and declare a property, the one
/// that decides is the heaviest, and among the heaviest the one written
/// last: once the rules are in cascade order the property holds the value
/// which that rule last declares.
pub proof fn lemma_heaviest_then_latest_rule_decides(
    computed: ComputedValues,
    rules: Seq<Rule>,
    document: Document,
    node: NodeId,
    id: LonghandId,
    w: int,
)
    requires
        0 <= w < rules.len(),
        rule_sets(rules[w], document, node, id),
        forall|i: int|
            0 <= i < rules.len() && i != w && rule_sets(#[trigger] rules[i], document, node, id)
                ==> cascades_before(rules, i, w),
    ensures
        apply_rules(computed, stable_sorted(rules), document, node).longhand_spec(id)
            == last_declared(rules[w].1@, id)->0,
{
    let (from, to) = lemma_stable_sorted_order(rules);
    let sorted = stable_sorted(rules);
    let k = to[w];
    assert forall|l: int| k < l < sorted.len() implies !rule_sets(
        #[trigger] sorted[l],
        document,
        node,
        id,
    ) by {
        assert(sorted[l] == rules[from[l]]);
    }
    lemma_winning_rule_is(sorted, document, node, id, k);
    lemma_winning_rule_decides(computed, sorted, document, node, id);
}

/// Whether two rule sequences have, place by place, selectors that match
/// the same elements and the same declarations.
pub open spec fn rules_agree(first: Seq<Rule>, second: Seq<Rule>) -> bool {
    &&& first.len() == second.len()
    &&& forall|k: int| 0 <= k < first.len() ==> (#[trigger] first[k]).1@ == second[k].1@
    &&& forall|k: int, document: Document, node: NodeId|
        0 <= k < first.len() ==> #[trigger] first[k].0.matches_spec(document, node)
            == second[k].0.matches_spec(document, node)
}

/// Rule sequences that agree resolve every element alike.
pub proof fn lemma_rules_that_agree_apply_alike(
    computed: ComputedValues,
    first: Seq<Rule>,
    second: Seq<Rule>,
    document: Document,
    node: NodeId,
)
    requires
        rules_agree(first, second),
    ensures
        apply_rules(computed, first, document, node) == apply_rules(
            computed,
            second,
            document,
            node,
        ),
    decreases first.len(),
{
    if first.len() > 0 {
        assert forall|j: int| 0 <= j < first.drop_last().len() implies (
        #[trigger] first.drop_last()[j]).1@ == second.drop_last()[j].1@ by {}
        assert forall|j: int, d: Document, n: NodeId|
            0 <= j < first.drop_last().len() implies #[trigger] first.drop_last()[j].0.matches_spec(
            d,
            n,
        ) == second.drop_last()[j].0.matches_spec(d, n) by {}
        lemma_rules_that_agree_apply_alike(
            computed,
            first.drop_last(),
            second.drop_last(),
            document,
            node,
        );
    }
}

} // verus!
