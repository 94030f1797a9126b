//! The shape that every box tree built here has.

use super::box_generation::{
    anonymous_blocks, block_container, box_tree_of, boxed_fragments, child_items, element_items,
    fragments_of, inline_boxes, inline_element_items, lemma_trailing_inlines_last, push_text,
    trailing_inlines, wrapped_blocks,
    FlowItem, Fragment,
};
use super::{BlockContainerView, BlockLevelView, InlineLevelView};
use crate::dom::{Document, NodeData, NodeId};
use crate::style::properties::ComputedValues;
use crate::style::laws::{lemma_rules_that_agree_apply_alike, rules_agree};
use crate::style::style_set::{cascaded_style, starting_style, Rule};
use crate::style::values::{Display, DisplayInside, DisplayOutside};
use vstd::prelude::*;

verus! {

/// An inline box holds content, and that content is well formed.
pub open spec fn inline_level_ok(inline: InlineLevelView) -> bool
    decreases inline,
{
    match inline {
        InlineLevelView::Text(_) => true,
        InlineLevelView::Inline { style, children } => children.len() > 0 && inline_levels_ok(
            children,
        ),
    }
}

/// No two neighbours are both text runs, and every entry is well formed.
pub open spec fn inline_levels_ok(inlines: Seq<InlineLevelView>) -> bool
    decreases inlines,
{
    if inlines.len() == 0 {
        true
    } else {
        &&& inline_levels_ok(inlines.drop_last())
        &&& inline_level_ok(inlines.last())
        &&& (inlines.len() >= 2 && inlines[inlines.len() - 2] is Text ==> !(inlines.last()
            is Text))
    }
}

/// An inline formatting context holds content, with text runs merged; a list
/// of blocks holds well-formed blocks.
pub open spec fn block_container_ok(container: BlockContainerView) -> bool
    decreases container,
{
    match container {
        BlockContainerView::BlockLevels(blocks) => block_levels_ok(blocks),
        BlockContainerView::InlineFormattingContext(inlines) => inlines.len() > 0
            && inline_levels_ok(inlines),
    }
}

/// The contents of every block are well formed.
pub open spec fn block_levels_ok(blocks: Seq<BlockLevelView>) -> bool
    decreases blocks,
{
    if blocks.len() == 0 {
        true
    } else {
        block_levels_ok(blocks.drop_last()) && block_container_ok(blocks.last().contents)
    }
}

pub open spec fn is_text_item(item: FlowItem) -> bool {
    item is Inline && item->Inline_0 is Text
}

pub open spec fn flow_item_ok(item: FlowItem) -> bool {
    match item {
        FlowItem::Inline(inline) => inline_level_ok(inline),
        FlowItem::Block(block) => block_container_ok(block.contents),
    }
}

/// No two neighbours are both text runs, and every box is well formed.
pub open spec fn flow_items_ok(items: Seq<FlowItem>) -> bool
    decreases items.len(),
{
    if items.len() == 0 {
        true
    } else {
        &&& flow_items_ok(items.drop_last())
        &&& flow_item_ok(items.last())
        &&& (items.len() >= 2 && is_text_item(items[items.len() - 2]) ==> !is_text_item(
            items.last(),
        ))
    }
}

/// No box is a bare text run.
pub open spec fn no_bare_text(items: Seq<FlowItem>) -> bool {
    forall|i: int| 0 <= i < items.len() ==> !is_text_item(#[trigger] items[i])
}

pub open spec fn fragments_ok(fragments: Seq<Fragment>) -> bool {
    forall|k: int|
        0 <= k < fragments.len() ==> inline_levels_ok((#[trigger] fragments[k]).0)
            && block_container_ok(fragments[k].1.contents)
}

/// Two text runs in a row are one run of both texts.
pub proof fn lemma_adjacent_text_merges(items: Seq<FlowItem>, first: Seq<char>, second: Seq<char>)
    ensures
        push_text(push_text(items, first), second) == push_text(items, first + second),
{
    if items.len() > 0 && is_text_item(items.last()) {
        let run = items.last()->Inline_0->Text_0;
        assert((run + first) + second =~= run + (first + second));
    }
}

/// An element with `display: none` contributes no box, whatever the
/// document holds below it.
pub proof fn lemma_display_none_generates_nothing(
    user_agent: Seq<Rule>,
    author: Seq<Rule>,
    document: Document,
    node: NodeId,
    style: ComputedValues,
)
    requires
        style.display is NoBox,
    ensures
        element_items(user_agent, author, document, node, style) == Seq::<FlowItem>::empty(),
{
}

/// A document whose root element resolves to `display: none` has an empty
/// list of blocks for its box tree.
pub proof fn lemma_hidden_root_has_no_boxes(
    user_agent: Seq<Rule>,
    author: Seq<Rule>,
    document: Document,
    root: NodeId,
)
    requires
        cascaded_style(user_agent, author, document, root, None).display is NoBox,
    ensures
        box_tree_of(user_agent, author, document, root) == BlockContainerView::BlockLevels(
            Seq::empty(),
        ),
{
}

/// A well-formed box that is no text run can follow any well-formed sequence.
proof fn lemma_push_ok(items: Seq<FlowItem>, item: FlowItem)
    requires
        flow_items_ok(items),
        flow_item_ok(item),
        !is_text_item(item),
    ensures
        flow_items_ok(items.push(item)),
{
    assert(items.push(item).drop_last() =~= items);
}

/// Well-formed boxes without bare text can follow any well-formed sequence.
proof fn lemma_concat_ok(before: Seq<FlowItem>, after: Seq<FlowItem>)
    requires
        flow_items_ok(before),
        flow_items_ok(after),
        no_bare_text(after),
    ensures
        flow_items_ok(before + after),
    decreases after.len(),
{
    if after.len() > 0 {
        let front = after.drop_last();
        assert forall|i: int| 0 <= i < front.len() implies !is_text_item(#[trigger] front[i]) by {}
        lemma_concat_ok(before, front);
        lemma_push_ok(before + front, after.last());
        assert((before + front).push(after.last()) =~= before + after);
    }
}

proof fn lemma_push_text_ok(items: Seq<FlowItem>, text: Seq<char>)
    requires
        flow_items_ok(items),
    ensures
        flow_items_ok(push_text(items, text)),
{
    let after = push_text(items, text);
    if items.len() > 0 && is_text_item(items.last()) {
        assert(after.drop_last() =~= items.drop_last());
    } else {
        assert(after.drop_last() =~= items);
    }
}

proof fn lemma_trailing_inlines_ok(items: Seq<FlowItem>)
    requires
        flow_items_ok(items),
    ensures
        inline_levels_ok(trailing_inlines(items)),
    decreases items.len(),
{
    if items.len() > 0 {
        let front = items.drop_last();
        lemma_trailing_inlines_ok(front);
        lemma_trailing_inlines_last(front);
        match items.last() {
            FlowItem::Inline(inline) => {
                let run = trailing_inlines(front);
                assert(run.push(inline).drop_last() =~= run);
            },
            FlowItem::Block(_) => {},
        }
    }
}

proof fn lemma_fragments_ok(items: Seq<FlowItem>)
    requires
        flow_items_ok(items),
    ensures
        fragments_ok(fragments_of(items)),
    decreases items.len(),
{
    if items.len() > 0 {
        let front = items.drop_last();
        lemma_fragments_ok(front);
        lemma_trailing_inlines_ok(front);
    }
}

proof fn lemma_block_levels_push_ok(blocks: Seq<BlockLevelView>, block: BlockLevelView)
    requires
        block_levels_ok(blocks),
        block_container_ok(block.contents),
    ensures
        block_levels_ok(blocks.push(block)),
{
    assert(blocks.push(block).drop_last() =~= blocks);
}

proof fn lemma_anonymous_blocks_ok(
    style: ComputedValues,
    blocks: Seq<BlockLevelView>,
    run: Seq<InlineLevelView>,
)
    requires
        block_levels_ok(blocks),
        inline_levels_ok(run),
    ensures
        block_levels_ok(blocks + anonymous_blocks(style, run)),
{
    if run.len() > 0 {
        let block = anonymous_blocks(style, run)[0];
        lemma_block_levels_push_ok(blocks, block);
        assert(blocks + anonymous_blocks(style, run) =~= blocks.push(block));
    }
}

proof fn lemma_wrapped_blocks_ok(style: ComputedValues, items: Seq<FlowItem>)
    requires
        flow_items_ok(items),
    ensures
        block_levels_ok(wrapped_blocks(style, items)),
    decreases items.len(),
{
    if items.len() > 0 {
        let front = items.drop_last();
        lemma_wrapped_blocks_ok(style, front);
        lemma_trailing_inlines_ok(front);
        if let FlowItem::Block(block) = items.last() {
            lemma_anonymous_blocks_ok(style, wrapped_blocks(style, front), trailing_inlines(front));
            lemma_block_levels_push_ok(
                wrapped_blocks(style, front) + anonymous_blocks(style, trailing_inlines(front)),
                block,
            );
        }
    }
}

/// A container of well-formed boxes is well formed.
proof fn lemma_block_container_ok(style: ComputedValues, items: Seq<FlowItem>)
    requires
        flow_items_ok(items),
    ensures
        block_container_ok(block_container(style, items)),
{
    lemma_wrapped_blocks_ok(style, items);
    lemma_trailing_inlines_ok(items);
    lemma_anonymous_blocks_ok(style, wrapped_blocks(style, items), trailing_inlines(items));
}

proof fn lemma_inline_boxes_ok(
    style: ComputedValues,
    items: Seq<FlowItem>,
    run: Seq<InlineLevelView>,
)
    requires
        flow_items_ok(items),
        no_bare_text(items),
        inline_levels_ok(run),
    ensures
        flow_items_ok(items + inline_boxes(style, run)),
        no_bare_text(items + inline_boxes(style, run)),
{
    if run.len() > 0 {
        let item = inline_boxes(style, run)[0];
        lemma_push_ok(items, item);
        assert(items + inline_boxes(style, run) =~= items.push(item));
    }
}

proof fn lemma_boxed_fragments_ok(style: ComputedValues, fragments: Seq<Fragment>)
    requires
        fragments_ok(fragments),
    ensures
        flow_items_ok(boxed_fragments(style, fragments)),
        no_bare_text(boxed_fragments(style, fragments)),
    decreases fragments.len(),
{
    if fragments.len() > 0 {
        let front = fragments.drop_last();
        assert forall|k: int| 0 <= k < front.len() implies inline_levels_ok(
            (#[trigger] front[k]).0,
        ) && block_container_ok(front[k].1.contents) by {}
        lemma_boxed_fragments_ok(style, front);
        let last = fragments[fragments.len() - 1];
        lemma_inline_boxes_ok(style, boxed_fragments(style, front), last.0);
        lemma_push_ok(
            boxed_fragments(style, front) + inline_boxes(style, last.0),
            FlowItem::Block(last.1),
        );
    }
}

proof fn lemma_inline_element_items_ok(style: ComputedValues, items: Seq<FlowItem>)
    requires
        flow_items_ok(items),
    ensures
        flow_items_ok(inline_element_items(style, items)),
        no_bare_text(inline_element_items(style, items)),
{
    lemma_fragments_ok(items);
    lemma_trailing_inlines_ok(items);
    lemma_boxed_fragments_ok(style, fragments_of(items));
    lemma_inline_boxes_ok(
        style,
        boxed_fragments(style, fragments_of(items)),
        trailing_inlines(items),
    );
}

/// What the children of an element contribute is well formed.
pub proof fn lemma_child_items_ok(
    user_agent: Seq<Rule>,
    author: Seq<Rule>,
    document: Document,
    parent: NodeId,
    style: ComputedValues,
    children: Seq<NodeId>,
)
    ensures
        flow_items_ok(child_items(user_agent, author, document, parent, style, children)),
    decreases document.len_spec() - parent, 0int, children.len(),
{
    if children.len() > 0 {
        let front = children.drop_last();
        let before = child_items(user_agent, author, document, parent, style, front);
        lemma_child_items_ok(user_agent, author, document, parent, style, front);
        let child = children.last();
        if parent < child < document.len_spec() {
            match document.data_spec(child) {
                NodeData::Text { contents } => {
                    lemma_push_text_ok(before, contents@);
                },
                NodeData::Element(_) => {
                    let child_style = cascaded_style(
                        user_agent,
                        author,
                        document,
                        child,
                        Some(style),
                    );
                    lemma_element_items_ok(user_agent, author, document, child, child_style);
                    lemma_concat_ok(
                        before,
                        element_items(user_agent, author, document, child, child_style),
                    );
                },
                _ => {},
            }
        }
    }
}

/// What an element contributes is well formed, and never a bare text run.
pub proof fn lemma_element_items_ok(
    user_agent: Seq<Rule>,
    author: Seq<Rule>,
    document: Document,
    node: NodeId,
    style: ComputedValues,
)
    ensures
        flow_items_ok(element_items(user_agent, author, document, node, style)),
        no_bare_text(element_items(user_agent, author, document, node, style)),
    decreases document.len_spec() - node, 1int, 0int,
{
    let items = child_items(user_agent, author, document, node, style, document.children(node));
    match style.display {
        Display::NoBox => {},
        Display::Other { outside: DisplayOutside::Inline, inside: DisplayInside::Flow } => {
            lemma_child_items_ok(
                user_agent,
                author,
                document,
                node,
                style,
                document.children(node),
            );
            lemma_inline_element_items_ok(style, items);
        },
        Display::Other { outside: DisplayOutside::Block, inside: DisplayInside::Flow } => {
            lemma_child_items_ok(
                user_agent,
                author,
                document,
                node,
                style,
                document.children(node),
            );
            lemma_block_container_ok(style, items);
            let block = BlockLevelView { style, contents: block_container(style, items) };
            let boxes = seq![FlowItem::Block(block)];
            assert(flow_items_ok(boxes.drop_last()));
        },
    }
}

/// Every container of a box tree is either a list of blocks or one inline
/// formatting context that holds content; inline content next to a block
/// always stands in an anonymous block; no two text runs are neighbours;
/// and no inline box is empty.
pub proof fn lemma_box_tree_well_formed(
    user_agent: Seq<Rule>,
    author: Seq<Rule>,
    document: Document,
    root: NodeId,
)
    ensures
        block_container_ok(box_tree_of(user_agent, author, document, root)),
{
    let root_style = cascaded_style(user_agent, author, document, root, None);
    lemma_element_items_ok(user_agent, author, document, root, root_style);
    lemma_block_container_ok(
        ComputedValues::inheriting_from(
            ComputedValues::initial_spec(),
            ComputedValues::initial_spec(),
        ),
        element_items(user_agent, author, document, root, root_style),
    );
}

/// Built-in rule sequences that agree resolve every element alike.
pub proof fn lemma_cascade_alike(
    first: Seq<Rule>,
    second: Seq<Rule>,
    author: Seq<Rule>,
    document: Document,
    node: NodeId,
    parent_style: Option<ComputedValues>,
)
    requires
        rules_agree(first, second),
    ensures
        cascaded_style(first, author, document, node, parent_style) == cascaded_style(
            second,
            author,
            document,
            node,
            parent_style,
        ),
{
    lemma_rules_that_agree_apply_alike(starting_style(parent_style), first, second, document, node);
}

proof fn lemma_child_items_alike(
    first: Seq<Rule>,
    second: Seq<Rule>,
    author: Seq<Rule>,
    document: Document,
    parent: NodeId,
    style: ComputedValues,
    children: Seq<NodeId>,
)
    requires
        rules_agree(first, second),
    ensures
        child_items(first, author, document, parent, style, children) == child_items(
            second,
            author,
            document,
            parent,
            style,
            children,
        ),
    decreases document.len_spec() - parent, 0int, children.len(),
{
    if children.len() > 0 {
        lemma_child_items_alike(
            first,
            second,
            author,
            document,
            parent,
            style,
            children.drop_last(),
        );
        let child = children.last();
        if parent < child < document.len_spec() {
            lemma_cascade_alike(first, second, author, document, child, Some(style));
            lemma_element_items_alike(
                first,
                second,
                author,
                document,
                child,
                cascaded_style(first, author, document, child, Some(style)),
            );
        }
    }
}

proof fn lemma_element_items_alike(
    first: Seq<Rule>,
    second: Seq<Rule>,
    author: Seq<Rule>,
    document: Document,
    node: NodeId,
    style: ComputedValues,
)
    requires
        rules_agree(first, second),
    ensures
        element_items(first, author, document, node, style) == element_items(
            second,
            author,
            document,
            node,
            style,
        ),
    decreases document.len_spec() - node, 1int, 0int,
{
    if !(style.display is NoBox) {
        lemma_child_items_alike(
            first,
            second,
            author,
            document,
            node,
            style,
            document.children(node),
        );
    }
}

/// Built-in rule sequences that agree give every document the same box
/// tree.
pub proof fn lemma_box_tree_alike(
    first: Seq<Rule>,
    second: Seq<Rule>,
    author: Seq<Rule>,
    document: Document,
    root: NodeId,
)
    requires
        rules_agree(first, second),
    ensures
        box_tree_of(first, author, document, root) == box_tree_of(second, author, document, root),
{
    lemma_cascade_alike(first, second, author, document, root, None);
    lemma_element_items_alike(
        first,
        second,
        author,
        document,
        root,
        cascaded_style(first, author, document, root, None),
    );
}

} // verus!
