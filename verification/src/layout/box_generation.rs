//! Building the box tree of a styled document.
//!
//! The children of an element contribute, in order, a sequence of inline-level
//! and block-level boxes. A block container groups that sequence: with no
//! block in it, it is one inline formatting context; otherwise every run of
//! inline content between blocks is wrapped in an anonymous block. An inline
//! element hands its blocks up to its parent and wraps the runs between them
//! in inline boxes of its own style.

use super::shape::{block_container_ok, lemma_box_tree_alike, lemma_box_tree_well_formed};
use super::{
    BlockContainer, BlockContainerView, BlockFormattingContext, BlockLevel, BlockLevelView,
    BoxTreeRoot, InlineLevel, InlineLevelView,
};
use crate::dom::{Document, NodeData, NodeId};
use crate::style::properties::ComputedValues;
use crate::style::style_set::{cascade, cascaded_style, Rule, StyleSet};
use crate::style::user_agent::{is_user_agent_sheet, lemma_user_agent_sheets_agree};
use crate::style::values::{Display, DisplayInside, DisplayOutside};
use std::rc::Rc;
use vstd::prelude::*;
use vstd::string::StringExecFns;

verus! {

/// One box contributed to a container, inline-level or block-level.
pub enum FlowItem {
    Inline(InlineLevelView),
    Block(BlockLevelView),
}

/// A run of inline content and the block that ended it.
pub type Fragment = (Seq<InlineLevelView>, BlockLevelView);

/// `items` followed by the text `text`: it extends the text run that `items`
/// ends with, if there is one, and starts a new run otherwise.
pub open spec fn push_text(items: Seq<FlowItem>, text: Seq<char>) -> Seq<FlowItem> {
    if items.len() > 0 && items.last() is Inline && items.last()->Inline_0 is Text {
        items.drop_last().push(
            FlowItem::Inline(InlineLevelView::Text(items.last()->Inline_0->Text_0 + text)),
        )
    } else {
        items.push(FlowItem::Inline(InlineLevelView::Text(text)))
    }
}

/// The inline content that `items` ends with, after its last block.
pub open spec fn trailing_inlines(items: Seq<FlowItem>) -> Seq<InlineLevelView>
    decreases items.len(),
{
    if items.len() == 0 {
        Seq::empty()
    } else {
        match items.last() {
            FlowItem::Inline(inline) => trailing_inlines(items.drop_last()).push(inline),
            FlowItem::Block(_) => Seq::empty(),
        }
    }
}

/// The blocks of `items`, each with the inline content that stands between
/// it and the block before.
pub open spec fn fragments_of(items: Seq<FlowItem>) -> Seq<Fragment>
    decreases items.len(),
{
    if items.len() == 0 {
        Seq::empty()
    } else {
        match items.last() {
            FlowItem::Inline(_) => fragments_of(items.drop_last()),
            FlowItem::Block(block) => fragments_of(items.drop_last()).push(
                (trailing_inlines(items.drop_last()), block),
            ),
        }
    }
}

/// The anonymous block that wraps the inline content `run` in a container
/// styled `style`; nothing for an empty run.
pub open spec fn anonymous_blocks(
    style: ComputedValues,
    run: Seq<InlineLevelView>,
) -> Seq<BlockLevelView> {
    if run.len() == 0 {
        Seq::empty()
    } else {
        seq![
            BlockLevelView {
                style: ComputedValues::anonymous_style(style),
                contents: BlockContainerView::InlineFormattingContext(run),
            },
        ]
    }
}

/// The block-level boxes of a container styled `style` up to the last block
/// of `items`: each block, preceded by an anonymous block around the inline
/// content before it, if any.
pub open spec fn wrapped_blocks(style: ComputedValues, items: Seq<FlowItem>) -> Seq<BlockLevelView>
    decreases items.len(),
{
    if items.len() == 0 {
        Seq::empty()
    } else {
        match items.last() {
            FlowItem::Inline(_) => wrapped_blocks(style, items.drop_last()),
            FlowItem::Block(block) => (wrapped_blocks(style, items.drop_last())
                + anonymous_blocks(style, trailing_inlines(items.drop_last()))).push(block),
        }
    }
}

/// The container, styled `style`, of the boxes `items`: an inline formatting
/// context if `items` holds inline content and no block; otherwise a list of
/// blocks in which every run of inline content is wrapped in an anonymous
/// block.
pub open spec fn block_container(
    style: ComputedValues,
    items: Seq<FlowItem>,
) -> BlockContainerView {
    let pending = trailing_inlines(items);
    let blocks = wrapped_blocks(style, items);
    if pending.len() > 0 && blocks.len() == 0 {
        BlockContainerView::InlineFormattingContext(pending)
    } else {
        BlockContainerView::BlockLevels(blocks + anonymous_blocks(style, pending))
    }
}

/// The inline box of style `style` around the inline content `run`; nothing
/// for an empty run.
pub open spec fn inline_boxes(style: ComputedValues, run: Seq<InlineLevelView>) -> Seq<FlowItem> {
    if run.len() == 0 {
        Seq::empty()
    } else {
        seq![FlowItem::Inline(InlineLevelView::Inline { style, children: run })]
    }
}

/// What fragments of an inline element styled `style` contribute to its
/// parent: for each, an inline box around its inline content, if any, then
/// its block.
pub open spec fn boxed_fragments(style: ComputedValues, fragments: Seq<Fragment>) -> Seq<FlowItem>
    decreases fragments.len(),
{
    if fragments.len() == 0 {
        Seq::empty()
    } else {
        (boxed_fragments(style, fragments.drop_last()) + inline_boxes(
            style,
            fragments.last().0,
        )).push(FlowItem::Block(fragments.last().1))
    }
}

/// What an inline element styled `style` whose children contribute `items`
/// contributes to its parent: its blocks go up unchanged, and each run of
/// inline content between them is wrapped in an inline box of its style.
pub open spec fn inline_element_items(style: ComputedValues, items: Seq<FlowItem>) -> Seq<
    FlowItem,
> {
    boxed_fragments(style, fragments_of(items)) + inline_boxes(style, trailing_inlines(items))
}

/// What the nodes `children`, children of the element `parent` styled
/// `style`, contribute in order: text extends or starts a text run, an
/// element contributes its boxes, any other node nothing.
pub open spec fn child_items(
    user_agent: Seq<Rule>,
    author: Seq<Rule>,
    document: Document,
    parent: NodeId,
    style: ComputedValues,
    children: Seq<NodeId>,
) -> Seq<FlowItem>
    decreases document.len_spec() - parent, 0int, children.len(),
{
    if children.len() == 0 {
        Seq::empty()
    } else {
        let before = child_items(user_agent, author, document, parent, style, children.drop_last());
        let child = children.last();
        if parent < child < document.len_spec() {
            match document.data_spec(child) {
                NodeData::Text { contents } => push_text(before, contents@),
                NodeData::Element(_) => before + element_items(
                    user_agent,
                    author,
                    document,
                    child,
                    cascaded_style(user_agent, author, document, child, Some(style)),
                ),
                _ => before,
            }
        } else {
            before
        }
    }
}

/// What the element `node`, resolved to `style`, contributes to its parent:
/// nothing with `display: none`, whatever stands below it; one block box
/// around the container of its children as a block; the boxes of
/// `inline_element_items` as an inline.
pub open spec fn element_items(
    user_agent: Seq<Rule>,
    author: Seq<Rule>,
    document: Document,
    node: NodeId,
    style: ComputedValues,
) -> Seq<FlowItem>
    decreases document.len_spec() - node, 1int, 0int,
{
    match style.display {
        Display::NoBox => Seq::empty(),
        Display::Other { outside: DisplayOutside::Inline, inside: DisplayInside::Flow } => {
            inline_element_items(
                style,
                child_items(user_agent, author, document, node, style, document.children(node)),
            )
        },
        Display::Other { outside: DisplayOutside::Block, inside: DisplayInside::Flow } => {
            seq![
                FlowItem::Block(
                    BlockLevelView {
                        style,
                        contents: block_container(
                            style,
                            child_items(
                                user_agent,
                                author,
                                document,
                                node,
                                style,
                                document.children(node),
                            ),
                        ),
                    },
                ),
            ]
        },
    }
}

/// The box tree of a document whose root element is `root`: the container,
/// with initial style, of what the root element contributes.
pub open spec fn box_tree_of(
    user_agent: Seq<Rule>,
    author: Seq<Rule>,
    document: Document,
    root: NodeId,
) -> BlockContainerView {
    block_container(
        ComputedValues::inheriting_from(
            ComputedValues::initial_spec(),
            ComputedValues::initial_spec(),
        ),
        element_items(
            user_agent,
            author,
            document,
            root,
            cascaded_style(user_agent, author, document, root, None),
        ),
    )
}

/// What a builder does with a block that its walk completes. This is the
/// one thing in which the builder of a block container and the builder of an
/// inline element differ.
trait PushBlock: Sized {
    /// Whether `self` holds what this kind of builder keeps of the boxes
    /// `items` pushed into a container styled `style`.
    spec fn holds(self, style: ComputedValues, items: Seq<FlowItem>) -> bool;

    /// Inline content changes nothing in what is kept.
    proof fn lemma_holds_after_inline(
        self,
        style: ComputedValues,
        items: Seq<FlowItem>,
        inline: InlineLevelView,
    )
        requires
            self.holds(style, items),
        ensures
            self.holds(style, items.push(FlowItem::Inline(inline))),
    ;

    /// Text changes nothing in what is kept.
    proof fn lemma_holds_after_text(
        self,
        style: ComputedValues,
        items: Seq<FlowItem>,
        text: Seq<char>,
    )
        requires
            self.holds(style, items),
        ensures
            self.holds(style, push_text(items, text)),
    ;

    /// The state of a builder into which nothing was pushed.
    fn new() -> (extra: Self)
        ensures
            forall|style: ComputedValues| #[trigger] extra.holds(style, Seq::empty()),
    ;

    /// Takes a finished block into `builder`, after whatever this kind of
    /// builder does with the inline content pending before it.
    fn push_block(builder: &mut Builder<Self>, block: BlockLevel)
        requires
            super::inline_levels_view(old(builder).consecutive_inline_levels@) == trailing_inlines(
                old(builder).items@,
            ),
            old(builder).extra.holds(*old(builder).style, old(builder).items@),
        ensures
            super::inline_levels_view(final(builder).consecutive_inline_levels@)
                == trailing_inlines(final(builder).items@),
            final(builder).extra.holds(*final(builder).style, final(builder).items@),
            final(builder).items@ == old(builder).items@.push(FlowItem::Block(block@)),
            final(builder).style == old(builder).style,
    ;
}

/// Gathers the boxes that the children of one element contribute.
struct Builder<Extra> {
    style: Rc<ComputedValues>,
    consecutive_inline_levels: Vec<InlineLevel>,
    extra: Extra,
    items: Ghost<Seq<FlowItem>>,
}

/// The builder of an inline element sets each block aside with the inline
/// content before it, for the element's parent to place.
struct InlineBuilderExtra {
    self_fragments_split_by_block_levels: Vec<(Vec<InlineLevel>, BlockLevel)>,
}

/// The builder of a block container keeps the blocks, each preceded by an
/// anonymous block around the inline content before it.
struct BlockContainerBuilderExtra {
    block_levels: Vec<BlockLevel>,
}

spec fn fragments_view(fragments: Seq<(Vec<InlineLevel>, BlockLevel)>) -> Seq<Fragment>
    decreases fragments.len(),
{
    if fragments.len() == 0 {
        Seq::empty()
    } else {
        fragments_view(fragments.drop_last()).push(
            (super::inline_levels_view(fragments.last().0@), fragments.last().1@),
        )
    }
}

proof fn lemma_inline_levels_view_push(inlines: Seq<InlineLevel>, inline: InlineLevel)
    ensures
        super::inline_levels_view(inlines.push(inline)) == super::inline_levels_view(inlines).push(
            inline@,
        ),
{
    assert(inlines.push(inline).drop_last() == inlines);
}

proof fn lemma_block_levels_view_push(blocks: Seq<BlockLevel>, block: BlockLevel)
    ensures
        super::block_levels_view(blocks.push(block)) == super::block_levels_view(blocks).push(
            block@,
        ),
{
    assert(blocks.push(block).drop_last() == blocks);
}

proof fn lemma_inline_levels_view_len(inlines: Seq<InlineLevel>)
    ensures
        super::inline_levels_view(inlines).len() == inlines.len(),
    decreases inlines.len(),
{
    if inlines.len() > 0 {
        lemma_inline_levels_view_len(inlines.drop_last());
    }
}

proof fn lemma_block_levels_view_len(blocks: Seq<BlockLevel>)
    ensures
        super::block_levels_view(blocks).len() == blocks.len(),
    decreases blocks.len(),
{
    if blocks.len() > 0 {
        lemma_block_levels_view_len(blocks.drop_last());
    }
}

/// Where a sequence ends with inline content, its last box is the last of
/// that content.
pub proof fn lemma_trailing_inlines_last(items: Seq<FlowItem>)
    ensures
        trailing_inlines(items).len() > 0 ==> items.len() > 0 && items.last() == FlowItem::Inline(
            trailing_inlines(items).last(),
        ) && trailing_inlines(items).drop_last() == trailing_inlines(items.drop_last()),
{
}

/// Text changes the inline content that a sequence ends with, and no block.
proof fn lemma_push_text(style: ComputedValues, items: Seq<FlowItem>, text: Seq<char>)
    ensures
        fragments_of(push_text(items, text)) == fragments_of(items),
        wrapped_blocks(style, push_text(items, text)) == wrapped_blocks(style, items),
        trailing_inlines(push_text(items, text)) == (if trailing_inlines(items).len() > 0
            && trailing_inlines(items).last() is Text {
            trailing_inlines(items).drop_last().push(
                InlineLevelView::Text(trailing_inlines(items).last()->Text_0 + text),
            )
        } else {
            trailing_inlines(items).push(InlineLevelView::Text(text))
        }),
{
    lemma_trailing_inlines_last(items);
    let after = push_text(items, text);
    if items.len() > 0 && items.last() is Inline && items.last()->Inline_0 is Text {
        assert(after.drop_last() =~= items.drop_last());
    } else {
        assert(after.drop_last() =~= items);
    }
}

/// Takes the contents of `inlines` and leaves it empty.
fn take(inlines: &mut Vec<InlineLevel>) -> (taken: Vec<InlineLevel>)
    ensures
        taken == *old(inlines),
        final(inlines)@ == Seq::<InlineLevel>::empty(),
{
    let mut taken: Vec<InlineLevel> = Vec::new();
    std::mem::swap(inlines, &mut taken);
    taken
}

impl PushBlock for InlineBuilderExtra {
    spec fn holds(self, style: ComputedValues, items: Seq<FlowItem>) -> bool {
        fragments_view(self.self_fragments_split_by_block_levels@) == fragments_of(items)
    }

    proof fn lemma_holds_after_inline(
        self,
        style: ComputedValues,
        items: Seq<FlowItem>,
        inline: InlineLevelView,
    ) {
        assert(items.push(FlowItem::Inline(inline)).drop_last() =~= items);
    }

    proof fn lemma_holds_after_text(
        self,
        style: ComputedValues,
        items: Seq<FlowItem>,
        text: Seq<char>,
    ) {
        lemma_push_text(style, items, text);
    }

    fn new() -> (extra: Self) {
        InlineBuilderExtra { self_fragments_split_by_block_levels: Vec::new() }
    }

    fn push_block(builder: &mut Builder<Self>, block: BlockLevel) {
        let ghost fragments = builder.extra.self_fragments_split_by_block_levels@;
        let ghost after = builder.items@.push(FlowItem::Block(block@));
        let inlines = take(&mut builder.consecutive_inline_levels);
        proof {
            assert(after.drop_last() =~= builder.items@);
            assert(fragments.push((inlines, block)).drop_last() =~= fragments);
        }
        builder.extra.self_fragments_split_by_block_levels.push((inlines, block));
        builder.items = Ghost(after);
    }
}

impl PushBlock for BlockContainerBuilderExtra {
    spec fn holds(self, style: ComputedValues, items: Seq<FlowItem>) -> bool {
        super::block_levels_view(self.block_levels@) == wrapped_blocks(style, items)
    }

    proof fn lemma_holds_after_inline(
        self,
        style: ComputedValues,
        items: Seq<FlowItem>,
        inline: InlineLevelView,
    ) {
        assert(items.push(FlowItem::Inline(inline)).drop_last() =~= items);
    }

    proof fn lemma_holds_after_text(
        self,
        style: ComputedValues,
        items: Seq<FlowItem>,
        text: Seq<char>,
    ) {
        lemma_push_text(style, items, text);
    }

    fn new() -> (extra: Self) {
        BlockContainerBuilderExtra { block_levels: Vec::new() }
    }

    fn push_block(builder: &mut Builder<Self>, block: BlockLevel) {
        let ghost after = builder.items@.push(FlowItem::Block(block@));
        proof {
            assert(after.drop_last() =~= builder.items@);
            lemma_inline_levels_view_len(builder.consecutive_inline_levels@);
        }
        if !builder.consecutive_inline_levels.is_empty() {
            builder.wrap_inlines_in_anonymous_block();
        }
        proof {
            lemma_block_levels_view_push(builder.extra.block_levels@, block);
        }
        builder.extra.block_levels.push(block);
        builder.items = Ghost(after);
    }
}

impl<Extra: PushBlock> Builder<Extra> {
    /// The fields hold what the boxes pushed so far, `items`, come to.
    spec fn inv(self) -> bool {
        &&& super::inline_levels_view(self.consecutive_inline_levels@) == trailing_inlines(
            self.items@,
        )
        &&& self.extra.holds(*self.style, self.items@)
    }

    /// A builder for the contents of an element styled `style`.
    fn new(style: Rc<ComputedValues>) -> (builder: Self)
        ensures
            builder.inv(),
            builder.items@ == Seq::<FlowItem>::empty(),
            builder.style == style,
    {
        Builder {
            style,
            consecutive_inline_levels: Vec::new(),
            extra: Extra::new(),
            items: Ghost(Seq::empty()),
        }
    }

    /// Pushes what the children of `parent_element` contribute, in order.
    fn push_child_elements(
        &mut self,
        user_agent: &StyleSet,
        author_styles: &StyleSet,
        document: &Document,
        parent_element: NodeId,
    )
        requires
            old(self).inv(),
            old(self).items@ == Seq::<FlowItem>::empty(),
            document.wf(),
            parent_element < document.len_spec(),
        ensures
            final(self).inv(),
            final(self).items@ == child_items(
                user_agent.rules_spec(),
                author_styles.rules_spec(),
                *document,
                parent_element,
                *old(self).style,
                document.children(parent_element),
            ),
            final(self).style == old(self).style,
        decreases document.len_spec() - parent_element, 0int,
    {
        let ghost children = document.children(parent_element);
        let ghost style = self.style;
        let ghost mut k: int = 0;
        let mut next = document.first_child(parent_element);
        proof {
            document.lemma_children_in_range(parent_element);
        }
        while next.is_some()
            invariant
                self.inv(),
                document.wf(),
                parent_element < document.len_spec(),
                children == document.children(parent_element),
                0 <= k <= children.len(),
                document.siblings_from(next) == children.skip(k),
                next matches Some(n) ==> n < document.len_spec(),
                forall|j: int|
                    0 <= j < children.len() ==> parent_element < (#[trigger] children[j])
                        < document.len_spec(),
                self.items@ == child_items(
                    user_agent.rules_spec(),
                    author_styles.rules_spec(),
                    *document,
                    parent_element,
                    *style,
                    children.take(k),
                ),
                self.style == style,
            decreases children.len() - k,
        {
            let child = next.unwrap();
            proof {
                document.lemma_siblings_from_some(child);
                let rest = document.siblings_from(document.next_sibling_spec(child));
                assert(children.skip(k)[0] == child);
                assert((seq![child] + rest).drop_first() =~= rest);
                assert(children.take(k + 1).drop_last() =~= children.take(k));
            }
            match document.data(child) {
                NodeData::Text { contents } => {
                    self.push_text(contents);
                },
                NodeData::Element(_) => {
                    let child_style = cascade(
                        user_agent,
                        author_styles,
                        document,
                        child,
                        Some(&*self.style),
                    );
                    self.push_element(user_agent, author_styles, document, child, child_style);
                },
                _ => {},
            }
            next = document.next_sibling(child);
            proof {
                k = k + 1;
            }
        }
        proof {
            document.lemma_siblings_from_none();
            assert(children.take(k) =~= children);
        }
    }

    /// Pushes `text`: onto the text run that the pending inline content ends
    /// with, or as a new run.
    fn push_text(&mut self, text: &String)
        requires
            old(self).inv(),
        ensures
            final(self).inv(),
            final(self).items@ == push_text(old(self).items@, text@),
            final(self).style == old(self).style,
    {
        let ghost pending = self.consecutive_inline_levels@;
        proof {
            lemma_push_text(*self.style, self.items@, text@);
            lemma_inline_levels_view_len(pending);
            if pending.len() > 0 {
                assert(super::inline_levels_view(pending).last() == pending.last()@);
                assert(super::inline_levels_view(pending).drop_last()
                    =~= super::inline_levels_view(pending.drop_last()));
            }
        }
        match self.consecutive_inline_levels.pop() {
            Some(InlineLevel::Text(mut last_text)) => {
                last_text.append(text.as_str());
                let run = InlineLevel::Text(last_text);
                proof {
                    lemma_inline_levels_view_push(self.consecutive_inline_levels@, run);
                }
                self.consecutive_inline_levels.push(run);
            },
            Some(last) => {
                let run = InlineLevel::Text(text.clone());
                proof {
                    assert(pending.drop_last().push(last) =~= pending);
                    lemma_inline_levels_view_push(pending, run);
                }
                self.consecutive_inline_levels.push(last);
                self.consecutive_inline_levels.push(run);
            },
            None => {
                let run = InlineLevel::Text(text.clone());
                proof {
                    lemma_inline_levels_view_push(pending, run);
                }
                self.consecutive_inline_levels.push(run);
            },
        }
        proof {
            self.extra.lemma_holds_after_text(*self.style, self.items@, text@);
        }
        self.items = Ghost(push_text(self.items@, text@));
    }

    /// Pushes an inline box.
    fn push_inline(&mut self, inline: InlineLevel)
        requires
            old(self).inv(),
        ensures
            final(self).inv(),
            final(self).items@ == old(self).items@.push(FlowItem::Inline(inline@)),
            final(self).style == old(self).style,
    {
        proof {
            lemma_inline_levels_view_push(self.consecutive_inline_levels@, inline);
            let after = self.items@.push(FlowItem::Inline(inline@));
            assert(after.drop_last() =~= self.items@);
            self.extra.lemma_holds_after_inline(*self.style, self.items@, inline@);
        }
        self.consecutive_inline_levels.push(inline);
        self.items = Ghost(self.items@.push(FlowItem::Inline(inline@)));
    }

    /// Pushes what the element `element`, resolved to `style`, contributes.
    fn push_element(
        &mut self,
        user_agent: &StyleSet,
        author_styles: &StyleSet,
        document: &Document,
        element: NodeId,
        style: Rc<ComputedValues>,
    )
        requires
            old(self).inv(),
            document.wf(),
            element < document.len_spec(),
            document.data_spec(element) is Element,
        ensures
            final(self).inv(),
            final(self).items@ == old(self).items@ + element_items(
                user_agent.rules_spec(),
                author_styles.rules_spec(),
                *document,
                element,
                *style,
            ),
            final(self).style == old(self).style,
        decreases document.len_spec() - element, 1int,
    {
        let ghost start = self.items@;
        let display = style.display;
        match display {
            Display::NoBox => {},
            Display::Other { outside: DisplayOutside::Inline, inside: DisplayInside::Flow } => {
                let mut builder = Builder::<InlineBuilderExtra>::new(style);
                builder.push_child_elements(user_agent, author_styles, document, element);
                let ghost all = builder.extra.self_fragments_split_by_block_levels@;
                let ghost own_style = self.style;
                for fragment in iter: builder.extra.self_fragments_split_by_block_levels
                    invariant
                        iter.seq() == all,
                        self.inv(),
                        self.items@ == start + boxed_fragments(
                            *builder.style,
                            fragments_view(all.take(iter.index() as int)),
                        ),
                        self.style == own_style,
                {
                    let ghost done = fragments_view(all.take(iter.index() as int));
                    let (previous_grand_children, block) = fragment;
                    proof {
                        assert(all.take(iter.index() + 1).drop_last() =~= all.take(
                            iter.index() as int,
                        ));
                        lemma_inline_levels_view_len(previous_grand_children@);
                        assert(fragments_view(all.take(iter.index() + 1)).drop_last() =~= done);
                    }
                    if !previous_grand_children.is_empty() {
                        self.push_inline(
                            InlineLevel::Inline {
                                style: Rc::clone(&builder.style),
                                children: previous_grand_children,
                            },
                        );
                    }
                    Extra::push_block(self, block);
                    proof {
                        let boxes = inline_boxes(
                            *builder.style,
                            super::inline_levels_view(previous_grand_children@),
                        );
                        assert(self.items@ =~= start + (boxed_fragments(*builder.style, done)
                            + boxes).push(FlowItem::Block(block@)));
                    }
                }
                let grand_children = builder.consecutive_inline_levels;
                proof {
                    assert(all.take(all.len() as int) =~= all);
                    lemma_inline_levels_view_len(grand_children@);
                }
                let ghost boxed = boxed_fragments(*builder.style, fragments_view(all));
                if !grand_children.is_empty() {
                    self.push_inline(
                        InlineLevel::Inline { style: builder.style, children: grand_children },
                    );
                }
                proof {
                    assert(self.items@ =~= start + (boxed + inline_boxes(
                        *builder.style,
                        super::inline_levels_view(grand_children@),
                    )));
                }
            },
            Display::Other { outside: DisplayOutside::Block, inside: DisplayInside::Flow } => {
                let mut builder = Builder::<BlockContainerBuilderExtra>::new(style);
                builder.push_child_elements(user_agent, author_styles, document, element);
                let (style, contents) = builder.build();
                let block = BlockLevel::SameFormattingContextBlock { style, contents };
                Extra::push_block(self, block);
                proof {
                    assert(start.push(FlowItem::Block(block@)) =~= start + seq![
                        FlowItem::Block(block@),
                    ]);
                }
            },
        }
    }
}

impl Builder<BlockContainerBuilderExtra> {
    /// Moves the pending inline content into an anonymous block at the end
    /// of the blocks.
    fn wrap_inlines_in_anonymous_block(&mut self)
        requires
            old(self).consecutive_inline_levels@.len() > 0,
        ensures
            super::block_levels_view(final(self).extra.block_levels@) == super::block_levels_view(
                old(self).extra.block_levels@,
            ) + anonymous_blocks(
                *old(self).style,
                super::inline_levels_view(old(self).consecutive_inline_levels@),
            ),
            final(self).consecutive_inline_levels@ == Seq::<InlineLevel>::empty(),
            final(self).style == old(self).style,
            final(self).items == old(self).items,
    {
        proof {
            lemma_inline_levels_view_len(self.consecutive_inline_levels@);
        }
        let block = BlockLevel::SameFormattingContextBlock {
            style: Rc::new(ComputedValues::anonymous_inheriting_from(&self.style)),
            contents: BlockContainer::InlineFormattingContext(
                take(&mut self.consecutive_inline_levels),
            ),
        };
        proof {
            lemma_block_levels_view_push(self.extra.block_levels@, block);
        }
        self.extra.block_levels.push(block);
    }

    /// The container of the boxes gathered, with the builder's style.
    fn build(self) -> (built: (Rc<ComputedValues>, BlockContainer))
        requires
            self.inv(),
        ensures
            built.0 == self.style,
            built.1@ == block_container(*self.style, self.items@),
    {
        let mut builder = self;
        proof {
            lemma_inline_levels_view_len(builder.consecutive_inline_levels@);
            lemma_block_levels_view_len(builder.extra.block_levels@);
        }
        if !builder.consecutive_inline_levels.is_empty() {
            if builder.extra.block_levels.is_empty() {
                return (
                    builder.style,
                    BlockContainer::InlineFormattingContext(builder.consecutive_inline_levels),
                );
            }
            builder.wrap_inlines_in_anonymous_block();
        }
        (builder.style, BlockContainer::BlockLevels(builder.extra.block_levels))
    }
}

/// Builds the box tree of `document`, whose root element is `root_element`:
/// the root is resolved without a parent, every other element against the
/// style of the element that holds it, each exactly once, and none below an
/// element with `display: none`.
pub fn build_box_tree(
    user_agent: &StyleSet,
    author_styles: &StyleSet,
    document: &Document,
    root_element: NodeId,
) -> (tree: BoxTreeRoot)
    requires
        document.wf(),
        root_element < document.len_spec(),
        document.data_spec(root_element) is Element,
    ensures
        tree@ == box_tree_of(
            user_agent.rules_spec(),
            author_styles.rules_spec(),
            *document,
            root_element,
        ),
        block_container_ok(tree@),
{
    let root_element_style = cascade(user_agent, author_styles, document, root_element, None);
    // Anonymous blocks that wrap inlines at the root level get initial
    // styles: they have no parent element to inherit from.
    let initial = ComputedValues::initial();
    let initial_values = Rc::new(ComputedValues::new_inheriting_from(&initial, &initial));
    let mut builder = Builder::<BlockContainerBuilderExtra>::new(initial_values);
    builder.push_element(user_agent, author_styles, document, root_element, root_element_style);
    proof {
        lemma_box_tree_well_formed(
            user_agent.rules_spec(),
            author_styles.rules_spec(),
            *document,
            root_element,
        );
    }
    let (_, block) = builder.build();
    BlockFormattingContext(block)
}

impl Document {
    /// The box tree of the document under the built-in rules and the author
    /// rules `author_styles`, or `None` if the document has no root element.
    pub fn render(&self, author_styles: &StyleSet) -> (tree: Option<BoxTreeRoot>)
        requires
            self.wf(),
        ensures
            match self.first_element_in(self.children(0)) {
                Some(root) => tree matches Some(boxes) && block_container_ok(boxes@)
                    && forall|user_agent: Seq<Rule>|
                    is_user_agent_sheet(user_agent) ==> boxes@ == #[trigger] box_tree_of(
                        user_agent,
                        author_styles.rules_spec(),
                        *self,
                        root,
                    ),
                None => tree is None,
            },
    {
        let user_agent = StyleSet::user_agent();
        let tree = self.box_tree(&user_agent, author_styles);
        proof {
            if let Some(root) = self.first_element_in(self.children(0)) {
                assert forall|other: Seq<Rule>| is_user_agent_sheet(other) implies tree->0@
                    == #[trigger] box_tree_of(other, author_styles.rules_spec(), *self, root) by {
                    lemma_user_agent_sheets_agree(user_agent.rules_spec(), other);
                    lemma_box_tree_alike(
                        user_agent.rules_spec(),
                        other,
                        author_styles.rules_spec(),
                        *self,
                        root,
                    );
                }
            }
        }
        tree
    }

    /// The box tree of the document under the built-in rules `user_agent`
    /// and the author rules `author_styles`, or `None` if the document has
    /// no root element.
    pub fn box_tree(&self, user_agent: &StyleSet, author_styles: &StyleSet) -> (tree: Option<
        BoxTreeRoot,
    >)
        requires
            self.wf(),
        ensures
            match self.first_element_in(self.children(0)) {
                Some(root) => tree matches Some(boxes) && block_container_ok(boxes@) && boxes@
                    == box_tree_of(
                    user_agent.rules_spec(),
                    author_styles.rules_spec(),
                    *self,
                    root,
                ),
                None => tree is None,
            },
    {
        match self.root_element() {
            Some(root_element) => Some(
                build_box_tree(user_agent, author_styles, self, root_element),
            ),
            None => None,
        }
    }
}

} // verus!
