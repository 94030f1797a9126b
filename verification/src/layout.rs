//! The tree of boxes that layout works on, and its mathematical view.

pub mod box_generation;
pub mod shape;

use crate::style::properties::ComputedValues;
use std::rc::Rc;
use vstd::prelude::*;

verus! {

/// The box tree of a whole document.
pub type BoxTreeRoot = BlockFormattingContext;

/// A block formatting context, here always the one of the root.
#[derive(Debug, PartialEq, Eq)]
pub struct BlockFormattingContext(pub BlockContainer);

/// Either block-level boxes only, or inline-level content only.
#[derive(Debug, PartialEq, Eq)]
pub enum BlockContainer {
    BlockLevels(Vec<BlockLevel>),
    InlineFormattingContext(Vec<InlineLevel>),
}

/// A box that takes part in its parent as a block.
#[derive(Debug, PartialEq, Eq)]
pub enum BlockLevel {
    SameFormattingContextBlock { style: Rc<ComputedValues>, contents: BlockContainer },
}

/// A piece of inline content: a text run, or a box of further inline content.
#[derive(Debug, PartialEq, Eq)]
pub enum InlineLevel {
    Text(String),
    Inline { style: Rc<ComputedValues>, children: Vec<InlineLevel> },
}

/// What an `InlineLevel` stands for.
pub enum InlineLevelView {
    Text(Seq<char>),
    Inline { style: ComputedValues, children: Seq<InlineLevelView> },
}

/// What a `BlockLevel` stands for.
pub struct BlockLevelView {
    pub style: ComputedValues,
    pub contents: BlockContainerView,
}

/// What a `BlockContainer` stands for.
pub enum BlockContainerView {
    BlockLevels(Seq<BlockLevelView>),
    InlineFormattingContext(Seq<InlineLevelView>),
}

pub open spec fn inline_level_view(inline: InlineLevel) -> InlineLevelView
    decreases inline,
{
    match inline {
        InlineLevel::Text(text) => InlineLevelView::Text(text@),
        InlineLevel::Inline { style, children } => InlineLevelView::Inline {
            style: *style,
            children: inline_levels_view(children@),
        },
    }
}

pub open spec fn inline_levels_view(inlines: Seq<InlineLevel>) -> Seq<InlineLevelView>
    decreases inlines,
{
    if inlines.len() == 0 {
        Seq::empty()
    } else {
        inline_levels_view(inlines.drop_last()).push(inline_level_view(inlines.last()))
    }
}

pub open spec fn block_level_view(block: BlockLevel) -> BlockLevelView
    decreases block,
{
    match block {
        BlockLevel::SameFormattingContextBlock { style, contents } => BlockLevelView {
            style: *style,
            contents: block_container_view(contents),
        },
    }
}

pub open spec fn block_levels_view(blocks: Seq<BlockLevel>) -> Seq<BlockLevelView>
    decreases blocks,
{
    if blocks.len() == 0 {
        Seq::empty()
    } else {
        block_levels_view(blocks.drop_last()).push(block_level_view(blocks.last()))
    }
}

pub open spec fn block_container_view(container: BlockContainer) -> BlockContainerView
    decreases container,
{
    match container {
        BlockContainer::BlockLevels(blocks) => BlockContainerView::BlockLevels(
            block_levels_view(blocks@),
        ),
        BlockContainer::InlineFormattingContext(inlines) => {
            BlockContainerView::InlineFormattingContext(inline_levels_view(inlines@))
        },
    }
}

impl View for InlineLevel {
    type V = InlineLevelView;

    open spec fn view(&self) -> InlineLevelView {
        inline_level_view(*self)
    }
}

impl View for BlockLevel {
    type V = BlockLevelView;

    open spec fn view(&self) -> BlockLevelView {
        block_level_view(*self)
    }
}

impl View for BlockContainer {
    type V = BlockContainerView;

    open spec fn view(&self) -> BlockContainerView {
        block_container_view(*self)
    }
}

impl View for BlockFormattingContext {
    type V = BlockContainerView;

    open spec fn view(&self) -> BlockContainerView {
        block_container_view(self.0)
    }
}

} // verus!
