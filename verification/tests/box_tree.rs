use std::rc::Rc;
use victor::dom::{Document, ElementData, NodeData, NodeId};
use victor::layout::box_generation::build_box_tree;
use victor::layout::{BlockContainer, BlockFormattingContext, BlockLevel, InlineLevel};
use victor::style::properties::{ComputedValues, LonghandDeclaration};
use victor::style::selectors::{Selector, SimpleSelector};
use victor::style::style_set::{CssRule, StyleSet, StyleSetBuilder};
use victor::style::values::{Display, Length, Rgba};

const RED: Rgba = Rgba { red: 255, green: 0, blue: 0, alpha: 255 };

fn element(document: &mut Document, parent: NodeId, name: &str) -> NodeId {
    document.append_child(
        parent,
        NodeData::Element(ElementData { name: name.to_string(), id: None, classes: Vec::new() }),
    )
}

fn text(document: &mut Document, parent: NodeId, contents: &str) -> NodeId {
    document.append_child(parent, NodeData::Text { contents: contents.to_string() })
}

fn no_styles() -> StyleSet {
    StyleSetBuilder::new().finish()
}

fn rule(name: &str, declarations: Vec<LonghandDeclaration>) -> CssRule {
    CssRule::StyleRule {
        selectors: vec![Selector::new(vec![SimpleSelector::LocalName(name.to_string())])],
        declarations: Rc::new(declarations),
    }
}

fn display_rule(name: &str, display: Display) -> CssRule {
    rule(name, vec![LonghandDeclaration::Display(display)])
}

fn styles(rules: Vec<CssRule>) -> StyleSet {
    let mut builder = StyleSetBuilder::new();
    builder.add_stylesheet(rules.into_iter().map(Ok).collect());
    builder.finish()
}

fn initial() -> Rc<ComputedValues> {
    Rc::new(ComputedValues::initial())
}

fn block_style() -> Rc<ComputedValues> {
    Rc::new(ComputedValues { display: Display::block(), ..ComputedValues::initial() })
}

fn run(contents: &str) -> InlineLevel {
    InlineLevel::Text(contents.to_string())
}

fn inline(style: Rc<ComputedValues>, children: Vec<InlineLevel>) -> InlineLevel {
    InlineLevel::Inline { style, children }
}

fn block(style: Rc<ComputedValues>, contents: BlockContainer) -> BlockLevel {
    BlockLevel::SameFormattingContextBlock { style, contents }
}

fn blocks(levels: Vec<BlockLevel>) -> BlockContainer {
    BlockContainer::BlockLevels(levels)
}

fn inlines(levels: Vec<InlineLevel>) -> BlockContainer {
    BlockContainer::InlineFormattingContext(levels)
}

fn tree(contents: BlockContainer) -> BlockFormattingContext {
    BlockFormattingContext(contents)
}

#[test]
fn paragraph_with_bold_is_one_inline_formatting_context() {
    let mut document = Document::new();
    let p = element(&mut document, 0, "p");
    text(&mut document, p, "x");
    let b = element(&mut document, p, "b");
    text(&mut document, b, "y");

    assert_eq!(
        document.render(&no_styles()).unwrap(),
        tree(blocks(vec![block(
            block_style(),
            inlines(vec![run("x"), inline(initial(), vec![run("y")])]),
        )]))
    );
}

#[test]
fn hidden_root_yields_no_boxes() {
    let mut document = Document::new();
    let root = element(&mut document, 0, "html");
    let body = element(&mut document, root, "body");
    text(&mut document, body, "never shown");

    let author = styles(vec![display_rule("html", Display::NoBox)]);
    assert_eq!(document.render(&author).unwrap(), tree(blocks(vec![])));
}

#[test]
fn document_without_root_element_has_no_tree() {
    let mut document = Document::new();
    document.append_child(0, NodeData::Comment { contents: "nothing".to_string() });
    assert_eq!(document.render(&no_styles()), None);
    assert_eq!(document.box_tree(&no_styles(), &no_styles()), None);
}

#[test]
fn adjacent_text_nodes_merge_into_one_run() {
    let mut document = Document::new();
    let span = element(&mut document, 0, "span");
    text(&mut document, span, "ab");
    text(&mut document, span, "cd");

    assert_eq!(
        document.render(&no_styles()).unwrap(),
        tree(inlines(vec![inline(initial(), vec![run("abcd")])]))
    );
}

#[test]
fn text_merges_across_nodes_that_contribute_nothing() {
    let mut document = Document::new();
    let p = element(&mut document, 0, "p");
    text(&mut document, p, "a");
    document.append_child(p, NodeData::Comment { contents: "note".to_string() });
    text(&mut document, p, "b");
    element(&mut document, p, "span");
    text(&mut document, p, "c");
    let hidden = element(&mut document, p, "script");
    text(&mut document, hidden, "zzz");
    text(&mut document, p, "d");
    document.append_child(
        p,
        NodeData::ProcessingInstruction { target: "t".to_string(), contents: "u".to_string() },
    );
    text(&mut document, p, "");
    text(&mut document, p, " e");

    assert_eq!(
        document.render(&no_styles()).unwrap(),
        tree(blocks(vec![block(block_style(), inlines(vec![run("abcd e")]))]))
    );
}

#[test]
fn text_does_not_merge_across_an_inline_box_or_a_block() {
    let mut document = Document::new();
    let body = element(&mut document, 0, "body");
    text(&mut document, body, "a");
    let b = element(&mut document, body, "b");
    text(&mut document, b, "b");
    text(&mut document, body, "c");
    element(&mut document, body, "div");
    text(&mut document, body, "d");

    let anonymous = initial();
    assert_eq!(
        document.render(&no_styles()).unwrap(),
        tree(blocks(vec![block(
            block_style(),
            blocks(vec![
                block(
                    anonymous.clone(),
                    inlines(vec![run("a"), inline(initial(), vec![run("b")]), run("c")]),
                ),
                block(block_style(), blocks(vec![])),
                block(anonymous, inlines(vec![run("d")])),
            ]),
        )]))
    );
}

#[test]
fn display_none_removes_the_element_and_all_below_it() {
    let mut document = Document::new();
    let body = element(&mut document, 0, "body");
    text(&mut document, body, "before");
    let gone = element(&mut document, body, "aside");
    text(&mut document, gone, "hidden text");
    let inner = element(&mut document, gone, "div");
    text(&mut document, inner, "a block that would show");
    let deeper = element(&mut document, inner, "p");
    text(&mut document, deeper, "deeper");
    text(&mut document, body, " after");

    let author = styles(vec![
        display_rule("aside", Display::NoBox),
        display_rule("div", Display::block()),
    ]);
    assert_eq!(
        document.render(&author).unwrap(),
        tree(blocks(vec![block(block_style(), inlines(vec![run("before after")]))]))
    );
}

#[test]
fn inline_element_is_split_around_a_block_child() {
    let mut document = Document::new();
    let body = element(&mut document, 0, "body");
    let span = element(&mut document, body, "span");
    text(&mut document, span, "A");
    let div = element(&mut document, span, "div");
    text(&mut document, div, "B");
    text(&mut document, span, "C");

    let anonymous = initial();
    assert_eq!(
        document.render(&no_styles()).unwrap(),
        tree(blocks(vec![block(
            block_style(),
            blocks(vec![
                block(anonymous.clone(), inlines(vec![inline(initial(), vec![run("A")])])),
                block(block_style(), inlines(vec![run("B")])),
                block(anonymous, inlines(vec![inline(initial(), vec![run("C")])])),
            ]),
        )]))
    );
}

#[test]
fn nested_inline_elements_are_split_at_every_level() {
    // <body>0<i>1<b>2<div>3</div>4</b>5</i>6</body>
    let mut document = Document::new();
    let body = element(&mut document, 0, "body");
    text(&mut document, body, "0");
    let i = element(&mut document, body, "i");
    text(&mut document, i, "1");
    let b = element(&mut document, i, "b");
    text(&mut document, b, "2");
    let div = element(&mut document, b, "div");
    text(&mut document, div, "3");
    text(&mut document, b, "4");
    text(&mut document, i, "5");
    text(&mut document, body, "6");

    let author = styles(vec![
        rule("i", vec![LonghandDeclaration::Color(RED)]),
        rule("b", vec![LonghandDeclaration::FontSize(Length { px: 20 })]),
    ]);
    let i_style = Rc::new(ComputedValues { color: RED, ..ComputedValues::initial() });
    let b_style = Rc::new(ComputedValues {
        color: RED,
        font_size: Length { px: 20 },
        ..ComputedValues::initial()
    });
    let div_style = Rc::new(ComputedValues {
        color: RED,
        font_size: Length { px: 20 },
        display: Display::block(),
        ..ComputedValues::initial()
    });
    let anonymous = initial();
    assert_eq!(
        document.render(&author).unwrap(),
        tree(blocks(vec![block(
            block_style(),
            blocks(vec![
                block(
                    anonymous.clone(),
                    inlines(vec![
                        run("0"),
                        inline(
                            i_style.clone(),
                            vec![run("1"), inline(b_style.clone(), vec![run("2")])],
                        ),
                    ]),
                ),
                block(div_style, inlines(vec![run("3")])),
                block(
                    anonymous,
                    inlines(vec![
                        inline(i_style, vec![inline(b_style, vec![run("4")]), run("5")]),
                        run("6"),
                    ]),
                ),
            ]),
        )]))
    );
}

#[test]
fn inline_element_with_only_a_block_child_leaves_no_inline_box() {
    let mut document = Document::new();
    let body = element(&mut document, 0, "body");
    let span = element(&mut document, body, "span");
    let div = element(&mut document, span, "div");
    text(&mut document, div, "B");

    assert_eq!(
        document.render(&no_styles()).unwrap(),
        tree(blocks(vec![block(
            block_style(),
            blocks(vec![block(block_style(), inlines(vec![run("B")]))]),
        )]))
    );
}

#[test]
fn empty_block_is_an_empty_list_of_blocks() {
    let mut document = Document::new();
    element(&mut document, 0, "div");
    assert_eq!(
        document.render(&no_styles()).unwrap(),
        tree(blocks(vec![block(block_style(), blocks(vec![]))]))
    );
}

#[test]
fn inline_root_stands_in_an_inline_formatting_context() {
    let mut document = Document::new();
    let root = element(&mut document, 0, "html");
    text(&mut document, root, "x");

    let author = styles(vec![display_rule("html", Display::inline())]);
    assert_eq!(
        document.render(&author).unwrap(),
        tree(inlines(vec![inline(initial(), vec![run("x")])]))
    );
}

#[test]
fn inline_root_with_a_block_gets_anonymous_blocks_of_initial_style() {
    let mut document = Document::new();
    let root = element(&mut document, 0, "span");
    text(&mut document, root, "x");
    element(&mut document, root, "div");

    let author = styles(vec![rule("span", vec![LonghandDeclaration::Color(RED)])]);
    let span_style = Rc::new(ComputedValues { color: RED, ..ComputedValues::initial() });
    let div_style = Rc::new(ComputedValues {
        color: RED,
        display: Display::block(),
        ..ComputedValues::initial()
    });
    assert_eq!(
        document.render(&author).unwrap(),
        tree(blocks(vec![
            block(initial(), inlines(vec![inline(span_style, vec![run("x")])])),
            block(div_style, blocks(vec![])),
        ]))
    );
}

#[test]
fn anonymous_block_inherits_from_its_container() {
    let mut document = Document::new();
    let body = element(&mut document, 0, "body");
    text(&mut document, body, "x");
    element(&mut document, body, "p");

    let author = styles(vec![rule(
        "body",
        vec![
            LonghandDeclaration::Color(RED),
            LonghandDeclaration::BackgroundColor(RED),
            LonghandDeclaration::FontSize(Length { px: 7 }),
        ],
    )]);
    let body_style = Rc::new(ComputedValues {
        color: RED,
        font_size: Length { px: 7 },
        display: Display::block(),
        background_color: RED,
    });
    let anonymous = Rc::new(ComputedValues {
        color: RED,
        font_size: Length { px: 7 },
        display: Display::inline(),
        background_color: Rgba::transparent(),
    });
    let p_style = Rc::new(ComputedValues {
        color: RED,
        font_size: Length { px: 7 },
        display: Display::block(),
        background_color: Rgba::transparent(),
    });
    assert_eq!(
        document.render(&author).unwrap(),
        tree(blocks(vec![block(
            body_style,
            blocks(vec![block(anonymous, inlines(vec![run("x")])), block(p_style, blocks(vec![]))]),
        )]))
    );
}

#[test]
fn build_box_tree_uses_the_rule_sets_it_is_given() {
    let mut document = Document::new();
    let p = element(&mut document, 0, "p");
    text(&mut document, p, "x");

    // Without the built-in rules a paragraph is inline like any element.
    assert_eq!(
        build_box_tree(&no_styles(), &no_styles(), &document, p),
        tree(inlines(vec![inline(initial(), vec![run("x")])]))
    );
    let built_in = styles(vec![display_rule("p", Display::NoBox)]);
    let author = styles(vec![display_rule("p", Display::block())]);
    assert_eq!(
        build_box_tree(&built_in, &author, &document, p),
        tree(blocks(vec![block(block_style(), inlines(vec![run("x")]))]))
    );
    assert_eq!(build_box_tree(&built_in, &no_styles(), &document, p), tree(blocks(vec![])));
    assert_eq!(
        document.box_tree(&built_in, &author),
        Some(build_box_tree(&built_in, &author, &document, p))
    );
}

#[test]
fn whole_document_with_head_and_body() {
    let mut document = Document::new();
    document.append_child(0, NodeData::Doctype { name: "html".to_string() });
    let html = element(&mut document, 0, "html");
    let head = element(&mut document, html, "head");
    let title = element(&mut document, head, "title");
    text(&mut document, title, "Title");
    let body = element(&mut document, html, "body");
    let h1 = element(&mut document, body, "h1");
    text(&mut document, h1, "Heading");
    let p = element(&mut document, body, "p");
    text(&mut document, p, "Some ");
    let em = element(&mut document, p, "em");
    text(&mut document, em, "text");
    text(&mut document, p, ".");

    assert_eq!(
        document.render(&no_styles()).unwrap(),
        tree(blocks(vec![block(
            block_style(),
            blocks(vec![block(
                block_style(),
                blocks(vec![
                    block(block_style(), inlines(vec![run("Heading")])),
                    block(
                        block_style(),
                        inlines(vec![run("Some "), inline(initial(), vec![run("text")]), run(".")]),
                    ),
                ]),
            )]),
        )]))
    );
}

fn inline_levels_are_well_formed(levels: &[InlineLevel]) -> bool {
    let merged = levels
        .windows(2)
        .all(|pair| !matches!((&pair[0], &pair[1]), (InlineLevel::Text(_), InlineLevel::Text(_))));
    merged
        && levels.iter().all(|level| match level {
            InlineLevel::Text(_) => true,
            InlineLevel::Inline { children, .. } => {
                !children.is_empty() && inline_levels_are_well_formed(children)
            }
        })
}

fn container_is_well_formed(container: &BlockContainer) -> bool {
    match container {
        BlockContainer::BlockLevels(levels) => levels.iter().all(|level| match level {
            BlockLevel::SameFormattingContextBlock { contents, .. } => {
                container_is_well_formed(contents)
            }
        }),
        BlockContainer::InlineFormattingContext(levels) => {
            !levels.is_empty() && inline_levels_are_well_formed(levels)
        }
    }
}

#[test]
fn every_container_is_blocks_only_or_merged_inline_content_only() {
    // Every mix of text, inline, block and hidden children, three levels deep.
    let names = ["span", "div", "script", "b"];
    let mut count = 0;
    for outer in names {
        for middle in names {
            for inner in names {
                for with_text in [false, true] {
                    let mut document = Document::new();
                    let body = element(&mut document, 0, "body");
                    let mut parent = body;
                    for name in [outer, middle, inner] {
                        if with_text {
                            text(&mut document, parent, "a");
                            text(&mut document, parent, "b");
                        }
                        let child = element(&mut document, parent, name);
                        element(&mut document, parent, "p");
                        if with_text {
                            text(&mut document, parent, "c");
                        }
                        element(&mut document, parent, "i");
                        if with_text {
                            text(&mut document, parent, "d");
                        }
                        parent = child;
                    }
                    let tree = document.render(&no_styles()).unwrap();
                    assert!(container_is_well_formed(&tree.0), "{:?}", tree);
                    count += 1;
                }
            }
        }
    }
    assert_eq!(count, 128);
}
