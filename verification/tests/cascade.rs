use std::rc::Rc;
use victor::dom::{Document, ElementData, NodeData, NodeId};
use victor::style::properties::{ComputedValues, LonghandDeclaration, LonghandId};
use victor::style::selectors::{Selector, SimpleSelector};
use victor::style::style_set::{cascade, CssRule, InvalidRule, StyleSet, StyleSetBuilder};
use victor::style::values::{Display, DisplayInside, DisplayOutside, Length, Rgba};

const RED: Rgba = Rgba { red: 255, green: 0, blue: 0, alpha: 255 };
const GREEN: Rgba = Rgba { red: 0, green: 128, blue: 0, alpha: 255 };
const BLUE: Rgba = Rgba { red: 0, green: 0, blue: 255, alpha: 255 };

fn name(n: &str) -> Selector {
    Selector::new(vec![SimpleSelector::LocalName(n.to_string())])
}

fn class(n: &str) -> Selector {
    Selector::new(vec![SimpleSelector::Class(n.to_string())])
}

fn id(n: &str) -> Selector {
    Selector::new(vec![SimpleSelector::Id(n.to_string())])
}

fn rule(selectors: Vec<Selector>, declarations: Vec<LonghandDeclaration>) -> CssRule {
    CssRule::StyleRule { selectors, declarations: Rc::new(declarations) }
}

fn style_set(rules: Vec<CssRule>) -> StyleSet {
    let mut builder = StyleSetBuilder::new();
    for r in rules {
        builder.add_rule(r);
    }
    builder.finish()
}

fn empty() -> StyleSet {
    StyleSetBuilder::new().finish()
}

fn one_element(name: &str, id: Option<&str>, classes: &[&str]) -> (Document, NodeId) {
    let mut document = Document::new();
    let node = document.append_child(
        0,
        NodeData::Element(ElementData {
            name: name.to_string(),
            id: id.map(|s| s.to_string()),
            classes: classes.iter().map(|s| s.to_string()).collect(),
        }),
    );
    (document, node)
}

#[test]
fn initial_values() {
    let initial = ComputedValues::initial();
    assert_eq!(initial.color, Rgba { red: 0, green: 0, blue: 0, alpha: 255 });
    assert_eq!(initial.font_size, Length { px: 16 });
    assert_eq!(
        initial.display,
        Display::Other { outside: DisplayOutside::Inline, inside: DisplayInside::Flow }
    );
    assert_eq!(initial.background_color, Rgba { red: 0, green: 0, blue: 0, alpha: 0 });
    assert_eq!(Display::inline(), initial.display);
    assert_eq!(
        Display::block(),
        Display::Other { outside: DisplayOutside::Block, inside: DisplayInside::Flow }
    );
}

#[test]
fn inherited_properties_are_color_and_font_size() {
    assert!(LonghandId::Color.inherited());
    assert!(LonghandId::FontSize.inherited());
    assert!(!LonghandId::Display.inherited());
    assert!(!LonghandId::BackgroundColor.inherited());
}

#[test]
fn declarations_name_their_property_and_set_only_it() {
    let declarations = [
        (LonghandDeclaration::Color(RED), LonghandId::Color),
        (LonghandDeclaration::FontSize(Length { px: 9 }), LonghandId::FontSize),
        (LonghandDeclaration::Display(Display::NoBox), LonghandId::Display),
        (LonghandDeclaration::BackgroundColor(BLUE), LonghandId::BackgroundColor),
    ];
    let all = [
        LonghandId::Color,
        LonghandId::FontSize,
        LonghandId::Display,
        LonghandId::BackgroundColor,
    ];
    for (declaration, own) in declarations {
        assert_eq!(declaration.id(), own);
        let mut computed = ComputedValues::initial();
        declaration.cascade_into(&mut computed);
        for other in all {
            if other == own {
                assert_eq!(computed.longhand(other), declaration);
            } else {
                assert_eq!(computed.longhand(other), ComputedValues::initial().longhand(other));
            }
        }
    }
}

#[test]
fn new_style_takes_inherited_properties_from_the_parent() {
    let parent = ComputedValues {
        color: RED,
        font_size: Length { px: 30 },
        display: Display::block(),
        background_color: BLUE,
    };
    let style = ComputedValues::new_inheriting_from(&parent, &ComputedValues::initial());
    assert_eq!(
        style,
        ComputedValues {
            color: RED,
            font_size: Length { px: 30 },
            display: Display::inline(),
            background_color: Rgba::transparent(),
        }
    );
    assert_eq!(ComputedValues::anonymous_inheriting_from(&parent), style);
}

#[test]
fn root_without_rules_gets_initial_values() {
    let (document, node) = one_element("x", None, &[]);
    let style = cascade(&empty(), &empty(), &document, node, None);
    assert_eq!(*style, ComputedValues::initial());
}

#[test]
fn child_without_rules_inherits() {
    let (document, node) = one_element("x", None, &[]);
    let parent = ComputedValues {
        color: GREEN,
        font_size: Length { px: 12 },
        display: Display::block(),
        background_color: RED,
    };
    let style = cascade(&empty(), &empty(), &document, node, Some(&parent));
    assert_eq!(
        *style,
        ComputedValues {
            color: GREEN,
            font_size: Length { px: 12 },
            display: Display::inline(),
            background_color: Rgba::transparent(),
        }
    );
}

#[test]
fn cascade_is_deterministic() {
    let (document, node) = one_element("p", Some("a"), &["b"]);
    let author = style_set(vec![
        rule(vec![name("p")], vec![LonghandDeclaration::Color(RED)]),
        rule(vec![class("b")], vec![LonghandDeclaration::FontSize(Length { px: 20 })]),
    ]);
    let user_agent = StyleSet::user_agent();
    let parent = ComputedValues::initial();
    let first = cascade(&user_agent, &author, &document, node, Some(&parent));
    let second = cascade(&user_agent, &author, &document, node, Some(&parent));
    assert_eq!(first, second);
    assert_eq!(
        *first,
        ComputedValues {
            color: RED,
            font_size: Length { px: 20 },
            display: Display::block(),
            background_color: Rgba::transparent(),
        }
    );
}

#[test]
fn later_declaration_in_a_rule_wins() {
    let (document, node) = one_element("p", None, &[]);
    let author = style_set(vec![rule(
        vec![name("p")],
        vec![
            LonghandDeclaration::Color(RED),
            LonghandDeclaration::BackgroundColor(GREEN),
            LonghandDeclaration::Color(BLUE),
        ],
    )]);
    let style = cascade(&empty(), &author, &document, node, None);
    assert_eq!(style.color, BLUE);
    assert_eq!(style.background_color, GREEN);
}

#[test]
fn author_rule_beats_heavier_built_in_rule() {
    let (document, node) = one_element("p", Some("a"), &[]);
    let built_in = style_set(vec![rule(
        vec![id("a")],
        vec![LonghandDeclaration::Color(RED), LonghandDeclaration::Display(Display::block())],
    )]);
    let author = style_set(vec![rule(vec![name("p")], vec![LonghandDeclaration::Color(GREEN)])]);
    let style = cascade(&built_in, &author, &document, node, None);
    assert_eq!(style.color, GREEN);
    // What the author leaves alone stays as the built-in rule set it.
    assert_eq!(style.display, Display::block());
}

#[test]
fn heavier_author_rule_wins_whatever_the_order() {
    let (document, node) = one_element("p", Some("a"), &["b"]);
    for rules in [
        vec![
            rule(vec![id("a")], vec![LonghandDeclaration::Color(RED)]),
            rule(vec![class("b")], vec![LonghandDeclaration::Color(GREEN)]),
            rule(vec![name("p")], vec![LonghandDeclaration::Color(BLUE)]),
        ],
        vec![
            rule(vec![name("p")], vec![LonghandDeclaration::Color(BLUE)]),
            rule(vec![class("b")], vec![LonghandDeclaration::Color(GREEN)]),
            rule(vec![id("a")], vec![LonghandDeclaration::Color(RED)]),
        ],
    ] {
        let style = cascade(&empty(), &style_set(rules), &document, node, None);
        assert_eq!(style.color, RED);
    }
}

#[test]
fn later_author_rule_wins_among_equal_weights() {
    let (document, node) = one_element("p", None, &["b", "c"]);
    let author = style_set(vec![
        rule(vec![class("b")], vec![LonghandDeclaration::Color(RED)]),
        rule(vec![name("p")], vec![LonghandDeclaration::Color(BLUE)]),
        rule(vec![class("c")], vec![LonghandDeclaration::Color(GREEN)]),
    ]);
    let style = cascade(&empty(), &author, &document, node, None);
    assert_eq!(style.color, GREEN);
}

#[test]
fn rules_that_do_not_match_are_passed_over() {
    let (document, node) = one_element("p", None, &[]);
    let author = style_set(vec![
        rule(vec![name("p")], vec![LonghandDeclaration::Color(BLUE)]),
        rule(vec![id("a")], vec![LonghandDeclaration::Color(RED)]),
        rule(vec![name("div")], vec![LonghandDeclaration::Color(GREEN)]),
    ]);
    let style = cascade(&empty(), &author, &document, node, None);
    assert_eq!(style.color, BLUE);
}

#[test]
fn finish_sorts_by_weight_and_keeps_written_order_among_equals() {
    let mut builder = StyleSetBuilder::new();
    builder.add_rule(rule(
        vec![id("i"), name("a"), class("x")],
        vec![LonghandDeclaration::Color(RED)],
    ));
    builder.add_rule(rule(vec![name("b"), class("y")], vec![LonghandDeclaration::Color(GREEN)]));
    builder.add_rule(rule(vec![name("c")], vec![LonghandDeclaration::Color(BLUE)]));
    let set = builder.finish();
    let order: Vec<Selector> = set.rules().iter().map(|r| r.0.clone()).collect();
    assert_eq!(order, vec![name("a"), name("b"), name("c"), class("x"), class("y"), id("i")]);
    let weights: Vec<u32> = set.rules().iter().map(|r| r.0.specificity()).collect();
    assert_eq!(weights, vec![1, 1, 1, 1024, 1024, 1048576]);
    assert_eq!(*set.rules()[0].1, vec![LonghandDeclaration::Color(RED)]);
    assert_eq!(*set.rules()[1].1, vec![LonghandDeclaration::Color(GREEN)]);
}

#[test]
fn selectors_of_one_rule_share_its_declarations() {
    let mut builder = StyleSetBuilder::new();
    builder.add_rule(rule(vec![name("a"), name("b")], vec![LonghandDeclaration::Color(RED)]));
    let set = builder.finish();
    assert_eq!(set.rules().len(), 2);
    assert!(Rc::ptr_eq(&set.rules()[0].1, &set.rules()[1].1));
}

#[test]
fn add_stylesheet_skips_rules_that_could_not_be_read() {
    let mut builder = StyleSetBuilder::new();
    builder.add_stylesheet(vec![
        Err(InvalidRule),
        Ok(rule(vec![name("a")], vec![LonghandDeclaration::Color(RED)])),
        Err(InvalidRule),
        Ok(rule(vec![name("b"), name("c")], vec![LonghandDeclaration::Color(BLUE)])),
    ]);
    builder.add_stylesheet(vec![]);
    builder.add_stylesheet(vec![Err(InvalidRule)]);
    builder.add_stylesheet(vec![Ok(rule(vec![name("d")], vec![]))]);
    let set = builder.finish();
    let order: Vec<Selector> = set.rules().iter().map(|r| r.0.clone()).collect();
    assert_eq!(order, vec![name("a"), name("b"), name("c"), name("d")]);
}

#[test]
fn empty_builder_finishes_empty() {
    assert!(StyleSetBuilder::new().finish().rules().is_empty());
}

#[test]
fn cascade_into_applies_matching_rules_in_order() {
    let (document, node) = one_element("p", None, &["b"]);
    let set = style_set(vec![
        rule(vec![class("b")], vec![LonghandDeclaration::FontSize(Length { px: 40 })]),
        rule(vec![name("p")], vec![LonghandDeclaration::FontSize(Length { px: 10 })]),
        rule(vec![name("q")], vec![LonghandDeclaration::Color(RED)]),
    ]);
    let mut computed = ComputedValues { color: GREEN, ..ComputedValues::initial() };
    set.cascade_into(&document, node, &mut computed);
    assert_eq!(
        computed,
        ComputedValues { color: GREEN, font_size: Length { px: 40 }, ..ComputedValues::initial() }
    );
}

#[test]
fn built_in_rules_set_display_by_element_name() {
    let user_agent = StyleSet::user_agent();
    assert_eq!(user_agent.rules().len(), 29);
    for (element, display) in [
        ("html", Display::block()),
        ("body", Display::block()),
        ("div", Display::block()),
        ("p", Display::block()),
        ("h1", Display::block()),
        ("ul", Display::block()),
        ("head", Display::NoBox),
        ("title", Display::NoBox),
        ("script", Display::NoBox),
        ("style", Display::NoBox),
        ("span", Display::inline()),
        ("b", Display::inline()),
        ("a", Display::inline()),
    ] {
        let (document, node) = one_element(element, None, &[]);
        let style = cascade(&user_agent, &empty(), &document, node, None);
        assert_eq!(
            *style,
            ComputedValues { display, ..ComputedValues::initial() },
            "{}",
            element
        );
    }
}
