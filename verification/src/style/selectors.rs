//! Compound selectors: matching against an element, and the weight that
//! orders rules.

use crate::dom::{Document, ElementData, NodeData, NodeId};
use vstd::prelude::*;

verus! {

/// One condition on an element.
#[derive(Clone, Debug, PartialEq, Eq)]
pub enum SimpleSelector {
    /// `*`
    Universal,
    /// `name`
    LocalName(String),
    /// `#id`
    Id(String),
    /// `.class`
    Class(String),
}

/// A compound selector: an element matches when it meets every component.
/// The weight is computed once, when the selector is made.
#[derive(Clone, Debug, PartialEq, Eq)]
pub struct Selector {
    components: Vec<SimpleSelector>,
    specificity: u32,
}

/// Largest count that one field of a specificity holds.
pub const MAX_COUNT: u32 = 1023;

/// Number of `#id` components.
pub open spec fn count_ids(components: Seq<SimpleSelector>) -> nat
    decreases components.len(),
{
    if components.len() == 0 {
        0
    } else {
        count_ids(components.drop_last()) + if components.last() is Id {
            1nat
        } else {
            0nat
        }
    }
}

/// Number of `.class` components.
pub open spec fn count_classes(components: Seq<SimpleSelector>) -> nat
    decreases components.len(),
{
    if components.len() == 0 {
        0
    } else {
        count_classes(components.drop_last()) + if components.last() is Class {
            1nat
        } else {
            0nat
        }
    }
}

/// Number of element-name components.
pub open spec fn count_names(components: Seq<SimpleSelector>) -> nat
    decreases components.len(),
{
    if components.len() == 0 {
        0
    } else {
        count_names(components.drop_last()) + if components.last() is LocalName {
            1nat
        } else {
            0nat
        }
    }
}

pub open spec fn capped(count: nat) -> nat {
    if count < MAX_COUNT {
        count
    } else {
        MAX_COUNT as nat
    }
}

/// The weight of a compound selector: ids weigh more than any number of
/// classes, classes more than any number of names; each count stops at
/// `MAX_COUNT`.
pub open spec fn specificity_of(components: Seq<SimpleSelector>) -> nat {
    capped(count_ids(components)) * 1048576 + capped(count_classes(components)) * 1024 + capped(
        count_names(components),
    )
}

/// Whether `element` has `class` among its classes.
pub open spec fn has_class(element: ElementData, class: Seq<char>) -> bool {
    exists|k: int| 0 <= k < element.classes@.len() && (#[trigger] element.classes@[k])@ == class
}

/// Whether `element` meets `component`.
pub open spec fn component_matches(component: SimpleSelector, element: ElementData) -> bool {
    match component {
        SimpleSelector::Universal => true,
        SimpleSelector::LocalName(name) => element.name@ == name@,
        SimpleSelector::Id(id) => element.id matches Some(own) && own@ == id@,
        SimpleSelector::Class(class) => has_class(element, class@),
    }
}

impl Selector {
    pub closed spec fn components_spec(self) -> Seq<SimpleSelector> {
        self.components@
    }

    pub closed spec fn specificity_spec(self) -> u32 {
        self.specificity
    }

    /// The stored weight is the weight of the components.
    pub closed spec fn wf(self) -> bool {
        self.specificity == specificity_of(self.components@)
    }

    /// Whether the selector matches node `node` of `document`: the node is an
    /// element that meets every component.
    pub open spec fn matches_spec(self, document: Document, node: NodeId) -> bool {
        document.data_spec(node) matches NodeData::Element(element) && forall|i: int|
            0 <= i < self.components_spec().len() ==> component_matches(
                #[trigger] self.components_spec()[i],
                element,
            )
    }

    /// Makes the selector with the given components and computes its weight.
    pub fn new(components: Vec<SimpleSelector>) -> (selector: Selector)
        ensures
            selector.wf(),
            selector.components_spec() == components@,
            selector.specificity_spec() == specificity_of(components@),
    {
        let mut ids: u32 = 0;
        let mut classes: u32 = 0;
        let mut names: u32 = 0;
        let mut i: usize = 0;
        while i < components.len()
            invariant
                0 <= i <= components.len(),
                ids == capped(count_ids(components@.take(i as int))),
                classes == capped(count_classes(components@.take(i as int))),
                names == capped(count_names(components@.take(i as int))),
            decreases components.len() - i,
        {
            proof {
                assert(components@.take(i + 1).drop_last() == components@.take(i as int));
            }
            match &components[i] {
                SimpleSelector::Universal => {},
                SimpleSelector::LocalName(_) => {
                    if names < MAX_COUNT {
                        names = names + 1;
                    }
                },
                SimpleSelector::Id(_) => {
                    if ids < MAX_COUNT {
                        ids = ids + 1;
                    }
                },
                SimpleSelector::Class(_) => {
                    if classes < MAX_COUNT {
                        classes = classes + 1;
                    }
                },
            }
            i = i + 1;
        }
        proof {
            assert(components@.take(components@.len() as int) == components@);
        }
        let specificity = ids * 1048576 + classes * 1024 + names;
        Selector { components, specificity }
    }

    /// The weight computed when the selector was made.
    pub fn specificity(&self) -> (weight: u32)
        ensures
            weight == self.specificity_spec(),
    {
        self.specificity
    }

    pub fn components(&self) -> (components: &Vec<SimpleSelector>)
        ensures
            components@ == self.components_spec(),
    {
        &self.components
    }
}

fn element_has_class(element: &ElementData, class: &String) -> (found: bool)
    ensures
        found == has_class(*element, class@),
{
    let mut k: usize = 0;
    while k < element.classes.len()
        invariant
            0 <= k <= element.classes.len(),
            forall|j: int| 0 <= j < k ==> (#[trigger] element.classes@[j])@ != class@,
        decreases element.classes.len() - k,
    {
        if element.classes[k] == *class {
            return true;
        }
        k = k + 1;
    }
    false
}

fn matches_component(component: &SimpleSelector, element: &ElementData) -> (matched: bool)
    ensures
        matched == component_matches(*component, *element),
{
    match component {
        SimpleSelector::Universal => true,
        SimpleSelector::LocalName(name) => element.name == *name,
        SimpleSelector::Id(id) => match &element.id {
            Some(own) => *own == *id,
            None => false,
        },
        SimpleSelector::Class(class) => element_has_class(element, class),
    }
}

/// Whether `selector` matches node `node` of `document`.
pub fn matches(selector: &Selector, document: &Document, node: NodeId) -> (matched: bool)
    requires
        node < document.len_spec(),
    ensures
        matched == selector.matches_spec(*document, node),
{
    match document.data(node) {
        NodeData::Element(element) => {
            let mut i: usize = 0;
            while i < selector.components.len()
                invariant
                    0 <= i <= selector.components.len(),
                    document.data_spec(node) == NodeData::Element(*element),
                    forall|j: int|
                        0 <= j < i ==> component_matches(
                            #[trigger] selector.components@[j],
                            *element,
                        ),
                decreases selector.components.len() - i,
            {
                if !matches_component(&selector.components[i], element) {
                    assert(!component_matches(selector.components_spec()[i as int], *element));
                    return false;
                }
                i = i + 1;
            }
            true
        },
        _ => false,
    }
}

} // verus!
