//! Longhand properties, declarations and the computed style of an element.

use super::values::{Display, Length, Rgba};
use vstd::prelude::*;

verus! {

/// The properties an element's style is resolved for.
#[derive(Copy, Clone, Debug, PartialEq, Eq, Structural)]
pub enum LonghandId {
    Color,
    FontSize,
    Display,
    BackgroundColor,
}

/// One property together with a value for it, as written in a rule.
#[derive(Copy, Clone, Debug, PartialEq, Eq, Structural)]
pub enum LonghandDeclaration {
    Color(Rgba),
    FontSize(Length),
    Display(Display),
    BackgroundColor(Rgba),
}

/// The resolved value of every property for one element.
#[derive(Copy, Clone, Debug, PartialEq, Eq, Structural)]
pub struct ComputedValues {
    pub color: Rgba,
    pub font_size: Length,
    pub display: Display,
    pub background_color: Rgba,
}

impl LonghandId {
    /// Whether an element takes its parent's value for this property when no
    /// rule sets it.
    pub open spec fn inherited_spec(self) -> bool {
        self is Color || self is FontSize
    }

    #[verifier::when_used_as_spec(inherited_spec)]
    pub fn inherited(self) -> (b: bool)
        ensures
            b == self.inherited_spec(),
    {
        match self {
            LonghandId::Color => true,
            LonghandId::FontSize => true,
            LonghandId::Display => false,
            LonghandId::BackgroundColor => false,
        }
    }
}

impl LonghandDeclaration {
    /// The property this declaration sets.
    pub open spec fn id_spec(self) -> LonghandId {
        match self {
            LonghandDeclaration::Color(_) => LonghandId::Color,
            LonghandDeclaration::FontSize(_) => LonghandId::FontSize,
            LonghandDeclaration::Display(_) => LonghandId::Display,
            LonghandDeclaration::BackgroundColor(_) => LonghandId::BackgroundColor,
        }
    }

    #[verifier::when_used_as_spec(id_spec)]
    pub fn id(self) -> (id: LonghandId)
        ensures
            id == self.id_spec(),
    {
        match self {
            LonghandDeclaration::Color(_) => LonghandId::Color,
            LonghandDeclaration::FontSize(_) => LonghandId::FontSize,
            LonghandDeclaration::Display(_) => LonghandId::Display,
            LonghandDeclaration::BackgroundColor(_) => LonghandId::BackgroundColor,
        }
    }

    /// The style that results from writing this declaration over `computed`:
    /// its own property takes the declared value, every other one is kept.
    pub open spec fn applied_to(self, computed: ComputedValues) -> ComputedValues {
        match self {
            LonghandDeclaration::Color(c) => ComputedValues { color: c, ..computed },
            LonghandDeclaration::FontSize(s) => ComputedValues { font_size: s, ..computed },
            LonghandDeclaration::Display(d) => ComputedValues { display: d, ..computed },
            LonghandDeclaration::BackgroundColor(c) => ComputedValues {
                background_color: c,
                ..computed
            },
        }
    }

    /// Writes this declaration's value into `computed`.
    pub fn cascade_into(&self, computed: &mut ComputedValues)
        ensures
            *final(computed) == self.applied_to(*old(computed)),
    {
        match self {
            LonghandDeclaration::Color(c) => {
                computed.color = *c;
            },
            LonghandDeclaration::FontSize(s) => {
                computed.font_size = *s;
            },
            LonghandDeclaration::Display(d) => {
                computed.display = *d;
            },
            LonghandDeclaration::BackgroundColor(c) => {
                computed.background_color = *c;
            },
        }
    }
}

impl ComputedValues {
    /// The value of property `id` in this style, in the form of a declaration.
    pub open spec fn longhand_spec(self, id: LonghandId) -> LonghandDeclaration {
        match id {
            LonghandId::Color => LonghandDeclaration::Color(self.color),
            LonghandId::FontSize => LonghandDeclaration::FontSize(self.font_size),
            LonghandId::Display => LonghandDeclaration::Display(self.display),
            LonghandId::BackgroundColor => LonghandDeclaration::BackgroundColor(
                self.background_color,
            ),
        }
    }

    #[verifier::when_used_as_spec(longhand_spec)]
    pub fn longhand(self, id: LonghandId) -> (d: LonghandDeclaration)
        ensures
            d == self.longhand_spec(id),
    {
        match id {
            LonghandId::Color => LonghandDeclaration::Color(self.color),
            LonghandId::FontSize => LonghandDeclaration::FontSize(self.font_size),
            LonghandId::Display => LonghandDeclaration::Display(self.display),
            LonghandId::BackgroundColor => LonghandDeclaration::BackgroundColor(
                self.background_color,
            ),
        }
    }

    /// Every property at its initial value: black 16px text, inline display,
    /// transparent background.
    pub open spec fn initial_spec() -> ComputedValues {
        ComputedValues {
            color: Rgba::black_spec(),
            font_size: Length { px: 16 },
            display: Display::inline_spec(),
            background_color: Rgba::transparent_spec(),
        }
    }

    #[verifier::when_used_as_spec(initial_spec)]
    pub fn initial() -> (style: ComputedValues)
        ensures
            style == ComputedValues::initial_spec(),
    {
        ComputedValues {
            color: Rgba::black(),
            font_size: Length { px: 16 },
            display: Display::inline(),
            background_color: Rgba::transparent(),
        }
    }

    /// The style an element starts from before any rule applies: inherited
    /// properties come from `inherited`, all others from `initial`.
    pub open spec fn inheriting_from(
        inherited: ComputedValues,
        initial: ComputedValues,
    ) -> ComputedValues {
        ComputedValues {
            color: inherited.color,
            font_size: inherited.font_size,
            display: initial.display,
            background_color: initial.background_color,
        }
    }

    pub fn new_inheriting_from(inherited: &ComputedValues, initial: &ComputedValues) -> (style:
        ComputedValues)
        ensures
            style == ComputedValues::inheriting_from(*inherited, *initial),
            forall|id: LonghandId|
                #[trigger] style.longhand_spec(id) == if id.inherited_spec() {
                    inherited.longhand_spec(id)
                } else {
                    initial.longhand_spec(id)
                },
    {
        let style = ComputedValues {
            color: inherited.color,
            font_size: inherited.font_size,
            display: initial.display,
            background_color: initial.background_color,
        };
        assert forall|id: LonghandId|
            #[trigger] style.longhand_spec(id) == if id.inherited_spec() {
                inherited.longhand_spec(id)
            } else {
                initial.longhand_spec(id)
            } by {
            match id {
                LonghandId::Color => {},
                LonghandId::FontSize => {},
                LonghandId::Display => {},
                LonghandId::BackgroundColor => {},
            }
        }
        style
    }

    /// The style of an anonymous box under a box styled `parent`.
    pub open spec fn anonymous_style(parent: ComputedValues) -> ComputedValues {
        ComputedValues::inheriting_from(parent, ComputedValues::initial_spec())
    }

    /// The style of a box that stands for no element: it inherits from
    /// `parent` and is otherwise initial.
    pub fn anonymous_inheriting_from(parent: &ComputedValues) -> (style: ComputedValues)
        ensures
            style == ComputedValues::anonymous_style(*parent),
    {
        let initial = ComputedValues::initial();
        ComputedValues::new_inheriting_from(parent, &initial)
    }
}

/// A declaration changes its own property and no other.
pub proof fn lemma_applied_longhand(
    declaration: LonghandDeclaration,
    computed: ComputedValues,
    id: LonghandId,
)
    ensures
        declaration.applied_to(computed).longhand_spec(id) == if declaration.id_spec() == id {
            declaration
        } else {
            computed.longhand_spec(id)
        },
{
}

} // verus!
