//! Interface elements, whose border and background take the opacity or
//! stay as they are, as a selector on the node says.

use crate::alpha::Alpha;
use crate::sink::OpacityQuery;
use vstd::prelude::*;

verus! {

/// Which colours of an interface element the opacity controls. An element
/// without this selector is not touched at all.
#[derive(Debug, Clone, Copy, PartialEq, Eq, Default)]
pub enum UiOpacity {
    /// Neither: both stay as they are.
    #[default]
    Neither,
    /// The border colour.
    Border,
    /// The background colour.
    Background,
    /// Border and background colour.
    Both,
}

impl UiOpacity {
    /// Whether the opacity controls the border colour.
    pub open spec fn on_border(self) -> bool {
        self is Border || self is Both
    }

    /// Whether the opacity controls the background colour.
    pub open spec fn on_background(self) -> bool {
        self is Background || self is Both
    }

    /// Whether the opacity controls the border colour.
    pub fn controls_border(self) -> (r: bool)
        ensures
            r == self.on_border(),
    {
        match self {
            UiOpacity::Border | UiOpacity::Both => true,
            UiOpacity::Neither | UiOpacity::Background => false,
        }
    }

    /// Whether the opacity controls the background colour.
    pub fn controls_background(self) -> (r: bool)
        ensures
            r == self.on_background(),
    {
        match self {
            UiOpacity::Background | UiOpacity::Both => true,
            UiOpacity::Neither | UiOpacity::Border => false,
        }
    }
}

/// The colours of an interface element together with its selector.
#[derive(Debug, Clone, Copy, PartialEq, Eq)]
pub struct UiColorQuery {
    /// What the opacity controls.
    pub ui_color: UiOpacity,
    /// The alpha channel of the background colour.
    pub background: Alpha,
    /// The alpha channel of the border colour.
    pub border: Alpha,
}

impl OpacityQuery for UiColorQuery {
    type Cx = ();

    type CxModel = ();

    open spec fn model(cx: ()) -> () {
        ()
    }

    open spec fn applied(self, cx: (), opacity: i64) -> (UiColorQuery, ()) {
        (
            UiColorQuery {
                ui_color: self.ui_color,
                background: if self.ui_color.on_background() {
                    Alpha(opacity)
                } else {
                    self.background
                },
                border: if self.ui_color.on_border() {
                    Alpha(opacity)
                } else {
                    self.border
                },
            },
            (),
        )
    }

    proof fn lemma_applied_twice(self, cx: (), opacity: i64) {
    }

    proof fn lemma_attribute_ignores_context(self, cx: (), other: (), opacity: i64) {
    }

    proof fn lemma_context_taken_again(self, before: (), cx: (), opacity: i64) {
    }

    proof fn lemma_context_overwritten(
        self,
        opacity: i64,
        other: UiColorQuery,
        between: i64,
        cx: (),
    ) {
    }

    fn apply_opacity(this: &mut UiColorQuery, cx: &mut (), opacity: i64) {
        match this.ui_color {
            UiOpacity::Neither => (),
            UiOpacity::Border => {
                this.border.set_alpha(opacity);
            },
            UiOpacity::Background => {
                this.background.set_alpha(opacity);
            },
            UiOpacity::Both => {
                this.border.set_alpha(opacity);
                this.background.set_alpha(opacity);
            },
        }
    }
}

} // verus!
