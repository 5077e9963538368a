use vstd::prelude::*;

use crate::color::Color;

verus! {

/// The style a caller supplies each frame: colors, margin and text settings.
#[derive(Clone)]
pub struct StyleSheet {
    pub colors: StyleSheetColors,
    pub margin: u32,
    pub text: StyleSheetText,
}

#[derive(Clone, Copy)]
pub struct StyleSheetColors {
    pub background: Color,
    pub hover_overlay: Color,
    pub selected_overlay: Color,
    pub red: Color,
    pub yellow: Color,
    pub green: Color,
    pub blue: Color,
    pub purple: Color,
    pub element: Color,
    pub frame: Color,
    pub text: Color,
    pub accent: Color,
    pub editable: Color,
    pub outline: Color,
}

/// The three named text sizes.
#[derive(Clone, Copy, Debug)]
pub struct TextSizes {
    pub small: u32,
    pub medium: u32,
    pub large: u32,
}

/// Text settings: the font family's name and the text sizes.
#[derive(Clone)]
pub struct StyleSheetText {
    pub font_family_name: String,
    pub sizes: TextSizes,
}

impl StyleSheetText {
    pub open spec fn family(&self) -> Seq<char> {
        self.font_family_name@
    }

    pub fn new(family_name: &str, sizes: TextSizes) -> (t: StyleSheetText)
        ensures
            t.family() == family_name@,
            t.sizes == sizes,
    {
        StyleSheetText { font_family_name: family_name.to_owned(), sizes }
    }

    /// Name of the font family.
    pub fn font_family(&self) -> (r: &str)
        ensures
            r@ == self.family(),
    {
        self.font_family_name.as_str()
    }
}

} // verus!
