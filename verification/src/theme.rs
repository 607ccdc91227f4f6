//! The page's light/dark theme: which one is in force, the palette the
//! canvases draw with, and the toggle button.

use vstd::prelude::*;

verus! {

/// The theme in force: the page's `data-theme` attribute when it says
/// `"dark"` or `"light"`, else the system preference (`false` when the
/// media query is unavailable).
pub open spec fn spec_is_dark(attr: Option<Seq<char>>, prefers_dark: bool) -> bool {
    match attr {
        Some(t) => if t == "dark"@ {
            true
        } else if t == "light"@ {
            false
        } else {
            prefers_dark
        },
        None => prefers_dark,
    }
}

/// Whether the dark theme is in force, given the page's `data-theme`
/// attribute and the system preference.
pub fn is_dark(attr: Option<&str>, prefers_dark: bool) -> (dark: bool)
    ensures
        dark == spec_is_dark(
            match attr {
                Some(t) => Some(t@),
                None => None,
            },
            prefers_dark,
        ),
{
    match attr {
        Some(t) => {
            let owned = t.to_owned();
            if owned == "dark".to_owned() {
                true
            } else if owned == "light".to_owned() {
                false
            } else {
                prefers_dark
            }
        },
        None => prefers_dark,
    }
}

/// The colours the canvases draw with.
pub struct Palette {
    pub accent: &'static str,
    pub muted: &'static str,
    pub line: &'static str,
}

/// The palette of the theme in force.
pub fn pal(dark: bool) -> (p: Palette)
    ensures
        dark ==> p.accent@ == "#2997ff"@ && p.muted@ == "#86868b"@ && p.line@ == "#2a2a2c"@,
        !dark ==> p.accent@ == "#0071e3"@ && p.muted@ == "#6e6e73"@ && p.line@ == "#d2d2d7"@,
{
    if dark {
        Palette { accent: "#2997ff", muted: "#86868b", line: "#2a2a2c" }
    } else {
        Palette { accent: "#0071e3", muted: "#6e6e73", line: "#d2d2d7" }
    }
}

/// The `data-theme` value the toggle button switches to.
pub fn next_theme(dark: bool) -> (t: &'static str)
    ensures
        dark ==> t@ == "light"@,
        !dark ==> t@ == "dark"@,
{
    if dark {
        "light"
    } else {
        "dark"
    }
}

/// The toggle button's label: the theme a press switches to.
pub fn toggle_label(dark: bool) -> (label: &'static str)
    ensures
        dark ==> label@ == "Light"@,
        !dark ==> label@ == "Dark"@,
{
    if dark {
        "Light"
    } else {
        "Dark"
    }
}

/// Pressing the toggle always flips the theme, whatever the system
/// preference: the value it writes makes the opposite theme the one in force.
pub proof fn lemma_toggle_flips(dark: bool, prefers_dark: bool)
    ensures
        dark ==> spec_is_dark(Some("light"@), prefers_dark) == false,
        !dark ==> spec_is_dark(Some("dark"@), prefers_dark) == true,
{
    reveal_strlit("light");
    reveal_strlit("dark");
    assert("light"@[0] != "dark"@[0]);
}

} // verus!
