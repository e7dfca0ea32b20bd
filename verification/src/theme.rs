//! The colour themes and how the one in effect is chosen.

use vstd::prelude::*;

verus! {

/// A colour theme.
#[derive(Clone, Copy, PartialEq, Eq, Debug, Structural)]
pub enum ThemeKind {
    System,
    Dark,
    Light,
    Sakura,
    Monochrome,
}

impl Default for ThemeKind {
    fn default() -> (r: Self)
        ensures
            r == ThemeKind::System,
    {
        ThemeKind::System
    }
}

/// The name under which a theme is listed.
pub open spec fn theme_label(t: ThemeKind) -> Seq<char> {
    match t {
        ThemeKind::System => seq!['S', 'y', 's', 't', 'e', 'm'],
        ThemeKind::Dark => seq!['D', 'a', 'r', 'k'],
        ThemeKind::Light => seq!['L', 'i', 'g', 'h', 't'],
        ThemeKind::Sakura => seq!['S', 'a', 'k', 'u', 'r', 'a'],
        ThemeKind::Monochrome => seq!['M', 'o', 'n', 'o', 'c', 'h', 'r', 'o', 'm', 'e'],
    }
}

impl ThemeKind {
    /// Every theme, in the order the theme menu lists them.
    pub const ALL: [ThemeKind; 5] = [
        ThemeKind::System,
        ThemeKind::Dark,
        ThemeKind::Light,
        ThemeKind::Sakura,
        ThemeKind::Monochrome,
    ];

    /// The name under which the theme is listed.
    pub fn label(&self) -> (r: &'static str)
        ensures
            r@ == theme_label(*self),
    {
        match self {
            ThemeKind::System => {
                let r = "System";
                proof {
                    reveal_strlit("System");
                }
                r
            },
            ThemeKind::Dark => {
                let r = "Dark";
                proof {
                    reveal_strlit("Dark");
                }
                r
            },
            ThemeKind::Light => {
                let r = "Light";
                proof {
                    reveal_strlit("Light");
                }
                r
            },
            ThemeKind::Sakura => {
                let r = "Sakura";
                proof {
                    reveal_strlit("Sakura");
                }
                r
            },
            ThemeKind::Monochrome => {
                let r = "Monochrome";
                proof {
                    reveal_strlit("Monochrome");
                }
                r
            },
        }
    }
}

/// The theme that the operating system's preference stands for.
pub open spec fn system_theme(os_dark: bool) -> ThemeKind {
    if os_dark {
        ThemeKind::Dark
    } else {
        ThemeKind::Light
    }
}

/// The theme that follows the OS preference (`dark_mode` of the
/// platform's visuals).
pub fn resolve_system(os_dark: bool) -> (r: ThemeKind)
    ensures
        r == system_theme(os_dark),
{
    if os_dark {
        ThemeKind::Dark
    } else {
        ThemeKind::Light
    }
}

/// The theme whose colours are applied: `System` follows the OS
/// preference, every other theme is itself.
pub open spec fn effective(kind: ThemeKind, os_dark: bool) -> ThemeKind {
    match kind {
        ThemeKind::System => system_theme(os_dark),
        other => other,
    }
}

/// The theme whose colours `apply` uses for `kind`.
pub fn effective_theme(kind: ThemeKind, os_dark: bool) -> (r: ThemeKind)
    ensures
        r == effective(kind, os_dark),
        r != ThemeKind::System,
{
    match kind {
        ThemeKind::System => resolve_system(os_dark),
        other => other,
    }
}

/// Every theme is listed under its own name.
pub proof fn lemma_labels_distinct(a: ThemeKind, b: ThemeKind)
    requires
        a != b,
    ensures
        theme_label(a) != theme_label(b),
{
    let la = theme_label(a);
    let lb = theme_label(b);
    if la == lb {
        assert(la.len() == lb.len());
        assert(la[0] == lb[0]);
        assert(la[1] == lb[1]);
    }
}

} // verus!
