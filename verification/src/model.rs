//! Leaf-free config-model primitives shared by every app in the family: the whole-app presentation
//! enums ([`Density`], [`OpenOnLaunch`]), the non-fatal [`Warning`], the logic-free [`Group<T>`]
//! container (generic over each app's own tab type), and the shared field defaults.
use vstd::prelude::*;

verus! {

/// UI density: a whole-app presentation mode that scales the chrome's type and spacing as a unit.
///
/// - `Comfortable` (default): the standard sizing.
/// - `Compact`: proportionally condensed type and spacing for denser tab lists.
///
/// Its config token is the lowercase variant name (`comfortable` / `compact`), which
/// [`Density::as_str`] returns.
#[derive(Debug, Clone, Copy, PartialEq, Eq, Structural)]
pub enum Density {
    Comfortable,
    Compact,
}

/// The token the chrome's `data-density` attribute uses for `d`.
pub open spec fn density_token(d: Density) -> Seq<char> {
    match d {
        Density::Comfortable => "comfortable"@,
        Density::Compact => "compact"@,
    }
}

impl Density {
    /// The token the chrome's `data-density` attribute uses.
    pub fn as_str(self) -> (r: &'static str)
        ensures
            r@ == density_token(self),
    {
        match self {
            Density::Comfortable => "comfortable",
            Density::Compact => "compact",
        }
    }
}

impl Default for Density {
    /// `Comfortable`, the standard sizing.
    fn default() -> (r: Density)
        ensures
            r == Density::Comfortable,
    {
        Density::Comfortable
    }
}

/// Two densities with the same token are the same density.
pub proof fn lemma_density_token_injective(a: Density, b: Density)
    requires
        density_token(a) == density_token(b),
    ensures
        a == b,
{
    reveal_strlit("comfortable");
    reveal_strlit("compact");
    assert("comfortable"@.len() == 11);
    assert("compact"@.len() == 7);
}

/// What to open when a window launches. The default (`false` / unset) opens the first loaded tab,
/// else the blank background; `true` opens the first tab even if it isn't loaded; a string opens
/// the tab whose title matches (falling back to the first).
#[derive(Debug, Clone, PartialEq)]
pub enum OpenOnLaunch {
    Toggle(bool),
    Tab(String),
}

impl Default for OpenOnLaunch {
    /// `Toggle(false)`: open the first loaded tab.
    fn default() -> (r: OpenOnLaunch)
        ensures
            r == OpenOnLaunch::Toggle(false),
    {
        OpenOnLaunch::Toggle(false)
    }
}

/// A non-fatal config issue surfaced to the user without rejecting the config.
#[derive(Debug, Clone, PartialEq)]
pub struct Warning {
    pub window: String,
    pub message: String,
}

/// A named group of tabs, generic over each app's own tab type: presentation (the section `name`)
/// and its tabs, with no leaf meaning of its own.
#[derive(Debug, Clone, PartialEq)]
pub struct Group<T> {
    pub name: String,
    pub tabs: Vec<T>,
}

/// Default for a `bool` field that defaults to `true`.
pub fn default_true() -> (r: bool)
    ensures
        r,
{
    true
}

/// Default for a window's `width`: the shared 1500px starting size.
pub fn default_window_width() -> (r: u32)
    ensures
        r == 1500,
{
    1500
}

/// Default for a window's `height`: the shared 1000px starting size.
pub fn default_window_height() -> (r: u32)
    ensures
        r == 1000,
{
    1000
}

}
