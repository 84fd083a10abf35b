//! User preferences: the editor to launch, its arguments, the hidden-file
//! preference, the preview bound and the colour theme.
use vstd::prelude::*;
use vstd::string::*;

verus! {

/// Persisted user preferences; each missing field takes its default.
#[derive(Debug, Clone)]
pub struct Config {
    pub editor: String,
    pub editor_args: Vec<String>,
    pub show_hidden: bool,
    pub preview_max_lines: usize,
    pub theme: String,
}

pub fn default_editor() -> (r: String)
    ensures
        r@ == "vim"@,
{
    String::from_str("vim")
}

pub fn default_editor_args() -> (r: Vec<String>)
    ensures
        r@.len() == 0,
{
    Vec::new()
}

pub fn default_show_hidden() -> (r: bool)
    ensures
        r == false,
{
    false
}

pub fn default_preview_max_lines() -> (r: usize)
    ensures
        r == 1000,
{
    1000
}

pub fn default_theme() -> (r: String)
    ensures
        r@ == "base16-ocean.dark"@,
{
    String::from_str("base16-ocean.dark")
}

/// Every field of `c` holds its default.
pub open spec fn is_default_config(c: Config) -> bool {
    &&& c.editor@ == "vim"@
    &&& c.editor_args@.len() == 0
    &&& !c.show_hidden
    &&& c.preview_max_lines == 1000
    &&& c.theme@ == "base16-ocean.dark"@
}

impl Default for Config {
    fn default() -> (r: Config)
        ensures
            is_default_config(r),
    {
        Config {
            editor: default_editor(),
            editor_args: default_editor_args(),
            show_hidden: default_show_hidden(),
            preview_max_lines: default_preview_max_lines(),
            theme: default_theme(),
        }
    }
}

} // verus!
