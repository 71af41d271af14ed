//! Configuration values the commands run under.  Discovery (config
//! file, environment, multiplexer detection) and the focus action live
//! with the caller; the library holds the plain values.

use vstd::prelude::*;

verus! {

/// Configuration: the command template used to focus a pane, the
/// checkbox style, and whether the interactive view uses colors.
#[derive(Debug, Clone)]
pub struct Config {
    /// Command to focus a pane, with `{pane_id}` as placeholder.
    pub focus_command: Option<String>,
    /// Checkbox style name.
    pub checkbox_style: String,
    /// Whether display output uses colors.
    pub colors: bool,
}

impl Default for Config {
    /// The defaults: no focus command, bracket checkboxes, colors on.
    fn default() -> (r: Self)
        ensures
            r.focus_command is None,
            r.checkbox_style@ == "brackets"@,
            r.colors == true,
    {
        Config {
            focus_command: None,
            checkbox_style: String::from_str("brackets"),
            colors: true,
        }
    }
}

} // verus!
