//! Names and texts that the whole project shares.

use vstd::prelude::*;

verus! {

/// Project name - used for config file, default directory, CLI branding, etc.
pub const PROJECT_NAME: &'static str = "hypha";

/// Template file name stored in the notes directory
pub const TEMPLATE_FILE: &'static str = ".template.md";

/// Default template for new topics. Placeholder: {title}
pub const DEFAULT_TEMPLATE: &'static str =
    "---\n---\n\n# {title}\n\nBrief description of this topic.\n";

} // verus!
