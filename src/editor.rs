//! The editor launcher's own decisions: which program and arguments to run,
//! and whether a selected path may be handed to it.
use vstd::prelude::*;
use vstd::string::*;
use crate::config::Config;

verus! {

/// The external program that opens a selected path, with its leading arguments.
pub struct Editor {
    pub command: String,
    pub args: Vec<String>,
}

/// What resolving a path (following symlinks) gave.
pub enum Resolution {
    /// The canonical path, and whether something exists there.
    Resolved { real_path: String, real_exists: bool },
    /// Resolution failed, with the reason.
    Failed(String),
}

/// The message that refuses a path, or `None` when it may be opened: a
/// missing path is refused first, then a failed resolution, then a resolved
/// target that does not exist.
pub open spec fn path_error(path: Seq<char>, exists: bool, resolution: Resolution) -> Option<
    Seq<char>,
> {
    if !exists {
        Some("File does not exist: "@ + path)
    } else {
        match resolution {
            Resolution::Resolved { real_path, real_exists } => if real_exists {
                None
            } else {
                Some("Symlink target does not exist: "@ + real_path@)
            },
            Resolution::Failed(e) => Some("Failed to resolve path: "@ + e@),
        }
    }
}

impl Editor {
    pub fn new(config: &Config) -> (e: Editor)
        ensures
            e.command@ == config.editor@,
            e.args.deep_view() == config.editor_args.deep_view(),
    {
        let mut args: Vec<String> = Vec::new();
        let mut i: usize = 0;
        while i < config.editor_args.len()
            invariant
                i <= config.editor_args@.len(),
                args@.len() == i,
                forall|k: int| 0 <= k < i ==> #[trigger] args@[k]@ == config.editor_args@[k]@,
            decreases config.editor_args@.len() - i,
        {
            args.push(config.editor_args[i].clone());
            i = i + 1;
        }
        assert(args.deep_view() =~= config.editor_args.deep_view());
        Editor { command: config.editor.clone(), args }
    }

    /// Checks a selected path before it is opened, from what the filesystem
    /// said of it: whether it exists, and what resolving it gave.
    pub fn validate_path(path: &str, exists: bool, resolution: Resolution) -> (r: Result<(), String>)
        ensures
            match r {
                Ok(_) => path_error(path@, exists, resolution) is None,
                Err(m) => path_error(path@, exists, resolution) == Some(m@),
            },
    {
        if !exists {
            let mut m = String::from_str("File does not exist: ");
            m.append(path);
            return Err(m);
        }
        match resolution {
            Resolution::Resolved { real_path, real_exists } => {
                if !real_exists {
                    let mut m = String::from_str("Symlink target does not exist: ");
                    m.append(real_path.as_str());
                    return Err(m);
                }
            },
            Resolution::Failed(e) => {
                let mut m = String::from_str("Failed to resolve path: ");
                m.append(e.as_str());
                return Err(m);
            },
        }
        Ok(())
    }
}

} // verus!
