//! Which entries of a directory are shown.

use vstd::prelude::*;
use vstd::string::*;
use crate::args::Config;
use crate::args::ConfigView;
use crate::text::same_text;
use crate::text::starts_with_char;
use crate::tree::Entry;

verus! {

/// A hidden name starts with a dot.
pub open spec fn is_hidden(name: Seq<char>) -> bool {
    name.len() > 0 && name[0] == '.'
}

/// An entry is shown unless it is no directory where only directories are
/// wanted, is hidden where hidden entries are not wanted, or bears a name
/// that is ignored.
pub open spec fn displayed(name: Seq<char>, is_dir: bool, config: ConfigView) -> bool {
    &&& config.display_only_dirs ==> is_dir
    &&& is_hidden(name) ==> config.display_hidden
    &&& !config.ignored_dirs.contains(name)
}

/// Whether the entry is shown under `config`.
pub open spec fn shown(config: ConfigView, entry: Entry) -> bool {
    displayed(entry.name@, entry.is_dir(), config)
}

/// Decides whether an entry with this name is shown.
pub fn should_display(name: &str, is_dir: bool, config: &Config) -> (r: bool)
    ensures
        r == displayed(name@, is_dir, config@),
{
    if !is_dir && config.display_only_dirs {
        return false;
    }
    if !config.display_hidden && starts_with_char(name, '.') {
        return false;
    }
    let ghost ignored = config@.ignored_dirs;
    let mut i: usize = 0;
    while i < config.ignored_dirs.len()
        invariant
            i <= config.ignored_dirs.len(),
            ignored == config.ignored_dirs.deep_view(),
            ignored.len() == config.ignored_dirs.len(),
            forall|j: int| 0 <= j < i ==> ignored[j] != name@,
        decreases config.ignored_dirs.len() - i,
    {
        assert(ignored[i as int] == config.ignored_dirs[i as int]@);
        if same_text(config.ignored_dirs[i].as_str(), name) {
            return false;
        }
        i += 1;
    }
    true
}

/// Decides whether the size of a file with this name is looked at: where
/// sizes are shown and the file is.
pub fn should_measure(name: &str, config: &Config) -> (r: bool)
    ensures
        r == (config.display_bytes && displayed(name@, false, config@)),
{
    config.display_bytes && should_display(name, false, config)
}

} // verus!
