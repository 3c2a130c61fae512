//! The user's settings: source and target directories, whether deletions
//! are mirrored, and the exclusion rules.

use vstd::prelude::*;
use crate::exclude::default_excludes;
use vstd::string::StrSliceExecFns;

verus! {

/// The user's settings.
pub struct Config {
    pub src: String,
    pub dst: String,
    pub delete_removed: bool,
    pub excludes: Vec<String>,
}

/// The views of a list of strings.
pub open spec fn string_views(v: Seq<String>) -> Seq<Seq<char>> {
    v.map_values(|s: String| s@)
}

impl Config {
    /// The settings with the default exclusion rules filled in when none
    /// are configured.
    pub fn with_default_excludes(self) -> (c: Config)
        ensures
            c.src == self.src,
            c.dst == self.dst,
            c.delete_removed == self.delete_removed,
            self.excludes@.len() == 0 ==> string_views(c.excludes@) == seq![
                ".git"@,
                ".svn"@,
                "node_modules"@,
                "__pycache__"@,
                "target"@,
                "*.tmp"@,
                "*.swp"@,
            ],
            self.excludes@.len() > 0 ==> c.excludes@ == self.excludes@,
    {
        if self.excludes.len() == 0 {
            Config { excludes: default_excludes(), ..self }
        } else {
            self
        }
    }

    /// Adds an exclusion rule; an empty rule is not added.
    pub fn add_exclude(&mut self, rule: String) -> (added: bool)
        ensures
            added == (rule@.len() > 0),
            final(self).excludes@ == if added { old(self).excludes@.push(rule) } else { old(self).excludes@ },
            final(self).src == old(self).src,
            final(self).dst == old(self).dst,
            final(self).delete_removed == old(self).delete_removed,
    {
        if rule.as_str().unicode_len() == 0 {
            false
        } else {
            self.excludes.push(rule);
            true
        }
    }

    /// Removes the exclusion rule at `i`.
    pub fn remove_exclude(&mut self, i: usize)
        requires
            i < old(self).excludes@.len(),
        ensures
            final(self).excludes@ == old(self).excludes@.remove(i as int),
            final(self).src == old(self).src,
            final(self).dst == old(self).dst,
            final(self).delete_removed == old(self).delete_removed,
    {
        let _gone = self.excludes.remove(i);
    }
}

} // verus!
