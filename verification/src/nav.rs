//! Selection and navigation state.
//!
//! Owns the current root path, the root the session started at, and the
//! currently selected path — explicit state passed to consumers, not a
//! process-wide global.  The transitions return whether the caller must
//! rescan; checking that a path exists or is a directory is filesystem work
//! and stays with the caller, which passes the answer in.

use vstd::prelude::*;

verus! {

/// The navigation state of one browsing session.
pub struct Navigator {
    pub root_path: String,
    pub initial_root_path: String,
    pub selected: Option<String>,
}

impl Navigator {
    /// Start a session at `root`: it is both the current and the initial
    /// root, and nothing is selected.
    pub fn new(root: String) -> (nav: Navigator)
        ensures
            nav.root_path == root,
            nav.initial_root_path == root,
            nav.selected is None,
    {
        let initial = root.clone();
        Navigator { root_path: root, initial_root_path: initial, selected: None }
    }

    /// Select `path`, or clear the selection; the roots do not change.
    pub fn select(&mut self, path: Option<String>)
        ensures
            final(self).selected == path,
            final(self).root_path == old(self).root_path,
            final(self).initial_root_path == old(self).initial_root_path,
    {
        self.selected = path;
    }

    /// Move the whole session to a freshly picked `root`: it becomes both
    /// the current and the initial root, and the selection is cleared.
    /// The caller rescans afterwards.
    pub fn set_root(&mut self, root: String)
        ensures
            final(self).root_path == root,
            final(self).initial_root_path == root,
            final(self).selected is None,
    {
        let initial = root.clone();
        self.root_path = root;
        self.initial_root_path = initial;
        self.selected = None;
    }

    /// Drill down into the selection.  Permitted exactly when something is
    /// selected and it is a directory (`selected_is_dir`, checked by the
    /// caller against the filesystem); the selected path then becomes the
    /// current root and the caller rescans.
    pub fn drill_down(&mut self, selected_is_dir: bool) -> (rescan: bool)
        ensures
            rescan == (old(self).selected is Some && selected_is_dir),
            rescan ==> final(self).root_path == old(self).selected.unwrap(),
            !rescan ==> final(self).root_path == old(self).root_path,
            final(self).initial_root_path == old(self).initial_root_path,
            final(self).selected == old(self).selected,
    {
        if selected_is_dir {
            match &self.selected {
                Some(p) => {
                    let next = p.clone();
                    self.root_path = next;
                    true
                },
                None => false,
            }
        } else {
            false
        }
    }

    /// Drill up to `parent` (the filesystem parent of the current root,
    /// computed by the caller; `None` at a filesystem root).  The selection
    /// is released either way; the root moves, and a rescan is due, only
    /// when a parent exists and the session is not already back at its
    /// initial root.
    pub fn drill_up(&mut self, parent: Option<String>) -> (rescan: bool)
        ensures
            final(self).selected is None,
            final(self).initial_root_path == old(self).initial_root_path,
            rescan == (parent is Some && old(self).root_path@ != old(self).initial_root_path@),
            rescan ==> final(self).root_path == parent.unwrap(),
            !rescan ==> final(self).root_path == old(self).root_path,
    {
        self.selected = None;
        match parent {
            Some(p) => {
                if self.root_path != self.initial_root_path {
                    self.root_path = p;
                    true
                } else {
                    false
                }
            },
            None => false,
        }
    }
}

} // verus!
