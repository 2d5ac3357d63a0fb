use vstd::prelude::*;
use crate::tree::{Node, ScopedCommand, scoped_views, tree_diff, tree_keys_unique, tree_keys_are_unique, diff_trees};

verus! {

/// Rendering was refused: two siblings of the new tree carry the same key.
#[derive(Clone, Copy, Debug, PartialEq, Eq, Structural)]
pub enum RenderError {
    DuplicateKey,
}

/// The element trees under the host's root container, as the last render
/// pass left them.
pub struct Topology {
    roots: Vec<Node>,
    resync: bool,
}

impl View for Topology {
    type V = Seq<Node>;

    closed spec fn view(&self) -> Seq<Node> {
        self.roots@
    }
}

impl Topology {
    /// Whether the native tree may differ from the trees kept here, so that
    /// the next pass must rebuild it whole.
    pub closed spec fn needs_resync_spec(&self) -> bool {
        self.resync
    }

    /// A root container with nothing in it yet.
    pub fn new() -> (r: Topology)
        ensures
            r@ == Seq::<Node>::empty(),
            !r.needs_resync_spec(),
    {
        Topology { roots: Vec::new(), resync: false }
    }

    pub fn needs_resync(&self) -> (r: bool)
        ensures
            r == self.needs_resync_spec(),
    {
        self.resync
    }

    /// Records that a flush of the last pass was abandoned: the native tree
    /// is to be cleared, and the trees kept here are forgotten so that the
    /// next pass creates everything anew.
    pub fn mark_resync(&mut self)
        ensures
            final(self)@ == Seq::<Node>::empty(),
            final(self).needs_resync_spec(),
    {
        self.roots = Vec::new();
        self.resync = true;
    }

    /// The current top-level nodes.
    pub fn roots(&self) -> (r: &Vec<Node>)
        ensures
            r@ == self@,
    {
        &self.roots
    }

    /// Runs one render pass: diffs the current trees against `next`, keeps
    /// `next` and returns the commands. Trees where two siblings share a key
    /// are refused and change nothing.
    pub fn render(&mut self, next: Vec<Node>) -> (r: Result<Vec<ScopedCommand>, RenderError>)
        ensures
            tree_keys_unique(next@) ==> r is Ok
                && scoped_views(r.unwrap()@) == tree_diff(Seq::empty(), old(self)@, next@)
                && final(self)@ == next@
                && !final(self).needs_resync_spec(),
            !tree_keys_unique(next@) ==> r == Err::<Vec<ScopedCommand>, RenderError>(RenderError::DuplicateKey)
                && final(self)@ == old(self)@
                && final(self).needs_resync_spec() == old(self).needs_resync_spec(),
    {
        if !tree_keys_are_unique(&next) {
            return Err(RenderError::DuplicateKey);
        }
        let c = diff_trees(&self.roots, &next);
        self.roots = next;
        self.resync = false;
        Ok(c)
    }
}

} // verus!
