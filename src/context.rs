use vstd::prelude::*;

verus! {

/// A value provided for context `id` to the subtree of its provider.
#[derive(Clone, Copy, Debug, PartialEq, Eq, Structural)]
pub struct ContextEntry {
    pub id: u64,
    pub value: u64,
}

/// Reading a context found neither a provider nor a default.
#[derive(Clone, Copy, Debug, PartialEq, Eq, Structural)]
pub enum ContextError {
    NoProvider { id: u64 },
}

/// The providers that enclose the instance being rendered, outermost first.
/// A provider is pushed when its subtree is entered and popped on exit.
pub struct ContextTree {
    entries: Vec<ContextEntry>,
}

impl View for ContextTree {
    type V = Seq<ContextEntry>;

    closed spec fn view(&self) -> Seq<ContextEntry> {
        self.entries@
    }
}

/// The value of the nearest enclosing provider of context `id`, if any.
pub open spec fn nearest(s: Seq<ContextEntry>, id: u64) -> Option<u64>
    decreases s.len(),
{
    if s.len() == 0 {
        None
    } else if s.last().id == id {
        Some(s.last().value)
    } else {
        nearest(s.drop_last(), id)
    }
}

impl ContextTree {
    pub fn new() -> (r: ContextTree)
        ensures
            r@ == Seq::<ContextEntry>::empty(),
    {
        ContextTree { entries: Vec::new() }
    }

    /// Sets the enclosing providers, outermost first.
    pub fn set_providers(&mut self, entries: Vec<ContextEntry>)
        ensures
            final(self)@ == entries@,
    {
        self.entries = entries;
    }

    /// Enters the subtree of a provider of `value` for context `id`.
    pub fn push_provider(&mut self, id: u64, value: u64)
        ensures
            final(self)@ == old(self)@.push(ContextEntry { id, value }),
    {
        self.entries.push(ContextEntry { id, value });
    }

    /// Leaves the subtree of the innermost provider.
    pub fn pop_provider(&mut self) -> (r: Option<ContextEntry>)
        ensures
            old(self)@.len() > 0 ==> r == Some(old(self)@.last()) && final(self)@ == old(self)@.drop_last(),
            old(self)@.len() == 0 ==> r is None && final(self)@ == old(self)@,
    {
        self.entries.pop()
    }

    /// The value of the nearest enclosing provider of context `id`.
    pub fn lookup(&self, id: u64) -> (r: Option<u64>)
        ensures
            r == nearest(self@, id),
    {
        let mut i: usize = self.entries.len();
        assert(self@.subrange(0, i as int) =~= self@);
        while i > 0
            invariant
                0 <= i <= self.entries.len(),
                nearest(self@, id) == nearest(self@.subrange(0, i as int), id),
            decreases i,
        {
            let ghost s = self@.subrange(0, i as int);
            assert(s.drop_last() =~= self@.subrange(0, i as int - 1));
            let e = self.entries[i - 1];
            if e.id == id {
                return Some(e.value);
            }
            i = i - 1;
        }
        assert(self@.subrange(0, 0) =~= Seq::<ContextEntry>::empty());
        None
    }

    /// Reads context `id` as a context hook does: the nearest provider's
    /// value, else the default, else an error.
    pub fn use_context(&self, id: u64, default: Option<u64>) -> (r: Result<u64, ContextError>)
        ensures
            nearest(self@, id) is Some ==> r == Ok::<u64, ContextError>(nearest(self@, id).unwrap()),
            nearest(self@, id) is None && default is Some ==> r == Ok::<u64, ContextError>(default.unwrap()),
            nearest(self@, id) is None && default is None ==> r == Err::<u64, ContextError>(ContextError::NoProvider { id }),
    {
        match self.lookup(id) {
            Some(v) => Ok(v),
            None => match default {
                Some(d) => Ok(d),
                None => Err(ContextError::NoProvider { id }),
            },
        }
    }
}

} // verus!
