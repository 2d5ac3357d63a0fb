use vstd::prelude::*;
use crate::element::{Element, ElementKind, Key};

verus! {

/// One platform-agnostic instruction for the host: create a node, update its
/// properties, move it to another position among its siblings, or remove it.
#[derive(Clone, Copy, Debug, PartialEq, Eq, Structural)]
pub enum Command {
    Create { key: Key, kind: ElementKind, props: u64, index: usize },
    Update { key: Key, props: u64 },
    Move { key: Key, index: usize },
    Remove { key: Key },
}

/// The four kinds of command.
#[derive(Clone, Copy, Debug, PartialEq, Eq, Structural)]
pub enum Op {
    Create,
    Update,
    Move,
    Remove,
}

impl Command {
    pub open spec fn op_spec(&self) -> Op {
        match self {
            Command::Create { .. } => Op::Create,
            Command::Update { .. } => Op::Update,
            Command::Move { .. } => Op::Move,
            Command::Remove { .. } => Op::Remove,
        }
    }

    /// The kind of this command.
    #[verifier::when_used_as_spec(op_spec)]
    pub fn op(&self) -> (r: Op)
        ensures
            r == self.op_spec(),
    {
        match self {
            Command::Create { .. } => Op::Create,
            Command::Update { .. } => Op::Update,
            Command::Move { .. } => Op::Move,
            Command::Remove { .. } => Op::Remove,
        }
    }

    pub open spec fn is_move(self) -> bool {
        self is Move
    }
}

/// The command that creates the node for `e` at position `index`.
pub open spec fn create_of(e: Element, index: int) -> Command {
    Command::Create { key: e.key, kind: e.kind, props: e.props, index: index as usize }
}

/// The ordered command stream produced by one diff.
pub struct Composition {
    pub commands: Vec<Command>,
}

impl View for Composition {
    type V = Seq<Command>;

    open spec fn view(&self) -> Seq<Command> {
        self.commands@
    }
}

impl Composition {
    /// An empty composition.
    pub fn new() -> (r: Composition)
        ensures
            r@ == Seq::<Command>::empty(),
    {
        Composition { commands: Vec::new() }
    }

    /// Appends one command at the end of the stream.
    pub fn push(&mut self, c: Command)
        ensures
            final(self)@ == old(self)@.push(c),
    {
        self.commands.push(c);
    }

    pub fn len(&self) -> (r: usize)
        ensures
            r == self@.len(),
    {
        self.commands.len()
    }

    pub fn is_empty(&self) -> (r: bool)
        ensures
            r == (self@.len() == 0),
    {
        self.commands.len() == 0
    }

    /// The command at position `i`.
    pub fn get(&self, i: usize) -> (r: Command)
        requires
            i < self@.len(),
        ensures
            r == self@[i as int],
    {
        self.commands[i]
    }

    /// How many commands of the stream are of kind `op`.
    pub fn count(&self, op: Op) -> (r: usize)
        ensures
            r == count_op(self@, op),
    {
        let mut n: usize = 0;
        let mut i: usize = 0;
        while i < self.commands.len()
            invariant
                0 <= i <= self@.len(),
                n <= i,
                n == count_op(self@.subrange(0, i as int), op),
            decreases self@.len() - i,
        {
            assert(self@.subrange(0, i as int + 1).drop_last() =~= self@.subrange(0, i as int));
            if self.commands[i].op() == op {
                n = n + 1;
            }
            i = i + 1;
        }
        assert(self@.subrange(0, self@.len() as int) =~= self@);
        n
    }
}

/// The number of commands of `s` of kind `op`.
pub open spec fn count_op(s: Seq<Command>, op: Op) -> nat
    decreases s.len(),
{
    if s.len() == 0 {
        0
    } else {
        count_op(s.drop_last(), op) + if s.last().op_spec() == op { 1nat } else { 0nat }
    }
}

} // verus!
