use vstd::prelude::*;

verus! {

/// A message channel between producers outside the core and a component.
/// Messages are received one at a time, in the order they were sent.
pub struct Channel {
    messages: Vec<u64>,
    head: usize,
}

impl View for Channel {
    type V = Seq<u64>;

    /// The messages sent and not yet received, oldest first.
    closed spec fn view(&self) -> Seq<u64> {
        self.messages@.subrange(self.head as int, self.messages@.len() as int)
    }
}

impl Channel {
    pub closed spec fn wf(&self) -> bool {
        self.head <= self.messages.len()
    }

    pub fn new() -> (r: Channel)
        ensures
            r.wf(),
            r@ == Seq::<u64>::empty(),
    {
        Channel { messages: Vec::new(), head: 0 }
    }

    /// Sends `m`: it is received after every message sent before it.
    pub fn send(&mut self, m: u64)
        requires
            old(self).wf(),
        ensures
            final(self).wf(),
            final(self)@ == old(self)@.push(m),
    {
        self.messages.push(m);
        assert(self@ =~= old(self)@.push(m));
    }

    /// Receives the oldest message not yet received, if any.
    pub fn receive(&mut self) -> (r: Option<u64>)
        requires
            old(self).wf(),
        ensures
            final(self).wf(),
            old(self)@.len() > 0 ==> r == Some(old(self)@[0]) && final(self)@ == old(self)@.drop_first(),
            old(self)@.len() == 0 ==> r is None && final(self)@ == old(self)@,
    {
        if self.head < self.messages.len() {
            let m = self.messages[self.head];
            self.head = self.head + 1;
            if self.head == self.messages.len() {
                self.messages.clear();
                self.head = 0;
            }
            assert(self@ =~= old(self)@.drop_first());
            Some(m)
        } else {
            None
        }
    }

    /// How many messages wait to be received.
    pub fn len(&self) -> (r: usize)
        requires
            self.wf(),
        ensures
            r == self@.len(),
    {
        self.messages.len() - self.head
    }
}

} // verus!
