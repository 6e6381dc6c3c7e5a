//! The unreliable messages of a session: queued by priority, to be sent at most once.
use vstd::prelude::*;
use crate::context::{MightHaveWork, Priority};

verus! {

/// The unreliable messages waiting to be sent, one queue per priority.
pub struct Unreliable<S> {
    /// The messages of low priority, oldest first.
    pub low_send_queue: Vec<S>,
    /// The messages of default priority, oldest first.
    pub default_send_queue: Vec<S>,
    /// The messages of high priority, oldest first.
    pub high_send_queue: Vec<S>,
}

impl<S> Unreliable<S> {
    /// Whether any message is queued.
    pub open spec fn has_work_spec(&self) -> bool {
        !(self.low_send_queue@.len() == 0 && self.default_send_queue@.len() == 0
            && self.high_send_queue@.len() == 0)
    }

    /// `self` is `o` with `message` queued behind the others of its `priority`.
    pub open spec fn queued(&self, o: &Self, message: S, priority: Priority) -> bool {
        &&& self.low_send_queue@ == (if priority == Priority::Low {
            o.low_send_queue@.push(message)
        } else {
            o.low_send_queue@
        })
        &&& self.default_send_queue@ == (if priority == Priority::Default {
            o.default_send_queue@.push(message)
        } else {
            o.default_send_queue@
        })
        &&& self.high_send_queue@ == (if priority == Priority::High {
            o.high_send_queue@.push(message)
        } else {
            o.high_send_queue@
        })
    }

    /// No message queued.
    pub fn new() -> (r: Self)
        ensures
            !r.has_work_spec(),
    {
        Unreliable {
            low_send_queue: Vec::new(),
            default_send_queue: Vec::new(),
            high_send_queue: Vec::new(),
        }
    }

    /// Queue `message` behind the others of its `priority`.
    pub fn queue_message(&mut self, message: S, priority: Priority)
        ensures
            final(self).queued(old(self), message, priority),
    {
        match priority {
            Priority::Low => self.low_send_queue.push(message),
            Priority::Default => self.default_send_queue.push(message),
            Priority::High => self.high_send_queue.push(message),
        }
    }

    /// Whether any message is queued.
    pub fn has_work(&self) -> (r: bool)
        ensures
            r == self.has_work_spec(),
    {
        !(self.low_send_queue.len() == 0 && self.default_send_queue.len() == 0
            && self.high_send_queue.len() == 0)
    }
}

impl<S> MightHaveWork for Unreliable<S> {
    open spec fn ready(&self) -> bool {
        true
    }

    /// Whether any message is queued.
    fn has_work(&self) -> (r: bool)
        ensures
            r == self.has_work_spec(),
    {
        Unreliable::has_work(self)
    }
}

} // verus!
