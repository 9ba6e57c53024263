//! Output sinks: forward-only destinations for rendered text.

use vstd::prelude::*;
use vstd::string::StringExecFns;

verus! {

/// A sink refused a fragment.
#[derive(Clone, Copy, Debug, PartialEq, Eq, Structural)]
pub struct WriteError;

/// A destination that takes text one fragment at a time and never gives any
/// of it back.
pub trait Sink {
    /// Everything the sink has taken so far.
    spec fn written(&self) -> Seq<char>;

    /// Whether the sink takes every fragment.
    spec fn unfailing(&self) -> bool;

    /// Writes one fragment. A sink that refuses it may have taken some of
    /// its characters, from the front, and nothing else.
    fn write(&mut self, text: &str) -> (r: Result<(), WriteError>)
        ensures
            final(self).unfailing() == old(self).unfailing(),
            old(self).unfailing() ==> r is Ok,
            r is Ok ==> final(self).written() == old(self).written() + text@,
            r is Err ==> old(self).written().is_prefix_of(final(self).written())
                && final(self).written().is_prefix_of(old(self).written() + text@),
    ;
}

/// A string takes everything.
impl Sink for String {
    open spec fn written(&self) -> Seq<char> {
        self@
    }

    open spec fn unfailing(&self) -> bool {
        true
    }

    fn write(&mut self, text: &str) -> (r: Result<(), WriteError>) {
        self.append(text);
        Ok(())
    }
}

/// A buffer that takes a limited number of characters, and refuses whole any
/// fragment that does not fit in what is left.
#[derive(Debug)]
pub struct BoundedSink {
    pub text: String,
    pub room: usize,
}

impl BoundedSink {
    /// An empty buffer with room for `room` characters.
    pub fn new(room: usize) -> (s: BoundedSink)
        ensures
            s.text@ == Seq::<char>::empty(),
            s.room == room,
    {
        BoundedSink { text: String::new(), room }
    }
}

impl Sink for BoundedSink {
    open spec fn written(&self) -> Seq<char> {
        self.text@
    }

    open spec fn unfailing(&self) -> bool {
        false
    }

    fn write(&mut self, text: &str) -> (r: Result<(), WriteError>)
        ensures
            r is Ok <==> text@.len() <= old(self).room,
            r is Ok ==> final(self).room == old(self).room - text@.len(),
            r is Err ==> *final(self) == *old(self),
    {
        let n: usize = text.unicode_len();
        if n <= self.room {
            self.text.append(text);
            self.room = self.room - n;
            Ok(())
        } else {
            Err(WriteError)
        }
    }
}

} // verus!
