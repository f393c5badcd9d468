//! The diagnostic sink: where the codec reports what it cannot return.
//! A sink takes a message and gives nothing back; what it does with the
//! message has no bearing on the codec's results.

use vstd::prelude::*;

verus! {

/// A receiver of diagnostic messages.
pub trait LogSink: Send + Sync {
    /// What holds once the sink has taken `msg`.
    spec fn took(&self, msg: &str) -> bool;

    /// Takes one message.
    fn log(&self, msg: &str)
        ensures
            self.took(msg),
    ;
}

/// A sink that hands each message to a function.
pub struct Callback<F: Fn(&str) + Send + Sync> {
    f: F,
}

impl<F: Fn(&str) + Send + Sync> Callback<F> {
    /// The function takes every message.
    #[verifier::type_invariant]
    spec fn takes_all(&self) -> bool {
        forall|msg: &str| call_requires(self.f, (msg,))
    }

    /// The function that the messages are handed to.
    pub closed spec fn function(&self) -> F {
        self.f
    }

    /// A sink that hands each message to `f`, a function that takes every
    /// message.
    pub fn new(f: F) -> (sink: Self)
        requires
            forall|msg: &str| call_requires(f, (msg,)),
        ensures
            sink.function() == f,
    {
        Callback { f }
    }
}

impl<F: Fn(&str) + Send + Sync> LogSink for Callback<F> {
    /// Once the sink has taken a message, the function has returned from
    /// it: what the function ensures of the message holds.
    open spec fn took(&self, msg: &str) -> bool {
        call_ensures(self.function(), (msg,), ())
    }

    fn log(&self, msg: &str) {
        proof {
            use_type_invariant(self);
        }
        (self.f)(msg);
    }
}

} // verus!
