use vstd::prelude::*;

verus! {

/// The signals the forwarder reacts to.
#[derive(Clone, Copy, Debug, PartialEq, Eq, Structural)]
pub enum Signal {
    Pipe,
    Term,
    Int,
    Other(i32),
}

/// What a signal does.
#[derive(Clone, Copy, Debug, PartialEq, Eq, Structural)]
pub enum SignalAction {
    /// A broken pipe: ignored.
    Ignore,
    /// Termination or interrupt: the loop stops.
    Exit,
    /// Anything else: logged.
    Unknown,
}

/// The "running" flag that the event loop polls each tick.
pub struct SignalHandler {
    running: bool,
}

impl SignalHandler {
    pub closed spec fn running(&self) -> bool {
        self.running
    }

    /// A handler whose loop is running.
    pub fn new() -> (r: Self)
        ensures
            r.running(),
    {
        SignalHandler { running: true }
    }

    /// Registration needs nothing more once the handler exists.
    pub fn register(&self) -> (r: Result<(), ()>)
        ensures
            r is Ok,
    {
        Ok(())
    }

    pub fn is_running(&self) -> (r: bool)
        ensures
            r == self.running(),
    {
        self.running
    }

    /// Stops the loop.
    pub fn stop(&mut self)
        ensures
            !final(self).running(),
    {
        self.running = false;
    }

    /// Reacts to `sig`: termination and interrupt stop the loop, anything
    /// else leaves it running.
    pub fn on_signal(&mut self, sig: Signal) -> (a: SignalAction)
        ensures
            a == (match sig {
                Signal::Pipe => SignalAction::Ignore,
                Signal::Term => SignalAction::Exit,
                Signal::Int => SignalAction::Exit,
                Signal::Other(_) => SignalAction::Unknown,
            }),
            final(self).running() == (old(self).running() && a != SignalAction::Exit),
    {
        match sig {
            Signal::Pipe => SignalAction::Ignore,
            Signal::Term | Signal::Int => {
                self.running = false;
                SignalAction::Exit
            },
            Signal::Other(_) => SignalAction::Unknown,
        }
    }
}

} // verus!
