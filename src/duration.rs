use vstd::prelude::*;

verus! {

/// Nanoseconds in one second.
pub const NANOS_PER_SEC: u32 = 1_000_000_000;

/// The largest number of whole seconds a `Duration` can hold.
pub const MAX_SECS: u64 = 0xffff_ffff_ffff_ffff;

/// A span of time: whole seconds and the nanoseconds beyond them.
#[derive(Clone, Copy, Debug, PartialEq, Eq, Structural)]
pub struct Duration {
    secs: u64,
    nanos: u32,
}

impl View for Duration {
    /// Whole seconds, then nanoseconds.
    type V = (nat, nat);

    closed spec fn view(&self) -> (nat, nat) {
        (self.secs as nat, self.nanos as nat)
    }
}

impl Duration {
    #[verifier::type_invariant]
    spec fn inv(&self) -> bool {
        self.nanos < NANOS_PER_SEC
    }

    /// A duration of `secs` seconds and `nanos` nanoseconds; whole seconds
    /// in `nanos` are carried into the seconds.
    pub fn new(secs: u64, nanos: u32) -> (d: Duration)
        requires
            secs + nanos / NANOS_PER_SEC <= MAX_SECS,
        ensures
            d@ == ((secs + nanos / NANOS_PER_SEC) as nat, (nanos % NANOS_PER_SEC) as nat),
    {
        let carry = nanos / NANOS_PER_SEC;
        Duration { secs: secs + carry as u64, nanos: nanos % NANOS_PER_SEC }
    }

    /// The whole seconds.
    pub fn as_secs(&self) -> (r: u64)
        ensures
            r == self@.0,
    {
        self.secs
    }

    /// The nanoseconds beyond the whole seconds.
    pub fn subsec_nanos(&self) -> (r: u32)
        ensures
            r == self@.1,
            r < NANOS_PER_SEC,
    {
        proof {
            use_type_invariant(self);
        }
        self.nanos
    }
}

} // verus!
