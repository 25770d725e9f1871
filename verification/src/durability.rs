//! Which call a commit makes, and what that call does not promise.
//!
//! On macOS an `fsync` returns once the write has been handed to the drive,
//! which may hold it in a volatile cache. `F_FULLFSYNC` asks the drive to empty
//! that cache. On Linux and on Windows the ordinary call already asks for the
//! flush. That asymmetry is why this is a named thing: two commit latencies
//! measured with different calls are not comparable.
//!
//! Nothing here falls back. A caller willing to accept less says so by asking
//! for less.
use vstd::prelude::*;

verus! {

/// How far a write has got when the sync returns.
///
/// Ordered from the strongest promise to the weakest. Where a platform has fewer
/// than three calls the weaker reaches make the same call as the stronger one.
#[derive(Debug, Clone, Copy, PartialEq, Eq, Structural, PartialOrd, Ord, Hash)]
pub enum Reach {
    /// The write is on the medium. It survives losing power at the instant the
    /// sync returned.
    Platter,
    /// The write has reached the device, which may be holding it in a cache that
    /// losing power empties.
    Device,
    /// The write is ordered ahead of everything written after it, without
    /// waiting for it to reach anything.
    Ordered,
}

/// The platforms that differ in the calls they offer.
#[derive(Debug, Clone, Copy, PartialEq, Eq, Structural)]
pub enum Platform {
    MacOs,
    Linux,
    Windows,
    Other,
}

/// A call that puts what was written where it is to be.
#[derive(Debug, Clone, Copy, PartialEq, Eq, Structural)]
pub enum Call {
    /// Ask the drive to empty its write cache, not just to take the write.
    FullFsync,
    /// Order this write ahead of the ones after it, without waiting.
    BarrierFsync,
    /// The standard library's data sync.
    SyncData,
    /// The standard library's sync of data and metadata.
    SyncAll,
}

impl Default for Reach {
    /// The promise the commit documentation makes.
    fn default() -> (reach: Self)
        ensures
            reach == Reach::Platter,
    {
        Reach::Platter
    }
}

/// The name of the platform call a reach makes.
pub open spec fn call_name(reach: Reach, platform: Platform) -> Seq<char> {
    match platform {
        Platform::MacOs => match reach {
            Reach::Platter => "F_FULLFSYNC"@,
            Reach::Device => "fsync"@,
            Reach::Ordered => "F_BARRIERFSYNC"@,
        },
        Platform::Linux => "fdatasync"@,
        Platform::Windows => "FlushFileBuffers"@,
        Platform::Other => "fsync"@,
    }
}

/// The call a sync makes.
pub open spec fn sync_call(reach: Reach, platform: Platform) -> Call {
    match platform {
        Platform::MacOs => match reach {
            Reach::Platter => Call::FullFsync,
            Reach::Device => Call::SyncData,
            Reach::Ordered => Call::BarrierFsync,
        },
        Platform::Linux | Platform::Windows => Call::SyncData,
        Platform::Other => Call::SyncAll,
    }
}

impl Reach {
    /// The name of the platform call this makes.
    ///
    /// This is the string to print beside a commit latency.
    pub fn call(self, platform: Platform) -> (name: &'static str)
        ensures
            name@ == call_name(self, platform),
    {
        match platform {
            Platform::MacOs => match self {
                Reach::Platter => "F_FULLFSYNC",
                Reach::Device => "fsync",
                Reach::Ordered => "F_BARRIERFSYNC",
            },
            Platform::Linux => "fdatasync",
            Platform::Windows => "FlushFileBuffers",
            Platform::Other => "fsync",
        }
    }

    /// One line saying what a write that this returned for survives.
    pub fn promise(self) -> (line: &'static str)
        ensures
            line@ == match self {
                Reach::Platter => "the power going"@,
                Reach::Device => "the process dying, not the power going"@,
                Reach::Ordered => "nothing, but nothing written after it reaches the medium first"@,
            },
    {
        match self {
            Reach::Platter => "the power going",
            Reach::Device => "the process dying, not the power going",
            Reach::Ordered => "nothing, but nothing written after it reaches the medium first",
        }
    }

    /// The call to make to put what has been written where this says.
    pub fn sync(self, platform: Platform) -> (call: Call)
        ensures
            call == sync_call(self, platform),
    {
        match platform {
            Platform::MacOs => match self {
                Reach::Platter => Call::FullFsync,
                Reach::Device => Call::SyncData,
                Reach::Ordered => Call::BarrierFsync,
            },
            Platform::Linux | Platform::Windows => Call::SyncData,
            Platform::Other => Call::SyncAll,
        }
    }

    /// The calls to make, in order, for a write that also made the file longer.
    ///
    /// The length is metadata and a data sync is entitled to leave it behind.
    /// This is never weaker than [`Reach::Device`], whatever was asked for, and
    /// where the reach asks for more than that, it gets it. The length goes
    /// first, because the drive cannot be asked to empty a cache holding a write
    /// the operating system has not handed it yet.
    pub fn sync_all(self, platform: Platform) -> (calls: Vec<Call>)
        ensures
            calls@ == if platform == Platform::MacOs && self == Reach::Platter {
                seq![Call::SyncAll, Call::FullFsync]
            } else {
                seq![Call::SyncAll]
            },
    {
        let mut calls: Vec<Call> = Vec::new();
        calls.push(Call::SyncAll);
        if platform == Platform::MacOs && self == Reach::Platter {
            calls.push(self.sync(platform));
        }
        calls
    }
}

/// Where a platform has one call, every reach names it.
pub proof fn law_one_call_for_every_reach(a: Reach, b: Reach, platform: Platform)
    requires
        platform != Platform::MacOs,
    ensures
        call_name(a, platform) == call_name(b, platform),
        sync_call(a, platform) == sync_call(b, platform),
{
}

/// Where a platform has three calls, every reach makes its own and names it.
pub proof fn law_three_calls_for_three_reaches(a: Reach, b: Reach)
    requires
        a != b,
    ensures
        sync_call(a, Platform::MacOs) != sync_call(b, Platform::MacOs),
        call_name(a, Platform::MacOs) != call_name(b, Platform::MacOs),
{
    reveal_strlit("F_FULLFSYNC");
    reveal_strlit("fsync");
    reveal_strlit("F_BARRIERFSYNC");
    assert(call_name(a, Platform::MacOs).len() != call_name(b, Platform::MacOs).len());
}

} // verus!
