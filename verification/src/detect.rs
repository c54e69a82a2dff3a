//! `HostProfile`: the single impure input to compilation. The probes of the running kernel happen
//! at the edge; this module turns their raw results into a profile, and synthesizes profiles for
//! platforms one is not on (a Linux profile on a Mac) for cross-platform dry runs. The compiler only
//! reads the value it is handed, which is what keeps `compile` pure.

use vstd::prelude::*;

verus! {

#[derive(Clone, Copy, Debug, PartialEq, Eq, Structural)]
pub enum Os {
    Linux,
    MacOs,
}

/// Landlock ABI versions: 1 = filesystem; 4 = plus TCP-port network rules; 6 = plus abstract
/// UNIX-socket and signal scoping.
#[derive(Clone, Debug, PartialEq, Eq)]
pub struct HostProfile {
    pub os: Os,
    pub landlock_abi: Option<u32>,
    pub seccomp: bool,
    pub seatbelt: bool,
    /// For the report only; not load-bearing.
    pub os_version: String,
}

pub struct HostModel {
    pub os: Os,
    pub landlock_abi: Option<u32>,
    pub seccomp: bool,
    pub seatbelt: bool,
    pub os_version: Seq<char>,
}

impl View for HostProfile {
    type V = HostModel;

    open spec fn view(&self) -> HostModel {
        HostModel {
            os: self.os,
            landlock_abi: self.landlock_abi,
            seccomp: self.seccomp,
            seatbelt: self.seatbelt,
            os_version: self.os_version@,
        }
    }
}

impl HostProfile {
    /// A Linux host with the given Landlock ABI and seccomp.
    pub fn synthetic_linux(landlock_abi: Option<u32>) -> (r: HostProfile)
        ensures
            r@.os == Os::Linux,
            r@.landlock_abi == landlock_abi,
            r@.seccomp,
            !r@.seatbelt,
            r@.os_version == "synthetic-linux"@,
    {
        HostProfile {
            os: Os::Linux,
            landlock_abi,
            seccomp: true,
            seatbelt: false,
            os_version: String::from_str("synthetic-linux"),
        }
    }

    /// A macOS host with Seatbelt.
    pub fn synthetic_macos() -> (r: HostProfile)
        ensures
            r@.os == Os::MacOs,
            r@.landlock_abi is None,
            !r@.seccomp,
            r@.seatbelt,
            r@.os_version == "synthetic-macos"@,
    {
        HostProfile {
            os: Os::MacOs,
            landlock_abi: None,
            seccomp: false,
            seatbelt: true,
            os_version: String::from_str("synthetic-macos"),
        }
    }

    pub fn copy(&self) -> (r: HostProfile)
        ensures
            r@ == self@,
    {
        HostProfile {
            os: self.os,
            landlock_abi: self.landlock_abi,
            seccomp: self.seccomp,
            seatbelt: self.seatbelt,
            os_version: crate::names::copy_string(&self.os_version),
        }
    }
}

/// The ABI a Landlock version query reports: positive results are the version (as the kernel's
/// `long` truncated to 32 bits), anything else means no Landlock.
pub open spec fn landlock_abi_of(query: i64) -> Option<u32> {
    if query > 0 {
        Some(query as u32)
    } else {
        None
    }
}

/// A Linux profile from the raw probe results: the Landlock version query's return value,
/// the `PR_GET_SECCOMP` return value (non-negative when seccomp is available), and the kernel
/// release (or `None` when `uname` failed).
pub fn linux_host_from_probes(landlock_query: i64, seccomp_query: i32, release: Option<String>) -> (r: HostProfile)
    ensures
        r@.os == Os::Linux,
        r@.landlock_abi == landlock_abi_of(landlock_query),
        r@.seccomp == (seccomp_query >= 0),
        !r@.seatbelt,
        r@.os_version == match release {
            Some(s) => s@,
            None => "linux-unknown"@,
        },
{
    let landlock_abi = if landlock_query > 0 {
        Some(landlock_query as u32)
    } else {
        None
    };
    HostProfile {
        os: Os::Linux,
        landlock_abi,
        seccomp: seccomp_query >= 0,
        seatbelt: false,
        os_version: match release {
            Some(s) => s,
            None => String::from_str("linux-unknown"),
        },
    }
}

/// A macOS profile from the kernel release (`kern.osrelease`), or `None` when it could not be
/// read.
pub fn macos_host_from_release(release: Option<String>) -> (r: HostProfile)
    ensures
        r@.os == Os::MacOs,
        r@.landlock_abi is None,
        !r@.seccomp,
        r@.seatbelt,
        r@.os_version == match release {
            Some(s) => "darwin-"@ + s@,
            None => "macos-unknown"@,
        },
{
    let os_version = match release {
        Some(s) => {
            let mut v = String::from_str("darwin-");
            v.append(s.as_str());
            v
        },
        None => String::from_str("macos-unknown"),
    };
    HostProfile { os: Os::MacOs, landlock_abi: None, seccomp: false, seatbelt: true, os_version }
}

/// The profile for an operating system this library has no probes for: nothing available.
pub fn unsupported_host() -> (r: HostProfile)
    ensures
        r@.os == Os::Linux,
        r@.landlock_abi is None,
        !r@.seccomp,
        !r@.seatbelt,
        r@.os_version == "unsupported"@,
{
    HostProfile {
        os: Os::Linux,
        landlock_abi: None,
        seccomp: false,
        seatbelt: false,
        os_version: String::from_str("unsupported"),
    }
}

} // verus!
