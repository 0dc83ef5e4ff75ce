//! Choosing the sleep-inhibition backend from what the host reports:
//! the operating system, the name of process 1, and the two desktop
//! environment variables. The probing itself happens outside; this
//! module decides from the probed bytes.

use vstd::prelude::*;

verus! {

/// What the host operating system is.
#[derive(Debug, Clone, Copy, PartialEq, Eq, Structural)]
pub enum OsKind {
    Linux,
    MacOs,
    Other,
}

/// The mechanism that will hold sleep off.
#[derive(Debug, Clone, Copy, PartialEq, Eq, Structural)]
pub enum Backend {
    /// The GNOME session manager's own inhibitors, which ignore the
    /// systemd ones.
    Gnome,
    /// systemd inhibitor locks.
    SystemdInhibit,
    /// Masking the sleep targets outright; needs root.
    #[allow(dead_code)]
    SystemdMask,
    /// The macOS power-assertion interface.
    MacOS,
}

/// Why no backend could be chosen.
#[derive(Debug, Clone, Copy, PartialEq, Eq, Structural)]
pub enum BackendError {
    /// The host runs neither Linux nor macOS.
    UnsupportedOs,
    /// The name of process 1 could not be read at all.
    InitProbeFailed,
    /// Process 1 is not systemd, so no systemd or GNOME backend fits.
    NotSystemd,
}

/// The bytes of the name `systemd`.
pub open spec fn systemd_bytes() -> Seq<u8> {
    seq![115u8, 121u8, 115u8, 116u8, 101u8, 109u8, 100u8]
}

/// The bytes of `GNOME`, the desktop name in `XDG_CURRENT_DESKTOP`.
pub open spec fn gnome_xdg_bytes() -> Seq<u8> {
    seq![71u8, 78u8, 79u8, 77u8, 69u8]
}

/// The bytes of `gnome`, the session name in `DESKTOP_SESSION`.
pub open spec fn gnome_session_bytes() -> Seq<u8> {
    seq![103u8, 110u8, 111u8, 109u8, 101u8]
}

/// The name `systemd` occurs somewhere in the probed bytes.
pub open spec fn contains_systemd(s: Seq<u8>) -> bool {
    exists|i: int| 0 <= i && i + 7 <= s.len() && #[trigger] s.subrange(i, i + 7)
        == systemd_bytes()
}

/// The view of an optional byte string.
pub open spec fn opt_bytes(o: Option<Vec<u8>>) -> Option<Seq<u8>> {
    match o {
        Some(v) => Some(v@),
        None => None,
    }
}

/// The desktop is GNOME: either environment variable names it.
pub open spec fn spec_gnome_detected(xdg: Option<Seq<u8>>, session: Option<Seq<u8>>) -> bool {
    (xdg matches Some(x) && x == gnome_xdg_bytes()) || (session matches Some(x) && x
        == gnome_session_bytes())
}

/// Which backend the probes select: macOS directly; on Linux, process 1
/// must be systemd, and then GNOME's own inhibitors when either
/// environment variable names GNOME, systemd's otherwise; anything else
/// is unsupported.
pub open spec fn spec_backend_choice(
    os: OsKind,
    comm: Option<Seq<u8>>,
    xdg: Option<Seq<u8>>,
    session: Option<Seq<u8>>,
) -> Result<Backend, BackendError> {
    match os {
        OsKind::MacOs => Ok(Backend::MacOS),
        OsKind::Other => Err(BackendError::UnsupportedOs),
        OsKind::Linux => match comm {
            None => Err(BackendError::InitProbeFailed),
            Some(c) => if !contains_systemd(c) {
                Err(BackendError::NotSystemd)
            } else if spec_gnome_detected(xdg, session) {
                Ok(Backend::Gnome)
            } else {
                Ok(Backend::SystemdInhibit)
            },
        },
    }
}

/// Whether the probed name of process 1 holds `systemd` anywhere.
#[verifier::loop_isolation(false)]
pub fn pid1_comm_names_systemd(comm: &Vec<u8>) -> (r: bool)
    ensures
        r == contains_systemd(comm@),
{
    if comm.len() < 7 {
        return false;
    }
    let stop: usize = comm.len() - 7;
    let mut i: usize = 0;
    while i <= stop
        invariant
            i <= stop + 1,
            forall|k: int| 0 <= k < i ==> #[trigger] comm@.subrange(k, k + 7) != systemd_bytes(),
        decreases stop + 1 - i,
    {
        let w = comm[i] == 115 && comm[i + 1] == 121 && comm[i + 2] == 115 && comm[i + 3] == 116
            && comm[i + 4] == 101 && comm[i + 5] == 109 && comm[i + 6] == 100;
        if w {
            proof {
                assert(comm@.subrange(i as int, i as int + 7) =~= systemd_bytes());
            }
            return true;
        }
        proof {
            assert(comm@.subrange(i as int, i as int + 7) != systemd_bytes()) by {
                if comm@.subrange(i as int, i as int + 7) == systemd_bytes() {
                    assert(comm@[i as int] == systemd_bytes()[0]);
                    assert(comm@[i as int + 1] == systemd_bytes()[1]);
                    assert(comm@[i as int + 2] == systemd_bytes()[2]);
                    assert(comm@[i as int + 3] == systemd_bytes()[3]);
                    assert(comm@[i as int + 4] == systemd_bytes()[4]);
                    assert(comm@[i as int + 5] == systemd_bytes()[5]);
                    assert(comm@[i as int + 6] == systemd_bytes()[6]);
                }
            }
        }
        i = i + 1;
    }
    false
}

/// Whether the bytes are exactly `GNOME`.
fn is_gnome_xdg(v: &Vec<u8>) -> (r: bool)
    ensures
        r == (v@ == gnome_xdg_bytes()),
{
    let w = v.len() == 5 && v[0] == 71 && v[1] == 78 && v[2] == 79 && v[3] == 77 && v[4] == 69;
    proof {
        if w {
            assert(v@ =~= gnome_xdg_bytes());
        } else {
            assert(v@ != gnome_xdg_bytes()) by {
                if v@ == gnome_xdg_bytes() {
                    assert(v@[0] == gnome_xdg_bytes()[0]);
                    assert(v@[1] == gnome_xdg_bytes()[1]);
                    assert(v@[2] == gnome_xdg_bytes()[2]);
                    assert(v@[3] == gnome_xdg_bytes()[3]);
                    assert(v@[4] == gnome_xdg_bytes()[4]);
                }
            }
        }
    }
    w
}

/// Whether the bytes are exactly `gnome`.
fn is_gnome_session(v: &Vec<u8>) -> (r: bool)
    ensures
        r == (v@ == gnome_session_bytes()),
{
    let w = v.len() == 5 && v[0] == 103 && v[1] == 110 && v[2] == 111 && v[3] == 109 && v[4]
        == 101;
    proof {
        if w {
            assert(v@ =~= gnome_session_bytes());
        } else {
            assert(v@ != gnome_session_bytes()) by {
                if v@ == gnome_session_bytes() {
                    assert(v@[0] == gnome_session_bytes()[0]);
                    assert(v@[1] == gnome_session_bytes()[1]);
                    assert(v@[2] == gnome_session_bytes()[2]);
                    assert(v@[3] == gnome_session_bytes()[3]);
                    assert(v@[4] == gnome_session_bytes()[4]);
                }
            }
        }
    }
    w
}

impl Backend {
    /// Chooses the backend from the probed host facts, exactly as
    /// [`spec_backend_choice`] says. The probes themselves — which
    /// operating system this is, what process 1 is called, what the
    /// two environment variables hold — are read outside and handed in
    /// as plain bytes.
    pub fn from_probes(
        os: OsKind,
        pid1_comm: Option<Vec<u8>>,
        xdg: Option<Vec<u8>>,
        session: Option<Vec<u8>>,
    ) -> (r: Result<Backend, BackendError>)
        ensures
            r == spec_backend_choice(os, opt_bytes(pid1_comm), opt_bytes(xdg), opt_bytes(session)),
    {
        match os {
            OsKind::MacOs => Ok(Backend::MacOS),
            OsKind::Other => Err(BackendError::UnsupportedOs),
            OsKind::Linux => {
                match pid1_comm {
                    None => Err(BackendError::InitProbeFailed),
                    Some(c) => {
                        if !pid1_comm_names_systemd(&c) {
                            Err(BackendError::NotSystemd)
                        } else {
                            let xdg_gnome = match &xdg {
                                Some(x) => is_gnome_xdg(x),
                                None => false,
                            };
                            let session_gnome = match &session {
                                Some(x) => is_gnome_session(x),
                                None => false,
                            };
                            if xdg_gnome || session_gnome {
                                Ok(Backend::Gnome)
                            } else {
                                Ok(Backend::SystemdInhibit)
                            }
                        }
                    },
                }
            },
        }
    }
}

} // verus!
