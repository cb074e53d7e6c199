//! Ports and teams of the kernel, as plain identifiers.
//!
//! A `Port` names a kernel message queue; creating, reading and writing
//! ports is done by the caller, which hands this library the frames it reads
//! and takes the frames to write.
use vstd::prelude::*;

verus! {

/// Longest name a port may have.
pub const B_OS_NAME_LENGTH: usize = 32;

/// A kernel port, identified by its id. An owned port was created by this
/// process and is the one it reads from; a borrowed port was found by name
/// or id.
pub struct Port {
    pub port: i32,
    pub owned: bool,
}

impl Port {
    /// A port known by its id; `owned` says whether this process created it.
    pub fn from_raw(port: i32, owned: bool) -> (r: Port)
        ensures
            r.port == port,
            r.owned == owned,
    {
        Port { port, owned }
    }

    /// The id of the port.
    pub fn get_port_id(&self) -> (r: i32)
        ensures
            r == self.port,
    {
        self.port
    }

    /// A borrowed handle on the same port.
    pub fn borrow(&self) -> (r: Port)
        ensures
            r.port == self.port,
            !r.owned,
    {
        Port { port: self.port, owned: false }
    }
}

/// Properties of a port, as the kernel reports them.
pub struct PortInfo {
    /// The team that owns the port.
    pub team: Team,
    /// The name of the port.
    pub name: String,
    /// How many frames the port can queue.
    pub capacity: i32,
    /// How many frames were queued when the information was taken.
    pub queue_count: i32,
    /// How many frames have passed through the port.
    pub total_count: i32,
}

/// A team: a running process.
pub struct Team {
    pub id: i32,
}

impl Team {
    /// The team with id `id`; `None` for a negative id.
    pub fn from(id: i32) -> (r: Option<Team>)
        ensures
            id < 0 ==> r is None,
            id >= 0 ==> (r matches Some(t) && t.id == id),
    {
        if id < 0 {
            None
        } else {
            Some(Team { id })
        }
    }

    /// The id of the team.
    pub fn get_team_id(&self) -> (r: i32)
        ensures
            r == self.id,
    {
        self.id
    }
}

} // verus!
