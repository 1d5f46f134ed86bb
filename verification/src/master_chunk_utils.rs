//! The status report that a chunk server sends to the master.

use vstd::prelude::*;

verus! {

/// Seconds between two heartbeats of a chunk server.
pub const HEARTBEAT_INTERVAL: u64 = 2;

/// A disk of a chunk server.
#[derive(Debug, Clone, PartialEq, Eq)]
pub struct Disk {
    pub name: String,
    pub kind: String,
    pub file_system: String,
    pub mount_point: String,
    pub total_space: u64,
    pub available_space: u64,
}

/// The mathematical content of a `Disk`.
pub struct DiskView {
    pub name: Seq<char>,
    pub kind: Seq<char>,
    pub file_system: Seq<char>,
    pub mount_point: Seq<char>,
    pub total_space: u64,
    pub available_space: u64,
}

impl DeepView for Disk {
    type V = DiskView;

    open spec fn deep_view(&self) -> DiskView {
        DiskView {
            name: self.name@,
            kind: self.kind@,
            file_system: self.file_system@,
            mount_point: self.mount_point@,
            total_space: self.total_space,
            available_space: self.available_space,
        }
    }
}

impl View for Disk {
    type V = DiskView;

    open spec fn view(&self) -> DiskView {
        self.deep_view()
    }
}

impl Disk {
    /// A copy of this disk.
    pub fn duplicate(&self) -> (copy: Self)
        ensures
            copy@ == self@,
    {
        Disk {
            name: self.name.clone(),
            kind: self.kind.clone(),
            file_system: self.file_system.clone(),
            mount_point: self.mount_point.clone(),
            total_space: self.total_space,
            available_space: self.available_space,
        }
    }
}

/// One heartbeat: the chunk server's system, its port, the time of the
/// report and its disk.
#[derive(Debug, Clone, PartialEq, Eq)]
pub struct Metadata {
    pub os_name: String,
    pub os_version: String,
    pub host_name: String,
    pub chunkserver_id: u16,
    pub last_heartbeat: u64,
    pub disk_info: Disk,
}

/// The mathematical content of a heartbeat.
pub struct HeartbeatView {
    pub os_name: Seq<char>,
    pub os_version: Seq<char>,
    pub host_name: Seq<char>,
    pub chunkserver_id: u16,
    pub last_heartbeat: u64,
    pub disk_info: DiskView,
}

impl DeepView for Metadata {
    type V = HeartbeatView;

    open spec fn deep_view(&self) -> HeartbeatView {
        HeartbeatView {
            os_name: self.os_name@,
            os_version: self.os_version@,
            host_name: self.host_name@,
            chunkserver_id: self.chunkserver_id,
            last_heartbeat: self.last_heartbeat,
            disk_info: self.disk_info@,
        }
    }
}

impl View for Metadata {
    type V = HeartbeatView;

    open spec fn view(&self) -> HeartbeatView {
        self.deep_view()
    }
}

} // verus!
