//! The chunk server's side of the heartbeat: what to report on each tick.

use crate::master_chunk_utils::{Disk, DiskView, HeartbeatView, Metadata};
use vstd::prelude::*;

verus! {

/// Whether a disk is the one that a chunk server reports: the disk mounted
/// at `/` or at `C:\`.
pub open spec fn is_system_disk(disk: DiskView) -> bool {
    disk.mount_point == "/"@ || disk.mount_point == "C:\\"@
}

/// The position of the first system disk.
pub open spec fn first_system_disk(disks: Seq<DiskView>) -> Option<int>
    decreases disks.len(),
{
    if disks.len() == 0 {
        None
    } else {
        match first_system_disk(disks.drop_last()) {
            Some(i) => Some(i),
            None => if is_system_disk(disks.last()) {
                Some(disks.len() - 1)
            } else {
                None
            },
        }
    }
}

/// A system disk found in a front part of the list is the first in the
/// whole.
pub proof fn lemma_first_system_disk_prefix(disks: Seq<DiskView>, n: int)
    requires
        0 <= n <= disks.len(),
        first_system_disk(disks.take(n)) is Some,
    ensures
        first_system_disk(disks) == first_system_disk(disks.take(n)),
    decreases disks.len() - n,
{
    if n < disks.len() {
        assert(disks.take(n + 1).drop_last() =~= disks.take(n));
        lemma_first_system_disk_prefix(disks, n + 1);
    } else {
        assert(disks.take(n) =~= disks);
    }
}

/// The position of the disk to report.
pub fn select_disk(disks: &Vec<Disk>) -> (selected: Option<usize>)
    ensures
        match selected {
            Some(k) => first_system_disk(disks.deep_view()) == Some(k as int) && k < disks@.len(),
            None => first_system_disk(disks.deep_view()) is None,
        },
{
    let ghost all = disks.deep_view();
    let unix_root = "/".to_owned();
    let windows_root = "C:\\".to_owned();
    let mut i: usize = 0;
    assert(all.take(0) =~= Seq::<DiskView>::empty());
    while i < disks.len()
        invariant
            all == disks.deep_view(),
            unix_root@ == "/"@,
            windows_root@ == "C:\\"@,
            i <= disks@.len(),
            first_system_disk(all.take(i as int)) is None,
        decreases disks@.len() - i,
    {
        proof {
            assert(all.take(i + 1).drop_last() =~= all.take(i as int));
            assert(all.take(i + 1).last() == disks@[i as int]@);
        }
        if disks[i].mount_point == unix_root || disks[i].mount_point == windows_root {
            proof {
                lemma_first_system_disk_prefix(all, i + 1);
            }
            return Some(i);
        }
        i += 1;
    }
    assert(all.take(i as int) =~= all);
    None
}

/// The text to report where the system does not tell.
pub open spec fn or_unknown(text: Option<Seq<char>>) -> Seq<char> {
    match text {
        Some(t) => t,
        None => "Unknown"@,
    }
}

/// The first report of a chunk server with the disk `disk`.
pub open spec fn first_report(
    os_name: Option<Seq<char>>,
    os_version: Option<Seq<char>>,
    host_name: Option<Seq<char>>,
    disk: DiskView,
) -> HeartbeatView {
    HeartbeatView {
        os_name: or_unknown(os_name),
        os_version: or_unknown(os_version),
        host_name: or_unknown(host_name),
        chunkserver_id: 1,
        last_heartbeat: 0,
        disk_info: disk,
    }
}

/// The report with the free space of `disk` and the time `now`.
pub open spec fn refreshed(report: HeartbeatView, disk: DiskView, now: u64) -> HeartbeatView {
    HeartbeatView {
        os_name: report.os_name,
        os_version: report.os_version,
        host_name: report.host_name,
        chunkserver_id: report.chunkserver_id,
        last_heartbeat: now,
        disk_info: DiskView {
            name: report.disk_info.name,
            kind: report.disk_info.kind,
            file_system: report.disk_info.file_system,
            mount_point: report.disk_info.mount_point,
            total_space: report.disk_info.total_space,
            available_space: disk.available_space,
        },
    }
}

fn text_or_unknown(text: Option<String>) -> (r: String)
    ensures
        r@ == or_unknown(
            match text {
                Some(t) => Some(t@),
                None => None,
            },
        ),
{
    match text {
        Some(t) => t,
        None => "Unknown".to_owned(),
    }
}

/// The report with which a chunk server starts, or `None` where it has no
/// system disk and sends nothing.
pub fn initial_report(
    os_name: Option<String>,
    os_version: Option<String>,
    host_name: Option<String>,
    disks: &Vec<Disk>,
) -> (report: Option<Metadata>)
    ensures
        match first_system_disk(disks.deep_view()) {
            Some(i) => report matches Some(m) && m@ == first_report(
                match os_name {
                    Some(t) => Some(t@),
                    None => None,
                },
                match os_version {
                    Some(t) => Some(t@),
                    None => None,
                },
                match host_name {
                    Some(t) => Some(t@),
                    None => None,
                },
                disks.deep_view()[i],
            ),
            None => report is None,
        },
{
    match select_disk(disks) {
        None => None,
        Some(i) => {
            assert(disks.deep_view()[i as int] == disks@[i as int]@);
            Some(
                Metadata {
                    os_name: text_or_unknown(os_name),
                    os_version: text_or_unknown(os_version),
                    host_name: text_or_unknown(host_name),
                    chunkserver_id: 1,
                    last_heartbeat: 0,
                    disk_info: disks[i].duplicate(),
                },
            )
        },
    }
}

/// One tick of the heartbeat at the time `now`, with the disks as they are
/// now. The report takes the free space of the system disk and the time,
/// and `true` says that it is to be sent. Without a system disk the report
/// stays as it is, and `false` says that the heartbeat ends. Whether an
/// earlier report was delivered plays no part.
pub fn heartbeat_tick(report: &mut Metadata, disks: &Vec<Disk>, now: u64) -> (send: bool)
    ensures
        match first_system_disk(disks.deep_view()) {
            Some(i) => send && final(report)@ == refreshed(old(report)@, disks.deep_view()[i], now),
            None => !send && final(report)@ == old(report)@,
        },
{
    match select_disk(disks) {
        None => false,
        Some(i) => {
            assert(disks.deep_view()[i as int] == disks@[i as int]@);
            report.disk_info.available_space = disks[i].available_space;
            report.last_heartbeat = now;
            true
        },
    }
}

} // verus!
