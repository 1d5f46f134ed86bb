use gfs_master::chunk_heartbeat::{heartbeat_tick, initial_report, select_disk};
use gfs_master::chunk_manager::{place, save_server_map, ChunkTables};
use gfs_master::heartbeat_manager::{address_text, decimal_text, receive_heartbeat};
use gfs_master::master_chunk_utils::{Disk, Metadata, HEARTBEAT_INTERVAL};

fn s(text: &str) -> String {
    text.to_string()
}

fn disk(mount: &str, free: u64) -> Disk {
    Disk {
        name: s("sda"),
        kind: s("SSD"),
        file_system: s("ext4"),
        mount_point: s(mount),
        total_space: 1000,
        available_space: free,
    }
}

#[test]
fn interval_is_two_seconds() {
    assert_eq!(HEARTBEAT_INTERVAL, 2);
}

#[test]
fn decimal_text_of_numbers() {
    assert_eq!(decimal_text(0), "0");
    assert_eq!(decimal_text(7), "7");
    assert_eq!(decimal_text(10), "10");
    assert_eq!(decimal_text(8001), "8001");
    assert_eq!(decimal_text(65535), "65535");
    assert_eq!(decimal_text(u64::MAX), "18446744073709551615");
}

#[test]
fn address_is_ip_colon_port() {
    assert_eq!(address_text("10.0.0.1", 8001), "10.0.0.1:8001");
    assert_eq!(address_text("localhost", 0), "localhost:0");
    assert_eq!(address_text("", 65535), ":65535");
}

#[test]
fn heartbeat_admits_a_new_server_only() {
    let mut tables = ChunkTables::new();
    let report = initial_report(None, None, None, &vec![disk("/", 1)]).unwrap();
    let mut from_port = report.clone();
    from_port.chunkserver_id = 8001;
    receive_heartbeat(&mut tables, "10.0.0.1", &from_port).unwrap();
    assert_eq!(save_server_map(&tables), vec![s("10.0.0.1:8001")]);
    place(&mut tables, vec![1], vec![s("10.0.0.1:8001")]);
    receive_heartbeat(&mut tables, "10.0.0.1", &from_port).unwrap();
    assert_eq!(save_server_map(&tables), vec![s("10.0.0.1:8001,00000000-0000-0000-0000-000000000001")]);
    receive_heartbeat(&mut tables, "10.0.0.1", &report).unwrap();
    assert_eq!(save_server_map(&tables).len(), 2);
}

#[test]
fn select_disk_takes_the_first_system_disk() {
    assert_eq!(select_disk(&vec![]), None);
    assert_eq!(select_disk(&vec![disk("/home", 1), disk("/boot", 2)]), None);
    assert_eq!(select_disk(&vec![disk("/home", 1), disk("/", 2), disk("C:\\", 3)]), Some(1));
    assert_eq!(select_disk(&vec![disk("C:\\", 1), disk("/", 2)]), Some(0));
    assert_eq!(select_disk(&vec![disk("C:", 1), disk("c:\\", 2), disk("//", 3)]), None);
}

#[test]
fn initial_report_fills_in_unknown() {
    let disks = vec![disk("/data", 9), disk("/", 42)];
    let report = initial_report(Some(s("Linux")), None, None, &disks).unwrap();
    assert_eq!(
        report,
        Metadata {
            os_name: s("Linux"),
            os_version: s("Unknown"),
            host_name: s("Unknown"),
            chunkserver_id: 1,
            last_heartbeat: 0,
            disk_info: disk("/", 42),
        }
    );
    assert!(initial_report(Some(s("Linux")), Some(s("6")), Some(s("h")), &vec![disk("/x", 1)]).is_none());
}

#[test]
fn tick_refreshes_space_and_time() {
    let mut report = initial_report(Some(s("Linux")), Some(s("6")), Some(s("h")), &vec![disk("/", 42)]).unwrap();
    let mut other = disk("/", 17);
    other.total_space = 5;
    other.name = s("nvme");
    assert!(heartbeat_tick(&mut report, &vec![disk("/mnt", 1), other], 1234));
    assert_eq!(report.last_heartbeat, 1234);
    assert_eq!(report.disk_info.available_space, 17);
    // Only the free space is taken from the disk.
    assert_eq!(report.disk_info.total_space, 1000);
    assert_eq!(report.disk_info.name, "sda");
    let before = report.clone();
    assert!(!heartbeat_tick(&mut report, &vec![disk("/mnt", 1)], 9999));
    assert_eq!(report, before);
}
