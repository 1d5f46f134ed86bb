use gfs_master::chunk_manager::{add_server, save_chunk_map, save_server_map, chunk_manager_init, ChunkTables};
use gfs_master::clock::Timestamp;
use gfs_master::error::FsError;
use gfs_master::heartbeat_manager::receive_heartbeat;
use gfs_master::master_chunk_utils::{Disk, Metadata as Heartbeat};
use gfs_master::master_client_utils::{ChunkInfo, DirectoryInfo, FileInfo, Metadata};
use gfs_master::namespace_manager::{
    append_group, directory_create, directory_create_at, directory_delete, file_create,
    file_create_at, file_delete, file_lookup, file_read, file_read_all, file_write,
    list_directory, load_dir_state, namespace_manager_init, namespace_manager_init_at,
    save_dir_state, Namespace, DIR_SIZE, FILE_SIZE, PERMISSION,
};

fn s(text: &str) -> String {
    text.to_string()
}

fn fresh() -> Namespace {
    namespace_manager_init(&vec![]).unwrap()
}

fn at(secs: i64) -> Timestamp {
    Timestamp { secs, nanos: 5 }
}

fn heartbeat(port: u16) -> Heartbeat {
    Heartbeat {
        os_name: s("Linux"),
        os_version: s("6"),
        host_name: s("h"),
        chunkserver_id: port,
        last_heartbeat: 0,
        disk_info: Disk {
            name: s("sda"),
            kind: s("SSD"),
            file_system: s("ext4"),
            mount_point: s("/"),
            total_space: 10,
            available_space: 5,
        },
    }
}

fn three_servers() -> ChunkTables {
    let mut tables = ChunkTables::new();
    for ip in ["10.0.0.1", "10.0.0.2", "10.0.0.3"] {
        receive_heartbeat(&mut tables, ip, &heartbeat(8001)).unwrap();
    }
    tables
}

#[test]
fn constants() {
    assert_eq!(DIR_SIZE, 4000);
    assert_eq!(FILE_SIZE, 10000);
    assert_eq!(PERMISSION, 0x666);
}

#[test]
fn a_fresh_namespace_holds_the_root() {
    let ns = namespace_manager_init_at(&vec![], at(7)).unwrap();
    let root = list_directory(&ns, s("/")).unwrap();
    assert_eq!(
        root,
        DirectoryInfo {
            dir_name: s("/"),
            dir_parent: s("/"),
            dir_metadata: Metadata {
                size: 4000,
                creation_time: at(7),
                modification_time: at(7),
                permission: 0x666,
                owner: s("0"),
                group: s("root"),
            },
            files: vec![],
        }
    );
}

#[test]
fn created_directory_lists_no_children() {
    let mut ns = fresh();
    assert_eq!(directory_create_at(&mut ns, s("/a"), at(9)), Ok(()));
    let info = list_directory(&ns, s("/a")).unwrap();
    assert_eq!(info.dir_name, "/a");
    assert_eq!(info.dir_parent, "/");
    assert!(info.files.is_empty());
    assert_eq!(
        info.dir_metadata,
        Metadata {
            size: 10000,
            creation_time: at(9),
            modification_time: at(9),
            permission: 0x666,
            owner: s("1"),
            group: s("user"),
        }
    );
    assert_eq!(directory_create(&mut ns, s("/a/b")), Ok(()));
    assert_eq!(list_directory(&ns, s("/a/b")).unwrap().dir_parent, "/a");
}

#[test]
fn directory_create_twice_is_already_exists() {
    let mut ns = fresh();
    assert_eq!(directory_create(&mut ns, s("/a")), Ok(()));
    assert_eq!(directory_create(&mut ns, s("/a")), Err(FsError::AlreadyExists));
    assert_eq!(FsError::AlreadyExists.status_code(), 409);
}

#[test]
fn directory_create_needs_the_parent() {
    let mut ns = fresh();
    assert_eq!(directory_create(&mut ns, s("/a/b")), Err(FsError::NotFound));
    assert_eq!(list_directory(&ns, s("/a/b")).err(), Some(FsError::NotFound));
    assert_eq!(directory_create(&mut ns, s("x")), Ok(()));
    assert_eq!(list_directory(&ns, s("x")).unwrap().dir_parent, "/");
}

#[test]
fn the_root_is_permanent() {
    let mut ns = fresh();
    assert_eq!(directory_create(&mut ns, s("/")), Err(FsError::AlreadyExists));
    assert_eq!(directory_delete(&mut ns, s("/")), Err(FsError::InvalidInput));
    assert!(list_directory(&ns, s("/")).is_ok());
}

#[test]
fn created_file_reads_empty_and_can_be_deleted() {
    let mut ns = fresh();
    let tables = ChunkTables::new();
    directory_create(&mut ns, s("/a")).unwrap();
    let info = file_create_at(&mut ns, s("/a/b"), at(3)).unwrap();
    assert_eq!(
        info,
        FileInfo {
            file_name: s("b"),
            file_parent: s("/a"),
            file_metadata: Metadata {
                size: 10000,
                creation_time: at(3),
                modification_time: at(3),
                permission: 0x666,
                owner: s("1"),
                group: s("user"),
            },
            chunks: vec![],
        }
    );
    assert_eq!(file_read(&ns, &tables, s("/a/b")), Ok(vec![]));
    assert_eq!(file_read_all(&ns, &tables, s("/a/b")), Ok(vec![]));
    assert_eq!(file_lookup(&ns, s("/a/b")), Ok(vec![]));
    assert_eq!(list_directory(&ns, s("/a")).unwrap().files, vec![(s("b"), info)]);
    assert_eq!(file_delete(&mut ns, s("/a/b")), Ok(()));
    assert_eq!(file_delete(&mut ns, s("/a/b")), Err(FsError::NotFound));
    assert_eq!(file_read(&ns, &tables, s("/a/b")), Err(FsError::NotFound));
}

#[test]
fn file_create_twice_is_already_exists() {
    let mut ns = fresh();
    directory_create(&mut ns, s("/a")).unwrap();
    assert!(file_create(&mut ns, s("/a/b")).is_ok());
    assert_eq!(file_create(&mut ns, s("/a/b")).err(), Some(FsError::AlreadyExists));
}

#[test]
fn file_operations_need_the_parent() {
    let mut ns = fresh();
    let mut tables = three_servers();
    assert_eq!(file_create(&mut ns, s("/a/b")).err(), Some(FsError::NotFound));
    assert_eq!(file_delete(&mut ns, s("/a/b")), Err(FsError::NotFound));
    assert_eq!(file_lookup(&ns, s("/a/b")), Err(FsError::NotFound));
    assert_eq!(file_read_all(&ns, &tables, s("/a/b")), Err(FsError::NotFound));
    assert_eq!(file_write(&mut ns, &mut tables, s("/a/b"), 1), Err(FsError::NotFound));
    assert_eq!(append_group(&mut ns, &s("/a/b"), vec![1]), Err(FsError::NotFound));
    assert!(save_chunk_map(&tables).is_empty());
    assert!(file_create(&mut ns, s("plain")).is_ok());
    assert_eq!(list_directory(&ns, s("/")).unwrap().files[0].0, "plain");
}

#[test]
fn file_write_without_servers_is_unavailable() {
    let mut ns = fresh();
    let mut tables = ChunkTables::new();
    file_create(&mut ns, s("/x")).unwrap();
    assert_eq!(file_write(&mut ns, &mut tables, s("/x"), 1024), Err(FsError::Unavailable));
    assert_eq!(file_lookup(&ns, s("/x")), Ok(vec![]));
}

#[test]
fn two_heartbeats_are_not_enough() {
    let mut ns = fresh();
    let mut tables = ChunkTables::new();
    receive_heartbeat(&mut tables, "10.0.0.1", &heartbeat(8001)).unwrap();
    receive_heartbeat(&mut tables, "10.0.0.2", &heartbeat(8001)).unwrap();
    file_create(&mut ns, s("/x")).unwrap();
    let answer = file_write(&mut ns, &mut tables, s("/x"), 1024);
    assert_eq!(answer, Err(FsError::Unavailable));
    assert_eq!(answer.err().unwrap().status_code(), 503);
}

#[test]
fn repeated_heartbeats_admit_one_server() {
    let mut tables = ChunkTables::new();
    for _ in 0..5 {
        receive_heartbeat(&mut tables, "10.0.0.1", &heartbeat(8001)).unwrap();
    }
    assert_eq!(save_server_map(&tables), vec![s("10.0.0.1:8001")]);
}

#[test]
fn directory_delete_drops_files_but_not_subdirectories() {
    let mut ns = fresh();
    directory_create(&mut ns, s("/a")).unwrap();
    directory_create(&mut ns, s("/a/sub")).unwrap();
    file_create(&mut ns, s("/a/f")).unwrap();
    file_create(&mut ns, s("/a/sub/g")).unwrap();
    assert_eq!(directory_delete(&mut ns, s("/a")), Ok(()));
    assert_eq!(list_directory(&ns, s("/a")).err(), Some(FsError::NotFound));
    assert_eq!(file_lookup(&ns, s("/a/f")), Err(FsError::NotFound));
    assert_eq!(file_lookup(&ns, s("/a/sub/g")), Ok(vec![]));
    assert!(list_directory(&ns, s("/a/sub")).is_ok());
    assert_eq!(directory_delete(&mut ns, s("/a")), Err(FsError::NotFound));
    // Created again, the directory is empty.
    directory_create(&mut ns, s("/a")).unwrap();
    assert!(list_directory(&ns, s("/a")).unwrap().files.is_empty());
}

#[test]
fn end_to_end_write_read_restart() {
    let mut ns = fresh();
    let mut tables = three_servers();
    let addresses = [s("10.0.0.1:8001"), s("10.0.0.2:8001"), s("10.0.0.3:8001")];
    assert_eq!(directory_create(&mut ns, s("/a")), Ok(()));
    assert!(file_create(&mut ns, s("/a/x")).is_ok());

    let first = file_write(&mut ns, &mut tables, s("/a/x"), 1024).unwrap();
    assert_eq!(first.len(), 3);
    for (i, (id, key)) in first.iter().enumerate() {
        assert!(addresses.contains(key));
        assert!(first[..i].iter().all(|(other, _)| other != id));
    }
    let reported = ChunkInfo::serialize(first.clone());
    assert_eq!(reported.len(), 3);
    assert_eq!(reported[0].uuid, uuid::Uuid::from_u128(first[0].0).to_string());
    assert_eq!(reported[0].key, first[0].1);

    assert_eq!(file_read(&ns, &tables, s("/a/x")), Ok(first.clone()));
    assert_eq!(file_read_all(&ns, &tables, s("/a/x")), Ok(first.clone()));

    let second = file_write(&mut ns, &mut tables, s("/a/x"), 1024).unwrap();
    let mut all = first.clone();
    all.extend(second.clone());
    assert_eq!(all.len(), 6);
    assert_eq!(file_read(&ns, &tables, s("/a/x")), Ok(first.clone()));
    assert_eq!(file_read_all(&ns, &tables, s("/a/x")), Ok(all.clone()));
    assert_eq!(
        file_lookup(&ns, s("/a/x")),
        Ok(vec![first.iter().map(|p| p.0).collect(), second.iter().map(|p| p.0).collect()])
    );

    // Stop and start again from what was saved.
    let saved_dirs = save_dir_state(&ns);
    let saved_chunks = save_chunk_map(&tables);
    let saved_servers = save_server_map(&tables);
    let ns2 = namespace_manager_init(&saved_dirs).unwrap();
    let tables2 = chunk_manager_init(&saved_chunks, &saved_servers).unwrap();
    assert_eq!(file_read_all(&ns2, &tables2, s("/a/x")), Ok(all));
    assert_eq!(file_read(&ns2, &tables2, s("/a/x")), Ok(first));
    assert_eq!(list_directory(&ns2, s("/a")), list_directory(&ns, s("/a")));
    assert_eq!(list_directory(&ns2, s("/")), list_directory(&ns, s("/")));
    assert_eq!(save_dir_state(&ns2).len(), 2);
}

#[test]
fn writes_to_other_files_leave_a_file_alone() {
    let mut ns = fresh();
    let mut tables = three_servers();
    file_create(&mut ns, s("/x")).unwrap();
    file_create(&mut ns, s("/y")).unwrap();
    let x1 = file_write(&mut ns, &mut tables, s("/x"), 1).unwrap();
    let y1 = file_write(&mut ns, &mut tables, s("/y"), 1).unwrap();
    assert_eq!(file_read(&ns, &tables, s("/x")), Ok(x1));
    assert_eq!(file_read_all(&ns, &tables, s("/y")), Ok(y1));
}

#[test]
fn append_group_extends_the_history() {
    let mut ns = fresh();
    let mut tables = ChunkTables::new();
    add_server(&mut tables, s("a:1")).unwrap();
    add_server(&mut tables, s("b:1")).unwrap();
    let placed = gfs_master::chunk_manager::place(&mut tables, vec![1, 2], vec![s("a:1"), s("b:1")]);
    assert_eq!(placed.len(), 2);
    file_create(&mut ns, s("/f")).unwrap();
    assert_eq!(append_group(&mut ns, &s("/f"), vec![1, 99]), Ok(()));
    assert_eq!(append_group(&mut ns, &s("/f"), vec![]), Ok(()));
    assert_eq!(append_group(&mut ns, &s("/f"), vec![2]), Ok(()));
    assert_eq!(file_lookup(&ns, s("/f")), Ok(vec![vec![1, 99], vec![], vec![2]]));
    // Unknown chunks are passed over when the history is resolved.
    assert_eq!(file_read(&ns, &tables, s("/f")), Ok(vec![(1, s("a:1"))]));
    assert_eq!(file_read_all(&ns, &tables, s("/f")), Ok(vec![(1, s("a:1")), (2, s("b:1"))]));
}

#[test]
fn loading_keeps_the_saved_root() {
    let mut ns = namespace_manager_init_at(&vec![], at(1)).unwrap();
    file_create(&mut ns, s("/kept")).unwrap();
    let saved = save_dir_state(&ns);
    let again = namespace_manager_init_at(&saved, at(2)).unwrap();
    let root = list_directory(&again, s("/")).unwrap();
    assert_eq!(root.dir_metadata.creation_time, at(1));
    assert_eq!(root.files.len(), 1);
    assert_eq!(root.files[0].0, "kept");
}

#[test]
fn loading_rejects_a_bad_chunk_identifier() {
    let mut ns = fresh();
    file_create(&mut ns, s("/f")).unwrap();
    let mut saved = save_dir_state(&ns);
    saved[0].files[0].1.chunks.push(vec![s("not-a-uuid")]);
    assert_eq!(namespace_manager_init(&saved).err(), Some(FsError::InvalidInput));
    assert_eq!(FsError::InvalidInput.status_code(), 400);
}

#[test]
fn load_dir_state_adds_each_directory_under_its_name() {
    let mut source = fresh();
    directory_create(&mut source, s("/a")).unwrap();
    let mut saved = save_dir_state(&source);
    saved.retain(|d| d.dir_name == "/a");
    let mut second = saved[0].clone();
    second.dir_parent = s("/elsewhere");
    saved.push(second);
    let ns = namespace_manager_init(&saved).unwrap();
    // The later record replaced the earlier one; the root was added.
    assert_eq!(list_directory(&ns, s("/a")).unwrap().dir_parent, "/elsewhere");
    assert!(list_directory(&ns, s("/")).is_ok());
}

#[test]
fn load_dir_state_adds_to_what_is_there() {
    let mut source = fresh();
    directory_create(&mut source, s("/a")).unwrap();
    file_create(&mut source, s("/a/f")).unwrap();
    let saved: Vec<DirectoryInfo> =
        save_dir_state(&source).into_iter().filter(|d| d.dir_name == "/a").collect();
    let mut ns = fresh();
    directory_create(&mut ns, s("/b")).unwrap();
    assert_eq!(load_dir_state(&mut ns, &saved), Ok(()));
    assert!(list_directory(&ns, s("/b")).is_ok());
    assert_eq!(file_lookup(&ns, s("/a/f")), Ok(vec![]));
    // A bad record: nothing is added, not even the good one before it.
    let mut more = saved.clone();
    more[0].dir_name = s("/c");
    let mut bad = saved.clone();
    bad[0].dir_name = s("/d");
    bad[0].files[0].1.chunks.push(vec![s("x")]);
    more.push(bad.remove(0));
    assert_eq!(load_dir_state(&mut ns, &more), Err(FsError::InvalidInput));
    assert_eq!(list_directory(&ns, s("/c")).err(), Some(FsError::NotFound));
    assert_eq!(save_dir_state(&ns).len(), 3);
}

#[test]
fn no_file_is_created_where_a_directory_stands() {
    let mut ns = fresh();
    assert_eq!(directory_create(&mut ns, s("/a")), Ok(()));
    assert_eq!(file_create(&mut ns, s("/a")).err(), Some(FsError::AlreadyExists));
    assert_eq!(file_lookup(&ns, s("/a")), Err(FsError::NotFound));
    assert!(list_directory(&ns, s("/")).unwrap().files.is_empty());
    // The root is a directory too.
    assert_eq!(file_create(&mut ns, s("/")).err(), Some(FsError::AlreadyExists));
    assert_eq!(file_create(&mut ns, s("")).err(), Some(FsError::AlreadyExists));
    // Another spelling of the same place in the root.
    assert_eq!(file_create(&mut ns, s("a")).err(), Some(FsError::AlreadyExists));
    assert_eq!(file_create(&mut ns, s("//a")).err(), Some(FsError::AlreadyExists));
    assert_eq!(directory_create(&mut ns, s("b")), Ok(()));
    assert_eq!(file_create(&mut ns, s("/b")).err(), Some(FsError::AlreadyExists));
    assert!(list_directory(&ns, s("/")).unwrap().files.is_empty());
    // Elsewhere the name is free.
    assert!(file_create(&mut ns, s("/a/a")).is_ok());
}

#[test]
fn no_directory_is_created_where_a_file_stands() {
    let mut ns = fresh();
    directory_create(&mut ns, s("/a")).unwrap();
    file_create(&mut ns, s("/a/f")).unwrap();
    file_create(&mut ns, s("/g")).unwrap();
    assert_eq!(directory_create(&mut ns, s("/a/f")), Err(FsError::AlreadyExists));
    assert_eq!(directory_create(&mut ns, s("/g")), Err(FsError::AlreadyExists));
    assert_eq!(directory_create(&mut ns, s("g")), Err(FsError::AlreadyExists));
    assert_eq!(list_directory(&ns, s("/a/f")).err(), Some(FsError::NotFound));
    assert_eq!(file_lookup(&ns, s("/a/f")), Ok(vec![]));
    // Once the file is gone the directory can be created.
    file_delete(&mut ns, s("/a/f")).unwrap();
    assert_eq!(directory_create(&mut ns, s("/a/f")), Ok(()));
    // The parent is looked at first.
    assert_eq!(directory_create(&mut ns, s("/nowhere/f")), Err(FsError::NotFound));
}

#[test]
fn loading_rejects_a_path_that_names_both() {
    let mut ns = fresh();
    directory_create(&mut ns, s("/a")).unwrap();
    file_create(&mut ns, s("/a/f")).unwrap();
    let mut saved = save_dir_state(&ns);
    // A record of a directory under the file's path.
    let mut extra = saved.iter().find(|d| d.dir_name == "/a").unwrap().clone();
    extra.dir_name = s("/a/f");
    extra.dir_parent = s("/a");
    extra.files.clear();
    saved.push(extra.clone());
    assert_eq!(namespace_manager_init(&saved).err(), Some(FsError::InvalidInput));
    assert_eq!(load_dir_state(&mut ns, &vec![extra]), Err(FsError::InvalidInput));
    assert_eq!(list_directory(&ns, s("/a/f")).err(), Some(FsError::NotFound));
    assert_eq!(file_lookup(&ns, s("/a/f")), Ok(vec![]));
}

#[test]
fn a_sender_with_a_comma_in_its_address_is_refused() {
    let mut tables = ChunkTables::new();
    assert_eq!(receive_heartbeat(&mut tables, "10.0.0.1,x", &heartbeat(8001)), Err(FsError::InvalidInput));
    assert_eq!(add_server(&mut tables, s("a,b:1")), Err(FsError::InvalidInput));
    assert_eq!(add_server(&mut tables, s(",")), Err(FsError::InvalidInput));
    assert!(save_server_map(&tables).is_empty());
    assert_eq!(add_server(&mut tables, s("a:1")), Ok(()));
    assert_eq!(add_server(&mut tables, s("a:1")), Ok(()));
    assert_eq!(add_server(&mut tables, s("")), Ok(()));
    assert_eq!(save_server_map(&tables).len(), 2);
}
