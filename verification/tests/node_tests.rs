use gfs_master::clock::Timestamp;
use gfs_master::error::FsError;
use gfs_master::file_node::{DirectoryNode, FileNode};
use gfs_master::master_client_utils::{ChunkInfo, DirectoryInfo, FileInfo, Metadata};

fn s(text: &str) -> String {
    text.to_string()
}

fn metadata() -> Metadata {
    Metadata::at(Timestamp { secs: 100, nanos: 1 }, 10000, 0x666, s("1"), s("user"))
}

#[test]
fn metadata_at_sets_both_times() {
    let m = metadata();
    assert_eq!(m.size, 10000);
    assert_eq!(m.permission, 0x666);
    assert_eq!(m.owner, "1");
    assert_eq!(m.group, "user");
    assert_eq!(m.creation_time, Timestamp { secs: 100, nanos: 1 });
    assert_eq!(m.modification_time, m.creation_time);
}

#[test]
fn metadata_new_reads_the_clock_once() {
    let m = Metadata::new(4000, 0x666, s("0"), s("root"));
    assert_eq!(m.size, 4000);
    assert_eq!(m.permission, 0x666);
    assert_eq!(m.owner, "0");
    assert_eq!(m.group, "root");
    assert_eq!(m.creation_time, m.modification_time);
    // The clock is past 2020.
    assert!(m.creation_time.secs > 1_577_836_800);
}

#[test]
fn file_node_serializes_its_history_as_text() {
    let mut file = FileNode::new(s("b"), s("/a"), metadata());
    assert!(file.history().is_empty());
    file.append_group(vec![1, 2]);
    file.append_group(vec![]);
    file.append_group(vec![0xa1a2a3a4b1b2c1c2d1d2d3d4d5d6d7d8]);
    assert_eq!(file.history(), &vec![vec![1, 2], vec![], vec![0xa1a2a3a4b1b2c1c2d1d2d3d4d5d6d7d8]]);
    let info = file.serialize();
    assert_eq!(
        info,
        FileInfo {
            file_name: s("b"),
            file_parent: s("/a"),
            file_metadata: metadata(),
            chunks: vec![
                vec![s("00000000-0000-0000-0000-000000000001"), s("00000000-0000-0000-0000-000000000002")],
                vec![],
                vec![s("a1a2a3a4-b1b2-c1c2-d1d2-d3d4d5d6d7d8")],
            ],
        }
    );
    let back = FileNode::deserialize(&info).unwrap();
    assert_eq!(back.history(), file.history());
    assert_eq!(back.serialize(), info);
}

#[test]
fn file_node_rejects_a_bad_identifier() {
    let mut info = FileNode::new(s("b"), s("/a"), metadata()).serialize();
    info.chunks.push(vec![s("00000000-0000-0000-0000-000000000001"), s("zz")]);
    assert_eq!(FileNode::deserialize(&info).err(), Some(FsError::InvalidInput));
}

#[test]
fn directory_node_holds_files_by_name() {
    let mut dir = DirectoryNode::new(s("/a"), metadata(), s("/"));
    assert_eq!(dir.name(), "/a");
    assert!(dir.file(&s("f")).is_none());
    assert!(dir.insert_file(s("f"), FileNode::new(s("f"), s("/a"), metadata())).is_none());
    let mut second = FileNode::new(s("f"), s("/a"), metadata());
    second.append_group(vec![9]);
    assert!(dir.insert_file(s("f"), second).is_some());
    assert_eq!(dir.file(&s("f")).unwrap().history(), &vec![vec![9]]);
    dir.insert_file(s("g"), FileNode::new(s("g"), s("/a"), metadata()));
    let info = dir.serialize();
    assert_eq!(info.dir_name, "/a");
    assert_eq!(info.dir_parent, "/");
    assert_eq!(info.dir_metadata, metadata());
    let mut names: Vec<String> = info.files.iter().map(|f| f.0.clone()).collect();
    names.sort();
    assert_eq!(names, vec![s("f"), s("g")]);
    assert!(dir.remove_file(&s("f")).is_some());
    assert!(dir.remove_file(&s("f")).is_none());
    assert_eq!(dir.serialize().files.len(), 1);
}

#[test]
fn directory_node_converts_both_ways() {
    let mut dir = DirectoryNode::new(s("/a"), metadata(), s("/"));
    let mut file = FileNode::new(s("f"), s("/a"), metadata());
    file.append_group(vec![3, 4, 5]);
    dir.insert_file(s("f"), file);
    let info = dir.serialize();
    let back = DirectoryNode::deserialize(&info).unwrap();
    assert_eq!(back.serialize(), info);
    assert_eq!(back.file(&s("f")).unwrap().history(), &vec![vec![3, 4, 5]]);
}

#[test]
fn directory_node_takes_the_later_record_of_a_name() {
    let older = FileNode::new(s("f"), s("/a"), metadata()).serialize();
    let mut newer = older.clone();
    newer.chunks.push(vec![s("00000000-0000-0000-0000-000000000007")]);
    let info = DirectoryInfo {
        dir_name: s("/a"),
        dir_parent: s("/"),
        dir_metadata: metadata(),
        files: vec![(s("f"), older), (s("f"), newer)],
    };
    let dir = DirectoryNode::deserialize(&info).unwrap();
    assert_eq!(dir.file(&s("f")).unwrap().history(), &vec![vec![7]]);
    assert_eq!(dir.serialize().files.len(), 1);
    let mut bad = info.clone();
    bad.files[0].1.chunks.push(vec![s("?")]);
    assert_eq!(DirectoryNode::deserialize(&bad).err(), Some(FsError::InvalidInput));
}

#[test]
fn chunk_info_reports_pairs_in_order() {
    let infos = ChunkInfo::serialize(vec![(2, s("b:1")), (1, s("a:1"))]);
    assert_eq!(
        infos,
        vec![
            ChunkInfo { uuid: s("00000000-0000-0000-0000-000000000002"), key: s("b:1") },
            ChunkInfo { uuid: s("00000000-0000-0000-0000-000000000001"), key: s("a:1") },
        ]
    );
    assert!(ChunkInfo::serialize(vec![]).is_empty());
}
