//! The plain records that the master hands to its clients.

use crate::chunk_id::{chunk_id_text, id_parse, id_text};
use crate::clock::{utc_now, Timestamp};
use crate::safe_map::Snapshot;
use vstd::prelude::*;

verus! {

/// A chunk and the server that holds it, both as text.
#[derive(Debug, Clone, PartialEq, Eq)]
pub struct ChunkInfo {
    pub uuid: String,
    pub key: String,
}

impl DeepView for ChunkInfo {
    /// The identifier's text and the server's address.
    type V = (Seq<char>, Seq<char>);

    open spec fn deep_view(&self) -> (Seq<char>, Seq<char>) {
        (self.uuid@, self.key@)
    }
}

/// The record that stands for one placed chunk.
pub open spec fn chunk_info_of(pair: (u128, Seq<char>)) -> (Seq<char>, Seq<char>) {
    (id_text(pair.0), pair.1)
}

impl ChunkInfo {
    /// One record for each pair of a chunk and its server, in order.
    pub fn serialize(file: Vec<(u128, String)>) -> (chunks: Vec<ChunkInfo>)
        ensures
            chunks.deep_view() == file.deep_view().map_values(
                |pair: (u128, Seq<char>)| chunk_info_of(pair),
            ),
            forall|i: int|
                0 <= i < file@.len() ==> id_parse(#[trigger] chunks@[i].uuid@) == Some(file@[i].0),
    {
        let mut chunks: Vec<ChunkInfo> = Vec::new();
        let mut i: usize = 0;
        while i < file.len()
            invariant
                i <= file@.len(),
                chunks@.len() == i,
                forall|j: int|
                    0 <= j < i ==> (#[trigger] chunks@[j]).deep_view() == chunk_info_of(
                        file@[j].deep_view(),
                    ) && id_parse(chunks@[j].uuid@) == Some(file@[j].0),
            decreases file@.len() - i,
        {
            let uuid = chunk_id_text(file[i].0);
            let key = file[i].1.clone();
            chunks.push(ChunkInfo { uuid, key });
            i += 1;
        }
        assert(chunks.deep_view() =~= file.deep_view().map_values(
            |pair: (u128, Seq<char>)| chunk_info_of(pair),
        ));
        chunks
    }
}

/// The attributes of a file or a directory.
#[derive(Debug, Clone, PartialEq, Eq)]
pub struct Metadata {
    pub size: i32,
    pub creation_time: Timestamp,
    pub modification_time: Timestamp,
    pub permission: i32,
    pub owner: String,
    pub group: String,
}

/// The mathematical content of a `Metadata`.
pub struct MetadataView {
    pub size: i32,
    pub creation_time: Timestamp,
    pub modification_time: Timestamp,
    pub permission: i32,
    pub owner: Seq<char>,
    pub group: Seq<char>,
}

impl DeepView for Metadata {
    type V = MetadataView;

    open spec fn deep_view(&self) -> MetadataView {
        MetadataView {
            size: self.size,
            creation_time: self.creation_time,
            modification_time: self.modification_time,
            permission: self.permission,
            owner: self.owner@,
            group: self.group@,
        }
    }
}

impl View for Metadata {
    type V = MetadataView;

    open spec fn view(&self) -> MetadataView {
        self.deep_view()
    }
}

/// The attributes of something created at `now`.
pub open spec fn metadata_at(
    now: Timestamp,
    size: i32,
    permission: i32,
    owner: Seq<char>,
    group: Seq<char>,
) -> MetadataView {
    MetadataView {
        size,
        creation_time: now,
        modification_time: now,
        permission,
        owner,
        group,
    }
}

impl Metadata {
    /// The attributes of something created at `now`.
    pub fn at(now: Timestamp, size: i32, permission: i32, owner: String, group: String) -> (m: Self)
        ensures
            m@ == metadata_at(now, size, permission, owner@, group@),
    {
        Metadata {
            size,
            creation_time: now,
            modification_time: now,
            permission,
            owner,
            group,
        }
    }

    /// The attributes of something created at this moment: created and
    /// last modified at the same time, whatever the clock reads.
    pub fn new(size: i32, permission: i32, owner: String, group: String) -> (m: Self)
        ensures
            m@ == metadata_at(m@.creation_time, size, permission, owner@, group@),
    {
        Metadata::at(utc_now(), size, permission, owner, group)
    }
}

impl Snapshot for Metadata {
    fn snapshot(&self) -> (copy: Self) {
        Metadata {
            size: self.size,
            creation_time: self.creation_time,
            modification_time: self.modification_time,
            permission: self.permission,
            owner: self.owner.clone(),
            group: self.group.clone(),
        }
    }
}

/// A file as the master reports it.
#[derive(Debug, Clone, PartialEq, Eq)]
pub struct FileInfo {
    pub file_name: String,
    pub file_parent: String,
    pub file_metadata: Metadata,
    pub chunks: Vec<Vec<String>>,
}

/// The mathematical content of a `FileInfo`.
pub struct FileInfoView {
    pub name: Seq<char>,
    pub parent: Seq<char>,
    pub metadata: MetadataView,
    pub chunks: Seq<Seq<Seq<char>>>,
}

impl DeepView for FileInfo {
    type V = FileInfoView;

    open spec fn deep_view(&self) -> FileInfoView {
        FileInfoView {
            name: self.file_name@,
            parent: self.file_parent@,
            metadata: self.file_metadata@,
            chunks: self.chunks.deep_view(),
        }
    }
}

impl View for FileInfo {
    type V = FileInfoView;

    open spec fn view(&self) -> FileInfoView {
        self.deep_view()
    }
}

/// A directory as the master reports it, with its files by name.
#[derive(Debug, Clone, PartialEq, Eq)]
pub struct DirectoryInfo {
    pub dir_name: String,
    pub dir_parent: String,
    pub dir_metadata: Metadata,
    pub files: Vec<(String, FileInfo)>,
}

/// The mathematical content of a `DirectoryInfo`.
pub struct DirectoryInfoView {
    pub name: Seq<char>,
    pub parent: Seq<char>,
    pub metadata: MetadataView,
    pub files: Seq<(Seq<char>, FileInfoView)>,
}

impl DeepView for DirectoryInfo {
    type V = DirectoryInfoView;

    open spec fn deep_view(&self) -> DirectoryInfoView {
        DirectoryInfoView {
            name: self.dir_name@,
            parent: self.dir_parent@,
            metadata: self.dir_metadata@,
            files: self.files.deep_view(),
        }
    }
}

impl View for DirectoryInfo {
    type V = DirectoryInfoView;

    open spec fn view(&self) -> DirectoryInfoView {
        self.deep_view()
    }
}

/// A user's credentials.
#[derive(Debug, Clone, PartialEq, Eq)]
pub struct User {
    pub username: String,
    pub password: String,
}

} // verus!
