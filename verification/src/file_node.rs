//! File and directory nodes, and their conversion to the records that the
//! master reports and stores.

use crate::chunk_id::{group_from_text, group_text, group_to_text, parse_group};
use crate::error::FsError;
use crate::master_client_utils::{
    DirectoryInfo, DirectoryInfoView, FileInfo, FileInfoView, Metadata, MetadataView,
};
use crate::safe_map::{distinct_keys, map_of, Snapshot, Table};
use vstd::prelude::*;

verus! {

/// The textual form of a chunk history.
pub open spec fn history_text(history: Seq<Seq<u128>>) -> Seq<Seq<Seq<char>>> {
    history.map_values(|g: Seq<u128>| group_text(g))
}

/// The chunk history that a list of lists of texts denotes, if every text
/// denotes an identifier.
pub open spec fn parse_history(texts: Seq<Seq<Seq<char>>>) -> Option<Seq<Seq<u128>>>
    decreases texts.len(),
{
    if texts.len() == 0 {
        Some(Seq::empty())
    } else {
        match (parse_history(texts.drop_last()), parse_group(texts.last())) {
            (Some(history), Some(group)) => Some(history.push(group)),
            _ => None,
        }
    }
}

/// Where a front part of the texts denotes no history, the whole does not.
pub proof fn lemma_parse_history_prefix(texts: Seq<Seq<Seq<char>>>, n: int)
    requires
        0 <= n <= texts.len(),
        parse_history(texts.take(n)) is None,
    ensures
        parse_history(texts) is None,
    decreases texts.len() - n,
{
    if n < texts.len() {
        assert(texts.take(n + 1).drop_last() =~= texts.take(n));
        lemma_parse_history_prefix(texts, n + 1);
    } else {
        assert(texts.take(n) =~= texts);
    }
}

/// A file: its name, the path of its directory, its attributes and its
/// chunk history, one group of chunks for each write.
pub struct FileNode {
    file_name: String,
    file_parent: String,
    file_metadata: Metadata,
    chunks: Vec<Vec<u128>>,
}

/// The mathematical content of a file node.
pub struct FileView {
    pub name: Seq<char>,
    pub parent: Seq<char>,
    pub metadata: MetadataView,
    pub chunks: Seq<Seq<u128>>,
}

impl DeepView for FileNode {
    type V = FileView;

    closed spec fn deep_view(&self) -> FileView {
        FileView {
            name: self.file_name@,
            parent: self.file_parent@,
            metadata: self.file_metadata@,
            chunks: self.chunks.deep_view(),
        }
    }
}

impl View for FileNode {
    type V = FileView;

    open spec fn view(&self) -> FileView {
        self.deep_view()
    }
}

/// The record that reports a file.
pub open spec fn file_info_of(f: FileView) -> FileInfoView {
    FileInfoView {
        name: f.name,
        parent: f.parent,
        metadata: f.metadata,
        chunks: history_text(f.chunks),
    }
}

/// The file that a record denotes, if every text in it denotes a chunk.
pub open spec fn file_of_info(info: FileInfoView) -> Option<FileView> {
    match parse_history(info.chunks) {
        Some(chunks) => Some(
            FileView { name: info.name, parent: info.parent, metadata: info.metadata, chunks },
        ),
        None => None,
    }
}

/// A file without chunks.
pub open spec fn empty_file(name: Seq<char>, parent: Seq<char>, metadata: MetadataView) -> FileView {
    FileView { name, parent, metadata, chunks: Seq::empty() }
}

/// The file after one more write.
pub open spec fn with_group(f: FileView, group: Seq<u128>) -> FileView {
    FileView { name: f.name, parent: f.parent, metadata: f.metadata, chunks: f.chunks.push(group) }
}

impl FileNode {
    /// A file without chunks.
    pub fn new(file_name: String, file_parent: String, file_metadata: Metadata) -> (file: Self)
        ensures
            file@ == empty_file(file_name@, file_parent@, file_metadata@),
    {
        let file = FileNode { file_name, file_parent, file_metadata, chunks: Vec::new() };
        assert(file.chunks.deep_view() =~= Seq::<Seq<u128>>::empty());
        file
    }

    /// The chunk history.
    pub fn history(&self) -> (chunks: &Vec<Vec<u128>>)
        ensures
            chunks.deep_view() == self@.chunks,
    {
        &self.chunks
    }

    /// Appends the chunks of one write to the history.
    pub fn append_group(&mut self, group: Vec<u128>)
        ensures
            final(self)@ == with_group(old(self)@, group@),
    {
        let ghost before = self.chunks.deep_view();
        assert(group.deep_view() =~= group@);
        self.chunks.push(group);
        assert(self.chunks.deep_view() =~= before.push(group@));
    }

    /// The record that reports this file. The record denotes the file
    /// again.
    pub fn serialize(&self) -> (info: FileInfo)
        ensures
            info@ == file_info_of(self@),
            file_of_info(info@) == Some(self@),
    {
        let ghost history = self.chunks.deep_view();
        let mut chunks: Vec<Vec<String>> = Vec::new();
        let mut i: usize = 0;
        assert(history.take(0) =~= Seq::<Seq<u128>>::empty());
        assert(chunks.deep_view() =~= history_text(history.take(0)));
        while i < self.chunks.len()
            invariant
                history == self.chunks.deep_view(),
                i <= self.chunks@.len(),
                chunks.deep_view() == history_text(history.take(i as int)),
                parse_history(chunks.deep_view()) == Some(history.take(i as int)),
            decreases self.chunks@.len() - i,
        {
            let ghost done = chunks.deep_view();
            let texts = group_to_text(&self.chunks[i]);
            chunks.push(texts);
            proof {
                assert(history[i as int] == self.chunks@[i as int]@);
                assert(chunks.deep_view() =~= done.push(group_text(history[i as int])));
                assert(chunks.deep_view().drop_last() =~= done);
                assert(history.take(i + 1) =~= history.take(i as int).push(history[i as int]));
                assert(chunks.deep_view() =~= history_text(history.take(i + 1)));
            }
            i += 1;
        }
        assert(history.take(i as int) =~= history);
        FileInfo {
            file_name: self.file_name.clone(),
            file_parent: self.file_parent.clone(),
            file_metadata: self.file_metadata.snapshot(),
            chunks,
        }
    }

    /// The file that a record denotes, or `InvalidInput` where a text in it
    /// denotes no chunk.
    pub fn deserialize(info: &FileInfo) -> (r: Result<Self, FsError>)
        ensures
            match file_of_info(info@) {
                Some(file) => r matches Ok(node) && node@ == file,
                None => r matches Err(e) && e == FsError::InvalidInput,
            },
    {
        let ghost texts = info.chunks.deep_view();
        let mut chunks: Vec<Vec<u128>> = Vec::new();
        let mut i: usize = 0;
        assert(texts.take(0) =~= Seq::<Seq<Seq<char>>>::empty());
        assert(chunks.deep_view() =~= Seq::<Seq<u128>>::empty());
        while i < info.chunks.len()
            invariant
                texts == info.chunks.deep_view(),
                i <= info.chunks@.len(),
                parse_history(texts.take(i as int)) == Some(chunks.deep_view()),
            decreases info.chunks@.len() - i,
        {
            proof {
                assert(texts.take(i + 1).drop_last() =~= texts.take(i as int));
                assert(texts[i as int] == info.chunks@[i as int].deep_view());
            }
            let ghost done = chunks.deep_view();
            match group_from_text(&info.chunks[i]) {
                Ok(group) => {
                    let ghost ids = group@;
                    assert(group.deep_view() =~= ids);
                    chunks.push(group);
                    assert(chunks.deep_view() =~= done.push(ids));
                },
                Err(e) => {
                    proof {
                        lemma_parse_history_prefix(texts, i + 1);
                    }
                    return Err(e);
                },
            }
            i += 1;
        }
        assert(texts.take(i as int) =~= texts);
        Ok(
            FileNode {
                file_name: info.file_name.clone(),
                file_parent: info.file_parent.clone(),
                file_metadata: info.file_metadata.snapshot(),
                chunks,
            },
        )
    }
}

impl Snapshot for FileNode {
    fn snapshot(&self) -> (copy: Self) {
        FileNode {
            file_name: self.file_name.clone(),
            file_parent: self.file_parent.clone(),
            file_metadata: self.file_metadata.snapshot(),
            chunks: self.chunks.snapshot(),
        }
    }
}

/// A directory: its path, the path of its parent, its attributes and its
/// files by name.
pub struct DirectoryNode {
    dir_name: String,
    dir_parent: String,
    dir_metadata: Metadata,
    files: Table<String, FileNode>,
}

/// The mathematical content of a directory node.
pub struct DirView {
    pub name: Seq<char>,
    pub parent: Seq<char>,
    pub metadata: MetadataView,
    pub files: Map<Seq<char>, FileView>,
}

impl DeepView for DirectoryNode {
    type V = DirView;

    closed spec fn deep_view(&self) -> DirView {
        DirView {
            name: self.dir_name@,
            parent: self.dir_parent@,
            metadata: self.dir_metadata@,
            files: self.files@,
        }
    }
}

impl View for DirectoryNode {
    type V = DirView;

    open spec fn view(&self) -> DirView {
        self.deep_view()
    }
}

/// A directory without files.
pub open spec fn empty_dir(name: Seq<char>, parent: Seq<char>, metadata: MetadataView) -> DirView {
    DirView { name, parent, metadata, files: Map::empty() }
}

/// The directory with `file` stored under `name`.
pub open spec fn dir_with_file(d: DirView, name: Seq<char>, file: FileView) -> DirView {
    DirView { name: d.name, parent: d.parent, metadata: d.metadata, files: d.files.insert(name, file) }
}

/// The directory without the file `name`.
pub open spec fn dir_without_file(d: DirView, name: Seq<char>) -> DirView {
    DirView { name: d.name, parent: d.parent, metadata: d.metadata, files: d.files.remove(name) }
}

/// The listed files with each reported as a record.
pub open spec fn file_infos_of(files: Map<Seq<char>, FileView>) -> Map<Seq<char>, FileInfoView> {
    files.map_values(|f: FileView| file_info_of(f))
}

/// The files that a list of named records denotes, a later record
/// replacing an earlier one of the same name, if every record denotes a
/// file.
pub open spec fn files_of_infos(list: Seq<(Seq<char>, FileInfoView)>) -> Option<
    Map<Seq<char>, FileView>,
>
    decreases list.len(),
{
    if list.len() == 0 {
        Some(Map::empty())
    } else {
        match (files_of_infos(list.drop_last()), file_of_info(list.last().1)) {
            (Some(files), Some(file)) => Some(files.insert(list.last().0, file)),
            _ => None,
        }
    }
}

/// The directory that a record denotes, if every file record in it denotes
/// a file.
pub open spec fn dir_of_info(info: DirectoryInfoView) -> Option<DirView> {
    match files_of_infos(info.files) {
        Some(files) => Some(
            DirView { name: info.name, parent: info.parent, metadata: info.metadata, files },
        ),
        None => None,
    }
}

/// Where a front part of the list denotes no files, the whole does not.
pub proof fn lemma_files_of_infos_prefix(list: Seq<(Seq<char>, FileInfoView)>, n: int)
    requires
        0 <= n <= list.len(),
        files_of_infos(list.take(n)) is None,
    ensures
        files_of_infos(list) is None,
    decreases list.len() - n,
{
    if n < list.len() {
        assert(list.take(n + 1).drop_last() =~= list.take(n));
        lemma_files_of_infos_prefix(list, n + 1);
    } else {
        assert(list.take(n) =~= list);
    }
}

/// A list of named files reported record by record stands for the mapping
/// of the files, each reported as a record.
pub proof fn lemma_map_of_infos(pairs: Seq<(Seq<char>, FileView)>)
    ensures
        map_of(pairs.map_values(|p: (Seq<char>, FileView)| (p.0, file_info_of(p.1))))
            == file_infos_of(map_of(pairs)),
    decreases pairs.len(),
{
    let f = |p: (Seq<char>, FileView)| (p.0, file_info_of(p.1));
    if pairs.len() == 0 {
        assert(map_of(pairs.map_values(f)) =~= file_infos_of(map_of(pairs)));
    } else {
        lemma_map_of_infos(pairs.drop_last());
        assert(pairs.map_values(f).drop_last() =~= pairs.drop_last().map_values(f));
        assert(map_of(pairs.map_values(f)) =~= file_infos_of(map_of(pairs)));
    }
}

impl DirectoryNode {
    /// A directory without files.
    pub fn new(dir_name: String, dir_metadata: Metadata, dir_parent: String) -> (dir: Self)
        ensures
            dir@ == empty_dir(dir_name@, dir_parent@, dir_metadata@),
    {
        DirectoryNode { dir_name, dir_parent, dir_metadata, files: Table::new() }
    }

    /// A copy of the directory's path.
    pub fn name(&self) -> (name: String)
        ensures
            name@ == self@.name,
    {
        self.dir_name.clone()
    }

    /// The file stored under `name`, if any.
    pub fn file(&self, name: &String) -> (found: Option<&FileNode>)
        ensures
            match found {
                Some(f) => self@.files.contains_key(name@) && f@ == self@.files[name@],
                None => !self@.files.contains_key(name@),
            },
    {
        self.files.get(name)
    }

    /// Stores `file` under `name` and returns the file that it replaced.
    pub fn insert_file(&mut self, name: String, file: FileNode) -> (previous: Option<FileNode>)
        ensures
            final(self)@ == dir_with_file(old(self)@, name@, file@),
            match previous {
                Some(f) => old(self)@.files.contains_key(name@) && f@ == old(self)@.files[name@],
                None => !old(self)@.files.contains_key(name@),
            },
    {
        self.files.insert(name, file)
    }

    /// Removes the file `name` and returns it.
    pub fn remove_file(&mut self, name: &String) -> (removed: Option<FileNode>)
        ensures
            match removed {
                Some(f) => {
                    &&& old(self)@.files.contains_key(name@)
                    &&& f@ == old(self)@.files[name@]
                    &&& final(self)@ == dir_without_file(old(self)@, name@)
                },
                None => !old(self)@.files.contains_key(name@) && final(self)@ == old(self)@,
            },
    {
        self.files.remove(name)
    }

    /// The record that reports this directory and its files, no file
    /// twice. The record denotes the directory again.
    pub fn serialize(&self) -> (info: DirectoryInfo)
        ensures
            info@.name == self@.name,
            info@.parent == self@.parent,
            info@.metadata == self@.metadata,
            distinct_keys(info@.files),
            map_of(info@.files) == file_infos_of(self@.files),
            dir_of_info(info@) == Some(self@),
    {
        let entries = self.files.entries();
        let ghost pairs = entries.deep_view();
        let ghost f = |p: (Seq<char>, FileView)| (p.0, file_info_of(p.1));
        let mut files: Vec<(String, FileInfo)> = Vec::new();
        let mut i: usize = 0;
        assert(pairs.take(0) =~= Seq::<(Seq<char>, FileView)>::empty());
        assert(files.deep_view() =~= pairs.take(0).map_values(f));
        while i < entries.len()
            invariant
                pairs == entries.deep_view(),
                f == |p: (Seq<char>, FileView)| (p.0, file_info_of(p.1)),
                i <= entries@.len(),
                files.deep_view() == pairs.take(i as int).map_values(f),
                files_of_infos(files.deep_view()) == Some(map_of(pairs.take(i as int))),
            decreases entries@.len() - i,
        {
            let ghost done = files.deep_view();
            let name = entries[i].0.clone();
            let record = entries[i].1.serialize();
            files.push((name, record));
            proof {
                assert(pairs[i as int] == entries@[i as int].deep_view());
                assert(files.deep_view() =~= done.push(f(pairs[i as int])));
                assert(files.deep_view().drop_last() =~= done);
                assert(pairs.take(i + 1) =~= pairs.take(i as int).push(pairs[i as int]));
                assert(pairs.take(i + 1).drop_last() =~= pairs.take(i as int));
                assert(files.deep_view() =~= pairs.take(i + 1).map_values(f));
            }
            i += 1;
        }
        proof {
            assert(pairs.take(i as int) =~= pairs);
            lemma_map_of_infos(pairs);
            assert(crate::safe_map::keys_of(files.deep_view()) =~= crate::safe_map::keys_of(pairs));
        }
        DirectoryInfo {
            dir_name: self.dir_name.clone(),
            dir_parent: self.dir_parent.clone(),
            dir_metadata: self.dir_metadata.snapshot(),
            files,
        }
    }

    /// The directory that a record denotes, or `InvalidInput` where a text
    /// in it denotes no chunk.
    pub fn deserialize(info: &DirectoryInfo) -> (r: Result<Self, FsError>)
        ensures
            match dir_of_info(info@) {
                Some(dir) => r matches Ok(node) && node@ == dir,
                None => r matches Err(e) && e == FsError::InvalidInput,
            },
    {
        let ghost list = info.files.deep_view();
        let mut files: Table<String, FileNode> = Table::new();
        let mut i: usize = 0;
        assert(list.take(0) =~= Seq::<(Seq<char>, FileInfoView)>::empty());
        while i < info.files.len()
            invariant
                list == info.files.deep_view(),
                i <= info.files@.len(),
                files_of_infos(list.take(i as int)) == Some(files@),
            decreases info.files@.len() - i,
        {
            proof {
                assert(list.take(i + 1).drop_last() =~= list.take(i as int));
                assert(list[i as int] == info.files@[i as int].deep_view());
            }
            match FileNode::deserialize(&info.files[i].1) {
                Ok(node) => {
                    files.insert(info.files[i].0.clone(), node);
                },
                Err(e) => {
                    proof {
                        lemma_files_of_infos_prefix(list, i + 1);
                    }
                    return Err(e);
                },
            }
            i += 1;
        }
        assert(list.take(i as int) =~= list);
        Ok(
            DirectoryNode {
                dir_name: info.dir_name.clone(),
                dir_parent: info.dir_parent.clone(),
                dir_metadata: info.dir_metadata.snapshot(),
                files,
            },
        )
    }
}

impl Snapshot for DirectoryNode {
    fn snapshot(&self) -> (copy: Self) {
        DirectoryNode {
            dir_name: self.dir_name.clone(),
            dir_parent: self.dir_parent.clone(),
            dir_metadata: self.dir_metadata.snapshot(),
            files: self.files.snapshot(),
        }
    }
}

} // verus!
