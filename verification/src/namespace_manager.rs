//! The namespace: every directory by its absolute path, and the files of
//! each directory by name.

use crate::chunk_manager::{
    all_known, consistent, get_chunks, ids_of, lemma_resolve_placed, lemma_resolve_unchanged,
    pair_up, placement_valid, resolve, restored_chunks, servers_of, with_placement, write_chunks,
    ChunkTables, ChunkTablesView, REPLICAS,
};
use crate::clock::{utc_now, Timestamp};
use crate::error::FsError;
use crate::file_node::{
    dir_of_info, dir_with_file, dir_without_file, empty_dir, empty_file, file_info_of,
    file_infos_of, with_group, DirView, DirectoryNode, FileNode, FileView,
};
use crate::master_client_utils::{
    metadata_at, DirectoryInfo, DirectoryInfoView, FileInfo, Metadata, MetadataView,
};
use crate::safe_map::{distinct_keys, lemma_map_of_index, map_of, SafeMap, Snapshot};
use crate::text::{root_path, root_string, split_path, split_path_spec};
use vstd::prelude::*;

verus! {

/// The size recorded for the root directory.
pub const DIR_SIZE: i32 = 4000;

/// The size recorded for a new file or directory.
pub const FILE_SIZE: i32 = 10000;

/// The permission bits recorded for everything.
pub const PERMISSION: i32 = 0x666;

/// The attributes of a file or directory created at `now`.
pub open spec fn new_metadata(now: Timestamp) -> MetadataView {
    metadata_at(now, FILE_SIZE, PERMISSION, "1"@, "user"@)
}

/// The attributes of a root directory created at `now`.
pub open spec fn root_metadata(now: Timestamp) -> MetadataView {
    metadata_at(now, DIR_SIZE, PERMISSION, "0"@, "root"@)
}

/// The root directory as created at `now`: it is its own parent.
pub open spec fn root_dir(now: Timestamp) -> DirView {
    empty_dir(root_path(), root_path(), root_metadata(now))
}

/// Every directory is stored under its own name.
pub open spec fn named_by_key(ns: Map<Seq<char>, DirView>) -> bool {
    forall|k: Seq<char>| #[trigger] ns.contains_key(k) ==> ns[k].name == k
}

/// No path names both a directory and a file.
pub open spec fn no_shared_path(ns: Map<Seq<char>, DirView>) -> bool {
    forall|p: Seq<char>| #[trigger] ns.contains_key(p) ==> file_at(ns, p) is None
}

/// Whether a directory stands where `path` would put a file: some
/// directory's path splits into the same parent and name as `path`.
pub open spec fn names_directory(ns: Map<Seq<char>, DirView>, path: Seq<char>) -> bool {
    exists|q: Seq<char>| #[trigger] ns.contains_key(q) && split_path_spec(q) == split_path_spec(path)
}

/// The root exists, every directory is stored under its own name, and no
/// path names both a directory and a file.
pub open spec fn valid_namespace(ns: Map<Seq<char>, DirView>) -> bool {
    ns.contains_key(root_path()) && named_by_key(ns) && no_shared_path(ns)
}

/// What creating the directory `path` answers. A path that names a
/// directory or a file already is not created again.
pub open spec fn directory_create_result(ns: Map<Seq<char>, DirView>, path: Seq<char>) -> Result<
    (),
    FsError,
> {
    if ns.contains_key(path) {
        Err(FsError::AlreadyExists)
    } else if !ns.contains_key(split_path_spec(path).0) {
        Err(FsError::NotFound)
    } else if file_at(ns, path) is Some {
        Err(FsError::AlreadyExists)
    } else {
        Ok(())
    }
}

/// The namespace with the directory `path` created at `now`.
pub open spec fn directory_created(
    ns: Map<Seq<char>, DirView>,
    path: Seq<char>,
    now: Timestamp,
) -> Map<Seq<char>, DirView> {
    ns.insert(path, empty_dir(path, split_path_spec(path).0, new_metadata(now)))
}

/// What deleting the directory `path` answers. The root is never deleted.
pub open spec fn directory_delete_result(ns: Map<Seq<char>, DirView>, path: Seq<char>) -> Result<
    (),
    FsError,
> {
    if path == root_path() {
        Err(FsError::InvalidInput)
    } else if !ns.contains_key(path) {
        Err(FsError::NotFound)
    } else {
        Ok(())
    }
}

/// The namespace without the directory `path` and without its files.
pub open spec fn directory_deleted(ns: Map<Seq<char>, DirView>, path: Seq<char>) -> Map<
    Seq<char>,
    DirView,
> {
    ns.remove(path)
}

/// What listing the directory `path` answers.
pub open spec fn listing(ns: Map<Seq<char>, DirView>, path: Seq<char>) -> Result<DirView, FsError> {
    if ns.contains_key(path) {
        Ok(ns[path])
    } else {
        Err(FsError::NotFound)
    }
}

/// The file that `path` names, if there is one.
pub open spec fn file_at(ns: Map<Seq<char>, DirView>, path: Seq<char>) -> Option<FileView> {
    let (parent, name) = split_path_spec(path);
    if ns.contains_key(parent) && ns[parent].files.contains_key(name) {
        Some(ns[parent].files[name])
    } else {
        None
    }
}

/// The namespace with `file` stored at `path`.
pub open spec fn put_file(ns: Map<Seq<char>, DirView>, path: Seq<char>, file: FileView) -> Map<
    Seq<char>,
    DirView,
> {
    let (parent, name) = split_path_spec(path);
    ns.insert(parent, dir_with_file(ns[parent], name, file))
}

/// What creating the file `path` answers. A place where a directory or a
/// file stands already takes no new file.
pub open spec fn file_create_result(ns: Map<Seq<char>, DirView>, path: Seq<char>) -> Result<
    (),
    FsError,
> {
    let (parent, name) = split_path_spec(path);
    if !ns.contains_key(parent) {
        Err(FsError::NotFound)
    } else if names_directory(ns, path) {
        Err(FsError::AlreadyExists)
    } else if ns[parent].files.contains_key(name) {
        Err(FsError::AlreadyExists)
    } else {
        Ok(())
    }
}

/// The file `path` as created at `now`.
pub open spec fn new_file(path: Seq<char>, now: Timestamp) -> FileView {
    let (parent, name) = split_path_spec(path);
    empty_file(name, parent, new_metadata(now))
}

/// The namespace with the file `path` created at `now`.
pub open spec fn file_created(ns: Map<Seq<char>, DirView>, path: Seq<char>, now: Timestamp) -> Map<
    Seq<char>,
    DirView,
> {
    put_file(ns, path, new_file(path, now))
}

/// What deleting the file `path` answers.
pub open spec fn file_delete_result(ns: Map<Seq<char>, DirView>, path: Seq<char>) -> Result<
    (),
    FsError,
> {
    if file_at(ns, path) is Some {
        Ok(())
    } else {
        Err(FsError::NotFound)
    }
}

/// The namespace without the file `path`.
pub open spec fn file_deleted(ns: Map<Seq<char>, DirView>, path: Seq<char>) -> Map<
    Seq<char>,
    DirView,
> {
    let (parent, name) = split_path_spec(path);
    ns.insert(parent, dir_without_file(ns[parent], name))
}

/// The namespace after one more write to the file `path`.
pub open spec fn file_written(ns: Map<Seq<char>, DirView>, path: Seq<char>, group: Seq<u128>) -> Map<
    Seq<char>,
    DirView,
> {
    put_file(ns, path, with_group(file_at(ns, path)->0, group))
}

/// `base` with the directories that a list of records denotes added, each
/// under its own name, a later record replacing an earlier one of the same
/// name, if every record denotes a directory.
pub open spec fn loaded_dirs_into(
    base: Map<Seq<char>, DirView>,
    saved: Seq<DirectoryInfoView>,
) -> Option<Map<Seq<char>, DirView>>
    decreases saved.len(),
{
    if saved.len() == 0 {
        Some(base)
    } else {
        match (loaded_dirs_into(base, saved.drop_last()), dir_of_info(saved.last())) {
            (Some(dirs), Some(dir)) => Some(dirs.insert(dir.name, dir)),
            _ => None,
        }
    }
}

/// The directories that a list of records denotes.
pub open spec fn loaded_dirs(saved: Seq<DirectoryInfoView>) -> Option<Map<Seq<char>, DirView>> {
    loaded_dirs_into(Map::empty(), saved)
}

/// Where a front part of the records denotes no directories, the whole
/// does not.
pub proof fn lemma_loaded_dirs_prefix(
    base: Map<Seq<char>, DirView>,
    saved: Seq<DirectoryInfoView>,
    n: int,
)
    requires
        0 <= n <= saved.len(),
        loaded_dirs_into(base, saved.take(n)) is None,
    ensures
        loaded_dirs_into(base, saved) is None,
    decreases saved.len() - n,
{
    if n < saved.len() {
        assert(saved.take(n + 1).drop_last() =~= saved.take(n));
        lemma_loaded_dirs_prefix(base, saved, n + 1);
    } else {
        assert(saved.take(n) =~= saved);
    }
}

/// Loading keeps a namespace valid.
pub proof fn lemma_loaded_dirs_valid(base: Map<Seq<char>, DirView>, saved: Seq<DirectoryInfoView>)
    requires
        named_by_key(base),
    ensures
        loaded_dirs_into(base, saved) matches Some(dirs) ==> named_by_key(dirs) && (
        base.contains_key(root_path()) ==> dirs.contains_key(root_path())),
    decreases saved.len(),
{
    if saved.len() > 0 {
        lemma_loaded_dirs_valid(base, saved.drop_last());
    }
}

/// The namespace after a start from `dirs`: the root is added, as created
/// at `now`, where it is missing.
pub open spec fn with_root(dirs: Map<Seq<char>, DirView>, now: Timestamp) -> Map<Seq<char>, DirView> {
    if dirs.contains_key(root_path()) {
        dirs
    } else {
        dirs.insert(root_path(), root_dir(now))
    }
}

/// The directory map.
pub struct Namespace {
    dirs: SafeMap<String, DirectoryNode>,
}

impl Namespace {
    /// The directory map is initialised.
    pub closed spec fn initialised(&self) -> bool {
        self.dirs@ is Some
    }

    /// Every directory by its path.
    pub closed spec fn view(&self) -> Map<Seq<char>, DirView> {
        self.dirs@->0
    }

    /// The map is initialised, the root exists, every directory is stored
    /// under its own name, and no path names both a directory and a file.
    pub open spec fn wf(&self) -> bool {
        self.initialised() && valid_namespace(self@)
    }
}

/// Whether a directory stands where a file of the name `name` in the
/// directory `parent` would stand.
pub fn place_is_directory(ns: &Namespace, parent: &String, name: &String) -> (taken: bool)
    requires
        ns.initialised(),
    ensures
        taken == exists|q: Seq<char>| #[trigger]
            ns@.contains_key(q) && split_path_spec(q) == (parent@, name@),
{
    let keys = ns.dirs.keys();
    let ghost kv = keys.deep_view();
    let mut i: usize = 0;
    while i < keys.len()
        invariant
            ns.initialised(),
            kv == keys.deep_view(),
            kv.to_set() == ns@.dom(),
            i <= keys@.len(),
            forall|k: int| 0 <= k < i ==> split_path_spec(#[trigger] kv[k]) != (parent@, name@),
        decreases keys@.len() - i,
    {
        assert(kv[i as int] == keys@[i as int]@);
        let (d, n) = split_path(keys[i].as_str());
        if d == *parent && n == *name {
            assert(kv.to_set().contains(kv[i as int]));
            assert(ns@.contains_key(kv[i as int]));
            return true;
        }
        i += 1;
    }
    proof {
        assert forall|q: Seq<char>| #[trigger] ns@.contains_key(q) implies split_path_spec(q) != (
            parent@,
            name@,
        ) by {
            assert(kv.to_set().contains(q));
            let k = choose|k: int| 0 <= k < kv.len() && kv[k] == q;
            assert(split_path_spec(kv[k]) != (parent@, name@));
        }
    }
    false
}

/// Whether no path names both a directory and a file.
pub fn paths_are_distinct(ns: &Namespace) -> (distinct: bool)
    requires
        ns.initialised(),
    ensures
        distinct == no_shared_path(ns@),
{
    let keys = ns.dirs.keys();
    let ghost kv = keys.deep_view();
    let mut i: usize = 0;
    while i < keys.len()
        invariant
            ns.initialised(),
            kv == keys.deep_view(),
            kv.to_set() == ns@.dom(),
            i <= keys@.len(),
            forall|k: int| 0 <= k < i ==> file_at(ns@, #[trigger] kv[k]) is None,
        decreases keys@.len() - i,
    {
        assert(kv[i as int] == keys@[i as int]@);
        let (d, n) = split_path(keys[i].as_str());
        let shared = match ns.dirs.get(&d) {
            Some(dir) => dir.file(&n).is_some(),
            None => false,
        };
        if shared {
            assert(kv.to_set().contains(kv[i as int]));
            assert(ns@.contains_key(kv[i as int]));
            assert(file_at(ns@, kv[i as int]) is Some);
            return false;
        }
        i += 1;
    }
    proof {
        assert forall|p: Seq<char>| #[trigger] ns@.contains_key(p) implies file_at(ns@, p)
            is None by {
            assert(kv.to_set().contains(p));
            let k = choose|k: int| 0 <= k < kv.len() && kv[k] == p;
            assert(file_at(ns@, kv[k]) is None);
        }
    }
    true
}

/// What loading the records into `base` gives: the directories that they
/// denote added, if every record denotes a directory and no path then
/// names both a directory and a file.
pub open spec fn load_result(base: Map<Seq<char>, DirView>, saved: Seq<DirectoryInfoView>) -> Option<
    Map<Seq<char>, DirView>,
> {
    match loaded_dirs_into(base, saved) {
        Some(dirs) => if no_shared_path(dirs) {
            Some(dirs)
        } else {
            None
        },
        None => None,
    }
}

/// Adds the directories that the records denote to the namespace, each
/// under its own name. Where a record denotes no directory, or a path
/// would then name both a directory and a file, nothing is added.
pub fn load_dir_state(ns: &mut Namespace, saved: &Vec<DirectoryInfo>) -> (r: Result<(), FsError>)
    requires
        old(ns).initialised(),
    ensures
        final(ns).initialised(),
        match load_result(old(ns)@, saved.deep_view()) {
            Some(dirs) => r is Ok && final(ns)@ == dirs,
            None => r == Err::<(), FsError>(FsError::InvalidInput) && final(ns)@ == old(ns)@,
        },
        old(ns).wf() ==> final(ns).wf(),
{
    let ghost records = saved.deep_view();
    let ghost base = ns@;
    proof {
        if ns.wf() {
            lemma_loaded_dirs_valid(base, records);
        }
    }
    let mut i: usize = 0;
    while i < saved.len()
        invariant
            ns.initialised(),
            ns@ == base,
            records == saved.deep_view(),
            i <= saved@.len(),
            forall|k: int| 0 <= k < i ==> dir_of_info(#[trigger] records[k]) is Some,
        decreases saved@.len() - i,
    {
        assert(records[i as int] == saved@[i as int].deep_view());
        match DirectoryNode::deserialize(&saved[i]) {
            Ok(_) => {},
            Err(e) => {
                proof {
                    assert(records.take(i + 1).last() == records[i as int]);
                    lemma_loaded_dirs_prefix(base, records, i + 1);
                }
                return Err(e);
            },
        }
        i += 1;
    }
    let mut loaded = Namespace { dirs: ns.dirs.duplicate() };
    let mut j: usize = 0;
    assert(records.take(0) =~= Seq::<DirectoryInfoView>::empty());
    while j < saved.len()
        invariant
            loaded.initialised(),
            records == saved.deep_view(),
            j <= saved@.len(),
            forall|k: int| 0 <= k < saved@.len() ==> dir_of_info(#[trigger] records[k]) is Some,
            loaded_dirs_into(base, records.take(j as int)) == Some(loaded@),
        decreases saved@.len() - j,
    {
        proof {
            assert(records.take(j + 1).drop_last() =~= records.take(j as int));
            assert(records.take(j + 1).last() == records[j as int]);
            assert(records[j as int] == saved@[j as int].deep_view());
            assert(dir_of_info(records[j as int]) is Some);
        }
        match DirectoryNode::deserialize(&saved[j]) {
            Ok(node) => {
                let name = node.name();
                loaded.dirs.insert(name, node);
            },
            Err(_) => {},
        }
        j += 1;
    }
    assert(records.take(j as int) =~= records);
    if !paths_are_distinct(&loaded) {
        return Err(FsError::InvalidInput);
    }
    *ns = loaded;
    Ok(())
}

/// The chunks of the first write to a file; none for a file never written.
pub open spec fn first_group(f: FileView) -> Seq<u128> {
    if f.chunks.len() == 0 {
        Seq::empty()
    } else {
        f.chunks[0]
    }
}

/// The known chunks of a whole history with their servers, group after
/// group in the order of the writes.
pub open spec fn resolve_all(chunks: Map<u128, Seq<char>>, history: Seq<Seq<u128>>) -> Seq<
    (u128, Seq<char>),
>
    decreases history.len(),
{
    if history.len() == 0 {
        Seq::empty()
    } else {
        resolve_all(chunks, history.drop_last()) + resolve(chunks, history.last())
    }
}

/// What reading the file `path` answers: the chunks of its first write.
pub open spec fn file_read_result(
    ns: Map<Seq<char>, DirView>,
    chunks: Map<u128, Seq<char>>,
    path: Seq<char>,
) -> Result<Seq<(u128, Seq<char>)>, FsError> {
    match file_at(ns, path) {
        Some(f) => Ok(resolve(chunks, first_group(f))),
        None => Err(FsError::NotFound),
    }
}

/// What reading all of the file `path` answers: the chunks of every write.
pub open spec fn file_read_all_result(
    ns: Map<Seq<char>, DirView>,
    chunks: Map<u128, Seq<char>>,
    path: Seq<char>,
) -> Result<Seq<(u128, Seq<char>)>, FsError> {
    match file_at(ns, path) {
        Some(f) => Ok(resolve_all(chunks, f.chunks)),
        None => Err(FsError::NotFound),
    }
}

/// The namespace after a start from the records at the time `now`: what
/// the records denote, with the root added where it is missing.
pub open spec fn started(saved: Seq<DirectoryInfoView>, now: Timestamp) -> Option<
    Map<Seq<char>, DirView>,
> {
    match load_result(Map::empty(), saved) {
        Some(dirs) => Some(with_root(dirs, now)),
        None => None,
    }
}

/// Adding the root where it is missing brings no path that names both a
/// directory and a file.
pub proof fn lemma_with_root_valid(dirs: Map<Seq<char>, DirView>, now: Timestamp)
    requires
        named_by_key(dirs),
        no_shared_path(dirs),
    ensures
        valid_namespace(with_root(dirs, now)),
{
    let after = with_root(dirs, now);
    if !dirs.contains_key(root_path()) {
        assert forall|p: Seq<char>| #[trigger] after.contains_key(p) implies file_at(after, p)
            is None by {
            let d = split_path_spec(p).0;
            if d != root_path() {
                assert(file_at(after, p) == file_at(dirs, p));
                if p != root_path() {
                    assert(dirs.contains_key(p));
                }
            }
        }
    }
}

/// Starts the namespace from the saved records at the time `now`: loads
/// them and makes sure that the root exists.
pub fn namespace_manager_init_at(saved: &Vec<DirectoryInfo>, now: Timestamp) -> (r: Result<
    Namespace,
    FsError,
>)
    ensures
        match started(saved.deep_view(), now) {
            Some(dirs) => r matches Ok(ns) && ns.wf() && ns@ == dirs,
            None => r matches Err(e) && e == FsError::InvalidInput,
        },
{
    let mut dirs: SafeMap<String, DirectoryNode> = SafeMap::new();
    dirs.init();
    let mut ns = Namespace { dirs };
    match load_dir_state(&mut ns, saved) {
        Err(e) => {
            return Err(e);
        },
        Ok(_) => {},
    }
    proof {
        lemma_loaded_dirs_valid(Map::empty(), saved.deep_view());
        lemma_with_root_valid(ns@, now);
    }
    let root = root_string();
    if ns.dirs.get(&root).is_none() {
        let metadata = Metadata::at(now, DIR_SIZE, PERMISSION, "0".to_owned(), "root".to_owned());
        let node = DirectoryNode::new(root_string(), metadata, root_string());
        ns.dirs.insert(root, node);
    }
    Ok(ns)
}

/// Starts the namespace from the saved records: loads them and makes sure
/// that the root exists, created now where it was missing.
pub fn namespace_manager_init(saved: &Vec<DirectoryInfo>) -> (r: Result<Namespace, FsError>)
    ensures
        match load_result(Map::empty(), saved.deep_view()) {
            Some(dirs) => r matches Ok(ns) && ns.wf() && ns@ == with_root(
                dirs,
                ns@[root_path()].metadata.creation_time,
            ),
            None => r matches Err(e) && e == FsError::InvalidInput,
        },
{
    namespace_manager_init_at(saved, utc_now())
}

/// One record for each directory, with its files. Loading the records
/// gives the namespace again.
pub fn save_dir_state(ns: &Namespace) -> (saved: Vec<DirectoryInfo>)
    requires
        ns.wf(),
    ensures
        loaded_dirs(saved.deep_view()) == Some(ns@),
{
    let entries = ns.dirs.to_map();
    let ghost pairs = entries.deep_view();
    let mut saved: Vec<DirectoryInfo> = Vec::new();
    let mut i: usize = 0;
    assert(pairs.take(0) =~= Seq::<(Seq<char>, DirView)>::empty());
    assert(saved.deep_view() =~= Seq::<DirectoryInfoView>::empty());
    while i < entries.len()
        invariant
            ns.wf(),
            pairs == entries.deep_view(),
            distinct_keys(pairs),
            map_of(pairs) == ns@,
            i <= entries@.len(),
            loaded_dirs(saved.deep_view()) == Some(map_of(pairs.take(i as int))),
        decreases entries@.len() - i,
    {
        let ghost done = saved.deep_view();
        let record = entries[i].1.serialize();
        proof {
            assert(pairs[i as int] == entries@[i as int].deep_view());
            lemma_map_of_index(pairs, i as int);
            assert(ns@.contains_key(pairs[i as int].0));
            assert(pairs.take(i + 1).drop_last() =~= pairs.take(i as int));
        }
        saved.push(record);
        proof {
            assert(saved.deep_view().drop_last() =~= done);
        }
        i += 1;
    }
    assert(pairs.take(i as int) =~= pairs);
    saved
}

/// Creates the directory `path` at the time `now`.
pub fn directory_create_at(ns: &mut Namespace, path: String, now: Timestamp) -> (r: Result<
    (),
    FsError,
>)
    requires
        old(ns).wf(),
    ensures
        final(ns).wf(),
        r == directory_create_result(old(ns)@, path@),
        r is Ok ==> final(ns)@ == directory_created(old(ns)@, path@, now),
        r is Err ==> final(ns)@ == old(ns)@,
{
    if ns.dirs.get(&path).is_some() {
        return Err(FsError::AlreadyExists);
    }
    let (parent, name) = split_path(path.as_str());
    match ns.dirs.get(&parent) {
        None => {
            return Err(FsError::NotFound);
        },
        Some(dir) => {
            if dir.file(&name).is_some() {
                return Err(FsError::AlreadyExists);
            }
        },
    }
    proof {
        lemma_operations_keep_valid(ns@, path@, Seq::empty(), now);
    }
    let metadata = Metadata::at(now, FILE_SIZE, PERMISSION, "1".to_owned(), "user".to_owned());
    let node = DirectoryNode::new(path.clone(), metadata, parent);
    ns.dirs.insert(path, node);
    Ok(())
}

/// Creates the directory `path`, with the attributes of something created
/// now.
pub fn directory_create(ns: &mut Namespace, path: String) -> (r: Result<(), FsError>)
    requires
        old(ns).wf(),
    ensures
        final(ns).wf(),
        r == directory_create_result(old(ns)@, path@),
        r is Ok ==> final(ns)@ == directory_created(
            old(ns)@,
            path@,
            final(ns)@[path@].metadata.creation_time,
        ),
        r is Err ==> final(ns)@ == old(ns)@,
{
    directory_create_at(ns, path, utc_now())
}

/// Deletes the directory `path` together with its files. Directories
/// below it stay.
pub fn directory_delete(ns: &mut Namespace, path: String) -> (r: Result<(), FsError>)
    requires
        old(ns).wf(),
    ensures
        final(ns).wf(),
        r == directory_delete_result(old(ns)@, path@),
        r is Ok ==> final(ns)@ == directory_deleted(old(ns)@, path@),
        r is Err ==> final(ns)@ == old(ns)@,
{
    let root = root_string();
    if path == root {
        return Err(FsError::InvalidInput);
    }
    match ns.dirs.remove(&path) {
        Some(_) => Ok(()),
        None => Err(FsError::NotFound),
    }
}

/// The directory `path` and its files, no file twice.
pub fn list_directory(ns: &Namespace, path: String) -> (r: Result<DirectoryInfo, FsError>)
    requires
        ns.wf(),
    ensures
        match listing(ns@, path@) {
            Ok(dir) => r matches Ok(info) && {
                &&& info@.name == dir.name
                &&& info@.parent == dir.parent
                &&& info@.metadata == dir.metadata
                &&& distinct_keys(info@.files)
                &&& map_of(info@.files) == file_infos_of(dir.files)
            },
            Err(e) => r matches Err(x) && x == e,
        },
{
    match ns.dirs.get(&path) {
        Some(dir) => Ok(dir.serialize()),
        None => Err(FsError::NotFound),
    }
}

/// The chunk history of the file `path`.
pub fn file_lookup(ns: &Namespace, path: String) -> (r: Result<Vec<Vec<u128>>, FsError>)
    requires
        ns.wf(),
    ensures
        match file_at(ns@, path@) {
            Some(f) => r matches Ok(chunks) && chunks.deep_view() == f.chunks,
            None => r matches Err(e) && e == FsError::NotFound,
        },
{
    let (directory, filename) = split_path(path.as_str());
    match ns.dirs.get(&directory) {
        Some(dir) => match dir.file(&filename) {
            Some(file) => Ok(file.history().snapshot()),
            None => Err(FsError::NotFound),
        },
        None => Err(FsError::NotFound),
    }
}

/// Creates the file `path` at the time `now`, without chunks, and reports
/// it.
pub fn file_create_at(ns: &mut Namespace, path: String, now: Timestamp) -> (r: Result<
    FileInfo,
    FsError,
>)
    requires
        old(ns).wf(),
    ensures
        final(ns).wf(),
        match file_create_result(old(ns)@, path@) {
            Ok(_) => r matches Ok(info) && info@ == file_info_of(new_file(path@, now))
                && final(ns)@ == file_created(old(ns)@, path@, now),
            Err(e) => r matches Err(x) && x == e && final(ns)@ == old(ns)@,
        },
{
    let (directory, filename) = split_path(path.as_str());
    match ns.dirs.get(&directory) {
        None => {
            return Err(FsError::NotFound);
        },
        Some(dir) => {
            if dir.file(&filename).is_some() {
                return Err(FsError::AlreadyExists);
            }
        },
    }
    if place_is_directory(ns, &directory, &filename) {
        return Err(FsError::AlreadyExists);
    }
    let ghost before = ns@;
    proof {
        lemma_operations_keep_valid(before, path@, Seq::empty(), now);
    }
    match ns.dirs.remove(&directory) {
        Some(mut dir) => {
            let m = Metadata::at(now, FILE_SIZE, PERMISSION, "1".to_owned(), "user".to_owned());
            let file = FileNode::new(filename.clone(), directory.clone(), m);
            let info = file.serialize();
            dir.insert_file(filename, file);
            ns.dirs.insert(directory, dir);
            assert(ns@ =~= file_created(before, path@, now));
            Ok(info)
        },
        None => Err(FsError::NotFound),
    }
}

/// Creates the file `path`, without chunks and with the attributes of
/// something created now, and reports it.
pub fn file_create(ns: &mut Namespace, path: String) -> (r: Result<FileInfo, FsError>)
    requires
        old(ns).wf(),
    ensures
        final(ns).wf(),
        match file_create_result(old(ns)@, path@) {
            Ok(_) => r matches Ok(info) && info@ == file_info_of(
                new_file(path@, info@.metadata.creation_time),
            ) && final(ns)@ == file_created(old(ns)@, path@, info@.metadata.creation_time),
            Err(e) => r matches Err(x) && x == e && final(ns)@ == old(ns)@,
        },
{
    file_create_at(ns, path, utc_now())
}

/// Deletes the file `path`.
pub fn file_delete(ns: &mut Namespace, path: String) -> (r: Result<(), FsError>)
    requires
        old(ns).wf(),
    ensures
        final(ns).wf(),
        r == file_delete_result(old(ns)@, path@),
        r is Ok ==> final(ns)@ == file_deleted(old(ns)@, path@),
        r is Err ==> final(ns)@ == old(ns)@,
{
    let (directory, filename) = split_path(path.as_str());
    let ghost before = ns@;
    match ns.dirs.remove(&directory) {
        Some(mut dir) => {
            let removed = dir.remove_file(&filename);
            ns.dirs.insert(directory, dir);
            match removed {
                Some(_) => {
                    assert(ns@ =~= file_deleted(before, path@));
                    Ok(())
                },
                None => {
                    assert(ns@ =~= before);
                    Err(FsError::NotFound)
                },
            }
        },
        None => Err(FsError::NotFound),
    }
}

/// Appends the chunks of one write to the history of the file `path`.
pub fn append_group(ns: &mut Namespace, path: &String, group: Vec<u128>) -> (r: Result<(), FsError>)
    requires
        old(ns).wf(),
    ensures
        final(ns).wf(),
        match file_at(old(ns)@, path@) {
            Some(_) => r is Ok && final(ns)@ == file_written(old(ns)@, path@, group@),
            None => r == Err::<(), FsError>(FsError::NotFound) && final(ns)@ == old(ns)@,
        },
{
    let (directory, filename) = split_path(path.as_str());
    let ghost before = ns@;
    match ns.dirs.remove(&directory) {
        Some(mut dir) => {
            match dir.remove_file(&filename) {
                Some(mut file) => {
                    file.append_group(group);
                    dir.insert_file(filename, file);
                    ns.dirs.insert(directory, dir);
                    assert(ns@ =~= file_written(before, path@, group@)) by {
                        let (p, n) = split_path_spec(path@);
                        assert(before[p].files.remove(n).insert(
                            n,
                            with_group(before[p].files[n], group@),
                        ) =~= before[p].files.insert(n, with_group(before[p].files[n], group@)));
                    }
                    Ok(())
                },
                None => {
                    ns.dirs.insert(directory, dir);
                    assert(ns@ =~= before);
                    Err(FsError::NotFound)
                },
            }
        },
        None => Err(FsError::NotFound),
    }
}

/// The chunks of a list of pairs.
pub fn chunk_ids(pairs: &Vec<(u128, String)>) -> (ids: Vec<u128>)
    ensures
        ids@ == ids_of(pairs.deep_view()),
{
    let mut ids: Vec<u128> = Vec::new();
    let mut i: usize = 0;
    while i < pairs.len()
        invariant
            i <= pairs@.len(),
            ids@.len() == i,
            forall|j: int| 0 <= j < i ==> ids@[j] == (#[trigger] pairs@[j]).0,
        decreases pairs@.len() - i,
    {
        ids.push(pairs[i].0);
        i += 1;
    }
    assert(ids@ =~= ids_of(pairs.deep_view()));
    ids
}

/// One write to the file `path`: a placement group is allocated and
/// appended to the file's history, and its pairs of chunk and server are
/// returned. `Unavailable` where too few servers are live to place one.
pub fn file_write(ns: &mut Namespace, tables: &mut ChunkTables, path: String, size: usize) -> (r:
    Result<Vec<(u128, String)>, FsError>)
    requires
        old(ns).wf(),
        old(tables).wf(),
    ensures
        final(ns).wf(),
        final(tables).wf(),
        match file_at(old(ns)@, path@) {
            None => r matches Err(e) && e == FsError::NotFound && final(ns)@ == old(ns)@ && final(tables)@ == old(tables)@,
            Some(_) => match r {
                Ok(group) => {
                    &&& group@.len() == REPLICAS
                    &&& placement_valid(
                        old(tables)@,
                        ids_of(group.deep_view()),
                        servers_of(group.deep_view()),
                    )
                    &&& final(tables)@ == with_placement(
                        old(tables)@,
                        ids_of(group.deep_view()),
                        servers_of(group.deep_view()),
                    )
                    &&& final(ns)@ == file_written(old(ns)@, path@, ids_of(group.deep_view()))
                },
                Err(e) => e == FsError::Unavailable && final(ns)@ == old(ns)@ && final(tables)@
                    == old(tables)@,
            },
        },
        file_at(old(ns)@, path@) is Some ==> (r is Ok <==> old(tables)@.servers.dom().len()
            >= REPLICAS),
        consistent(old(tables)@) ==> consistent(final(tables)@),
{
    match file_lookup(ns, path.clone()) {
        Err(e) => {
            return Err(e);
        },
        Ok(_) => {},
    }
    let chunks = write_chunks(tables, size);
    if chunks.len() == 0 {
        return Err(FsError::Unavailable);
    }
    let ids = chunk_ids(&chunks);
    let _ = append_group(ns, &path, ids);
    Ok(chunks)
}

/// The chunks of the first write to the file `path`, each with its server.
pub fn file_read(ns: &Namespace, tables: &ChunkTables, path: String) -> (r: Result<
    Vec<(u128, String)>,
    FsError,
>)
    requires
        ns.wf(),
        tables.wf(),
    ensures
        match file_read_result(ns@, tables@.chunks, path@) {
            Ok(tuples) => r matches Ok(v) && v.deep_view() == tuples,
            Err(e) => r matches Err(x) && x == e,
        },
{
    match file_lookup(ns, path) {
        Ok(mut chunks) => {
            if chunks.len() == 0 {
                let none: Vec<(u128, String)> = Vec::new();
                assert(none.deep_view() =~= Seq::<(u128, Seq<char>)>::empty());
                Ok(none)
            } else {
                let ghost history = chunks.deep_view();
                let first = chunks.swap_remove(0);
                assert(first.deep_view() =~= first@);
                assert(first@ == history[0]);
                Ok(get_chunks(tables, first))
            }
        },
        Err(e) => Err(e),
    }
}

/// The chunks of every write to the file `path`, each with its server, in
/// the order of the writes.
pub fn file_read_all(ns: &Namespace, tables: &ChunkTables, path: String) -> (r: Result<
    Vec<(u128, String)>,
    FsError,
>)
    requires
        ns.wf(),
        tables.wf(),
    ensures
        match file_read_all_result(ns@, tables@.chunks, path@) {
            Ok(tuples) => r matches Ok(v) && v.deep_view() == tuples,
            Err(e) => r matches Err(x) && x == e,
        },
{
    match file_lookup(ns, path) {
        Ok(chunks) => {
            let ghost history = chunks.deep_view();
            let mut tuples: Vec<(u128, String)> = Vec::new();
            let mut i: usize = 0;
            assert(history.take(0) =~= Seq::<Seq<u128>>::empty());
            assert(tuples.deep_view() =~= Seq::<(u128, Seq<char>)>::empty());
            while i < chunks.len()
                invariant
                    tables.wf(),
                    history == chunks.deep_view(),
                    i <= chunks@.len(),
                    tuples.deep_view() == resolve_all(tables@.chunks, history.take(i as int)),
                decreases chunks@.len() - i,
            {
                let ghost done = tuples.deep_view();
                let group = chunks[i].snapshot();
                proof {
                    assert(group.deep_view() =~= group@);
                    assert(chunks@[i as int].deep_view() =~= chunks@[i as int]@);
                    assert(history[i as int] == chunks@[i as int].deep_view());
                    assert(history.take(i + 1).drop_last() =~= history.take(i as int));
                }
                let mut found = get_chunks(tables, group);
                let ghost more = found.deep_view();
                tuples.append(&mut found);
                assert(tuples.deep_view() =~= done + more);
                i += 1;
            }
            assert(history.take(i as int) =~= history);
            Ok(tuples)
        },
        Err(e) => Err(e),
    }
}

/// Every chunk in the history is known to the chunk map.
pub open spec fn history_known(chunks: Map<u128, Seq<char>>, history: Seq<Seq<u128>>) -> bool {
    forall|g: int| 0 <= g < history.len() ==> all_known(chunks, #[trigger] history[g])
}

/// A directory that was just created exists and holds no files, so its
/// listing names none.
pub proof fn lemma_created_directory_is_empty(
    ns: Map<Seq<char>, DirView>,
    path: Seq<char>,
    now: Timestamp,
)
    requires
        directory_create_result(ns, path) is Ok,
    ensures
        listing(directory_created(ns, path, now), path) matches Ok(dir) && dir.files == Map::<
            Seq<char>,
            FileView,
        >::empty(),
{
}

/// A file that was just created reads as an empty list and can be
/// deleted.
pub proof fn lemma_created_file_reads_empty(
    ns: Map<Seq<char>, DirView>,
    chunks: Map<u128, Seq<char>>,
    path: Seq<char>,
    now: Timestamp,
)
    requires
        file_create_result(ns, path) is Ok,
    ensures
        file_read_result(file_created(ns, path, now), chunks, path) == Ok::<
            Seq<(u128, Seq<char>)>,
            FsError,
        >(Seq::empty()),
        file_delete_result(file_created(ns, path, now), path) is Ok,
{
}

/// A file that was never written reads as an empty list, not as an error.
pub proof fn lemma_unwritten_file_reads_empty(
    ns: Map<Seq<char>, DirView>,
    chunks: Map<u128, Seq<char>>,
    path: Seq<char>,
)
    requires
        file_at(ns, path) matches Some(f) && f.chunks.len() == 0,
    ensures
        file_read_result(ns, chunks, path) == Ok::<Seq<(u128, Seq<char>)>, FsError>(Seq::empty()),
{
}

/// Creating a directory a second time answers `AlreadyExists`.
pub proof fn lemma_directory_create_twice(
    ns: Map<Seq<char>, DirView>,
    path: Seq<char>,
    now: Timestamp,
)
    requires
        directory_create_result(ns, path) is Ok,
    ensures
        directory_create_result(directory_created(ns, path, now), path) == Err::<(), FsError>(
            FsError::AlreadyExists,
        ),
{
}

/// Creating a file a second time answers `AlreadyExists`.
pub proof fn lemma_file_create_twice(ns: Map<Seq<char>, DirView>, path: Seq<char>, now: Timestamp)
    requires
        file_create_result(ns, path) is Ok,
    ensures
        file_create_result(file_created(ns, path, now), path) == Err::<(), FsError>(
            FsError::AlreadyExists,
        ),
{
}

/// The root cannot be created again and cannot be deleted.
pub proof fn lemma_root_is_permanent(ns: Map<Seq<char>, DirView>)
    requires
        valid_namespace(ns),
    ensures
        directory_create_result(ns, root_path()) == Err::<(), FsError>(FsError::AlreadyExists),
        directory_delete_result(ns, root_path()) is Err,
{
}

/// Deleting a directory succeeds whatever files it holds. Afterwards the
/// directory and its files are gone, and every other directory is as
/// before.
pub proof fn lemma_directory_delete_drops_files(ns: Map<Seq<char>, DirView>, path: Seq<char>)
    requires
        ns.contains_key(path),
        path != root_path(),
    ensures
        directory_delete_result(ns, path) is Ok,
        !directory_deleted(ns, path).contains_key(path),
        forall|file: Seq<char>| #[trigger]
            split_path_spec(file).0 == path ==> file_at(directory_deleted(ns, path), file) is None,
        forall|other: Seq<char>|
            other != path && #[trigger] ns.contains_key(other) ==> directory_deleted(
                ns,
                path,
            ).contains_key(other) && directory_deleted(ns, path)[other] == ns[other],
{
}

/// The history of the file `path` after one more write.
pub proof fn lemma_written_history(ns: Map<Seq<char>, DirView>, path: Seq<char>, group: Seq<u128>)
    requires
        file_at(ns, path) is Some,
    ensures
        file_at(file_written(ns, path, group), path) matches Some(f) && f.chunks == file_at(
            ns,
            path,
        )->0.chunks.push(group),
{
}

/// The known chunks of a history resolve as before after a placement.
pub proof fn lemma_resolve_all_unchanged(
    tables: ChunkTablesView,
    ids: Seq<u128>,
    servers: Seq<Seq<char>>,
    history: Seq<Seq<u128>>,
)
    requires
        placement_valid(tables, ids, servers),
        history_known(tables.chunks, history),
    ensures
        resolve_all(with_placement(tables, ids, servers).chunks, history) == resolve_all(
            tables.chunks,
            history,
        ),
        history_known(with_placement(tables, ids, servers).chunks, history),
    decreases history.len(),
{
    let after = with_placement(tables, ids, servers).chunks;
    if history.len() > 0 {
        let d = history.drop_last();
        assert forall|g: int| 0 <= g < d.len() implies all_known(tables.chunks, #[trigger] d[g]) by {
            assert(d[g] == history[g]);
        }
        lemma_resolve_all_unchanged(tables, ids, servers, d);
        assert(all_known(tables.chunks, history[history.len() - 1]));
        lemma_resolve_unchanged(tables, ids, servers, history.last());
        assert forall|g: int| 0 <= g < history.len() implies all_known(
            after,
            #[trigger] history[g],
        ) by {
            assert(all_known(tables.chunks, history[g]));
            lemma_resolve_unchanged(tables, ids, servers, history[g]);
        }
    }
}

/// After a write that placed `ids` on `servers`, reading the file gives
/// that group if it was the first write and the first group as before
/// otherwise; reading all of it gives every earlier group as before,
/// followed by the new one.
pub proof fn lemma_write_then_read(
    ns: Map<Seq<char>, DirView>,
    tables: ChunkTablesView,
    path: Seq<char>,
    ids: Seq<u128>,
    servers: Seq<Seq<char>>,
)
    requires
        file_at(ns, path) matches Some(f) && history_known(tables.chunks, f.chunks),
        placement_valid(tables, ids, servers),
    ensures
        file_at(ns, path)->0.chunks.len() == 0 ==> file_read_result(
            file_written(ns, path, ids),
            with_placement(tables, ids, servers).chunks,
            path,
        ) == Ok::<Seq<(u128, Seq<char>)>, FsError>(pair_up(ids, servers)),
        file_at(ns, path)->0.chunks.len() > 0 ==> file_read_result(
            file_written(ns, path, ids),
            with_placement(tables, ids, servers).chunks,
            path,
        ) == file_read_result(ns, tables.chunks, path),
        file_read_all_result(
            file_written(ns, path, ids),
            with_placement(tables, ids, servers).chunks,
            path,
        ) == Ok::<Seq<(u128, Seq<char>)>, FsError>(
            file_read_all_result(ns, tables.chunks, path)->Ok_0 + pair_up(ids, servers),
        ),
        file_at(file_written(ns, path, ids), path) matches Some(f) && history_known(
            with_placement(tables, ids, servers).chunks,
            f.chunks,
        ),
{
    let f = file_at(ns, path)->0;
    let after = with_placement(tables, ids, servers).chunks;
    let written = f.chunks.push(ids);
    lemma_written_history(ns, path, ids);
    lemma_resolve_placed(tables, ids, servers);
    lemma_resolve_all_unchanged(tables, ids, servers, f.chunks);
    assert(written.drop_last() =~= f.chunks);
    if f.chunks.len() > 0 {
        assert(all_known(tables.chunks, f.chunks[0]));
        lemma_resolve_unchanged(tables, ids, servers, f.chunks[0]);
        assert(written[0] == f.chunks[0]);
    }
    assert forall|g: int| 0 <= g < written.len() implies all_known(after, #[trigger] written[g]) by {
        if g < f.chunks.len() {
            assert(written[g] == f.chunks[g]);
        } else {
            crate::chunk_manager::lemma_placement_extends(tables, ids, servers);
            assert forall|i: int| 0 <= i < ids.len() implies after.contains_key(
                #[trigger] ids[i],
            ) by {
                crate::chunk_manager::lemma_placement_recorded(tables, ids, servers, i);
            }
        }
    }
}

/// Every chunk that a file of the namespace refers to is known to the
/// chunk map.
pub open spec fn references_known(ns: Map<Seq<char>, DirView>, chunks: Map<u128, Seq<char>>) -> bool {
    forall|dir: Seq<char>, name: Seq<char>|
        ns.contains_key(dir) && #[trigger] ns[dir].files.contains_key(name) ==> history_known(
            chunks,
            ns[dir].files[name].chunks,
        )
}

/// A write keeps every reference of the namespace known.
pub proof fn lemma_write_keeps_references(
    ns: Map<Seq<char>, DirView>,
    tables: ChunkTablesView,
    path: Seq<char>,
    ids: Seq<u128>,
    servers: Seq<Seq<char>>,
)
    requires
        references_known(ns, tables.chunks),
        file_at(ns, path) is Some,
        placement_valid(tables, ids, servers),
    ensures
        references_known(
            file_written(ns, path, ids),
            with_placement(tables, ids, servers).chunks,
        ),
{
    let after_ns = file_written(ns, path, ids);
    let after = with_placement(tables, ids, servers).chunks;
    let (parent, file) = split_path_spec(path);
    assert(ns[parent].files.contains_key(file));
    lemma_write_then_read(ns, tables, path, ids, servers);
    assert forall|dir: Seq<char>, name: Seq<char>|
        after_ns.contains_key(dir) && #[trigger] after_ns[dir].files.contains_key(
            name,
        ) implies history_known(after, after_ns[dir].files[name].chunks) by {
        if dir == parent && name == file {
        } else {
            assert(ns.contains_key(dir) && ns[dir].files.contains_key(name));
            assert(after_ns[dir].files[name] == ns[dir].files[name]);
            lemma_resolve_all_unchanged(tables, ids, servers, ns[dir].files[name].chunks);
        }
    }
}

/// Creating or deleting files and directories keeps every reference
/// known.
pub proof fn lemma_namespace_changes_keep_references(
    ns: Map<Seq<char>, DirView>,
    chunks: Map<u128, Seq<char>>,
    path: Seq<char>,
    now: Timestamp,
)
    requires
        references_known(ns, chunks),
    ensures
        references_known(directory_created(ns, path, now), chunks),
        references_known(directory_deleted(ns, path), chunks),
        file_create_result(ns, path) is Ok ==> references_known(file_created(ns, path, now), chunks),
        file_delete_result(ns, path) is Ok ==> references_known(file_deleted(ns, path), chunks),
{
    let (parent, file) = split_path_spec(path);
    let created = directory_created(ns, path, now);
    assert forall|dir: Seq<char>, name: Seq<char>|
        created.contains_key(dir) && #[trigger] created[dir].files.contains_key(
            name,
        ) implies history_known(chunks, created[dir].files[name].chunks) by {
        assert(ns.contains_key(dir) && ns[dir].files.contains_key(name));
    }
    let deleted = directory_deleted(ns, path);
    assert forall|dir: Seq<char>, name: Seq<char>|
        deleted.contains_key(dir) && #[trigger] deleted[dir].files.contains_key(
            name,
        ) implies history_known(chunks, deleted[dir].files[name].chunks) by {
        assert(ns.contains_key(dir) && ns[dir].files.contains_key(name));
    }
    if file_create_result(ns, path) is Ok {
        let after = file_created(ns, path, now);
        assert forall|dir: Seq<char>, name: Seq<char>|
            after.contains_key(dir) && #[trigger] after[dir].files.contains_key(
                name,
            ) implies history_known(chunks, after[dir].files[name].chunks) by {
            if dir == parent && name == file {
            } else {
                assert(ns.contains_key(dir) && ns[dir].files.contains_key(name));
            }
        }
    }
    if file_delete_result(ns, path) is Ok {
        let after = file_deleted(ns, path);
        assert forall|dir: Seq<char>, name: Seq<char>|
            after.contains_key(dir) && #[trigger] after[dir].files.contains_key(
                name,
            ) implies history_known(chunks, after[dir].files[name].chunks) by {
            assert(ns.contains_key(dir) && ns[dir].files.contains_key(name));
        }
    }
}

/// A start from the records of a valid namespace, and from the stored
/// lines of the chunk map, gives the namespace and the chunk map again:
/// the saved root is kept, and every file reads as it did.
pub proof fn lemma_restart_restores(
    ns: Map<Seq<char>, DirView>,
    chunks: Map<u128, Seq<char>>,
    saved: Seq<DirectoryInfoView>,
    chunk_lines: Seq<Seq<char>>,
    path: Seq<char>,
    now: Timestamp,
)
    requires
        valid_namespace(ns),
        loaded_dirs(saved) == Some(ns),
        restored_chunks(chunk_lines) == Some(chunks),
    ensures
        started(saved, now) == Some(ns),
        file_read_result(started(saved, now)->0, restored_chunks(chunk_lines)->0, path)
            == file_read_result(ns, chunks, path),
        file_read_all_result(started(saved, now)->0, restored_chunks(chunk_lines)->0, path)
            == file_read_all_result(ns, chunks, path),
{
}

/// A change at one path leaves the files at other places as they were: a
/// file changes only where its own path is written, created or deleted, or
/// its directory is created or deleted.
pub proof fn lemma_changes_are_local(
    ns: Map<Seq<char>, DirView>,
    path: Seq<char>,
    other: Seq<char>,
    group: Seq<u128>,
    now: Timestamp,
)
    requires
        split_path_spec(other) != split_path_spec(path),
    ensures
        file_at(ns, path) is Some ==> file_at(file_written(ns, path, group), other) == file_at(
            ns,
            other,
        ),
        file_create_result(ns, path) is Ok ==> file_at(file_created(ns, path, now), other)
            == file_at(ns, other),
        file_delete_result(ns, path) is Ok ==> file_at(file_deleted(ns, path), other) == file_at(
            ns,
            other,
        ),
        split_path_spec(other).0 != path ==> file_at(directory_created(ns, path, now), other)
            == file_at(ns, other) && file_at(directory_deleted(ns, path), other) == file_at(
            ns,
            other,
        ),
{
}

/// Every file is stored under its own name and names the directory that
/// holds it as its parent.
pub open spec fn files_in_place(ns: Map<Seq<char>, DirView>) -> bool {
    forall|dir: Seq<char>, name: Seq<char>|
        ns.contains_key(dir) && #[trigger] ns[dir].files.contains_key(name) ==> ns[dir].files[name].name
            == name && ns[dir].files[name].parent == dir
}

/// Every operation that succeeds leaves the namespace valid: the root is
/// still there, every directory is stored under its own name, and no path
/// names both a directory and a file.
pub proof fn lemma_operations_keep_valid(
    ns: Map<Seq<char>, DirView>,
    path: Seq<char>,
    group: Seq<u128>,
    now: Timestamp,
)
    requires
        valid_namespace(ns),
    ensures
        directory_create_result(ns, path) is Ok ==> valid_namespace(
            directory_created(ns, path, now),
        ),
        directory_delete_result(ns, path) is Ok ==> valid_namespace(directory_deleted(ns, path)),
        file_create_result(ns, path) is Ok ==> valid_namespace(file_created(ns, path, now)),
        file_delete_result(ns, path) is Ok ==> valid_namespace(file_deleted(ns, path)),
        file_at(ns, path) is Some ==> valid_namespace(file_written(ns, path, group)),
{
    let (parent, name) = split_path_spec(path);
    if directory_create_result(ns, path) is Ok {
        let after = directory_created(ns, path, now);
        assert forall|p: Seq<char>| #[trigger] after.contains_key(p) implies file_at(after, p)
            is None by {
            let d = split_path_spec(p).0;
            if d != path {
                assert(file_at(after, p) == file_at(ns, p));
                if p != path {
                    assert(ns.contains_key(p));
                }
            }
        }
    }
    if directory_delete_result(ns, path) is Ok {
        let after = directory_deleted(ns, path);
        assert forall|p: Seq<char>| #[trigger] after.contains_key(p) implies file_at(after, p)
            is None by {
            assert(ns.contains_key(p));
            let d = split_path_spec(p).0;
            if d != path {
                assert(file_at(after, p) == file_at(ns, p));
            }
        }
    }
    if file_create_result(ns, path) is Ok {
        let after = file_created(ns, path, now);
        assert forall|p: Seq<char>| #[trigger] after.contains_key(p) implies file_at(after, p)
            is None by {
            assert(ns.contains_key(p));
            if split_path_spec(p) == split_path_spec(path) {
                assert(names_directory(ns, path));
            } else {
                assert(file_at(after, p) is Some ==> file_at(ns, p) is Some);
            }
        }
    }
    if file_delete_result(ns, path) is Ok {
        let after = file_deleted(ns, path);
        assert forall|p: Seq<char>| #[trigger] after.contains_key(p) implies file_at(after, p)
            is None by {
            assert(ns.contains_key(p));
            assert(file_at(after, p) is Some ==> file_at(ns, p) is Some);
        }
    }
    if file_at(ns, path) is Some {
        let after = file_written(ns, path, group);
        assert forall|p: Seq<char>| #[trigger] after.contains_key(p) implies file_at(after, p)
            is None by {
            assert(ns.contains_key(p));
            assert(file_at(after, p) is Some ==> file_at(ns, p) is Some);
        }
    }
}

/// Every operation that succeeds leaves the files in place: each under its
/// own name, with the directory that holds it as its parent.
pub proof fn lemma_operations_keep_files_in_place(
    ns: Map<Seq<char>, DirView>,
    path: Seq<char>,
    group: Seq<u128>,
    now: Timestamp,
)
    requires
        files_in_place(ns),
    ensures
        files_in_place(directory_created(ns, path, now)),
        files_in_place(directory_deleted(ns, path)),
        file_create_result(ns, path) is Ok ==> files_in_place(file_created(ns, path, now)),
        file_delete_result(ns, path) is Ok ==> files_in_place(file_deleted(ns, path)),
        file_at(ns, path) is Some ==> files_in_place(file_written(ns, path, group)),
{
    let (parent, file) = split_path_spec(path);
    let created = directory_created(ns, path, now);
    assert forall|dir: Seq<char>, name: Seq<char>|
        created.contains_key(dir) && #[trigger] created[dir].files.contains_key(
            name,
        ) implies created[dir].files[name].name == name && created[dir].files[name].parent
        == dir by {
        assert(ns.contains_key(dir) && ns[dir].files.contains_key(name));
    }
    let deleted = directory_deleted(ns, path);
    assert forall|dir: Seq<char>, name: Seq<char>|
        deleted.contains_key(dir) && #[trigger] deleted[dir].files.contains_key(
            name,
        ) implies deleted[dir].files[name].name == name && deleted[dir].files[name].parent
        == dir by {
        assert(ns.contains_key(dir) && ns[dir].files.contains_key(name));
    }
    if file_create_result(ns, path) is Ok {
        let after = file_created(ns, path, now);
        assert forall|dir: Seq<char>, name: Seq<char>|
            after.contains_key(dir) && #[trigger] after[dir].files.contains_key(
                name,
            ) implies after[dir].files[name].name == name && after[dir].files[name].parent
            == dir by {
            if !(dir == parent && name == file) {
                assert(ns.contains_key(dir) && ns[dir].files.contains_key(name));
            }
        }
    }
    if file_delete_result(ns, path) is Ok {
        let after = file_deleted(ns, path);
        assert forall|dir: Seq<char>, name: Seq<char>|
            after.contains_key(dir) && #[trigger] after[dir].files.contains_key(
                name,
            ) implies after[dir].files[name].name == name && after[dir].files[name].parent
            == dir by {
            assert(ns.contains_key(dir) && ns[dir].files.contains_key(name));
        }
    }
    if file_at(ns, path) is Some {
        let after = file_written(ns, path, group);
        assert forall|dir: Seq<char>, name: Seq<char>|
            after.contains_key(dir) && #[trigger] after[dir].files.contains_key(
                name,
            ) implies after[dir].files[name].name == name && after[dir].files[name].parent
            == dir by {
            assert(ns.contains_key(dir) && ns[dir].files.contains_key(name));
        }
    }
}

} // verus!
