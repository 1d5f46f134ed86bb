//! The chunk server's store: the chunks it holds, by identifier.

use crate::chunk_id::{chunk_id_text, id_parse, id_text, parse_chunk_id};
use crate::error::FsError;
use vstd::prelude::*;

verus! {

/// A stored chunk.
pub struct Chunk {
    data: Vec<u8>,
    id: u128,
}

impl DeepView for Chunk {
    /// The identifier and the bytes.
    type V = (u128, Seq<u8>);

    closed spec fn deep_view(&self) -> (u128, Seq<u8>) {
        (self.id, self.data@)
    }
}

impl Chunk {
    /// The chunk's bytes.
    pub fn data(&self) -> (data: &Vec<u8>)
        ensures
            data@ == self.deep_view().1,
    {
        &self.data
    }

    /// The chunk's identifier.
    pub fn id(&self) -> (id: u128)
        ensures
            id == self.deep_view().0,
    {
        self.id
    }
}

/// The position of the first chunk with the identifier `id`.
pub open spec fn first_with(chunks: Seq<(u128, Seq<u8>)>, id: u128) -> Option<int>
    decreases chunks.len(),
{
    if chunks.len() == 0 {
        None
    } else {
        match first_with(chunks.drop_last(), id) {
            Some(i) => Some(i),
            None => if chunks.last().0 == id {
                Some(chunks.len() - 1)
            } else {
                None
            },
        }
    }
}

/// The chunks in the order in which they were added.
pub struct Chunks {
    chunks: Vec<Chunk>,
    chunk_size: usize,
    chunks_dir: String,
}

impl Chunks {
    /// The stored chunks, in the order in which they were added.
    pub closed spec fn view(&self) -> Seq<(u128, Seq<u8>)> {
        self.chunks.deep_view()
    }

    /// The path of the directory in which the chunks are kept.
    pub closed spec fn directory(&self) -> Seq<char> {
        self.chunks_dir@
    }

    /// The size for which the list was made.
    pub closed spec fn made_for(&self) -> usize {
        self.chunk_size
    }

    /// An empty list of chunks of the size `chunk_size`, to be kept in the
    /// directory `chunks_dir`.
    pub fn new(chunk_size: usize, chunks_dir: String) -> (chunks: Self)
        ensures
            chunks@ == Seq::<(u128, Seq<u8>)>::empty(),
            chunks.directory() == chunks_dir@,
            chunks.made_for() == chunk_size,
    {
        let chunks = Chunks { chunks: Vec::new(), chunk_size, chunks_dir };
        assert(chunks.chunks.deep_view() =~= Seq::<(u128, Seq<u8>)>::empty());
        chunks
    }

    /// Adds a chunk at the end and returns the name of the file that
    /// holds it: the identifier's text.
    pub fn add_chunk(&mut self, data: Vec<u8>, id: u128) -> (file_name: String)
        ensures
            final(self)@ == old(self)@.push((id, data@)),
            final(self).directory() == old(self).directory(),
            final(self).made_for() == old(self).made_for(),
            file_name@ == id_text(id),
            id_parse(file_name@) == Some(id),
    {
        let ghost before = self.chunks.deep_view();
        let chunk = Chunk { data, id };
        self.chunks.push(chunk);
        assert(self.chunks.deep_view() =~= before.push((id, data@)));
        chunk_id_text(id)
    }

    /// The first chunk with the identifier `id`.
    pub fn find_chunk(&self, id: u128) -> (found: Option<&Chunk>)
        ensures
            match first_with(self@, id) {
                Some(i) => found matches Some(c) && c.deep_view() == self@[i],
                None => found is None,
            },
    {
        let ghost list = self.chunks.deep_view();
        let mut i: usize = 0;
        assert(list.take(0) =~= Seq::<(u128, Seq<u8>)>::empty());
        while i < self.chunks.len()
            invariant
                list == self.chunks.deep_view(),
                i <= self.chunks@.len(),
                first_with(list.take(i as int), id) is None,
            decreases self.chunks@.len() - i,
        {
            proof {
                assert(list.take(i + 1).drop_last() =~= list.take(i as int));
                assert(list[i as int] == self.chunks@[i as int].deep_view());
            }
            if self.chunks[i].id == id {
                proof {
                    lemma_first_with_prefix(list, i + 1, id);
                }
                return Some(&self.chunks[i]);
            }
            i += 1;
        }
        assert(list.take(i as int) =~= list);
        None
    }

    /// The number of stored chunks.
    pub fn chunk_count(&self) -> (n: usize)
        ensures
            n == self@.len(),
    {
        self.chunks.len()
    }

    /// The directory in which the chunks are kept.
    pub fn chunks_dir(&self) -> (dir: &String)
        ensures
            dir@ == self.directory(),
    {
        &self.chunks_dir
    }

    /// The size for which the list was made.
    pub fn chunk_size(&self) -> (size: usize)
        ensures
            size == self.made_for(),
    {
        self.chunk_size
    }
}

/// A chunk found in a front part of the list is the first in the whole.
pub proof fn lemma_first_with_prefix(chunks: Seq<(u128, Seq<u8>)>, n: int, id: u128)
    requires
        0 <= n <= chunks.len(),
        first_with(chunks.take(n), id) is Some,
    ensures
        first_with(chunks, id) == first_with(chunks.take(n), id),
    decreases chunks.len() - n,
{
    if n < chunks.len() {
        assert(chunks.take(n + 1).drop_last() =~= chunks.take(n));
        lemma_first_with_prefix(chunks, n + 1, id);
    } else {
        assert(chunks.take(n) =~= chunks);
    }
}

/// The chunks that the files of the chunk directory hold: one for each
/// file whose name denotes an identifier, in the order of the files.
pub open spec fn stored_chunks(files: Seq<(Seq<char>, Seq<u8>)>) -> Seq<(u128, Seq<u8>)>
    decreases files.len(),
{
    if files.len() == 0 {
        Seq::empty()
    } else {
        let before = stored_chunks(files.drop_last());
        match id_parse(files.last().0) {
            Some(id) => before.push((id, files.last().1)),
            None => before,
        }
    }
}

/// The chunk server's store.
pub struct ChunkManager {
    chunks: Chunks,
    chunks_dir: String,
}

impl ChunkManager {
    /// The stored chunks, in the order in which they were added.
    pub closed spec fn view(&self) -> Seq<(u128, Seq<u8>)> {
        self.chunks@
    }

    /// The path of the directory in which the chunks are kept.
    pub closed spec fn directory(&self) -> Seq<char> {
        self.chunks_dir@
    }

    /// The store that holds what the chunk directory held: `files` names
    /// each file of the directory with its bytes. A file whose name denotes
    /// no identifier is passed over.
    pub fn new(chunk_size: usize, chunks_dir: String, files: Vec<(String, Vec<u8>)>) -> (manager:
        Self)
        ensures
            manager@ == stored_chunks(files.deep_view()),
            manager.directory() == chunks_dir@,
    {
        let mut chunk_manager = ChunkManager {
            chunks: Chunks::new(chunk_size, chunks_dir.clone()),
            chunks_dir,
        };
        chunk_manager.init(files);
        chunk_manager
    }

    fn init(&mut self, files: Vec<(String, Vec<u8>)>)
        requires
            old(self)@ == Seq::<(u128, Seq<u8>)>::empty(),
        ensures
            final(self)@ == stored_chunks(files.deep_view()),
            final(self).directory() == old(self).directory(),
    {
        let ghost all = files.deep_view();
        let mut i: usize = 0;
        assert(all.take(0) =~= Seq::<(Seq<char>, Seq<u8>)>::empty());
        while i < files.len()
            invariant
                all == files.deep_view(),
                i <= files@.len(),
                self@ == stored_chunks(all.take(i as int)),
                self.directory() == old(self).directory(),
            decreases files@.len() - i,
        {
            proof {
                assert(all.take(i + 1).drop_last() =~= all.take(i as int));
                assert(all.take(i + 1).last() == files@[i as int].deep_view());
                assert(files@[i as int].1.deep_view() =~= files@[i as int].1@);
            }
            match parse_chunk_id(files[i].0.as_str()) {
                Ok(chunk_id) => {
                    let mut data: Vec<u8> = Vec::new();
                    let mut k: usize = 0;
                    while k < files[i].1.len()
                        invariant
                            i < files@.len(),
                            k <= files@[i as int].1@.len(),
                            data@ == files@[i as int].1@.take(k as int),
                        decreases files@[i as int].1@.len() - k,
                    {
                        data.push(files[i].1[k]);
                        assert(data@ =~= files@[i as int].1@.take(k + 1));
                        k += 1;
                    }
                    assert(files@[i as int].1@.take(k as int) =~= files@[i as int].1@);
                    self.chunks.add_chunk(data, chunk_id);
                },
                Err(_) => {},
            }
            i += 1;
        }
        assert(all.take(i as int) =~= all);
    }

    /// Adds a chunk and returns the name of the file that holds it in the
    /// chunk directory: the identifier's text.
    pub fn add_chunk(&mut self, data: Vec<u8>, id: u128) -> (file_name: String)
        ensures
            final(self)@ == old(self)@.push((id, data@)),
            final(self).directory() == old(self).directory(),
            file_name@ == id_text(id),
            id_parse(file_name@) == Some(id),
    {
        self.chunks.add_chunk(data, id)
    }

    /// The bytes of the first chunk with the identifier `id`.
    pub fn get_chunk(&self, id: u128) -> (r: Result<Vec<u8>, FsError>)
        ensures
            match first_with(self@, id) {
                Some(i) => r matches Ok(data) && data@ == self@[i].1,
                None => r matches Err(e) && e == FsError::NotFound,
            },
    {
        let chunk = self.chunks.find_chunk(id);
        match chunk {
            Some(chunk) => {
                let data = chunk.data().clone();
                Ok(data)
            },
            None => Err(FsError::NotFound),
        }
    }

    /// The number of stored chunks.
    pub fn chunk_count(&self) -> (n: usize)
        ensures
            n == self@.len(),
    {
        self.chunks.chunk_count()
    }

    /// The directory in which the chunks are kept.
    pub fn chunks_dir(&self) -> (dir: &String)
        ensures
            dir@ == self.directory(),
    {
        &self.chunks_dir
    }
}

} // verus!
