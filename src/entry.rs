use vstd::prelude::*;
use crate::bytes::{blake3_of, copy_bytes, copy_path, digest, segs_view};

verus! {

/// A regular file: its path as segments, the time it was last modified
/// (seconds since the epoch), its size in bytes, and the BLAKE3 digest of its
/// name followed by its contents.
pub struct MerkleFile {
    pub path: Vec<Vec<u8>>,
    pub last_modified: u64,
    pub file_size: u64,
    pub hash: Vec<u8>,
}

/// A directory: its path as segments, a last-modified time of 0 and the
/// BLAKE3 digest of its name.
pub struct MerkleDir {
    pub path: Vec<Vec<u8>>,
    pub last_modified: u64,
    pub hash: Vec<u8>,
}

/// One filesystem object that a tree can hold.
pub enum MerkleEntry {
    Directory(MerkleDir),
    File(MerkleFile),
}

/// The bytes that a file's digest covers: its name, then its contents.
pub open spec fn file_digest_input(name: Seq<u8>, contents: Seq<u8>) -> Seq<u8> {
    name + contents
}

impl MerkleFile {
    /// A file entry for the given contents; the name is the last segment of
    /// `path`.
    pub fn from_contents(path: Vec<Vec<u8>>, last_modified: u64, contents: &[u8]) -> (r: Self)
        requires
            path.len() > 0,
        ensures
            segs_view(r.path@) == segs_view(path@),
            r.last_modified == last_modified,
            r.file_size == contents@.len(),
            r.hash@ == blake3_of(file_digest_input(segs_view(path@).last(), contents@)),
    {
        let mut input = copy_bytes(path[path.len() - 1].as_slice());
        let mut i: usize = 0;
        while i < contents.len()
            invariant
                0 <= i <= contents.len(),
                input@ == segs_view(path@).last() + contents@.subrange(0, i as int),
            decreases contents.len() - i,
        {
            input.push(contents[i]);
            assert(input@ =~= segs_view(path@).last() + contents@.subrange(0, i + 1));
            i = i + 1;
        }
        assert(contents@.subrange(0, contents@.len() as int) =~= contents@);
        let hash = digest(input.as_slice());
        MerkleFile { path, last_modified, file_size: contents.len() as u64, hash }
    }
}

impl MerkleDir {
    /// A directory entry: its digest covers its name, the last segment of
    /// `path`; its last-modified time is 0.
    pub fn from_path(path: Vec<Vec<u8>>) -> (r: Self)
        requires
            path.len() > 0,
        ensures
            segs_view(r.path@) == segs_view(path@),
            r.last_modified == 0,
            r.hash@ == blake3_of(segs_view(path@).last()),
    {
        let hash = digest(path[path.len() - 1].as_slice());
        MerkleDir { path, last_modified: 0, hash }
    }
}

impl MerkleEntry {
    pub open spec fn path_view(&self) -> Seq<Seq<u8>> {
        match self {
            MerkleEntry::Directory(d) => segs_view(d.path@),
            MerkleEntry::File(f) => segs_view(f.path@),
        }
    }

    pub open spec fn hash_view(&self) -> Seq<u8> {
        match self {
            MerkleEntry::Directory(d) => d.hash@,
            MerkleEntry::File(f) => f.hash@,
        }
    }

    pub open spec fn last_modified_view(&self) -> u64 {
        match self {
            MerkleEntry::Directory(d) => d.last_modified,
            MerkleEntry::File(f) => f.last_modified,
        }
    }

    pub fn get_path(&self) -> (r: &Vec<Vec<u8>>)
        ensures
            segs_view(r@) == self.path_view(),
    {
        match self {
            MerkleEntry::Directory(d) => &d.path,
            MerkleEntry::File(f) => &f.path,
        }
    }

    pub fn get_hash(&self) -> (r: Vec<u8>)
        ensures
            r@ == self.hash_view(),
    {
        match self {
            MerkleEntry::Directory(d) => copy_bytes(d.hash.as_slice()),
            MerkleEntry::File(f) => copy_bytes(f.hash.as_slice()),
        }
    }

    pub fn get_last_modified(&self) -> (r: u64)
        ensures
            r == self.last_modified_view(),
    {
        match self {
            MerkleEntry::Directory(d) => d.last_modified,
            MerkleEntry::File(f) => f.last_modified,
        }
    }

    /// A copy of the entry's path.
    pub fn path_segments(&self) -> (r: Vec<Vec<u8>>)
        ensures
            segs_view(r@) == self.path_view(),
    {
        copy_path(self.get_path().as_slice())
    }
}

} // verus!
