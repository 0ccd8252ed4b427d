//! The inode mapper: a stateless bijection between 64-bit inode numbers and
//! file/directory references, unifying both kinds in one numbering space.
//!
//! Directories occupy the low inode range (`Dir(d)` is `1 + d`, so the root
//! directory, index 0, is always inode 1); files occupy the high range marked
//! by the most-significant bit (`File(f)` is `1 + (f | bit 63)`). Decoding
//! checks the recovered index against the file count or the directory count,
//! and any inode failing its check decodes to nothing.

use vstd::prelude::*;

verus! {

/// The top bit of a 64-bit inode body: set exactly for files.
pub const FILE_BIT: u64 = 0x8000_0000_0000_0000;

/// A filesystem object: a file entry (by entry-table index) or a directory
/// (by index into the directory list).
#[derive(Clone, Copy, Debug, PartialEq, Eq, Structural)]
pub enum Node {
    File(u32),
    Dir(u32),
}

/// The kind of a filesystem object, as reported to the protocol.
#[derive(Clone, Copy, Debug, PartialEq, Eq, Structural)]
pub enum FileKind {
    RegularFile,
    Directory,
}

impl Node {
    /// The inode number encoding this node.
    pub open spec fn spec_ino(self) -> u64 {
        match self {
            Node::File(f) => (1 + FILE_BIT + f) as u64,
            Node::Dir(d) => (1 + d) as u64,
        }
    }

    /// The kind this node reports.
    pub open spec fn spec_kind(self) -> FileKind {
        match self {
            Node::File(_) => FileKind::RegularFile,
            Node::Dir(_) => FileKind::Directory,
        }
    }

    /// Whether this node's index lies inside the archive's entry table
    /// (files) or the directory list (directories).
    pub open spec fn valid(self, file_count: u32, dir_count: int) -> bool {
        match self {
            Node::File(f) => f < file_count,
            Node::Dir(d) => d < dir_count,
        }
    }

    /// Encode this node as an inode number.
    pub fn to_ino(&self) -> (r: u64)
        ensures
            r == self.spec_ino(),
    {
        1 + match *self {
            Node::File(n) => n as u64 + FILE_BIT,
            Node::Dir(n) => n as u64,
        }
    }

    /// The kind this node reports.
    pub fn to_ty(&self) -> (r: FileKind)
        ensures
            r == self.spec_kind(),
    {
        match self {
            Node::File(_) => FileKind::RegularFile,
            Node::Dir(_) => FileKind::Directory,
        }
    }
}

/// Decode an inode number against the archive's file count and the mounted
/// directory count. Inodes whose index fails its bound decode to `None`, as
/// does inode 0, which the encoding never produces.
pub open spec fn spec_decode_ino(ino: u64, file_count: u32, dir_count: int) -> Option<Node> {
    if ino == 0 {
        None
    } else {
        let n = ino - 1;
        if n >= FILE_BIT {
            let f = n - FILE_BIT;
            if f < file_count {
                Some(Node::File(f as u32))
            } else {
                None
            }
        } else {
            if n < dir_count {
                Some(Node::Dir(n as u32))
            } else {
                None
            }
        }
    }
}

/// Law: the inode numbering is a bijection on valid nodes — decoding the
/// encoding of any valid `Dir(d)` or `File(f)` yields the node back — and
/// the root directory's inode is always 1.
pub proof fn lemma_ino_roundtrip(node: Node, file_count: u32, dir_count: int)
    requires
        node.valid(file_count, dir_count),
        dir_count <= u32::MAX as int,
    ensures
        spec_decode_ino(node.spec_ino(), file_count, dir_count) == Some(node),
        Node::Dir(0).spec_ino() == 1,
{
}

} // verus!
