//! The filesystem adapter: the directory forest built once at mount time,
//! and the four request handlers — lookup, attribute query, read, and
//! directory listing — served against it and the shared backing stream.

use vstd::arithmetic::power2::lemma2_to64;
use vstd::arithmetic::power2::lemma_pow2_pos;
use vstd::arithmetic::power2::lemma_pow2_strictly_increases;
use vstd::arithmetic::power2::pow2;
use vstd::bits::lemma_u32_shl_is_mul;
use vstd::pervasive::unreached;
use vstd::prelude::*;
use vstd::slice::slice_to_vec;

use crate::format::Header;
use crate::format::ParseHeaderError;
use crate::format::header_block_size;
use crate::format::header_file_count;
use crate::format::magic_ok;
use crate::format::spec_entry_at;
use crate::format::spec_entry_name;
use crate::format::version_ok;
use crate::inode::FILE_BIT;
use crate::inode::FileKind;
use crate::inode::Node;
use crate::inode::spec_decode_ino;
use crate::io::Io;
use crate::tree::Dir;
use crate::tree::dir_lookup;
use crate::tree::dir_nodes_valid;
use crate::tree::dir_set;
use crate::tree::dir_sorted;
use crate::tree::lemma_dir_lookup_valid;
use crate::tree::lex_lt;
use crate::tree::lemma_dir_nodes_valid_grow;
use crate::tree::lemma_dir_set_sorted;
use crate::tree::lemma_dir_set_valid;
use crate::tree::path_components;
use crate::tree::seqs_view;
use crate::tree::split_path;

verus! {

/// The model of the directory list: each directory's sorted slots.
pub open spec fn dirs_view(ds: Seq<Dir>) -> Seq<Seq<(Seq<u8>, Node)>> {
    ds.map_values(|d: Dir| d@)
}

/// The directory list after one entry's path is woven in, walking from the
/// directory of index `di` along `comps`.
///
/// For every component but the last: an absent slot, or one holding a file,
/// is (over)written with a fresh directory appended at the end of the list,
/// and the walk descends into the slot's directory. For the last component:
/// a file reference is bound only if the slot is empty — a duplicate leaf is
/// silently dropped.
pub open spec fn add_path(
    dirs: Seq<Seq<(Seq<u8>, Node)>>,
    di: int,
    comps: Seq<Seq<u8>>,
    fidx: u32,
) -> Seq<Seq<(Seq<u8>, Node)>>
    decreases comps.len(),
{
    if comps.len() == 0 {
        dirs
    } else if comps.len() == 1 {
        if dir_lookup(dirs[di], comps[0]) is Some {
            dirs
        } else {
            dirs.update(di, dir_set(dirs[di], comps[0], Node::File(fidx)))
        }
    } else {
        match dir_lookup(dirs[di], comps[0]) {
            Some(Node::Dir(n)) => add_path(dirs, n as int, comps.skip(1), fidx),
            _ => add_path(
                dirs.update(di, dir_set(dirs[di], comps[0], Node::Dir(dirs.len() as u32))).push(
                    Seq::empty(),
                ),
                dirs.len() as int,
                comps.skip(1),
                fidx,
            ),
        }
    }
}

/// The directory list after the first `n` entry names are woven in, in
/// index order, starting from a lone empty root.
pub open spec fn build_upto(names: Seq<Seq<u8>>, n: int) -> Seq<Seq<(Seq<u8>, Node)>>
    decreases n,
{
    if n <= 0 {
        seq![Seq::<(Seq<u8>, Node)>::empty()]
    } else {
        add_path(build_upto(names, n - 1), 0, path_components(names[n - 1]), (n - 1) as u32)
    }
}

/// The directory forest built from the full ordered entry name sequence.
pub open spec fn build_dirs(names: Seq<Seq<u8>>) -> Seq<Seq<(Seq<u8>, Node)>> {
    build_upto(names, names.len() as int)
}

/// The names of the archive's `n` entries, in index order.
pub open spec fn spec_mount_names(data: Seq<u8>, n: int) -> Seq<Seq<u8>> {
    Seq::new(n as nat, |i: int| spec_entry_name(data, i))
}

/// A build state is sound: the root exists, every directory's slots stand
/// in strictly ascending name order, and every node points inside the entry
/// table or the directory list.
pub open spec fn dirs_state_ok(dirs: Seq<Seq<(Seq<u8>, Node)>>, file_count: u32) -> bool {
    &&& dirs.len() >= 1
    &&& forall|k: int| 0 <= k < dirs.len() ==> dir_sorted(#[trigger] dirs[k])
    &&& forall|k: int|
        0 <= k < dirs.len() ==> dir_nodes_valid(#[trigger] dirs[k], file_count, dirs.len() as int)
}

/// Weaving one path in preserves soundness, and never shrinks the directory
/// list or any directory already in it.
pub proof fn lemma_add_path_grows(
    dirs: Seq<Seq<(Seq<u8>, Node)>>,
    di: int,
    comps: Seq<Seq<u8>>,
    fidx: u32,
    file_count: u32,
)
    requires
        dirs_state_ok(dirs, file_count),
        0 <= di < dirs.len(),
        fidx < file_count,
    ensures
        dirs_state_ok(add_path(dirs, di, comps, fidx), file_count),
        add_path(dirs, di, comps, fidx).len() >= dirs.len(),
        forall|k: int|
            0 <= k < dirs.len() ==> (#[trigger] add_path(dirs, di, comps, fidx)[k]).len()
                >= dirs[k].len(),
    decreases comps.len(),
{
    let r = add_path(dirs, di, comps, fidx);
    if comps.len() == 0 {
    } else if comps.len() == 1 {
        if dir_lookup(dirs[di], comps[0]) is Some {
        } else {
            let d2 = dir_set(dirs[di], comps[0], Node::File(fidx));
            lemma_dir_set_sorted(dirs[di], comps[0], Node::File(fidx));
            lemma_dir_set_valid(dirs[di], comps[0], Node::File(fidx), file_count,
                dirs.len() as int);
            crate::tree::lemma_dir_set_len(dirs[di], comps[0], Node::File(fidx));
            assert forall|k: int| 0 <= k < r.len() implies dir_sorted(#[trigger] r[k])
                && dir_nodes_valid(r[k], file_count, r.len() as int) by {
                if k != di {
                    assert(r[k] == dirs[k]);
                }
            }
            assert forall|k: int| 0 <= k < dirs.len() implies (#[trigger] r[k]).len()
                >= dirs[k].len() by {
                if k != di {
                    assert(r[k] == dirs[k]);
                }
            }
        }
    } else {
        match dir_lookup(dirs[di], comps[0]) {
            Some(Node::Dir(n)) => {
                lemma_dir_lookup_valid(dirs[di], comps[0], file_count, dirs.len() as int);
                lemma_add_path_grows(dirs, n as int, comps.skip(1), fidx, file_count);
            },
            _ => {
                let l = dirs.len() as int;
                let fresh = Node::Dir(dirs.len() as u32);
                let d2 = dir_set(dirs[di], comps[0], fresh);
                let dirs2 = dirs.update(di, d2).push(Seq::empty());
                lemma_dir_set_sorted(dirs[di], comps[0], fresh);
                crate::tree::lemma_dir_set_len(dirs[di], comps[0], fresh);
                assert(fresh.valid(file_count, l + 1)) by {
                    if dirs.len() >= 0x1_0000_0000nat {
                        assert(fresh->Dir_0 <= u32::MAX);
                    }
                }
                lemma_dir_nodes_valid_grow(dirs[di], file_count, l, l + 1);
                lemma_dir_set_valid(dirs[di], comps[0], fresh, file_count, l + 1);
                assert(dirs_state_ok(dirs2, file_count)) by {
                    assert forall|k: int| 0 <= k < dirs2.len() implies dir_sorted(
                        #[trigger] dirs2[k],
                    ) && dir_nodes_valid(dirs2[k], file_count, dirs2.len() as int) by {
                        if k == l {
                            assert(dirs2[k] =~= Seq::<(Seq<u8>, Node)>::empty());
                        } else if k != di {
                            assert(dirs2[k] == dirs[k]);
                            lemma_dir_nodes_valid_grow(dirs[k], file_count, l, l + 1);
                        }
                    }
                }
                lemma_add_path_grows(dirs2, l, comps.skip(1), fidx, file_count);
                assert forall|k: int| 0 <= k < dirs.len() implies (#[trigger] r[k]).len()
                    >= dirs[k].len() by {
                    assert(r[k].len() >= dirs2[k].len());
                    if k != di {
                        assert(dirs2[k] == dirs[k]);
                    }
                }
            },
        }
    }
}

/// Every prefix of the build is a sound state.
pub proof fn lemma_build_upto_ok(names: Seq<Seq<u8>>, n: int)
    requires
        0 <= n <= names.len(),
        names.len() <= u32::MAX,
    ensures
        dirs_state_ok(build_upto(names, n), names.len() as u32),
    decreases n,
{
    if n <= 0 {
        let base = build_upto(names, 0);
        assert forall|k: int| 0 <= k < base.len() implies dir_sorted(#[trigger] base[k])
            && dir_nodes_valid(base[k], names.len() as u32, base.len() as int) by {
            assert(base[k] =~= Seq::<(Seq<u8>, Node)>::empty());
        }
    } else {
        lemma_build_upto_ok(names, n - 1);
        lemma_add_path_grows(
            build_upto(names, n - 1),
            0,
            path_components(names[n - 1]),
            (n - 1) as u32,
            names.len() as u32,
        );
    }
}

/// Later prefixes of the build never shrink the directory list or any
/// directory an earlier prefix already holds.
pub proof fn lemma_build_upto_grows(names: Seq<Seq<u8>>, a: int, b: int)
    requires
        0 <= a <= b <= names.len(),
        names.len() <= u32::MAX,
    ensures
        build_upto(names, b).len() >= build_upto(names, a).len(),
        forall|k: int|
            0 <= k < build_upto(names, a).len() ==> (#[trigger] build_upto(names, b)[k]).len()
                >= build_upto(names, a)[k].len(),
    decreases b - a,
{
    if a < b {
        lemma_build_upto_grows(names, a, b - 1);
        lemma_build_upto_ok(names, b - 1);
        lemma_add_path_grows(
            build_upto(names, b - 1),
            0,
            path_components(names[b - 1]),
            (b - 1) as u32,
            names.len() as u32,
        );
        assert forall|k: int|
            0 <= k < build_upto(names, a).len() implies (#[trigger] build_upto(names, b)[k]).len()
            >= build_upto(names, a)[k].len() by {
            assert(build_upto(names, b)[k].len() >= build_upto(names, b - 1)[k].len());
        }
    }
}

/// A sound partial build state that already stands at the 32-bit bound —
/// on the directory list or on one directory's slots — forces the finished
/// build there too: the build only ever grows.
proof fn lemma_mount_bound_hit(
    m: Seq<Seq<(Seq<u8>, Node)>>,
    di: int,
    rest: Seq<Seq<u8>>,
    i: u32,
    n: u32,
    names: Seq<Seq<u8>>,
)
    requires
        dirs_state_ok(m, n),
        0 <= di < m.len(),
        i < n,
        names.len() == n as int,
        add_path(m, di, rest, i) == build_upto(names, i as int + 1),
        m.len() >= u32::MAX || m[di].len() >= u32::MAX,
    ensures
        build_dirs(names).len() >= u32::MAX || exists|k: int|
            0 <= k < build_dirs(names).len() && (#[trigger] build_dirs(names)[k]).len()
                >= u32::MAX,
{
    lemma_add_path_grows(m, di, rest, i, n);
    lemma_build_upto_grows(names, i as int + 1, names.len() as int);
    let built = build_dirs(names);
    let step = build_upto(names, i as int + 1);
    if m.len() >= u32::MAX {
        assert(step.len() >= m.len());
        assert(built.len() >= step.len());
    } else {
        assert(step[di].len() >= m[di].len());
        assert(built[di].len() >= step[di].len());
        assert(exists|k: int|
            0 <= k < built.len() && (#[trigger] built[k]).len() >= u32::MAX) by {
            assert((built[di]).len() >= u32::MAX);
        }
    }
}

/// Why a mount failed: the two format errors, a block size the adapter
/// cannot serve, a directory list outgrowing its 32-bit indices, or an
/// error of the backing stream.
#[derive(Debug)]
pub enum MountError<R> {
    BadMagic,
    UnsupportedVersion,
    BadBlockSize,
    TooManyDirectories,
    Io(R),
}

/// Why a request failed: the object is not there (or is of the wrong kind
/// for the operation), or the backing stream failed.
#[derive(Debug)]
pub enum FsError<R> {
    NotFound,
    Io(R),
}

/// The mounted filesystem: the decoded header and the directory forest,
/// both fixed for the life of the mount.
pub struct Fs {
    header: Header,
    dirs: Vec<Dir>,
}

impl Fs {
    /// The directory forest's model.
    pub closed spec fn dirs_model(&self) -> Seq<Seq<(Seq<u8>, Node)>> {
        dirs_view(self.dirs@)
    }

    /// The archive's file count.
    pub closed spec fn spec_file_count(&self) -> u32 {
        self.header.file_count
    }

    /// The archive's block-size exponent.
    pub closed spec fn spec_block_size(&self) -> u8 {
        self.header.block_size
    }

    #[verifier::type_invariant]
    spec fn wf(&self) -> bool {
        &&& 1 <= self.dirs@.len() <= u32::MAX as int
        &&& self.header.block_size <= 31
        &&& forall|d: int|
            0 <= d < self.dirs@.len() ==> dir_sorted(#[trigger] dirs_view(self.dirs@)[d])
        &&& forall|d: int|
            0 <= d < self.dirs@.len() ==> dir_nodes_valid(
                #[trigger] dirs_view(self.dirs@)[d],
                self.header.file_count,
                self.dirs@.len() as int,
            )
        &&& forall|d: int|
            0 <= d < self.dirs@.len() ==> (#[trigger] dirs_view(self.dirs@)[d]).len()
                <= u32::MAX as int
    }

    /// Mount: read and validate the header at the start of the stream, then
    /// build the directory forest by weaving in every entry's name, in index
    /// order.
    pub fn new<I: Io>(io: &mut I) -> (r: Result<Fs, MountError<I::Error>>)
        ensures
            final(io).data() == old(io).data(),
            ({
                let d = old(io).data();
                let hd = d.subrange(0, 16);
                &&& r matches Ok(fs) ==> {
                    &&& d.len() >= 16
                    &&& magic_ok(hd)
                    &&& version_ok(hd)
                    &&& fs.spec_block_size() == header_block_size(hd)
                    &&& fs.spec_block_size() <= 31
                    &&& fs.spec_file_count() == header_file_count(hd)
                    &&& fs.dirs_model() == build_dirs(
                        spec_mount_names(d, fs.spec_file_count() as int),
                    )
                    &&& 1 <= fs.dirs_model().len() <= u32::MAX
                    &&& forall|k: int|
                        0 <= k < fs.dirs_model().len() ==> dir_sorted(
                            #[trigger] fs.dirs_model()[k],
                        )
                    &&& forall|k: int|
                        0 <= k < fs.dirs_model().len() ==> (#[trigger] fs.dirs_model()[k]).len()
                            <= u32::MAX
                }
                &&& r matches Err(MountError::BadMagic) ==> d.len() >= 16 && !magic_ok(hd)
                &&& r matches Err(MountError::UnsupportedVersion) ==> d.len() >= 16 && magic_ok(hd)
                    && !version_ok(hd)
                &&& r matches Err(MountError::BadBlockSize) ==> d.len() >= 16 && magic_ok(hd)
                    && version_ok(hd) && header_block_size(hd) > 31
                // this failure is owed only to an archive whose spec-level
                // build really outgrows the 32-bit range, on the directory
                // list or on one directory's slot count: a mount that does
                // no work cannot claim it
                &&& r matches Err(MountError::TooManyDirectories) ==> ({
                    let built = build_dirs(spec_mount_names(d, header_file_count(hd) as int));
                    &&& d.len() >= 16
                    &&& magic_ok(hd)
                    &&& version_ok(hd)
                    &&& (built.len() >= u32::MAX || exists|k: int|
                        0 <= k < built.len() && (#[trigger] built[k]).len() >= u32::MAX)
                })
            }),
    {
        let ghost data = io.data();
        match io.seek(0) {
            Ok(()) => {},
            Err(e) => {
                return Err(MountError::Io(e));
            },
        }
        let header = match Header::load(io) {
            Ok(h) => h,
            Err(ParseHeaderError::BadMagic) => {
                return Err(MountError::BadMagic);
            },
            Err(ParseHeaderError::UnsupportedVersion) => {
                return Err(MountError::UnsupportedVersion);
            },
            Err(ParseHeaderError::Other(e)) => {
                return Err(MountError::Io(e));
            },
        };
        proof {
            assert(data.subrange(0int, 0int + 16) == data.subrange(0, 16));
        }
        if header.block_size > 31 {
            return Err(MountError::BadBlockSize);
        }
        let n = header.file_count;
        let ghost names = spec_mount_names(data, n as int);
        let mut dirs: Vec<Dir> = Vec::new();
        dirs.push(Dir::new());
        proof {
            assert(dirs_view(dirs@) =~= build_upto(names, 0));
        }
        let mut i: u32 = 0;
        while i < n
            invariant
                io.data() == data,
                data == old(io).data(),
                i <= n,
                names == spec_mount_names(data, n as int),
                data.len() >= 16,
                magic_ok(data.subrange(0, 16)),
                version_ok(data.subrange(0, 16)),
                n == header_file_count(data.subrange(0, 16)),
                1 <= dirs@.len() <= u32::MAX as int,
                forall|d: int| 0 <= d < dirs@.len() ==> dir_sorted(#[trigger] dirs_view(dirs@)[d]),
                forall|d: int|
                    0 <= d < dirs@.len() ==> dir_nodes_valid(
                        #[trigger] dirs_view(dirs@)[d],
                        n,
                        dirs@.len() as int,
                    ),
                forall|d: int|
                    0 <= d < dirs@.len() ==> (#[trigger] dirs_view(dirs@)[d]).len()
                        <= u32::MAX as int,
                dirs_view(dirs@) == build_upto(names, i as int),
            decreases n - i,
        {
            let e = match crate::format::get(i, io) {
                Ok(e) => e,
                Err(er) => {
                    return Err(MountError::Io(er));
                },
            };
            let name = match e.name(io) {
                Ok(v) => v,
                Err(er) => {
                    return Err(MountError::Io(er));
                },
            };
            proof {
                assert(name@ == names[i as int]);
            }
            let comps = split_path(name.as_slice());
            let ghost cm = seqs_view(comps@);
            let ghost target = add_path(build_upto(names, i as int), 0, cm, i);
            proof {
                assert(cm.skip(0) =~= cm);
            }
            let mut di: u32 = 0;
            let mut j: usize = 0;
            while j < comps.len()
                invariant
                    io.data() == old(io).data(),
                    data == old(io).data(),
                    names == spec_mount_names(data, n as int),
                    data.len() >= 16,
                    magic_ok(data.subrange(0, 16)),
                    version_ok(data.subrange(0, 16)),
                    n == header_file_count(data.subrange(0, 16)),
                    cm == path_components(names[i as int]),
                    target == add_path(build_upto(names, i as int), 0, cm, i),
                    j <= comps@.len(),
                    cm == seqs_view(comps@),
                    i < n,
                    (di as int) < dirs@.len(),
                    1 <= dirs@.len() <= u32::MAX as int,
                    forall|d: int|
                        0 <= d < dirs@.len() ==> dir_sorted(#[trigger] dirs_view(dirs@)[d]),
                    forall|d: int|
                        0 <= d < dirs@.len() ==> dir_nodes_valid(
                            #[trigger] dirs_view(dirs@)[d],
                            n,
                            dirs@.len() as int,
                        ),
                    forall|d: int|
                        0 <= d < dirs@.len() ==> (#[trigger] dirs_view(dirs@)[d]).len()
                            <= u32::MAX as int,
                    add_path(dirs_view(dirs@), di as int, cm.skip(j as int), i) == target,
                decreases comps@.len() - j,
            {
                let ghost m = dirs_view(dirs@);
                let ghost rest = cm.skip(j as int);
                proof {
                    assert(rest[0] == cm[j as int]);
                    assert(rest.skip(1) =~= cm.skip(j as int + 1));
                    assert(m[di as int] == dirs@[di as int]@);
                }
                let is_last = j + 1 == comps.len();
                let found = dirs[di as usize].find(comps[j].as_slice());
                if is_last {
                    proof {
                        assert(rest.len() == 1);
                    }
                    if found.is_none() {
                        if dirs[di as usize].len() >= u32::MAX as usize {
                            proof {
                                assert(build_upto(names, i as int + 1) == target);
                                lemma_mount_bound_hit(m, di as int, rest, i, n, names);
                            }
                            return Err(MountError::TooManyDirectories);
                        }
                        let comp = slice_to_vec(comps[j].as_slice());
                        dirs[di as usize].set(comp, Node::File(i));
                        proof {
                            let m2 = dirs_view(dirs@);
                            assert(m2 =~= m.update(
                                di as int,
                                dir_set(m[di as int], cm[j as int], Node::File(i)),
                            ));
                            crate::tree::lemma_dir_set_len(m[di as int], cm[j as int],
                                Node::File(i));
                            lemma_dir_set_sorted(m[di as int], cm[j as int], Node::File(i));
                            lemma_dir_set_valid(
                                m[di as int],
                                cm[j as int],
                                Node::File(i),
                                n,
                                dirs@.len() as int,
                            );
                            assert forall|d: int|
                                0 <= d < dirs@.len() implies dir_sorted(
                                #[trigger] dirs_view(dirs@)[d],
                            ) by {
                                if d != di as int {
                                    assert(dirs_view(dirs@)[d] == m[d]);
                                }
                            }
                            assert forall|d: int|
                                0 <= d < dirs@.len() implies dir_nodes_valid(
                                #[trigger] dirs_view(dirs@)[d],
                                n,
                                dirs@.len() as int,
                            ) by {
                                if d != di as int {
                                    assert(dirs_view(dirs@)[d] == m[d]);
                                }
                            }
                            assert forall|d: int|
                                0 <= d < dirs@.len() implies (#[trigger] dirs_view(dirs@)[d]).len()
                                <= u32::MAX as int by {
                                if d != di as int {
                                    assert(dirs_view(dirs@)[d] == m[d]);
                                }
                            }
                        }
                    }
                    j = j + 1;
                    proof {
                        assert(cm.skip(j as int).len() == 0);
                        assert(add_path(dirs_view(dirs@), di as int, cm.skip(j as int), i)
                            == dirs_view(dirs@));
                    }
                } else {
                    proof {
                        assert(rest.len() >= 2);
                    }
                    let mut descend: u32 = 0;
                    let mut have_dir = false;
                    match found {
                        Some(Node::Dir(nn)) => {
                            descend = nn;
                            have_dir = true;
                        },
                        _ => {},
                    }
                    if have_dir {
                        proof {
                            lemma_dir_lookup_valid(m[di as int], cm[j as int], n,
                                dirs@.len() as int);
                        }
                        di = descend;
                        j = j + 1;
                    } else {
                        if dirs.len() >= u32::MAX as usize
                            || dirs[di as usize].len() >= u32::MAX as usize {
                            proof {
                                assert(build_upto(names, i as int + 1) == target);
                                lemma_mount_bound_hit(m, di as int, rest, i, n, names);
                            }
                            return Err(MountError::TooManyDirectories);
                        }
                        let l = dirs.len() as u32;
                        let comp = slice_to_vec(comps[j].as_slice());
                        dirs[di as usize].set(comp, Node::Dir(l));
                        dirs.push(Dir::new());
                        proof {
                            let m2 = dirs_view(dirs@);
                            assert(m2 =~= m.update(
                                di as int,
                                dir_set(m[di as int], cm[j as int], Node::Dir(l)),
                            ).push(Seq::empty()));
                            crate::tree::lemma_dir_set_len(m[di as int], cm[j as int],
                                Node::Dir(l));
                            lemma_dir_set_sorted(m[di as int], cm[j as int], Node::Dir(l));
                            lemma_dir_nodes_valid_grow(m[di as int], n, l as int, l as int + 1);
                            lemma_dir_set_valid(
                                m[di as int],
                                cm[j as int],
                                Node::Dir(l),
                                n,
                                l as int + 1,
                            );
                            assert forall|d: int|
                                0 <= d < dirs@.len() implies dir_sorted(
                                #[trigger] dirs_view(dirs@)[d],
                            ) by {
                                if d < l as int && d != di as int {
                                    assert(dirs_view(dirs@)[d] == m[d]);
                                } else if d == l as int {
                                    assert(dirs_view(dirs@)[d] =~= Seq::<(Seq<u8>, Node)>::empty());
                                }
                            }
                            assert forall|d: int|
                                0 <= d < dirs@.len() implies dir_nodes_valid(
                                #[trigger] dirs_view(dirs@)[d],
                                n,
                                dirs@.len() as int,
                            ) by {
                                if d < l as int && d != di as int {
                                    assert(dirs_view(dirs@)[d] == m[d]);
                                    lemma_dir_nodes_valid_grow(m[d], n, l as int, l as int + 1);
                                } else if d == l as int {
                                    assert(dirs_view(dirs@)[d] =~= Seq::<(Seq<u8>, Node)>::empty());
                                }
                            }
                            assert forall|d: int|
                                0 <= d < dirs@.len() implies (#[trigger] dirs_view(dirs@)[d]).len()
                                <= u32::MAX as int by {
                                if d < l as int && d != di as int {
                                    assert(dirs_view(dirs@)[d] == m[d]);
                                } else if d == l as int {
                                    assert(dirs_view(dirs@)[d] =~= Seq::<(Seq<u8>, Node)>::empty());
                                }
                            }
                        }
                        di = l;
                        j = j + 1;
                    }
                }
            }
            proof {
                assert(cm.skip(j as int).len() == 0);
                assert(dirs_view(dirs@) == target);
                assert(cm == path_components(names[i as int]));
                assert(build_upto(names, i as int + 1) == target);
            }
            i = i + 1;
        }
        let fs = Fs { header, dirs };
        proof {
            assert(fs.dirs_model() == build_dirs(names));
        }
        Ok(fs)
    }

    /// How many directories the forest holds.
    pub fn dir_count(&self) -> (r: usize)
        ensures
            r == self.dirs_model().len(),
    {
        self.dirs.len()
    }

    /// The archive's file count.
    pub fn file_count(&self) -> (r: u32)
        ensures
            r == self.spec_file_count(),
    {
        self.header.file_count
    }

    /// The archive's block-size exponent.
    pub fn block_size(&self) -> (r: u8)
        ensures
            r == self.spec_block_size(),
    {
        self.header.block_size
    }

    /// Decode an inode number against this mount: which object it names, if
    /// any.
    pub fn entry(&self, ino: u64) -> (r: Option<Node>)
        ensures
            r == spec_decode_ino(ino, self.spec_file_count(), self.dirs_model().len() as int),
    {
        proof {
            use_type_invariant(&*self);
        }
        if ino == 0 {
            return None;
        }
        let n = ino - 1;
        if n >= FILE_BIT {
            let f = n - FILE_BIT;
            if f < self.header.file_count as u64 {
                Some(Node::File(f as u32))
            } else {
                None
            }
        } else {
            if n < self.dirs.len() as u64 {
                Some(Node::Dir(n as u32))
            } else {
                None
            }
        }
    }

    /// The synthetic attributes of an object: fixed permissions, owner,
    /// link count and flags; the object's inode, kind and size; and the
    /// size rounded up to whole blocks.
    pub fn attr(&self, ty: FileKind, size: u64, ino: u64) -> (a: Attr)
        requires
            size <= u32::MAX,
        ensures
            a == (Attr {
                ino,
                size,
                blocks: spec_round_up(size as int, pow2(self.spec_block_size() as nat) as int)
                    as u64,
                blksize: pow2(self.spec_block_size() as nat) as u32,
                kind: ty,
                perm: 0o777,
                nlink: 1,
                uid: 0,
                gid: 0,
                rdev: 0,
                flags: 0,
            }),
    {
        proof {
            use_type_invariant(&*self);
            lemma2_to64();
            lemma_pow2_pos(self.header.block_size as nat);
            lemma_pow2_strictly_increases(self.header.block_size as nat, 32);
            lemma_u32_shl_is_mul(1u32, self.header.block_size as u32);
        }
        let bsize: u32 = 1u32 << (self.header.block_size as u32);
        let p: u64 = bsize as u64;
        proof {
            assert(p == pow2(self.spec_block_size() as nat));
            assert(p >= 1);
            let s = size as int;
            let q = p as int;
            assert(((s + q - 1) / q) * q <= s + q - 1) by (nonlinear_arith)
                requires
                    q >= 1,
                    s >= 0,
            ;
        }
        let blocks: u64 = ((size + (p - 1)) / p) * p;
        Attr {
            ino,
            size,
            blocks,
            blksize: bsize,
            kind: ty,
            perm: 0o777,
            nlink: 1,
            uid: 0,
            gid: 0,
            rdev: 0,
            flags: 0,
        }
    }

    /// Resolve `name` in the directory `parent` names: on a hit, the
    /// resolved object's attributes; `NotFound` when the name is absent or
    /// `parent` does not name a directory.
    pub fn lookup<I: Io>(&self, parent: u64, name: &[u8], io: &mut I) -> (r: Result<
        Attr,
        FsError<I::Error>,
    >)
        ensures
            final(io).data() == old(io).data(),
            ({
                let dm = self.dirs_model();
                match spec_decode_ino(parent, self.spec_file_count(), dm.len() as int) {
                    Some(Node::Dir(p)) => match dir_lookup(dm[p as int], name@) {
                        Some(node) => {
                            &&& r matches Err(e) ==> e is Io
                            &&& r matches Ok(a) ==> a == self.spec_attr_of(node, old(io).data())
                            &&& (node is Dir ==> r is Ok)
                        },
                        None => r matches Err(FsError::NotFound) && final(io).pos() == old(
                            io,
                        ).pos(),
                    },
                    _ => r matches Err(FsError::NotFound) && final(io).pos() == old(io).pos(),
                }
            }),
    {
        proof {
            use_type_invariant(&*self);
        }
        match self.entry(parent) {
            Some(Node::Dir(p)) => {
                match self.dirs[p as usize].find(name) {
                    Some(node) => {
                        proof {
                            lemma_dir_lookup_valid(
                                self.dirs_model()[p as int],
                                name@,
                                self.header.file_count,
                                self.dirs@.len() as int,
                            );
                        }
                        let size = match node.size(self, io) {
                            Ok(s) => s,
                            Err(er) => {
                                return Err(FsError::Io(er));
                            },
                        };
                        Ok(self.attr(node.to_ty(), size, node.to_ino()))
                    },
                    None => Err(FsError::NotFound),
                }
            },
            _ => Err(FsError::NotFound),
        }
    }

    /// The attributes the handlers report for `node`, over a stream with
    /// contents `data`: a file's size is its entry record's content size, a
    /// directory's its child count.
    pub open spec fn spec_attr_of(&self, node: Node, data: Seq<u8>) -> Attr {
        let size = match node {
            Node::File(f) => spec_entry_at(data, f as int).file_size as u64,
            Node::Dir(d) => self.dirs_model()[d as int].len() as u64,
        };
        Attr {
            ino: node.spec_ino(),
            size,
            blocks: spec_round_up(size as int, pow2(self.spec_block_size() as nat) as int) as u64,
            blksize: pow2(self.spec_block_size() as nat) as u32,
            kind: node.spec_kind(),
            perm: 0o777,
            nlink: 1,
            uid: 0,
            gid: 0,
            rdev: 0,
            flags: 0,
        }
    }

    /// The attributes of the object `ino` names; `NotFound` when it names
    /// none.
    pub fn getattr<I: Io>(&self, ino: u64, io: &mut I) -> (r: Result<Attr, FsError<I::Error>>)
        ensures
            final(io).data() == old(io).data(),
            ({
                let dm = self.dirs_model();
                match spec_decode_ino(ino, self.spec_file_count(), dm.len() as int) {
                    Some(node) => {
                        &&& r matches Err(e) ==> e is Io
                        &&& r matches Ok(a) ==> a == self.spec_attr_of(node, old(io).data())
                        &&& (node is Dir ==> r is Ok)
                    },
                    None => r matches Err(FsError::NotFound) && final(io).pos() == old(io).pos(),
                }
            }),
    {
        proof {
            use_type_invariant(&*self);
        }
        match self.entry(ino) {
            Some(node) => {
                let size = match node.size(self, io) {
                    Ok(s) => s,
                    Err(er) => {
                        return Err(FsError::Io(er));
                    },
                };
                Ok(self.attr(node.to_ty(), size, node.to_ino()))
            },
            None => Err(FsError::NotFound),
        }
    }

    /// Read up to `size` bytes of the file `ino` names, starting `offset`
    /// bytes into its content: the transfer is clamped to the bytes
    /// remaining and to the fixed per-transfer cap, a read at or past the
    /// end returns no bytes without error, and a non-file inode is
    /// `NotFound`.
    pub fn read<I: Io>(&self, ino: u64, offset: u64, size: u32, io: &mut I) -> (r: Result<
        Vec<u8>,
        FsError<I::Error>,
    >)
        ensures
            final(io).data() == old(io).data(),
            ({
                let d = old(io).data();
                let dm = self.dirs_model();
                match spec_decode_ino(ino, self.spec_file_count(), dm.len() as int) {
                    Some(Node::File(f)) => ({
                        let e = spec_entry_at(d, f as int);
                        let start = e.block_addr * pow2(self.spec_block_size() as nat) + offset;
                        let len = spec_read_len(e.file_size, offset, size);
                        &&& r matches Err(er) ==> er is Io
                        &&& r matches Ok(v) ==> {
                            &&& v@.len() == len
                            &&& len > 0 ==> start + len <= d.len() && v@ == d.subrange(
                                start as int,
                                start as int + len,
                            )
                        }
                    }),
                    _ => r matches Err(FsError::NotFound) && final(io).pos() == old(io).pos(),
                }
            }),
    {
        proof {
            use_type_invariant(&*self);
        }
        let f = match self.entry(ino) {
            Some(Node::File(f)) => f,
            _ => {
                return Err(FsError::NotFound);
            },
        };
        let e = match crate::format::get(f, io) {
            Ok(e) => e,
            Err(er) => {
                return Err(FsError::Io(er));
            },
        };
        let fsize = e.size();
        if offset >= fsize as u64 {
            return Ok(Vec::new());
        }
        let rem: u64 = fsize as u64 - offset;
        let mut amount: u64 = rem;
        if (size as u64) < amount {
            amount = size as u64;
        }
        if amount > READ_CAP as u64 {
            amount = READ_CAP as u64;
        }
        proof {
            lemma2_to64();
            lemma_pow2_strictly_increases(self.header.block_size as nat, 32);
            assert((e.block_addr as int) * (pow2(self.header.block_size as nat) as int)
                <= 0xffff_ffff * 0x1_0000_0000) by (nonlinear_arith)
                requires
                    0 <= e.block_addr <= 0xffff_ffff,
                    0 <= pow2(self.header.block_size as nat) <= 0x1_0000_0000,
            ;
        }
        let start = e.offset(&self.header);
        match io.seek(start + offset) {
            Ok(()) => {},
            Err(er) => {
                return Err(FsError::Io(er));
            },
        }
        match io.read_exact(amount as usize) {
            Ok(v) => Ok(v),
            Err(er) => Err(FsError::Io(er)),
        }
    }
}

/// The fixed cap on any single transfer: 64 KiB.
pub const READ_CAP: u32 = 65536;

/// How many content bytes a read request actually transfers: the bytes
/// remaining past `offset`, clamped by the requested `size` and by the
/// fixed per-transfer cap.
pub open spec fn spec_read_len(fsize: u32, offset: u64, req: u32) -> int {
    if offset >= fsize {
        0
    } else {
        let rem = fsize - offset;
        let a = if req <= rem {
            req as int
        } else {
            rem
        };
        if a <= READ_CAP {
            a
        } else {
            READ_CAP as int
        }
    }
}

/// Rounding `size` up to a whole multiple of the block size `p`.
pub open spec fn spec_round_up(size: int, p: int) -> int {
    ((size + p - 1) / p) * p
}

/// The synthetic attributes of one filesystem object.
#[derive(Clone, Copy, Debug, PartialEq, Eq, Structural)]
pub struct Attr {
    pub ino: u64,
    pub size: u64,
    pub blocks: u64,
    pub blksize: u32,
    pub kind: FileKind,
    pub perm: u16,
    pub nlink: u32,
    pub uid: u32,
    pub gid: u32,
    pub rdev: u32,
    pub flags: u32,
}

/// One emitted directory-listing entry: the child's name, the inode and
/// kind reported for it, and the cursor a later call resumes at to continue
/// right past it.
#[derive(Debug, PartialEq, Eq)]
pub struct ListingItem {
    pub name: Vec<u8>,
    pub ino: u64,
    pub kind: FileKind,
    pub next: u64,
}

/// The model of one listing entry.
pub struct ListingItemModel {
    pub name: Seq<u8>,
    pub ino: u64,
    pub kind: FileKind,
    pub next: u64,
}

impl View for ListingItem {
    type V = ListingItemModel;

    open spec fn view(&self) -> ListingItemModel {
        ListingItemModel { name: self.name@, ino: self.ino, kind: self.kind, next: self.next }
    }
}

/// The views of a sequence of listing entries.
pub open spec fn listing_view(v: Seq<ListingItem>) -> Seq<ListingItemModel> {
    v.map_values(|it: ListingItem| it@)
}

/// The listing entry at cursor position `k` of a directory with slots `d`
/// and inode `self_ino`: position 0 is `.`, position 1 is `..` — both
/// reported as `self_ino`, since no true parent linkage is retained — and
/// position `k >= 2` is the child at position `k - 2` in name order.
pub open spec fn spec_listing_item(
    d: Seq<(Seq<u8>, Node)>,
    self_ino: u64,
    k: int,
) -> ListingItemModel {
    if k == 0 {
        ListingItemModel {
            name: seq![46u8],
            ino: self_ino,
            kind: FileKind::Directory,
            next: 1,
        }
    } else if k == 1 {
        ListingItemModel {
            name: seq![46u8, 46u8],
            ino: self_ino,
            kind: FileKind::Directory,
            next: 2,
        }
    } else {
        ListingItemModel {
            name: d[k - 2].0,
            ino: d[k - 2].1.spec_ino(),
            kind: d[k - 2].1.spec_kind(),
            next: (k + 1) as u64,
        }
    }
}

/// The full listing of a directory: `.`, `..`, then every child in name
/// order, each entry carrying the strictly ascending next-cursor `k + 1`.
pub open spec fn spec_listing(d: Seq<(Seq<u8>, Node)>, self_ino: u64) -> Seq<ListingItemModel> {
    Seq::new((d.len() + 2) as nat, |k: int| spec_listing_item(d, self_ino, k))
}

/// Law: the listing cursors make the walk resumable — cutting the full
/// listing after any number of entries and resuming at that point loses
/// nothing and repeats nothing; every entry's next-cursor is one past its
/// own position; and the children (positions 2 onward) stand in strictly
/// ascending name order, so no name appears twice.
pub proof fn lemma_readdir_resumption(d: Seq<(Seq<u8>, Node)>, self_ino: u64, c: int)
    requires
        0 <= c <= spec_listing(d, self_ino).len(),
        d.len() <= u32::MAX as int,
        dir_sorted(d),
    ensures
        spec_listing(d, self_ino).take(c) + spec_listing(d, self_ino).skip(c) == spec_listing(
            d,
            self_ino,
        ),
        forall|k: int|
            0 <= k < spec_listing(d, self_ino).len() ==> (#[trigger] spec_listing(d, self_ino)[k]).next
                == k + 1,
        forall|i: int, j: int|
            2 <= i < j < spec_listing(d, self_ino).len() ==> lex_lt(
                (#[trigger] spec_listing(d, self_ino)[i]).name,
                (#[trigger] spec_listing(d, self_ino)[j]).name,
            ),
{
    let l = spec_listing(d, self_ino);
    assert(l.take(c) + l.skip(c) =~= l);
}

impl Fs {
    /// List the directory `ino` names, starting at the resumption cursor
    /// `offset`: the suffix of the full listing from that position on.
    /// A cursor at or past the end yields no entries; an inode naming no
    /// directory yields `None`.
    pub fn readdir(&self, ino: u64, offset: u64) -> (r: Option<Vec<ListingItem>>)
        ensures
            ({
                let dm = self.dirs_model();
                match spec_decode_ino(ino, self.spec_file_count(), dm.len() as int) {
                    Some(Node::Dir(dd)) => r matches Some(v) && ({
                        let listing = spec_listing(dm[dd as int], Node::Dir(dd).spec_ino());
                        let start = if offset <= listing.len() {
                            offset as int
                        } else {
                            listing.len() as int
                        };
                        listing_view(v@) == listing.skip(start)
                    }),
                    _ => r is None,
                }
            }),
    {
        proof {
            use_type_invariant(&*self);
        }
        let dd = match self.entry(ino) {
            Some(Node::Dir(dd)) => dd,
            _ => {
                return None;
            },
        };
        let self_ino = Node::Dir(dd).to_ino();
        let ghost dmodel = self.dirs_model()[dd as int];
        let ghost listing = spec_listing(dmodel, self_ino);
        let count = self.dirs[dd as usize].len();
        let total: u64 = count as u64 + 2;
        let start: u64 = if offset <= total {
            offset
        } else {
            total
        };
        let mut out: Vec<ListingItem> = Vec::new();
        let mut k: u64 = start;
        proof {
            assert(listing_view(out@) =~~= listing.subrange(start as int, k as int));
        }
        while k < total
            invariant
                start <= k <= total,
                (dd as int) < self.dirs_model().len(),
                total == listing.len(),
                count == dmodel.len(),
                dmodel == self.dirs_model()[dd as int],
                listing == spec_listing(dmodel, self_ino),
                listing_view(out@) == listing.subrange(start as int, k as int),
            decreases total - k,
        {
            let ghost oldout = out@;
            if k == 0 {
                let mut nm: Vec<u8> = Vec::new();
                nm.push(46);
                out.push(ListingItem { name: nm, ino: self_ino, kind: FileKind::Directory, next: 1 });
            } else if k == 1 {
                let mut nm: Vec<u8> = Vec::new();
                nm.push(46);
                nm.push(46);
                out.push(ListingItem { name: nm, ino: self_ino, kind: FileKind::Directory, next: 2 });
            } else {
                let (nm, node) = self.dirs[dd as usize].get_at((k - 2) as usize);
                let name = slice_to_vec(nm.as_slice());
                out.push(ListingItem { name, ino: node.to_ino(), kind: node.to_ty(), next: k + 1 });
            }
            k = k + 1;
            proof {
                let pos = k - 1;
                let last = out@[out@.len() - 1]@;
                if pos == 0 {
                    assert(last.name =~= seq![46u8]);
                } else if pos == 1 {
                    assert(last.name =~= seq![46u8, 46u8]);
                }
                assert(last == listing[pos as int]);
                assert(listing_view(oldout).len() == oldout.len());
                assert(oldout.len() == pos - start);
                assert(out@.len() == k - start);
                assert forall|idx: int| 0 <= idx < out@.len() implies listing_view(out@)[idx]
                    == listing.subrange(start as int, k as int)[idx] by {
                    assert(listing_view(out@)[idx] == out@[idx]@);
                    if idx < out@.len() - 1 {
                        assert(out@[idx] == oldout[idx]);
                        assert(listing_view(oldout)[idx] == oldout[idx]@);
                        assert(listing_view(oldout)[idx] == listing.subrange(
                            start as int,
                            pos as int,
                        )[idx]);
                    } else {
                        assert(listing_view(oldout).len() == oldout.len());
                        assert(oldout.len() == pos - start);
                        assert(idx == pos - start);
                        assert(listing.subrange(start as int, k as int)[idx] == listing[
                            pos as int
                        ]);
                        assert(out@[idx]@ == last);
                    }
                }
                assert(listing_view(out@) =~~= listing.subrange(start as int, k as int));
            }
        }
        proof {
            assert(listing.subrange(start as int, total as int) =~~= listing.skip(start as int));
        }
        Some(out)
    }
}

/// Law: tree construction is deterministic — two mounts over streams with
/// the same contents and the same file count hold structurally identical
/// directory forests.
pub proof fn lemma_build_deterministic(a: Fs, b: Fs, data: Seq<u8>)
    requires
        a.dirs_model() == build_dirs(spec_mount_names(data, a.spec_file_count() as int)),
        b.dirs_model() == build_dirs(spec_mount_names(data, b.spec_file_count() as int)),
        a.spec_file_count() == b.spec_file_count(),
    ensures
        a.dirs_model() == b.dirs_model(),
{
}

impl Node {
    /// The size a node reports: a file's content byte size, fetched from
    /// its entry record; a directory's child count.
    pub fn size<I: Io>(&self, fs: &Fs, io: &mut I) -> (r: Result<u64, I::Error>)
        requires
            self.valid(fs.spec_file_count(), fs.dirs_model().len() as int),
        ensures
            final(io).data() == old(io).data(),
            self matches Node::Dir(d) ==> r is Ok && r->Ok_0 == fs.dirs_model()[d as int].len(),
            self matches Node::File(f) ==> (r is Ok ==> r->Ok_0 == spec_entry_at(
                old(io).data(),
                f as int,
            ).file_size),
    {
        match *self {
            Node::File(n) => match fs.header.get(n, io) {
                Some(Ok(e)) => Ok(e.size() as u64),
                Some(Err(er)) => Err(er),
                None => unreached(),
            },
            Node::Dir(n) => Ok(fs.dirs[n as usize].len() as u64),
        }
    }
}

} // verus!
