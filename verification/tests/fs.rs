//! Tests of the filesystem adapter: mounting, the inode bijection, the
//! conflict rules of tree construction, and the four request handlers.

use nrofs::BufIo;
use nrofs::FileKind;
use nrofs::Fs;
use nrofs::FsError;
use nrofs::ListingItem;
use nrofs::MountError;
use nrofs::Node;

/// Build an archive image holding the given named byte blobs.
fn image(names: &[&[u8]], contents: &[&[u8]], bexp: u8) -> Vec<u8> {
    assert_eq!(names.len(), contents.len());
    let n = names.len();
    let mut v: Vec<u8> = Vec::new();
    v.extend_from_slice(b"NrRdOnly");
    v.push(0);
    v.push(bexp);
    v.push(0);
    v.push(0);
    v.extend_from_slice(&(n as u32).to_le_bytes());

    let names_start = 16 + 12 * n;
    let mut name_offsets = Vec::new();
    let mut off = names_start;
    for nm in names {
        name_offsets.push(off);
        off += 1 + nm.len();
    }
    let bs = 1usize << bexp;
    let mut content_offsets = Vec::new();
    for c in contents {
        let aligned = (off + bs - 1) / bs * bs;
        content_offsets.push(aligned);
        off = aligned + c.len();
    }
    for i in 0..n {
        v.extend_from_slice(&(name_offsets[i] as u32).to_le_bytes());
        v.extend_from_slice(&((content_offsets[i] / bs) as u32).to_le_bytes());
        v.extend_from_slice(&(contents[i].len() as u32).to_le_bytes());
    }
    for nm in names {
        v.push(nm.len() as u8);
        v.extend_from_slice(nm);
    }
    for (i, c) in contents.iter().enumerate() {
        while v.len() < content_offsets[i] {
            v.push(0);
        }
        v.extend_from_slice(c);
    }
    v
}

fn mount(img: Vec<u8>) -> (Fs, BufIo) {
    let mut io = BufIo::new(img);
    let fs = Fs::new(&mut io).unwrap();
    (fs, io)
}

/// The names a full listing of `ino` reports, in order.
fn listed_names(fs: &Fs, ino: u64) -> Vec<Vec<u8>> {
    fs.readdir(ino, 0).unwrap().into_iter().map(|it| it.name).collect()
}

#[test]
fn mount_reads_header() {
    let (fs, _io) = mount(image(&[b"a", b"b"], &[b"1", b"2"], 5));
    assert_eq!(fs.file_count(), 2);
    assert_eq!(fs.block_size(), 5);
    assert_eq!(fs.dir_count(), 1);
}

#[test]
fn mount_rejects_bad_magic() {
    let mut img = image(&[b"a"], &[b"1"], 0);
    img[3] = 0;
    let mut io = BufIo::new(img);
    assert!(matches!(Fs::new(&mut io), Err(MountError::BadMagic)));
}

#[test]
fn mount_rejects_bad_version() {
    let mut img = image(&[b"a"], &[b"1"], 0);
    img[8] = 1;
    let mut io = BufIo::new(img);
    assert!(matches!(Fs::new(&mut io), Err(MountError::UnsupportedVersion)));
}

#[test]
fn mount_rejects_wide_block_size() {
    // a header alone: the block-size check fires before any entry is read
    let mut img: Vec<u8> = Vec::new();
    img.extend_from_slice(b"NrRdOnly");
    img.push(0);
    img.push(32);
    img.push(0);
    img.push(0);
    img.extend_from_slice(&0u32.to_le_bytes());
    let mut io = BufIo::new(img);
    assert!(matches!(Fs::new(&mut io), Err(MountError::BadBlockSize)));
}

#[test]
fn mount_on_truncated_stream_is_io_error() {
    let img = image(&[b"a"], &[b"1"], 0);
    let mut io = BufIo::new(img[..20].to_vec());
    assert!(matches!(Fs::new(&mut io), Err(MountError::Io(_))));
}

#[test]
fn read_past_backing_store_is_io_error() {
    // an entry whose declared content runs past the end of the stream: the
    // reader trusts the record, so the failure surfaces at the read
    let mut img = image(&[b"f"], &[b"0123456789"], 0);
    let cut = img.len() - 5;
    img.truncate(cut);
    let mut io = BufIo::new(img);
    let fs = Fs::new(&mut io).unwrap();
    let f = fs.lookup(1, b"f", &mut io).unwrap();
    assert!(matches!(fs.read(f.ino, 0, 10, &mut io), Err(FsError::Io(_))));
    // the bytes still inside the stream remain readable
    assert_eq!(fs.read(f.ino, 0, 5, &mut io).unwrap(), b"01234".to_vec());
}

#[test]
fn inode_round_trip() {
    let (fs, _io) = mount(image(
        &[b"top.txt", b"sub/inner.txt"],
        &[b"x", b"y"],
        0,
    ));
    assert_eq!(fs.dir_count(), 2);
    assert_eq!(Node::Dir(0).to_ino(), 1);
    for node in [Node::Dir(0), Node::Dir(1), Node::File(0), Node::File(1)] {
        assert_eq!(fs.entry(node.to_ino()), Some(node));
    }
    assert_eq!(fs.entry(0), None);
    assert_eq!(fs.entry(3), None);
    assert_eq!(fs.entry(1 + (2u64 | 1 << 63)), None);
}

#[test]
fn tree_build_is_deterministic() {
    let img = image(
        &[b"a/b/c.txt", b"a/b", b"z.txt", b"a/q.txt"],
        &[b"1", b"2", b"3", b"4"],
        0,
    );
    let (fs1, mut io1) = mount(img.clone());
    let (fs2, mut io2) = mount(img);
    assert_eq!(fs1.dir_count(), fs2.dir_count());
    for d in 0..fs1.dir_count() as u64 {
        let ino = 1 + d;
        assert_eq!(fs1.readdir(ino, 0).unwrap(), fs2.readdir(ino, 0).unwrap());
    }
    let a1 = fs1.lookup(1, b"z.txt", &mut io1).unwrap();
    let a2 = fs2.lookup(1, b"z.txt", &mut io2).unwrap();
    assert_eq!(a1, a2);
}

#[test]
fn conflict_dir_wins_when_dir_first() {
    // entries ["a/b/c.txt", "a/b"]: "a/b" is already a directory when the
    // file entry arrives, so the file is dropped.
    let (fs, mut io) = mount(image(&[b"a/b/c.txt", b"a/b"], &[b"ccc", b"bb"], 0));
    let a = fs.lookup(1, b"a", &mut io).unwrap();
    assert_eq!(a.kind, FileKind::Directory);
    let b = fs.lookup(a.ino, b"b", &mut io).unwrap();
    assert_eq!(b.kind, FileKind::Directory);
    let c = fs.lookup(b.ino, b"c.txt", &mut io).unwrap();
    assert_eq!(c.kind, FileKind::RegularFile);
    assert_eq!(c.size, 3);
    assert_eq!(listed_names(&fs, b.ino), vec![b".".to_vec(), b"..".to_vec(), b"c.txt".to_vec()]);
}

#[test]
fn conflict_file_replaced_when_file_first() {
    // entries ["a/b", "a/b/c.txt"]: the file "a/b" is created first, then
    // forced into a directory holding only c.txt.
    let (fs, mut io) = mount(image(&[b"a/b", b"a/b/c.txt"], &[b"bb", b"ccc"], 0));
    let a = fs.lookup(1, b"a", &mut io).unwrap();
    assert_eq!(a.kind, FileKind::Directory);
    let b = fs.lookup(a.ino, b"b", &mut io).unwrap();
    assert_eq!(b.kind, FileKind::Directory);
    assert_eq!(listed_names(&fs, b.ino), vec![b".".to_vec(), b"..".to_vec(), b"c.txt".to_vec()]);
    let c = fs.lookup(b.ino, b"c.txt", &mut io).unwrap();
    assert_eq!(c.kind, FileKind::RegularFile);
    assert_eq!(c.size, 3);
}

#[test]
fn duplicate_leaf_is_dropped() {
    let (fs, mut io) = mount(image(&[b"x", b"x"], &[b"first", b"second!"], 0));
    let x = fs.lookup(1, b"x", &mut io).unwrap();
    assert_eq!(x.size, 5);
    let data = fs.read(x.ino, 0, 100, &mut io).unwrap();
    assert_eq!(data, b"first".to_vec());
}

#[test]
fn read_clamps_to_remaining_bytes() {
    let (fs, mut io) = mount(image(&[b"f"], &[b"0123456789"], 0));
    let f = fs.lookup(1, b"f", &mut io).unwrap();
    assert_eq!(fs.read(f.ino, 0, 4, &mut io).unwrap(), b"0123".to_vec());
    assert_eq!(fs.read(f.ino, 6, 100, &mut io).unwrap(), b"6789".to_vec());
    assert_eq!(fs.read(f.ino, 0, 100, &mut io).unwrap(), b"0123456789".to_vec());
    assert_eq!(fs.read(f.ino, 0, 0, &mut io).unwrap(), Vec::<u8>::new());
}

#[test]
fn read_at_or_past_end_is_empty_ok() {
    let (fs, mut io) = mount(image(&[b"f"], &[b"0123456789"], 0));
    let f = fs.lookup(1, b"f", &mut io).unwrap();
    assert_eq!(fs.read(f.ino, 10, 5, &mut io).unwrap(), Vec::<u8>::new());
    assert_eq!(fs.read(f.ino, 1000, 5, &mut io).unwrap(), Vec::<u8>::new());
}

#[test]
fn read_caps_single_transfer() {
    let big: Vec<u8> = (0..70000u32).map(|i| (i % 251) as u8).collect();
    let (fs, mut io) = mount(image(&[b"big"], &[&big], 0));
    let f = fs.lookup(1, b"big", &mut io).unwrap();
    let got = fs.read(f.ino, 0, 70000, &mut io).unwrap();
    assert_eq!(got.len(), 65536);
    assert_eq!(got[..], big[..65536]);
    let rest = fs.read(f.ino, 65536, 70000, &mut io).unwrap();
    assert_eq!(rest.len(), 70000 - 65536);
    assert_eq!(rest[..], big[65536..]);
}

#[test]
fn read_of_directory_is_not_found() {
    let (fs, mut io) = mount(image(&[b"d/f"], &[b"x"], 0));
    assert!(matches!(fs.read(1, 0, 10, &mut io), Err(FsError::NotFound)));
    assert!(matches!(fs.read(0, 0, 10, &mut io), Err(FsError::NotFound)));
}

#[test]
fn readdir_lists_children_in_name_order() {
    let (fs, _io) = mount(image(
        &[b"b.txt", b"a.txt", b"c.txt"],
        &[b"1", b"2", b"3"],
        0,
    ));
    assert_eq!(
        listed_names(&fs, 1),
        vec![
            b".".to_vec(),
            b"..".to_vec(),
            b"a.txt".to_vec(),
            b"b.txt".to_vec(),
            b"c.txt".to_vec(),
        ]
    );
}

#[test]
fn readdir_resumes_without_loss_or_repeat() {
    let (fs, _io) = mount(image(
        &[b"b", b"a", b"d", b"c", b"e"],
        &[b"1", b"2", b"3", b"4", b"5"],
        0,
    ));
    let full = fs.readdir(1, 0).unwrap();
    assert_eq!(full.len(), 7);
    for (k, it) in full.iter().enumerate() {
        assert_eq!(it.next, k as u64 + 1);
    }
    // Consume in chunks of varying size, resuming at the last next-cursor,
    // as a repeatedly-filling kernel buffer would.
    for chunk in 1..4usize {
        let mut gathered: Vec<ListingItem> = Vec::new();
        let mut cursor = 0u64;
        loop {
            let mut batch = fs.readdir(1, cursor).unwrap();
            if batch.is_empty() {
                break;
            }
            batch.truncate(chunk);
            cursor = batch.last().unwrap().next;
            gathered.extend(batch);
        }
        assert_eq!(gathered, fs.readdir(1, 0).unwrap());
    }
    assert_eq!(fs.readdir(1, 7).unwrap(), Vec::new());
    assert_eq!(fs.readdir(1, 1000).unwrap(), Vec::new());
}

#[test]
fn readdir_reports_self_for_dot_and_dotdot() {
    let (fs, _io) = mount(image(&[b"d/f"], &[b"x"], 0));
    let sub = fs.readdir(1, 0).unwrap();
    let d_ino = sub[2].ino;
    let inner = fs.readdir(d_ino, 0).unwrap();
    assert_eq!(inner[0].name, b".".to_vec());
    assert_eq!(inner[0].ino, d_ino);
    assert_eq!(inner[1].name, b"..".to_vec());
    assert_eq!(inner[1].ino, d_ino);
}

#[test]
fn readdir_of_file_is_none() {
    let (fs, mut io) = mount(image(&[b"f"], &[b"x"], 0));
    let f = fs.lookup(1, b"f", &mut io).unwrap();
    assert!(fs.readdir(f.ino, 0).is_none());
    assert!(fs.readdir(0, 0).is_none());
    assert!(fs.readdir(99, 0).is_none());
}

#[test]
fn lookup_absent_name_is_not_found() {
    let (fs, mut io) = mount(image(&[b"present"], &[b"x"], 0));
    assert!(matches!(fs.lookup(1, b"absent", &mut io), Err(FsError::NotFound)));
}

#[test]
fn lookup_in_file_parent_is_not_found() {
    let (fs, mut io) = mount(image(&[b"f"], &[b"x"], 0));
    let f = fs.lookup(1, b"f", &mut io).unwrap();
    assert!(matches!(fs.lookup(f.ino, b"anything", &mut io), Err(FsError::NotFound)));
    assert!(matches!(fs.lookup(0, b"anything", &mut io), Err(FsError::NotFound)));
    assert!(matches!(fs.lookup(99, b"anything", &mut io), Err(FsError::NotFound)));
}

#[test]
fn attributes_are_synthetic_and_sized() {
    let (fs, mut io) = mount(image(&[b"f", b"d/g"], &[b"hello", b"x"], 2));
    let f = fs.lookup(1, b"f", &mut io).unwrap();
    assert_eq!(f.kind, FileKind::RegularFile);
    assert_eq!(f.size, 5);
    assert_eq!(f.blksize, 4);
    assert_eq!(f.blocks, 8);
    assert_eq!(f.perm, 0o777);
    assert_eq!(f.nlink, 1);
    assert_eq!(f.uid, 0);
    assert_eq!(f.gid, 0);

    let root = fs.getattr(1, &mut io).unwrap();
    assert_eq!(root.kind, FileKind::Directory);
    assert_eq!(root.size, 2);
    assert_eq!(root.ino, 1);

    let g = fs.getattr(f.ino, &mut io).unwrap();
    assert_eq!(g, f);
    assert!(matches!(fs.getattr(0, &mut io), Err(FsError::NotFound)));
    assert!(matches!(fs.getattr(77, &mut io), Err(FsError::NotFound)));
}

#[test]
fn slashes_are_collapsed_and_empty_names_dropped() {
    let (fs, mut io) = mount(image(
        &[b"", b"/x//y/", b"//"],
        &[b"ignored", b"payload", b"also"],
        0,
    ));
    // the empty and all-slash names contribute nothing
    assert_eq!(listed_names(&fs, 1), vec![b".".to_vec(), b"..".to_vec(), b"x".to_vec()]);
    let x = fs.lookup(1, b"x", &mut io).unwrap();
    assert_eq!(x.kind, FileKind::Directory);
    let y = fs.lookup(x.ino, b"y", &mut io).unwrap();
    assert_eq!(y.kind, FileKind::RegularFile);
    assert_eq!(fs.read(y.ino, 0, 100, &mut io).unwrap(), b"payload".to_vec());
}

#[test]
fn content_read_respects_block_scaling() {
    let (fs, mut io) = mount(image(&[b"a", b"b"], &[b"AAAA", b"BBBBBB"], 4));
    let a = fs.lookup(1, b"a", &mut io).unwrap();
    let b = fs.lookup(1, b"b", &mut io).unwrap();
    assert_eq!(fs.read(a.ino, 0, 10, &mut io).unwrap(), b"AAAA".to_vec());
    assert_eq!(fs.read(b.ino, 2, 10, &mut io).unwrap(), b"BBBB".to_vec());
}
