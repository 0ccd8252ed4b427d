//! Tests of the binary container format: header validation, entry records,
//! name resolution, and the sequential entry walk.

use nrofs::BufIo;
use nrofs::Header;
use nrofs::ParseHeaderError;
use nrofs::format::parse_header;

/// Build an archive image: header, entry table, length-prefixed names, then
/// content blocks aligned to `1 << bexp` bytes.
fn make_archive(names: &[&[u8]], contents: &[&[u8]], bexp: u8) -> Vec<u8> {
    assert_eq!(names.len(), contents.len());
    let n = names.len();
    let mut v: Vec<u8> = Vec::new();
    v.extend_from_slice(b"NrRdOnly");
    v.push(0);
    v.push(bexp);
    v.push(0);
    v.push(0);
    v.extend_from_slice(&(n as u32).to_le_bytes());

    let names_start = 16 + 12 * n;
    let mut name_offsets = Vec::new();
    let mut off = names_start;
    for nm in names {
        name_offsets.push(off);
        off += 1 + nm.len();
    }
    let bs = 1usize << bexp;
    let mut content_offsets = Vec::new();
    for c in contents {
        let aligned = (off + bs - 1) / bs * bs;
        content_offsets.push(aligned);
        off = aligned + c.len();
    }
    for i in 0..n {
        v.extend_from_slice(&(name_offsets[i] as u32).to_le_bytes());
        v.extend_from_slice(&((content_offsets[i] / bs) as u32).to_le_bytes());
        v.extend_from_slice(&(contents[i].len() as u32).to_le_bytes());
    }
    for nm in names {
        v.push(nm.len() as u8);
        v.extend_from_slice(nm);
    }
    for (i, c) in contents.iter().enumerate() {
        while v.len() < content_offsets[i] {
            v.push(0);
        }
        v.extend_from_slice(c);
    }
    v
}

#[test]
fn header_round_trip() {
    let img = make_archive(&[b"x", b"y"], &[b"one", b"two"], 3);
    let mut io = BufIo::new(img.clone());
    let h = Header::load(&mut io).unwrap();
    assert_eq!(h.block_size(), 3);
    assert_eq!(h.file_count(), 2);

    let direct: Result<(u8, u32), ParseHeaderError<()>> = parse_header(&img[..16]);
    assert_eq!(direct.unwrap(), (3, 2));
}

#[test]
fn header_bad_magic() {
    let mut img = make_archive(&[b"x"], &[b"one"], 0);
    img[0] = b'X';
    let mut io = BufIo::new(img.clone());
    assert!(matches!(Header::load(&mut io), Err(ParseHeaderError::BadMagic)));
    let direct: Result<(u8, u32), ParseHeaderError<()>> = parse_header(&img[..16]);
    assert!(matches!(direct, Err(ParseHeaderError::BadMagic)));
}

#[test]
fn header_bad_version() {
    let mut img = make_archive(&[b"x"], &[b"one"], 0);
    img[8] = 7;
    let mut io = BufIo::new(img);
    assert!(matches!(Header::load(&mut io), Err(ParseHeaderError::UnsupportedVersion)));
}

#[test]
fn header_truncated_is_io_error() {
    let mut io = BufIo::new(vec![0x4e, 0x72]);
    assert!(matches!(Header::load(&mut io), Err(ParseHeaderError::Other(_))));
}

#[test]
fn get_and_iter_agree() {
    let img = make_archive(
        &[b"alpha", b"beta", b"gamma"],
        &[b"1", b"22", b"333"],
        2,
    );
    let mut io = BufIo::new(img);
    let h = Header::load(&mut io).unwrap();
    let mut it = h.iter(&mut io).unwrap();
    for i in 0..3u32 {
        let direct = h.get(i, &mut io).unwrap().unwrap();
        let walked = it.next(&mut io).unwrap().unwrap();
        assert_eq!(direct, walked);
    }
    assert!(it.next(&mut io).is_none());
}

#[test]
fn get_past_count_is_none() {
    let img = make_archive(&[b"x"], &[b"one"], 0);
    let mut io = BufIo::new(img);
    let h = Header::load(&mut io).unwrap();
    assert!(h.get(1, &mut io).is_none());
    assert!(h.get(u32::MAX, &mut io).is_none());
}

#[test]
fn iter_nth_skips_without_reading() {
    let img = make_archive(&[b"a", b"b", b"c", b"d"], &[b"1", b"2", b"3", b"4"], 0);
    let mut io = BufIo::new(img);
    let h = Header::load(&mut io).unwrap();
    let mut it = h.iter(&mut io).unwrap();
    assert_eq!(it.len(), 4);
    assert_eq!(it.size_hint(), (4, Some(4)));
    let e = it.nth(2, &mut io).unwrap().unwrap();
    let direct = h.get(2, &mut io).unwrap().unwrap();
    assert_eq!(e, direct);
    assert_eq!(it.len(), 1);
    let last = it.next(&mut io).unwrap().unwrap();
    assert_eq!(last, h.get(3, &mut io).unwrap().unwrap());
    assert_eq!(it.len(), 0);
    assert_eq!(it.count(), 0);
}

#[test]
fn entry_names_resolve() {
    let img = make_archive(&[b"dir/file.txt", b"other"], &[b"aa", b"bb"], 0);
    let mut io = BufIo::new(img);
    let h = Header::load(&mut io).unwrap();
    let e0 = h.get(0, &mut io).unwrap().unwrap();
    let e1 = h.get(1, &mut io).unwrap().unwrap();
    assert_eq!(e0.name(&mut io).unwrap(), b"dir/file.txt".to_vec());
    assert_eq!(e1.name(&mut io).unwrap(), b"other".to_vec());
}

#[test]
fn entry_offset_scales_by_block_size() {
    let img = make_archive(&[b"x"], &[b"payload"], 4);
    let mut io = BufIo::new(img);
    let h = Header::load(&mut io).unwrap();
    let e = h.get(0, &mut io).unwrap().unwrap();
    assert_eq!(e.offset(&h), (e.block() as u64) << 4);
    assert_eq!(e.size(), 7);
}
