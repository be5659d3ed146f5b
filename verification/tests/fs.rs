use nyauxkt::fs::devfs::{devfs_init, devfsdir, NullDriver};
use nyauxkt::fs::posix::{resolve_path_absolute, PosixFile, VNodeStream};
use nyauxkt::fs::tmpfs::{tmpfsdir, tmpfsfile};
use nyauxkt::fs::ustar::{oct2bin, ustarinit};
use nyauxkt::fs::vfs::{get_list, vfs, NodeKind, VNode};
use nyauxkt::fs::{UNIXERROR, VNODEFLAGS, WHENCE};

fn until_nul(b: &[u8]) -> &[u8] {
    let n = b.iter().position(|&c| c == 0).unwrap();
    &b[..n]
}

fn tmp_root() -> (vfs, usize) {
    let mut fs = vfs::default();
    let root = fs.add_node(VNode::TmpDir(tmpfsdir::default()));
    fs.vnode = Some(root);
    (fs, root)
}

#[test]
fn test() {
    assert_eq!(53, oct2bin("65"));
    assert_eq!(85901285, oct2bin("507537745"))
}

#[test]
fn path() {
    assert_eq!(["test", "hey", "yo"], *get_list("/test/hey/yo/"));

    assert_eq!(["usr", "bin", "bash"], *get_list("/usr/bin/bash"));

    let (mut new, root) = tmp_root();
    if let Ok(q) = new.create(root, "hi") {
        assert_eq!(1, 1);
        let buf = "hello world!\n".as_bytes();
        let _o = new.write(q, buf, 0, buf.len()).unwrap();
        assert_eq!(1, 1);
        let mut buf = [0u8; 256];
        new.read(q, &mut buf, 0, 256).unwrap();
        let ok = std::str::from_utf8(until_nul(&buf)).unwrap();
        assert_eq!("hello world!\n", ok);

        let tt = new.lookup(root, "hi").unwrap();
        let mut ttq = [0u8; 256];
        new.read(tt, &mut ttq, 1, 256).unwrap();
        let better = std::str::from_utf8(until_nul(&buf)).unwrap();
        assert_eq!("hello world!\n", better);
    }
}

#[test]
fn devfs_test() {
    let mut fs = vfs::default();
    let dir = fs.add_node(VNode::DevDir(devfsdir::default()));
    let x = fs.dev_create(dir, "null", Box::new(NullDriver)).unwrap();
    let mut buf = [0u8; 256];
    let j = fs.read(x, &mut buf, 0, 5);
    let oj = j.unwrap();
    assert_eq!(oj, 0);
    let ooo = fs.write(x, &buf, 0, 500);
    assert_eq!(ooo.unwrap(), 500)
}

#[test]
fn get_list_components_have_no_slashes() {
    let parts = get_list("//a//bc///d/");
    assert_eq!(parts, vec!["a", "bc", "d"]);
    for p in parts {
        assert!(!p.is_empty());
        assert!(!p.contains('/'));
    }
    assert!(get_list("").is_empty());
    assert!(get_list("///").is_empty());
}

#[test]
fn oct2bin_of_empty_and_zero() {
    assert_eq!(oct2bin(""), 0);
    assert_eq!(oct2bin("0000"), 0);
    assert_eq!(oct2bin("17"), 15);
}

#[test]
fn tmpfs_read_back_written_prefix() {
    let mut f = tmpfsfile::default();
    assert_eq!(f.write(b"abcdef", 0, 6), Ok(6));
    let mut buf = [9u8; 4];
    assert_eq!(f.read(&mut buf, 0, 4), Ok(4));
    assert_eq!(&buf, b"abcd");
}

#[test]
fn tmpfs_errors() {
    let mut f = tmpfsfile::default();
    let mut empty: [u8; 0] = [];
    assert_eq!(f.read(&mut empty, 0, 0), Err(UNIXERROR::EINVAL));
    let mut buf = [0u8; 4];
    assert_eq!(f.read(&mut buf, 0, 4), Err(UNIXERROR::EPERM));
    assert_eq!(f.write(&[], 0, 0), Err(UNIXERROR::EINVAL));
}

#[test]
fn tmpfs_read_clamps_to_length() {
    let mut f = tmpfsfile::default();
    f.write(b"hello", 0, 5).unwrap();
    let mut buf = [7u8; 8];
    assert_eq!(f.read(&mut buf, 0, 8), Ok(5));
    assert_eq!(&buf, &[b'h', b'e', b'l', b'l', b'o', 7, 7, 7]);
}

#[test]
fn vfs_lookup_errors() {
    let (mut fs, root) = tmp_root();
    assert_eq!(fs.lookup(root, "missing"), Err(UNIXERROR::EISDIR));
    let f = fs.create(root, "file").unwrap();
    assert_eq!(fs.lookup(f, "x"), Err(UNIXERROR::EISFILE));
    assert_eq!(fs.create(f, "x"), Err(UNIXERROR::EISFILE));
    assert_eq!(fs.mkdir(f, "x"), Err(UNIXERROR::EISFILE));
    let mut buf = [0u8; 4];
    assert_eq!(fs.read(root, &mut buf, 0, 4), Err(UNIXERROR::EISDIR));
    assert_eq!(fs.write(root, &buf, 0, 4), Err(UNIXERROR::EISDIR));
}

#[test]
fn vfs_mkdir_and_attributes() {
    let (mut fs, root) = tmp_root();
    let d = fs.mkdir(root, "etc").unwrap();
    assert_eq!(fs.kind_of(d), NodeKind::TmpDir);
    assert_eq!(fs.lookup(root, "etc"), Ok(d));
    let f = fs.create(d, "motd").unwrap();
    fs.write(f, b"hi", 0, 2).unwrap();
    let a = fs.get_attrib(f).unwrap();
    assert_eq!(a.size, 2);
    assert_eq!(a.TYPE, VNODEFLAGS::FILE);
    assert_eq!(fs.get_attrib(d).unwrap().TYPE, VNODEFLAGS::DIR);
}

#[test]
fn devfs_init_makes_null_device() {
    let (mut fs, root) = tmp_root();
    devfs_init(&mut fs);
    let dev = fs.lookup(root, "dev").unwrap();
    assert_eq!(fs.kind_of(dev), NodeKind::DevDir);
    let null = fs.lookup(dev, "null").unwrap();
    assert_eq!(fs.kind_of(null), NodeKind::DevFile);
    let buf = [1u8; 16];
    assert_eq!(fs.write(null, &buf, 0, 16), Ok(16));
}

#[test]
fn posix_open_seek_write() {
    let (mut fs, root) = tmp_root();
    let d = fs.mkdir(root, "tmp").unwrap();
    let f = fs.create(d, "log").unwrap();
    assert_eq!(resolve_path_absolute(&fs, "/tmp/log"), Ok(f));
    assert_eq!(resolve_path_absolute(&fs, "/tmp/nothing"), Err(UNIXERROR::EISDIR));
    assert!(PosixFile::open(&fs, "/nope").is_err());
    let mut pf = PosixFile::open(&fs, "/tmp/log").unwrap();
    assert_eq!(pf.vnode, f);
    assert_eq!(pf.flags, VNODEFLAGS::FILE);
    assert_eq!(pf.stream.offset, 0);
    assert_eq!(pf.write(&mut fs, b"data", 4), Ok(4));
    assert_eq!(pf.seek(&fs, 3, WHENCE::CURRENT), Ok(3));
    assert_eq!(pf.seek(&fs, 100, WHENCE::SET), Ok(3));
    assert_eq!(pf.seek(&fs, -1, WHENCE::END), Ok(3));
    let dirfile = PosixFile::open(&fs, "/tmp").unwrap();
    assert_eq!(dirfile.flags, VNODEFLAGS::DIR);
}

#[test]
fn stream_reads_from_its_offset() {
    let (mut fs, root) = tmp_root();
    let f = fs.create(root, "a").unwrap();
    fs.write(f, b"0123456789", 0, 10).unwrap();
    let s = VNodeStream { offset: 4, vnode: f };
    let mut buf = [0u8; 16];
    assert_eq!(s.read(&fs, &mut buf, 8), Ok(10));
    assert_eq!(&buf[..6], b"456789");
}

fn header(name: &str, size_octal: &str, typeflag: u8) -> Vec<u8> {
    let mut h = vec![0u8; 512];
    h[..name.len()].copy_from_slice(name.as_bytes());
    h[124..124 + size_octal.len()].copy_from_slice(size_octal.as_bytes());
    h[156] = typeflag;
    h
}

#[test]
fn ustar_reads_directories_and_files() {
    let mut tar = Vec::new();
    tar.extend(header("usr/", "00000000000", b'5'));
    tar.extend(header("usr/bin", "00000000000", b'0'));
    tar.extend(vec![0u8; 1024]);
    let fs = ustarinit(&tar).unwrap();
    let usr = fs.lookup(0, "usr").unwrap();
    assert_eq!(fs.kind_of(usr), NodeKind::TmpDir);
    assert!(fs.lookup(0, "usr/").is_err());
    let bin = fs.lookup(usr, "bin").unwrap();
    assert_eq!(fs.kind_of(bin), NodeKind::TmpFile);
    assert!(fs.lookup(0, "bin").is_err());
    assert_eq!(fs.vnode, Some(usr));
}

#[test]
fn ustar_rejects_name_without_components() {
    let mut tar = Vec::new();
    tar.extend(header("//", "00000000000", b'5'));
    tar.extend(vec![0u8; 1024]);
    assert!(ustarinit(&tar).is_none());
}

#[test]
fn ustar_skips_file_data() {
    let mut tar = Vec::new();
    tar.extend(header("a", "00000000005", b'0'));
    tar.extend(vec![b'x'; 512]);
    tar.extend(header("b", "00000000000", b'0'));
    tar.extend(vec![0u8; 1024]);
    let fs = ustarinit(&tar).unwrap();
    let root = fs.vnode.unwrap();
    assert!(fs.lookup(root, "a").is_ok());
    assert!(fs.lookup(root, "b").is_ok());
}

#[test]
fn ustar_short_archive_is_just_a_root() {
    let fs = ustarinit(&[0u8; 100]).unwrap();
    assert_eq!(fs.vnode, Some(0));
    assert_eq!(fs.kind_of(0), NodeKind::TmpDir);
}

#[test]
fn ustar_rejects_unterminated_name() {
    let mut h = vec![b'n'; 512];
    h[156] = b'0';
    let mut tar = h;
    tar.extend(vec![0u8; 1024]);
    assert!(ustarinit(&tar).is_none());
}

#[test]
fn ustar_rejects_bad_size() {
    let mut tar = Vec::new();
    tar.extend(header("a", "0000000009!", b'0'));
    tar.extend(vec![0u8; 1024]);
    assert!(ustarinit(&tar).is_none());
}

#[test]
fn ustar_stops_at_unknown_type() {
    let mut tar = Vec::new();
    tar.extend(header("a", "00000000000", b'0'));
    tar.extend(header("b", "00000000000", b'Z'));
    tar.extend(header("c", "00000000000", b'0'));
    tar.extend(vec![0u8; 1024]);
    let fs = ustarinit(&tar).unwrap();
    let root = fs.vnode.unwrap();
    assert!(fs.lookup(root, "a").is_ok());
    assert!(fs.lookup(root, "c").is_err());
}

#[test]
fn lookup_finds_created_and_keeps_others() {
    let (mut fs, root) = tmp_root();
    let a = fs.create(root, "a").unwrap();
    let b = fs.mkdir(root, "b").unwrap();
    assert_eq!(fs.lookup(root, "a"), Ok(a));
    assert_eq!(fs.lookup(root, "b"), Ok(b));
    let a2 = fs.create(root, "a").unwrap();
    assert_ne!(a, a2);
    assert_eq!(fs.lookup(root, "a"), Ok(a2));
    assert_eq!(fs.lookup(root, "b"), Ok(b));
}
