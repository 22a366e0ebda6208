use vdfs::archive::{VDFSCatalogEntry, VDFSHeader, Vdfs};
use vdfs::bytes::read_le32;
use vdfs::filetree::{sort_and_mark_children, FileSystemNode};
use vdfs::linearize::check_build_input;

const DIR_BIT: u32 = 0x8000_0000;
const LAST_BIT: u32 = 0x4000_0000;

fn file_node(name: &str, data: &[u8]) -> FileSystemNode {
    FileSystemNode::File {
        name: name.as_bytes().to_vec(),
        data: data.to_vec(),
        level: 0,
        is_last: false,
    }
}

fn dir_node(name: &str, mut children: Vec<FileSystemNode>) -> FileSystemNode {
    sort_and_mark_children(&mut children);
    FileSystemNode::Directory {
        name: name.as_bytes().to_vec(),
        children,
        level: -1,
        is_last: false,
    }
}

fn padded(name: &str) -> Vec<u8> {
    let mut v = name.to_uppercase().into_bytes();
    while v.len() < 64 {
        v.push(0x20);
    }
    v
}

#[test]
fn two_files_flat_root() {
    let root = dir_node("root", vec![file_node("a.txt", b"abc"), file_node("b.txt", b"hello")]);
    assert!(check_build_input(&root));
    let v = Vdfs::from_dir(root);
    assert_eq!(v.catalog_dirs.len(), 2);
    assert_eq!(v.header.num_files, 2);
    assert_eq!(v.header.num_entries, 2);
    assert_eq!(v.header.size, 8);
    assert_eq!(v.header.catalog_offset, 296);
    let first = &v.catalog_dirs[0];
    let second = &v.catalog_dirs[1];
    assert_eq!(first.name, padded("a.txt"));
    assert_eq!(second.name, padded("b.txt"));
    assert_eq!(first.typ, 0);
    assert_eq!(second.typ, LAST_BIT);
    assert_eq!(first.size, 3);
    assert_eq!(second.size, 5);
    assert_eq!(first.next_index, 296 + 2 * 80);
    assert_eq!(second.next_index, first.next_index + 3);
    assert_eq!(v.data, b"abchello".to_vec());
}

#[test]
fn empty_root_directory() {
    let root = dir_node("root", vec![]);
    assert!(check_build_input(&root));
    let v = Vdfs::from_dir(root);
    assert_eq!(v.catalog_dirs.len(), 0);
    assert_eq!(v.header.num_files, 0);
    assert_eq!(v.header.num_entries, 0);
    assert_eq!(v.header.size, 0);
    let bytes = v.to_bytes();
    assert_eq!(bytes.len(), 296);
    assert_eq!(&bytes[256..272], b"PSVDSC_V2.00\n\r\n\r");
    assert_eq!(read_le32(&bytes, 288), 296);
    assert_eq!(read_le32(&bytes, 292), 80);
}

#[test]
fn nested_directory_forward_reference() {
    let root = dir_node("root", vec![dir_node("sub", vec![file_node("leaf.bin", b"\x01\x02\x03\x04")])]);
    let v = Vdfs::from_dir(root);
    assert_eq!(v.catalog_dirs.len(), 2);
    let sub = &v.catalog_dirs[0];
    let leaf = &v.catalog_dirs[1];
    assert_eq!(sub.name, padded("sub"));
    assert_eq!(sub.typ, DIR_BIT | LAST_BIT);
    // the directory's forward reference is the flat index of its first child
    assert_eq!(sub.next_index, 1);
    assert_eq!(sub.size, 0);
    // the file's forward reference is a byte offset into the output file
    assert_eq!(leaf.next_index, 296 + 2 * 80);
    assert_eq!(leaf.size, 4);
    assert_eq!(v.header.num_files, 2);
    assert_eq!(v.header.num_entries, 1);
    assert_eq!(v.header.size, 4);
    assert_eq!(v.data, vec![1, 2, 3, 4]);
}

#[test]
fn sibling_order_dirs_before_files_case_insensitive() {
    let root = dir_node(
        "root",
        vec![
            file_node("zeta.txt", b"z"),
            file_node("Alpha.txt", b"a"),
            dir_node("omega", vec![]),
            dir_node("Beta", vec![]),
        ],
    );
    let v = Vdfs::from_dir(root);
    assert_eq!(v.catalog_dirs.len(), 4);
    assert_eq!(v.catalog_dirs[0].name, padded("Beta"));
    assert_eq!(v.catalog_dirs[1].name, padded("omega"));
    assert_eq!(v.catalog_dirs[2].name, padded("Alpha.txt"));
    assert_eq!(v.catalog_dirs[3].name, padded("zeta.txt"));
    // exactly the final sibling carries the last flag
    assert_eq!(v.catalog_dirs[0].typ, DIR_BIT);
    assert_eq!(v.catalog_dirs[1].typ, DIR_BIT);
    assert_eq!(v.catalog_dirs[2].typ, 0);
    assert_eq!(v.catalog_dirs[3].typ, LAST_BIT);
}

#[test]
fn empty_directory_keeps_zero_forward_reference() {
    let root = dir_node("root", vec![dir_node("hollow", vec![]), file_node("a.bin", b"xy")]);
    let v = Vdfs::from_dir(root);
    // no record has the empty directory as parent, so its reference stays 0
    assert_eq!(v.catalog_dirs[0].name, padded("hollow"));
    assert_eq!(v.catalog_dirs[0].next_index, 0);
}

#[test]
fn header_sums_plain_file_sizes() {
    let root = dir_node(
        "root",
        vec![
            dir_node("d", vec![file_node("inner.txt", b"12345678")]),
            file_node("outer.txt", b"123"),
        ],
    );
    let v = Vdfs::from_dir(root);
    let mut total: u32 = 0;
    let mut plain: u32 = 0;
    for e in &v.catalog_dirs {
        total += e.size;
        if e.typ & DIR_BIT == 0 {
            plain += 1;
        }
    }
    assert_eq!(v.header.size, total);
    assert_eq!(v.header.num_entries, plain);
    assert_eq!(v.header.num_files, v.catalog_dirs.len() as u32);
}

#[test]
fn file_offsets_are_monotone() {
    let root = dir_node(
        "root",
        vec![
            file_node("a", b"aa"),
            dir_node("d", vec![file_node("c", b"cccc")]),
            file_node("b", b"bbb"),
        ],
    );
    let v = Vdfs::from_dir(root);
    let mut last: Option<(u32, u32)> = None;
    for e in &v.catalog_dirs {
        if e.typ & DIR_BIT == 0 {
            if let Some((off, sz)) = last {
                assert!(e.next_index >= off + sz);
                assert_eq!(e.next_index, off + sz);
            }
            last = Some((e.next_index, e.size));
        }
    }
    assert!(last.is_some());
}

#[test]
fn serialized_layout_is_exact() {
    let root = dir_node("root", vec![file_node("f", b"DATA")]);
    let v = Vdfs::from_dir(root);
    let bytes = v.to_bytes();
    assert_eq!(bytes.len(), 296 + 80 + 4);
    // header: comment fill, signature, six little-endian fields
    assert!(bytes[..256].iter().all(|b| *b == 0x1a));
    assert_eq!(&bytes[256..272], b"PSVDSC_V2.00\n\r\n\r");
    assert_eq!(read_le32(&bytes, 272), 1); // num_files
    assert_eq!(read_le32(&bytes, 276), 1); // num_entries
    assert_eq!(read_le32(&bytes, 284), 4); // size
    assert_eq!(read_le32(&bytes, 288), 296); // catalog_offset
    assert_eq!(read_le32(&bytes, 292), 80); // version
    // one catalog record
    assert_eq!(&bytes[296..360], padded("f").as_slice());
    assert_eq!(read_le32(&bytes, 360), 296 + 80); // next_index: data offset
    assert_eq!(read_le32(&bytes, 364), 4); // size
    assert_eq!(read_le32(&bytes, 368), LAST_BIT); // type flags
    assert_eq!(read_le32(&bytes, 372), 0); // attributes
    // data segment
    assert_eq!(&bytes[376..], b"DATA");
}

#[test]
fn header_constants_survive_any_tree() {
    let flat = dir_node("r", vec![file_node("x", b"1")]);
    let deep = dir_node("r", vec![dir_node("a", vec![dir_node("b", vec![file_node("c", b"22")])])]);
    for root in [flat, deep] {
        let bytes = Vdfs::from_dir(root).to_bytes();
        assert_eq!(&bytes[256..272], b"PSVDSC_V2.00\n\r\n\r");
        assert_eq!(read_le32(&bytes, 288), 296);
        assert_eq!(read_le32(&bytes, 292), 80);
    }
}

#[test]
fn add_comment_overwrites_prefix() {
    let root = dir_node("root", vec![]);
    let v = Vdfs::from_dir(root);
    let comment = b"packed by hand".to_vec();
    let v = v.add_comment(Some(&comment));
    assert_eq!(&v.header.comment[..14], b"packed by hand");
    assert!(v.header.comment[14..].iter().all(|b| *b == 0x1a));
    let w = Vdfs::from_dir(dir_node("root", vec![])).add_comment(None);
    assert!(w.header.comment.iter().all(|b| *b == 0x1a));
}

#[test]
fn header_default_fields() {
    let h = VDFSHeader::default();
    assert_eq!(h.comment, vec![0x1a; 256]);
    assert_eq!(h.signature, b"PSVDSC_V2.00\n\r\n\r".to_vec());
    assert_eq!(h.num_files, 0);
    assert_eq!(h.num_entries, 0);
    assert_eq!(h.size, 0);
    assert_eq!(h.catalog_offset, 0);
    assert_eq!(h.version, 80);
}

#[test]
fn catalog_entry_constructors() {
    let e = VDFSCatalogEntry::new(&b"mixedCase".to_vec());
    assert_eq!(e.name, padded("mixedCase"));
    assert_eq!(e.size, 0);
    assert_eq!(e.typ, 0);
    let s = VDFSCatalogEntry::new_sized(&b"f".to_vec(), 7);
    assert_eq!(s.size, 7);
    assert_eq!(s.name, padded("f"));
    let d = VDFSCatalogEntry::default();
    assert_eq!(d.name, vec![0x20; 64]);
    assert_eq!(d.next_index, 0);
}

#[test]
fn find_index_scans_for_parent() {
    let root = dir_node(
        "root",
        vec![dir_node("sub", vec![file_node("one", b"1"), file_node("two", b"2")])],
    );
    let v = Vdfs::from_dir(root);
    // records 1 and 2 are the children of record 0
    assert_eq!(v.catalog_dirs[1].parent_id, 0);
    assert_eq!(v.catalog_dirs[2].parent_id, 0);
    assert_eq!(v.find_index(0), 1);
    // nothing has parent 7; the scan reports 0
    assert_eq!(v.find_index(7), 0);
}

#[test]
fn check_build_input_rejects_long_names() {
    let ok = dir_node("root", vec![file_node("fine", b"x")]);
    assert!(check_build_input(&ok));
    let long = "n".repeat(65);
    let bad = dir_node("root", vec![file_node(&long, b"x")]);
    assert!(!check_build_input(&bad));
}

#[test]
fn bare_file_root_is_one_record() {
    let root = file_node("single.bin", b"abc");
    assert!(check_build_input(&root));
    let v = Vdfs::from_dir(root);
    assert_eq!(v.catalog_dirs.len(), 1);
    assert_eq!(v.catalog_dirs[0].name, padded("single.bin"));
    assert_eq!(v.catalog_dirs[0].parent_id, -1);
    assert_eq!(v.header.num_files, 1);
    assert_eq!(v.header.size, 3);
}

#[test]
fn dos_time_packs_fields() {
    let t = vdfs::archive::dos_time_from_parts(2024, 5, 17, 12, 30, 46);
    let expected = ((2024 - 1980) << 25) | (5 << 21) | (17 << 16) | (12 << 11) | (30 << 5) | 23;
    assert_eq!(t, expected);
    // years before the epoch collapse to a zero year field
    let old = vdfs::archive::dos_time_from_parts(1970, 1, 1, 0, 0, 0);
    assert_eq!(old, (1 << 21) | (1 << 16));
}
