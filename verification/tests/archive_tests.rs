//! End-to-end tests of the in-memory archive façades.

use paks::dir::{art_ascii, to_string};
use paks::{as_bytes, Block, ErrorKind, Key, MemoryEditor, MemoryReader};

const EXAMPLE: &[u8] = b"The quick brown fox jumps over the lazy dog.\n";

#[test]
fn test_simple() {
    let ref key = [1, 2];

    // Create a new archive and finish it.
    let (blocks, _) = MemoryEditor::new().finish(key);

    // Re-open the archive for editing.
    let mut edit = MemoryEditor::from_blocks(blocks, key).expect("failed to edit");

    // Add the test file.
    edit.create_file(b"example", EXAMPLE, key);

    // Finish the archive.
    let (blocks, _) = edit.finish(key);

    // Re-open the archive for reading.
    let reader = MemoryReader::from_blocks(blocks, key).expect("failed to read");

    // Check the directory listing.
    let art = art_ascii();
    let listing = to_string(".", reader.directory().as_ref(), &art);
    assert_eq!(listing, "./\n`  example\n");

    // Check the test file.
    let desc = *reader.find_file(b"example").expect("example file not found");
    let example = reader.read_data(&desc, key).expect("failed to read example");
    assert_eq!(example, EXAMPLE);
}

#[test]
fn test_empty_archive_roundtrip() {
    // Create empty, finish, reopen: the directory is empty and the high
    // mark sits right after the header.
    let ref key = Key::default();
    let (blocks, dir) = MemoryEditor::new().finish(key);
    assert!(dir.is_empty());

    let edit = MemoryEditor::from_blocks(blocks, key).expect("reopen");
    assert!(edit.directory().is_empty());
    assert_eq!(edit.high_mark(), paks::records::HEADER_BLOCKS as u32);
}

#[test]
fn test_sub_foo_roundtrip() {
    // A 65-byte file under one directory level survives a full round
    // trip, and the reopened directory holds exactly the two
    // descriptors.
    let ref key = [13, 42];
    let data = [0xCFu8; 65];

    let mut edit = MemoryEditor::new();
    edit.create_file(b"sub/foo", &data, key).expect("create sub/foo");
    let (blocks, _) = edit.finish(key);

    let reader = MemoryReader::from_blocks(blocks, key).expect("reopen");
    let dir = reader.directory();
    assert_eq!(dir.len(), 2);
    let sub = dir.as_ref()[0];
    let foo = dir.as_ref()[1];
    assert_eq!(sub.name(), b"sub");
    assert!(sub.is_dir());
    assert_eq!(sub.content_size, 1);
    assert_eq!(foo.name(), b"foo");
    assert!(foo.is_file());
    assert_eq!(foo.content_size, 65);

    let desc = *reader.find_file(b"sub/foo").expect("find sub/foo");
    let read = reader.read_data(&desc, key).expect("read sub/foo");
    assert_eq!(read, data);
}

#[test]
fn test_link_remove_link_reads_same() {
    // Link a file elsewhere, remove the original, re-link it from the
    // removed descriptor's snapshot: both paths read identical bytes.
    let ref key = [21, 22];
    let mut edit = MemoryEditor::new();
    edit.create_file(b"a/b/example", EXAMPLE, key).expect("create");

    let src = *edit.find_file(b"a/b/example").expect("source");
    edit.directory.create_link(b"aa/bb/example", &src);
    let removed = edit.directory.remove(b"a/b/example").expect("remove original");
    edit.directory.create_link(b"a/b/example", &removed);

    let one = *edit.find_file(b"aa/bb/example").expect("linked file");
    let two = *edit.find_file(b"a/b/example").expect("relinked file");
    let bytes_one = edit.read_data(&one, key).expect("read link");
    let bytes_two = edit.read_data(&two, key).expect("read relink");
    assert_eq!(bytes_one, bytes_two);
    assert_eq!(bytes_one, EXAMPLE);
    assert_eq!(src.section.offset, one.section.offset);
}

#[test]
fn test_corrupt_bit_detected_and_recoverable() {
    // Flipping one ciphertext bit of a file's section makes reading fail
    // with an integrity error; flipping it back restores the data.
    let ref key = [31, 32];
    let mut edit = MemoryEditor::new();
    edit.create_file(b"example", EXAMPLE, key).expect("create");
    let desc = *edit.find_file(b"example").expect("find");

    let at = desc.section.offset as usize;
    edit.blocks[at][0] ^= 1 << 17;
    assert_eq!(edit.read_data(&desc, key), Err(ErrorKind::InvalidData));

    edit.blocks[at][0] ^= 1 << 17;
    assert_eq!(edit.read_data(&desc, key).expect("restored"), EXAMPLE);
}

#[test]
fn test_gc_and_fsck() {
    // Ten files, five removed, collected: the check passes against the
    // new high mark and the survivors still decrypt.
    let ref key = [41, 42];
    let mut edit = MemoryEditor::new();
    let names: [&[u8]; 10] = [
        b"f0", b"f1", b"f2", b"f3", b"f4", b"f5", b"f6", b"f7", b"f8", b"f9",
    ];
    for (i, name) in names.iter().enumerate() {
        let data = vec![i as u8; 20 + i];
        edit.create_file(name, &data, key).expect("create");
    }
    for name in names.iter().take(5) {
        edit.directory.remove(name).expect("remove");
    }
    edit.gc();

    let mut log = String::new();
    assert!(edit.directory().fsck(edit.high_mark(), &mut log), "{}", log);

    for (i, name) in names.iter().enumerate().skip(5) {
        let desc = *edit.find_file(name).expect("survivor");
        let data = edit.read_data(&desc, key).expect("read survivor");
        assert_eq!(data, vec![i as u8; 20 + i]);
    }
}

#[test]
fn test_bytes_roundtrip() {
    // The byte view of the finished archive parses back to the same
    // content.
    let ref key = [51, 52];
    let mut edit = MemoryEditor::new();
    edit.create_file(b"data.bin", EXAMPLE, key).expect("create");
    let (blocks, _) = edit.finish(key);

    let bytes = as_bytes(&blocks);
    let reader = MemoryReader::from_bytes(&bytes, key).expect("reopen from bytes");
    let desc = *reader.find_file(b"data.bin").expect("find");
    assert_eq!(reader.read_data(&desc, key).expect("read"), EXAMPLE);

    // A byte string that is not whole blocks is rejected outright.
    assert_eq!(
        MemoryReader::from_bytes(&bytes[..bytes.len() - 1], key).err(),
        Some(ErrorKind::InvalidInput)
    );
}

#[test]
fn test_trailing_garbage_tolerated() {
    // Data written past the directory, as an interrupted update would
    // leave behind, does not disturb the durable state: the old header
    // still points at the intact old directory.
    let ref key = [61, 62];
    let mut edit = MemoryEditor::new();
    edit.create_file(b"keep", EXAMPLE, key).expect("create");
    let (mut blocks, _) = edit.finish(key);

    blocks.push([0xDEAD, 0xBEEF]);
    blocks.push([1, 2]);

    let reader = MemoryReader::from_blocks(blocks, key).expect("open with trailing data");
    let desc = *reader.find_file(b"keep").expect("find");
    assert_eq!(reader.read_data(&desc, key).expect("read"), EXAMPLE);
}

#[test]
fn test_truncated_archive_rejected() {
    let ref key = [71, 72];
    let mut edit = MemoryEditor::new();
    edit.create_file(b"f", EXAMPLE, key).expect("create");
    let (blocks, _) = edit.finish(key);

    // Cutting the archive before the directory leaves the header
    // pointing past the end: opening fails.
    let truncated: Vec<Block> = blocks[..paks::records::HEADER_BLOCKS].to_vec();
    assert!(MemoryReader::from_blocks(truncated, key).is_err());

    // Fewer blocks than a header is rejected too.
    let stub: Vec<Block> = blocks[..2].to_vec();
    assert!(MemoryReader::from_blocks(stub, key).is_err());
}

#[test]
fn test_opposite_endianness_rejected() {
    // An archive whose words were assembled with the opposite byte order
    // fails to open: the version magic and MAC no longer line up.
    let ref key = [81, 82];
    let mut edit = MemoryEditor::new();
    edit.create_file(b"f", EXAMPLE, key).expect("create");
    let (blocks, _) = edit.finish(key);

    let swapped: Vec<Block> = blocks
        .iter()
        .map(|b| [b[0].swap_bytes(), b[1].swap_bytes()])
        .collect();
    assert!(MemoryReader::from_blocks(swapped, key).is_err());
}

#[test]
fn test_wrong_key_rejected() {
    let ref key = [91, 92];
    let ref wrong = [91, 93];
    let mut edit = MemoryEditor::new();
    edit.create_file(b"f", EXAMPLE, key).expect("create");
    let (blocks, _) = edit.finish(key);
    assert!(MemoryReader::from_blocks(blocks, wrong).is_err());
}

#[test]
fn test_read_data_on_directory_is_invalid_input() {
    let ref key = [101, 102];
    let mut edit = MemoryEditor::new();
    edit.create_file(b"d/f", EXAMPLE, key).expect("create");
    let dir_desc = *edit.find_desc(b"d").expect("dir descriptor");
    assert_eq!(edit.read_data(&dir_desc, key), Err(ErrorKind::InvalidInput));
}

#[test]
fn test_read_into_subrange() {
    let ref key = [111, 112];
    let mut edit = MemoryEditor::new();
    edit.create_file(b"f", EXAMPLE, key).expect("create");
    let desc = *edit.find_file(b"f").expect("find");

    let mut buf = vec![0u8; 9];
    edit.read_into(&desc, key, 4, &mut buf).expect("read into");
    assert_eq!(&buf, &EXAMPLE[4..13]);

    // A sub-range past the section plaintext is an input error.
    let mut big = vec![0u8; 4096];
    assert_eq!(
        edit.read_into(&desc, key, 0, &mut big),
        Err(ErrorKind::InvalidInput)
    );
}

#[test]
fn test_reencrypt_data() {
    let old_key: &Key = &[121, 122];
    let new_key: &Key = &[123, 124];
    let mut edit = MemoryEditor::new();
    edit.create_file(b"f", EXAMPLE, old_key).expect("create");

    let handle = edit.edit_file(b"f").expect("handle");
    handle.reencrypt_data(&mut edit, old_key, new_key);

    let desc = *edit.find_file(b"f").expect("find");
    assert_eq!(edit.read_data(&desc, new_key).expect("read"), EXAMPLE);
    assert_eq!(edit.read_data(&desc, old_key), Err(ErrorKind::InvalidData));
}

#[test]
fn test_zero_data() {
    let ref key = [131, 132];
    let mut edit = MemoryEditor::new();
    edit.create_file(b"f", EXAMPLE, key).expect("create");

    let handle = edit.edit_file(b"f").expect("handle");
    handle.zero_data(&mut edit, key);

    let desc = *edit.find_file(b"f").expect("find");
    let data = edit.read_data(&desc, key).expect("read");
    assert_eq!(data, vec![0u8; EXAMPLE.len()]);
}

#[test]
fn test_get_children() {
    let ref key = [141, 142];
    let mut edit = MemoryEditor::new();
    edit.create_file(b"top/one", b"1", key).expect("create");
    edit.create_file(b"top/two", b"2", key).expect("create");

    let children = edit.directory().get_children(b"top").expect("children");
    assert_eq!(children.len(), 2);

    let root = edit.directory().get_children(b"").expect("root");
    assert_eq!(root.len(), 3);
}
