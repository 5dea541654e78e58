//! Tests of the flat directory: matching, lookup, creation, removal,
//! consistency checking and rendering.

use paks::dir::{art_ascii, create, find, find_desc, fsck, name_eq, next_sibling, to_string};
use paks::{Descriptor, Directory, Section};

#[test]
fn test_find_empty() {
    assert_eq!(find(&[], b"path"), &[] as &[Descriptor]);
}

#[test]
fn test_find_desc01() {
    let mut dir = Vec::new();
    create(&mut dir, b"A/B/C");

    let result1 = find_desc(&dir, b"A/B/C");
    let result2 = find_desc(&dir, b"A/B/D");

    assert_eq!(result1.unwrap().name(), b"C");
    assert!(result2.is_none());
}

#[test]
fn test_find() {
    let dir = [
        Descriptor::file(b"before"),
        Descriptor::dir(b"a", 3),
        Descriptor::dir(b"b", 2),
        Descriptor::dir(b"c", 1),
        Descriptor::file(b"file"),
    ];

    assert_eq!(find(&dir, b"before"), &dir[0..1]);
    assert_eq!(find(&dir, b"a"), &dir[1..]);

    assert_eq!(find(&dir[2..], b"b"), &dir[2..]);

    assert_eq!(find(&dir, "file".as_ref()).len(), 0);
    assert_eq!(find(&dir[4..], b"file"), &dir[4..]);

    assert_eq!(find_desc(&dir, b"a\\b\\c\\file"), Some(&dir[4]));
}

#[test]
fn test_create_simple() {
    let path = b"stuff.txt";

    let mut dir = Vec::new();
    create(&mut dir, path);

    assert_eq!(dir.len(), 1);
    let file = &dir[0];

    assert_eq!(file.content_type, 0);
    assert_eq!(file.content_size, 0);
    assert_eq!(file.section, Section::default());
    assert_eq!(file.name(), path);
}

#[test]
fn test_create_simple_dirs() {
    let path1 = b"A/FOO";
    let path2 = b"A/BAR";

    let mut dir = Vec::new();
    create(&mut dir, path1);
    create(&mut dir, path2);

    let result = [
        Descriptor::dir(b"A", 2),
        Descriptor::dir(b"FOO", 0),
        Descriptor::dir(b"BAR", 0),
    ];
    assert_eq!(dir, result);
}

#[test]
fn test_create_remove_create_links() {
    let mut directory = Directory::from(vec![
        Descriptor::dir(b"a", 2),
        Descriptor::dir(b"b", 1),
        Descriptor::file(b"example"),
    ]);

    let example1 = directory.as_ref()[2];
    directory.create_link(b"aa/bb/example", &example1);
    let example2 = directory.remove(b"a/b/example").unwrap();
    directory.create_link(b"a/b/example", &example2);

    println!("{:?}", directory);
}

#[test]
fn test_create_existing_path_returns_it() {
    let mut dir = Vec::new();
    let first = create(&mut dir, b"x/y").unwrap();
    let len = dir.len();
    let second = create(&mut dir, b"x/y").unwrap();
    assert_eq!(first, second);
    assert_eq!(dir.len(), len);
}

#[test]
fn test_remove_missing_is_noop() {
    let mut dir = Vec::new();
    create(&mut dir, b"a/b");
    create(&mut dir, b"a/c");
    let snapshot = dir.clone();

    assert!(paks::dir::remove(&mut dir, b"a/zzz").is_none());
    assert_eq!(dir, snapshot);

    // Removing twice: the second removal finds nothing and is a no-op.
    assert!(paks::dir::remove(&mut dir, b"a/b").is_some());
    let after = dir.clone();
    assert!(paks::dir::remove(&mut dir, b"a/b").is_none());
    assert_eq!(dir, after);
}

#[test]
fn test_remove_dir_flattens_children() {
    let mut dir = vec![
        Descriptor::dir(b"a", 2),
        Descriptor::file(b"x"),
        Descriptor::file(b"y"),
    ];
    let removed = paks::dir::remove(&mut dir, b"a").unwrap();
    assert_eq!(removed.name(), b"a");
    assert_eq!(dir.len(), 2);
    assert_eq!(dir[0].name(), b"x");
    assert_eq!(dir[1].name(), b"y");
}

#[test]
fn test_name_eq_examples() {
    let mut desc = Descriptor::default();
    desc.name.set(b"test");

    assert_eq!(name_eq(&desc, b"test"), Some(&b""[..]));
    assert_eq!(name_eq(&desc, b"test/a/b"), Some(&b"a/b"[..]));
    assert_eq!(name_eq(&desc, b"testing"), None);
    assert_eq!(name_eq(&desc, b"te"), None);
}

#[test]
fn test_next_sibling_walk() {
    let dir = [
        Descriptor::dir(b"Foo", 2),
        Descriptor::file(b"Bar"),
        Descriptor::file(b"Baz"),
        Descriptor::dir(b"Sub", 1),
        Descriptor::dir(b"Dir", 0),
        Descriptor::file(b"File"),
    ];
    let expected = [0usize, 3, 5];
    let mut seen = Vec::new();
    let mut i = 0;
    let end = dir.len();
    while i < end {
        let desc = &dir[i];
        seen.push(i);
        i = next_sibling(desc, i, end);
    }
    assert_eq!(seen, expected);
}

#[test]
fn test_to_string_listing() {
    let dir = [
        Descriptor::dir(b"Foo", 2),
        Descriptor::file(b"Bar"),
        Descriptor::file(b"Baz"),
        Descriptor::dir(b"Sub", 1),
        Descriptor::dir(b"Dir", 0),
        Descriptor::file(b"File"),
    ];

    let expected = "./\n+- Foo/\n|  |  Bar\n|  `  Baz\n|  \n+- Sub/\n|  `- Dir/\n|  \n`  File\n";

    let art = art_ascii();
    let result = to_string(".", &dir, &art);
    assert_eq!(expected, result);
}

#[test]
fn test_separators_interchangeable() {
    let mut dir = Vec::new();
    create(&mut dir, b"a/b/c/file");

    let with_slash = *find_desc(&dir, b"a/b/c/file").unwrap();
    let with_backslash = *find_desc(&dir, b"a\\b\\c\\file").unwrap();
    assert_eq!(with_slash, with_backslash);
    assert_eq!(with_slash.name(), b"file");
}

#[test]
fn test_fsck_clean_and_corrupt() {
    let mut dir = vec![
        Descriptor::dir(b"a", 1),
        Descriptor::file(b"f"),
    ];
    dir[1].content_size = 16;
    dir[1].section.offset = 5;
    dir[1].section.size = 1;

    let mut log = String::new();
    assert!(fsck(&dir, 6, &mut log));
    assert!(log.is_empty());

    // A directory claiming more children than the window holds is
    // irrecoverable.
    dir[0].content_size = 9;
    let mut log = String::new();
    assert!(!fsck(&dir, 6, &mut log));
    assert!(log.contains("too many children"));

    // A file section overlapping the header is an error.
    dir[0].content_size = 1;
    dir[1].section.offset = 1;
    let mut log = String::new();
    assert!(!fsck(&dir, 6, &mut log));
    assert!(log.contains("overlaps the header"));
}

#[test]
fn test_fsck_bad_name_length() {
    let mut dir = vec![Descriptor::file(b"f")];
    dir[0].section.offset = 5;
    dir[0].name.buffer[39] = 40;
    let mut log = String::new();
    assert!(!fsck(&dir, 6, &mut log));
    assert!(log.contains("invalid name length"));
}

#[test]
fn test_directory_roundtrip_lookup() {
    // Building a directory by creates and looking every path up again
    // finds each created descriptor.
    let paths: [&[u8]; 5] = [b"a/one", b"a/two", b"b/c/deep", b"top", b"a/sub/leaf"];
    let mut dir = Vec::new();
    let mut created = Vec::new();
    for p in paths.iter() {
        let idx = create(&mut dir, p).unwrap();
        created.push((p, dir[idx].name().to_vec()));
    }
    for (p, name) in created.iter() {
        let found = find_desc(&dir, p).expect("created path must be found");
        assert_eq!(&found.name().to_vec(), name);
    }
}

#[test]
fn test_move_file() {
    let mut directory = Directory::from(vec![
        Descriptor::dir(b"a", 1),
        Descriptor::file(b"f"),
    ]);
    assert!(directory.move_file(b"a/f", b"b/g"));
    assert!(directory.find_file(b"a/f").is_none());
    let moved = directory.find_file(b"b/g").expect("moved file");
    assert_eq!(moved.name(), b"g");

    // Directories cannot be moved.
    assert!(!directory.move_file(b"a", b"c"));
}

#[test]
fn test_subtree_counts_stay_consistent() {
    // Every directory descriptor owns exactly its content_size
    // descendants, through a series of creations and removals.
    let mut dir = Vec::new();
    assert!(paks::dir::wf_check(&dir));
    for p in [
        &b"a/b/c"[..],
        &b"a/b/d"[..],
        &b"a/e"[..],
        &b"f"[..],
        &b"a/b/c/deep/leaf"[..],
    ] {
        create(&mut dir, p);
        assert!(paks::dir::wf_check(&dir));
    }
    for p in [&b"a/b/d"[..], &b"a/b"[..], &b"zzz"[..], &b"f"[..]] {
        paks::dir::remove(&mut dir, p);
        assert!(paks::dir::wf_check(&dir));
    }
}

#[test]
fn test_create_sibling_dir_on_file_collision() {
    // A file blocking a path component gets a sibling directory of the
    // same name, created right before it.
    let mut dir = vec![Descriptor::file(b"a")];
    let idx = create(&mut dir, b"a/x").unwrap();

    assert_eq!(dir.len(), 3);
    assert!(dir[0].is_dir());
    assert_eq!(dir[0].name(), b"a");
    assert_eq!(dir[0].content_size, 1);
    assert_eq!(dir[idx].name(), b"x");
    assert!(dir[2].is_file());
    assert_eq!(dir[2].name(), b"a");
    assert!(paks::dir::wf_check(&dir));

    let found = find_desc(&dir, b"a/x").expect("created path found");
    assert_eq!(found.name(), b"x");
}
