use asar_core::crawl::FsEntry;
use asar_core::error::ArchiveError;
use asar_core::extract::{extract_all, list_package, ExtractAction};
use asar_core::integrity::{digest, verify_streaming};
use asar_core::locate::{find_resources_path, to_game_root, is_patched};
use asar_core::pack::{create_package_with_options, CreateOptions, PackOutput};

fn file(data: &[u8]) -> FsEntry {
    FsEntry::File { data: data.to_vec(), executable: false }
}

fn xfile(data: &[u8]) -> FsEntry {
    FsEntry::File { data: data.to_vec(), executable: true }
}

fn dir(entries: Vec<(&[u8], FsEntry)>) -> FsEntry {
    FsEntry::Dir { entries: entries.into_iter().map(|(n, e)| (n.to_vec(), e)).collect() }
}

fn opts_plain() -> CreateOptions {
    CreateOptions { unpack_dir: None, block_size: 4 * 1024 * 1024, compute_integrity: false }
}

fn pack(fs: &FsEntry, o: &CreateOptions) -> PackOutput {
    create_package_with_options(fs, o).expect("pack should succeed")
}

#[test]
fn scenario_two_files_layout() {
    // {"main.js": "console.log(1)", "lib/util.js": "x"}; entries are visited
    // in ascending name order, so lib/util.js is assigned offset 0 and
    // main.js follows it; the body is the concatenation in that order.
    let tree = dir(vec![
        (b"lib", dir(vec![(b"util.js", file(b"x"))])),
        (b"main.js", file(b"console.log(1)")),
    ]);
    let out = pack(&tree, &opts_plain());
    let body = b"xconsole.log(1)";
    assert!(out.archive.ends_with(body));
    assert!(out.unpacked.is_empty());
    let acts = extract_all(&out.archive, true).expect("extract");
    assert_eq!(acts.len(), 3);
    assert_eq!(acts[0], ExtractAction::Dir { path: b"lib".to_vec() });
    assert_eq!(
        acts[1],
        ExtractAction::FileData { path: b"lib/util.js".to_vec(), data: b"x".to_vec(), executable: false }
    );
    assert_eq!(
        acts[2],
        ExtractAction::FileData {
            path: b"main.js".to_vec(),
            data: b"console.log(1)".to_vec(),
            executable: false
        }
    );
    // The header text carries the sizes and decimal offsets.
    let header = String::from_utf8_lossy(&out.archive).to_string();
    assert!(header.contains("\"size\":1,\"offset\":\"0\""));
    assert!(header.contains("\"size\":14,\"offset\":\"1\""));
}

#[test]
fn scenario_list_order() {
    let tree = dir(vec![
        (b"a.txt", file(b"A")),
        (b"sub", dir(vec![(b"b.txt", file(b"B"))])),
    ]);
    let out = pack(&tree, &opts_plain());
    let paths = list_package(&out.archive).expect("list");
    assert_eq!(paths, vec![b"a.txt".to_vec(), b"sub".to_vec(), b"sub/b.txt".to_vec()]);
}

#[test]
fn round_trip_mixed_tree() {
    let tree = dir(vec![
        (b"bin", dir(vec![(b"run.sh", xfile(b"#!/bin/sh\necho hi\n"))])),
        (b"data.bin", file(&[0u8, 1, 2, 255, 34, 92, 10])),
        (b"empty", dir(vec![])),
        (b"link", FsEntry::Link { target: b"data.bin".to_vec() }),
    ]);
    let mut o = CreateOptions::new();
    o.block_size = 4;
    let out = pack(&tree, &o);
    let acts = extract_all(&out.archive, true).expect("extract");
    assert_eq!(
        acts,
        vec![
            ExtractAction::Dir { path: b"bin".to_vec() },
            ExtractAction::FileData {
                path: b"bin/run.sh".to_vec(),
                data: b"#!/bin/sh\necho hi\n".to_vec(),
                executable: true
            },
            ExtractAction::FileData {
                path: b"data.bin".to_vec(),
                data: vec![0u8, 1, 2, 255, 34, 92, 10],
                executable: false
            },
            // an empty directory is preserved
            ExtractAction::Dir { path: b"empty".to_vec() },
            ExtractAction::Symlink { path: b"link".to_vec(), target: b"data.bin".to_vec() },
        ]
    );
}

#[test]
fn deterministic_packing() {
    let mk = || {
        dir(vec![
            (b"a", file(b"alpha")),
            (b"b", dir(vec![(b"c", xfile(b"gamma"))])),
        ])
    };
    let o = CreateOptions::new();
    let one = pack(&mk(), &o);
    let two = pack(&mk(), &o);
    assert_eq!(one.archive, two.archive);
    assert_eq!(one.unpacked, two.unpacked);
}

#[test]
fn integrity_fault_is_localized() {
    let tree = dir(vec![
        (b"first.txt", file(b"AAAAAAAA")),
        (b"second.txt", file(b"BBBBBBBB")),
    ]);
    let o = CreateOptions::new();
    let out = pack(&tree, &o);
    // Unverified extraction of the intact archive succeeds.
    assert!(extract_all(&out.archive, true).is_ok());
    let body_start = out.archive.len() - 16;

    // Flip a byte inside first.txt's range: the failure names first.txt.
    let mut tampered = out.archive.clone();
    tampered[body_start + 2] ^= 0x01;
    match extract_all(&tampered, true) {
        Err(ArchiveError::Integrity { path }) => assert_eq!(path, b"first.txt".to_vec()),
        other => panic!("expected an integrity error, got {:?}", other),
    }
    // Without verification the tampered bytes are handed through.
    assert!(extract_all(&tampered, false).is_ok());

    // Flip a byte inside second.txt's range instead: second.txt is named,
    // first.txt still verifies.
    let mut tampered2 = out.archive.clone();
    tampered2[body_start + 10] ^= 0x01;
    match extract_all(&tampered2, true) {
        Err(ArchiveError::Integrity { path }) => assert_eq!(path, b"second.txt".to_vec()),
        other => panic!("expected an integrity error, got {:?}", other),
    }
}

#[test]
fn unpacked_passthrough() {
    let tree = dir(vec![
        (b"keep", dir(vec![(b"native.node", file(b"NATIVE"))])),
        (b"main.js", file(b"m")),
    ]);
    let mut o = opts_plain();
    o.unpack_dir = Some(b"keep".to_vec());
    let out = pack(&tree, &o);
    assert_eq!(out.unpacked, vec![(b"keep/native.node".to_vec(), b"NATIVE".to_vec())]);
    // The body holds only main.js's byte; the unpacked bytes are absent.
    assert!(out.archive.ends_with(b"m"));
    assert!(!out.archive.windows(6).any(|w| w == b"NATIVE"));
    let acts = extract_all(&out.archive, true).expect("extract");
    assert!(acts.contains(&ExtractAction::UnpackedFile {
        path: b"keep/native.node".to_vec(),
        executable: false
    }));
}

#[test]
fn malformed_archives_are_format_errors() {
    assert_eq!(extract_all(&Vec::new(), false), Err(ArchiveError::Format));
    assert_eq!(list_package(&vec![0u8; 20]), Err(ArchiveError::Format));
    let tree = dir(vec![(b"a", file(b"abc"))]);
    let out = pack(&tree, &opts_plain());
    // Truncating the body below the furthest offset+size is a format error.
    let cut = out.archive[..out.archive.len() - 1].to_vec();
    assert_eq!(extract_all(&cut, false), Err(ArchiveError::Format));
    // But listing never touches the body.
    assert!(list_package(&cut).is_ok());
}

#[test]
fn digest_known_answers() {
    let it = digest(&b"abc".to_vec(), 4 * 1024 * 1024);
    assert_eq!(
        it.hash,
        b"ba7816bf8f01cfea414140de5dae2223b00361a396177a9cb410ff61f20015ad".to_vec()
    );
    assert_eq!(it.blocks.len(), 1);
    assert_eq!(it.blocks[0], it.hash);

    let empty = digest(&Vec::new(), 16);
    assert_eq!(
        empty.hash,
        b"e3b0c44298fc1c149afbf4c8996fb92427ae41e4649b934ca495991b7852b855".to_vec()
    );
    assert_eq!(empty.blocks.len(), 0);

    // Five bytes at block size two: three blocks, the last one short.
    let five = digest(&b"ABCDE".to_vec(), 2);
    assert_eq!(five.blocks.len(), 3);
    assert_eq!(five.blocks[0], digest(&b"AB".to_vec(), 2).hash);
    assert_eq!(five.blocks[2], digest(&b"E".to_vec(), 2).hash);
    assert!(verify_streaming(&b"ABCDE".to_vec(), &five));
    assert!(!verify_streaming(&b"ABCDF".to_vec(), &five));
}

#[test]
fn patched_detection() {
    let plain = dir(vec![(b"main.js", file(b"m"))]);
    let o = CreateOptions::new();
    let out = pack(&plain, &o);
    assert_eq!(is_patched(&out.archive), Ok(false));

    let patched = dir(vec![
        (b"ghostguessr.user.js", file(b"s")),
        (b"main.js", file(b"m")),
    ]);
    let out2 = pack(&patched, &o);
    assert_eq!(is_patched(&out2.archive), Ok(true));
    assert!(is_patched(&Vec::new()).is_err());
}

#[test]
fn resources_path_choice() {
    let cands = vec![b"C:/given".to_vec(), b"C:/given/resources".to_vec(), b"".to_vec()];
    let mask = vec![false, true, true];
    assert_eq!(find_resources_path(&cands, &mask), Some(b"C:/given/resources".to_vec()));
    let none = find_resources_path(&cands, &vec![false, false, false]);
    assert_eq!(none, None);
}

#[test]
fn game_root_is_parent() {
    assert_eq!(to_game_root(&b"C:/games/app/resources".to_vec()), b"C:/games/app".to_vec());
    assert_eq!(to_game_root(&b"C:\\x\\resources".to_vec()), b"C:\\x".to_vec());
    // A bare name's parent is the empty path, like the standard parent.
    assert_eq!(to_game_root(&b"resources".to_vec()), b"".to_vec());
    assert_eq!(to_game_root(&b"resources///".to_vec()), b"".to_vec());
    // Trailing separators are ignored, like the standard parent operation.
    assert_eq!(to_game_root(&b"C:/games/app/resources/".to_vec()), b"C:/games/app".to_vec());
    assert_eq!(to_game_root(&b"a/b///".to_vec()), b"a".to_vec());
    assert_eq!(to_game_root(&b"a//b".to_vec()), b"a".to_vec());
    assert_eq!(to_game_root(&b"C:\\x\\resources\\".to_vec()), b"C:\\x".to_vec());
    // A pure separator run is a root: it has no parent and is kept.
    assert_eq!(to_game_root(&b"/".to_vec()), b"/".to_vec());
    assert_eq!(to_game_root(&b"///".to_vec()), b"///".to_vec());
    assert_eq!(to_game_root(&b"".to_vec()), b"".to_vec());
}

#[test]
fn error_description_is_nonempty() {
    assert!(!ArchiveError::Format.describe().is_empty());
    assert!(!ArchiveError::Integrity { path: b"f".to_vec() }.describe().is_empty());
}
