use jcake_cloud::paths::{confine, Component, Flatten, FsPath};
use jcake_cloud::fs::{EntryKind, FsEntry, FsError, SimFs};
use jcake_cloud::stream::pipe;
use jcake_cloud::walk::{list, DirEntry};
use jcake_cloud::agent::{dispatch, Action, Outcome, Privilege};

fn name(s: &str) -> Component {
    Component::Name(s.as_bytes().to_vec())
}

fn path(parts: Vec<Component>) -> FsPath {
    FsPath { parts }
}

fn names(v: &[&str]) -> Vec<Vec<u8>> {
    v.iter().map(|s| s.as_bytes().to_vec()).collect()
}

fn entry_path(e: &DirEntry) -> &FsPath {
    match e {
        DirEntry::Dir(p) => p,
        DirEntry::File { path, .. } => path,
    }
}

#[test]
fn flatten_only_parents_collapses_to_empty() {
    let p = path(vec![Component::Parent, Component::Parent, Component::Parent]);
    assert_eq!(p.flatten().parts.len(), 0);
    let q = path(vec![Component::Root, Component::Parent, Component::Parent]);
    assert_eq!(q.flatten().parts.len(), 0);
}

#[test]
fn flatten_drops_cur_and_pops_parents() {
    let p = path(vec![name("a"), Component::Cur, name("b"), Component::Parent, name("c")]);
    assert_eq!(p.flatten().parts, vec![name("a"), name("c")]);
}

#[test]
fn confine_escaping_paths_stay_under_base() {
    let base = path(vec![Component::Root, name("srv"), name("x")]);
    let a = path(vec![Component::Root, name("a"), Component::Parent, Component::Parent, name("b")]);
    let b = path(vec![Component::Root, name("b")]);
    let ra = confine(a, &base);
    let rb = confine(b, &base);
    let expect = vec![Component::Root, name("srv"), name("x"), name("b")];
    assert_eq!(ra.parts, expect);
    assert_eq!(rb.parts, expect);
}

#[test]
fn confine_all_parents_maps_to_base_itself() {
    let base = path(vec![Component::Root, name("srv"), name("x")]);
    let p = path(vec![Component::Parent, Component::Parent, Component::Parent]);
    assert_eq!(confine(p, &base).parts, base.parts);
}

#[test]
fn pipe_copies_all_bytes_in_chunks() {
    for n in [0usize, 1, 1025, 1026, 1027, 2052, 3000] {
        let src: Vec<u8> = (0..n).map(|i| (i % 251) as u8).collect();
        let mut dst: Vec<u8> = Vec::new();
        pipe(&src, &mut dst);
        assert_eq!(dst, src);
    }
}

#[test]
fn write_then_read_round_trip_across_chunk_multiples() {
    let mut fs = SimFs::new(0);
    for (k, n) in [0usize, 1, 1025, 1026, 1027, 2052, 3000].iter().enumerate() {
        let p = names(&[&format!("f{}", k)]);
        let data: Vec<u8> = (0..*n).map(|i| (i % 249) as u8).collect();
        assert_eq!(fs.write_file(&p, &data, true, 7), Ok(()));
        assert_eq!(fs.read_file(&p), Ok(data));
    }
}

#[test]
fn write_without_create_fails_and_creates_nothing() {
    let mut fs = SimFs::new(0);
    let p = names(&["missing"]);
    let data = vec![1u8, 2, 3];
    assert_eq!(fs.write_file(&p, &data, false, 1), Err(FsError::NotFound));
    assert_eq!(fs.read_file(&p), Err(FsError::NotFound));
    assert_eq!(fs.write_file(&p, &data, true, 2), Ok(()));
    assert_eq!(fs.read_file(&p), Ok(data));
}

#[test]
fn write_keeps_longer_tail_of_existing_file() {
    let mut fs = SimFs::new(0);
    let p = names(&["f"]);
    assert_eq!(fs.write_file(&p, &vec![1, 2, 3, 4, 5], true, 1), Ok(()));
    assert_eq!(fs.write_file(&p, &vec![9, 9], false, 2), Ok(()));
    assert_eq!(fs.read_file(&p), Ok(vec![9, 9, 3, 4, 5]));
}

#[test]
fn mkdir_builds_the_chain_and_reports_conflicts() {
    let mut fs = SimFs::new(0);
    assert_eq!(fs.mkdir_all(&names(&["a", "b", "c"])), Ok(()));
    assert_eq!(fs.mkdir_all(&names(&["a", "b", "c"])), Ok(()));
    assert_eq!(fs.write_file(&names(&["a", "b", "c", "f"]), &vec![1], true, 1), Ok(()));
    assert_eq!(fs.mkdir_all(&names(&["a", "b", "c", "f"])), Err(FsError::AlreadyExists));
    assert_eq!(fs.mkdir_all(&names(&["a", "b", "c", "f", "d"])), Err(FsError::NotADirectory));
}

#[test]
fn list_depth_zero_on_nonempty_directory_is_empty() {
    let mut fs = SimFs::new(0);
    assert_eq!(fs.mkdir_all(&names(&["d"])), Ok(()));
    assert_eq!(fs.write_file(&names(&["d", "f"]), &vec![1], true, 1), Ok(()));
    let r = list(&fs, &names(&["d"]), Some(0)).unwrap();
    assert_eq!(r.len(), 0);
}

#[test]
fn list_missing_root_is_the_distinct_not_found_outcome() {
    let fs = SimFs::new(0);
    assert!(matches!(list(&fs, &names(&["nope"]), None), Err(FsError::NotFound)));
}

#[test]
fn list_file_root_is_not_a_directory() {
    let mut fs = SimFs::new(0);
    assert_eq!(fs.write_file(&names(&["f"]), &vec![1], true, 1), Ok(()));
    assert!(matches!(list(&fs, &names(&["f"]), None), Err(FsError::NotADirectory)));
}

#[test]
fn walk_is_depth_first_with_directories_before_their_children() {
    let mut fs = SimFs::new(0);
    assert_eq!(fs.mkdir_all(&names(&["d"])), Ok(()));
    assert_eq!(fs.write_file(&names(&["d", "f1"]), &vec![1], true, 1), Ok(()));
    assert_eq!(fs.mkdir_all(&names(&["d", "sub"])), Ok(()));
    assert_eq!(fs.write_file(&names(&["d", "sub", "g"]), &vec![2], true, 2), Ok(()));
    assert_eq!(fs.write_file(&names(&["z"]), &vec![3], true, 3), Ok(()));
    let r = list(&fs, &names(&[]), None).unwrap();
    let got: Vec<Vec<Component>> = r.iter().map(|e| entry_path(e).parts.clone()).collect();
    let expect = vec![
        vec![Component::Root, name("d")],
        vec![Component::Root, name("d"), name("f1")],
        vec![Component::Root, name("d"), name("sub")],
        vec![Component::Root, name("d"), name("sub"), name("g")],
        vec![Component::Root, name("z")],
    ];
    assert_eq!(got, expect);
    assert!(matches!(r[0], DirEntry::Dir(_)));
    assert!(matches!(r[1], DirEntry::File { size: 1, .. }));
}

#[test]
fn relative_to_strips_the_base_and_reroots() {
    let base = path(vec![Component::Root, name("srv"), name("x")]);
    let e = DirEntry::dir(path(vec![Component::Root, name("srv"), name("x"), name("d")]));
    let r = e.relative_to(&base).unwrap();
    assert_eq!(entry_path(&r).parts, vec![Component::Root, name("d")]);
    let outside = DirEntry::dir(path(vec![Component::Root, name("etc")]));
    assert_eq!(outside.relative_to(&base), Err(FsError::InvalidInput));
}

#[test]
fn file_records_keep_their_metadata_when_rebased() {
    let base = path(vec![Component::Root, name("srv"), name("x")]);
    let e = DirEntry::file(
        path(vec![Component::Root, name("srv"), name("x"), name("f")]),
        42,
        7,
        3,
    );
    match e.relative_to(&base).unwrap() {
        DirEntry::File { path: p, size, modified, created } => {
            assert_eq!(p.parts, vec![Component::Root, name("f")]);
            assert_eq!(size, 42);
            assert_eq!(modified, 7);
            assert_eq!(created, 3);
        }
        other => panic!("expected a file record, got {:?}", other),
    }
}

#[test]
fn remove_takes_directories_recursively_and_single_files() {
    let mut fs = SimFs::new(0);
    assert_eq!(fs.mkdir_all(&names(&["d", "sub"])), Ok(()));
    assert_eq!(fs.write_file(&names(&["d", "sub", "f"]), &vec![1], true, 1), Ok(()));
    assert_eq!(fs.write_file(&names(&["g"]), &vec![2], true, 1), Ok(()));
    assert_eq!(fs.remove_entry(&names(&["d"])), Ok(()));
    assert_eq!(fs.read_file(&names(&["d", "sub", "f"])), Err(FsError::NotFound));
    assert_eq!(fs.remove_entry(&names(&["g"])), Ok(()));
    assert_eq!(fs.remove_entry(&names(&["g"])), Err(FsError::NotFound));
}

#[test]
fn read_of_a_directory_is_an_error() {
    let mut fs = SimFs::new(0);
    assert_eq!(fs.mkdir_all(&names(&["d"])), Ok(()));
    assert_eq!(fs.read_file(&names(&["d"])), Err(FsError::IsADirectory));
}

#[test]
fn copy_reproduces_subdir_file_and_symlink() {
    let mut fs = SimFs::new(0);
    assert_eq!(fs.mkdir_all(&names(&["a"])), Ok(()));
    assert_eq!(fs.write_file(&names(&["a", "f"]), &vec![1, 2, 3], true, 1), Ok(()));
    assert_eq!(fs.mkdir_all(&names(&["a", "sub"])), Ok(()));
    fs.entries.push(FsEntry {
        path: names(&["a", "l"]),
        kind: EntryKind::Symlink { target: b"/somewhere/else".to_vec() },
    });
    assert_eq!(fs.copy_entry(&names(&["a"]), &names(&["b"]), 9), Ok(()));
    assert!(matches!(fs.kind_of_path(&names(&["b"])), Some(EntryKind::Dir { .. })));
    assert_eq!(fs.read_file(&names(&["b", "f"])), Ok(vec![1, 2, 3]));
    assert!(matches!(fs.kind_of_path(&names(&["b", "sub"])), Some(EntryKind::Dir { .. })));
    match fs.kind_of_path(&names(&["b", "l"])) {
        Some(EntryKind::Symlink { target }) => assert_eq!(target, b"/somewhere/else".to_vec()),
        other => panic!("expected a symlink, got {:?}", other),
    }
    // the source is still intact
    assert_eq!(fs.read_file(&names(&["a", "f"])), Ok(vec![1, 2, 3]));
}

#[test]
fn copy_of_missing_or_unknown_objects_is_invalid_input() {
    let mut fs = SimFs::new(0);
    assert_eq!(fs.copy_entry(&names(&["nope"]), &names(&["x"]), 1), Err(FsError::InvalidInput));
    fs.entries.push(FsEntry { path: names(&["o"]), kind: EntryKind::Other });
    assert_eq!(fs.copy_entry(&names(&["o"]), &names(&["x"]), 1), Err(FsError::InvalidInput));
}

#[test]
fn move_on_one_device_renames_the_subtree() {
    let mut fs = SimFs::new(0);
    assert_eq!(fs.mkdir_all(&names(&["d"])), Ok(()));
    assert_eq!(fs.write_file(&names(&["d", "f"]), &vec![5, 6], true, 1), Ok(()));
    assert_eq!(fs.move_entry(&names(&["d"]), &names(&["e"]), 2), Ok(()));
    assert_eq!(fs.read_file(&names(&["e", "f"])), Ok(vec![5, 6]));
    assert_eq!(fs.read_file(&names(&["d", "f"])), Err(FsError::NotFound));
}

#[test]
fn move_across_devices_copies_byte_for_byte_and_removes_the_source() {
    let mut fs = SimFs::new(0);
    fs.entries.push(FsEntry { path: names(&["m1"]), kind: EntryKind::Dir { device: 1 } });
    fs.entries.push(FsEntry { path: names(&["m2"]), kind: EntryKind::Dir { device: 2 } });
    let data: Vec<u8> = (0..3000).map(|i| (i % 241) as u8).collect();
    assert_eq!(fs.write_file(&names(&["m1", "f"]), &data, true, 1), Ok(()));
    assert_eq!(fs.move_entry(&names(&["m1", "f"]), &names(&["m2", "f"]), 2), Ok(()));
    assert_eq!(fs.read_file(&names(&["m2", "f"])), Ok(data));
    assert_eq!(fs.read_file(&names(&["m1", "f"])), Err(FsError::NotFound));
}

#[test]
fn move_of_a_directory_across_devices_reproduces_the_tree() {
    let mut fs = SimFs::new(0);
    fs.entries.push(FsEntry { path: names(&["m1"]), kind: EntryKind::Dir { device: 1 } });
    fs.entries.push(FsEntry { path: names(&["m2"]), kind: EntryKind::Dir { device: 2 } });
    assert_eq!(fs.mkdir_all(&names(&["m1", "d", "sub"])), Ok(()));
    assert_eq!(fs.write_file(&names(&["m1", "d", "f"]), &vec![7], true, 1), Ok(()));
    assert_eq!(fs.move_entry(&names(&["m1", "d"]), &names(&["m2", "d"]), 2), Ok(()));
    assert_eq!(fs.read_file(&names(&["m2", "d", "f"])), Ok(vec![7]));
    assert!(matches!(fs.kind_of_path(&names(&["m2", "d", "sub"])), Some(EntryKind::Dir { .. })));
    assert_eq!(fs.kind_of_path(&names(&["m1", "d"])), None);
}

#[test]
fn set_base_confines_every_operand() {
    let base = path(vec![Component::Root, name("srv"), name("x")]);
    let a = Action::Move {
        path: path(vec![Component::Root, name("evil"), Component::Parent, Component::Parent, name("s")]),
        to: path(vec![Component::Parent, name("t")]),
    };
    match a.set_base(&base) {
        Action::Move { path: p, to: t } => {
            assert_eq!(p.parts, vec![Component::Root, name("srv"), name("x"), name("s")]);
            assert_eq!(t.parts, vec![Component::Root, name("srv"), name("x"), name("t")]);
        }
        other => panic!("unexpected action {:?}", other),
    }
}

#[test]
fn dispatch_runs_a_confined_round_trip() {
    let mut fs = SimFs::new(0);
    let base = path(vec![Component::Root]);
    let auth = Privilege::drop_to(1000);
    assert_eq!(auth.uid(), 1000);
    let input: Vec<u8> = vec![10, 20, 30];
    let w = Action::FileWrite {
        path: path(vec![Component::Root, name("f")]),
        create: Some(true),
    };
    assert_eq!(dispatch(&mut fs, &w, &base, &input, 1, &auth), Ok(Outcome::Done));
    let r = Action::FileRead { path: path(vec![Component::Root, name("f")]) };
    match dispatch(&mut fs, &r, &base, &Vec::new(), 2, &auth) {
        Ok(Outcome::Bytes(b)) => assert_eq!(b, input),
        other => panic!("unexpected outcome {:?}", other),
    }
}

#[test]
fn dispatch_lists_relative_to_the_base() {
    let mut fs = SimFs::new(0);
    assert_eq!(fs.mkdir_all(&names(&["srv", "x", "d"])), Ok(()));
    let base = path(vec![Component::Root, name("srv"), name("x")]);
    let auth = Privilege::drop_to(7);
    let a = Action::Lsdir {
        path: path(vec![Component::Root, name("srv"), name("x")]),
        max_depth: Some(1),
    };
    match dispatch(&mut fs, &a, &base, &Vec::new(), 1, &auth) {
        Ok(Outcome::Listing(es)) => {
            assert_eq!(es.len(), 1);
            assert_eq!(entry_path(&es[0]).parts, vec![Component::Root, name("d")]);
        }
        other => panic!("unexpected outcome {:?}", other),
    }
}

#[test]
fn dispatch_metadata_verbs_are_not_implemented() {
    let mut fs = SimFs::new(0);
    let base = path(vec![Component::Root]);
    let auth = Privilege::drop_to(0);
    let m = Action::Meta { path: path(vec![Component::Root, name("f")]) };
    assert_eq!(dispatch(&mut fs, &m, &base, &Vec::new(), 1, &auth), Err(FsError::NotImplemented));
    let wm = Action::WriteMeta { path: path(vec![Component::Root, name("f")]) };
    assert_eq!(dispatch(&mut fs, &wm, &base, &Vec::new(), 1, &auth), Err(FsError::NotImplemented));
}
