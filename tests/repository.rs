use gilltter::builder::{build_tree, dump_tree_recursive, split_path};
use gilltter::commands::add::add;
use gilltter::commands::commit::commit;
use gilltter::commands::reset::{reset_step, ResetStep};
use gilltter::commands::status::{classify_file, compute_status, FileStatus, StatusEntry};
use gilltter::commands::traverse::{join_path, traverse_head_tree};
use gilltter::config::Config;
use gilltter::error::VcsError;
use gilltter::hash::generate_hash;
use gilltter::index::index::{Index, IndexEntry, IndexType};
use gilltter::objects::blob::Blob;
use gilltter::objects::commit::Commit;
use gilltter::objects::tree::{Tree, TreeObject};
use gilltter::objects::{ObjectDump, ObjectPump};
use gilltter::store::StoredObject;

fn config() -> Config {
    Config::parse("[General]\nUsername=alice\nEmail=alice@example.org\n".to_string())
}

fn blob_hash(content: &[u8]) -> String {
    let mut b = Blob::new();
    b.set_data(content);
    generate_hash(&b.convert_to_bytes().unwrap())
}

fn status_of(entries: &[StatusEntry], path: &str) -> Vec<FileStatus> {
    entries.iter().filter(|e| e.path == path).map(|e| e.status).collect()
}

/// Expands the tree named `hash` among `objects` into (path, blob hash) pairs.
fn expand(objects: &[StoredObject], hash: &str) -> Vec<(String, String)> {
    let mut files = Vec::new();
    let mut pending = vec![(String::new(), hash.to_string())];
    while let Some((path, h)) = pending.pop() {
        let obj = objects.iter().find(|o| o.name == h).expect("tree object present");
        let tree = Tree::from_raw_data(&obj.data).unwrap();
        traverse_head_tree(&mut files, &mut pending, &path, &tree).unwrap();
    }
    files
}

fn head_tree_hash(objects: &[StoredObject], commit_hash: &str) -> String {
    let obj = objects.iter().find(|o| o.name == commit_hash).unwrap();
    Commit::from_raw_data(&obj.data).unwrap().get_tree_sha().unwrap()
}

#[test]
fn scenario_untracked_in_empty_repository() {
    let index = Index::new();
    let work = vec![("a.txt".to_string(), blob_hash(b"A"))];
    let st = compute_status(&work, &index, &Vec::new());
    assert_eq!(st.len(), 1);
    assert_eq!(status_of(&st, "a.txt"), vec![FileStatus::Untracked]);
}

#[test]
fn scenario_staged_after_add() {
    let mut index = Index::new();
    add(&mut index, "a.txt".to_string(), b"A", 1, 1, 1, false).unwrap();
    let work = vec![("a.txt".to_string(), blob_hash(b"A"))];
    let st = compute_status(&work, &index, &Vec::new());
    assert_eq!(status_of(&st, "a.txt"), vec![FileStatus::Staged]);
}

#[test]
fn scenario_modified_then_restaged() {
    let mut index = Index::new();
    let mut store: Vec<StoredObject> = Vec::new();
    store.push(add(&mut index, "a.txt".to_string(), b"A", 1, 1, 1, false).unwrap());
    let out = commit(&index, "msg".to_string(), "", &config(), 100).unwrap();
    let head = out.commit_hash.clone();
    store.extend(out.objects);
    let head_files = expand(&store, &head_tree_hash(&store, &head));
    assert_eq!(head_files, vec![("a.txt".to_string(), blob_hash(b"A"))]);

    let work = vec![("a.txt".to_string(), blob_hash(b"A2"))];
    let st = compute_status(&work, &index, &head_files);
    assert_eq!(status_of(&st, "a.txt"), vec![FileStatus::Unstaged]);

    add(&mut index, "a.txt".to_string(), b"A2", 2, 2, 2, false).unwrap();
    let st = compute_status(&work, &index, &head_files);
    assert_eq!(status_of(&st, "a.txt"), vec![FileStatus::Staged]);

    let work_same = vec![("a.txt".to_string(), blob_hash(b"A"))];
    let mut index2 = Index::new();
    add(&mut index2, "a.txt".to_string(), b"A", 1, 1, 1, false).unwrap();
    let st = compute_status(&work_same, &index2, &head_files);
    assert_eq!(status_of(&st, "a.txt"), vec![FileStatus::Committed]);
}

#[test]
fn scenario_two_level_path_and_revert() {
    let mut index = Index::new();
    let mut store: Vec<StoredObject> = Vec::new();
    store.push(add(&mut index, "src/lib.txt".to_string(), b"library", 1, 1, 7, false).unwrap());
    let tree = build_tree(&index).unwrap();
    match tree.get_object("src") {
        Some(TreeObject::Tree(sub)) => match sub.get_object("lib.txt") {
            Some(TreeObject::Blob(h)) => assert_eq!(*h, blob_hash(b"library")),
            _ => panic!("expected lib.txt as a blob"),
        },
        _ => panic!("expected src as a tree"),
    }
    let out = commit(&index, "two levels".to_string(), "", &config(), 5).unwrap();
    let head = out.commit_hash.clone();
    store.extend(out.objects);
    let files = expand(&store, &head_tree_hash(&store, &head));
    assert_eq!(files.len(), 1);
    assert_eq!(files[0].0, "src/lib.txt");
    let blob_obj = store.iter().find(|o| o.name == files[0].1).unwrap();
    let blob = Blob::from_stored(&blob_obj.data).unwrap();
    assert_eq!(blob.get_data(), b"library".to_vec());
}

#[test]
fn scenario_commit_with_empty_index() {
    let index = Index::new();
    let head = "f".repeat(40);
    let r = commit(&index, "nothing".to_string(), &head, &config(), 1);
    assert!(matches!(r, Err(VcsError::EmptyIndexError)));
    assert_eq!(head, "f".repeat(40));
}

fn walk(store: &[StoredObject], head: &str, n: u64) -> Result<String, VcsError> {
    let mut hash = head.to_string();
    let mut remaining = n;
    loop {
        let obj = store.iter().find(|o| o.name == hash).ok_or(VcsError::NotFound)?;
        let c = Commit::from_raw_data(&obj.data)?;
        match reset_step(remaining, &hash, &c) {
            ResetStep::Reached(h) => return Ok(h),
            ResetStep::Follow(p, r) => {
                hash = p;
                remaining = r;
            }
            ResetStep::HistoryTooShort => return Err(VcsError::HistoryTooShort),
        }
    }
}

#[test]
fn scenario_reset_past_the_root() {
    let mut index = Index::new();
    let mut store: Vec<StoredObject> = Vec::new();
    store.push(add(&mut index, "a.txt".to_string(), b"1", 1, 1, 1, false).unwrap());
    let first = commit(&index, "one".to_string(), "", &config(), 1).unwrap();
    let h1 = first.commit_hash.clone();
    store.extend(first.objects);
    store.push(add(&mut index, "a.txt".to_string(), b"2", 2, 2, 1, false).unwrap());
    let second = commit(&index, "two".to_string(), &h1, &config(), 2).unwrap();
    let h2 = second.commit_hash.clone();
    store.extend(second.objects);

    let head = h2.clone();
    assert!(matches!(walk(&store, &head, 5), Err(VcsError::HistoryTooShort)));
    assert_eq!(head, h2);
    assert_eq!(walk(&store, &head, 1).unwrap(), h1);
    assert_eq!(walk(&store, &head, 0).unwrap(), h2);
}

#[test]
fn idempotent_add() {
    let mut index = Index::new();
    add(&mut index, "a.txt".to_string(), b"same", 1, 1, 4, false).unwrap();
    add(&mut index, "a.txt".to_string(), b"same", 1, 1, 4, false).unwrap();
    assert_eq!(index.indices.len(), 1);
    assert_eq!(index.indices[0].sha1_hash, blob_hash(b"same"));
}

#[test]
fn tree_determinism_over_insertion_order() {
    let paths: [(&str, &[u8]); 4] = [("b.txt", b"b"), ("src/x.txt", b"x"), ("a.txt", b"a"), ("src/deep/y.txt", b"y")];
    let mut i1 = Index::new();
    for (p, c) in paths.iter() {
        add(&mut i1, p.to_string(), c, 0, 0, 1, false).unwrap();
    }
    let mut i2 = Index::new();
    for (p, c) in paths.iter().rev() {
        add(&mut i2, p.to_string(), c, 0, 0, 1, false).unwrap();
    }
    let t1 = build_tree(&i1).unwrap();
    let t2 = build_tree(&i2).unwrap();
    let d1 = dump_tree_recursive(&t1).unwrap();
    let d2 = dump_tree_recursive(&t2).unwrap();
    assert_eq!(d1[0].name, d2[0].name);
    assert_eq!(d1.len(), 3);
}

#[test]
fn content_addressing_same_object_same_name() {
    let mut index = Index::new();
    let a = add(&mut index, "one.txt".to_string(), b"payload", 0, 0, 7, false).unwrap();
    let b = add(&mut index, "two.txt".to_string(), b"payload", 9, 9, 7, false).unwrap();
    assert_eq!(a.name, b.name);
    assert_eq!(a.data, b.data);
    assert_eq!(a.name, blob_hash(b"payload"));
}

#[test]
fn build_tree_rejects_file_below_file() {
    let mut index = Index::new();
    add(&mut index, "a".to_string(), b"1", 0, 0, 1, false).unwrap();
    add(&mut index, "a/b".to_string(), b"2", 0, 0, 1, false).unwrap();
    assert!(matches!(build_tree(&index), Err(VcsError::IndexCorrupt)));
    assert!(matches!(commit(&index, "m".to_string(), "", &config(), 1), Err(VcsError::IndexCorrupt)));
}

#[test]
fn commit_needs_identity() {
    let mut index = Index::new();
    add(&mut index, "a".to_string(), b"1", 0, 0, 1, false).unwrap();
    let cfg = Config::parse("[General]\nUsername=alice\n".to_string());
    assert!(matches!(commit(&index, "m".to_string(), "", &cfg, 1), Err(VcsError::ConfigMissing)));
}

#[test]
fn commit_records_parent_and_identity() {
    let mut index = Index::new();
    add(&mut index, "a".to_string(), b"1", 0, 0, 1, false).unwrap();
    let parent = "c".repeat(40);
    let out = commit(&index, "m".to_string(), &parent, &config(), 77).unwrap();
    let last = out.objects.last().unwrap();
    assert_eq!(last.name, out.commit_hash);
    let c = Commit::from_raw_data(&last.data).unwrap();
    assert_eq!(c.get_parent_commit_sha(), Some(parent));
    assert_eq!(c.get_username(), Some("alice".to_string()));
    assert_eq!(c.get_email(), Some("alice@example.org".to_string()));
    assert_eq!(c.get_secs_since_epoch(), Some(77));
    assert_eq!(c.get_tree_sha(), Some(out.objects[0].name.clone()));
}

#[test]
fn status_deleted_cases() {
    let mut index = Index::new();
    add(&mut index, "gone.txt".to_string(), b"g", 0, 0, 1, false).unwrap();
    let head = vec![("removed.txt".to_string(), blob_hash(b"r"))];
    let st = compute_status(&Vec::new(), &index, &head);
    assert_eq!(status_of(&st, "gone.txt"), vec![FileStatus::Deleted]);
    assert_eq!(status_of(&st, "removed.txt"), vec![FileStatus::Deleted]);
    assert_eq!(st.len(), 2);
}

#[test]
fn classify_precedence() {
    let a = "a".to_string();
    let b = "b".to_string();
    assert_eq!(classify_file(Some(&a), None, Some(&a)), FileStatus::Deleted);
    assert_eq!(classify_file(Some(&a), Some(&b), None), FileStatus::Unstaged);
    assert_eq!(classify_file(Some(&a), Some(&a), Some(&b)), FileStatus::Staged);
    assert_eq!(classify_file(Some(&a), Some(&a), Some(&a)), FileStatus::Committed);
    assert_eq!(classify_file(Some(&a), None, None), FileStatus::Untracked);
}

#[test]
fn index_dump_and_pump() {
    let mut index = Index::new();
    index.add(IndexEntry::new(
        111,
        111,
        2222,
        IndexType::RegularFile,
        "fuck.txt".to_string(),
        String::from_utf8([81u8; 40].to_vec()).unwrap(),
    ));
    index.add(IndexEntry::new(
        121,
        131,
        3222,
        IndexType::RegularFile,
        "fuck2.txt".to_string(),
        String::from_utf8([81u8; 40].to_vec()).unwrap(),
    ));
    index.add(IndexEntry::new(
        111,
        111,
        2222,
        IndexType::RegularFile,
        "yompta.zov".to_string(),
        String::from_utf8([82u8; 40].to_vec()).unwrap(),
    ));
    let index_bytes = index.convert_to_bytes().unwrap();
    let hash = generate_hash(&index_bytes);
    println!("Dumped: '{}'", std::str::from_utf8(&index_bytes).unwrap());

    let index = Index::from_raw_data(&index_bytes).unwrap();
    let index_bytes = index.convert_to_bytes().unwrap();
    let hash2 = generate_hash(&index_bytes);
    println!("Pumped: '{}'", std::str::from_utf8(&index_bytes).unwrap());
    assert_eq!(hash, hash2);
}

#[test]
fn index_line_format_and_errors() {
    let e = IndexEntry::new(-5, 7, 3, IndexType::SymbolicLink, "d/f".to_string(), "h".to_string());
    assert_eq!(e.convert_to_bytes().unwrap(), b"120000 -5 7 3 d/f h\n".to_vec());
    assert!(matches!(Index::from_raw_data(b"100644 1 2 3 a h"), Err(VcsError::FormatError)));
    assert!(matches!(Index::from_raw_data(b"100644 1 2 a h\n"), Err(VcsError::FormatError)));
    assert!(matches!(Index::from_raw_data(b"100645 1 2 3 a h\n"), Err(VcsError::FormatError)));
    assert_eq!(Index::from_raw_data(b"").unwrap().indices.len(), 0);
}

#[test]
fn index_remove_and_clear() {
    let mut index = Index::new();
    index.add(IndexEntry::new(0, 0, 0, IndexType::RegularFile, "a".to_string(), "1".to_string()));
    index.add(IndexEntry::new(0, 0, 0, IndexType::RegularFile, "b".to_string(), "2".to_string()));
    assert!(index.remove("a"));
    assert!(!index.remove("a"));
    assert_eq!(index.indices.len(), 1);
    index.remove_all();
    assert!(index.indices.is_empty());
}

#[test]
fn config_parse_and_lookup() {
    let cfg = Config::parse("  [General]  \nUsername=bob\n# comment\nLevel=42\nEq=a=b\n[Other]\nUsername=eve\r\n".to_string());
    assert_eq!(cfg.get("General", "Username"), Some("bob".to_string()));
    assert_eq!(cfg.get("Other", "Username"), Some("eve".to_string()));
    assert_eq!(cfg.get("General", "Eq"), Some("a=b".to_string()));
    assert_eq!(cfg.get_int("General", "Level"), Some(42));
    assert_eq!(cfg.get_int("General", "Username"), None);
    assert_eq!(cfg.get("General", "Missing"), None);
    let mut c2 = Config::new();
    c2.add("S", "k", "1");
    c2.add("S", "k", "2");
    assert_eq!(c2.get("S", "k"), Some("2".to_string()));
}

#[test]
fn path_helpers() {
    assert_eq!(split_path("src/deep/y.txt"), vec!["src".to_string(), "deep".to_string(), "y.txt".to_string()]);
    assert_eq!(join_path("", "a"), "a");
    assert_eq!(join_path("src", "a"), "src/a");
}

#[test]
fn select_status_filters_in_order() {
    let mut index = Index::new();
    add(&mut index, "s1".to_string(), b"1", 0, 0, 1, false).unwrap();
    add(&mut index, "s2".to_string(), b"2", 0, 0, 1, false).unwrap();
    let work = vec![
        ("u".to_string(), blob_hash(b"u")),
        ("s1".to_string(), blob_hash(b"1")),
        ("s2".to_string(), blob_hash(b"2")),
    ];
    let st = compute_status(&work, &index, &Vec::new());
    assert_eq!(gilltter::commands::status::select_status(&st, FileStatus::Staged), vec!["s1".to_string(), "s2".to_string()]);
    assert_eq!(gilltter::commands::status::select_status(&st, FileStatus::Untracked), vec!["u".to_string()]);
    assert!(gilltter::commands::status::select_status(&st, FileStatus::Deleted).is_empty());
}

#[test]
fn separator_and_commit_time() {
    assert_eq!(gilltter::builder::get_separator(), "/");
    let mut c = Commit::new();
    c.set_tree_sha("a".repeat(40));
    c.set_username("u".to_string());
    c.set_email("e".to_string());
    c.set_message("m".to_string());
    c.set_secs_since_epoch(9);
    let bytes = c.convert_to_bytes().unwrap();
    assert_eq!(bytes, c.encode_at(1234).unwrap());
    assert!(String::from_utf8(bytes).unwrap().contains("author u e 9 msg m"));
}

#[test]
fn index_add_replaces_the_entry_for_a_path() {
    let mut index = Index::new();
    index.add(IndexEntry::new(1, 1, 1, IndexType::RegularFile, "a".to_string(), "1".to_string()));
    index.add(IndexEntry::new(2, 2, 2, IndexType::RegularFile, "b".to_string(), "2".to_string()));
    index.add(IndexEntry::new(3, 3, 3, IndexType::RegularFile, "a".to_string(), "3".to_string()));
    assert_eq!(index.indices.len(), 2);
    assert_eq!(index.indices[0].filename, "b");
    assert_eq!(index.indices[1].filename, "a");
    assert_eq!(index.indices[1].sha1_hash, "3");
}

#[test]
fn config_int_accepts_sign() {
    let cfg = Config::parse("[S]\np=+5\nn=-7\nbig=3000000000\n".to_string());
    assert_eq!(cfg.get_int("S", "p"), Some(5));
    assert_eq!(cfg.get_int("S", "n"), Some(-7));
    assert_eq!(cfg.get_int("S", "big"), None);
}

#[test]
fn two_level_commit_byte_layout() {
    let h = "ab".repeat(20);
    let mut index = Index::new();
    index.add(IndexEntry::new(0, 0, 0, IndexType::RegularFile, "src/lib.txt".to_string(), h.clone()));
    let out = commit(&index, "m".to_string(), "", &config(), 1).unwrap();
    assert_eq!(out.objects.len(), 3);
    let inner = format!("tree 56\n100644 lib.txt {}\n", h);
    let s = generate_hash(inner.as_bytes());
    let root = format!("tree 52\n040000 src {}\n", s);
    assert_eq!(out.objects[0].data, root.clone().into_bytes());
    assert_eq!(out.objects[0].name, generate_hash(root.as_bytes()));
    assert!(out.objects.iter().any(|o| o.name == s && o.data == inner.clone().into_bytes()));
    let c = Commit::from_raw_data(&out.objects[2].data).unwrap();
    assert_eq!(c.get_tree_sha(), Some(out.objects[0].name.clone()));
}

#[test]
fn failed_commit_produces_nothing_to_write() {
    let index = Index::new();
    let head = String::new();
    match commit(&index, "m".to_string(), &head, &config(), 1) {
        Err(VcsError::EmptyIndexError) => {}
        _ => panic!("expected EmptyIndexError"),
    }
    assert!(head.is_empty());
}

#[test]
fn scan_hash_matches_staged_hash() {
    let mut index = Index::new();
    add(&mut index, "f".to_string(), b"content", 0, 0, 7, false).unwrap();
    assert_eq!(gilltter::commands::add::content_hash(b"content"), index.indices[0].sha1_hash);
    assert_eq!(gilltter::commands::add::content_hash(b"content"), blob_hash(b"content"));
}

#[test]
fn add_object_order_does_not_matter() {
    let mut t1 = Tree::new();
    t1.add_object("z", TreeObject::Blob("1".to_string()));
    t1.add_object("a", TreeObject::Blob("2".to_string()));
    t1.add_object("m", TreeObject::Blob("3".to_string()));
    let mut t2 = Tree::new();
    t2.add_object("m", TreeObject::Blob("3".to_string()));
    t2.add_object("z", TreeObject::Blob("1".to_string()));
    t2.add_object("a", TreeObject::Blob("2".to_string()));
    assert_eq!(t1.convert_to_bytes().unwrap(), t2.convert_to_bytes().unwrap());
}
