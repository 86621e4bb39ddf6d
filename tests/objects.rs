use gilltter::error::VcsError;
use gilltter::hash::generate_hash;
use gilltter::objects::blob::Blob;
use gilltter::objects::commit::Commit;
use gilltter::objects::tree::{FileType, Tree, TreeObject};
use gilltter::objects::{ObjectDump, ObjectPump};
use gilltter::store::{compress, decompress};

fn get_blob() -> Blob {
    let mut contents = Vec::<u8>::new();
    contents.extend_from_slice("hi gilltter".as_bytes());

    let mut blob = Blob::new();
    blob.set_data(&contents);
    blob
}

#[test]
fn blob_from_compressed_bytes() {
    let blob = get_blob();
    let blob_bytes = blob.convert_to_bytes().unwrap();
    let compressed_bytes = compress(&blob_bytes).unwrap();

    let decompressed_bytes = decompress(&compressed_bytes).unwrap();
    let blob = Blob::from_raw_data(&decompressed_bytes).unwrap();
    let data = blob.get_data();
    assert_eq!(String::from_utf8_lossy(&data), "hi gilltter");
}

#[test]
#[should_panic]
fn panic_on_unset_fields() {
    let commit = Commit::new();
    commit.convert_to_bytes().unwrap();
}

#[test]
fn no_panic_if_fields_set() {
    let mut commit = Commit::new();
    commit.set_tree_sha(String::from_utf8_lossy(&[87u8; 40]).to_string());
    commit.set_username("Pencil".to_string());
    commit.set_email("pedosia@gmail.com".to_string());
    commit.set_message("Wotofak bitch ya molodoi legenda".to_string());
    commit.convert_to_bytes().unwrap();
}

#[test]
fn commit_to_file() {
    let mut commit = Commit::new();
    commit.set_tree_sha(String::from_utf8_lossy(&[87u8; 40]).to_string());
    commit.set_username("Pencil".to_string());
    commit.set_email("pedosia@gmail.com".to_string());
    commit.set_message("Wotofak bitch ya molodoi legenda".to_string());
    commit.convert_to_bytes().unwrap();
}

#[test]
fn commit_from_file() {
    let mut commit = Commit::new();
    commit.set_tree_sha(String::from_utf8_lossy(&[87u8; 40]).to_string());
    commit.set_username("Pencil".to_string());
    commit.set_email("pedosia@gmail.com".to_string());
    commit.set_message("Wotofak bitch ya molodoi legenda".to_string());

    let commit_bytes = commit.convert_to_bytes().unwrap();
    println!("Dumped: '{}'", std::str::from_utf8(&commit_bytes).unwrap());
    let hash = generate_hash(&commit_bytes);

    let commit = Commit::from_raw_data(&commit_bytes).unwrap();
    let commit_bytes = commit.convert_to_bytes().unwrap();
    println!("Pumped: '{}'", std::str::from_utf8(&commit_bytes).unwrap());
    let hash2 = generate_hash(&commit_bytes);
    assert_eq!(hash, hash2);
}

#[test]
#[should_panic]
fn dump_empty_tree() {
    let tree = Tree::new();
    tree.convert_to_bytes().unwrap();
}

#[test]
fn dump_nonempty_tree() {
    let mut tree = Tree::new();
    tree.add_object(
        "ddd.txt",
        TreeObject::Blob(String::from_utf8_lossy(&[87u8; 40]).to_string()),
    );
    tree.convert_to_bytes().unwrap();
}

#[test]
fn add_if_not_exists() {
    let mut tree = Tree::new();
    let obj = TreeObject::Blob(String::from_utf8_lossy(&[87u8; 40]).to_string());
    tree.add_object("ddd.txt", obj);

    let obj = TreeObject::Blob(String::from_utf8_lossy(&[89u8; 40]).to_string());
    tree.add_object_if_not_exists("ddd.txt", || obj);

    let obj = tree.get_object("ddd.txt").unwrap();
    if let TreeObject::Blob(data) = obj {
        let a = String::from_utf8_lossy(&[87u8; 40]).to_string();
        let b = data.to_string();
        assert!(a == b)
    }
}

#[test]
fn tree_dump_and_pump() {
    let mut tree = Tree::new();
    let obj = TreeObject::Blob(String::from_utf8_lossy(&[87u8; 40]).to_string());
    tree.add_object("ddd.txt", obj);

    let obj = TreeObject::Blob(String::from_utf8_lossy(&[89u8; 40]).to_string());
    tree.add_object("ttt.txt", obj);

    let obj = TreeObject::Blob(String::from_utf8_lossy(&[84u8; 40]).to_string());
    tree.add_object("zz.txt", obj);

    let tree_bytes = tree.convert_to_bytes().unwrap();
    let hash_dumped = generate_hash(&tree_bytes);

    let tree = Tree::from_raw_data(&tree_bytes).unwrap();
    let tree_bytes = tree.convert_to_bytes().unwrap();
    let hash_pumped = generate_hash(&tree_bytes);
    assert_eq!(hash_dumped, hash_pumped)
}

#[test]
fn hash_of_empty_input() {
    assert_eq!(generate_hash(b""), "da39a3ee5e6b4b0d3255bfef95601890afd80709");
}

#[test]
fn blob_encoding_and_hash_match_the_format() {
    let mut blob = Blob::new();
    blob.set_data(b"hello\n");
    let enc = blob.convert_to_bytes().unwrap();
    assert_eq!(enc, b"blob 6\0hello\n".to_vec());
    assert_eq!(generate_hash(&enc), "ce013625030ba8dba906f756967f9e9ca394464a");
}

#[test]
fn blob_append_data() {
    let mut blob = Blob::new();
    blob.set_data(b"ab");
    blob.append_data(b"cd");
    assert_eq!(blob.get_data(), b"abcd".to_vec());
}

#[test]
fn blob_decode_rejects_bad_input() {
    assert!(matches!(Blob::from_raw_data(b"blob 5\0abc"), Err(VcsError::FormatError)));
    assert!(matches!(Blob::from_raw_data(b"blub 3\0abc"), Err(VcsError::FormatError)));
    assert!(matches!(Blob::from_raw_data(b"blob 3abc"), Err(VcsError::FormatError)));
    assert!(matches!(Blob::from_raw_data(b"blob x\0abc"), Err(VcsError::FormatError)));
    assert!(matches!(Blob::from_raw_data(b""), Err(VcsError::FormatError)));
    let b = Blob::from_raw_data(b"blob 0\0").unwrap();
    assert!(b.get_data().is_empty());
}

#[test]
fn blob_stored_form_round_trips() {
    let blob = get_blob();
    let stored = blob.stored().unwrap();
    let enc = blob.convert_to_bytes().unwrap();
    assert_eq!(stored.name, generate_hash(&enc));
    assert_ne!(stored.data, enc);
    let back = Blob::from_stored(&stored.data).unwrap();
    assert_eq!(back.get_data(), b"hi gilltter".to_vec());
}

#[test]
fn decompress_rejects_garbage() {
    assert!(matches!(decompress(b"not zlib"), Err(VcsError::FormatError)));
}

#[test]
fn tree_encoding_is_sorted_and_exact() {
    let mut tree = Tree::new();
    tree.add_object("b.txt", TreeObject::Blob("2".repeat(40)));
    tree.add_object("a.txt", TreeObject::Blob("1".repeat(40)));
    let bytes = tree.convert_to_bytes().unwrap();
    let body = format!("100644 a.txt {}\n100644 b.txt {}\n", "1".repeat(40), "2".repeat(40));
    let expected = format!("tree {}\n{}", body.len(), body);
    assert_eq!(bytes, expected.into_bytes());
}

#[test]
fn tree_with_subtree_round_trips() {
    let mut sub = Tree::new();
    sub.add_object("lib.txt", TreeObject::Blob("3".repeat(40)));
    let sub_hash = generate_hash(&sub.convert_to_bytes().unwrap());
    let mut root = Tree::new();
    root.add_object("src", TreeObject::Tree(sub));
    root.add_object("a.txt", TreeObject::Blob("1".repeat(40)));
    let bytes = root.convert_to_bytes().unwrap();
    let back = Tree::from_raw_data(&bytes).unwrap();
    match back.get_object("src") {
        Some(TreeObject::Tree(t)) => assert_eq!(t.get_hash().unwrap(), sub_hash),
        _ => panic!("expected a subtree"),
    }
    assert_eq!(back.convert_to_bytes().unwrap(), bytes);
}

#[test]
fn tree_decode_rejects_bad_input() {
    let unsorted = format!("100644 b {}\n100644 a {}\n", "1".repeat(40), "2".repeat(40));
    let data = format!("tree {}\n{}", unsorted.len(), unsorted);
    assert!(matches!(Tree::from_raw_data(data.as_bytes()), Err(VcsError::FormatError)));
    let bad_mode = "999999 a h\n";
    let data = format!("tree {}\n{}", bad_mode.len(), bad_mode);
    assert!(matches!(Tree::from_raw_data(data.as_bytes()), Err(VcsError::FormatError)));
    assert!(matches!(Tree::from_raw_data(b"tree 3\n100"), Err(VcsError::FormatError)));
}

#[test]
fn tree_hash_modes() {
    let mut tree = Tree::new();
    tree.set_hash("abc").unwrap();
    assert_eq!(tree.get_hash().unwrap(), "abc");
    tree.add_object("x", TreeObject::Blob("h".to_string()));
    assert!(matches!(tree.get_hash(), Err(VcsError::TreeMode)));
    assert!(matches!(tree.set_hash("d"), Err(VcsError::TreeMode)));
    assert!(tree.object_exists("x"));
    assert!(!tree.object_exists("y"));
    assert_eq!(tree.get_objects().len(), 1);
}

#[test]
fn add_object_replaces() {
    let mut tree = Tree::new();
    tree.add_object("x", TreeObject::Blob("1".to_string()));
    tree.add_object("x", TreeObject::Blob("2".to_string()));
    assert_eq!(tree.get_objects().len(), 1);
    match tree.get_object("x") {
        Some(TreeObject::Blob(h)) => assert_eq!(h, "2"),
        _ => panic!("expected a blob"),
    }
}

#[test]
fn file_type_codes() {
    assert_eq!(FileType::Directory.to_bytes(), b"040000".to_vec());
    assert_eq!(FileType::ExecutableFile.to_bytes(), b"100755".to_vec());
    assert_eq!(FileType::from_bytes(b"120000"), Some(FileType::SymbolicLink));
    assert_eq!(FileType::from_bytes(b"100644"), Some(FileType::RegularFile));
    assert_eq!(FileType::from_bytes(b"100645"), None);
}

#[test]
fn commit_encoding_is_exact() {
    let mut commit = Commit::new();
    commit.set_tree_sha("a".repeat(40));
    commit.set_parent_commit_sha(Some("b".repeat(40)));
    commit.set_username("ann".to_string());
    commit.set_email("ann@x".to_string());
    commit.set_message("first one".to_string());
    let bytes = commit.encode_at(42).unwrap();
    let body = format!("tree {}parent {}author ann ann@x 42 msg first one", "a".repeat(40), "b".repeat(40));
    let expected = format!("commit {}\0{}", body.len(), body);
    assert_eq!(bytes, expected.into_bytes());
    let back = Commit::from_raw_data(&bytes).unwrap();
    assert_eq!(back.get_parent_commit_sha(), Some("b".repeat(40)));
    assert_eq!(back.get_username(), Some("ann".to_string()));
    assert_eq!(back.get_email(), Some("ann@x".to_string()));
    assert_eq!(back.get_message(), Some("first one".to_string()));
    assert_eq!(back.get_secs_since_epoch(), Some(42));
    assert_eq!(back.encode_at(7).unwrap(), bytes);
}

#[test]
fn commit_errors() {
    let mut commit = Commit::new();
    commit.set_tree_sha("a".repeat(40));
    assert!(matches!(commit.encode_at(1), Err(VcsError::UnsetField)));
    assert!(matches!(Commit::from_raw_data(b"commit 3\0abc"), Err(VcsError::FormatError)));
    assert!(matches!(Commit::from_raw_data(b"commit"), Err(VcsError::FormatError)));
}

#[test]
fn get_object_mut_changes_in_place() {
    let mut tree = Tree::new();
    tree.add_object("a", TreeObject::Blob("1".to_string()));
    tree.add_object("b", TreeObject::Blob("2".to_string()));
    if let Some(obj) = tree.get_object_mut("b") {
        *obj = TreeObject::Blob("3".to_string());
    } else {
        panic!("expected b");
    }
    assert!(tree.get_object_mut("c").is_none());
    match tree.get_object("b") {
        Some(TreeObject::Blob(h)) => assert_eq!(h, "3"),
        _ => panic!("expected a blob"),
    }
    assert_eq!(tree.get_objects().len(), 2);
}

#[test]
fn empty_subtree_cannot_be_encoded() {
    let mut root = Tree::new();
    root.add_object("a.txt", TreeObject::Blob("1".repeat(40)));
    root.add_object("empty", TreeObject::Tree(Tree::new()));
    assert!(matches!(root.convert_to_bytes(), Err(VcsError::EmptyTree)));
    assert!(matches!(root.stored(), Err(VcsError::EmptyTree)));

    let mut reference = Tree::new();
    reference.set_hash(&"2".repeat(40)).unwrap();
    let mut root = Tree::new();
    root.add_object("dir", TreeObject::Tree(reference));
    let body = format!("040000 dir {}\n", "2".repeat(40));
    assert_eq!(root.convert_to_bytes().unwrap(), format!("tree {}\n{}", body.len(), body).into_bytes());
}

#[test]
fn blob_from_stored_rejects_bad_streams() {
    assert!(matches!(Blob::from_stored(b"not a zlib stream"), Err(VcsError::FormatError)));
    let not_a_blob = compress(b"tree 0\n").unwrap();
    assert!(matches!(Blob::from_stored(&not_a_blob), Err(VcsError::FormatError)));
}
