use git_rs::{decode_object, read_object, Blob, Commit, GitError, Object, Tree};
use std::io::Write;

fn compress(data: &[u8]) -> Vec<u8> {
    let mut enc = flate2::write::ZlibEncoder::new(Vec::new(), flate2::Compression::default());
    enc.write_all(data).unwrap();
    enc.finish().unwrap()
}

fn framed(kind: &str, body: &[u8]) -> Vec<u8> {
    let mut out = format!("{} {}", kind, body.len()).into_bytes();
    out.push(0);
    out.extend_from_slice(body);
    out
}

#[test]
fn parse_blob() {
    let data = vec![0x48, 0x65, 0x6c, 0x6c, 0x6f, 0x20, 0x57, 0x6f, 0x72, 0x6c, 0x64, 0x0a];

    match Blob::from_object_data("sha", &data) {
        Ok(b) => {
            assert_eq!(b.sha, "sha");
            assert_eq!(b.data,
                       [0x48, 0x65, 0x6c, 0x6c, 0x6f, 0x20, 0x57, 0x6f, 0x72, 0x6c, 0x64,
                        0x0a]);
        }
        Err(err) => panic!("{:?}", err),
    }
}

#[test]
fn parse_tree() {
    let data = vec![0x31, 0x30, 0x30, 0x36, 0x34, 0x34, 0x20, 0x61, 0x00, 0x3f, 0xa0, 0xd4,
                    0xb9, 0x82, 0x89, 0xa9, 0x5a, 0x7c, 0xd3, 0xa4, 0x5c, 0x95, 0x45, 0xe6,
                    0x22, 0x71, 0x8f, 0x8d, 0x2b, 0x31, 0x30, 0x30, 0x36, 0x34, 0x34, 0x20,
                    0x62, 0x00, 0xe6, 0x9d, 0xe2, 0x9b, 0xb2, 0xd1, 0xd6, 0x43, 0x4b, 0x8b,
                    0x29, 0xae, 0x77, 0x5a, 0xd8, 0xc2, 0xe4, 0x8c, 0x53, 0x91];

    match Tree::from_object_data("sha", &data) {
        Ok(t) => {
            assert_eq!(t.sha, "sha");
            assert_eq!(t.entries.len(), 2);
            assert_eq!(t.entries[0].mode, "100644");
            assert_eq!(t.entries[0].filename, "a");
            assert_eq!(t.entries[0].sha, "3fa0d4b98289a95a7cd3a45c9545e622718f8d2b");
            assert_eq!(t.entries[1].mode, "100644");
            assert_eq!(t.entries[1].filename, "b");
            assert_eq!(t.entries[1].sha, "e69de29bb2d1d6434b8b29ae775ad8c2e48c5391");
        }
        Err(err) => panic!("{:?}", err),
    }
}

#[test]
fn parse_commit() {
    let data = vec![0x74, 0x72, 0x65, 0x65, 0x20, 0x30, 0x38, 0x66, 0x34, 0x38, 0x36, 0x64,
                    0x32, 0x37, 0x64, 0x36, 0x33, 0x65, 0x64, 0x37, 0x66, 0x38, 0x33, 0x38,
                    0x37, 0x36, 0x32, 0x30, 0x33, 0x61, 0x32, 0x34, 0x61, 0x61, 0x63, 0x61,
                    0x30, 0x38, 0x61, 0x32, 0x32, 0x61, 0x35, 0x63, 0x31, 0x0a, 0x70, 0x61,
                    0x72, 0x65, 0x6e, 0x74, 0x20, 0x35, 0x31, 0x33, 0x63, 0x63, 0x64, 0x32,
                    0x62, 0x36, 0x37, 0x31, 0x32, 0x34, 0x34, 0x61, 0x65, 0x65, 0x39, 0x38,
                    0x65, 0x31, 0x66, 0x30, 0x36, 0x38, 0x34, 0x66, 0x34, 0x39, 0x65, 0x65,
                    0x63, 0x38, 0x39, 0x37, 0x33, 0x63, 0x35, 0x31, 0x65, 0x0a, 0x61, 0x75,
                    0x74, 0x68, 0x6f, 0x72, 0x20, 0x61, 0x20, 0x3c, 0x61, 0x40, 0x62, 0x2e,
                    0x64, 0x65, 0x3e, 0x20, 0x31, 0x34, 0x38, 0x38, 0x30, 0x32, 0x39, 0x38,
                    0x37, 0x34, 0x20, 0x2b, 0x30, 0x31, 0x30, 0x30, 0x0a, 0x63, 0x6f, 0x6d,
                    0x6d, 0x69, 0x74, 0x74, 0x65, 0x72, 0x20, 0x62, 0x20, 0x3c, 0x62, 0x40,
                    0x61, 0x2e, 0x64, 0x65, 0x3e, 0x20, 0x31, 0x34, 0x38, 0x38, 0x30, 0x35,
                    0x38, 0x39, 0x35, 0x39, 0x20, 0x2b, 0x30, 0x31, 0x30, 0x30, 0x0a, 0x0a,
                    0x54, 0x68, 0x69, 0x73, 0x20, 0x69, 0x73, 0x20, 0x61, 0x20, 0x74, 0x65,
                    0x73, 0x74, 0x0a];

    match Commit::from_object_data("sha", &data) {
        Ok(c) => {
            assert_eq!(c.sha, "sha");
            assert_eq!(c.tree, "08f486d27d63ed7f83876203a24aaca08a22a5c1");
            assert_eq!(c.parent.unwrap(),
                       "513ccd2b671244aee98e1f0684f49eec8973c51e");
            assert_eq!(c.author, "a <a@b.de> 1488029874 +0100");
            assert_eq!(c.committer, "b <b@a.de> 1488058959 +0100");
            assert_eq!(c.message, "\nThis is a test\n");
        }
        Err(err) => panic!("{:?}", err),
    }
}

#[test]
fn blob_stream_round_trip() {
    let content = vec![0u8, 1, 2, 255, 10, 32, 0];
    match decode_object("id", &framed("blob", &content)) {
        Ok(Object::Blob(b)) => {
            assert_eq!(b.sha, "id");
            assert_eq!(b.data, content);
        }
        _ => panic!("expected a blob"),
    }
}

#[test]
fn empty_blob_content() {
    match decode_object("id", b"blob 0\0") {
        Ok(Object::Blob(b)) => assert!(b.data.is_empty()),
        _ => panic!("expected a blob"),
    }
}

#[test]
fn tree_stream_two_entries() {
    let mut body = b"100644 a\0".to_vec();
    body.extend_from_slice(&[0x3f, 0xa0, 0xd4, 0xb9, 0x82, 0x89, 0xa9, 0x5a, 0x7c, 0xd3,
                             0xa4, 0x5c, 0x95, 0x45, 0xe6, 0x22, 0x71, 0x8f, 0x8d, 0x2b]);
    body.extend_from_slice(b"40000 dir\0");
    body.extend_from_slice(&[0u8; 20]);
    assert_eq!(body.len(), 59);
    match decode_object("t", &framed("tree", &body)) {
        Ok(Object::Tree(t)) => {
            assert_eq!(t.entries.len(), 2);
            assert_eq!(t.entries[0].filename, "a");
            assert_eq!(t.entries[0].sha, "3fa0d4b98289a95a7cd3a45c9545e622718f8d2b");
            assert_eq!(t.entries[1].mode, "40000");
            assert_eq!(t.entries[1].filename, "dir");
            assert_eq!(t.entries[1].sha, "0000000000000000000000000000000000000000");
        }
        _ => panic!("expected a tree"),
    }
}

#[test]
fn tree_entry_name_with_space() {
    let mut body = b"100644 my file\0".to_vec();
    body.extend_from_slice(&[0xab; 20]);
    let t = Tree::from_object_data("t", &body).unwrap();
    assert_eq!(t.entries[0].mode, "100644");
    assert_eq!(t.entries[0].filename, "my file");
    assert_eq!(t.entries[0].sha, "abababababababababababababababababababab");
}

#[test]
fn empty_tree() {
    let t = Tree::from_object_data("t", b"").unwrap();
    assert!(t.entries.is_empty());
}

#[test]
fn commit_without_parent_line() {
    let body = b"tree 4ee92b6df668a7531af74d4c2e6bbafce7b55e3b\nauthor A <a@x> 1 +0000\ncommitter C <c@x> 2 +0000\n\nfirst\nsecond\n";
    let c = Commit::from_object_data("c", body).unwrap();
    assert_eq!(c.tree, "4ee92b6df668a7531af74d4c2e6bbafce7b55e3b");
    assert_eq!(c.parent, None);
    assert_eq!(c.author, "A <a@x> 1 +0000");
    assert_eq!(c.committer, "C <c@x> 2 +0000");
    assert_eq!(c.message, "\nfirst\nsecond\n");
}

#[test]
fn commit_with_empty_message() {
    let body = b"tree t\nparent p\nauthor a\ncommitter c\n";
    let c = Commit::from_object_data("c", body).unwrap();
    assert_eq!(c.parent.as_deref(), Some("p"));
    assert_eq!(c.message, "");
}

#[test]
fn read_compressed_commit() {
    let stored = compress(&framed("commit", b"tree t\nauthor a\ncommitter c\n\nmsg"));
    match read_object("abc", &stored) {
        Ok(Object::Commit(c)) => {
            assert_eq!(c.sha, "abc");
            assert_eq!(c.tree, "t");
            assert_eq!(c.message, "\nmsg");
        }
        _ => panic!("expected a commit"),
    }
}

#[test]
fn error_not_zlib() {
    assert_eq!(read_object("x", b"blob 3\0abc").err(), Some(GitError::Inflate));
}

#[test]
fn error_empty_stream() {
    assert_eq!(decode_object("x", b"").err(), Some(GitError::EmptyStream));
    assert_eq!(read_object("x", &compress(b"")).err(), Some(GitError::EmptyStream));
}

#[test]
fn error_malformed_header() {
    assert_eq!(decode_object("x", b"blob 3").err(), Some(GitError::MalformedHeader));
    assert_eq!(decode_object("x", b"blob\0abc").err(), Some(GitError::MalformedHeader));
}

#[test]
fn error_unknown_type() {
    assert_eq!(decode_object("x", b"tag 3\0abc").err(), Some(GitError::UnknownType));
}

#[test]
fn error_truncated_entry() {
    assert_eq!(Tree::from_object_data("x", b"100644 a").err(), Some(GitError::TruncatedEntry));
}

#[test]
fn error_malformed_entry() {
    let mut body = b"100644\0".to_vec();
    body.extend_from_slice(&[1u8; 20]);
    assert_eq!(Tree::from_object_data("x", &body).err(), Some(GitError::MalformedEntry));
}

#[test]
fn error_short_hash() {
    let mut body = b"100644 a\0".to_vec();
    body.extend_from_slice(&[1u8; 19]);
    assert_eq!(Tree::from_object_data("x", &body).err(), Some(GitError::ShortHash));
}

#[test]
fn error_malformed_line() {
    assert_eq!(Commit::from_object_data("x", b"tree t\nauthor\n").err(),
               Some(GitError::MalformedLine));
}

#[test]
fn error_invalid_utf8() {
    assert_eq!(Commit::from_object_data("x", b"tree t\nauthor a\ncommitter c\n\xff").err(),
               Some(GitError::InvalidUtf8));
    let mut body = b"100644 \xfe\0".to_vec();
    body.extend_from_slice(&[1u8; 20]);
    assert_eq!(Tree::from_object_data("x", &body).err(), Some(GitError::InvalidUtf8));
}

#[test]
fn error_header_not_text() {
    assert_eq!(decode_object("x", b"blob \xff\0abc").err(), Some(GitError::InvalidUtf8));
    assert_eq!(decode_object("x", b"\xff\0abc").err(), Some(GitError::InvalidUtf8));
}

#[test]
fn error_commit_tag_not_text() {
    assert_eq!(Commit::from_object_data("x", b"\xff t\nauthor a\ncommitter c\n").err(),
               Some(GitError::InvalidUtf8));
    assert_eq!(Commit::from_object_data("x", b"tree t\nauthor a\n\xfe c\n").err(),
               Some(GitError::InvalidUtf8));
}

#[test]
fn commit_tag_non_ascii_text() {
    let c = Commit::from_object_data("x", "tree t\nautor\u{e9} a\ncommitter c\n".as_bytes()).unwrap();
    assert_eq!(c.author, "a");
}
