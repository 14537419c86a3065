use hash_tree::codec::{convert_node, convert_nodes, decode_blob, decode_hash, encode_blob,
    encode_hash, externalize_node, externalize_one, iconvert_node, iconvert_nodes, StoredRow,
    WireNode};
use hash_tree::connect::connection_string;
use hash_tree::node::{Node, NodeKind, TreeError};

#[test]
fn encode_hash_writes_two_lowercase_digits_for_each_byte() {
    assert_eq!(encode_hash(&[]), "");
    assert_eq!(encode_hash(&[0x00, 0x0f, 0xab, 0xff, 0x10]), "000fabff10");
    assert_eq!(encode_hash(b"Hello world!"), "48656c6c6f20776f726c6421");
    assert_eq!(encode_hash(&[7u8; 48]).len(), 96);
}

#[test]
fn decode_hash_reads_digits_of_either_case() {
    assert_eq!(decode_hash(""), Ok(vec![]));
    assert_eq!(decode_hash("000fabff10"), Ok(vec![0x00, 0x0f, 0xab, 0xff, 0x10]));
    assert_eq!(decode_hash("ABcdEF"), Ok(vec![0xab, 0xcd, 0xef]));
    assert_eq!(decode_hash("f9B4Ca"), Ok(vec![0xf9, 0xb4, 0xca]));
}

#[test]
fn decode_hash_refuses_what_is_no_hexadecimal() {
    assert_eq!(decode_hash("abc"), Err(TreeError::InvalidRequest));
    assert_eq!(decode_hash("0g"), Err(TreeError::InvalidRequest));
    assert_eq!(decode_hash("12 4"), Err(TreeError::InvalidRequest));
    assert_eq!(decode_hash("é"), Err(TreeError::InvalidRequest));
    assert_eq!(decode_hash("éa"), Err(TreeError::InvalidRequest));
}

#[test]
fn decode_hash_undoes_encode_hash() {
    let bytes: Vec<u8> = (0..=255).collect();
    assert_eq!(decode_hash(&encode_hash(&bytes)), Ok(bytes));
}

#[test]
fn encode_blob_writes_padded_standard_base64() {
    assert_eq!(encode_blob(b""), "");
    assert_eq!(encode_blob(b"hi"), "aGk=");
    assert_eq!(encode_blob(b"root"), "cm9vdA==");
    assert_eq!(encode_blob(b"hello world"), "aGVsbG8gd29ybGQ=");
    assert_eq!(encode_blob(&[0xfb, 0xff]), "+/8=");
}

#[test]
fn decode_blob_reads_standard_base64() {
    assert_eq!(decode_blob(""), Ok(vec![]));
    assert_eq!(decode_blob("aGk="), Ok(b"hi".to_vec()));
    assert_eq!(decode_blob("cm9vdA=="), Ok(b"root".to_vec()));
    assert_eq!(decode_blob("+/8="), Ok(vec![0xfb, 0xff]));
}

#[test]
fn decode_blob_refuses_what_is_no_base64() {
    assert_eq!(decode_blob("!!!!"), Err(TreeError::InvalidRequest));
    assert_eq!(decode_blob("a"), Err(TreeError::InvalidRequest));
    assert_eq!(decode_blob("aGl="), Err(TreeError::InvalidRequest));
    assert_eq!(decode_blob("a=Gk"), Err(TreeError::InvalidRequest));
    assert_eq!(decode_blob("-_8="), Err(TreeError::InvalidRequest));
}

#[test]
fn decode_blob_takes_a_text_without_its_padding() {
    assert_eq!(decode_blob("aGk"), Ok(b"hi".to_vec()));
    assert_eq!(decode_blob("cm9vdA"), Ok(b"root".to_vec()));
}

#[test]
fn decode_blob_undoes_encode_blob() {
    let bytes: Vec<u8> = (0..=255).collect();
    assert_eq!(decode_blob(&encode_blob(&bytes)), Ok(bytes));
}

fn sample() -> Node {
    Node {
        hash: vec![0xde, 0xad],
        kind: NodeKind::File,
        metadata: b"a.txt".to_vec(),
        metadata_hash: vec![0x01],
        parent_hash: vec![0xbe, 0xef],
        data_hash: vec![0x02, 0x03],
        data: b"hi".to_vec(),
    }
}

#[test]
fn externalize_shows_digests_in_hex_and_blobs_in_base64() {
    let shown = externalize_one(&sample());
    assert_eq!(
        shown,
        WireNode {
            hash: "dead".to_string(),
            metadata: "YS50eHQ=".to_string(),
            metadata_hash: "01".to_string(),
            data_hash: "0203".to_string(),
            parent_hash: "beef".to_string(),
            is_dir: false,
            data: Some("aGk=".to_string()),
        }
    );
}

#[test]
fn externalize_shows_an_absent_payload_as_empty() {
    let mut dir = sample();
    dir.kind = NodeKind::Directory;
    dir.data = vec![];
    dir.data_hash = vec![];
    dir.parent_hash = vec![];
    let shown = externalize_node(&vec![sample(), dir]);
    assert_eq!(shown.len(), 2);
    assert_eq!(shown[0], externalize_one(&sample()));
    assert!(shown[1].is_dir);
    assert_eq!(shown[1].data, Some(String::new()));
    assert_eq!(shown[1].data_hash, "");
    assert_eq!(shown[1].parent_hash, "");
    assert!(externalize_node(&vec![]).is_empty());
}

fn row() -> StoredRow {
    StoredRow {
        hash: vec![0xde, 0xad],
        metadata: b"a.txt".to_vec(),
        parent_hash: Some(vec![0xbe, 0xef]),
        metadata_hash: vec![0x01],
        data_hash: Some(vec![0x02, 0x03]),
        is_dir: false,
        data: Some(b"hi".to_vec()),
    }
}

fn null_row() -> StoredRow {
    StoredRow {
        hash: vec![0x0a],
        metadata: b"root".to_vec(),
        parent_hash: None,
        metadata_hash: vec![0x0b],
        data_hash: None,
        is_dir: true,
        data: None,
    }
}

#[test]
fn convert_node_shows_a_row_with_its_payload() {
    assert_eq!(convert_node(&row()), externalize_one(&sample()));
    assert_eq!(
        convert_node(&null_row()),
        WireNode {
            hash: "0a".to_string(),
            metadata: "cm9vdA==".to_string(),
            metadata_hash: "0b".to_string(),
            data_hash: String::new(),
            parent_hash: String::new(),
            is_dir: true,
            data: Some(String::new()),
        }
    );
    let both = convert_nodes(&vec![row(), null_row()]);
    assert_eq!(both, vec![convert_node(&row()), convert_node(&null_row())]);
}

#[test]
fn iconvert_node_leaves_the_payload_behind() {
    let mut expected = sample();
    expected.data = vec![];
    assert_eq!(iconvert_node(&row()), expected);
    assert_eq!(
        iconvert_node(&null_row()),
        Node {
            hash: vec![0x0a],
            kind: NodeKind::Directory,
            metadata: b"root".to_vec(),
            metadata_hash: vec![0x0b],
            parent_hash: vec![],
            data_hash: vec![],
            data: vec![],
        }
    );
    let both = iconvert_nodes(&vec![null_row(), row()]);
    assert_eq!(both, vec![iconvert_node(&null_row()), iconvert_node(&row())]);
}

#[test]
fn connection_string_names_host_user_password_and_database() {
    assert_eq!(
        connection_string("alice", "s3cret", "db.local", "tree"),
        "host=db.local user=alice password=s3cret dbname=tree"
    );
    assert_eq!(connection_string("", "", "", ""), "host= user= password= dbname=");
}
