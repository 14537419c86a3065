//! How nodes cross the boundary: digests as lowercase hexadecimal, metadata
//! and payloads as standard base64, and rows of the store as nodes.

use crate::node::{node_views, Node, NodeKind, NodeView, TreeError};
use crate::workflow::payload_view;
use vstd::prelude::*;

verus! {

/// The hexadecimal digit for `n`, lowercase.
pub open spec fn hex_digit(n: int) -> char {
    if n == 0 {
        '0'
    } else if n == 1 {
        '1'
    } else if n == 2 {
        '2'
    } else if n == 3 {
        '3'
    } else if n == 4 {
        '4'
    } else if n == 5 {
        '5'
    } else if n == 6 {
        '6'
    } else if n == 7 {
        '7'
    } else if n == 8 {
        '8'
    } else if n == 9 {
        '9'
    } else if n == 10 {
        'a'
    } else if n == 11 {
        'b'
    } else if n == 12 {
        'c'
    } else if n == 13 {
        'd'
    } else if n == 14 {
        'e'
    } else {
        'f'
    }
}

/// `bytes` in hexadecimal: two lowercase digits for each byte, the high
/// half first.
pub open spec fn hex_text(bytes: Seq<u8>) -> Seq<char> {
    Seq::new(
        2 * bytes.len(),
        |i: int|
            if i % 2 == 0 {
                hex_digit(bytes[i / 2] as int / 16)
            } else {
                hex_digit(bytes[i / 2] as int % 16)
            },
    )
}

/// The value of a hexadecimal digit of either case, if `c` is one.
pub open spec fn hex_value(c: char) -> Option<int> {
    let code = c as u32 as int;
    if 48 <= code <= 57 {
        Some(code - 48)
    } else if 97 <= code <= 102 {
        Some(code - 87)
    } else if 65 <= code <= 70 {
        Some(code - 55)
    } else {
        None
    }
}

/// Whether `text` is hexadecimal: digits of either case, two for each byte.
pub open spec fn is_hex_text(text: Seq<char>) -> bool {
    &&& text.len() % 2 == 0
    &&& forall|i: int| 0 <= i < text.len() ==> hex_value(#[trigger] text[i]) is Some
}

/// The bytes that the hexadecimal `text` stands for.
pub open spec fn hex_bytes(text: Seq<char>) -> Seq<u8> {
    Seq::new(
        text.len() / 2,
        |i: int| (hex_value(text[2 * i])->0 * 16 + hex_value(text[2 * i + 1])->0) as u8,
    )
}

/// The standard base64 text, with padding, of a byte string.
pub uninterp spec fn base64_text(bytes: Seq<u8>) -> Seq<char>;

/// The bytes that a standard base64 text stands for, where it stands for
/// any.
pub uninterp spec fn base64_bytes(text: Seq<char>) -> Option<Seq<u8>>;

/// `hex::FromHexError`, why a text was no hexadecimal. It is passed on
/// unread.
#[verifier::external_type_specification]
#[verifier::external_body]
pub struct ExFromHexError(hex::FromHexError);

/// `base64::DecodeError`, why a text was no base64. It is passed on unread.
#[verifier::external_type_specification]
#[verifier::external_body]
pub struct ExDecodeError(base64::DecodeError);

/// Calls `hex::encode`.
///
/// Trusted: the text has two lowercase hexadecimal digits for each byte, in
/// the order of the bytes, the high half of a byte first.
#[verifier::external_body]
fn hex_encode(bytes: &[u8]) -> (text: String)
    ensures
        text@ == hex_text(bytes@),
{
    hex::encode(bytes)
}

/// Calls `hex::decode`.
///
/// Trusted: it succeeds exactly on an even number of hexadecimal digits of
/// either case, and then gives one byte for each pair, the first digit of
/// the pair being the high half. (Its input is the text's UTF-8 encoding; a
/// character that is no ASCII digit or letter makes at least one byte that
/// is no hexadecimal digit, or an odd number of bytes.)
#[verifier::external_body]
fn hex_decode(text: &str) -> (decoded: Result<Vec<u8>, hex::FromHexError>)
    ensures
        match decoded {
            Ok(bytes) => is_hex_text(text@) && bytes@ == hex_bytes(text@),
            Err(_) => !is_hex_text(text@),
        },
{
    hex::decode(text)
}

/// Calls `base64::encode`, which encodes with the standard alphabet and
/// padding.
///
/// Trusted: the text depends on the bytes alone. The call cannot overflow
/// the size of its buffer, as no slice is longer than `isize::MAX`.
#[verifier::external_body]
fn base64_encode(bytes: &[u8]) -> (text: String)
    ensures
        text@ == base64_text(bytes@),
{
    base64::encode(bytes)
}

/// Calls `base64::decode`, which decodes the standard alphabet and takes a
/// text with or without its padding.
///
/// Trusted: whether it succeeds, and with which bytes, depends on the text
/// alone. The call cannot overflow the size it reckons for its buffer, as no
/// text is longer than `isize::MAX`.
#[verifier::external_body]
fn base64_decode(text: &str) -> (decoded: Result<Vec<u8>, base64::DecodeError>)
    ensures
        match decoded {
            Ok(bytes) => base64_bytes(text@) == Some(bytes@),
            Err(_) => base64_bytes(text@) is None,
        },
{
    base64::decode(text)
}

/// A node as it is shown to a caller.
#[derive(Clone, Debug, PartialEq, Eq)]
pub struct WireNode {
    pub hash: String,
    pub metadata: String,
    pub metadata_hash: String,
    pub data_hash: String,
    pub parent_hash: String,
    pub is_dir: bool,
    pub data: Option<String>,
}

/// The mathematical value of a [`WireNode`].
pub struct WireNodeView {
    pub hash: Seq<char>,
    pub metadata: Seq<char>,
    pub metadata_hash: Seq<char>,
    pub data_hash: Seq<char>,
    pub parent_hash: Seq<char>,
    pub is_dir: bool,
    pub data: Option<Seq<char>>,
}

impl View for WireNode {
    type V = WireNodeView;

    open spec fn view(&self) -> WireNodeView {
        WireNodeView {
            hash: self.hash@,
            metadata: self.metadata@,
            metadata_hash: self.metadata_hash@,
            data_hash: self.data_hash@,
            parent_hash: self.parent_hash@,
            is_dir: self.is_dir,
            data: match self.data {
                Some(d) => Some(d@),
                None => None,
            },
        }
    }
}

/// A row of the store's table of nodes, column by column. A column that is
/// NULL in the store is `None`.
#[derive(Clone, Debug, PartialEq, Eq)]
pub struct StoredRow {
    pub hash: Vec<u8>,
    pub metadata: Vec<u8>,
    pub parent_hash: Option<Vec<u8>>,
    pub metadata_hash: Vec<u8>,
    pub data_hash: Option<Vec<u8>>,
    pub is_dir: bool,
    pub data: Option<Vec<u8>>,
}

/// The mathematical value of a [`StoredRow`].
pub struct StoredRowView {
    pub hash: Seq<u8>,
    pub metadata: Seq<u8>,
    pub parent_hash: Option<Seq<u8>>,
    pub metadata_hash: Seq<u8>,
    pub data_hash: Option<Seq<u8>>,
    pub is_dir: bool,
    pub data: Option<Seq<u8>>,
}

impl View for StoredRow {
    type V = StoredRowView;

    open spec fn view(&self) -> StoredRowView {
        StoredRowView {
            hash: self.hash@,
            metadata: self.metadata@,
            parent_hash: payload_view(self.parent_hash),
            metadata_hash: self.metadata_hash@,
            data_hash: payload_view(self.data_hash),
            is_dir: self.is_dir,
            data: payload_view(self.data),
        }
    }
}

/// The bytes of a column, none where it is NULL.
pub open spec fn or_empty(column: Option<Seq<u8>>) -> Seq<u8> {
    match column {
        Some(bytes) => bytes,
        None => Seq::empty(),
    }
}

/// A node as shown: its digests in hexadecimal, its metadata and payload in
/// base64. The payload is always there, empty where the node carries none.
pub open spec fn spec_externalize(node: NodeView) -> WireNodeView {
    WireNodeView {
        hash: hex_text(node.hash),
        metadata: base64_text(node.metadata),
        metadata_hash: hex_text(node.metadata_hash),
        data_hash: hex_text(node.data_hash),
        parent_hash: hex_text(node.parent_hash),
        is_dir: node.kind == NodeKind::Directory,
        data: Some(base64_text(node.data)),
    }
}

/// A row as a node: a NULL parent or data digest is empty, and the payload
/// is left behind.
pub open spec fn spec_iconvert(row: StoredRowView) -> NodeView {
    NodeView {
        hash: row.hash,
        kind: if row.is_dir {
            NodeKind::Directory
        } else {
            NodeKind::File
        },
        metadata: row.metadata,
        metadata_hash: row.metadata_hash,
        parent_hash: or_empty(row.parent_hash),
        data_hash: or_empty(row.data_hash),
        data: Seq::empty(),
    }
}

/// A row as shown, with its payload.
pub open spec fn spec_convert(row: StoredRowView) -> WireNodeView {
    WireNodeView {
        hash: hex_text(row.hash),
        metadata: base64_text(row.metadata),
        metadata_hash: hex_text(row.metadata_hash),
        data_hash: hex_text(or_empty(row.data_hash)),
        parent_hash: hex_text(or_empty(row.parent_hash)),
        is_dir: row.is_dir,
        data: Some(base64_text(or_empty(row.data))),
    }
}

/// A digest in lowercase hexadecimal.
pub fn encode_hash(hash: &[u8]) -> (text: String)
    ensures
        text@ == hex_text(hash@),
        text@.len() == 2 * hash@.len(),
{
    hex_encode(hash)
}

/// The digest that a hexadecimal text stands for.
///
/// Fails with `InvalidRequest` unless the text is an even number of
/// hexadecimal digits.
pub fn decode_hash(text: &str) -> (hash: Result<Vec<u8>, TreeError>)
    ensures
        match hash {
            Ok(bytes) => is_hex_text(text@) && bytes@ == hex_bytes(text@),
            Err(e) => !is_hex_text(text@) && e == TreeError::InvalidRequest,
        },
{
    match hex_decode(text) {
        Ok(bytes) => Ok(bytes),
        Err(_) => Err(TreeError::InvalidRequest),
    }
}

/// Metadata or a payload in standard base64.
pub fn encode_blob(bytes: &[u8]) -> (text: String)
    ensures
        text@ == base64_text(bytes@),
{
    base64_encode(bytes)
}

/// What becomes of the outcome of decoding base64: the bytes, or
/// `InvalidRequest`.
pub open spec fn spec_blob(decoded: Option<Seq<u8>>) -> Result<Seq<u8>, TreeError> {
    match decoded {
        Some(bytes) => Ok(bytes),
        None => Err(TreeError::InvalidRequest),
    }
}

/// The metadata or payload that a base64 text stands for.
///
/// Fails with `InvalidRequest` where the text stands for no bytes: it holds
/// a character outside the standard alphabet, misplaced padding, a length
/// that no whole number of bytes gives, or a last character with bits that
/// belong to no byte.
pub fn decode_blob(text: &str) -> (blob: Result<Vec<u8>, TreeError>)
    ensures
        match blob {
            Ok(bytes) => spec_blob(base64_bytes(text@)) == Ok::<Seq<u8>, TreeError>(bytes@),
            Err(e) => spec_blob(base64_bytes(text@)) == Err::<Seq<u8>, TreeError>(e),
        },
{
    match base64_decode(text) {
        Ok(bytes) => Ok(bytes),
        Err(_) => Err(TreeError::InvalidRequest),
    }
}

/// One node as it is shown to a caller.
pub fn externalize_one(node: &Node) -> (shown: WireNode)
    ensures
        shown@ == spec_externalize(node@),
{
    WireNode {
        hash: hex_encode(node.hash.as_slice()),
        metadata: base64_encode(node.metadata.as_slice()),
        metadata_hash: hex_encode(node.metadata_hash.as_slice()),
        data_hash: hex_encode(node.data_hash.as_slice()),
        parent_hash: hex_encode(node.parent_hash.as_slice()),
        is_dir: node.is_dir(),
        data: Some(base64_encode(node.data.as_slice())),
    }
}

/// The nodes of a context as they are shown to a caller, in their order.
pub fn externalize_node(nodes: &Vec<Node>) -> (shown: Vec<WireNode>)
    ensures
        shown@.len() == nodes@.len(),
        forall|i: int|
            0 <= i < nodes@.len() ==> (#[trigger] shown@[i])@ == spec_externalize(nodes@[i]@),
{
    let mut shown: Vec<WireNode> = Vec::new();
    let mut i: usize = 0;
    while i < nodes.len()
        invariant
            i <= nodes.len(),
            shown@.len() == i,
            forall|k: int| 0 <= k < i ==> (#[trigger] shown@[k])@ == spec_externalize(nodes@[k]@),
        decreases nodes.len() - i,
    {
        shown.push(externalize_one(&nodes[i]));
        i += 1;
    }
    shown
}

/// The bytes of a column, none where it is NULL.
fn column_bytes(column: &Option<Vec<u8>>) -> (bytes: Vec<u8>)
    ensures
        bytes@ == or_empty(payload_view(*column)),
{
    match column {
        Some(b) => crate::bytes::copy_bytes(b.as_slice()),
        None => Vec::new(),
    }
}

/// A row of the store as it is shown to a caller.
pub fn convert_node(row: &StoredRow) -> (shown: WireNode)
    ensures
        shown@ == spec_convert(row@),
{
    let parent = column_bytes(&row.parent_hash);
    let data_hash = column_bytes(&row.data_hash);
    let data = column_bytes(&row.data);
    WireNode {
        hash: hex_encode(row.hash.as_slice()),
        metadata: base64_encode(row.metadata.as_slice()),
        metadata_hash: hex_encode(row.metadata_hash.as_slice()),
        data_hash: hex_encode(data_hash.as_slice()),
        parent_hash: hex_encode(parent.as_slice()),
        is_dir: row.is_dir,
        data: Some(base64_encode(data.as_slice())),
    }
}

/// Rows of the store as they are shown to a caller, in their order.
pub fn convert_nodes(rows: &Vec<StoredRow>) -> (shown: Vec<WireNode>)
    ensures
        shown@.len() == rows@.len(),
        forall|i: int| 0 <= i < rows@.len() ==> (#[trigger] shown@[i])@ == spec_convert(rows@[i]@),
{
    let mut shown: Vec<WireNode> = Vec::new();
    let mut i: usize = 0;
    while i < rows.len()
        invariant
            i <= rows.len(),
            shown@.len() == i,
            forall|k: int| 0 <= k < i ==> (#[trigger] shown@[k])@ == spec_convert(rows@[k]@),
        decreases rows.len() - i,
    {
        shown.push(convert_node(&rows[i]));
        i += 1;
    }
    shown
}

/// A row of the store as a node of a context.
pub fn iconvert_node(row: &StoredRow) -> (node: Node)
    ensures
        node@ == spec_iconvert(row@),
{
    Node {
        hash: crate::bytes::copy_bytes(row.hash.as_slice()),
        kind: if row.is_dir {
            NodeKind::Directory
        } else {
            NodeKind::File
        },
        metadata: crate::bytes::copy_bytes(row.metadata.as_slice()),
        metadata_hash: crate::bytes::copy_bytes(row.metadata_hash.as_slice()),
        parent_hash: column_bytes(&row.parent_hash),
        data_hash: column_bytes(&row.data_hash),
        data: Vec::new(),
    }
}

/// Rows of the store as the nodes of a context, in their order.
pub fn iconvert_nodes(rows: &Vec<StoredRow>) -> (nodes: Vec<Node>)
    ensures
        nodes@.len() == rows@.len(),
        forall|i: int| 0 <= i < rows@.len() ==> (#[trigger] nodes@[i])@ == spec_iconvert(rows@[i]@),
        node_views(nodes@) == Seq::new(rows@.len(), |i: int| spec_iconvert(rows@[i]@)),
{
    let mut nodes: Vec<Node> = Vec::new();
    let mut i: usize = 0;
    while i < rows.len()
        invariant
            i <= rows.len(),
            nodes@.len() == i,
            forall|k: int| 0 <= k < i ==> (#[trigger] nodes@[k])@ == spec_iconvert(rows@[k]@),
        decreases rows.len() - i,
    {
        nodes.push(iconvert_node(&rows[i]));
        i += 1;
    }
    assert(node_views(nodes@) =~= Seq::new(rows@.len(), |i: int| spec_iconvert(rows@[i]@)));
    nodes
}

} // verus!
