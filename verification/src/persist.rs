//! What has to be written to the store for a changed context: one statement
//! that puts every node in (or, where its digest is there already, only
//! moves it under its new parent), the new root pointer, and the payload of
//! a new file.

use crate::bytes::copy_bytes;
use crate::node::{node_views, Node, NodeKind, NodeView, TreeError};
use crate::workflow::{spec_top_hash, top_hash};
use vstd::prelude::*;
use vstd::string::*;

verus! {

/// A value bound to a placeholder of a statement.
#[derive(Clone, Debug, PartialEq, Eq)]
pub enum SqlValue {
    Bytes(Vec<u8>),
    Flag(bool),
}

/// The mathematical value of a [`SqlValue`].
pub enum SqlValueView {
    Bytes(Seq<u8>),
    Flag(bool),
}

impl View for SqlValue {
    type V = SqlValueView;

    open spec fn view(&self) -> SqlValueView {
        match self {
            SqlValue::Bytes(b) => SqlValueView::Bytes(b@),
            SqlValue::Flag(f) => SqlValueView::Flag(*f),
        }
    }
}

/// The values of a sequence of parameters, position by position.
pub open spec fn value_views(values: Seq<SqlValue>) -> Seq<SqlValueView> {
    Seq::new(values.len(), |i: int| values[i]@)
}

/// The content of a file, to be stored under the file's digest.
#[derive(Clone, Debug, PartialEq, Eq)]
pub struct Payload {
    pub hash: Vec<u8>,
    pub data: Vec<u8>,
}

/// The mathematical value of a [`Payload`].
pub struct PayloadView {
    pub hash: Seq<u8>,
    pub data: Seq<u8>,
}

impl View for Payload {
    type V = PayloadView;

    open spec fn view(&self) -> PayloadView {
        PayloadView { hash: self.hash@, data: self.data@ }
    }
}

/// Everything that one change writes, to be committed together.
#[derive(Clone, Debug, PartialEq, Eq)]
pub struct WritePlan {
    /// The statement that upserts every node of the context.
    pub statement: String,
    /// The values of the statement's placeholders, `$1` first.
    pub params: Vec<SqlValue>,
    /// The digest that the root pointer is set to.
    pub top_hash: Vec<u8>,
    /// The payload to store, if a node of the context carries one.
    pub payload: Option<Payload>,
}

/// The mathematical value of a [`WritePlan`].
pub struct WritePlanView {
    pub statement: Seq<char>,
    pub params: Seq<SqlValueView>,
    pub top_hash: Seq<u8>,
    pub payload: Option<PayloadView>,
}

impl View for WritePlan {
    type V = WritePlanView;

    open spec fn view(&self) -> WritePlanView {
        WritePlanView {
            statement: self.statement@,
            params: value_views(self.params@),
            top_hash: self.top_hash@,
            payload: match self.payload {
                Some(p) => Some(p@),
                None => None,
            },
        }
    }
}

/// The decimal digit for `d`.
pub open spec fn digit_char(d: int) -> char {
    if d == 0 {
        '0'
    } else if d == 1 {
        '1'
    } else if d == 2 {
        '2'
    } else if d == 3 {
        '3'
    } else if d == 4 {
        '4'
    } else if d == 5 {
        '5'
    } else if d == 6 {
        '6'
    } else if d == 7 {
        '7'
    } else if d == 8 {
        '8'
    } else {
        '9'
    }
}

/// `n` in decimal, without leading zeros.
pub open spec fn decimal(n: nat) -> Seq<char>
    decreases n,
{
    if n < 10 {
        seq![digit_char(n as int)]
    } else {
        decimal(n / 10).push(digit_char((n % 10) as int))
    }
}

/// The placeholder with the number `n`: `$n`.
pub open spec fn placeholder(n: nat) -> Seq<char> {
    "$"@ + decimal(n)
}

/// Whether the row of `node` binds its parent's digest. The root's is NULL.
pub open spec fn binds_parent(node: NodeView) -> bool {
    node.parent_hash.len() > 0
}

/// Whether the row of `node` binds a data digest. A node without is NULL
/// there.
pub open spec fn binds_data(node: NodeView) -> bool {
    node.data_hash.len() > 0
}

/// The values that the row of `node` binds, in the order of its
/// placeholders: digest, parent's digest, data digest, metadata, metadata
/// digest, whether it is a directory. An empty parent's or data digest binds
/// nothing.
pub open spec fn row_params(node: NodeView) -> Seq<SqlValueView> {
    seq![SqlValueView::Bytes(node.hash)] + (if binds_parent(node) {
        seq![SqlValueView::Bytes(node.parent_hash)]
    } else {
        Seq::empty()
    }) + (if binds_data(node) {
        seq![SqlValueView::Bytes(node.data_hash)]
    } else {
        Seq::empty()
    }) + seq![
        SqlValueView::Bytes(node.metadata),
        SqlValueView::Bytes(node.metadata_hash),
        SqlValueView::Flag(node.kind == NodeKind::Directory),
    ]
}

/// A column that is a placeholder where it binds a value, and NULL where it
/// does not.
pub open spec fn column(binds: bool, number: nat) -> Seq<char> {
    if binds {
        placeholder(number)
    } else {
        "NULL"@
    }
}

/// How many placeholders a flag stands for.
pub open spec fn count(binds: bool) -> nat {
    if binds {
        1
    } else {
        0
    }
}

/// The row of `node` in the statement, where `used` placeholders stand
/// before it: its six columns in brackets, numbered on from `used + 1`.
pub open spec fn row_text(node: NodeView, used: nat) -> Seq<char> {
    let parent = count(binds_parent(node));
    let data = count(binds_data(node));
    "("@ + placeholder(used + 1) + ","@ + column(binds_parent(node), used + 2) + ","@ + column(
        binds_data(node),
        used + 2 + parent,
    ) + ","@ + placeholder(used + 2 + parent + data) + ","@ + placeholder(
        used + 3 + parent + data,
    ) + ","@ + placeholder(used + 4 + parent + data) + ")"@
}

/// The values that the rows of `ctx` bind, row after row.
pub open spec fn spec_params(ctx: Seq<NodeView>) -> Seq<SqlValueView>
    decreases ctx.len(),
{
    if ctx.len() == 0 {
        Seq::empty()
    } else {
        spec_params(ctx.drop_last()) + row_params(ctx.last())
    }
}

/// The rows of `ctx`, with a comma between one and the next.
pub open spec fn rows_text(ctx: Seq<NodeView>) -> Seq<char>
    decreases ctx.len(),
{
    if ctx.len() == 0 {
        Seq::empty()
    } else if ctx.len() == 1 {
        row_text(ctx.last(), 0)
    } else {
        rows_text(ctx.drop_last()) + ","@ + row_text(
            ctx.last(),
            spec_params(ctx.drop_last()).len(),
        )
    }
}

/// The start of the statement, up to the rows.
pub open spec fn statement_head() -> Seq<char> {
    "INSERT INTO nodes (hash, parent_hash, data_hash, metadata, metadata_hash, is_dir) VALUES "@
}

/// The end of the statement, after the rows.
pub open spec fn statement_tail() -> Seq<char> {
    " ON CONFLICT (hash) DO UPDATE SET parent_hash = EXCLUDED.parent_hash;"@
}

/// The statement that upserts the nodes of `ctx`.
pub open spec fn spec_statement(ctx: Seq<NodeView>) -> Seq<char> {
    statement_head() + rows_text(ctx) + statement_tail()
}

/// The payload to store: that of the last node of `ctx` that carries one.
pub open spec fn spec_payload(ctx: Seq<NodeView>) -> Option<PayloadView>
    decreases ctx.len(),
{
    if ctx.len() == 0 {
        None
    } else if ctx.last().data.len() > 0 {
        Some(PayloadView { hash: ctx.last().hash, data: ctx.last().data })
    } else {
        spec_payload(ctx.drop_last())
    }
}

/// What is written for `ctx`. A context without exactly one root that is a
/// directory is not written.
pub open spec fn spec_write_plan(ctx: Seq<NodeView>) -> Result<WritePlanView, TreeError> {
    match spec_top_hash(ctx) {
        Err(e) => Err(e),
        Ok(top) => Ok(
            WritePlanView {
                statement: spec_statement(ctx),
                params: spec_params(ctx),
                top_hash: top,
                payload: spec_payload(ctx),
            },
        ),
    }
}

/// The decimal digit for `d` as a string.
fn digit_str(d: u8) -> (s: &'static str)
    requires
        d < 10,
    ensures
        s@ == seq![digit_char(d as int)],
{
    proof {
        reveal_strlit("0");
        reveal_strlit("1");
        reveal_strlit("2");
        reveal_strlit("3");
        reveal_strlit("4");
        reveal_strlit("5");
        reveal_strlit("6");
        reveal_strlit("7");
        reveal_strlit("8");
        reveal_strlit("9");
    }
    let s = if d == 0 {
        "0"
    } else if d == 1 {
        "1"
    } else if d == 2 {
        "2"
    } else if d == 3 {
        "3"
    } else if d == 4 {
        "4"
    } else if d == 5 {
        "5"
    } else if d == 6 {
        "6"
    } else if d == 7 {
        "7"
    } else if d == 8 {
        "8"
    } else {
        "9"
    };
    assert(s@ =~= seq![digit_char(d as int)]);
    s
}

/// Appends `n` in decimal to `text`.
pub fn push_decimal(text: &mut String, n: u128)
    ensures
        final(text)@ == old(text)@ + decimal(n as nat),
    decreases n,
{
    if n >= 10 {
        push_decimal(text, n / 10);
    }
    let d: u8 = (n % 10) as u8;
    text.append(digit_str(d));
    assert(text@ =~= old(text)@ + decimal(n as nat));
}

/// Appends the placeholder `$n` to `text`.
fn push_placeholder(text: &mut String, n: u128)
    ensures
        final(text)@ == old(text)@ + placeholder(n as nat),
{
    text.append("$");
    push_decimal(text, n);
    assert(text@ =~= old(text)@ + placeholder(n as nat));
}

/// Appends a column to `text`: the placeholder `$n` where it binds a value,
/// NULL where it does not.
fn push_column(text: &mut String, binds: bool, n: u128)
    ensures
        final(text)@ == old(text)@ + column(binds, n as nat),
{
    if binds {
        push_placeholder(text, n);
    } else {
        text.append("NULL");
    }
}

/// Appends `value` to `params`.
fn push_value(params: &mut Vec<SqlValue>, value: SqlValue)
    ensures
        value_views(final(params)@) == value_views(old(params)@).push(value@),
{
    params.push(value);
    assert(value_views(params@) =~= value_views(old(params)@).push(value@));
}

/// The row of `node` in the statement, where `used` placeholders stand
/// before it.
fn row_string(node: &Node, used: u128) -> (row: String)
    requires
        used + 6 <= u128::MAX,
    ensures
        row@ == row_text(node@, used as nat),
{
    let parent: bool = node.parent_hash.len() > 0;
    let data: bool = node.data_hash.len() > 0;
    let mut next: u128 = used + 2;
    let mut row = String::from_str("(");
    push_placeholder(&mut row, used + 1);
    row.append(",");
    push_column(&mut row, parent, next);
    if parent {
        next += 1;
    }
    row.append(",");
    push_column(&mut row, data, next);
    if data {
        next += 1;
    }
    row.append(",");
    push_placeholder(&mut row, next);
    row.append(",");
    push_placeholder(&mut row, next + 1);
    row.append(",");
    push_placeholder(&mut row, next + 2);
    row.append(")");
    row
}

/// Appends the values that the row of `node` binds to `params`, and gives
/// their number.
fn push_row_params(params: &mut Vec<SqlValue>, node: &Node) -> (added: u128)
    ensures
        value_views(final(params)@) == value_views(old(params)@) + row_params(node@),
        added == row_params(node@).len(),
        4 <= added <= 6,
{
    let mut added: u128 = 4;
    push_value(params, SqlValue::Bytes(copy_bytes(node.hash.as_slice())));
    if node.parent_hash.len() > 0 {
        push_value(params, SqlValue::Bytes(copy_bytes(node.parent_hash.as_slice())));
        added += 1;
    }
    if node.data_hash.len() > 0 {
        push_value(params, SqlValue::Bytes(copy_bytes(node.data_hash.as_slice())));
        added += 1;
    }
    push_value(params, SqlValue::Bytes(copy_bytes(node.metadata.as_slice())));
    push_value(params, SqlValue::Bytes(copy_bytes(node.metadata_hash.as_slice())));
    push_value(params, SqlValue::Flag(node.is_dir()));
    assert(value_views(params@) =~= value_views(old(params)@) + row_params(node@));
    added
}

/// The statement that upserts the nodes of `ctx`, and the values it binds.
pub fn upsert_statement(ctx: &Vec<Node>) -> (built: (String, Vec<SqlValue>))
    ensures
        built.0@ == spec_statement(node_views(ctx@)),
        value_views(built.1@) == spec_params(node_views(ctx@)),
{
    let ghost all = node_views(ctx@);
    let mut text = String::from_str(
        "INSERT INTO nodes (hash, parent_hash, data_hash, metadata, metadata_hash, is_dir) VALUES ",
    );
    let mut params: Vec<SqlValue> = Vec::new();
    let mut used: u128 = 0;
    let mut i: usize = 0;
    assert(value_views(params@) =~= spec_params(all.take(0)));
    assert(text@ =~= statement_head() + rows_text(all.take(0)));
    while i < ctx.len()
        invariant
            i <= ctx.len(),
            all == node_views(ctx@),
            used <= 6 * i,
            used == spec_params(all.take(i as int)).len(),
            value_views(params@) == spec_params(all.take(i as int)),
            text@ == statement_head() + rows_text(all.take(i as int)),
        decreases ctx.len() - i,
    {
        proof {
            let grown = all.take(i + 1);
            assert(grown.drop_last() =~= all.take(i as int));
            assert(grown.last() == ctx@[i as int]@);
        }
        if i > 0 {
            text.append(",");
        }
        let row = row_string(&ctx[i], used);
        text.append(row.as_str());
        let added = push_row_params(&mut params, &ctx[i]);
        used = used + added;
        proof {
            let grown = all.take(i + 1);
            assert(text@ =~= statement_head() + rows_text(grown));
        }
        i += 1;
    }
    assert(all.take(all.len() as int) == all);
    text.append(" ON CONFLICT (hash) DO UPDATE SET parent_hash = EXCLUDED.parent_hash;");
    (text, params)
}

/// The payload to store: that of the last node of `ctx` that carries one.
pub fn payload_of(ctx: &Vec<Node>) -> (found: Option<Payload>)
    ensures
        match found {
            Some(p) => spec_payload(node_views(ctx@)) == Some(p@),
            None => spec_payload(node_views(ctx@)) is None,
        },
{
    let ghost all = node_views(ctx@);
    let mut i: usize = ctx.len();
    assert(all.take(all.len() as int) == all);
    while i > 0
        invariant
            i <= ctx.len(),
            all == node_views(ctx@),
            spec_payload(all) == spec_payload(all.take(i as int)),
        decreases i,
    {
        i -= 1;
        proof {
            let head = all.take(i + 1);
            assert(head.drop_last() =~= all.take(i as int));
            assert(head.last() == ctx@[i as int]@);
        }
        if ctx[i].data.len() > 0 {
            return Some(
                Payload {
                    hash: copy_bytes(ctx[i].hash.as_slice()),
                    data: copy_bytes(ctx[i].data.as_slice()),
                },
            );
        }
    }
    None
}

/// Everything that has to be written for the changed context `ctx`.
///
/// Every node goes into one statement: its row binds its digest, its
/// parent's digest unless it is the root, its data digest if it has one, its
/// metadata and metadata digest, and whether it is a directory. The root
/// pointer is set to the digest of the root. The payload is that of the last
/// node that carries one.
///
/// Fails with `InconsistentTree` where `ctx` has not exactly one root that
/// is a directory.
pub fn write_plan(ctx: &Vec<Node>) -> (plan: Result<WritePlan, TreeError>)
    ensures
        match plan {
            Ok(p) => spec_write_plan(node_views(ctx@)) == Ok::<WritePlanView, TreeError>(p@),
            Err(e) => spec_write_plan(node_views(ctx@)) == Err::<WritePlanView, TreeError>(e),
        },
{
    let top = match top_hash(ctx) {
        Err(e) => {
            return Err(e);
        },
        Ok(h) => h,
    };
    let (statement, params) = upsert_statement(ctx);
    let payload = payload_of(ctx);
    Ok(WritePlan { statement, params, top_hash: top, payload })
}

} // verus!
