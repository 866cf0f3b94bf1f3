//! Decoder for the pgoutput binary protocol, proto_version 1.
//!
//! Only the message kinds the worker needs are modelled. Origin ('O'),
//! logical message ('M') and type ('Y') messages are ignored.

use std::collections::HashMap;

use vstd::prelude::*;
use vstd::utf8::{decode_utf8, valid_utf8};

use crate::text;
use crate::text::{byte_hex, decimal, view_of_option, views};

verus! {

broadcast use {vstd::seq_lib::group_seq_properties, vstd::std_specs::hash::group_hash_axioms};

// --- tags ------------------------------------------------------------------------

/// `n`: a NULL column.
pub const TAG_NULL: u8 = 110;

/// `u`: a TOASTed column that did not change and was not sent.
pub const TAG_UNCHANGED: u8 = 117;

/// `t`: a column sent as text.
pub const TAG_TEXT: u8 = 116;

/// `N`: the new row of a change.
pub const TAG_NEW: u8 = 78;

/// `K`: an old row that carries only the key.
pub const TAG_KEY: u8 = 75;

/// `O`: a complete old row (REPLICA IDENTITY FULL).
pub const TAG_OLD: u8 = 79;

/// `B`
pub const KIND_BEGIN: u8 = 66;

/// `C`
pub const KIND_COMMIT: u8 = 67;

/// `R`
pub const KIND_RELATION: u8 = 82;

/// `I`
pub const KIND_INSERT: u8 = 73;

/// `U`
pub const KIND_UPDATE: u8 = 85;

/// `D`
pub const KIND_DELETE: u8 = 68;

/// `T`
pub const KIND_TRUNCATE: u8 = 84;

/// `O`
pub const KIND_ORIGIN: u8 = 79;

/// `M`
pub const KIND_MESSAGE: u8 = 77;

/// `Y`
pub const KIND_TYPE: u8 = 89;

// --- messages --------------------------------------------------------------------

#[derive(Debug)]
pub struct RelationColumn {
    pub name: String,
    pub is_key: bool,
    pub typid: u32,
    pub typmod: i32,
    /// Filled lazily via format_type() so decoded text can be cast back.
    pub resolved_type: Option<String>,
}

#[derive(Debug)]
pub struct Relation {
    pub id: u32,
    pub namespace: String,
    pub name: String,
    pub replident: u8,
    pub columns: Vec<RelationColumn>,
}

#[derive(Debug, PartialEq, Eq)]
pub enum ColumnValue {
    Null,
    /// Unchanged TOASTed value that pgoutput did not send.
    Unchanged,
    Text(String),
}

pub type Tuple = Vec<ColumnValue>;

#[derive(Debug)]
#[allow(inconsistent_fields)]
pub enum Message {
    Begin { final_lsn: u64, xid: u32 },
    Commit { commit_lsn: u64, end_lsn: u64 },
    Relation(Relation),
    Insert { relid: u32, new: Tuple },
    Update { relid: u32, old: Option<(u8, Tuple)>, new: Tuple },
    Delete { relid: u32, key_kind: u8, old: Tuple },
    Truncate { relids: Vec<u32> },
    Ignored(u8),
}

/// One decoded row change inside a source transaction.
#[derive(Debug)]
#[allow(inconsistent_fields)]
pub enum Change {
    Insert { relid: u32, new: Tuple },
    Update { relid: u32, old: Option<(u8, Tuple)>, new: Tuple },
    Delete { relid: u32, key_kind: u8, old: Tuple },
    Truncate { relids: Vec<u32> },
}

/// A complete source transaction (Begin .. Commit).
#[derive(Debug)]
pub struct SourceTransaction {
    pub xid: u32,
    pub commit_lsn: u64,
    pub end_lsn: u64,
    pub changes: Vec<Change>,
}

// --- models ----------------------------------------------------------------------

pub struct ColumnModel {
    pub name: Seq<char>,
    pub is_key: bool,
    pub typid: u32,
    pub typmod: i32,
    pub resolved_type: Option<Seq<char>>,
}

pub struct RelationModel {
    pub id: u32,
    pub namespace: Seq<char>,
    pub name: Seq<char>,
    pub replident: u8,
    pub columns: Seq<ColumnModel>,
}

pub enum Cell {
    Null,
    Unchanged,
    Text(Seq<char>),
}

#[allow(inconsistent_fields)]
pub enum ChangeModel {
    Insert { relid: u32, new: Seq<Cell> },
    Update { relid: u32, old: Option<(u8, Seq<Cell>)>, new: Seq<Cell> },
    Delete { relid: u32, key_kind: u8, old: Seq<Cell> },
    Truncate { relids: Seq<u32> },
}

pub enum MessageModel {
    Begin { final_lsn: u64, xid: u32 },
    Commit { commit_lsn: u64, end_lsn: u64 },
    Relation(RelationModel),
    Change(ChangeModel),
    Ignored(u8),
}

pub struct TransactionModel {
    pub xid: u32,
    pub commit_lsn: u64,
    pub end_lsn: u64,
    pub changes: Seq<ChangeModel>,
}

impl View for RelationColumn {
    type V = ColumnModel;

    open spec fn view(&self) -> ColumnModel {
        ColumnModel {
            name: self.name@,
            is_key: self.is_key,
            typid: self.typid,
            typmod: self.typmod,
            resolved_type: view_of_option(self.resolved_type),
        }
    }
}

impl View for Relation {
    type V = RelationModel;

    open spec fn view(&self) -> RelationModel {
        RelationModel {
            id: self.id,
            namespace: self.namespace@,
            name: self.name@,
            replident: self.replident,
            columns: views(self.columns@),
        }
    }
}

impl View for ColumnValue {
    type V = Cell;

    open spec fn view(&self) -> Cell {
        match self {
            ColumnValue::Null => Cell::Null,
            ColumnValue::Unchanged => Cell::Unchanged,
            ColumnValue::Text(s) => Cell::Text(s@),
        }
    }
}

/// The old row of an update, with the tag that says whether it is whole.
pub open spec fn old_view(old: Option<(u8, Tuple)>) -> Option<(u8, Seq<Cell>)> {
    match old {
        Some((kind, tuple)) => Some((kind, views(tuple@))),
        None => None,
    }
}

impl View for Change {
    type V = ChangeModel;

    open spec fn view(&self) -> ChangeModel {
        match self {
            Change::Insert { relid, new } => ChangeModel::Insert { relid: *relid, new: views(new@) },
            Change::Update { relid, old, new } => ChangeModel::Update {
                relid: *relid,
                old: old_view(*old),
                new: views(new@),
            },
            Change::Delete { relid, key_kind, old } => ChangeModel::Delete {
                relid: *relid,
                key_kind: *key_kind,
                old: views(old@),
            },
            Change::Truncate { relids } => ChangeModel::Truncate { relids: relids@ },
        }
    }
}

impl View for Message {
    type V = MessageModel;

    open spec fn view(&self) -> MessageModel {
        match self {
            Message::Begin { final_lsn, xid } => MessageModel::Begin {
                final_lsn: *final_lsn,
                xid: *xid,
            },
            Message::Commit { commit_lsn, end_lsn } => MessageModel::Commit {
                commit_lsn: *commit_lsn,
                end_lsn: *end_lsn,
            },
            Message::Relation(relation) => MessageModel::Relation(relation@),
            Message::Insert { relid, new } => MessageModel::Change(
                ChangeModel::Insert { relid: *relid, new: views(new@) },
            ),
            Message::Update { relid, old, new } => MessageModel::Change(
                ChangeModel::Update { relid: *relid, old: old_view(*old), new: views(new@) },
            ),
            Message::Delete { relid, key_kind, old } => MessageModel::Change(
                ChangeModel::Delete { relid: *relid, key_kind: *key_kind, old: views(old@) },
            ),
            Message::Truncate { relids } => MessageModel::Change(
                ChangeModel::Truncate { relids: relids@ },
            ),
            Message::Ignored(kind) => MessageModel::Ignored(*kind),
        }
    }
}

impl View for SourceTransaction {
    type V = TransactionModel;

    open spec fn view(&self) -> TransactionModel {
        TransactionModel {
            xid: self.xid,
            commit_lsn: self.commit_lsn,
            end_lsn: self.end_lsn,
            changes: views(self.changes@),
        }
    }
}

impl Clone for ColumnValue {
    fn clone(&self) -> (result: Self)
        ensures
            result == *self,
    {
        match self {
            ColumnValue::Null => ColumnValue::Null,
            ColumnValue::Unchanged => ColumnValue::Unchanged,
            ColumnValue::Text(s) => ColumnValue::Text(s.clone()),
        }
    }
}

impl Clone for RelationColumn {
    fn clone(&self) -> (result: Self)
        ensures
            result == *self,
    {
        RelationColumn {
            name: self.name.clone(),
            is_key: self.is_key,
            typid: self.typid,
            typmod: self.typmod,
            resolved_type: self.resolved_type.clone(),
        }
    }
}

impl Clone for Relation {
    fn clone(&self) -> (result: Self)
        ensures
            result@ == self@,
    {
        let columns = self.columns.clone();
        assert(columns@ =~= self.columns@);
        Relation {
            id: self.id,
            namespace: self.namespace.clone(),
            name: self.name.clone(),
            replident: self.replident,
            columns,
        }
    }
}

/// A copy of a row.
pub fn clone_tuple(tuple: &Tuple) -> (result: Tuple)
    ensures
        result@ == tuple@,
{
    let copy = tuple.clone();
    assert(copy@ =~= tuple@);
    copy
}

// --- the wire format -------------------------------------------------------------

/// What `String::from_utf8_lossy` makes of bytes that are not valid UTF-8.
pub uninterp spec fn lossy(bytes: Seq<u8>) -> Seq<char>;

/// The text that bytes stand for: their UTF-8 decoding, where they have one.
pub open spec fn text_of(bytes: Seq<u8>) -> Seq<char> {
    if valid_utf8(bytes) {
        decode_utf8(bytes)
    } else {
        lossy(bytes)
    }
}

/// `String::from_utf8_lossy`: valid UTF-8 is decoded; what it makes of other
/// bytes, where it puts replacement characters, is named `lossy`.
#[verifier::external_body]
fn lossy_text(bytes: &[u8]) -> (result: String)
    ensures
        result@ == (if valid_utf8(bytes@) {
            decode_utf8(bytes@)
        } else {
            lossy(bytes@)
        }),
{
    String::from_utf8_lossy(bytes).into_owned()
}

/// The unsigned number that bytes write, the most significant one first.
pub open spec fn big_endian(bytes: Seq<u8>) -> nat
    decreases bytes.len(),
{
    if bytes.len() == 0 {
        0
    } else {
        big_endian(bytes.drop_last()) * 256 + bytes.last() as nat
    }
}

/// The two's complement reading of an unsigned number below `2 * half`.
pub open spec fn two_complement(n: nat, half: nat) -> int {
    if n < half {
        n as int
    } else {
        n - 2 * half
    }
}

/// What reading at a position gives: a value and the position behind it, or
/// the error.
pub type Reading<T> = Result<(T, int), Seq<char>>;

pub open spec fn truncated(wanted: int, pos: int, have: int) -> Seq<char> {
    "truncated pgoutput message: wanted "@ + decimal(wanted as nat) + " bytes at offset "@ + decimal(
        pos as nat,
    ) + ", have "@ + decimal(have as nat)
}

pub open spec fn take_at(data: Seq<u8>, pos: int, n: int) -> Reading<Seq<u8>> {
    if pos + n > data.len() {
        Err(truncated(n, pos, data.len() as int))
    } else {
        Ok((data.subrange(pos, pos + n), pos + n))
    }
}

pub open spec fn u8_at(data: Seq<u8>, pos: int) -> Reading<u8> {
    match take_at(data, pos, 1) {
        Ok((bytes, next)) => Ok((bytes[0], next)),
        Err(e) => Err(e),
    }
}

pub open spec fn i16_at(data: Seq<u8>, pos: int) -> Reading<i16> {
    match take_at(data, pos, 2) {
        Ok((bytes, next)) => Ok((two_complement(big_endian(bytes), 0x8000) as i16, next)),
        Err(e) => Err(e),
    }
}

pub open spec fn i32_at(data: Seq<u8>, pos: int) -> Reading<i32> {
    match take_at(data, pos, 4) {
        Ok((bytes, next)) => Ok((two_complement(big_endian(bytes), 0x8000_0000) as i32, next)),
        Err(e) => Err(e),
    }
}

pub open spec fn u32_at(data: Seq<u8>, pos: int) -> Reading<u32> {
    match take_at(data, pos, 4) {
        Ok((bytes, next)) => Ok((big_endian(bytes) as u32, next)),
        Err(e) => Err(e),
    }
}

pub open spec fn u64_at(data: Seq<u8>, pos: int) -> Reading<u64> {
    match take_at(data, pos, 8) {
        Ok((bytes, next)) => Ok((big_endian(bytes) as u64, next)),
        Err(e) => Err(e),
    }
}

/// The first zero byte at or behind `pos`.
pub open spec fn zero_from(data: Seq<u8>, pos: int) -> Option<int>
    decreases data.len() - pos,
{
    if pos < 0 || pos >= data.len() {
        None
    } else if data[pos] == 0 {
        Some(pos)
    } else {
        zero_from(data, pos + 1)
    }
}

pub open spec fn cstring_at(data: Seq<u8>, pos: int) -> Reading<Seq<char>> {
    match zero_from(data, pos) {
        Some(end) => Ok((text_of(data.subrange(pos, end)), end + 1)),
        None => Err("unterminated string in pgoutput message"@),
    }
}

/// One column of a row: a tag, and for text its length and bytes.
pub open spec fn cell_at(data: Seq<u8>, pos: int) -> Reading<Cell> {
    match u8_at(data, pos) {
        Err(e) => Err(e),
        Ok((tag, body)) => if tag == TAG_NULL {
            Ok((Cell::Null, body))
        } else if tag == TAG_UNCHANGED {
            Ok((Cell::Unchanged, body))
        } else if tag == TAG_TEXT {
            match i32_at(data, body) {
                Err(e) => Err(e),
                Ok((len, start)) => match take_at(
                    data,
                    start,
                    if len > 0 {
                        len as int
                    } else {
                        0
                    },
                ) {
                    Err(e) => Err(e),
                    Ok((bytes, next)) => Ok((Cell::Text(text_of(bytes)), next)),
                },
            }
        } else {
            Err("unknown tuple column tag "@ + byte_hex(tag))
        },
    }
}

/// `n` columns one behind the other; none for a count below one.
pub open spec fn cells_at(data: Seq<u8>, pos: int, n: int) -> Reading<Seq<Cell>>
    decreases n,
{
    if n <= 0 {
        Ok((Seq::empty(), pos))
    } else {
        match cell_at(data, pos) {
            Err(e) => Err(e),
            Ok((cell, next)) => match cells_at(data, next, n - 1) {
                Err(e) => Err(e),
                Ok((rest, end)) => Ok((seq![cell] + rest, end)),
            },
        }
    }
}

/// A row: the number of its columns, then the columns.
pub open spec fn tuple_at(data: Seq<u8>, pos: int) -> Reading<Seq<Cell>> {
    match i16_at(data, pos) {
        Err(e) => Err(e),
        Ok((n, start)) => cells_at(data, start, n as int),
    }
}

/// One column of a relation: flags, name, type and type modifier.
pub open spec fn column_at(data: Seq<u8>, pos: int) -> Reading<ColumnModel> {
    match u8_at(data, pos) {
        Err(e) => Err(e),
        Ok((flags, p1)) => match cstring_at(data, p1) {
            Err(e) => Err(e),
            Ok((name, p2)) => match u32_at(data, p2) {
                Err(e) => Err(e),
                Ok((typid, p3)) => match i32_at(data, p3) {
                    Err(e) => Err(e),
                    Ok((typmod, p4)) => Ok(
                        (
                            ColumnModel { name, is_key: flags % 2 == 1, typid, typmod, resolved_type: None },
                            p4,
                        ),
                    ),
                },
            },
        },
    }
}

pub open spec fn columns_at(data: Seq<u8>, pos: int, n: int) -> Reading<Seq<ColumnModel>>
    decreases n,
{
    if n <= 0 {
        Ok((Seq::empty(), pos))
    } else {
        match column_at(data, pos) {
            Err(e) => Err(e),
            Ok((column, next)) => match columns_at(data, next, n - 1) {
                Err(e) => Err(e),
                Ok((rest, end)) => Ok((seq![column] + rest, end)),
            },
        }
    }
}

pub open spec fn relids_at(data: Seq<u8>, pos: int, n: int) -> Reading<Seq<u32>>
    decreases n,
{
    if n <= 0 {
        Ok((Seq::empty(), pos))
    } else {
        match u32_at(data, pos) {
            Err(e) => Err(e),
            Ok((relid, next)) => match relids_at(data, next, n - 1) {
                Err(e) => Err(e),
                Ok((rest, end)) => Ok((seq![relid] + rest, end)),
            },
        }
    }
}

pub open spec fn begin_at(data: Seq<u8>, pos: int) -> Result<MessageModel, Seq<char>> {
    match u64_at(data, pos) {
        Err(e) => Err(e),
        Ok((final_lsn, p1)) => match u64_at(data, p1) {
            Err(e) => Err(e),
            Ok((_, p2)) => match u32_at(data, p2) {
                Err(e) => Err(e),
                Ok((xid, _)) => Ok(MessageModel::Begin { final_lsn, xid }),
            },
        },
    }
}

pub open spec fn commit_at(data: Seq<u8>, pos: int) -> Result<MessageModel, Seq<char>> {
    match u8_at(data, pos) {
        Err(e) => Err(e),
        Ok((_, p1)) => match u64_at(data, p1) {
            Err(e) => Err(e),
            Ok((commit_lsn, p2)) => match u64_at(data, p2) {
                Err(e) => Err(e),
                Ok((end_lsn, p3)) => match u64_at(data, p3) {
                    Err(e) => Err(e),
                    Ok(_) => Ok(MessageModel::Commit { commit_lsn, end_lsn }),
                },
            },
        },
    }
}

pub open spec fn relation_at(data: Seq<u8>, pos: int) -> Result<MessageModel, Seq<char>> {
    match u32_at(data, pos) {
        Err(e) => Err(e),
        Ok((id, p1)) => match cstring_at(data, p1) {
            Err(e) => Err(e),
            Ok((namespace, p2)) => match cstring_at(data, p2) {
                Err(e) => Err(e),
                Ok((name, p3)) => match u8_at(data, p3) {
                    Err(e) => Err(e),
                    Ok((replident, p4)) => match i16_at(data, p4) {
                        Err(e) => Err(e),
                        Ok((n, p5)) => match columns_at(data, p5, n as int) {
                            Err(e) => Err(e),
                            Ok((columns, _)) => Ok(
                                MessageModel::Relation(
                                    RelationModel { id, namespace, name, replident, columns },
                                ),
                            ),
                        },
                    },
                },
            },
        },
    }
}

pub open spec fn insert_at(data: Seq<u8>, pos: int) -> Result<MessageModel, Seq<char>> {
    match u32_at(data, pos) {
        Err(e) => Err(e),
        Ok((relid, p1)) => match u8_at(data, p1) {
            Err(e) => Err(e),
            Ok((tag, p2)) => if tag != TAG_NEW {
                Err("insert message: expected 'N', got "@ + byte_hex(tag))
            } else {
                match tuple_at(data, p2) {
                    Err(e) => Err(e),
                    Ok((new, _)) => Ok(MessageModel::Change(ChangeModel::Insert { relid, new })),
                }
            },
        },
    }
}

/// The new row of an update, behind the old one if there was any.
pub open spec fn update_new_at(
    data: Seq<u8>,
    pos: int,
    relid: u32,
    old: Option<(u8, Seq<Cell>)>,
    tag: u8,
) -> Result<MessageModel, Seq<char>> {
    if tag != TAG_NEW {
        Err("update message: expected 'N', got "@ + byte_hex(tag))
    } else {
        match tuple_at(data, pos) {
            Err(e) => Err(e),
            Ok((new, _)) => Ok(MessageModel::Change(ChangeModel::Update { relid, old, new })),
        }
    }
}

pub open spec fn update_at(data: Seq<u8>, pos: int) -> Result<MessageModel, Seq<char>> {
    match u32_at(data, pos) {
        Err(e) => Err(e),
        Ok((relid, p1)) => match u8_at(data, p1) {
            Err(e) => Err(e),
            Ok((tag, p2)) => if tag == TAG_KEY || tag == TAG_OLD {
                match tuple_at(data, p2) {
                    Err(e) => Err(e),
                    Ok((old, p3)) => match u8_at(data, p3) {
                        Err(e) => Err(e),
                        Ok((next_tag, p4)) => update_new_at(data, p4, relid, Some((tag, old)), next_tag),
                    },
                }
            } else {
                update_new_at(data, p2, relid, None, tag)
            },
        },
    }
}

pub open spec fn delete_at(data: Seq<u8>, pos: int) -> Result<MessageModel, Seq<char>> {
    match u32_at(data, pos) {
        Err(e) => Err(e),
        Ok((relid, p1)) => match u8_at(data, p1) {
            Err(e) => Err(e),
            Ok((key_kind, p2)) => if key_kind != TAG_KEY && key_kind != TAG_OLD {
                Err("delete message: expected 'K' or 'O', got "@ + byte_hex(key_kind))
            } else {
                match tuple_at(data, p2) {
                    Err(e) => Err(e),
                    Ok((old, _)) => Ok(
                        MessageModel::Change(ChangeModel::Delete { relid, key_kind, old }),
                    ),
                }
            },
        },
    }
}

pub open spec fn truncate_at(data: Seq<u8>, pos: int) -> Result<MessageModel, Seq<char>> {
    match i32_at(data, pos) {
        Err(e) => Err(e),
        Ok((n, p1)) => match u8_at(data, p1) {
            Err(e) => Err(e),
            Ok((_, p2)) => match relids_at(data, p2, n as int) {
                Err(e) => Err(e),
                Ok((relids, _)) => Ok(MessageModel::Change(ChangeModel::Truncate { relids })),
            },
        },
    }
}

/// The message that bytes hold, or what is wrong with them. The first byte is
/// the kind of the message.
pub open spec fn decoded(data: Seq<u8>) -> Result<MessageModel, Seq<char>> {
    match u8_at(data, 0) {
        Err(e) => Err(e),
        Ok((kind, body)) => if kind == KIND_BEGIN {
            begin_at(data, body)
        } else if kind == KIND_COMMIT {
            commit_at(data, body)
        } else if kind == KIND_RELATION {
            relation_at(data, body)
        } else if kind == KIND_INSERT {
            insert_at(data, body)
        } else if kind == KIND_UPDATE {
            update_at(data, body)
        } else if kind == KIND_DELETE {
            delete_at(data, body)
        } else if kind == KIND_TRUNCATE {
            truncate_at(data, body)
        } else if kind == KIND_ORIGIN || kind == KIND_MESSAGE || kind == KIND_TYPE {
            Ok(MessageModel::Ignored(kind))
        } else {
            Err("unknown pgoutput message kind "@ + byte_hex(kind))
        },
    }
}

// --- the reader ------------------------------------------------------------------

/// A reader of a message: its bytes, and how far they are read.
pub struct Reader<'a> {
    pub data: &'a [u8],
    pub pos: usize,
}

impl<'a> Reader<'a> {
    pub open spec fn wf(&self) -> bool {
        self.pos <= self.data@.len()
    }

    /// The reader stands behind the value that `reading` promised, or `reading`
    /// promised the error.
    pub open spec fn reads<T, V>(
        before: Reader<'a>,
        after: Reader<'a>,
        result: Result<T, String>,
        value: spec_fn(T) -> V,
        reading: Reading<V>,
    ) -> bool {
        &&& after.data@ == before.data@
        &&& match result {
            Ok(v) => after.wf() && reading == Ok::<(V, int), Seq<char>>((value(v), after.pos as int)),
            Err(e) => reading == Err::<(V, int), Seq<char>>(e@),
        }
    }

    fn take(&mut self, n: usize) -> (result: Result<&'a [u8], String>)
        requires
            old(self).wf(),
        ensures
            Self::reads(
                *old(self),
                *final(self),
                result,
                |bytes: &'a [u8]| bytes@,
                take_at(old(self).data@, old(self).pos as int, n as int),
            ),
    {
        if n > self.data.len() - self.pos {
            return Err(
                "truncated pgoutput message: wanted ".to_string().concat(
                    &text::decimal_text(n as u64),
                ).concat(" bytes at offset ").concat(&text::decimal_text(self.pos as u64)).concat(
                    ", have ",
                ).concat(&text::decimal_text(self.data.len() as u64)),
            );
        }
        let out = vstd::slice::slice_subrange(self.data, self.pos, self.pos + n);
        self.pos = self.pos + n;
        Ok(out)
    }

    fn u8(&mut self) -> (result: Result<u8, String>)
        requires
            old(self).wf(),
        ensures
            Self::reads(
                *old(self),
                *final(self),
                result,
                |v: u8| v,
                u8_at(old(self).data@, old(self).pos as int),
            ),
    {
        match self.take(1) {
            Ok(bytes) => Ok(bytes[0]),
            Err(e) => Err(e),
        }
    }

    fn i16(&mut self) -> (result: Result<i16, String>)
        requires
            old(self).wf(),
        ensures
            Self::reads(
                *old(self),
                *final(self),
                result,
                |v: i16| v,
                i16_at(old(self).data@, old(self).pos as int),
            ),
    {
        match self.take(2) {
            Ok(bytes) => {
                let n: u64 = big_endian_of(bytes);
                proof {
                    reveal_with_fuel(capacity, 3);
                }
                if n < 0x8000 {
                    Ok(n as i16)
                } else {
                    Ok((n as i32 - 0x1_0000) as i16)
                }
            },
            Err(e) => Err(e),
        }
    }

    fn i32(&mut self) -> (result: Result<i32, String>)
        requires
            old(self).wf(),
        ensures
            Self::reads(
                *old(self),
                *final(self),
                result,
                |v: i32| v,
                i32_at(old(self).data@, old(self).pos as int),
            ),
    {
        match self.take(4) {
            Ok(bytes) => {
                let n: u64 = big_endian_of(bytes);
                proof {
                    reveal_with_fuel(capacity, 5);
                }
                if n < 0x8000_0000 {
                    Ok(n as i32)
                } else {
                    Ok((n as i64 - 0x1_0000_0000) as i32)
                }
            },
            Err(e) => Err(e),
        }
    }

    fn u32(&mut self) -> (result: Result<u32, String>)
        requires
            old(self).wf(),
        ensures
            Self::reads(
                *old(self),
                *final(self),
                result,
                |v: u32| v,
                u32_at(old(self).data@, old(self).pos as int),
            ),
    {
        match self.take(4) {
            Ok(bytes) => {
                let n: u64 = big_endian_of(bytes);
                proof {
                    reveal_with_fuel(capacity, 5);
                }
                Ok(n as u32)
            },
            Err(e) => Err(e),
        }
    }

    fn u64(&mut self) -> (result: Result<u64, String>)
        requires
            old(self).wf(),
        ensures
            Self::reads(
                *old(self),
                *final(self),
                result,
                |v: u64| v,
                u64_at(old(self).data@, old(self).pos as int),
            ),
    {
        match self.take(8) {
            Ok(bytes) => Ok(big_endian_of(bytes)),
            Err(e) => Err(e),
        }
    }

    fn cstring(&mut self) -> (result: Result<String, String>)
        requires
            old(self).wf(),
        ensures
            Self::reads(
                *old(self),
                *final(self),
                result,
                |v: String| v@,
                cstring_at(old(self).data@, old(self).pos as int),
            ),
    {
        let start: usize = self.pos;
        let mut end: usize = start;
        while end < self.data.len() && self.data[end] != 0
            invariant
                *self == *old(self),
                start <= end <= self.data@.len(),
                zero_from(self.data@, start as int) == zero_from(self.data@, end as int),
            decreases self.data@.len() - end,
        {
            end = end + 1;
        }
        if end == self.data.len() {
            return Err("unterminated string in pgoutput message".to_string());
        }
        let s = lossy_text(vstd::slice::slice_subrange(self.data, start, end));
        self.pos = end + 1;
        Ok(s)
    }

    fn cell(&mut self) -> (result: Result<ColumnValue, String>)
        requires
            old(self).wf(),
        ensures
            Self::reads(
                *old(self),
                *final(self),
                result,
                |v: ColumnValue| v@,
                cell_at(old(self).data@, old(self).pos as int),
            ),
    {
        let tag = match self.u8() {
            Ok(tag) => tag,
            Err(e) => return Err(e),
        };
        if tag == TAG_NULL {
            Ok(ColumnValue::Null)
        } else if tag == TAG_UNCHANGED {
            Ok(ColumnValue::Unchanged)
        } else if tag == TAG_TEXT {
            let len = match self.i32() {
                Ok(len) => len,
                Err(e) => return Err(e),
            };
            let n: usize = if len > 0 {
                len as usize
            } else {
                0
            };
            match self.take(n) {
                Ok(bytes) => Ok(ColumnValue::Text(lossy_text(bytes))),
                Err(e) => Err(e),
            }
        } else {
            Err("unknown tuple column tag ".to_string().concat(&text::byte_hex_text(tag)))
        }
    }

    /// A row.
    pub fn tuple(&mut self) -> (result: Result<Tuple, String>)
        requires
            old(self).wf(),
        ensures
            Self::reads(
                *old(self),
                *final(self),
                result,
                |v: Tuple| views(v@),
                tuple_at(old(self).data@, old(self).pos as int),
            ),
    {
        let ncols = match self.i16() {
            Ok(ncols) => ncols,
            Err(e) => return Err(e),
        };
        let ghost data = self.data@;
        let ghost whole = cells_at(data, self.pos as int, ncols as int);
        let mut values: Tuple = Vec::new();
        let mut left: i16 = ncols;
        assert(match cells_at(data, self.pos as int, ncols as int) {
            Ok((rest, end)) => views(values@) + rest =~= rest,
            Err(e) => true,
        });
        while left > 0
            invariant
                self.wf(),
                self.data@ == data,
                data == old(self).data@,
                tuple_at(data, old(self).pos as int) == whole,
                left <= ncols,
                whole == match cells_at(data, self.pos as int, left as int) {
                    Ok((rest, end)) => Ok((views(values@) + rest, end)),
                    Err(e) => Err(e),
                },
            decreases left,
        {
            let ghost before = views(values@);
            match self.cell() {
                Ok(value) => {
                    values.push(value);
                    proof {
                        assert(views(values@) =~= before.push(value@));
                        if let Ok((rest, end)) = cells_at(data, self.pos as int, left - 1) {
                            assert(before + (seq![value@] + rest) =~= before.push(value@) + rest);
                        }
                    }
                },
                Err(e) => return Err(e),
            }
            left = left - 1;
        }
        assert(views(values@) + Seq::<Cell>::empty() =~= views(values@));
        Ok(values)
    }

    fn column(&mut self) -> (result: Result<RelationColumn, String>)
        requires
            old(self).wf(),
        ensures
            Self::reads(
                *old(self),
                *final(self),
                result,
                |v: RelationColumn| v@,
                column_at(old(self).data@, old(self).pos as int),
            ),
    {
        let flags = match self.u8() {
            Ok(flags) => flags,
            Err(e) => return Err(e),
        };
        let name = match self.cstring() {
            Ok(name) => name,
            Err(e) => return Err(e),
        };
        let typid = match self.u32() {
            Ok(typid) => typid,
            Err(e) => return Err(e),
        };
        let typmod = match self.i32() {
            Ok(typmod) => typmod,
            Err(e) => return Err(e),
        };
        assert(flags & 1 == flags % 2) by (bit_vector);
        Ok(RelationColumn { name, is_key: flags & 1 == 1, typid, typmod, resolved_type: None })
    }

    fn columns(&mut self, ncols: i16) -> (result: Result<Vec<RelationColumn>, String>)
        requires
            old(self).wf(),
        ensures
            Self::reads(
                *old(self),
                *final(self),
                result,
                |v: Vec<RelationColumn>| views(v@),
                columns_at(old(self).data@, old(self).pos as int, ncols as int),
            ),
    {
        let ghost data = self.data@;
        let ghost whole = columns_at(data, self.pos as int, ncols as int);
        let mut columns: Vec<RelationColumn> = Vec::new();
        let mut left: i16 = ncols;
        assert(match whole {
            Ok((rest, end)) => views(columns@) + rest =~= rest,
            Err(e) => true,
        });
        while left > 0
            invariant
                self.wf(),
                self.data@ == data,
                data == old(self).data@,
                columns_at(data, old(self).pos as int, ncols as int) == whole,
                left <= ncols,
                whole == match columns_at(data, self.pos as int, left as int) {
                    Ok((rest, end)) => Ok((views(columns@) + rest, end)),
                    Err(e) => Err(e),
                },
            decreases left,
        {
            let ghost before = views(columns@);
            match self.column() {
                Ok(column) => {
                    columns.push(column);
                    proof {
                        assert(views(columns@) =~= before.push(column@));
                        if let Ok((rest, end)) = columns_at(data, self.pos as int, left - 1) {
                            assert(before + (seq![column@] + rest) =~= before.push(column@) + rest);
                        }
                    }
                },
                Err(e) => return Err(e),
            }
            left = left - 1;
        }
        assert(views(columns@) + Seq::<ColumnModel>::empty() =~= views(columns@));
        Ok(columns)
    }

    fn relids(&mut self, n: i32) -> (result: Result<Vec<u32>, String>)
        requires
            old(self).wf(),
        ensures
            Self::reads(
                *old(self),
                *final(self),
                result,
                |v: Vec<u32>| v@,
                relids_at(old(self).data@, old(self).pos as int, n as int),
            ),
    {
        let ghost data = self.data@;
        let ghost whole = relids_at(data, self.pos as int, n as int);
        let mut relids: Vec<u32> = Vec::new();
        let mut left: i32 = n;
        assert(match whole {
            Ok((rest, end)) => relids@ + rest =~= rest,
            Err(e) => true,
        });
        while left > 0
            invariant
                self.wf(),
                self.data@ == data,
                data == old(self).data@,
                relids_at(data, old(self).pos as int, n as int) == whole,
                left <= n,
                whole == match relids_at(data, self.pos as int, left as int) {
                    Ok((rest, end)) => Ok((relids@ + rest, end)),
                    Err(e) => Err(e),
                },
            decreases left,
        {
            let ghost before = relids@;
            match self.u32() {
                Ok(relid) => {
                    relids.push(relid);
                    proof {
                        if let Ok((rest, end)) = relids_at(data, self.pos as int, left - 1) {
                            assert(before + (seq![relid] + rest) =~= before.push(relid) + rest);
                        }
                    }
                },
                Err(e) => return Err(e),
            }
            left = left - 1;
        }
        assert(relids@ + Seq::<u32>::empty() =~= relids@);
        Ok(relids)
    }
}

/// The number of values that `n` bytes can write.
spec fn capacity(n: nat) -> nat
    decreases n,
{
    if n == 0 {
        1
    } else {
        256 * capacity((n - 1) as nat)
    }
}

proof fn lemma_big_endian_bound(bytes: Seq<u8>)
    ensures
        big_endian(bytes) < capacity(bytes.len()),
    decreases bytes.len(),
{
    if bytes.len() > 0 {
        lemma_big_endian_bound(bytes.drop_last());
    }
}

fn big_endian_of(bytes: &[u8]) -> (result: u64)
    requires
        bytes@.len() <= 8,
    ensures
        result == big_endian(bytes@),
        result < capacity(bytes@.len()),
{
    let mut value: u64 = 0;
    let mut i: usize = 0;
    while i < bytes.len()
        invariant
            i <= bytes@.len() <= 8,
            value == big_endian(bytes@.take(i as int)),
        decreases bytes@.len() - i,
    {
        let ghost after = bytes@.take(i + 1);
        proof {
            assert(after.drop_last() =~= bytes@.take(i as int));
            assert(after.last() == bytes@[i as int]);
            lemma_big_endian_bound(after);
            reveal_with_fuel(capacity, 9);
        }
        value = value * 256 + bytes[i] as u64;
        i = i + 1;
    }
    assert(bytes@.take(bytes@.len() as int) =~= bytes@);
    proof {
        lemma_big_endian_bound(bytes@);
    }
    value
}

/// Decode one pgoutput message.
pub fn decode(data: &[u8]) -> (result: Result<Message, String>)
    ensures
        match result {
            Ok(message) => decoded(data@) == Ok::<MessageModel, Seq<char>>(message@),
            Err(e) => decoded(data@) == Err::<MessageModel, Seq<char>>(e@),
        },
{
    let mut r = Reader { data, pos: 0 };
    let kind = match r.u8() {
        Ok(kind) => kind,
        Err(e) => return Err(e),
    };
    if kind == KIND_BEGIN {
        decode_begin(r)
    } else if kind == KIND_COMMIT {
        decode_commit(r)
    } else if kind == KIND_RELATION {
        decode_relation(r)
    } else if kind == KIND_INSERT {
        decode_insert(r)
    } else if kind == KIND_UPDATE {
        decode_update(r)
    } else if kind == KIND_DELETE {
        decode_delete(r)
    } else if kind == KIND_TRUNCATE {
        decode_truncate(r)
    } else if kind == KIND_ORIGIN || kind == KIND_MESSAGE || kind == KIND_TYPE {
        Ok(Message::Ignored(kind))
    } else {
        Err("unknown pgoutput message kind ".to_string().concat(&text::byte_hex_text(kind)))
    }
}

spec fn decodes(result: Result<Message, String>, model: Result<MessageModel, Seq<char>>) -> bool {
    match result {
        Ok(message) => model == Ok::<MessageModel, Seq<char>>(message@),
        Err(e) => model == Err::<MessageModel, Seq<char>>(e@),
    }
}

fn decode_begin(reader: Reader<'_>) -> (result: Result<Message, String>)
    requires
        reader.wf(),
    ensures
        decodes(result, begin_at(reader.data@, reader.pos as int)),
{
    let mut r = reader;
    let final_lsn = match r.u64() {
        Ok(v) => v,
        Err(e) => return Err(e),
    };
    match r.u64() {
        Ok(_commit_ts) => {},
        Err(e) => return Err(e),
    }
    let xid = match r.u32() {
        Ok(v) => v,
        Err(e) => return Err(e),
    };
    Ok(Message::Begin { final_lsn, xid })
}

fn decode_commit(reader: Reader<'_>) -> (result: Result<Message, String>)
    requires
        reader.wf(),
    ensures
        decodes(result, commit_at(reader.data@, reader.pos as int)),
{
    let mut r = reader;
    match r.u8() {
        Ok(_flags) => {},
        Err(e) => return Err(e),
    }
    let commit_lsn = match r.u64() {
        Ok(v) => v,
        Err(e) => return Err(e),
    };
    let end_lsn = match r.u64() {
        Ok(v) => v,
        Err(e) => return Err(e),
    };
    match r.u64() {
        Ok(_ts) => {},
        Err(e) => return Err(e),
    }
    Ok(Message::Commit { commit_lsn, end_lsn })
}

fn decode_relation(reader: Reader<'_>) -> (result: Result<Message, String>)
    requires
        reader.wf(),
    ensures
        decodes(result, relation_at(reader.data@, reader.pos as int)),
{
    let mut r = reader;
    let id = match r.u32() {
        Ok(v) => v,
        Err(e) => return Err(e),
    };
    let namespace = match r.cstring() {
        Ok(v) => v,
        Err(e) => return Err(e),
    };
    let name = match r.cstring() {
        Ok(v) => v,
        Err(e) => return Err(e),
    };
    let replident = match r.u8() {
        Ok(v) => v,
        Err(e) => return Err(e),
    };
    let ncols = match r.i16() {
        Ok(v) => v,
        Err(e) => return Err(e),
    };
    let columns = match r.columns(ncols) {
        Ok(v) => v,
        Err(e) => return Err(e),
    };
    Ok(Message::Relation(Relation { id, namespace, name, replident, columns }))
}

fn decode_insert(reader: Reader<'_>) -> (result: Result<Message, String>)
    requires
        reader.wf(),
    ensures
        decodes(result, insert_at(reader.data@, reader.pos as int)),
{
    let mut r = reader;
    let relid = match r.u32() {
        Ok(v) => v,
        Err(e) => return Err(e),
    };
    let tag = match r.u8() {
        Ok(v) => v,
        Err(e) => return Err(e),
    };
    if tag != TAG_NEW {
        return Err(
            "insert message: expected 'N', got ".to_string().concat(&text::byte_hex_text(tag)),
        );
    }
    match r.tuple() {
        Ok(new) => Ok(Message::Insert { relid, new }),
        Err(e) => Err(e),
    }
}

fn decode_update(reader: Reader<'_>) -> (result: Result<Message, String>)
    requires
        reader.wf(),
    ensures
        decodes(result, update_at(reader.data@, reader.pos as int)),
{
    let mut r = reader;
    let relid = match r.u32() {
        Ok(v) => v,
        Err(e) => return Err(e),
    };
    let mut tag = match r.u8() {
        Ok(v) => v,
        Err(e) => return Err(e),
    };
    let mut old: Option<(u8, Tuple)> = None;
    if tag == TAG_KEY || tag == TAG_OLD {
        match r.tuple() {
            Ok(tuple) => {
                old = Some((tag, tuple));
            },
            Err(e) => return Err(e),
        }
        tag = match r.u8() {
            Ok(v) => v,
            Err(e) => return Err(e),
        };
    }
    if tag != TAG_NEW {
        return Err(
            "update message: expected 'N', got ".to_string().concat(&text::byte_hex_text(tag)),
        );
    }
    match r.tuple() {
        Ok(new) => Ok(Message::Update { relid, old, new }),
        Err(e) => Err(e),
    }
}

fn decode_delete(reader: Reader<'_>) -> (result: Result<Message, String>)
    requires
        reader.wf(),
    ensures
        decodes(result, delete_at(reader.data@, reader.pos as int)),
{
    let mut r = reader;
    let relid = match r.u32() {
        Ok(v) => v,
        Err(e) => return Err(e),
    };
    let key_kind = match r.u8() {
        Ok(v) => v,
        Err(e) => return Err(e),
    };
    if key_kind != TAG_KEY && key_kind != TAG_OLD {
        return Err(
            "delete message: expected 'K' or 'O', got ".to_string().concat(
                &text::byte_hex_text(key_kind),
            ),
        );
    }
    match r.tuple() {
        Ok(old) => Ok(Message::Delete { relid, key_kind, old }),
        Err(e) => Err(e),
    }
}

fn decode_truncate(reader: Reader<'_>) -> (result: Result<Message, String>)
    requires
        reader.wf(),
    ensures
        decodes(result, truncate_at(reader.data@, reader.pos as int)),
{
    let mut r = reader;
    let n = match r.i32() {
        Ok(v) => v,
        Err(e) => return Err(e),
    };
    match r.u8() {
        Ok(_flags) => {},
        Err(e) => return Err(e),
    }
    match r.relids(n) {
        Ok(relids) => Ok(Message::Truncate { relids }),
        Err(e) => Err(e),
    }
}

// --- the decoder -----------------------------------------------------------------

/// Groups decoded messages into complete transactions and keeps the relation cache.
pub struct Decoder {
    pub relations: HashMap<u32, Relation>,
    pub current: Option<SourceTransaction>,
    pub complete: Vec<SourceTransaction>,
}

pub struct DecoderModel {
    /// The latest definition of each relation.
    pub relations: Map<u32, RelationModel>,
    /// The transaction whose commit has not been read yet.
    pub current: Option<TransactionModel>,
    /// The complete transactions, in commit order.
    pub complete: Seq<TransactionModel>,
}

impl View for Decoder {
    type V = DecoderModel;

    open spec fn view(&self) -> DecoderModel {
        DecoderModel {
            relations: self.relations@.map_values(|r: Relation| r@),
            current: view_of_option(self.current),
            complete: views(self.complete@),
        }
    }
}

/// The columns of a relation that was announced again: a column that kept its
/// place, name and type keeps its resolved type name.
pub open spec fn retyped(columns: Seq<ColumnModel>, previous: Seq<ColumnModel>) -> Seq<ColumnModel> {
    Seq::new(
        columns.len(),
        |i: int|
            if i < previous.len() && columns[i].name == previous[i].name && columns[i].typid
                == previous[i].typid && columns[i].typmod == previous[i].typmod {
                ColumnModel { resolved_type: previous[i].resolved_type, ..columns[i] }
            } else {
                columns[i]
            },
    )
}

/// The state after a message, or why the message cannot come there.
pub open spec fn absorbed(state: DecoderModel, message: MessageModel) -> Result<
    DecoderModel,
    Seq<char>,
> {
    match message {
        MessageModel::Begin { final_lsn, xid } => if state.current is Some {
            Err("BEGIN while a transaction is already open"@)
        } else {
            Ok(
                DecoderModel {
                    current: Some(
                        TransactionModel {
                            xid,
                            commit_lsn: final_lsn,
                            end_lsn: 0,
                            changes: Seq::empty(),
                        },
                    ),
                    ..state
                },
            )
        },
        MessageModel::Commit { commit_lsn, end_lsn } => match state.current {
            None => Err("COMMIT without BEGIN"@),
            Some(tx) => Ok(
                DecoderModel {
                    current: None,
                    complete: state.complete.push(TransactionModel { commit_lsn, end_lsn, ..tx }),
                    ..state
                },
            ),
        },
        MessageModel::Relation(relation) => {
            let columns = if state.relations.contains_key(relation.id) {
                retyped(relation.columns, state.relations[relation.id].columns)
            } else {
                relation.columns
            };
            Ok(
                DecoderModel {
                    relations: state.relations.insert(
                        relation.id,
                        RelationModel { columns, ..relation },
                    ),
                    ..state
                },
            )
        },
        MessageModel::Change(change) => match state.current {
            None => Err("row change outside a transaction"@),
            Some(tx) => Ok(
                DecoderModel {
                    current: Some(TransactionModel { changes: tx.changes.push(change), ..tx }),
                    ..state
                },
            ),
        },
        MessageModel::Ignored(_) => Ok(state),
    }
}

/// The state after the bytes of a message.
pub open spec fn fed(state: DecoderModel, data: Seq<u8>) -> Result<DecoderModel, Seq<char>> {
    match decoded(data) {
        Ok(message) => absorbed(state, message),
        Err(e) => Err(e),
    }
}

fn keep_types(columns: Vec<RelationColumn>, previous: &Vec<RelationColumn>) -> (result: Vec<
    RelationColumn,
>)
    ensures
        views(result@) == retyped(views(columns@), views(previous@)),
{
    let mut out: Vec<RelationColumn> = Vec::new();
    let mut i: usize = 0;
    while i < columns.len()
        invariant
            i <= columns@.len(),
            out@.len() == i,
            forall|j: int|
                0 <= j < i ==> (#[trigger] out@[j])@ == retyped(
                    views(columns@),
                    views(previous@),
                )[j],
        decreases columns@.len() - i,
    {
        let mut column = columns[i].clone();
        if i < previous.len() {
            let before = &previous[i];
            if column.name == before.name && column.typid == before.typid && column.typmod
                == before.typmod {
                column.resolved_type = before.resolved_type.clone();
            }
        }
        out.push(column);
        i = i + 1;
    }
    assert(views(out@) =~= retyped(views(columns@), views(previous@)));
    out
}

impl Default for Decoder {
    fn default() -> (result: Self)
        ensures
            result@ == (DecoderModel {
                relations: Map::empty(),
                current: None,
                complete: Seq::empty(),
            }),
    {
        let d = Decoder { relations: HashMap::new(), current: None, complete: Vec::new() };
        assert(d@.relations =~= Map::empty());
        assert(d@.complete =~= Seq::empty());
        d
    }
}

impl Decoder {
    /// Decode one message and absorb it. On an error nothing changes.
    pub fn feed(&mut self, data: &[u8]) -> (result: Result<(), String>)
        ensures
            match result {
                Ok(()) => fed(old(self)@, data@) == Ok::<DecoderModel, Seq<char>>(final(self)@),
                Err(e) => fed(old(self)@, data@) == Err::<DecoderModel, Seq<char>>(e@)
                    && final(self)@ == old(self)@,
            },
    {
        let message = match decode(data) {
            Ok(message) => message,
            Err(e) => return Err(e),
        };
        match message {
            Message::Begin { final_lsn, xid } => {
                if self.current.is_some() {
                    return Err("BEGIN while a transaction is already open".to_string());
                }
                self.current = Some(
                    SourceTransaction { xid, commit_lsn: final_lsn, end_lsn: 0, changes: Vec::new() },
                );
                assert(self@.current->0.changes =~= Seq::empty());
                Ok(())
            },
            Message::Commit { commit_lsn, end_lsn } => {
                match self.current.take() {
                    None => Err("COMMIT without BEGIN".to_string()),
                    Some(open) => {
                        let mut tx = open;
                        tx.commit_lsn = commit_lsn;
                        tx.end_lsn = end_lsn;
                        self.complete.push(tx);
                        assert(self@.complete =~= old(self)@.complete.push(tx@));
                        Ok(())
                    },
                }
            },
            Message::Relation(announced) => {
                // Keep resolved type names when the relation definition is unchanged.
                let mut relation = announced;
                match self.relations.get(&relation.id) {
                    Some(previous) => {
                        relation.columns = keep_types(relation.columns, &previous.columns);
                    },
                    None => {},
                }
                let id: u32 = relation.id;
                let ghost inserted = relation@;
                self.relations.insert(id, relation);
                assert(self@.relations =~= old(self)@.relations.insert(id, inserted));
                Ok(())
            },
            Message::Insert { relid, new } => self.push(Change::Insert { relid, new }),
            Message::Update { relid, old, new } => self.push(Change::Update { relid, old, new }),
            Message::Delete { relid, key_kind, old } => self.push(
                Change::Delete { relid, key_kind, old },
            ),
            Message::Truncate { relids } => self.push(Change::Truncate { relids }),
            Message::Ignored(_) => Ok(()),
        }
    }

    fn push(&mut self, change: Change) -> (result: Result<(), String>)
        ensures
            match result {
                Ok(()) => absorbed(old(self)@, MessageModel::Change(change@)) == Ok::<
                    DecoderModel,
                    Seq<char>,
                >(final(self)@),
                Err(e) => absorbed(old(self)@, MessageModel::Change(change@)) == Err::<
                    DecoderModel,
                    Seq<char>,
                >(e@) && final(self)@ == old(self)@,
            },
    {
        match self.current.take() {
            None => Err("row change outside a transaction".to_string()),
            Some(open) => {
                let mut tx = open;
                tx.changes.push(change);
                assert(views(tx.changes@) =~= views(open.changes@).push(change@));
                self.current = Some(tx);
                Ok(())
            },
        }
    }

    /// True when the last fed message left a transaction open.
    pub fn has_incomplete(&self) -> (result: bool)
        ensures
            result == (self@.current is Some),
    {
        self.current.is_some()
    }

    /// Drop an unfinished trailing transaction; it will be re-read next round.
    pub fn discard_incomplete(&mut self)
        ensures
            final(self)@ == (DecoderModel { current: None, ..old(self)@ }),
    {
        self.current = None;
    }

    /// The complete transactions, which the decoder gives up.
    pub fn take_complete(&mut self) -> (result: Vec<SourceTransaction>)
        ensures
            views(result@) == old(self)@.complete,
            final(self)@ == (DecoderModel { complete: Seq::empty(), ..old(self)@ }),
    {
        let mut out: Vec<SourceTransaction> = Vec::new();
        std::mem::swap(&mut out, &mut self.complete);
        assert(self@.complete =~= Seq::empty());
        out
    }
}

// --- laws ------------------------------------------------------------------------

/// The state after several messages.
pub open spec fn absorbed_all(state: DecoderModel, messages: Seq<MessageModel>) -> Result<
    DecoderModel,
    Seq<char>,
>
    decreases messages.len(),
{
    if messages.len() == 0 {
        Ok(state)
    } else {
        match absorbed_all(state, messages.drop_last()) {
            Ok(before) => absorbed(before, messages.last()),
            Err(e) => Err(e),
        }
    }
}

/// Messages never touch the transactions that are already complete: they only
/// put others behind them.
pub proof fn law_complete_transactions_stay(state: DecoderModel, messages: Seq<MessageModel>)
    ensures
        absorbed_all(state, messages) matches Ok(after) ==> state.complete.len()
            <= after.complete.len() && after.complete.take(state.complete.len() as int)
            == state.complete,
    decreases messages.len(),
{
    if messages.len() == 0 {
        assert(state.complete.take(state.complete.len() as int) =~= state.complete);
    } else {
        law_complete_transactions_stay(state, messages.drop_last());
        if let Ok(before) = absorbed_all(state, messages.drop_last()) {
            if let Ok(after) = absorbed(before, messages.last()) {
                assert(after.complete.take(state.complete.len() as int) =~= before.complete.take(
                    state.complete.len() as int,
                ));
            }
        }
    }
}

/// The messages of one source transaction: its begin, its changes in order,
/// its commit.
pub open spec fn transaction_messages(final_lsn: u64, tx: TransactionModel) -> Seq<MessageModel> {
    seq![MessageModel::Begin { final_lsn, xid: tx.xid }] + tx.changes.map_values(
        |c: ChangeModel| MessageModel::Change(c),
    ) + seq![MessageModel::Commit { commit_lsn: tx.commit_lsn, end_lsn: tx.end_lsn }]
}

proof fn lemma_open_transaction(state: DecoderModel, final_lsn: u64, tx: TransactionModel, n: int)
    requires
        state.current is None,
        0 <= n <= tx.changes.len(),
    ensures
        absorbed_all(state, transaction_messages(final_lsn, tx).take(n + 1)) == Ok::<
            DecoderModel,
            Seq<char>,
        >(
            DecoderModel {
                current: Some(
                    TransactionModel {
                        xid: tx.xid,
                        commit_lsn: final_lsn,
                        end_lsn: 0,
                        changes: tx.changes.take(n),
                    },
                ),
                ..state
            },
        ),
    decreases n,
{
    let all = transaction_messages(final_lsn, tx);
    let these = all.take(n + 1);
    if n == 0 {
        assert(these.drop_last() =~= Seq::empty());
        assert(these.last() == all[0]);
        assert(tx.changes.take(0) =~= Seq::empty());
        reveal_with_fuel(absorbed_all, 2);
    } else {
        lemma_open_transaction(state, final_lsn, tx, n - 1);
        assert(these.drop_last() =~= all.take(n));
        assert(these.last() == MessageModel::Change(tx.changes[n - 1]));
        assert(tx.changes.take(n) =~= tx.changes.take(n - 1).push(tx.changes[n - 1]));
    }
}

/// The messages of one transaction, fed in order between transactions, come
/// out as that transaction, with all of its changes in their order.
pub proof fn law_a_transaction_comes_out_whole(
    state: DecoderModel,
    final_lsn: u64,
    tx: TransactionModel,
)
    requires
        state.current is None,
    ensures
        absorbed_all(state, transaction_messages(final_lsn, tx)) == Ok::<DecoderModel, Seq<char>>(
            DecoderModel { complete: state.complete.push(tx), ..state },
        ),
{
    let all = transaction_messages(final_lsn, tx);
    let n = tx.changes.len() as int;
    lemma_open_transaction(state, final_lsn, tx, n);
    assert(all.drop_last() =~= all.take(n + 1));
    assert(tx.changes.take(n) =~= tx.changes);
}

/// A transaction begins only where none is open; changes and a commit come only inside one;
/// a relation may be announced at any time, and other messages say nothing.
pub proof fn law_messages_come_in_their_order(state: DecoderModel, message: MessageModel)
    ensures
        absorbed(state, message) is Ok <==> match message {
            MessageModel::Begin { .. } => state.current is None,
            MessageModel::Commit { .. } => state.current is Some,
            MessageModel::Change(_) => state.current is Some,
            MessageModel::Relation(_) => true,
            MessageModel::Ignored(_) => true,
        },
        absorbed(state, message) matches Ok(after) ==> match message {
            MessageModel::Begin { final_lsn, xid } => {
                &&& after.current is Some
                &&& (after.current->0).xid == xid
                &&& (after.current->0).changes.len() == 0
                &&& after.complete == state.complete
                &&& after.relations == state.relations
            },
            MessageModel::Commit { commit_lsn, end_lsn } => {
                &&& after.current is None
                &&& after.complete.len() == state.complete.len() + 1
                &&& after.complete.drop_last() == state.complete
                &&& after.complete.last().xid == (state.current->0).xid
                &&& after.complete.last().commit_lsn == commit_lsn
                &&& after.complete.last().end_lsn == end_lsn
                &&& after.complete.last().changes == (state.current->0).changes
                &&& after.relations == state.relations
            },
            MessageModel::Change(change) => {
                &&& after.current is Some
                &&& (after.current->0).xid == (state.current->0).xid
                &&& (after.current->0).changes.len() == (state.current->0).changes.len() + 1
                &&& (after.current->0).changes.drop_last() == (state.current->0).changes
                &&& (after.current->0).changes.last() == change
                &&& after.complete == state.complete
                &&& after.relations == state.relations
            },
            MessageModel::Relation(_) => after.current == state.current && after.complete
                == state.complete,
            MessageModel::Ignored(_) => after == state,
        },
{
    if let Ok(after) = absorbed(state, message) {
        match message {
            MessageModel::Commit { .. } => {
                assert(after.complete.drop_last() =~= state.complete);
            },
            MessageModel::Change(change) => {
                assert((after.current->0).changes.drop_last() =~= (state.current->0).changes);
            },
            _ => {},
        }
    }
}

/// A relation is known by its latest announcement; its other announcements and other
/// relations are not touched. A column keeps the name of its type from before exactly where
/// its place, its name and its type stayed the same.
pub proof fn law_relations_are_known_by_their_last_announcement(
    state: DecoderModel,
    relation: RelationModel,
    other: u32,
    i: int,
)
    requires
        0 <= i < relation.columns.len(),
    ensures
        ({
            let after = absorbed(state, MessageModel::Relation(relation))->Ok_0;
            let known = after.relations[relation.id];
            let column = relation.columns[i];
            let before = state.relations[relation.id].columns[i];
            let kept = state.relations.contains_key(relation.id) && i
                < state.relations[relation.id].columns.len() && before.name == column.name
                && before.typid == column.typid && before.typmod == column.typmod;
            &&& after.relations.contains_key(relation.id)
            &&& known.id == relation.id
            &&& known.name == relation.name
            &&& known.namespace == relation.namespace
            &&& known.columns.len() == relation.columns.len()
            &&& known.columns[i].name == column.name
            &&& known.columns[i].typid == column.typid
            &&& known.columns[i].typmod == column.typmod
            &&& kept ==> known.columns[i].resolved_type == before.resolved_type
            &&& !kept ==> known.columns[i] == column
            &&& other != relation.id ==> (after.relations.contains_key(other)
                <==> state.relations.contains_key(other)) && (state.relations.contains_key(other)
                ==> after.relations[other] == state.relations[other])
        }),
{
}

/// A message is what its first letter says, and is refused under any other; the rows of a
/// change are what the letters in front of them say: an insert brings a new row, a delete an
/// old row or its key, an update a new row, with an old row or its key in front of it or not.
pub proof fn law_messages_are_told_apart_by_letter(data: Seq<u8>)
    ensures
        data.len() == 0 ==> decoded(data) is Err,
        decoded(data) matches Ok(message) ==> data.len() > 0 && match message {
            MessageModel::Begin { .. } => data[0] as char == 'B',
            MessageModel::Commit { .. } => data[0] as char == 'C',
            MessageModel::Relation(_) => data[0] as char == 'R',
            MessageModel::Change(ChangeModel::Insert { .. }) => data[0] as char == 'I'
                && data.len() > 5 && data[5] as char == 'N',
            MessageModel::Change(ChangeModel::Update { old: before, .. }) => data[0] as char == 'U'
                && data.len() > 5 && match before {
                Some((tag, _)) => data[5] == tag && (tag as char == 'K' || tag as char == 'O'),
                None => data[5] as char == 'N',
            },
            MessageModel::Change(ChangeModel::Delete { key_kind, .. }) => data[0] as char == 'D'
                && data.len() > 5 && data[5] == key_kind && (key_kind as char == 'K' || key_kind
                as char == 'O'),
            MessageModel::Change(ChangeModel::Truncate { .. }) => data[0] as char == 'T',
            MessageModel::Ignored(kind) => data[0] == kind && (kind as char == 'O' || kind as char
                == 'M' || kind as char == 'Y'),
        },
{
}

/// What lies behind the end of a message is not read: the reading fails exactly where fewer bytes
/// are left than are wanted, and says how many were wanted, from where, and how many there are.
/// Where they are there, they are read one for one and the next reading begins behind them.
pub proof fn law_only_what_is_there_is_read(data: Seq<u8>, pos: int, n: int)
    requires
        0 <= pos <= data.len(),
        0 <= n,
    ensures
        take_at(data, pos, n) is Ok <==> n <= data.len() - pos,
        take_at(data, pos, n) matches Ok((bytes, next)) ==> bytes.len() == n && next == pos + n
            && forall|i: int| 0 <= i < n ==> #[trigger] bytes[i] == data[pos + i],
        take_at(data, pos, n) matches Err(reason) ==> text::has_part(
            reason,
            "wanted "@ + decimal(n as nat),
        ) && text::has_part(reason, "offset "@ + decimal(pos as nat)) && text::has_part(
            reason,
            "have "@ + decimal(data.len()),
        ),
{
    lemma_truncated_text(decimal(n as nat), decimal(pos as nat), decimal(data.len()));
}

proof fn lemma_truncated_text(wanted: Seq<char>, pos: Seq<char>, have: Seq<char>)
    ensures
        ({
            let whole = "truncated pgoutput message: wanted "@ + wanted + " bytes at offset "@ + pos
                + ", have "@ + have;
            &&& text::has_part(whole, "wanted "@ + wanted)
            &&& text::has_part(whole, "offset "@ + pos)
            &&& text::has_part(whole, "have "@ + have)
        }),
{
    reveal_strlit("truncated pgoutput message: wanted ");
    reveal_strlit(" bytes at offset ");
    reveal_strlit(", have ");
    reveal_strlit("wanted ");
    reveal_strlit("offset ");
    reveal_strlit("have ");
    let whole = "truncated pgoutput message: wanted "@ + wanted + " bytes at offset "@ + pos
        + ", have "@ + have;
    let a = "wanted "@ + wanted;
    let b = "offset "@ + pos;
    let c = "have "@ + have;
    let second = 45 + wanted.len() as int;
    let third = 54 + wanted.len() as int + pos.len();
    assert(whole.subrange(28, 28 + a.len() as int) =~= a);
    text::lemma_part_at(whole, a, 28);
    assert(whole.subrange(second, second + b.len()) =~= b);
    text::lemma_part_at(whole, b, second);
    assert(whole.subrange(third, third + c.len()) =~= c);
    text::lemma_part_at(whole, c, third);
}

} // verus!
