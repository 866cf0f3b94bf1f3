//! How pgoutput writes messages, stated on its own: every message that can be
//! written is read back by `decode` as it was.
use vstd::prelude::*;
use vstd::utf8::{encode_utf8, encode_utf8_decode_utf8, encode_utf8_valid_utf8};

use crate::pgoutput::{
    big_endian, cell_at, cells_at, column_at, columns_at, cstring_at, decoded, i16_at, i32_at,
    relation_at, relids_at, take_at, text_of, tuple_at, u32_at, u64_at, u8_at, zero_from, Cell, ChangeModel,
    ColumnModel, MessageModel, RelationModel, KIND_BEGIN, KIND_COMMIT, KIND_DELETE, KIND_INSERT,
    KIND_MESSAGE, KIND_ORIGIN, KIND_RELATION, KIND_TRUNCATE, KIND_TYPE, KIND_UPDATE, TAG_KEY, TAG_NEW,
    TAG_NULL, TAG_OLD, TAG_TEXT, TAG_UNCHANGED,
};
use crate::text::byte_hex;

verus! {

// --- writing ---------------------------------------------------------------------

/// The last `k` bytes of a number, the highest first.
pub open spec fn bytes_of(n: nat, k: nat) -> Seq<u8>
    decreases k,
{
    if k == 0 {
        Seq::empty()
    } else {
        bytes_of(n / 256, (k - 1) as nat).push((n % 256) as u8)
    }
}

/// A signed number below `half` in size, as an unsigned one below `2 * half`.
pub open spec fn unsigned(n: int, half: nat) -> nat {
    if n >= 0 {
        n as nat
    } else {
        (n + 2 * half) as nat
    }
}

pub open spec fn write_u32(n: u32) -> Seq<u8> {
    bytes_of(n as nat, 4)
}

pub open spec fn write_u64(n: u64) -> Seq<u8> {
    bytes_of(n as nat, 8)
}

pub open spec fn write_i16(n: i16) -> Seq<u8> {
    bytes_of(unsigned(n as int, 0x8000), 2)
}

pub open spec fn write_i32(n: i32) -> Seq<u8> {
    bytes_of(unsigned(n as int, 0x8000_0000), 4)
}

/// A text with a zero byte behind it.
pub open spec fn write_cstring(text: Seq<char>) -> Seq<u8> {
    encode_utf8(text) + seq![0u8]
}

pub open spec fn write_cell(cell: Cell) -> Seq<u8> {
    match cell {
        Cell::Null => seq![TAG_NULL],
        Cell::Unchanged => seq![TAG_UNCHANGED],
        Cell::Text(s) => seq![TAG_TEXT] + (write_i32(encode_utf8(s).len() as i32) + encode_utf8(s)),
    }
}

pub open spec fn write_cells(cells: Seq<Cell>) -> Seq<u8>
    decreases cells.len(),
{
    if cells.len() == 0 {
        Seq::empty()
    } else {
        write_cell(cells[0]) + write_cells(cells.drop_first())
    }
}

pub open spec fn write_row(row: Seq<Cell>) -> Seq<u8> {
    write_i16(row.len() as i16) + write_cells(row)
}

pub open spec fn write_column(c: ColumnModel) -> Seq<u8> {
    seq![
        if c.is_key {
            1u8
        } else {
            0u8
        },
    ] + (write_cstring(c.name) + (write_u32(c.typid) + write_i32(c.typmod)))
}

pub open spec fn write_columns(columns: Seq<ColumnModel>) -> Seq<u8>
    decreases columns.len(),
{
    if columns.len() == 0 {
        Seq::empty()
    } else {
        write_column(columns[0]) + write_columns(columns.drop_first())
    }
}

pub open spec fn write_relids(relids: Seq<u32>) -> Seq<u8>
    decreases relids.len(),
{
    if relids.len() == 0 {
        Seq::empty()
    } else {
        write_u32(relids[0]) + write_relids(relids.drop_first())
    }
}

/// A message as pgoutput writes it. Commit times and flags are written too, and
/// not read.
pub open spec fn written(message: MessageModel, time: u64, flags: u8) -> Seq<u8> {
    match message {
        MessageModel::Begin { final_lsn, xid } => seq![KIND_BEGIN] + (write_u64(final_lsn) + (
        write_u64(time) + write_u32(xid))),
        MessageModel::Commit { commit_lsn, end_lsn } => seq![KIND_COMMIT] + (seq![flags] + (
        write_u64(commit_lsn) + (write_u64(end_lsn) + write_u64(time)))),
        MessageModel::Relation(r) => seq![KIND_RELATION] + (write_u32(r.id) + (write_cstring(
            r.namespace,
        ) + (write_cstring(r.name) + (seq![r.replident] + (write_i16(r.columns.len() as i16)
            + write_columns(r.columns)))))),
        MessageModel::Change(ChangeModel::Insert { relid, new }) => seq![KIND_INSERT] + (write_u32(
            relid,
        ) + (seq![TAG_NEW] + write_row(new))),
        MessageModel::Change(ChangeModel::Update { relid, old: before, new }) => match before {
            Some((tag, row)) => seq![KIND_UPDATE] + (write_u32(relid) + (seq![tag] + (write_row(row)
                + (seq![TAG_NEW] + write_row(new))))),
            None => seq![KIND_UPDATE] + (write_u32(relid) + (seq![TAG_NEW] + write_row(new))),
        },
        MessageModel::Change(ChangeModel::Delete { relid, key_kind, old: row }) => seq![KIND_DELETE]
            + (write_u32(relid) + (seq![key_kind] + write_row(row))),
        MessageModel::Change(ChangeModel::Truncate { relids }) => seq![KIND_TRUNCATE] + (write_i32(
            relids.len() as i32,
        ) + (seq![flags] + write_relids(relids))),
        MessageModel::Ignored(kind) => seq![kind],
    }
}

// --- what can be written -----------------------------------------------------------

/// A name has no zero byte.
pub open spec fn is_name(text: Seq<char>) -> bool {
    forall|i: int| 0 <= i < encode_utf8(text).len() ==> (#[trigger] encode_utf8(text)[i]) != 0
}

pub open spec fn is_cell(cell: Cell) -> bool {
    cell matches Cell::Text(s) ==> encode_utf8(s).len() <= i32::MAX
}

pub open spec fn is_row(row: Seq<Cell>) -> bool {
    row.len() <= i16::MAX && forall|i: int| 0 <= i < row.len() ==> is_cell(#[trigger] row[i])
}

/// A column as it is announced: its type has not been resolved yet.
pub open spec fn is_column(c: ColumnModel) -> bool {
    is_name(c.name) && c.resolved_type is None
}

/// A message that fits the format.
pub open spec fn writable(message: MessageModel) -> bool {
    match message {
        MessageModel::Begin { .. } => true,
        MessageModel::Commit { .. } => true,
        MessageModel::Relation(r) => is_name(r.namespace) && is_name(r.name) && r.columns.len()
            <= i16::MAX && forall|i: int|
            0 <= i < r.columns.len() ==> is_column(#[trigger] r.columns[i]),
        MessageModel::Change(ChangeModel::Insert { relid, new }) => is_row(new),
        MessageModel::Change(ChangeModel::Update { relid, old: before, new }) => is_row(new) && (
        before matches Some((tag, row)) ==> (tag == TAG_KEY || tag == TAG_OLD) && is_row(row)),
        MessageModel::Change(ChangeModel::Delete { relid, key_kind, old: row }) => (key_kind
            == TAG_KEY || key_kind == TAG_OLD) && is_row(row),
        MessageModel::Change(ChangeModel::Truncate { relids }) => relids.len() <= i32::MAX,
        MessageModel::Ignored(kind) => kind == KIND_ORIGIN || kind == KIND_MESSAGE || kind
            == KIND_TYPE,
    }
}

// --- reading back ------------------------------------------------------------------

/// Whether `data` holds `part` at position `pos`.
spec fn holds(data: Seq<u8>, pos: int, part: Seq<u8>) -> bool {
    0 <= pos && pos + part.len() <= data.len() && data.subrange(pos, pos + part.len()) == part
}

proof fn lemma_split(data: Seq<u8>, pos: int, a: Seq<u8>, b: Seq<u8>)
    requires
        holds(data, pos, a + b),
    ensures
        holds(data, pos, a),
        holds(data, pos + a.len(), b),
{
    let both = a + b;
    assert(data.subrange(pos, pos + a.len()) =~= data.subrange(pos, pos + both.len()).take(
        a.len() as int,
    ));
    assert(both.take(a.len() as int) =~= a);
    assert(data.subrange(pos + a.len(), pos + a.len() + b.len()) =~= data.subrange(
        pos,
        pos + both.len(),
    ).skip(a.len() as int));
    assert(both.skip(a.len() as int) =~= b);
}

spec fn power(k: nat) -> nat
    decreases k,
{
    if k == 0 {
        1
    } else {
        256 * power((k - 1) as nat)
    }
}

proof fn lemma_bytes(n: nat, k: nat)
    requires
        n < power(k),
    ensures
        bytes_of(n, k).len() == k,
        big_endian(bytes_of(n, k)) == n,
    decreases k,
{
    if k > 0 {
        let high = n / 256;
        assert(high < power((k - 1) as nat)) by (nonlinear_arith)
            requires
                n < 256 * power((k - 1) as nat),
                high == n / 256,
        ;
        lemma_bytes(high, (k - 1) as nat);
        assert(bytes_of(n, k).drop_last() =~= bytes_of(high, (k - 1) as nat));
        assert(bytes_of(n, k).last() == (n % 256) as u8);
    }
}

proof fn lemma_powers()
    ensures
        power(2) == 0x1_0000,
        power(4) == 0x1_0000_0000,
        power(8) == 0x1_0000_0000_0000_0000,
{
    reveal_with_fuel(power, 9);
}

proof fn lemma_u8(data: Seq<u8>, pos: int, b: u8)
    requires
        holds(data, pos, seq![b]),
    ensures
        u8_at(data, pos) == Ok::<(u8, int), Seq<char>>((b, pos + 1)),
{
    assert(data.subrange(pos, pos + 1)[0] == b);
}

proof fn lemma_u32(data: Seq<u8>, pos: int, n: u32)
    requires
        holds(data, pos, write_u32(n)),
    ensures
        u32_at(data, pos) == Ok::<(u32, int), Seq<char>>((n, pos + 4)),
        write_u32(n).len() == 4,
{
    lemma_powers();
    lemma_bytes(n as nat, 4);
}

proof fn lemma_u64(data: Seq<u8>, pos: int, n: u64)
    requires
        holds(data, pos, write_u64(n)),
    ensures
        u64_at(data, pos) == Ok::<(u64, int), Seq<char>>((n, pos + 8)),
        write_u64(n).len() == 8,
{
    lemma_powers();
    lemma_bytes(n as nat, 8);
}

proof fn lemma_i16(data: Seq<u8>, pos: int, n: i16)
    requires
        holds(data, pos, write_i16(n)),
    ensures
        i16_at(data, pos) == Ok::<(i16, int), Seq<char>>((n, pos + 2)),
        write_i16(n).len() == 2,
{
    lemma_powers();
    lemma_bytes(unsigned(n as int, 0x8000), 2);
}

proof fn lemma_i32(data: Seq<u8>, pos: int, n: i32)
    requires
        holds(data, pos, write_i32(n)),
    ensures
        i32_at(data, pos) == Ok::<(i32, int), Seq<char>>((n, pos + 4)),
        write_i32(n).len() == 4,
{
    lemma_powers();
    lemma_bytes(unsigned(n as int, 0x8000_0000), 4);
}

proof fn lemma_text(text: Seq<char>)
    ensures
        text_of(encode_utf8(text)) == text,
{
    encode_utf8_valid_utf8(text);
    encode_utf8_decode_utf8(text);
}

proof fn lemma_zero_from(data: Seq<u8>, pos: int, end: int)
    requires
        0 <= pos <= end < data.len(),
        data[end] == 0,
        forall|i: int| pos <= i < end ==> data[i] != 0,
    ensures
        zero_from(data, pos) == Some(end),
    decreases end - pos,
{
    if pos < end {
        lemma_zero_from(data, pos + 1, end);
    }
}

proof fn lemma_cstring(data: Seq<u8>, pos: int, text: Seq<char>)
    requires
        holds(data, pos, write_cstring(text)),
        is_name(text),
    ensures
        cstring_at(data, pos) == Ok::<(Seq<char>, int), Seq<char>>(
            (text, pos + write_cstring(text).len()),
        ),
{
    let body = encode_utf8(text);
    let end = pos + body.len();
    lemma_split(data, pos, body, seq![0u8]);
    assert(data.subrange(end, end + 1)[0] == data[end]);
    assert forall|i: int| pos <= i < end implies data[i] != 0 by {
        assert(data.subrange(pos, end)[i - pos] == data[i]);
        assert(body[i - pos] != 0);
    }
    lemma_zero_from(data, pos, end);
    lemma_text(text);
}

proof fn lemma_cell(data: Seq<u8>, pos: int, cell: Cell)
    requires
        holds(data, pos, write_cell(cell)),
        is_cell(cell),
    ensures
        cell_at(data, pos) == Ok::<(Cell, int), Seq<char>>((cell, pos + write_cell(cell).len())),
{
    match cell {
        Cell::Null => {
            lemma_u8(data, pos, TAG_NULL);
        },
        Cell::Unchanged => {
            lemma_u8(data, pos, TAG_UNCHANGED);
        },
        Cell::Text(s) => {
            let body = encode_utf8(s);
            let len = body.len() as i32;
            lemma_split(data, pos, seq![TAG_TEXT], write_i32(len) + body);
            lemma_u8(data, pos, TAG_TEXT);
            lemma_split(data, pos + 1, write_i32(len), body);
            lemma_i32(data, pos + 1, len);
            lemma_text(s);
            if len == 0 {
                assert(body =~= Seq::empty());
            }
        },
    }
}

proof fn lemma_cells(data: Seq<u8>, pos: int, cells: Seq<Cell>)
    requires
        holds(data, pos, write_cells(cells)),
        forall|i: int| 0 <= i < cells.len() ==> is_cell(#[trigger] cells[i]),
    ensures
        cells_at(data, pos, cells.len() as int) == Ok::<(Seq<Cell>, int), Seq<char>>(
            (cells, pos + write_cells(cells).len()),
        ),
    decreases cells.len(),
{
    if cells.len() == 0 {
        assert(cells =~= Seq::empty());
    } else {
        let rest = cells.drop_first();
        let first = write_cell(cells[0]);
        lemma_split(data, pos, first, write_cells(rest));
        lemma_cell(data, pos, cells[0]);
        assert forall|i: int| 0 <= i < rest.len() implies is_cell(#[trigger] rest[i]) by {
            assert(is_cell(cells[i + 1]));
        }
        lemma_cells(data, pos + first.len(), rest);
        assert(seq![cells[0]] + rest =~= cells);
    }
}

proof fn lemma_row(data: Seq<u8>, pos: int, row: Seq<Cell>)
    requires
        holds(data, pos, write_row(row)),
        is_row(row),
    ensures
        tuple_at(data, pos) == Ok::<(Seq<Cell>, int), Seq<char>>(
            (row, pos + write_row(row).len()),
        ),
{
    let n = row.len() as i16;
    lemma_split(data, pos, write_i16(n), write_cells(row));
    lemma_i16(data, pos, n);
    lemma_cells(data, pos + 2, row);
}

proof fn lemma_column(data: Seq<u8>, pos: int, c: ColumnModel)
    requires
        holds(data, pos, write_column(c)),
        is_column(c),
    ensures
        column_at(data, pos) == Ok::<(ColumnModel, int), Seq<char>>(
            (c, pos + write_column(c).len()),
        ),
{
    let flag = if c.is_key {
        1u8
    } else {
        0u8
    };
    let tail = write_u32(c.typid) + write_i32(c.typmod);
    let name = write_cstring(c.name);
    lemma_split(data, pos, seq![flag], name + tail);
    lemma_u8(data, pos, flag);
    lemma_split(data, pos + 1, name, tail);
    lemma_cstring(data, pos + 1, c.name);
    let p = pos + 1 + name.len();
    lemma_split(data, p, write_u32(c.typid), write_i32(c.typmod));
    lemma_u32(data, p, c.typid);
    lemma_i32(data, p + 4, c.typmod);
}

proof fn lemma_columns(data: Seq<u8>, pos: int, columns: Seq<ColumnModel>)
    requires
        holds(data, pos, write_columns(columns)),
        forall|i: int| 0 <= i < columns.len() ==> is_column(#[trigger] columns[i]),
    ensures
        columns_at(data, pos, columns.len() as int) == Ok::<(Seq<ColumnModel>, int), Seq<char>>(
            (columns, pos + write_columns(columns).len()),
        ),
    decreases columns.len(),
{
    if columns.len() == 0 {
        assert(columns =~= Seq::empty());
    } else {
        let rest = columns.drop_first();
        let first = write_column(columns[0]);
        lemma_split(data, pos, first, write_columns(rest));
        lemma_column(data, pos, columns[0]);
        assert forall|i: int| 0 <= i < rest.len() implies is_column(#[trigger] rest[i]) by {
            assert(is_column(columns[i + 1]));
        }
        lemma_columns(data, pos + first.len(), rest);
        assert(seq![columns[0]] + rest =~= columns);
    }
}

proof fn lemma_relids(data: Seq<u8>, pos: int, relids: Seq<u32>)
    requires
        holds(data, pos, write_relids(relids)),
    ensures
        relids_at(data, pos, relids.len() as int) == Ok::<(Seq<u32>, int), Seq<char>>(
            (relids, pos + write_relids(relids).len()),
        ),
    decreases relids.len(),
{
    if relids.len() == 0 {
        assert(relids =~= Seq::empty());
    } else {
        let rest = relids.drop_first();
        lemma_split(data, pos, write_u32(relids[0]), write_relids(rest));
        lemma_u32(data, pos, relids[0]);
        lemma_relids(data, pos + 4, rest);
        assert(seq![relids[0]] + rest =~= relids);
    }
}

/// The kind of a message, with its body behind it.
proof fn lemma_kind(data: Seq<u8>, kind: u8, body: Seq<u8>)
    requires
        data == seq![kind] + body,
    ensures
        u8_at(data, 0) == Ok::<(u8, int), Seq<char>>((kind, 1)),
        holds(data, 1, body),
{
    assert(data.subrange(0, data.len() as int) =~= data);
    lemma_split(data, 0, seq![kind], body);
    lemma_u8(data, 0, kind);
}

/// A relation's name, identity and columns, behind its number and schema.
proof fn lemma_relation_tail(data: Seq<u8>, pos: int, r: RelationModel)
    requires
        writable(MessageModel::Relation(r)),
        holds(
            data,
            pos,
            write_cstring(r.name) + (seq![r.replident] + (write_i16(r.columns.len() as i16)
                + write_columns(r.columns))),
        ),
    ensures
        ({
            let p4 = pos + write_cstring(r.name).len();
            let n = r.columns.len();
            &&& cstring_at(data, pos) == Ok::<(Seq<char>, int), Seq<char>>((r.name, p4))
            &&& u8_at(data, p4) == Ok::<(u8, int), Seq<char>>((r.replident, p4 + 1))
            &&& i16_at(data, p4 + 1) == Ok::<(i16, int), Seq<char>>((n as i16, p4 + 3))
            &&& columns_at(data, p4 + 3, n as int) == Ok::<(Seq<ColumnModel>, int), Seq<char>>(
                (r.columns, p4 + 3 + write_columns(r.columns).len()),
            )
        }),
{
    let n = r.columns.len() as i16;
    let b5 = write_i16(n) + write_columns(r.columns);
    let b4 = seq![r.replident] + b5;
    lemma_split(data, pos, write_cstring(r.name), b4);
    lemma_cstring(data, pos, r.name);
    let p4 = pos + write_cstring(r.name).len();
    lemma_split(data, p4, seq![r.replident], b5);
    lemma_u8(data, p4, r.replident);
    lemma_split(data, p4 + 1, write_i16(n), write_columns(r.columns));
    lemma_i16(data, p4 + 1, n);
    lemma_columns(data, p4 + 3, r.columns);
}

/// A relation's number and schema, with the rest behind them.
proof fn lemma_relation_head(data: Seq<u8>, r: RelationModel, rest: Seq<u8>)
    requires
        writable(MessageModel::Relation(r)),
        data == seq![KIND_RELATION] + (write_u32(r.id) + (write_cstring(r.namespace) + rest)),
    ensures
        u8_at(data, 0) == Ok::<(u8, int), Seq<char>>((KIND_RELATION, 1)),
        u32_at(data, 1) == Ok::<(u32, int), Seq<char>>((r.id, 5)),
        cstring_at(data, 5) == Ok::<(Seq<char>, int), Seq<char>>(
            (r.namespace, 5 + write_cstring(r.namespace).len() as int),
        ),
        holds(data, 5 + write_cstring(r.namespace).len() as int, rest),
{
    let b2 = write_cstring(r.namespace) + rest;
    lemma_kind(data, KIND_RELATION, write_u32(r.id) + b2);
    lemma_split(data, 1, write_u32(r.id), b2);
    lemma_u32(data, 1, r.id);
    lemma_split(data, 5, write_cstring(r.namespace), rest);
    lemma_cstring(data, 5, r.namespace);
}

proof fn lemma_relation_message(r: RelationModel)
    requires
        writable(MessageModel::Relation(r)),
    ensures
        decoded(written(MessageModel::Relation(r), 0, 0)) == Ok::<MessageModel, Seq<char>>(
            MessageModel::Relation(r),
        ),
{
    let data = written(MessageModel::Relation(r), 0, 0);
    let rest = write_cstring(r.name) + (seq![r.replident] + (write_i16(r.columns.len() as i16)
        + write_columns(r.columns)));
    lemma_relation_head(data, r, rest);
    lemma_relation_tail(data, 5 + write_cstring(r.namespace).len() as int, r);
}

proof fn lemma_update_message(relid: u32, before: Option<(u8, Seq<Cell>)>, new: Seq<Cell>)
    requires
        writable(MessageModel::Change(ChangeModel::Update { relid, old: before, new })),
    ensures
        ({
            let m = MessageModel::Change(ChangeModel::Update { relid, old: before, new });
            decoded(written(m, 0, 0)) == Ok::<MessageModel, Seq<char>>(m)
        }),
{
    let m = MessageModel::Change(ChangeModel::Update { relid, old: before, new });
    let data = written(m, 0, 0);
    match before {
        Some((tag, row)) => {
            let b4 = seq![TAG_NEW] + write_row(new);
            let b3 = write_row(row) + b4;
            let b2 = seq![tag] + b3;
            lemma_kind(data, KIND_UPDATE, write_u32(relid) + b2);
            lemma_split(data, 1, write_u32(relid), b2);
            lemma_u32(data, 1, relid);
            lemma_split(data, 5, seq![tag], b3);
            lemma_u8(data, 5, tag);
            lemma_split(data, 6, write_row(row), b4);
            lemma_row(data, 6, row);
            let p = 6 + write_row(row).len() as int;
            lemma_split(data, p, seq![TAG_NEW], write_row(new));
            lemma_u8(data, p, TAG_NEW);
            lemma_row(data, p + 1, new);
        },
        None => {
            let b2 = seq![TAG_NEW] + write_row(new);
            lemma_kind(data, KIND_UPDATE, write_u32(relid) + b2);
            lemma_split(data, 1, write_u32(relid), b2);
            lemma_u32(data, 1, relid);
            lemma_split(data, 5, seq![TAG_NEW], write_row(new));
            lemma_u8(data, 5, TAG_NEW);
            lemma_row(data, 6, new);
        },
    }
}

/// Every message that fits the format is decoded as it was written, whatever
/// commit time and flags stand beside it.
pub proof fn law_messages_are_read_as_written(message: MessageModel, time: u64, flags: u8)
    requires
        writable(message),
    ensures
        decoded(written(message, time, flags)) == Ok::<MessageModel, Seq<char>>(message),
{
    let data = written(message, time, flags);
    match message {
        MessageModel::Begin { final_lsn, xid } => {
            let b2 = write_u64(time) + write_u32(xid);
            lemma_kind(data, KIND_BEGIN, write_u64(final_lsn) + b2);
            lemma_split(data, 1, write_u64(final_lsn), b2);
            lemma_u64(data, 1, final_lsn);
            lemma_split(data, 9, write_u64(time), write_u32(xid));
            lemma_u64(data, 9, time);
            lemma_u32(data, 17, xid);
        },
        MessageModel::Commit { commit_lsn, end_lsn } => {
            let b3 = write_u64(end_lsn) + write_u64(time);
            let b2 = write_u64(commit_lsn) + b3;
            lemma_kind(data, KIND_COMMIT, seq![flags] + b2);
            lemma_split(data, 1, seq![flags], b2);
            lemma_u8(data, 1, flags);
            lemma_split(data, 2, write_u64(commit_lsn), b3);
            lemma_u64(data, 2, commit_lsn);
            lemma_split(data, 10, write_u64(end_lsn), write_u64(time));
            lemma_u64(data, 10, end_lsn);
            lemma_u64(data, 18, time);
        },
        MessageModel::Relation(r) => {
            lemma_relation_message(r);
        },
        MessageModel::Change(ChangeModel::Insert { relid, new }) => {
            let b2 = seq![TAG_NEW] + write_row(new);
            lemma_kind(data, KIND_INSERT, write_u32(relid) + b2);
            lemma_split(data, 1, write_u32(relid), b2);
            lemma_u32(data, 1, relid);
            lemma_split(data, 5, seq![TAG_NEW], write_row(new));
            lemma_u8(data, 5, TAG_NEW);
            lemma_row(data, 6, new);
        },
        MessageModel::Change(ChangeModel::Update { relid, old: before, new }) => {
            lemma_update_message(relid, before, new);
        },
        MessageModel::Change(ChangeModel::Delete { relid, key_kind, old: row }) => {
            let b2 = seq![key_kind] + write_row(row);
            lemma_kind(data, KIND_DELETE, write_u32(relid) + b2);
            lemma_split(data, 1, write_u32(relid), b2);
            lemma_u32(data, 1, relid);
            lemma_split(data, 5, seq![key_kind], write_row(row));
            lemma_u8(data, 5, key_kind);
            lemma_row(data, 6, row);
        },
        MessageModel::Change(ChangeModel::Truncate { relids }) => {
            let n = relids.len() as i32;
            let b2 = seq![flags] + write_relids(relids);
            lemma_kind(data, KIND_TRUNCATE, write_i32(n) + b2);
            lemma_split(data, 1, write_i32(n), b2);
            lemma_i32(data, 1, n);
            lemma_split(data, 5, seq![flags], write_relids(relids));
            lemma_u8(data, 5, flags);
            lemma_relids(data, 6, relids);
        },
        MessageModel::Ignored(kind) => {
            assert(data =~= seq![kind] + Seq::empty());
            lemma_kind(data, kind, Seq::empty());
        },
    }
}

/// A row is read as it was written, wherever it stands in the data, and the
/// reader stops right behind it.
pub proof fn law_rows_are_read_as_written(front: Seq<u8>, row: Seq<Cell>, behind: Seq<u8>)
    requires
        is_row(row),
    ensures
        tuple_at(front + write_row(row) + behind, front.len() as int) == Ok::<
            (Seq<Cell>, int),
            Seq<char>,
        >((row, (front + write_row(row)).len() as int)),
{
    let data = front + write_row(row) + behind;
    let pos = front.len() as int;
    assert(data.subrange(pos, pos + write_row(row).len()) =~= write_row(row));
    lemma_row(data, pos, row);
}

proof fn lemma_take_in_front(data: Seq<u8>, m: int, pos: int, n: int)
    requires
        0 <= m <= data.len(),
        0 <= pos,
        0 <= n,
        take_at(data.take(m), pos, n) is Ok,
    ensures
        take_at(data, pos, n) == take_at(data.take(m), pos, n),
        pos + n <= m,
{
    assert(data.take(m).subrange(pos, pos + n) =~= data.subrange(pos, pos + n));
}

/// What is read of the front part of the data is read of the data.
proof fn lemma_cell_in_front(data: Seq<u8>, m: int, pos: int)
    requires
        0 <= m <= data.len(),
        0 <= pos,
        cell_at(data.take(m), pos) is Ok,
    ensures
        cell_at(data, pos) == cell_at(data.take(m), pos),
        pos <= (cell_at(data, pos)->Ok_0).1 <= m,
{
    let front = data.take(m);
    lemma_take_in_front(data, m, pos, 1);
    let (tag, body) = u8_at(front, pos)->Ok_0;
    if tag == TAG_TEXT {
        lemma_take_in_front(data, m, body, 4);
        let (len, start) = i32_at(front, body)->Ok_0;
        let n = if len > 0 {
            len as int
        } else {
            0
        };
        lemma_take_in_front(data, m, start, n);
    }
}

proof fn lemma_cells_in_front(data: Seq<u8>, m: int, pos: int, n: int)
    requires
        0 <= m <= data.len(),
        0 <= pos <= m,
        cells_at(data.take(m), pos, n) is Ok,
    ensures
        cells_at(data, pos, n) == cells_at(data.take(m), pos, n),
        (cells_at(data, pos, n)->Ok_0).1 <= m,
    decreases n,
{
    if n > 0 {
        lemma_cell_in_front(data, m, pos);
        let next = (cell_at(data, pos)->Ok_0).1;
        lemma_cells_in_front(data, m, next, n - 1);
    }
}

/// A row that is cut off anywhere is refused.
pub proof fn law_cut_rows_are_refused(front: Seq<u8>, row: Seq<Cell>, k: int)
    requires
        is_row(row),
        0 <= k < write_row(row).len(),
    ensures
        tuple_at(front + write_row(row).take(k), front.len() as int) is Err,
{
    let none = Seq::<u8>::empty();
    let whole = front + write_row(row) + none;
    let pos = front.len() as int;
    let m = pos + k;
    let cut = front + write_row(row).take(k);
    assert(whole.take(m) =~= cut);
    law_rows_are_read_as_written(front, row, none);
    if tuple_at(cut, pos) is Ok {
        lemma_take_in_front(whole, m, pos, 2);
        let (n, start) = i16_at(cut, pos)->Ok_0;
        lemma_cells_in_front(whole, m, start, n as int);
    }
}

proof fn lemma_tag_refused(data: Seq<u8>, pos: int, cells: Seq<Cell>, tag: u8, n: int)
    requires
        holds(data, pos, write_cells(cells) + seq![tag]),
        forall|i: int| 0 <= i < cells.len() ==> is_cell(#[trigger] cells[i]),
        cells.len() < n,
        tag != TAG_NULL,
        tag != TAG_UNCHANGED,
        tag != TAG_TEXT,
    ensures
        cells_at(data, pos, n) == Err::<(Seq<Cell>, int), Seq<char>>(
            "unknown tuple column tag "@ + byte_hex(tag),
        ),
    decreases cells.len(),
{
    lemma_split(data, pos, write_cells(cells), seq![tag]);
    if cells.len() == 0 {
        lemma_u8(data, pos, tag);
    } else {
        let rest = cells.drop_first();
        let first = write_cell(cells[0]);
        assert(write_cells(cells) + seq![tag] =~= first + (write_cells(rest) + seq![tag]));
        lemma_split(data, pos, first, write_cells(rest) + seq![tag]);
        lemma_cell(data, pos, cells[0]);
        assert forall|i: int| 0 <= i < rest.len() implies is_cell(#[trigger] rest[i]) by {
            assert(is_cell(cells[i + 1]));
        }
        lemma_tag_refused(data, pos + first.len(), rest, tag, n - 1);
    }
}

/// A row with any other tag in the place of a column's is refused, whatever
/// stands before and behind it.
pub proof fn law_other_tags_are_refused(
    front: Seq<u8>,
    n: i16,
    cells: Seq<Cell>,
    tag: u8,
    behind: Seq<u8>,
)
    requires
        is_row(cells),
        cells.len() < n,
        tag != TAG_NULL,
        tag != TAG_UNCHANGED,
        tag != TAG_TEXT,
    ensures
        tuple_at(
            front + (write_i16(n) + (write_cells(cells) + seq![tag])) + behind,
            front.len() as int,
        ) == Err::<(Seq<Cell>, int), Seq<char>>("unknown tuple column tag "@ + byte_hex(tag)),
{
    let body = write_cells(cells) + seq![tag];
    let part = write_i16(n) + body;
    let data = front + part + behind;
    let pos = front.len() as int;
    assert(data.subrange(pos, pos + part.len()) =~= part);
    lemma_split(data, pos, write_i16(n), body);
    lemma_i16(data, pos, n);
    lemma_tag_refused(data, pos + 2, cells, tag, n as int);
}

} // verus!
