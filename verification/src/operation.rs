//! The operations of a transaction: their encoding and the rules of table changes.

use crate::bytes::le;
use crate::bytes::lemma_le_len;
use crate::codec::dec_count;
use crate::codec::dec_n;
use crate::codec::dec_u64;
use crate::codec::dec_u8;
use crate::codec::enc_all;
use crate::codec::lemma_all;
use crate::codec::lemma_count;
use crate::codec::lemma_dec_step;
use crate::codec::lemma_enc_len;
use crate::codec::lemma_enc_push;
use crate::codec::lemma_u64;
use crate::codec::lemma_u8;
use crate::codec::prepend;
use crate::codec::Decoder;
use crate::codec::Encoder;
use crate::error::corrupt;
use crate::error::invalid;
use crate::error::Error;
use crate::error::Result;
use crate::key::lists;
use crate::model::fields_view;
use crate::model::valid_name;
use crate::model::valid_schema;
use crate::model::validate_name;
use crate::model::Field;
use crate::model::FieldV;
use crate::model::Fields;
use crate::model::Schema;
use crate::model::SchemaV;
use crate::model::Table;
use crate::model::TableV;
use crate::model::ValueV;
use crate::ordered_map::OrderedMap;
use crate::record::dec_fields;
use crate::record::dec_table;
use crate::record::decode_fields;
use crate::record::decode_table;
use crate::record::enc_fields;
use crate::record::enc_table;
use crate::record::encodable_fields;
use crate::record::encode_fields;
use crate::record::encode_table;
use crate::record::fields_encoded_len;
use crate::record::lemma_fields;
use crate::record::lemma_prepend_none;
use crate::record::lemma_table;
use crate::record::valid_table;
use vstd::prelude::*;

verus! {

/// One operation of a transaction.
pub enum Operation {
    /// A new or changed table definition.
    Table(Table),
    /// A new entity of a table.
    Create(u64, u64, Fields),
    /// Assignments to an entity of a table.
    Apply(u64, u64, Fields),
    /// The end of an entity of a table.
    Delete(u64, u64),
    /// So many events that an entity of a table retains.
    Retain(u64, u64, u64),
    /// A snapshot of an entity of a table.
    Snapshot(u64, u64),
}

/// What an operation stands for.
pub enum OpV {
    /// A new or changed table definition.
    Table(TableV),
    /// A new entity.
    Create(u64, u64, Map<u32, ValueV>),
    /// Assignments.
    Apply(u64, u64, Map<u32, ValueV>),
    /// A deletion.
    Delete(u64, u64),
    /// A retention.
    Retain(u64, u64, u64),
    /// A snapshot.
    Snapshot(u64, u64),
}

impl View for Operation {
    type V = OpV;

    open spec fn view(&self) -> OpV {
        match self {
            Operation::Table(t) => OpV::Table(t@),
            Operation::Create(t, id, f) => OpV::Create(*t, *id, fields_view(f@)),
            Operation::Apply(t, id, f) => OpV::Apply(*t, *id, fields_view(f@)),
            Operation::Delete(t, id) => OpV::Delete(*t, *id),
            Operation::Retain(t, id, n) => OpV::Retain(*t, *id, *n),
            Operation::Snapshot(t, id) => OpV::Snapshot(*t, *id),
        }
    }
}

impl Clone for Operation {
    fn clone(&self) -> (copy: Self)
        ensures
            copy@ == self@,
    {
        match self {
            Operation::Table(t) => Operation::Table(t.clone()),
            Operation::Create(t, id, f) => Operation::Create(*t, *id, f.clone()),
            Operation::Apply(t, id, f) => Operation::Apply(*t, *id, f.clone()),
            Operation::Delete(t, id) => Operation::Delete(*t, *id),
            Operation::Retain(t, id, n) => Operation::Retain(*t, *id, *n),
            Operation::Snapshot(t, id) => Operation::Snapshot(*t, *id),
        }
    }
}

/// The entity that an operation is about.
pub open spec fn key_of_op(op: OpV) -> Option<(u64, u64)> {
    match op {
        OpV::Table(_) => None,
        OpV::Create(t, id, _) => Some((t, id)),
        OpV::Apply(t, id, _) => Some((t, id)),
        OpV::Delete(t, id) => Some((t, id)),
        OpV::Retain(t, id, _) => Some((t, id)),
        OpV::Snapshot(t, id) => Some((t, id)),
    }
}

// ---- Encoding ----

/// A table and an entity.
pub open spec fn enc_key(tag: u8, table: u64, id: u64) -> Seq<u8> {
    seq![tag] + le(table as nat, 8) + le(id as nat, 8)
}

/// An encoded operation.
pub open spec fn enc_op(op: OpV) -> Seq<u8> {
    match op {
        OpV::Table(t) => seq![0u8] + enc_table(t),
        OpV::Create(t, id, f) => enc_key(1, t, id) + enc_fields(f),
        OpV::Apply(t, id, f) => enc_key(2, t, id) + enc_fields(f),
        OpV::Delete(t, id) => enc_key(3, t, id),
        OpV::Retain(t, id, n) => enc_key(4, t, id) + le(n as nat, 8),
        OpV::Snapshot(t, id) => enc_key(5, t, id),
    }
}

/// The table and the entity at the front.
pub open spec fn dec_key(s: Seq<u8>) -> Option<(u64, u64, Seq<u8>)> {
    match dec_u64(s) {
        None => None,
        Some((t, s)) => match dec_u64(s) {
            None => None,
            Some((id, s)) => Some((t, id, s)),
        },
    }
}

/// The operation at the front.
pub open spec fn dec_op(s: Seq<u8>) -> Option<(OpV, Seq<u8>)> {
    match dec_u8(s) {
        None => None,
        Some((tag, s)) => if tag == 0 {
            match dec_table(s) {
                None => None,
                Some((t, s)) => Some((OpV::Table(t), s)),
            }
        } else if tag > 5 {
            None
        } else {
            match dec_key(s) {
                None => None,
                Some((t, id, s)) => if tag == 1 || tag == 2 {
                    match dec_fields(s) {
                        None => None,
                        Some((f, s)) => Some(
                            (
                                if tag == 1 {
                                    OpV::Create(t, id, f)
                                } else {
                                    OpV::Apply(t, id, f)
                                },
                                s,
                            ),
                        ),
                    }
                } else if tag == 3 {
                    Some((OpV::Delete(t, id), s))
                } else if tag == 4 {
                    match dec_u64(s) {
                        None => None,
                        Some((n, s)) => Some((OpV::Retain(t, id, n), s)),
                    }
                } else {
                    Some((OpV::Snapshot(t, id), s))
                },
            }
        },
    }
}

/// The encoder of one operation.
pub open spec fn op_encoder() -> spec_fn(OpV) -> Seq<u8> {
    |op: OpV| enc_op(op)
}

/// The decoder of one operation.
pub open spec fn op_decoder() -> spec_fn(Seq<u8>) -> Option<(OpV, Seq<u8>)> {
    |s: Seq<u8>| dec_op(s)
}

/// The operations of a transaction, encoded.
pub open spec fn enc_ops(ops: Seq<OpV>) -> Seq<u8> {
    le(ops.len(), 8) + enc_all(ops, op_encoder())
}

/// The operations of a transaction, at least one, and nothing behind them.
pub open spec fn dec_ops(s: Seq<u8>) -> Option<Seq<OpV>> {
    match dec_count(s, 1) {
        None => None,
        Some((n, s)) => if n == 0 {
            None
        } else {
            match dec_n(n, s, op_decoder()) {
                None => None,
                Some((ops, rest)) => if rest.len() == 0 {
                    Some(ops)
                } else {
                    None
                },
            }
        },
    }
}

/// What operations stand for.
pub open spec fn ops_view(ops: Seq<Operation>) -> Seq<OpV> {
    ops.map_values(|op: Operation| op@)
}

/// Whether an operation survives encoding.
pub open spec fn encodable_op(op: OpV) -> bool {
    match op {
        OpV::Table(t) => valid_table(t) && t.schemas.len() <= u64::MAX,
        OpV::Create(_, _, f) => encodable_fields(f),
        OpV::Apply(_, _, f) => encodable_fields(f),
        _ => true,
    }
}

proof fn lemma_key(tag: u8, t: u64, id: u64, rest: Seq<u8>)
    ensures
        dec_u8(enc_key(tag, t, id) + rest) == Some((tag, le(t as nat, 8) + (le(id as nat, 8) + rest))),
        dec_key(le(t as nat, 8) + (le(id as nat, 8) + rest)) == Some((t, id, rest)),
        enc_key(tag, t, id).len() == 17,
{
    let s2 = le(id as nat, 8) + rest;
    let s1 = le(t as nat, 8) + s2;
    assert(enc_key(tag, t, id) + rest =~= seq![tag] + s1);
    lemma_u8(tag, s1);
    lemma_u64(t, s2);
    lemma_u64(id, rest);
    lemma_le_len(t as nat, 8);
    lemma_le_len(id as nat, 8);
}

/// An encoded operation decodes to itself.
pub proof fn lemma_op(op: OpV, rest: Seq<u8>)
    requires
        encodable_op(op),
    ensures
        dec_op(enc_op(op) + rest) == Some((op, rest)),
        enc_op(op).len() >= 1,
{
    match op {
        OpV::Table(t) => {
            let s = enc_table(t) + rest;
            assert(enc_op(op) + rest =~= seq![0u8] + s);
            lemma_u8(0, s);
            lemma_table(t, rest);
        },
        OpV::Create(t, id, f) => {
            let s = enc_fields(f) + rest;
            assert(enc_op(op) + rest =~= enc_key(1, t, id) + s);
            lemma_key(1, t, id, s);
            lemma_fields(f, rest);
        },
        OpV::Apply(t, id, f) => {
            let s = enc_fields(f) + rest;
            assert(enc_op(op) + rest =~= enc_key(2, t, id) + s);
            lemma_key(2, t, id, s);
            lemma_fields(f, rest);
        },
        OpV::Delete(t, id) => {
            lemma_key(3, t, id, rest);
        },
        OpV::Retain(t, id, n) => {
            let s = le(n as nat, 8) + rest;
            assert(enc_op(op) + rest =~= enc_key(4, t, id) + s);
            lemma_key(4, t, id, s);
            lemma_u64(n, rest);
        },
        OpV::Snapshot(t, id) => {
            lemma_key(5, t, id, rest);
        },
    }
}

/// The bytes of operations.
pub open spec fn ops_len(ops: Seq<OpV>) -> nat
    decreases ops.len(),
{
    if ops.len() == 0 {
        0
    } else {
        ops_len(ops.drop_last()) + enc_op(ops.last()).len()
    }
}

/// Operations take the bytes of each, behind eight for their number.
pub proof fn lemma_ops_len(ops: Seq<OpV>)
    ensures
        enc_ops(ops).len() == 8 + ops_len(ops),
{
    lemma_le_len(ops.len(), 8);
    lemma_all_len(ops);
}

proof fn lemma_all_len(ops: Seq<OpV>)
    ensures
        enc_all(ops, op_encoder()).len() == ops_len(ops),
    decreases ops.len(),
{
    if ops.len() > 0 {
        lemma_all_len(ops.drop_last());
    }
}

/// What is logged of a transaction reads back, and nothing else does: a record of no operation
/// is damaged, and so is one with bytes behind its operations.
pub proof fn lemma_ops(ops: Seq<OpV>, extra: Seq<u8>)
    requires
        ops.len() <= u64::MAX,
        forall|i: int| 0 <= i < ops.len() ==> encodable_op(#[trigger] ops[i]),
    ensures
        dec_ops(enc_ops(ops) + extra) == (if ops.len() == 0 || extra.len() > 0 {
            None
        } else {
            Some(ops)
        }),
{
    let enc = op_encoder();
    let dec = op_decoder();
    assert forall|i: int, r: Seq<u8>| 0 <= i < ops.len() implies #[trigger] dec(enc(ops[i]) + r)
        == Some((ops[i], r)) by {
        lemma_op(ops[i], r);
    }
    assert forall|i: int| 0 <= i < ops.len() implies enc(#[trigger] ops[i]).len() >= 1 by {
        lemma_op(ops[i], extra);
    }
    lemma_all(ops, extra, enc, dec);
    lemma_enc_len(ops, enc, 1);
    let body = enc_all(ops, enc) + extra;
    lemma_count(ops.len(), 1, body);
    assert(enc_ops(ops) + extra =~= le(ops.len(), 8) + body);
}

fn write_key(tag: u8, table: u64, id: u64, e: &mut Encoder)
    ensures
        final(e).0@ == old(e).0@ + enc_key(tag, table, id),
{
    let ghost before = e.0@;
    e.u8(tag);
    e.u64(table);
    e.u64(id);
    assert(e.0@ =~= before + enc_key(tag, table, id));
}

fn write_op(op: &Operation, e: &mut Encoder)
    ensures
        final(e).0@ == old(e).0@ + enc_op(op@),
{
    let ghost before = e.0@;
    match op {
        Operation::Table(table) => {
            e.u8(0);
            encode_table(table, e);
        },
        Operation::Create(t, id, fields) => {
            write_key(1, *t, *id, e);
            encode_fields(fields, e);
        },
        Operation::Apply(t, id, fields) => {
            write_key(2, *t, *id, e);
            encode_fields(fields, e);
        },
        Operation::Delete(t, id) => {
            write_key(3, *t, *id, e);
        },
        Operation::Retain(t, id, n) => {
            write_key(4, *t, *id, e);
            e.u64(*n);
        },
        Operation::Snapshot(t, id) => {
            write_key(5, *t, *id, e);
        },
    }
    assert(e.0@ =~= before + enc_op(op@));
}

/// Encodes the operations of a transaction.
pub fn encode_ops(operations: &Vec<Operation>) -> (bytes: Vec<u8>)
    ensures
        bytes@ == enc_ops(ops_view(operations@)),
{
    let mut e = Encoder::default();
    let count: usize = operations.len();
    e.u64(count as u64);
    let ghost ops = ops_view(operations@);
    let ghost enc = op_encoder();
    let ghost head = e.0@;
    let mut i: usize = 0;
    proof {
        assert(ops.take(0) =~= Seq::empty());
        assert(head + Seq::<u8>::empty() =~= head);
    }
    while i < count
        invariant
            i <= count,
            count == operations@.len(),
            ops == ops_view(operations@),
            enc == op_encoder(),
            e.0@ == head + enc_all(ops.take(i as int), enc),
        decreases count - i,
    {
        proof {
            assert(ops.take(i + 1) =~= ops.take(i as int).push(ops[i as int]));
            lemma_enc_push(ops.take(i as int), ops[i as int], enc);
        }
        write_op(&operations[i], &mut e);
        assert(e.0@ =~= head + enc_all(ops.take(i + 1), enc));
        i = i + 1;
    }
    assert(ops.take(count as int) =~= ops);
    assert(e.0@ =~= enc_ops(ops));
    e.0
}

fn read_key(d: &mut Decoder<'_>) -> (r: Result<(u64, u64)>)
    ensures
        match r {
            Ok((t, id)) => dec_key(old(d).rest()) == Some((t, id, final(d).rest())),
            Err(e) => dec_key(old(d).rest()) is None && e is Corrupt,
        },
{
    let t: u64 = d.u64()?;
    let id: u64 = d.u64()?;
    Ok((t, id))
}

fn read_op(d: &mut Decoder<'_>) -> (r: Result<Operation>)
    ensures
        match r {
            Ok(op) => dec_op(old(d).rest()) == Some((op@, final(d).rest())),
            Err(e) => dec_op(old(d).rest()) is None && e is Corrupt,
        },
{
    let tag: u8 = d.u8()?;
    if tag == 0 {
        let table = decode_table(d)?;
        return Ok(Operation::Table(table));
    }
    if tag > 5 {
        return Err(corrupt("unknown WAL operation"));
    }
    let (t, id) = read_key(d)?;
    if tag == 1 {
        let fields = decode_fields(d)?;
        Ok(Operation::Create(t, id, fields))
    } else if tag == 2 {
        let fields = decode_fields(d)?;
        Ok(Operation::Apply(t, id, fields))
    } else if tag == 3 {
        Ok(Operation::Delete(t, id))
    } else if tag == 4 {
        let n: u64 = d.u64()?;
        Ok(Operation::Retain(t, id, n))
    } else {
        Ok(Operation::Snapshot(t, id))
    }
}

/// Decodes the operations of a transaction.
pub fn decode_ops(bytes: &[u8]) -> (r: Result<Vec<Operation>>)
    ensures
        match r {
            Ok(ops) => dec_ops(bytes@) == Some(ops_view(ops@)),
            Err(e) => dec_ops(bytes@) is None && e is Corrupt,
        },
{
    let mut d = Decoder::new(bytes);
    let count: usize = d.count(1)?;
    if count == 0 {
        return Err(corrupt("empty WAL transaction"));
    }
    let ghost dec = op_decoder();
    let ghost start = d.rest();
    let mut ops: Vec<Operation> = Vec::new();
    proof {
        assert(ops_view(ops@) =~= Seq::empty());
        lemma_prepend_none(dec_n(count as nat, start, dec));
    }
    let mut i: usize = 0;
    while i < count
        invariant
            i <= count,
            count > 0,
            dec == op_decoder(),
            dec_count(bytes@, 1) == Some((count as nat, start)),
            dec_n(count as nat, start, dec) == prepend(
                ops_view(ops@),
                dec_n((count - i) as nat, d.rest(), dec),
            ),
        decreases count - i,
    {
        proof {
            lemma_dec_step(ops_view(ops@), (count - i) as nat, d.rest(), dec);
        }
        let op = read_op(&mut d)?;
        let ghost before = ops@;
        let ghost seen = op@;
        ops.push(op);
        assert(ops_view(ops@) =~= ops_view(before).push(seen));
        i = i + 1;
    }
    proof {
        assert(ops_view(ops@) + Seq::<OpV>::empty() =~= ops_view(ops@));
    }
    d.finish()?;
    Ok(ops)
}

impl Operation {
    /// The entity that the operation is about.
    pub fn entity_key(&self) -> (key: Option<(u64, u64)>)
        ensures
            key == key_of_op(self@),
    {
        match self {
            Operation::Table(_) => None,
            Operation::Create(t, id, _) => Some((*t, *id)),
            Operation::Apply(t, id, _) => Some((*t, *id)),
            Operation::Delete(t, id) => Some((*t, *id)),
            Operation::Retain(t, id, _) => Some((*t, *id)),
            Operation::Snapshot(t, id) => Some((*t, *id)),
        }
    }

    /// The bytes that the operation takes in the log, counted to the greatest number.
    pub fn encoded_len(&self) -> (n: usize)
        ensures
            n == capped(enc_op(self@).len()),
    {
        broadcast use lemma_le_len;

        match self {
            Operation::Table(table) => {
                sum(1, table_len(table), Ghost(1), Ghost(enc_table(table@).len()))
            },
            Operation::Create(_, _, fields) => {
                sum(
                    17,
                    fields_encoded_len(fields),
                    Ghost(17),
                    Ghost(enc_fields(fields_view(fields@)).len()),
                )
            },
            Operation::Apply(_, _, fields) => {
                sum(
                    17,
                    fields_encoded_len(fields),
                    Ghost(17),
                    Ghost(enc_fields(fields_view(fields@)).len()),
                )
            },
            Operation::Retain(_, _, _) => 25,
            Operation::Delete(_, _) => 17,
            Operation::Snapshot(_, _) => 17,
        }
    }
}

/// A length, counted to the greatest number.
pub open spec fn capped(n: nat) -> nat {
    if n <= usize::MAX {
        n
    } else {
        usize::MAX as nat
    }
}

fn sum(a: usize, b: usize, Ghost(x): Ghost<nat>, Ghost(y): Ghost<nat>) -> (n: usize)
    requires
        a == capped(x),
        b == capped(y),
    ensures
        n == capped(x + y),
{
    if a <= usize::MAX - b {
        a + b
    } else {
        usize::MAX
    }
}

/// The bytes that field definitions take.
fn fields_len(fields: &Vec<Field>) -> (n: usize)
    ensures
        n == capped(
            enc_all(
                fields@.map_values(|f: Field| f@),
                crate::record::field_encoder(),
            ).len(),
        ),
{
    let ghost all = fields@.map_values(|f: Field| f@);
    let ghost enc = crate::record::field_encoder();
    let mut n: usize = 0;
    let mut i: usize = 0;
    proof {
        assert(all.take(0) =~= Seq::empty());
    }
    while i < fields.len()
        invariant
            i <= fields@.len(),
            all == fields@.map_values(|f: Field| f@),
            enc == crate::record::field_encoder(),
            n == capped(enc_all(all.take(i as int), enc).len()),
        decreases fields@.len() - i,
    {
        let name: usize = fields[i].name.as_str().as_bytes().len();
        let ghost f = fields@[i as int]@;
        proof {
            assert(all[i as int] == f);
            assert(all.take(i + 1) =~= all.take(i as int).push(f));
            lemma_enc_push(all.take(i as int), f, enc);
            lemma_le_len(f.id as nat, 4);
            lemma_le_len(vstd::utf8::encode_utf8(f.name).len(), 8);
            assert(enc(f).len() == 14 + vstd::utf8::encode_utf8(f.name).len());
        }
        let one: usize = sum(14, name, Ghost(14), Ghost(vstd::utf8::encode_utf8(f.name).len()));
        n = sum(n, one, Ghost(enc_all(all.take(i as int), enc).len()), Ghost(enc(f).len()));
        i = i + 1;
    }
    assert(all.take(i as int) =~= all);
    n
}

/// The bytes that a table definition takes.
fn table_len(table: &Table) -> (n: usize)
    ensures
        n == capped(enc_table(table@).len()),
{
    let ghost all = table@.schemas;
    let ghost enc = crate::record::schema_encoder();
    let name: usize = table.name.as_str().as_bytes().len();
    let mut n: usize = 0;
    let mut i: usize = 0;
    proof {
        assert(all.take(0) =~= Seq::empty());
    }
    while i < table.schemas.len()
        invariant
            i <= table.schemas@.len(),
            all == table@.schemas,
            enc == crate::record::schema_encoder(),
            n == capped(enc_all(all.take(i as int), enc).len()),
        decreases table.schemas@.len() - i,
    {
        let ghost s = table.schemas@[i as int]@;
        let body: usize = fields_len(&table.schemas[i].fields);
        proof {
            assert(all[i as int] == s);
            assert(all.take(i + 1) =~= all.take(i as int).push(s));
            lemma_enc_push(all.take(i as int), s, enc);
            lemma_le_len(s.version as nat, 8);
            lemma_le_len(s.fields.len(), 8);
            assert(s.fields == table.schemas@[i as int].fields@.map_values(|f: Field| f@));
            assert(enc(s).len() == 16 + enc_all(s.fields, crate::record::field_encoder()).len());
        }
        let one: usize = sum(
            16,
            body,
            Ghost(16),
            Ghost(enc_all(s.fields, crate::record::field_encoder()).len()),
        );
        n = sum(n, one, Ghost(enc_all(all.take(i as int), enc).len()), Ghost(enc(s).len()));
        i = i + 1;
    }
    assert(all.take(i as int) =~= all);
    proof {
        lemma_le_len(table@.id as nat, 8);
        lemma_le_len(table@.schemas.len(), 8);
        lemma_le_len(vstd::utf8::encode_utf8(table@.name).len(), 8);
        assert(enc_table(table@).len() == 24 + vstd::utf8::encode_utf8(table@.name).len() + enc_all(
            all,
            enc,
        ).len());
    }
    let ghost length = vstd::utf8::encode_utf8(table@.name).len();
    let head: usize = sum(24, name, Ghost(24), Ghost(length));
    sum(head, n, Ghost(24 + length), Ghost(enc_all(all, enc).len()))
}

// ---- Table changes ----

/// Whether another table has the name.
pub open spec fn name_taken(catalog: Map<u64, TableV>, t: TableV) -> bool {
    exists|id: u64| #[trigger]
        catalog.contains_key(id) && catalog[id].id != t.id && catalog[id].name == t.name
}

/// Whether a field list has a field as it was: its identifier, type and nullability.
pub open spec fn preserved(fields: Seq<FieldV>, f: FieldV) -> bool {
    exists|i: int|
        0 <= i < fields.len() && (#[trigger] fields[i]).id == f.id && fields[i].data_type
            == f.data_type && fields[i].nullable == f.nullable
}

/// Whether a field list has a field with an identifier.
pub open spec fn has_field(fields: Seq<FieldV>, id: u32) -> bool {
    exists|i: int| 0 <= i < fields.len() && (#[trigger] fields[i]).id == id
}

/// Whether a schema may follow another: no field is lost or changed, and a new one accepts null.
pub open spec fn compatible(before: SchemaV, after: SchemaV) -> bool {
    &&& forall|i: int|
        0 <= i < before.fields.len() ==> preserved(after.fields, #[trigger] before.fields[i])
    &&& forall|i: int|
        0 <= i < after.fields.len() ==> has_field(before.fields, (#[trigger] after.fields[i]).id)
            || after.fields[i].nullable
}

/// Whether one more schema version may be added to those of a table.
pub open spec fn evolves(before: Seq<SchemaV>, after: Seq<SchemaV>) -> bool {
    &&& before.len() > 0
    &&& after.len() == before.len() + 1
    &&& after.take(before.len() as int) == before
    &&& after.last().version == before.last().version + 1
    &&& compatible(before.last(), after.last())
}

/// Whether an identifier follows those of all tables.
pub open spec fn next_id(catalog: Map<u64, TableV>, id: u64) -> bool {
    &&& id >= 1
    &&& forall|k: u64| #[trigger] catalog.contains_key(k) ==> k < id
    &&& id == 1 || catalog.contains_key((id - 1) as u64)
}

/// Whether all schemas of a table are valid, and there is one.
pub open spec fn valid_schemas(s: Seq<SchemaV>) -> bool {
    &&& s.len() > 0
    &&& forall|i: int| 0 <= i < s.len() ==> valid_schema(#[trigger] s[i])
}

/// Whether a table definition may be put into a catalog: the next table with one schema, or one
/// that is there, renamed or with one more compatible schema.
pub open spec fn change_allowed(catalog: Map<u64, TableV>, t: TableV) -> bool {
    &&& valid_name(t.name)
    &&& !name_taken(catalog, t)
    &&& valid_schemas(t.schemas)
    &&& if catalog.contains_key(t.id) {
        t.schemas == catalog[t.id].schemas || evolves(catalog[t.id].schemas, t.schemas)
    } else {
        next_id(catalog, t.id) && t.schemas.len() == 1 && t.schemas[0].version == 1
    }
}

fn same_field(a: &Field, b: &Field) -> (same: bool)
    ensures
        same == (a@ == b@),
{
    a.id == b.id && a.name == b.name && a.data_type == b.data_type && a.nullable == b.nullable
}

fn same_schema(a: &Schema, b: &Schema) -> (same: bool)
    ensures
        same == (a@ == b@),
{
    if a.version != b.version || a.fields.len() != b.fields.len() {
        assert(a@.fields.len() == a.fields@.len() && b@.fields.len() == b.fields@.len());
        return false;
    }
    let mut i: usize = 0;
    while i < a.fields.len()
        invariant
            i <= a.fields@.len(),
            a.fields@.len() == b.fields@.len(),
            forall|j: int| 0 <= j < i ==> (#[trigger] a@.fields[j]) == b@.fields[j],
        decreases a.fields@.len() - i,
    {
        if !same_field(&a.fields[i], &b.fields[i]) {
            assert(a@.fields[i as int] != b@.fields[i as int]);
            return false;
        }
        i = i + 1;
    }
    assert(a@.fields =~= b@.fields);
    true
}

/// Whether the first schemas of a table are those of another.
fn starts_with(a: &Vec<Schema>, b: &Vec<Schema>) -> (r: bool)
    requires
        a@.len() >= b@.len(),
    ensures
        r == (schemas_view(a@).take(b@.len() as int) == schemas_view(b@)),
{
    let mut i: usize = 0;
    while i < b.len()
        invariant
            i <= b@.len() <= a@.len(),
            forall|j: int| 0 <= j < i ==> (#[trigger] a@[j])@ == b@[j]@,
        decreases b@.len() - i,
    {
        if !same_schema(&a[i], &b[i]) {
            assert(schemas_view(a@).take(b@.len() as int)[i as int] != schemas_view(
                b@,
            )[i as int]);
            return false;
        }
        i = i + 1;
    }
    assert(schemas_view(a@).take(b@.len() as int) =~= schemas_view(b@));
    true
}

/// What schemas stand for.
pub open spec fn schemas_view(s: Seq<Schema>) -> Seq<SchemaV> {
    s.map_values(|x: Schema| x@)
}

fn keeps(fields: &Vec<Field>, f: &Field) -> (r: bool)
    ensures
        r == preserved(fields@.map_values(|x: Field| x@), f@),
{
    let ghost s = fields@.map_values(|x: Field| x@);
    let mut i: usize = 0;
    while i < fields.len()
        invariant
            i <= fields@.len(),
            s == fields@.map_values(|x: Field| x@),
            forall|j: int|
                0 <= j < i ==> !((#[trigger] s[j]).id == f.id && s[j].data_type == f.data_type
                    && s[j].nullable == f.nullable),
        decreases fields@.len() - i,
    {
        let g = &fields[i];
        assert(s[i as int] == g@);
        if g.id == f.id && g.data_type == f.data_type && g.nullable == f.nullable {
            return true;
        }
        i = i + 1;
    }
    false
}

fn names_field(fields: &Vec<Field>, id: u32) -> (r: bool)
    ensures
        r == has_field(fields@.map_values(|x: Field| x@), id),
{
    let ghost s = fields@.map_values(|x: Field| x@);
    let mut i: usize = 0;
    while i < fields.len()
        invariant
            i <= fields@.len(),
            s == fields@.map_values(|x: Field| x@),
            forall|j: int| 0 <= j < i ==> (#[trigger] s[j]).id != id,
        decreases fields@.len() - i,
    {
        assert(s[i as int] == fields@[i as int]@);
        if fields[i].id == id {
            return true;
        }
        i = i + 1;
    }
    false
}

/// Checks that a schema may follow another.
fn check_compatible(before: &Schema, after: &Schema) -> (r: Result<()>)
    ensures
        match r {
            Ok(_) => compatible(before@, after@),
            Err(e) => !compatible(before@, after@) && e is Invalid,
        },
{
    let mut i: usize = 0;
    while i < before.fields.len()
        invariant
            i <= before.fields@.len(),
            forall|j: int|
                0 <= j < i ==> preserved(after@.fields, #[trigger] before@.fields[j]),
        decreases before.fields@.len() - i,
    {
        assert(before@.fields[i as int] == before.fields@[i as int]@);
        if !keeps(&after.fields, &before.fields[i]) {
            assert(!preserved(after@.fields, before@.fields[i as int]));
            return Err(invalid("existing field IDs, types and nullability must be preserved"));
        }
        i = i + 1;
    }
    let mut i: usize = 0;
    while i < after.fields.len()
        invariant
            i <= after.fields@.len(),
            forall|j: int|
                0 <= j < before@.fields.len() ==> preserved(
                    after@.fields,
                    #[trigger] before@.fields[j],
                ),
            forall|j: int|
                0 <= j < i ==> has_field(before@.fields, (#[trigger] after@.fields[j]).id)
                    || after@.fields[j].nullable,
        decreases after.fields@.len() - i,
    {
        assert(after@.fields[i as int] == after.fields@[i as int]@);
        if !names_field(&before.fields, after.fields[i].id) && !after.fields[i].nullable {
            assert(!has_field(before@.fields, after@.fields[i as int].id));
            return Err(invalid("new fields must be nullable"));
        }
        i = i + 1;
    }
    Ok(())
}

/// What the tables of a catalog stand for.
pub open spec fn catalog_view(catalog: Map<u64, Table>) -> Map<u64, TableV> {
    catalog.map_values(|t: Table| t@)
}

fn takes_name(catalog: &OrderedMap<u64, Table>, table: &Table) -> (r: bool)
    ensures
        r == name_taken(catalog_view(catalog@), table@),
{
    let items = catalog.items();
    let ghost s = catalog.entries();
    let ghost m = catalog_view(catalog@);
    let count: usize = items.len();
    proof {
        assert(items@.map_values(|e: (&u64, &Table)| (*e.0, *e.1)).len() == items@.len());
    }
    let mut i: usize = 0;
    while i < count
        invariant
            i <= count,
            count == items@.len(),
            s == catalog.entries(),
            m == catalog_view(catalog@),
            items@.map_values(|e: (&u64, &Table)| (*e.0, *e.1)) == s,
            lists(s, catalog@),
            forall|j: int|
                0 <= j < i ==> !((#[trigger] s[j]).1@.id != table.id && s[j].1@.name
                    == table@.name),
        decreases count - i,
    {
        let (k, t) = items[i];
        proof {
            assert(items@.map_values(|e: (&u64, &Table)| (*e.0, *e.1))[i as int] == (*k, *t));
        }
        if t.id != table.id && t.name == table.name {
            proof {
                reveal(lists);
                assert(catalog@.contains_key(s[i as int].0));
                assert(m.contains_key(s[i as int].0));
            }
            return true;
        }
        i = i + 1;
    }
    proof {
        assert(items@.map_values(|e: (&u64, &Table)| (*e.0, *e.1)).len() == items@.len());
        reveal(lists);
        if name_taken(m, table@) {
            let id = choose|id: u64| #[trigger]
                m.contains_key(id) && m[id].id != table.id && m[id].name == table@.name;
            assert(catalog@.contains_key(id));
            let j = choose|j: int| 0 <= j < s.len() && (#[trigger] s[j]).0 == id;
            assert(s[j].1@.id != table.id);
        }
    }
    false
}

/// The greatest identifier of a catalog, or zero.
pub fn last_id(catalog: &OrderedMap<u64, Table>) -> (id: u64)
    ensures
        forall|k: u64| #[trigger] catalog@.contains_key(k) ==> k <= id,
        id == 0 || catalog@.contains_key(id),
{
    let last: u64 = u64::MAX;
    match catalog.floor(&last) {
        Some((id, _)) => *id,
        None => 0,
    }
}

/// Checks that a table definition may be put into a catalog.
pub fn validate_table_change(catalog: &OrderedMap<u64, Table>, table: &Table) -> (r: Result<()>)
    ensures
        match r {
            Ok(_) => change_allowed(catalog_view(catalog@), table@),
            Err(Error::AlreadyExists(name)) => valid_name(table@.name) && name_taken(
                catalog_view(catalog@),
                table@,
            ) && name@ == table@.name,
            Err(e) => !change_allowed(catalog_view(catalog@), table@) && e is Invalid && !(
            valid_name(table@.name) && name_taken(catalog_view(catalog@), table@)),
        },
{
    validate_name(table.name.as_str())?;
    if takes_name(catalog, table) {
        return Err(Error::AlreadyExists(table.name.clone()));
    }
    let ghost m = catalog_view(catalog@);
    let count: usize = table.schemas.len();
    assert(table@.schemas.len() == count);
    if count == 0 {
        return Err(invalid("table needs a schema"));
    }
    let mut i: usize = 0;
    while i < count
        invariant
            i <= count,
            count == table.schemas@.len(),
            !name_taken(catalog_view(catalog@), table@),
            forall|j: int| 0 <= j < i ==> valid_schema(#[trigger] table@.schemas[j]),
        decreases count - i,
    {
        assert(table@.schemas[i as int] == table.schemas@[i as int]@);
        table.schemas[i].validate()?;
        i = i + 1;
    }
    match catalog.get(&table.id) {
        Some(before) => {
            let known: usize = before.schemas.len();
            assert(m.contains_key(table.id) && m[table.id] == before@);
            assert(before@.schemas == schemas_view(before.schemas@));
            assert(table@.schemas == schemas_view(table.schemas@));
            if count == known && starts_with(&table.schemas, &before.schemas) {
                assert(table@.schemas.take(known as int) =~= table@.schemas);
                return Ok(());
            }
            proof {
                if count == known {
                    assert(table@.schemas.take(known as int) =~= table@.schemas);
                }
            }
            if known == 0 || count - 1 != known || !starts_with(&table.schemas, &before.schemas)
                || table.schema().version == 0 || table.schema().version - 1
                != before.schema().version {
                return Err(invalid("invalid schema evolution"));
            }
            check_compatible(before.schema(), table.schema())
        },
        None => {
            let last: u64 = last_id(catalog);
            proof {
                assert forall|k: u64| m.contains_key(k) == #[trigger] catalog@.contains_key(k) by {
                }
                if next_id(m, table.id) {
                    if last != 0 {
                        assert(m.contains_key(last));
                    }
                    if table.id != 1 {
                        assert(catalog@.contains_key((table.id - 1) as u64));
                    }
                    assert(table.id == last + 1);
                }
                if table.id >= 1 && table.id - 1 == last {
                    assert(next_id(m, table.id));
                }
            }
            if table.id == 0 || table.id - 1 != last || count != 1 || table.schema().version
                != 1 {
                return Err(invalid("new table requires the next ID and schema version one"));
            }
            Ok(())
        },
    }
}

/// Whether a catalog holds valid tables under their identifiers, no two of one name.
pub open spec fn sound_catalog(catalog: Map<u64, TableV>) -> bool {
    &&& forall|id: u64| #[trigger]
        catalog.contains_key(id) ==> catalog[id].id == id && valid_table(catalog[id])
    &&& crate::snapshot::distinct_names(catalog)
}

/// An allowed change keeps a catalog sound, and every schema that history may refer to.
pub proof fn lemma_change(catalog: Map<u64, TableV>, t: TableV)
    requires
        sound_catalog(catalog),
        change_allowed(catalog, t),
    ensures
        sound_catalog(catalog.insert(t.id, t)),
        catalog.contains_key(t.id) ==> t.schemas.len() >= catalog[t.id].schemas.len()
            && t.schemas.take(catalog[t.id].schemas.len() as int) == catalog[t.id].schemas,
{
    let n = catalog.insert(t.id, t);
    if catalog.contains_key(t.id) {
        let old_table = catalog[t.id];
        assert(valid_table(old_table));
        if t.schemas == old_table.schemas {
            assert(t.schemas.take(t.schemas.len() as int) =~= t.schemas);
        }
        assert forall|i: int| 0 <= i < t.schemas.len() implies valid_schema(#[trigger] t.schemas[i])
            && t.schemas[i].version == i + 1 by {
            let m = old_table.schemas.len();
            assert(old_table.schemas[m - 1].version == m);
            if i < m {
                assert(t.schemas.take(m as int)[i] == old_table.schemas[i]);
            }
        }
    }
    assert(valid_table(t));
    assert forall|a: u64, b: u64| #[trigger] n.contains_key(a) && #[trigger] n.contains_key(b) && a
        != b implies n[a].name != n[b].name by {
        if a == t.id {
            assert(catalog.contains_key(b));
        } else if b == t.id {
            assert(catalog.contains_key(a));
        } else {
            assert(catalog.contains_key(a) && catalog.contains_key(b));
        }
    }
}

} // verus!
