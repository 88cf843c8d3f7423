//! Tables, schemas, entities and events.

use crate::codec::MAX_RECORD;
use crate::error::corrupt;
use crate::error::invalid;
use crate::error::Error;
use crate::error::Result;
use crate::key::entries32;
use crate::key::lists;
use crate::record::enc_fields;
use crate::record::fields_encoded_len;
use crate::text::label;
use std::collections::BTreeMap;
use vstd::prelude::*;
use vstd::string::StringExecFns;
use vstd::utf8::encode_utf8;

verus! {

/// A stable table identifier.
pub type TableId = u64;

/// A caller-assigned entity identifier, scoped to one table.
pub type EntityId = u64;

/// Assignments keyed by stable field identifier.
pub type Fields = BTreeMap<u32, Value>;

/// A field's declared type.
#[derive(Clone, Copy, Debug, PartialEq, Eq, Structural)]
pub enum DataType {
    /// A boolean.
    Bool,
    /// A signed 64-bit integer.
    Int64,
    /// An unsigned 64-bit integer.
    UInt64,
    /// A finite IEEE 754 double.
    Float64,
    /// UTF-8 text.
    Text,
    /// Arbitrary bytes.
    Bytes,
}

/// A typed field value. Null is distinct from an omitted assignment.
#[derive(Debug, PartialEq)]
pub enum Value {
    /// Explicit null.
    Null,
    /// A boolean.
    Bool(bool),
    /// A signed integer.
    Int64(i64),
    /// An unsigned integer.
    UInt64(u64),
    /// The bits of a finite double.
    Float64(u64),
    /// UTF-8 text.
    Text(String),
    /// Arbitrary bytes.
    Bytes(Vec<u8>),
}

/// What a field value stands for.
pub enum ValueV {
    /// Explicit null.
    Null,
    /// A boolean.
    Bool(bool),
    /// A signed integer.
    Int64(i64),
    /// An unsigned integer.
    UInt64(u64),
    /// The bits of a double.
    Float64(u64),
    /// The characters of a text.
    Text(Seq<char>),
    /// A byte string.
    Bytes(Seq<u8>),
}

impl View for Value {
    type V = ValueV;

    open spec fn view(&self) -> ValueV {
        match *self {
            Value::Null => ValueV::Null,
            Value::Bool(b) => ValueV::Bool(b),
            Value::Int64(i) => ValueV::Int64(i),
            Value::UInt64(u) => ValueV::UInt64(u),
            Value::Float64(bits) => ValueV::Float64(bits),
            Value::Text(s) => ValueV::Text(s@),
            Value::Bytes(b) => ValueV::Bytes(b@),
        }
    }
}

impl Clone for Value {
    fn clone(&self) -> (copy: Self)
        ensures
            copy@ == self@,
    {
        match self {
            Value::Null => Value::Null,
            Value::Bool(b) => Value::Bool(*b),
            Value::Int64(i) => Value::Int64(*i),
            Value::UInt64(u) => Value::UInt64(*u),
            Value::Float64(bits) => Value::Float64(*bits),
            Value::Text(s) => Value::Text(s.clone()),
            Value::Bytes(b) => {
                let copy = b.clone();
                assert(copy@ =~= b@);
                Value::Bytes(copy)
            },
        }
    }
}

/// What assignments stand for.
pub open spec fn fields_view(m: Map<u32, Value>) -> Map<u32, ValueV> {
    m.map_values(|v: Value| v@)
}

/// Whether the bits of a double are those of a finite number.
pub open spec fn finite_bits(bits: u64) -> bool {
    (bits / 0x10_0000_0000_0000) % 0x800 != 0x7ff
}

/// Decides whether the bits of a double are those of a finite number.
pub fn is_finite(bits: u64) -> (r: bool)
    ensures
        r == finite_bits(bits),
{
    (bits / 0x10_0000_0000_0000) % 0x800 != 0x7ff
}

/// A field definition. IDs remain stable across schema versions.
#[derive(Debug, PartialEq, Eq)]
pub struct Field {
    /// A nonzero stable identifier.
    pub id: u32,
    /// A human-readable name.
    pub name: String,
    /// The declared value type.
    pub data_type: DataType,
    /// Whether explicit or default null is permitted.
    pub nullable: bool,
}

/// What a field definition stands for.
pub struct FieldV {
    /// The identifier.
    pub id: u32,
    /// The name.
    pub name: Seq<char>,
    /// The declared value type.
    pub data_type: DataType,
    /// Whether null is permitted.
    pub nullable: bool,
}

impl View for Field {
    type V = FieldV;

    open spec fn view(&self) -> FieldV {
        FieldV {
            id: self.id,
            name: self.name@,
            data_type: self.data_type,
            nullable: self.nullable,
        }
    }
}

impl Clone for Field {
    fn clone(&self) -> (copy: Self)
        ensures
            copy == *self,
    {
        Field {
            id: self.id,
            name: self.name.clone(),
            data_type: self.data_type,
            nullable: self.nullable,
        }
    }
}

/// One version of a table's schema.
#[derive(Debug, PartialEq, Eq)]
pub struct Schema {
    /// Monotonically increasing version, starting at one.
    pub version: u64,
    /// Fields in logical schema order.
    pub fields: Vec<Field>,
}

/// What a schema stands for.
pub struct SchemaV {
    /// The version.
    pub version: u64,
    /// The fields in logical order.
    pub fields: Seq<FieldV>,
}

impl View for Schema {
    type V = SchemaV;

    open spec fn view(&self) -> SchemaV {
        SchemaV { version: self.version, fields: self.fields@.map_values(|f: Field| f@) }
    }
}

impl Clone for Schema {
    fn clone(&self) -> (copy: Self)
        ensures
            copy@ == self@,
    {
        let mut fields: Vec<Field> = Vec::new();
        for i in 0..self.fields.len()
            invariant
                fields@ == self.fields@.take(i as int),
        {
            fields.push(self.fields[i].clone());
            assert(fields@ =~= self.fields@.take(i + 1));
        }
        assert(fields@ =~= self.fields@);
        Schema { version: self.version, fields }
    }
}

/// A table definition with all schema versions needed by its history.
#[derive(Debug, PartialEq, Eq)]
pub struct Table {
    /// Stable table ID, independent of its name.
    pub id: TableId,
    /// Current table name.
    pub name: String,
    /// Schema history in increasing version order.
    pub schemas: Vec<Schema>,
}

/// What a table definition stands for.
pub struct TableV {
    /// The identifier.
    pub id: u64,
    /// The name.
    pub name: Seq<char>,
    /// The schemas in the order of their versions.
    pub schemas: Seq<SchemaV>,
}

impl View for Table {
    type V = TableV;

    open spec fn view(&self) -> TableV {
        TableV {
            id: self.id,
            name: self.name@,
            schemas: self.schemas@.map_values(|s: Schema| s@),
        }
    }
}

impl Clone for Table {
    fn clone(&self) -> (copy: Self)
        ensures
            copy@ == self@,
    {
        let mut schemas: Vec<Schema> = Vec::new();
        for i in 0..self.schemas.len()
            invariant
                schemas@.len() == i,
                forall|j: int| 0 <= j < i ==> (#[trigger] schemas@[j])@ == self.schemas@[j]@,
        {
            schemas.push(self.schemas[i].clone());
        }
        let copy = Table { id: self.id, name: self.name.clone(), schemas };
        assert(copy@.schemas =~= self@.schemas);
        copy
    }
}

/// An entity state at one version, including a deletion tombstone.
#[derive(Debug, PartialEq)]
pub struct Entity {
    /// Stable entity ID.
    pub id: EntityId,
    /// Entity version; creation establishes version zero.
    pub version: u64,
    /// Schema used to interpret these fields.
    pub schema_version: u64,
    /// Whether this state represents a deleted entity.
    pub deleted: bool,
    /// Complete typed state.
    pub fields: Fields,
}

/// What an entity state stands for.
pub struct EntityV {
    /// The identifier.
    pub id: u64,
    /// The entity version.
    pub version: u64,
    /// The schema version.
    pub schema_version: u64,
    /// Whether the entity is deleted.
    pub deleted: bool,
    /// The values by field identifier.
    pub fields: Map<u32, ValueV>,
}

impl View for Entity {
    type V = EntityV;

    open spec fn view(&self) -> EntityV {
        EntityV {
            id: self.id,
            version: self.version,
            schema_version: self.schema_version,
            deleted: self.deleted,
            fields: fields_view(self.fields@),
        }
    }
}

impl Clone for Entity {
    fn clone(&self) -> (copy: Self)
        ensures
            copy@ == self@,
    {
        Entity {
            id: self.id,
            version: self.version,
            schema_version: self.schema_version,
            deleted: self.deleted,
            fields: self.fields.clone(),
        }
    }
}

/// The kind of a retained event.
#[derive(Clone, Copy, Debug, PartialEq, Eq, Structural)]
pub enum EventKind {
    /// Assign new field values.
    Apply,
    /// End the entity's active life.
    Delete,
}

/// One committed step in an entity's history.
#[derive(Debug, PartialEq)]
pub struct Event {
    /// Entity version produced by this event.
    pub version: u64,
    /// The shared transaction sequence number.
    pub transaction: u64,
    /// Schema version at the time of this event.
    pub schema_version: u64,
    /// Assignment or deletion.
    pub kind: EventKind,
    /// Assigned values; omitted fields retain their values.
    pub fields: Fields,
}

/// What an event stands for.
pub struct EventV {
    /// The entity version that it produces.
    pub version: u64,
    /// The transaction.
    pub transaction: u64,
    /// The schema version.
    pub schema_version: u64,
    /// Assignment or deletion.
    pub kind: EventKind,
    /// The assigned values.
    pub fields: Map<u32, ValueV>,
}

impl View for Event {
    type V = EventV;

    open spec fn view(&self) -> EventV {
        EventV {
            version: self.version,
            transaction: self.transaction,
            schema_version: self.schema_version,
            kind: self.kind,
            fields: fields_view(self.fields@),
        }
    }
}

impl Clone for Event {
    fn clone(&self) -> (copy: Self)
        ensures
            copy@ == self@,
    {
        Event {
            version: self.version,
            transaction: self.transaction,
            schema_version: self.schema_version,
            kind: self.kind,
            fields: self.fields.clone(),
        }
    }
}

// ---- Names and schemas ----

/// Whether a character is white space.
pub open spec fn white_space(c: char) -> bool {
    let n = c as u32;
    ||| 0x9 <= n <= 0xd
    ||| n == 0x20
    ||| n == 0x85
    ||| n == 0xa0
    ||| n == 0x1680
    ||| 0x2000 <= n <= 0x200a
    ||| n == 0x2028
    ||| n == 0x2029
    ||| n == 0x202f
    ||| n == 0x205f
    ||| n == 0x3000
}

/// Whether a character is a control character.
pub open spec fn control(c: char) -> bool {
    let n = c as u32;
    n <= 0x1f || 0x7f <= n <= 0x9f
}

/// Whether a name has 1 to 255 UTF-8 bytes, no control character, and more than white space.
pub open spec fn valid_name(name: Seq<char>) -> bool {
    &&& encode_utf8(name).len() <= 255
    &&& exists|i: int| 0 <= i < name.len() && !white_space(#[trigger] name[i])
    &&& forall|i: int| 0 <= i < name.len() ==> !control(#[trigger] name[i])
}

/// Accepts the valid names.
pub fn validate_name(name: &str) -> (r: Result<()>)
    ensures
        match r {
            Ok(_) => valid_name(name@),
            Err(e) => !valid_name(name@) && e is Invalid,
        },
{
    let message = "names must contain 1..=255 UTF-8 bytes without control characters";
    if name.as_bytes().len() > 255 {
        return Err(invalid(message));
    }
    let mut blank: bool = true;
    let count: usize = name.unicode_len();
    let mut i: usize = 0;
    while i < count
        invariant
            count == name@.len(),
            i <= count,
            blank == (forall|j: int| 0 <= j < i ==> white_space(#[trigger] name@[j])),
            forall|j: int| 0 <= j < i ==> !control(#[trigger] name@[j]),
        decreases count - i,
    {
        let c: char = name.get_char(i);
        let n: u32 = c as u32;
        if n <= 0x1f || (0x7f <= n && n <= 0x9f) {
            assert(control(name@[i as int]));
            return Err(invalid(message));
        }
        let white: bool = (0x9 <= n && n <= 0xd) || n == 0x20 || n == 0x85 || n == 0xa0 || n
            == 0x1680 || (0x2000 <= n && n <= 0x200a) || n == 0x2028 || n == 0x2029 || n == 0x202f
            || n == 0x205f || n == 0x3000;
        assert(white == white_space(name@[i as int]));
        if !white {
            blank = false;
        }
        i = i + 1;
    }
    if blank {
        return Err(invalid(message));
    }
    Ok(())
}

/// Whether a schema has a version and 1 to 4096 fields with valid names, nonzero identifiers,
/// and no identifier or name twice.
pub open spec fn valid_schema(s: SchemaV) -> bool {
    &&& s.version != 0
    &&& 1 <= s.fields.len() <= 4096
    &&& forall|i: int|
        0 <= i < s.fields.len() ==> valid_name((#[trigger] s.fields[i]).name) && s.fields[i].id != 0
    &&& forall|i: int, j: int|
        0 <= i < j < s.fields.len() ==> (#[trigger] s.fields[i]).id != (#[trigger] s.fields[j]).id
            && s.fields[i].name != s.fields[j].name
}

/// The first field with an identifier.
pub open spec fn find_field(fields: Seq<FieldV>, id: u32) -> Option<FieldV>
    decreases fields.len(),
{
    if fields.len() == 0 {
        None
    } else {
        match find_field(fields.drop_last(), id) {
            Some(f) => Some(f),
            None => if fields.last().id == id {
                Some(fields.last())
            } else {
                None
            },
        }
    }
}

/// Whether a field may hold a value.
pub open spec fn accepts(f: FieldV, v: ValueV) -> bool {
    match v {
        ValueV::Null => f.nullable,
        ValueV::Bool(_) => f.data_type == DataType::Bool,
        ValueV::Int64(_) => f.data_type == DataType::Int64,
        ValueV::UInt64(_) => f.data_type == DataType::UInt64,
        ValueV::Float64(bits) => f.data_type == DataType::Float64 && finite_bits(bits),
        ValueV::Text(_) => f.data_type == DataType::Text,
        ValueV::Bytes(_) => f.data_type == DataType::Bytes,
    }
}

/// Whether every assignment is one that its field accepts.
pub open spec fn accepted(fields: Seq<FieldV>, m: Map<u32, ValueV>) -> bool {
    forall|id: u32| #[trigger]
        m.contains_key(id) ==> find_field(fields, id) is Some && accepts(
            find_field(fields, id).unwrap(),
            m[id],
        )
}

/// Whether every field that is left out may be null.
pub open spec fn omissible(fields: Seq<FieldV>, m: Map<u32, ValueV>) -> bool {
    forall|id: u32|
        !m.contains_key(id) && (#[trigger] find_field(fields, id)) is Some ==> find_field(
            fields,
            id,
        ).unwrap().nullable
}

/// The assignments with null for each field that is left out.
pub open spec fn completed(fields: Seq<FieldV>, m: Map<u32, ValueV>) -> Map<u32, ValueV>
    decreases fields.len(),
{
    if fields.len() == 0 {
        m
    } else {
        let n = completed(fields.drop_last(), m);
        if n.contains_key(fields.last().id) {
            n
        } else {
            n.insert(fields.last().id, ValueV::Null)
        }
    }
}

/// What a schema makes of assignments, if it takes them.
pub open spec fn normalized(s: SchemaV, m: Map<u32, ValueV>, complete: bool) -> Option<
    Map<u32, ValueV>,
> {
    let n = if complete {
        completed(s.fields, m)
    } else {
        m
    };
    if accepted(s.fields, m) && (complete ==> omissible(s.fields, m)) && enc_fields(n).len()
        <= MAX_RECORD / 2 {
        Some(n)
    } else {
        None
    }
}

/// Completing assignments keeps them and adds null for exactly the other fields.
pub proof fn lemma_completed(fields: Seq<FieldV>, m: Map<u32, ValueV>)
    ensures
        forall|id: u32| #[trigger]
            completed(fields, m).contains_key(id) <==> m.contains_key(id) || find_field(fields, id)
                is Some,
        forall|id: u32| #[trigger]
            completed(fields, m).contains_key(id) ==> completed(fields, m)[id]
                == if m.contains_key(id) {
                m[id]
            } else {
                ValueV::Null
            },
        m.dom().finite() ==> completed(fields, m).dom().finite(),
    decreases fields.len(),
{
    if fields.len() > 0 {
        lemma_completed(fields.drop_last(), m);
    }
}

impl Schema {
    /// Creates and validates version one of a schema.
    pub fn new(fields: Vec<Field>) -> (r: Result<Self>)
        ensures
            ({
                let s = SchemaV { version: 1, fields: fields@.map_values(|f: Field| f@) };
                match r {
                    Ok(schema) => valid_schema(s) && schema@ == s,
                    Err(e) => !valid_schema(s) && e is Invalid,
                }
            }),
    {
        let schema = Self { version: 1, fields };
        schema.validate()?;
        Ok(schema)
    }

    /// Accepts the valid schemas.
    pub fn validate(&self) -> (r: Result<()>)
        ensures
            match r {
                Ok(_) => valid_schema(self@),
                Err(e) => !valid_schema(self@) && e is Invalid,
            },
    {
        let count: usize = self.fields.len();
        if self.version == 0 || count == 0 || count > 4096 {
            return Err(invalid("a schema needs a version and 1..=4096 fields"));
        }
        let ghost all = self@.fields;
        let mut i: usize = 0;
        while i < count
            invariant
                count == self.fields@.len(),
                all == self@.fields,
                i <= count,
                forall|a: int| 0 <= a < i ==> valid_name((#[trigger] all[a]).name) && all[a].id != 0,
                forall|a: int, b: int|
                    0 <= a < b < i ==> (#[trigger] all[a]).id != (#[trigger] all[b]).id
                        && all[a].name != all[b].name,
            decreases count - i,
        {
            let field = &self.fields[i];
            assert(all[i as int] == field@);
            validate_name(field.name.as_str())?;
            if field.id == 0 {
                return Err(invalid("field IDs and names must be unique and nonzero"));
            }
            let mut j: usize = 0;
            while j < i
                invariant
                    i < count,
                    count == self.fields@.len(),
                    all == self@.fields,
                    j <= i,
                    *field == self.fields@[i as int],
                    all[i as int] == field@,
                    forall|a: int|
                        0 <= a < j ==> (#[trigger] all[a]).id != field.id && all[a].name
                            != field.name@,
                decreases i - j,
            {
                assert(all[j as int] == self.fields@[j as int]@);
                if self.fields[j].id == field.id || self.fields[j].name == field.name {
                    return Err(invalid("field IDs and names must be unique and nonzero"));
                }
                j = j + 1;
            }
            i = i + 1;
        }
        Ok(())
    }

    /// The first field with an identifier.
    fn find(&self, id: u32) -> (r: Option<&Field>)
        ensures
            match r {
                Some(f) => find_field(self@.fields, id) == Some(f@),
                None => find_field(self@.fields, id) is None,
            },
    {
        let count: usize = self.fields.len();
        let ghost all = self@.fields;
        let mut i: usize = 0;
        while i < count
            invariant
                count == self.fields@.len(),
                all == self@.fields,
                i <= count,
                find_field(all.take(i as int), id) is None,
            decreases count - i,
        {
            assert(all.take(i + 1).drop_last() =~= all.take(i as int));
            if self.fields[i].id == id {
                proof {
                    lemma_find_more(all, i + 1, id);
                }
                return Some(&self.fields[i]);
            }
            i = i + 1;
        }
        assert(all.take(count as int) =~= all);
        None
    }

    /// Checks assignments against this schema; where they must be complete, fills in null for
    /// what is left out. On an error some of the nulls may have been filled in.
    pub fn normalize(&self, fields: &mut Fields, complete: bool) -> (r: Result<()>)
        ensures
            match r {
                Ok(_) => normalized(self@, fields_view(old(fields)@), complete) == Some(
                    fields_view(final(fields)@),
                ),
                Err(e) => normalized(self@, fields_view(old(fields)@), complete) is None && e
                    is Invalid,
            },
            forall|id: u32| #[trigger]
                old(fields)@.contains_key(id) ==> final(fields)@.contains_key(id)
                    && final(fields)@[id] == old(fields)@[id],
            forall|id: u32| #[trigger]
                final(fields)@.contains_key(id) ==> old(fields)@.contains_key(id)
                    || final(fields)@[id] is Null,
    {
        let ghost m = fields_view(fields@);
        let ghost all = self@.fields;
        let entries = entries32(&*fields);
        let total: usize = entries.len();
        proof {
            reveal(lists);
        }
        let ghost listed = entries@.map_values(|e: (u32, &Value)| (e.0, *e.1));
        let mut i: usize = 0;
        while i < total
            invariant
                total == entries@.len(),
                i <= total,
                all == self@.fields,
                m == fields_view(fields@),
                listed == entries@.map_values(|e: (u32, &Value)| (e.0, *e.1)),
                lists(listed, fields@),
                forall|j: int|
                    0 <= j < i ==> find_field(all, (#[trigger] entries@[j]).0) is Some && accepts(
                        find_field(all, entries@[j].0).unwrap(),
                        entries@[j].1@,
                    ),
            decreases total - i,
        {
            let (id, value) = entries[i];
            proof {
                reveal(lists);
                assert(listed[i as int] == (id, *value));
                assert(m.contains_key(id) && m[id] == value@);
            }
            match self.find(id) {
                None => {
                    return Err(Error::Invalid(label("unknown field ", id as u64)));
                },
                Some(field) => {
                    let valid: bool = match value {
                        Value::Null => field.nullable,
                        Value::Bool(_) => field.data_type == DataType::Bool,
                        Value::Int64(_) => field.data_type == DataType::Int64,
                        Value::UInt64(_) => field.data_type == DataType::UInt64,
                        Value::Float64(bits) => field.data_type == DataType::Float64 && is_finite(
                            *bits,
                        ),
                        Value::Text(_) => field.data_type == DataType::Text,
                        Value::Bytes(_) => field.data_type == DataType::Bytes,
                    };
                    if !valid {
                        return Err(
                            Error::Invalid(label("wrong type or null for field ", id as u64)),
                        );
                    }
                },
            }
            i = i + 1;
        }
        proof {
            assert forall|id: u32| #[trigger] m.contains_key(id) implies find_field(all, id)
                is Some && accepts(find_field(all, id).unwrap(), m[id]) by {
                reveal(lists);
                assert(fields@.contains_key(id));
                let j = choose|j: int| 0 <= j < listed.len() && (#[trigger] listed[j]).0 == id;
                assert(listed[j] == (entries@[j].0, *entries@[j].1));
            }
            assert(accepted(all, m));
            assert(all.take(0) =~= Seq::empty());
        }
        if complete {
            let count: usize = self.fields.len();
            let mut i: usize = 0;
            while i < count
                invariant
                    count == self.fields@.len(),
                    all == self@.fields,
                    m == fields_view(old(fields)@),
                    complete,
                    i <= count,
                    fields_view(fields@) == completed(all.take(i as int), m),
                    omissible(all.take(i as int), m),
                    forall|id: u32| #[trigger]
                        old(fields)@.contains_key(id) ==> fields@.contains_key(id) && fields@[id]
                            == old(fields)@[id],
                    forall|id: u32| #[trigger]
                        fields@.contains_key(id) ==> old(fields)@.contains_key(id) || fields@[id]
                            is Null,
                decreases count - i,
            {
                let field = &self.fields[i];
                let id: u32 = field.id;
                proof {
                    assert(all.take(i + 1).drop_last() =~= all.take(i as int));
                    assert(all[i as int] == field@);
                    lemma_completed(all.take(i as int), m);
                    assert(fields@.contains_key(id) == fields_view(fields@).contains_key(id));
                    assert forall|other: u32| (#[trigger] find_field(all.take(i + 1), other))
                        == match find_field(all.take(i as int), other) {
                        Some(f) => Some(f),
                        None => if id == other {
                            Some(field@)
                        } else {
                            None
                        },
                    } by {}
                }
                if !fields.contains_key(&id) {
                    if !field.nullable {
                        proof {
                            lemma_find_more(all, i + 1, id);
                            assert(find_field(all, id) == Some(field@));
                            assert(!m.contains_key(id));
                            assert(!omissible(all, m));
                        }
                        return Err(Error::Invalid(label("missing field ", id as u64)));
                    }
                    let ghost before = fields@;
                    fields.insert(id, Value::Null);
                    assert(fields_view(fields@) =~= fields_view(before).insert(id, ValueV::Null));
                }
                i = i + 1;
            }
            assert(all.take(count as int) =~= all);
        }
        if fields_encoded_len(&*fields) > MAX_RECORD / 2 {
            return Err(invalid("row exceeds 8 MiB"));
        }
        Ok(())
    }
}

/// What the first fields hold, all the fields hold.
proof fn lemma_find_more(fields: Seq<FieldV>, count: int, id: u32)
    requires
        0 <= count <= fields.len(),
        find_field(fields.take(count), id) is Some,
    ensures
        find_field(fields, id) == find_field(fields.take(count), id),
    decreases fields.len() - count,
{
    if count < fields.len() {
        assert(fields.take(count + 1).drop_last() =~= fields.take(count));
        lemma_find_more(fields, count + 1, id);
    } else {
        assert(fields.take(count) =~= fields);
    }
}

// ---- Tables and events ----

/// The first schema with a version.
pub open spec fn find_schema(schemas: Seq<SchemaV>, version: u64) -> Option<SchemaV>
    decreases schemas.len(),
{
    if schemas.len() == 0 {
        None
    } else {
        match find_schema(schemas.drop_last(), version) {
            Some(s) => Some(s),
            None => if schemas.last().version == version {
                Some(schemas.last())
            } else {
                None
            },
        }
    }
}

proof fn lemma_find_later(schemas: Seq<SchemaV>, count: int, version: u64)
    requires
        0 <= count <= schemas.len(),
        find_schema(schemas.take(count), version) is Some,
    ensures
        find_schema(schemas, version) == find_schema(schemas.take(count), version),
    decreases schemas.len() - count,
{
    if count < schemas.len() {
        assert(schemas.take(count + 1).drop_last() =~= schemas.take(count));
        lemma_find_later(schemas, count + 1, version);
    } else {
        assert(schemas.take(count) =~= schemas);
    }
}

/// Where schemas are numbered from one, a version's schema stands in its place.
pub proof fn lemma_find_numbered(schemas: Seq<SchemaV>, version: u64)
    requires
        forall|i: int| 0 <= i < schemas.len() ==> (#[trigger] schemas[i]).version == i + 1,
    ensures
        find_schema(schemas, version) == (if 1 <= version <= schemas.len() {
            Some(schemas[version - 1])
        } else {
            None
        }),
    decreases schemas.len(),
{
    if schemas.len() > 0 {
        let t = schemas.drop_last();
        assert forall|i: int| 0 <= i < t.len() implies (#[trigger] t[i]).version == i + 1 by {
            assert(t[i] == schemas[i]);
        }
        lemma_find_numbered(t, version);
        assert(schemas[schemas.len() - 1].version == schemas.len());
    }
}

impl Table {
    /// Returns the latest schema.
    pub fn schema(&self) -> (r: &Schema)
        requires
            self.schemas@.len() > 0,
        ensures
            *r == self.schemas@.last(),
            r@ == self@.schemas.last(),
    {
        &self.schemas[self.schemas.len() - 1]
    }

    /// Returns the schema with a version.
    pub fn version(&self, version: u64) -> (r: Result<&Schema>)
        ensures
            match r {
                Ok(s) => find_schema(self@.schemas, version) == Some(s@),
                Err(e) => find_schema(self@.schemas, version) is None && e is Corrupt,
            },
    {
        let count: usize = self.schemas.len();
        let ghost all = self@.schemas;
        let mut i: usize = 0;
        while i < count
            invariant
                count == self.schemas@.len(),
                all == self@.schemas,
                i <= count,
                find_schema(all.take(i as int), version) is None,
            decreases count - i,
        {
            assert(all.take(i + 1).drop_last() =~= all.take(i as int));
            if self.schemas[i].version == version {
                proof {
                    lemma_find_later(all, i + 1, version);
                }
                return Ok(&self.schemas[i]);
            }
            i = i + 1;
        }
        assert(all.take(count as int) =~= all);
        Err(corrupt("unknown schema version"))
    }
}

/// Whether an event is the next one of a live entity and names a known schema.
pub open spec fn next_event(state: EntityV, event: EventV, table: TableV) -> bool {
    &&& !state.deleted
    &&& event.version == state.version + 1
    &&& find_schema(table.schemas, event.schema_version) is Some
}

/// The state after an event, if the event can follow.
pub open spec fn applied(state: EntityV, event: EventV, table: TableV) -> Option<EntityV> {
    if next_event(state, event, table) {
        match normalized(
            find_schema(table.schemas, event.schema_version).unwrap(),
            state.fields.union_prefer_right(event.fields),
            true,
        ) {
            Some(fields) => Some(
                EntityV {
                    id: state.id,
                    version: event.version,
                    schema_version: event.schema_version,
                    deleted: event.kind == EventKind::Delete,
                    fields,
                },
            ),
            None => None,
        }
    } else {
        None
    }
}

/// Assigns `from`'s values over those of `fields`.
pub fn extend_fields(fields: &mut Fields, from: &Fields)
    ensures
        fields_view(final(fields)@) == fields_view(old(fields)@).union_prefer_right(
            fields_view(from@),
        ),
{
    let entries = entries32(from);
    let total: usize = entries.len();
    let ghost listed = entries@.map_values(|e: (u32, &Value)| (e.0, *e.1));
    let ghost base = fields_view(fields@);
    let ghost added = fields_view(from@);
    let mut i: usize = 0;
    while i < total
        invariant
            total == entries@.len(),
            i <= total,
            listed == entries@.map_values(|e: (u32, &Value)| (e.0, *e.1)),
            lists(listed, from@),
            base == fields_view(old(fields)@),
            added == fields_view(from@),
            forall|k: u32| #[trigger]
                fields@.contains_key(k) <==> base.contains_key(k) || exists|j: int|
                    0 <= j < i && (#[trigger] listed[j]).0 == k,
            forall|k: u32| #[trigger]
                fields@.contains_key(k) ==> fields@[k]@ == (if exists|j: int|
                    0 <= j < i && (#[trigger] listed[j]).0 == k {
                    added[k]
                } else {
                    base[k]
                }),
        decreases total - i,
    {
        let (id, value) = entries[i];
        proof {
            reveal(lists);
            assert(listed[i as int] == (id, *value));
            assert(added[id] == value@);
        }
        fields.insert(id, value.clone());
        i = i + 1;
    }
    proof {
        reveal(lists);
        let merged = base.union_prefer_right(added);
        assert forall|k: u32| #[trigger] fields@.contains_key(k) == merged.contains_key(k) by {
            if added.contains_key(k) {
                assert(from@.contains_key(k));
            }
            if exists|j: int| 0 <= j < total && (#[trigger] listed[j]).0 == k {
                assert(from@.contains_key(k));
            }
        }
        assert forall|k: u32| #[trigger] fields@.contains_key(k) implies fields@[k]@
            == merged[k] by {
            if added.contains_key(k) {
                assert(from@.contains_key(k));
            }
            if exists|j: int| 0 <= j < total && (#[trigger] listed[j]).0 == k {
                assert(from@.contains_key(k));
            }
        }
        assert(fields_view(fields@) =~= merged);
    }
}

/// Moves an entity state over one event. A refused event leaves the state as it was.
pub fn apply_event(state: &mut Entity, event: &Event, table: &Table) -> (r: Result<()>)
    ensures
        match r {
            Ok(_) => applied(old(state)@, event@, table@) == Some(final(state)@),
            Err(e) => {
                &&& applied(old(state)@, event@, table@) is None
                &&& *final(state) == *old(state)
                &&& if next_event(old(state)@, event@, table@) {
                    e is Invalid
                } else {
                    e is Corrupt
                }
            },
        },
{
    if state.deleted || state.version == u64::MAX || state.version + 1 != event.version {
        return Err(corrupt("invalid entity version or event after deletion"));
    }
    let schema = table.version(event.schema_version)?;
    let mut fields = state.fields.clone();
    extend_fields(&mut fields, &event.fields);
    schema.normalize(&mut fields, true)?;
    state.fields = fields;
    state.schema_version = event.schema_version;
    state.version = event.version;
    state.deleted = event.kind == EventKind::Delete;
    Ok(())
}

/// What events stand for.
pub open spec fn events_view(events: Seq<Event>) -> Seq<EventV> {
    events.map_values(|e: Event| e@)
}

} // verus!
