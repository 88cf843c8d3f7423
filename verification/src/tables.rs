//! What tables are: which names and schemas there can be, how a catalog changes, and that what an
//! entity holds outlives every change of its table.

use crate::behaviour::declares;
use crate::behaviour::holds_value;
use crate::behaviour::suits;
use crate::behaviour::well_typed;
use crate::error::Fault;
use crate::model::control;
use crate::model::valid_name;
use crate::model::valid_schema;
use crate::model::white_space;
use crate::model::FieldV;
use crate::model::SchemaV;
use crate::model::TableV;
use crate::model::ValueV;
use crate::operation::change_allowed;
use crate::operation::has_field;
use crate::operation::lemma_change;
use crate::operation::preserved;
use crate::operation::sound_catalog;
use crate::operation::OpV;
use crate::reader::StateV;
use crate::record::valid_table;
use crate::staging::executed;
use crate::staging::WritesV;
use crate::storage::pager::Files;
use vstd::prelude::*;
use vstd::utf8::encode_scalar;
use vstd::utf8::encode_utf8;

verus! {

// ---- Names ----

proof fn lemma_ascii(name: Seq<char>)
    requires
        forall|i: int| 0 <= i < name.len() ==> (#[trigger] name[i]) as u32 <= 0x7e,
    ensures
        encode_utf8(name).len() == name.len(),
    decreases name.len(),
{
    if name.len() > 0 {
        let more = name.drop_first();
        assert forall|i: int| 0 <= i < more.len() implies (#[trigger] more[i]) as u32 <= 0x7e by {
            assert(more[i] == name[i + 1]);
        }
        lemma_ascii(more);
        assert(encode_scalar(name[0] as u32).len() == 1);
    }
}

/// A name is not longer than 255 bytes, not empty, and holds no line end, no tabulator and no
/// other control character; spaces alone are no name. Every other name of printable ASCII
/// characters with up to 255 of them is one, and so are two names behind each other that are not
/// too long.
pub proof fn lemma_names(name: Seq<char>, other: Seq<char>)
    ensures
        valid_name(name) ==> 0 < name.len() && encode_utf8(name).len() <= 255,
        forall|i: int|
            0 <= i < name.len() && ((#[trigger] name[i]) as u32) < 0x20 ==> !valid_name(name),
        forall|i: int|
            0 <= i < name.len() && 0x7f <= ((#[trigger] name[i]) as u32) < 0xa0 ==> !valid_name(
                name,
            ),
        (forall|i: int| 0 <= i < name.len() ==> ((#[trigger] name[i]) as u32) == 0x20)
            ==> !valid_name(name),
        0 < name.len() <= 255 && (forall|i: int|
            0 <= i < name.len() ==> 0x21 <= ((#[trigger] name[i]) as u32) <= 0x7e) ==> valid_name(
            name,
        ),
        0 < name.len() <= 255 && (name[0] as u32) != 0x20 && (forall|i: int|
            0 <= i < name.len() ==> 0x20 <= ((#[trigger] name[i]) as u32) <= 0x7e) ==> valid_name(
            name,
        ),
        valid_name(name) && valid_name(other) ==> valid_name(name + other) == (encode_utf8(
            name + other,
        ).len() <= 255),
{
    if exists|i: int| 0 <= i < name.len() && ((#[trigger] name[i]) as u32) < 0x20 {
        let i = choose|i: int| 0 <= i < name.len() && ((#[trigger] name[i]) as u32) < 0x20;
        assert(control(name[i]));
    }
    if exists|i: int| 0 <= i < name.len() && 0x7f <= ((#[trigger] name[i]) as u32) < 0xa0 {
        let i = choose|i: int| 0 <= i < name.len() && 0x7f <= ((#[trigger] name[i]) as u32) < 0xa0;
        assert(control(name[i]));
    }
    if 0 < name.len() <= 255 && (name[0] as u32) != 0x20 && (forall|i: int|
        0 <= i < name.len() ==> 0x20 <= ((#[trigger] name[i]) as u32) <= 0x7e) {
        lemma_ascii(name);
        assert(!white_space(name[0]));
    }
    if 0 < name.len() <= 255 && (forall|i: int|
        0 <= i < name.len() ==> 0x21 <= ((#[trigger] name[i]) as u32) <= 0x7e) {
        lemma_ascii(name);
        assert(0x21 <= name[0] as u32);
        assert(!white_space(name[0]));
    }
    if valid_name(name) && valid_name(other) {
        let both = name + other;
        let k = choose|k: int| 0 <= k < name.len() && !white_space(#[trigger] name[k]);
        assert(both[k] == name[k]);
        assert forall|i: int| 0 <= i < both.len() implies !control(#[trigger] both[i]) by {
            if i < name.len() {
                assert(both[i] == name[i]);
            } else {
                assert(both[i] == other[i - name.len()]);
            }
        }
    }
}

// ---- Schemas ----

/// A schema of one field is valid exactly if it has a version, and the field an identifier and a
/// name. One with no field is not.
pub proof fn lemma_schema_starts(version: u64, f: FieldV)
    ensures
        valid_schema(SchemaV { version, fields: seq![f] }) == (version != 0 && f.id != 0
            && valid_name(f.name)),
        !valid_schema(SchemaV { version, fields: Seq::empty() }),
{
    let s = SchemaV { version, fields: seq![f] };
    assert(s.fields[0] == f);
}

/// A valid schema stays so with one more field exactly if there is room for it, it has an
/// identifier and a name, and no field before it has either.
pub proof fn lemma_schema_grows(s: SchemaV, f: FieldV)
    requires
        s.fields.len() > 0,
    ensures
        valid_schema(SchemaV { version: s.version, fields: s.fields.push(f) }) <==> {
            &&& valid_schema(s)
            &&& s.fields.len() < 4096
            &&& f.id != 0 && valid_name(f.name)
            &&& forall|i: int|
                0 <= i < s.fields.len() ==> (#[trigger] s.fields[i]).id != f.id && s.fields[i].name
                    != f.name
        },
{
    let n = SchemaV { version: s.version, fields: s.fields.push(f) };
    let k = s.fields.len() as int;
    assert(n.fields[k] == f);
    if valid_schema(n) {
        assert forall|i: int| 0 <= i < k implies (#[trigger] s.fields[i]).id != f.id
            && s.fields[i].name != f.name && valid_name(s.fields[i].name) && s.fields[i].id != 0 by {
            assert(n.fields[i] == s.fields[i]);
            assert(n.fields[i].id != n.fields[k].id);
        }
        assert forall|i: int, j: int| 0 <= i < j < k implies (#[trigger] s.fields[i]).id != (
        #[trigger] s.fields[j]).id && s.fields[i].name != s.fields[j].name by {
            assert(n.fields[i].id != n.fields[j].id);
        }
    }
}

// ---- Changes of a catalog ----

/// Whether a schema keeps the fields of another, each with its identifier, type and nullability,
/// and every field that it adds may be null.
pub open spec fn follows(before: SchemaV, after: SchemaV) -> bool {
    &&& forall|i: int|
        #![trigger before.fields[i]]
        0 <= i < before.fields.len() ==> exists|j: int|
            0 <= j < after.fields.len() && (#[trigger] after.fields[j]).id == before.fields[i].id
                && after.fields[j].data_type == before.fields[i].data_type
                && after.fields[j].nullable == before.fields[i].nullable
    &&& forall|j: int|
        0 <= j < after.fields.len() && !(#[trigger] after.fields[j]).nullable ==> declares(
            before,
            after.fields[j].id,
        )
}

/// Whether another table has the name of a definition.
pub open spec fn name_in_use(catalog: Map<u64, TableV>, t: TableV) -> bool {
    exists|k: u64| #[trigger] catalog.contains_key(k) && k != t.id && catalog[k].name == t.name
}

/// Whether a definition is that of a new table behind all others.
pub open spec fn comes_next(catalog: Map<u64, TableV>, t: TableV) -> bool {
    &&& forall|k: u64| #[trigger] catalog.contains_key(k) ==> k < t.id
    &&& if t.id == 1 {
        catalog =~= Map::empty()
    } else {
        t.id > 1 && catalog.contains_key((t.id - 1) as u64)
    }
    &&& t.schemas.len() == 1 && t.schemas[0].version == 1 && valid_schema(t.schemas[0])
}

/// Whether a definition has one schema more than a table, which follows the last one.
pub open spec fn one_schema_more(before: TableV, t: TableV) -> bool {
    &&& t.schemas.len() == before.schemas.len() + 1
    &&& t.schemas.drop_last() == before.schemas
    &&& t.schemas.last().version == before.schemas.last().version + 1
    &&& valid_schema(t.schemas.last())
    &&& follows(before.schemas.last(), t.schemas.last())
}

/// A change of a catalog is done exactly if its name is valid and no other table has it, and it
/// is the next table with a first schema, or a table that there is with its schemas as they are,
/// or with one more that follows. It puts this definition in place and changes no other table and
/// no entity; afterwards no two tables have one name. Another table with the name is told, and
/// every other refusal is that the change is invalid.
pub proof fn lemma_table_change(base: StateV, files: Files, w: WritesV, t: TableV)
    requires
        sound_catalog(w.catalog),
    ensures
        ({
            let done = executed(base, files, w, OpV::Table(t));
            let after = done->Ok_0;
            &&& done is Ok <==> {
                &&& valid_name(t.name)
                &&& !name_in_use(w.catalog, t)
                &&& if w.catalog.contains_key(t.id) {
                    t.schemas == w.catalog[t.id].schemas || one_schema_more(w.catalog[t.id], t)
                } else {
                    comes_next(w.catalog, t)
                }
            }
            &&& done is Ok ==> {
                &&& after.staged == w.staged
                &&& after.catalog.contains_key(t.id) && after.catalog[t.id] == t
                &&& forall|k: u64|
                    k != t.id ==> (#[trigger] after.catalog.contains_key(k)
                        == w.catalog.contains_key(k)) && (w.catalog.contains_key(k)
                        ==> after.catalog[k] == w.catalog[k])
                &&& forall|a: u64, b: u64| #[trigger]
                    after.catalog.contains_key(a) && #[trigger] after.catalog.contains_key(b) && a
                        != b ==> after.catalog[a].name != after.catalog[b].name
            }
            &&& done is Err ==> done->Err_0 == (if valid_name(t.name) && name_in_use(w.catalog, t) {
                Fault::Exists
            } else {
                Fault::Invalid
            })
        }),
{
    let c = w.catalog;
    assert(crate::operation::name_taken(c, t) == name_in_use(c, t)) by {
        assert forall|k: u64| #[trigger] c.contains_key(k) implies c[k].id == k by {
        }
        if name_in_use(c, t) {
            let k = choose|k: u64| #[trigger] c.contains_key(k) && k != t.id && c[k].name == t.name;
            assert(c[k].id == k);
        }
        if crate::operation::name_taken(c, t) {
            let k = choose|k: u64| #[trigger]
                c.contains_key(k) && c[k].id != t.id && c[k].name == t.name;
            assert(c[k].id == k);
        }
    }
    if c.contains_key(t.id) {
        let before = c[t.id];
        assert(valid_table(before));
        let m = before.schemas.len() as int;
        assert(valid_schema(before.schemas[m - 1]));
        if t.schemas.len() == m + 1 {
            assert(t.schemas.take(m) =~= t.schemas.drop_last());
            lemma_follows(before.schemas.last(), t.schemas.last());
            if t.schemas.drop_last() == before.schemas {
                assert forall|i: int| 0 <= i < m implies valid_schema(#[trigger] t.schemas[i]) by {
                    assert(t.schemas[i] == t.schemas.drop_last()[i]);
                }
            }
        }
    } else {
        if comes_next(c, t) {
            assert forall|i: int| 0 <= i < t.schemas.len() implies valid_schema(
                #[trigger] t.schemas[i],
            ) by {
            }
        }
        if crate::operation::next_id(c, t.id) && t.id == 1 {
            assert forall|k: u64| !(#[trigger] c.contains_key(k)) by {
                if c.contains_key(k) {
                    assert(c[k].id == k);
                    assert(valid_table(c[k]));
                }
            }
            assert(c =~= Map::empty());
        }
    }
    if change_allowed(c, t) {
        lemma_change(c, t);
    }
}

proof fn lemma_follows(before: SchemaV, after: SchemaV)
    ensures
        follows(before, after) == crate::operation::compatible(before, after),
{
    if follows(before, after) {
        assert forall|i: int| 0 <= i < before.fields.len() implies preserved(
            after.fields,
            #[trigger] before.fields[i],
        ) by {
            let f = before.fields[i];
            let j = choose|j: int|
                0 <= j < after.fields.len() && (#[trigger] after.fields[j]).id == f.id
                    && after.fields[j].data_type == f.data_type && after.fields[j].nullable
                    == f.nullable;
            assert(after.fields[j].id == f.id);
        }
        assert forall|j: int| 0 <= j < after.fields.len() implies has_field(
            before.fields,
            (#[trigger] after.fields[j]).id,
        ) || after.fields[j].nullable by {
            if !after.fields[j].nullable {
                assert(declares(before, after.fields[j].id));
            }
        }
    }
    if crate::operation::compatible(before, after) {
        assert forall|i: int|
            #![trigger before.fields[i]]
            0 <= i < before.fields.len() implies exists|j: int|
            0 <= j < after.fields.len() && (#[trigger] after.fields[j]).id == before.fields[i].id
                && after.fields[j].data_type == before.fields[i].data_type
                && after.fields[j].nullable == before.fields[i].nullable by {
            assert(preserved(after.fields, before.fields[i]));
        }
        assert forall|j: int|
            0 <= j < after.fields.len() && !(#[trigger] after.fields[j]).nullable implies declares(
            before,
            after.fields[j].id,
        ) by {
            assert(has_field(before.fields, after.fields[j].id));
        }
    }
}

/// What suits a schema suits every one that follows it, and where no field that must not be null
/// is missing, none is missing afterwards: an entity can be assigned to and deleted as before.
pub proof fn lemma_follows_keeps(before: SchemaV, after: SchemaV, m: Map<u32, ValueV>)
    requires
        follows(before, after),
        well_typed(before, m),
    ensures
        well_typed(after, m),
        (forall|i: int|
            0 <= i < before.fields.len() && !(#[trigger] before.fields[i]).nullable
                ==> m.contains_key(before.fields[i].id)) && valid_schema(after) ==> (forall|j: int|
            0 <= j < after.fields.len() && !(#[trigger] after.fields[j]).nullable
                ==> m.contains_key(after.fields[j].id)),
{
    assert forall|k: u32| #[trigger] m.contains_key(k) implies holds_value(after, k, m[k]) by {
        assert(holds_value(before, k, m[k]));
        let i = choose|i: int|
            0 <= i < before.fields.len() && (#[trigger] before.fields[i]).id == k && suits(
                before.fields[i],
                m[k],
            );
        let f = before.fields[i];
        let j = choose|j: int|
            0 <= j < after.fields.len() && (#[trigger] after.fields[j]).id == f.id
                && after.fields[j].data_type == f.data_type && after.fields[j].nullable
                == f.nullable;
        assert(suits(after.fields[j], m[k]));
    }
    if valid_schema(after) && forall|i: int|
        0 <= i < before.fields.len() && !(#[trigger] before.fields[i]).nullable ==> m.contains_key(
            before.fields[i].id,
        ) {
        assert forall|j: int|
            0 <= j < after.fields.len() && !(#[trigger] after.fields[j]).nullable implies m.contains_key(
            after.fields[j].id,
        ) by {
            let g = after.fields[j];
            assert(declares(before, g.id));
            let i = choose|i: int|
                0 <= i < before.fields.len() && (#[trigger] before.fields[i]).id == g.id;
            let f = before.fields[i];
            let l = choose|l: int|
                0 <= l < after.fields.len() && (#[trigger] after.fields[l]).id == f.id
                    && after.fields[l].data_type == f.data_type && after.fields[l].nullable
                    == f.nullable;
            if l < j {
                assert(after.fields[l].id != after.fields[j].id);
            } else if j < l {
                assert(after.fields[j].id != after.fields[l].id);
            }
        }
    }
}

} // verus!
