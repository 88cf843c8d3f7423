//! Laws of encoded manifests: one that was read can be written and read again, and one that is
//! cut short is refused.

use crate::codec::dec_bool;
use crate::codec::dec_bytes;
use crate::codec::dec_count;
use crate::codec::dec_n;
use crate::codec::dec_string;
use crate::codec::dec_u32;
use crate::codec::dec_u64;
use crate::codec::dec_u8;
use crate::entries::Entry;
use crate::entries::dec_map;
use crate::entries::decoder;
use crate::key::lists;
use crate::model::SchemaV;
use crate::model::TableV;
use crate::partitions::PartV;
use crate::partitions::Route;
use crate::record::dec_field;
use crate::record::dec_schema;
use crate::record::dec_table;
use crate::record::dec_type;
use crate::record::distinct;
use crate::record::field_decoder;
use crate::record::gather;
use crate::record::lemma_gather;
use crate::record::schema_decoder;
use crate::record::valid_table;
use crate::snapshot::Counts;
use crate::snapshot::Dependencies;
use crate::snapshot::FileInfo;
use crate::snapshot::Histories;
use crate::snapshot::Occupancy;
use crate::snapshot::Partitions;
use crate::snapshot::RootV;
use crate::snapshot::Share;
use crate::snapshot::Slots;
use crate::snapshot::Tables;
use crate::snapshot::dec_file;
use crate::snapshot::dec_file_id;
use crate::snapshot::dec_list;
use crate::snapshot::dec_pair;
use crate::snapshot::dec_part;
use crate::snapshot::dec_parts;
use crate::snapshot::dec_root;
use crate::snapshot::dec_route;
use crate::snapshot::enc_root;
use crate::snapshot::encodable_root;
use crate::snapshot::file_decoder;
use crate::snapshot::generation_decoder;
use crate::snapshot::lemma_root;
use crate::snapshot::lemma_root_before;
use crate::snapshot::valid_root;
use crate::storage::pager::FileId;
use vstd::prelude::*;

verus! {

/// Whether what was read of bytes is read of longer ones too, and leaves what follows.
pub open spec fn goes_on<T>(
    a: Option<(T, Seq<u8>)>,
    b: Option<(T, Seq<u8>)>,
    y: Seq<u8>,
) -> bool {
    match a {
        None => true,
        Some((v, rest)) => b == Some((v, rest + y)),
    }
}

/// Whether a decoder reads the same whatever follows.
pub open spec fn steady<T>(dec: spec_fn(Seq<u8>) -> Option<(T, Seq<u8>)>) -> bool {
    forall|s: Seq<u8>, y: Seq<u8>| goes_on(dec(s), #[trigger] dec(s + y), y)
}

proof fn lemma_front(s: Seq<u8>, y: Seq<u8>, n: int)
    requires
        0 <= n <= s.len(),
    ensures
        (s + y).take(n) == s.take(n),
        (s + y).skip(n) == s.skip(n) + y,
{
    assert((s + y).take(n) =~= s.take(n));
    assert((s + y).skip(n) =~= s.skip(n) + y);
}

proof fn lemma_u8_on(s: Seq<u8>, y: Seq<u8>)
    ensures
        goes_on(dec_u8(s), dec_u8(s + y), y),
        goes_on(dec_bool(s), dec_bool(s + y), y),
{
    if s.len() >= 1 {
        lemma_front(s, y, 1);
    }
}

proof fn lemma_u32_on(s: Seq<u8>, y: Seq<u8>)
    ensures
        goes_on(dec_u32(s), dec_u32(s + y), y),
{
    if s.len() >= 4 {
        lemma_front(s, y, 4);
    }
}

proof fn lemma_u64_on(s: Seq<u8>, y: Seq<u8>)
    ensures
        goes_on(dec_u64(s), dec_u64(s + y), y),
{
    if s.len() >= 8 {
        lemma_front(s, y, 8);
    }
}

proof fn lemma_count_on(s: Seq<u8>, y: Seq<u8>, least: nat)
    ensures
        goes_on(dec_count(s, least), dec_count(s + y, least), y),
{
    lemma_u64_on(s, y);
}

proof fn lemma_string_on(s: Seq<u8>, y: Seq<u8>)
    ensures
        goes_on(dec_bytes(s), dec_bytes(s + y), y),
        goes_on(dec_string(s), dec_string(s + y), y),
{
    lemma_u64_on(s, y);
    if let Some((n, rest)) = dec_u64(s) {
        if n <= rest.len() {
            lemma_front(rest, y, n as int);
        }
    }
}

proof fn lemma_pair_on(s: Seq<u8>, y: Seq<u8>)
    ensures
        goes_on(dec_pair(s), dec_pair(s + y), y),
{
    lemma_u64_on(s, y);
    if let Some((_, rest)) = dec_u64(s) {
        lemma_u64_on(rest, y);
    }
}

proof fn lemma_n_on<T>(
    n: nat,
    s: Seq<u8>,
    y: Seq<u8>,
    dec: spec_fn(Seq<u8>) -> Option<(T, Seq<u8>)>,
)
    requires
        steady(dec),
    ensures
        goes_on(dec_n(n, s, dec), dec_n(n, s + y, dec), y),
    decreases n,
{
    if n > 0 {
        assert(goes_on(dec(s), dec(s + y), y));
        if let Some((_, rest)) = dec(s) {
            lemma_n_on((n - 1) as nat, rest, y, dec);
        }
    }
}

proof fn lemma_list_on<T>(
    s: Seq<u8>,
    y: Seq<u8>,
    least: nat,
    dec: spec_fn(Seq<u8>) -> Option<(T, Seq<u8>)>,
)
    requires
        steady(dec),
    ensures
        goes_on(dec_list(s, least, dec), dec_list(s + y, least, dec), y),
{
    lemma_count_on(s, y, least);
    if let Some((n, rest)) = dec_count(s, least) {
        lemma_n_on(n, rest, y, dec);
    }
}

proof fn lemma_map_on<E: Entry>(s: Seq<u8>, y: Seq<u8>)
    requires
        steady(decoder::<E>()),
    ensures
        goes_on(dec_map::<E>(s), dec_map::<E>(s + y), y),
{
    lemma_count_on(s, y, E::least());
    if let Some((n, rest)) = dec_count(s, E::least()) {
        lemma_n_on(n, rest, y, decoder::<E>());
    }
}

proof fn lemma_field_on(s: Seq<u8>, y: Seq<u8>)
    ensures
        goes_on(dec_field(s), dec_field(s + y), y),
{
    lemma_u32_on(s, y);
    if let Some((_, s)) = dec_u32(s) {
        lemma_string_on(s, y);
        if let Some((_, s)) = dec_string(s) {
            lemma_u8_on(s, y);
            assert(goes_on(dec_type(s), dec_type(s + y), y));
            if let Some((_, s)) = dec_type(s) {
                lemma_u8_on(s, y);
            }
        }
    }
}

proof fn lemma_schema_on(s: Seq<u8>, y: Seq<u8>)
    ensures
        goes_on(dec_schema(s), dec_schema(s + y), y),
{
    lemma_u64_on(s, y);
    if let Some((_, s)) = dec_u64(s) {
        lemma_count_on(s, y, 14);
        if let Some((n, s)) = dec_count(s, 14) {
            assert forall|s: Seq<u8>, y: Seq<u8>| goes_on(
                field_decoder()(s),
                #[trigger] field_decoder()(s + y),
                y,
            ) by {
                lemma_field_on(s, y);
            }
            lemma_n_on(n, s, y, field_decoder());
        }
    }
}

proof fn lemma_table_on(s: Seq<u8>, y: Seq<u8>)
    ensures
        goes_on(dec_table(s), dec_table(s + y), y),
{
    lemma_u64_on(s, y);
    if let Some((_, s)) = dec_u64(s) {
        lemma_string_on(s, y);
        if let Some((_, s)) = dec_string(s) {
            lemma_count_on(s, y, 16);
            if let Some((n, s)) = dec_count(s, 16) {
                assert forall|s: Seq<u8>, y: Seq<u8>| goes_on(
                    schema_decoder()(s),
                    #[trigger] schema_decoder()(s + y),
                    y,
                ) by {
                    lemma_schema_on(s, y);
                }
                lemma_n_on(n, s, y, schema_decoder());
            }
        }
    }
}

proof fn lemma_file_id_on(s: Seq<u8>, y: Seq<u8>)
    ensures
        goes_on(dec_file_id(s), dec_file_id(s + y), y),
{
    lemma_u64_on(s, y);
    if let Some((_, s)) = dec_u64(s) {
        lemma_u64_on(s, y);
        if let Some((_, s)) = dec_u64(s) {
            lemma_u8_on(s, y);
            if let Some((_, s)) = dec_u8(s) {
                lemma_u64_on(s, y);
            }
        }
    }
}

proof fn lemma_route_on(s: Seq<u8>, y: Seq<u8>)
    ensures
        goes_on(dec_route(s), dec_route(s + y), y),
{
    lemma_u64_on(s, y);
    if let Some((_, s)) = dec_u64(s) {
        lemma_u8_on(s, y);
        if let Some((_, s)) = dec_u8(s) {
            lemma_pair_on(s, y);
        }
    }
}

proof fn lemma_slots_on()
    ensures
        steady(decoder::<Slots>()),
{
    assert forall|s: Seq<u8>, y: Seq<u8>| goes_on(
        decoder::<Slots>()(s),
        #[trigger] decoder::<Slots>()(s + y),
        y,
    ) by {
        lemma_u8_on(s, y);
        if let Some((_, s)) = dec_u8(s) {
            lemma_u8_on(s, y);
        }
    }
}

proof fn lemma_dependencies_on()
    ensures
        steady(decoder::<Dependencies>()),
{
    assert forall|s: Seq<u8>, y: Seq<u8>| goes_on(
        decoder::<Dependencies>()(s),
        #[trigger] decoder::<Dependencies>()(s + y),
        y,
    ) by {
        lemma_file_id_on(s, y);
    }
}

proof fn lemma_part_on(s: Seq<u8>, y: Seq<u8>)
    ensures
        goes_on(dec_part(s), dec_part(s + y), y),
{
    lemma_route_on(s, y);
    if let Some((_, s)) = dec_route(s) {
        lemma_pair_on(s, y);
        if let Some((_, s)) = dec_pair(s) {
            lemma_pair_on(s, y);
            if let Some((_, s)) = dec_pair(s) {
                lemma_pair_on(s, y);
                if let Some((_, s)) = dec_pair(s) {
                    lemma_pair_on(s, y);
                    if let Some((_, s)) = dec_pair(s) {
                        lemma_slots_on();
                        lemma_map_on::<Slots>(s, y);
                        if let Some((_, s)) = dec_map::<Slots>(s) {
                            lemma_dependencies_on();
                            lemma_map_on::<Dependencies>(s, y);
                        }
                    }
                }
            }
        }
    }
}

proof fn lemma_file_on(s: Seq<u8>, y: Seq<u8>)
    ensures
        goes_on(dec_file(s), dec_file(s + y), y),
{
    lemma_pair_on(s, y);
    if let Some((_, s)) = dec_pair(s) {
        lemma_u8_on(s, y);
        if let Some((_, s)) = dec_u8(s) {
            lemma_pair_on(s, y);
            if let Some((_, s)) = dec_pair(s) {
                lemma_u32_on(s, y);
            }
        }
    }
}

proof fn lemma_entries_on()
    ensures
        steady(decoder::<Tables>()),
        steady(decoder::<Partitions>()),
        steady(decoder::<Histories>()),
        steady(decoder::<Counts>()),
        steady(generation_decoder()),
        steady(file_decoder()),
{
    assert forall|s: Seq<u8>, y: Seq<u8>| goes_on(
        decoder::<Tables>()(s),
        #[trigger] decoder::<Tables>()(s + y),
        y,
    ) by {
        lemma_table_on(s, y);
    }
    assert forall|s: Seq<u8>, y: Seq<u8>| goes_on(
        decoder::<Partitions>()(s),
        #[trigger] decoder::<Partitions>()(s + y),
        y,
    ) by {
        lemma_part_on(s, y);
    }
    assert forall|s: Seq<u8>, y: Seq<u8>| goes_on(
        decoder::<Histories>()(s),
        #[trigger] decoder::<Histories>()(s + y),
        y,
    ) by {
        lemma_pair_on(s, y);
    }
    assert forall|s: Seq<u8>, y: Seq<u8>| goes_on(
        decoder::<Counts>()(s),
        #[trigger] decoder::<Counts>()(s + y),
        y,
    ) by {
        lemma_u64_on(s, y);
        if let Some((_, s)) = dec_u64(s) {
            lemma_u8_on(s, y);
            if let Some((_, s)) = dec_u8(s) {
                lemma_pair_on(s, y);
            }
        }
    }
    assert forall|s: Seq<u8>, y: Seq<u8>| goes_on(
        generation_decoder()(s),
        #[trigger] generation_decoder()(s + y),
        y,
    ) by {
        lemma_pair_on(s, y);
    }
    assert forall|s: Seq<u8>, y: Seq<u8>| goes_on(
        file_decoder()(s),
        #[trigger] file_decoder()(s + y),
        y,
    ) by {
        lemma_file_on(s, y);
    }
}

/// The parts of a manifest are read the same whatever follows them.
pub proof fn lemma_parts_on(s: Seq<u8>, y: Seq<u8>)
    ensures
        goes_on(dec_parts(s), dec_parts(s + y), y),
{
    lemma_entries_on();
    lemma_pair_on(s, y);
    if let Some((_, s)) = dec_pair(s) {
        lemma_map_on::<Tables>(s, y);
        if let Some((_, s)) = dec_map::<Tables>(s) {
            lemma_list_on(s, y, 16, generation_decoder());
            if let Some((_, s)) = dec_list(s, 16, generation_decoder()) {
                lemma_map_on::<Partitions>(s, y);
                if let Some((_, s)) = dec_map::<Partitions>(s) {
                    lemma_u8_on(s, y);
                    if let Some((_, s)) = dec_bool(s) {
                        lemma_map_on::<Histories>(s, y);
                        if let Some((_, s)) = dec_map::<Histories>(s) {
                            lemma_list_on(s, y, 37, file_decoder());
                            if let Some((_, s)) = dec_list(s, 37, file_decoder()) {
                                lemma_map_on::<Counts>(s, y);
                            }
                        }
                    }
                }
            }
        }
    }
}

/// A written manifest that is cut short is refused, wherever it is cut.
pub proof fn lemma_root_cut(r: RootV, cut: int)
    requires
        valid_root(r),
        encodable_root(r),
        0 <= cut < enc_root(r).len(),
    ensures
        dec_root(enc_root(r).take(cut)) is None,
{
    let s = enc_root(r).take(cut);
    let y = enc_root(r).skip(cut);
    let none = Seq::<u8>::empty();
    lemma_parts_on(s, y);
    lemma_root_before(r, none);
    assert(s + y =~= enc_root(r));
    assert(enc_root(r) + none =~= enc_root(r));
    if let Some((v, rest)) = dec_parts(s) {
        assert((rest + y).len() == 0);
    }
}

// ---- Manifests that were read ----

proof fn lemma_n_each<T>(
    n: nat,
    s: Seq<u8>,
    dec: spec_fn(Seq<u8>) -> Option<(T, Seq<u8>)>,
    p: spec_fn(T) -> bool,
)
    requires
        forall|s: Seq<u8>| (#[trigger] dec(s)) matches Some((v, _)) ==> p(v),
    ensures
        dec_n(n, s, dec) matches Some((xs, _)) ==> xs.len() == n && forall|i: int|
            0 <= i < xs.len() ==> p(#[trigger] xs[i]),
    decreases n,
{
    if n > 0 {
        if let Some((_, rest)) = dec(s) {
            lemma_n_each((n - 1) as nat, rest, dec, p);
        }
    }
}

proof fn lemma_map_each<E: Entry>(s: Seq<u8>, p: spec_fn((E::Key, E::Meaning)) -> bool)
    requires
        forall|s: Seq<u8>| (#[trigger] decoder::<E>()(s)) matches Some((v, _)) ==> p(v),
    ensures
        dec_map::<E>(s) matches Some((m, _)) ==> m.dom().finite() && m.dom().len() <= u64::MAX
            && forall|k: E::Key| #[trigger] m.contains_key(k) ==> p((k, m[k])),
{
    if let Some((n, rest)) = dec_count(s, E::least()) {
        lemma_n_each(n, rest, decoder::<E>(), p);
        if let Some((entries, _)) = dec_n(n, rest, decoder::<E>()) {
            if distinct(entries) {
                lemma_gather(entries);
                reveal(lists);
                let m = gather(entries);
                assert forall|k: E::Key| #[trigger] m.contains_key(k) implies p((k, m[k])) by {
                    let i = choose|i: int|
                        0 <= i < entries.len() && (#[trigger] entries[i]).0 == k;
                    assert(p(entries[i]));
                    assert(m[entries[i].0] == entries[i].1);
                }
            }
        }
    }
}

proof fn lemma_table_each(s: Seq<u8>)
    ensures
        dec_table(s) matches Some((t, _)) ==> valid_table(t) && t.schemas.len() <= u64::MAX,
{
    if let Some((_, s)) = dec_u64(s) {
        if let Some((_, s)) = dec_string(s) {
            if let Some((n, s)) = dec_count(s, 16) {
                lemma_n_each(n, s, schema_decoder(), |x: SchemaV| true);
            }
        }
    }
}

/// Whether a partition stands under its route and can be written.
pub open spec fn part_encodable(e: (Route, PartV)) -> bool {
    &&& e.1.file.table == e.0.table
    &&& e.1.file.kind == e.0.kind
    &&& e.1.slots.dom().finite()
    &&& e.1.dependencies.dom().finite()
    &&& e.1.dependencies.dom().len() <= u64::MAX
}

proof fn lemma_part_each(s: Seq<u8>)
    ensures
        dec_part(s) matches Some((e, _)) ==> part_encodable(e),
{
    if let Some((_, s)) = dec_route(s) {
        if let Some((_, s)) = dec_pair(s) {
            if let Some((_, s)) = dec_pair(s) {
                if let Some((_, s)) = dec_pair(s) {
                    if let Some((_, s)) = dec_pair(s) {
                        lemma_map_each::<Slots>(s, |e: (u8, u8)| true);
                        if let Some((_, s)) = dec_map::<Slots>(s) {
                            lemma_map_each::<Dependencies>(s, |e: (FileId, ())| true);
                        }
                    }
                }
            }
        }
    }
}

/// Every part of a manifest that can be read can be written.
pub proof fn lemma_read_is_encodable(s: Seq<u8>)
    ensures
        dec_parts(s) matches Some((r, _)) ==> encodable_root(r),
{
    let table = |e: (u64, TableV)|
        e.1.id == e.0 && valid_table(e.1) && e.1.schemas.len() <= u64::MAX;
    let part = |e: (Route, PartV)| part_encodable(e);
    assert forall|s: Seq<u8>| (#[trigger] decoder::<Tables>()(s)) is Some implies table(
        decoder::<Tables>()(s).unwrap().0,
    ) by {
        lemma_table_each(s);
    }
    assert forall|s: Seq<u8>| (#[trigger] decoder::<Partitions>()(s)) is Some implies part(
        decoder::<Partitions>()(s).unwrap().0,
    ) by {
        lemma_part_each(s);
    }
    if let Some((_, s)) = dec_pair(s) {
        lemma_map_each::<Tables>(s, table);
        if let Some((catalog, s)) = dec_map::<Tables>(s) {
            assert forall|id: u64| #[trigger] catalog.contains_key(id) implies catalog[id].id == id
                && valid_table(catalog[id]) && catalog[id].schemas.len() <= u64::MAX by {
                assert(table((id, catalog[id])));
            }
            if let Some((_, s)) = dec_list(s, 16, generation_decoder()) {
                lemma_map_each::<Partitions>(s, part);
                if let Some((partitions, s)) = dec_map::<Partitions>(s) {
                    assert forall|at: Route| #[trigger]
                        partitions.contains_key(at) implies part_encodable(
                        (at, partitions[at]),
                    ) by {
                        assert(part((at, partitions[at])));
                    }
                    if let Some((_, s)) = dec_bool(s) {
                        lemma_map_each::<Histories>(s, |e: (u64, u64)| true);
                        if let Some((_, s)) = dec_map::<Histories>(s) {
                            if let Some((n, rest)) = dec_count(s, 37) {
                                lemma_n_each(n, rest, file_decoder(), |f: FileInfo| true);
                            }
                            if let Some((_, s)) = dec_list(s, 37, file_decoder()) {
                                lemma_map_each::<Counts>(s, |e: (Share, Occupancy)| true);
                            }
                        }
                    }
                }
            }
        }
    }
}

/// A manifest that was read is read back from what is written of it, whatever order the bytes
/// had their entries in.
pub proof fn lemma_read_again(s: Seq<u8>)
    requires
        dec_root(s) is Some,
    ensures
        dec_root(enc_root(dec_root(s).unwrap())) == dec_root(s),
{
    lemma_read_is_encodable(s);
    lemma_root(dec_root(s).unwrap());
}

} // verus!
