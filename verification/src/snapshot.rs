//! The manifest of a checkpoint.

use crate::bytes::le;
use crate::bytes::lemma_le_len;
use crate::codec::dec_bool;
use crate::codec::dec_count;
use crate::codec::dec_n;
use crate::codec::dec_u32;
use crate::codec::dec_u64;
use crate::codec::dec_u8;
use crate::codec::enc_all;
use crate::codec::enc_bool;
use crate::codec::lemma_all;
use crate::codec::lemma_bool;
use crate::codec::lemma_count;
use crate::codec::lemma_dec_step;
use crate::codec::lemma_enc_len;
use crate::codec::lemma_enc_push;
use crate::codec::lemma_u32;
use crate::codec::lemma_u64;
use crate::codec::lemma_u8;
use crate::codec::prepend;
use crate::codec::Decoder;
use crate::codec::Encoder;
use crate::entries::dec_map;
use crate::entries::enc_map;
use crate::entries::lemma_map;
use crate::entries::meanings;
use crate::entries::read_map;
use crate::entries::survives;
use crate::entries::write_map;
use crate::entries::Entry;
use crate::error::corrupt;
use crate::error::Error;
use crate::error::invalid;
use crate::error::Result;
use crate::key::increasing;
use crate::key::lists;
use crate::key::OrderedKey;
use crate::model::Table;
use crate::model::TableV;
use crate::ordered_map::OrderedMap;
use crate::partitions::bucket;
use crate::partitions::bucket_of;
use crate::partitions::PartV;
use crate::partitions::Partition;
use crate::partitions::Route;
use crate::record::dec_table;
use crate::record::decode_table;
use crate::record::enc_table;
use crate::record::encode_table;
use crate::record::lemma_prepend_none;
use crate::record::lemma_table;
use crate::record::valid_table;
use crate::storage::index::Key;
use crate::storage::pager::Extent;
use crate::storage::pager::FileId;
use vstd::prelude::*;

verus! {

/// The most generations that a manifest can name.
pub const MAX_SLOTS: usize = 256;

/// One published generation and the checkpoint sequence stamped on its pages.
///
/// A manifest addresses generations by their position in [`Root::generations`],
/// so a stored locator carries one byte instead of a generation number.
#[derive(Clone, Copy, Debug, PartialEq, Eq, Structural)]
pub struct GenerationInfo {
    /// The generation.
    pub generation: u64,
    /// Its checkpoint sequence.
    pub lsn: u64,
}

/// A file that a manifest refers to.
#[derive(Clone, Copy, Debug, PartialEq, Eq, Structural)]
pub struct FileInfo {
    /// The generation that wrote it.
    pub generation: u64,
    /// The table.
    pub table: u64,
    /// What it holds.
    pub kind: u8,
    /// The segment of a history file.
    pub segment: u64,
    /// Its size in bytes.
    pub size: u64,
    /// Its checksum.
    pub crc: u32,
}

impl FileInfo {
    /// The identity of the file.
    pub open spec fn named(self) -> FileId {
        FileId {
            table: self.table,
            generation: self.generation,
            kind: self.kind,
            segment: self.segment,
        }
    }

    /// The identity of the file.
    pub fn id(&self) -> (id: FileId)
        ensures
            id == self.named(),
    {
        FileId::new(self.table, self.generation, self.kind, self.segment)
    }
}

/// How many entities one table left in one generation, and how many died since.
///
/// Current state and base form a unit, so superseding them makes exactly one entity
/// of its former generation unreachable. Counting that at publication keeps the
/// collector's decisions free of any scan.
#[derive(Clone, Copy, Debug, PartialEq, Eq, Structural)]
pub struct Occupancy {
    /// Entities written.
    pub entities: u64,
    /// Entities superseded since.
    pub dead: u64,
}

impl Default for Occupancy {
    fn default() -> (o: Self)
        ensures
            o == (Occupancy { entities: 0, dead: 0 }),
    {
        Occupancy { entities: 0, dead: 0 }
    }
}

/// A table's share of a generation slot.
#[derive(Clone, Copy, Debug, PartialEq, Eq, Structural)]
pub struct Share {
    /// The table.
    pub table: u64,
    /// The generation slot.
    pub slot: u8,
}

impl OrderedKey for Share {
    open spec fn before(self, other: Self) -> bool {
        self.table < other.table || (self.table == other.table && self.slot < other.slot)
    }

    proof fn order_laws() {
    }

    fn less(&self, other: &Self) -> (r: bool) {
        self.table < other.table || (self.table == other.table && self.slot < other.slot)
    }

    fn same(&self) -> (r: Self) {
        *self
    }
}

/// The manifest of a checkpoint.
pub struct Root {
    /// The generation that published it.
    pub generation: u64,
    /// The last transaction that it covers.
    pub lsn: u64,
    /// The tables.
    pub catalog: OrderedMap<u64, Table>,
    /// Referenced generations in ascending order; a locator's slot indexes this.
    pub generations: Vec<GenerationInfo>,
    /// Every file that it refers to.
    pub files: Vec<FileInfo>,
    /// The index trees.
    pub partitions: OrderedMap<Route, Partition>,
    /// Generations with history files, and their checkpoint sequences.
    pub history_generations: OrderedMap<u64, u64>,
    /// Whether the history stands in this generation alone.
    pub history_compacted: bool,
    /// Live and superseded entity counts per table and generation slot.
    pub occupancy: OrderedMap<Share, Occupancy>,
}

/// What a manifest stands for.
#[verifier::ext_equal]
pub struct RootV {
    /// The generation that published it.
    pub generation: u64,
    /// The last transaction that it covers.
    pub lsn: u64,
    /// The tables.
    pub catalog: Map<u64, TableV>,
    /// Referenced generations.
    pub generations: Seq<GenerationInfo>,
    /// The files.
    pub files: Seq<FileInfo>,
    /// The index trees.
    pub partitions: Map<Route, PartV>,
    /// Generations with history files.
    pub history_generations: Map<u64, u64>,
    /// Whether the history stands in this generation alone.
    pub history_compacted: bool,
    /// Entity counts.
    pub occupancy: Map<Share, Occupancy>,
}

impl View for Root {
    type V = RootV;

    open spec fn view(&self) -> RootV {
        RootV {
            generation: self.generation,
            lsn: self.lsn,
            catalog: meanings::<Tables>(self.catalog@),
            generations: self.generations@,
            files: self.files@,
            partitions: meanings::<Partitions>(self.partitions@),
            history_generations: self.history_generations@,
            history_compacted: self.history_compacted,
            occupancy: self.occupancy@,
        }
    }
}

// ---- Entries ----

/// The entries of the table catalog.
pub struct Tables;

impl Entry for Tables {
    type Key = u64;

    type Stored = Table;

    type Meaning = TableV;

    open spec fn meaning(v: Table) -> TableV {
        v@
    }

    open spec fn least() -> nat {
        25
    }

    open spec fn enc(e: (u64, TableV)) -> Seq<u8> {
        enc_table(e.1)
    }

    open spec fn dec(s: Seq<u8>) -> Option<((u64, TableV), Seq<u8>)> {
        match dec_table(s) {
            None => None,
            Some((t, s)) => Some(((t.id, t), s)),
        }
    }

    fn write(key: &u64, value: &Table, e: &mut Encoder) {
        encode_table(value, e);
    }

    fn read(d: &mut Decoder<'_>) -> (r: Result<(u64, Table)>) {
        let table = decode_table(d)?;
        Ok((table.id, table))
    }
}

/// The entries of a slot translation.
pub struct Slots;

impl Entry for Slots {
    type Key = u8;

    type Stored = u8;

    type Meaning = u8;

    open spec fn meaning(v: u8) -> u8 {
        v
    }

    open spec fn least() -> nat {
        2
    }

    open spec fn enc(e: (u8, u8)) -> Seq<u8> {
        seq![e.0] + seq![e.1]
    }

    open spec fn dec(s: Seq<u8>) -> Option<((u8, u8), Seq<u8>)> {
        match dec_u8(s) {
            None => None,
            Some((old_slot, s)) => match dec_u8(s) {
                None => None,
                Some((new_slot, s)) => Some(((old_slot, new_slot), s)),
            },
        }
    }

    fn write(key: &u8, value: &u8, e: &mut Encoder) {
        let ghost before = e.0@;
        e.u8(*key);
        e.u8(*value);
        assert(e.0@ =~= before + Self::enc((*key, *value)));
    }

    fn read(d: &mut Decoder<'_>) -> (r: Result<(u8, u8)>) {
        let old_slot: u8 = d.u8()?;
        let new_slot: u8 = d.u8()?;
        Ok((old_slot, new_slot))
    }
}

/// The entries of a set of files.
pub struct Dependencies;

/// An encoded file identity.
pub open spec fn enc_file_id(f: FileId) -> Seq<u8> {
    le(f.table as nat, 8) + le(f.generation as nat, 8) + seq![f.kind] + le(f.segment as nat, 8)
}

/// The file identity at the front.
pub open spec fn dec_file_id(s: Seq<u8>) -> Option<(FileId, Seq<u8>)> {
    match dec_u64(s) {
        None => None,
        Some((table, s)) => match dec_u64(s) {
            None => None,
            Some((generation, s)) => match dec_u8(s) {
                None => None,
                Some((kind, s)) => match dec_u64(s) {
                    None => None,
                    Some((segment, s)) => Some((FileId { table, generation, kind, segment }, s)),
                },
            },
        },
    }
}

impl Entry for Dependencies {
    type Key = FileId;

    type Stored = ();

    type Meaning = ();

    open spec fn meaning(v: ()) -> () {
        v
    }

    open spec fn least() -> nat {
        25
    }

    open spec fn enc(e: (FileId, ())) -> Seq<u8> {
        enc_file_id(e.0)
    }

    open spec fn dec(s: Seq<u8>) -> Option<((FileId, ()), Seq<u8>)> {
        match dec_file_id(s) {
            None => None,
            Some((f, s)) => Some(((f, ()), s)),
        }
    }

    fn write(key: &FileId, value: &(), e: &mut Encoder) {
        let ghost before = e.0@;
        e.u64(key.table);
        e.u64(key.generation);
        e.u8(key.kind);
        e.u64(key.segment);
        assert(e.0@ =~= before + Self::enc((*key, ())));
    }

    fn read(d: &mut Decoder<'_>) -> (r: Result<(FileId, ())>) {
        let table: u64 = d.u64()?;
        let generation: u64 = d.u64()?;
        let kind: u8 = d.u8()?;
        let segment: u64 = d.u64()?;
        Ok((FileId::new(table, generation, kind, segment), ()))
    }
}

/// The entries of the history generations.
pub struct Histories;

impl Entry for Histories {
    type Key = u64;

    type Stored = u64;

    type Meaning = u64;

    open spec fn meaning(v: u64) -> u64 {
        v
    }

    open spec fn least() -> nat {
        16
    }

    open spec fn enc(e: (u64, u64)) -> Seq<u8> {
        enc_pair(e)
    }

    open spec fn dec(s: Seq<u8>) -> Option<((u64, u64), Seq<u8>)> {
        dec_pair(s)
    }

    fn write(key: &u64, value: &u64, e: &mut Encoder) {
        let ghost before = e.0@;
        e.u64(*key);
        e.u64(*value);
        assert(e.0@ =~= before + Self::enc((*key, *value)));
    }

    fn read(d: &mut Decoder<'_>) -> (r: Result<(u64, u64)>) {
        let generation: u64 = d.u64()?;
        let sequence: u64 = d.u64()?;
        Ok((generation, sequence))
    }
}

/// Two encoded numbers.
pub open spec fn enc_pair(p: (u64, u64)) -> Seq<u8> {
    le(p.0 as nat, 8) + le(p.1 as nat, 8)
}

/// The two numbers at the front.
pub open spec fn dec_pair(s: Seq<u8>) -> Option<((u64, u64), Seq<u8>)> {
    match dec_u64(s) {
        None => None,
        Some((a, s)) => match dec_u64(s) {
            None => None,
            Some((b, s)) => Some(((a, b), s)),
        },
    }
}

/// The entries of the entity counts.
pub struct Counts;

impl Entry for Counts {
    type Key = Share;

    type Stored = Occupancy;

    type Meaning = Occupancy;

    open spec fn meaning(v: Occupancy) -> Occupancy {
        v
    }

    open spec fn least() -> nat {
        25
    }

    open spec fn enc(e: (Share, Occupancy)) -> Seq<u8> {
        le(e.0.table as nat, 8) + seq![e.0.slot] + enc_pair((e.1.entities, e.1.dead))
    }

    open spec fn dec(s: Seq<u8>) -> Option<((Share, Occupancy), Seq<u8>)> {
        match dec_u64(s) {
            None => None,
            Some((table, s)) => match dec_u8(s) {
                None => None,
                Some((slot, s)) => match dec_pair(s) {
                    None => None,
                    Some(((entities, dead), s)) => Some(
                        ((Share { table, slot }, Occupancy { entities, dead }), s),
                    ),
                },
            },
        }
    }

    fn write(key: &Share, value: &Occupancy, e: &mut Encoder) {
        let ghost before = e.0@;
        e.u64(key.table);
        e.u8(key.slot);
        e.u64(value.entities);
        e.u64(value.dead);
        assert(e.0@ =~= before + Self::enc((*key, *value)));
    }

    fn read(d: &mut Decoder<'_>) -> (r: Result<(Share, Occupancy)>) {
        let table: u64 = d.u64()?;
        let slot: u8 = d.u8()?;
        let entities: u64 = d.u64()?;
        let dead: u64 = d.u64()?;
        Ok((Share { table, slot }, Occupancy { entities, dead }))
    }
}

/// The entries of the index partitions.
pub struct Partitions;

/// An encoded route.
pub open spec fn enc_route(r: Route) -> Seq<u8> {
    le(r.table as nat, 8) + seq![r.kind] + enc_pair((r.low, r.low_second))
}

/// The route at the front.
pub open spec fn dec_route(s: Seq<u8>) -> Option<(Route, Seq<u8>)> {
    match dec_u64(s) {
        None => None,
        Some((table, s)) => match dec_u8(s) {
            None => None,
            Some((kind, s)) => match dec_pair(s) {
                None => None,
                Some(((low, low_second), s)) => Some((Route { table, kind, low, low_second }, s)),
            },
        },
    }
}

/// An encoded index partition; its route gives the table and the kind of its file.
pub open spec fn enc_part(e: (Route, PartV)) -> Seq<u8> {
    enc_route(e.0) + enc_pair((e.1.file.generation, e.1.file.segment)) + enc_pair(
        (e.1.lsn, e.1.base),
    ) + enc_pair(e.1.first) + enc_pair(e.1.last) + enc_map::<Slots>(e.1.slots) + enc_map::<
        Dependencies,
    >(e.1.dependencies)
}

/// The index partition at the front.
pub open spec fn dec_part(s: Seq<u8>) -> Option<((Route, PartV), Seq<u8>)> {
    match dec_route(s) {
        None => None,
        Some((route, s)) => match dec_pair(s) {
            None => None,
            Some(((generation, segment), s)) => match dec_pair(s) {
                None => None,
                Some(((lsn, base), s)) => match dec_pair(s) {
                    None => None,
                    Some((first, s)) => match dec_pair(s) {
                        None => None,
                        Some((last, s)) => match dec_map::<Slots>(s) {
                            None => None,
                            Some((slots, s)) => match dec_map::<Dependencies>(s) {
                                None => None,
                                Some((dependencies, s)) => Some(
                                    (
                                        (
                                            route,
                                            PartV {
                                                file: FileId {
                                                    table: route.table,
                                                    generation,
                                                    kind: route.kind,
                                                    segment,
                                                },
                                                lsn,
                                                base,
                                                first,
                                                last,
                                                slots,
                                                dependencies,
                                            },
                                        ),
                                        s,
                                    ),
                                ),
                            },
                        },
                    },
                },
            },
        },
    }
}

fn read_pair(d: &mut Decoder<'_>) -> (r: Result<(u64, u64)>)
    ensures
        match r {
            Ok(p) => dec_pair(old(d).rest()) == Some((p, final(d).rest())),
            Err(e) => dec_pair(old(d).rest()) is None && e is Corrupt,
        },
{
    let a: u64 = d.u64()?;
    let b: u64 = d.u64()?;
    Ok((a, b))
}

fn write_pair(a: u64, b: u64, e: &mut Encoder)
    ensures
        final(e).0@ == old(e).0@ + enc_pair((a, b)),
{
    let ghost before = e.0@;
    e.u64(a);
    e.u64(b);
    assert(e.0@ =~= before + enc_pair((a, b)));
}

fn read_route(d: &mut Decoder<'_>) -> (r: Result<Route>)
    ensures
        match r {
            Ok(p) => dec_route(old(d).rest()) == Some((p, final(d).rest())),
            Err(e) => dec_route(old(d).rest()) is None && e is Corrupt,
        },
{
    let table: u64 = d.u64()?;
    let kind: u8 = d.u8()?;
    let (low, low_second) = read_pair(d)?;
    Ok(Route { table, kind, low, low_second })
}

fn write_route(r: &Route, e: &mut Encoder)
    ensures
        final(e).0@ == old(e).0@ + enc_route(*r),
{
    let ghost before = e.0@;
    e.u64(r.table);
    e.u8(r.kind);
    write_pair(r.low, r.low_second, e);
    assert(e.0@ =~= before + enc_route(*r));
}

impl Entry for Partitions {
    type Key = Route;

    type Stored = Partition;

    type Meaning = PartV;

    open spec fn meaning(v: Partition) -> PartV {
        v@
    }

    open spec fn least() -> nat {
        105
    }

    open spec fn enc(e: (Route, PartV)) -> Seq<u8> {
        enc_part(e)
    }

    open spec fn dec(s: Seq<u8>) -> Option<((Route, PartV), Seq<u8>)> {
        dec_part(s)
    }

    fn write(key: &Route, value: &Partition, e: &mut Encoder) {
        let ghost before = e.0@;
        write_route(key, e);
        write_pair(value.file.generation, value.file.segment, e);
        write_pair(value.lsn, value.base, e);
        write_pair(value.first.0, value.first.1, e);
        write_pair(value.last.0, value.last.1, e);
        write_map::<Slots>(&value.slots, e);
        write_map::<Dependencies>(&value.dependencies, e);
        proof {
            assert(meanings::<Slots>(value.slots@) =~= value.slots@);
            assert(meanings::<Dependencies>(value.dependencies@) =~= value.dependencies@);
            assert(e.0@ =~= before + enc_part((*key, value@)));
        }
    }

    fn read(d: &mut Decoder<'_>) -> (r: Result<(Route, Partition)>) {
        let route = read_route(d)?;
        let (generation, segment) = read_pair(d)?;
        let (lsn, base) = read_pair(d)?;
        let first = read_pair(d)?;
        let last = read_pair(d)?;
        let slots = read_map::<Slots>(d, 2, "invalid partition slot mapping")?;
        let dependencies = read_map::<Dependencies>(d, 25, "invalid partition dependency")?;
        proof {
            assert(meanings::<Slots>(slots@) =~= slots@);
            assert(meanings::<Dependencies>(dependencies@) =~= dependencies@);
        }
        Ok(
            (
                route,
                Partition {
                    file: FileId::new(route.table, generation, route.kind, segment),
                    lsn,
                    base,
                    first,
                    last,
                    slots,
                    dependencies,
                },
            ),
        )
    }
}

/// The encoder of one generation.
pub open spec fn generation_encoder() -> spec_fn(GenerationInfo) -> Seq<u8> {
    |g: GenerationInfo| enc_pair((g.generation, g.lsn))
}

/// The decoder of one generation.
pub open spec fn generation_decoder() -> spec_fn(Seq<u8>) -> Option<(GenerationInfo, Seq<u8>)> {
    |s: Seq<u8>|
        match dec_pair(s) {
            None => None,
            Some(((generation, lsn), s)) => Some((GenerationInfo { generation, lsn }, s)),
        }
}

/// An encoded file reference.
pub open spec fn enc_file(f: FileInfo) -> Seq<u8> {
    enc_pair((f.generation, f.table)) + seq![f.kind] + enc_pair((f.segment, f.size)) + le(
        f.crc as nat,
        4,
    )
}

/// The file reference at the front.
pub open spec fn dec_file(s: Seq<u8>) -> Option<(FileInfo, Seq<u8>)> {
    match dec_pair(s) {
        None => None,
        Some(((generation, table), s)) => match dec_u8(s) {
            None => None,
            Some((kind, s)) => match dec_pair(s) {
                None => None,
                Some(((segment, size), s)) => match dec_u32(s) {
                    None => None,
                    Some((crc, s)) => Some(
                        (FileInfo { generation, table, kind, segment, size, crc }, s),
                    ),
                },
            },
        },
    }
}

/// The encoder of one file reference.
pub open spec fn file_encoder() -> spec_fn(FileInfo) -> Seq<u8> {
    |f: FileInfo| enc_file(f)
}

/// The decoder of one file reference.
pub open spec fn file_decoder() -> spec_fn(Seq<u8>) -> Option<(FileInfo, Seq<u8>)> {
    |s: Seq<u8>| dec_file(s)
}

/// The counted list at the front.
pub open spec fn dec_list<T>(
    s: Seq<u8>,
    least: nat,
    dec: spec_fn(Seq<u8>) -> Option<(T, Seq<u8>)>,
) -> Option<(Seq<T>, Seq<u8>)> {
    match dec_count(s, least) {
        None => None,
        Some((n, s)) => dec_n(n, s, dec),
    }
}

fn read_generations(d: &mut Decoder<'_>) -> (r: Result<Vec<GenerationInfo>>)
    ensures
        match r {
            Ok(v) => dec_list(old(d).rest(), 16, generation_decoder()) == Some(
                (v@, final(d).rest()),
            ),
            Err(e) => dec_list(old(d).rest(), 16, generation_decoder()) is None && e is Corrupt,
        },
{
    let count: usize = d.count(16)?;
    let ghost dec = generation_decoder();
    let ghost start = d.rest();
    let mut out: Vec<GenerationInfo> = Vec::new();
    proof {
        lemma_prepend_none(dec_n(count as nat, start, dec));
    }
    let mut i: usize = 0;
    while i < count
        invariant
            i <= count,
            dec == generation_decoder(),
            dec_count(old(d).rest(), 16) == Some((count as nat, start)),
            dec_n(count as nat, start, dec) == prepend(
                out@,
                dec_n((count - i) as nat, d.rest(), dec),
            ),
        decreases count - i,
    {
        proof {
            lemma_dec_step(out@, (count - i) as nat, d.rest(), dec);
        }
        let (generation, lsn) = read_pair(d)?;
        out.push(GenerationInfo { generation, lsn });
        i = i + 1;
    }
    proof {
        assert(out@ + Seq::<GenerationInfo>::empty() =~= out@);
    }
    Ok(out)
}

fn read_files(d: &mut Decoder<'_>) -> (r: Result<Vec<FileInfo>>)
    ensures
        match r {
            Ok(v) => dec_list(old(d).rest(), 37, file_decoder()) == Some((v@, final(d).rest())),
            Err(e) => dec_list(old(d).rest(), 37, file_decoder()) is None && e is Corrupt,
        },
{
    let count: usize = d.count(37)?;
    let ghost dec = file_decoder();
    let ghost start = d.rest();
    let mut out: Vec<FileInfo> = Vec::new();
    proof {
        lemma_prepend_none(dec_n(count as nat, start, dec));
    }
    let mut i: usize = 0;
    while i < count
        invariant
            i <= count,
            dec == file_decoder(),
            dec_count(old(d).rest(), 37) == Some((count as nat, start)),
            dec_n(count as nat, start, dec) == prepend(
                out@,
                dec_n((count - i) as nat, d.rest(), dec),
            ),
        decreases count - i,
    {
        proof {
            lemma_dec_step(out@, (count - i) as nat, d.rest(), dec);
        }
        let (generation, table) = read_pair(d)?;
        let kind: u8 = d.u8()?;
        let (segment, size) = read_pair(d)?;
        let crc: u32 = d.u32()?;
        out.push(FileInfo { generation, table, kind, segment, size, crc });
        i = i + 1;
    }
    proof {
        assert(out@ + Seq::<FileInfo>::empty() =~= out@);
    }
    Ok(out)
}

// ---- Manifests ----

/// Whether generations ascend.
pub open spec fn ascending(s: Seq<GenerationInfo>) -> bool {
    forall|i: int, j: int|
        0 <= i < j < s.len() ==> (#[trigger] s[i]).generation < (#[trigger] s[j]).generation
}

/// Whether a file is listed and holds the page `base`.
pub open spec fn holds_page(files: Seq<FileInfo>, f: FileId, base: u64) -> bool {
    exists|i: int|
        0 <= i < files.len() && (#[trigger] files[i]).named() == f && base < files[i].size / 8192
}

/// Whether a file is listed.
pub open spec fn listed(files: Seq<FileInfo>, f: FileId) -> bool {
    exists|i: int| 0 <= i < files.len() && (#[trigger] files[i]).named() == f
}

/// Whether a generation is among those that a manifest names.
pub open spec fn names(s: Seq<GenerationInfo>, generation: u64) -> bool {
    exists|i: int| 0 <= i < s.len() && (#[trigger] s[i]).generation == generation
}

/// Whether an index partition fits its manifest.
pub open spec fn valid_part(r: RootV, at: Route, p: PartV) -> bool {
    &&& r.catalog.contains_key(at.table)
    &&& 3 <= at.kind <= 5
    &&& p.file.generation <= r.generation
    &&& p.lsn <= r.lsn
    &&& !p.last.before(p.first)
    &&& bucket_of(at.kind, p.first) == at.lower()
    &&& bucket_of(at.kind, p.last) == at.lower()
    &&& (at.kind == 3 <==> p.slots.dom() != Set::<u8>::empty())
    &&& forall|slot: u8| #[trigger]
        p.slots.contains_key(slot) ==> p.slots[slot] < r.generations.len()
    &&& forall|f: FileId| #[trigger]
        p.dependencies.contains_key(f) ==> f.table == at.table && (f.kind == 2 || f.kind == 6)
}

/// Whether a manifest lists every file that an index partition needs.
pub open spec fn complete_part(files: Seq<FileInfo>, p: PartV) -> bool {
    &&& holds_page(files, p.file, p.base)
    &&& forall|f: FileId| #[trigger] p.dependencies.contains_key(f) ==> listed(files, f)
}

/// Whether the tree of one partition starts where that of another does.
pub open spec fn same_place(a: PartV, b: PartV) -> bool {
    a.file == b.file && a.base == b.base
}

/// Whether some partition has its tree in a file.
pub open spec fn indexed(r: RootV, f: FileId) -> bool {
    exists|at: Route| #[trigger] r.partitions.contains_key(at) && r.partitions[at].file == f
}

/// Whether a file reference fits its manifest.
pub open spec fn valid_file(r: RootV, f: FileInfo) -> bool {
    &&& r.catalog.contains_key(f.table)
    &&& f.kind <= 6
    &&& f.kind < 3 ==> f.segment == 0
    &&& if f.kind == 2 || f.kind == 6 {
        r.history_generations.contains_key(f.generation)
    } else if 3 <= f.kind <= 5 {
        indexed(r, f.named())
    } else {
        names(r.generations, f.generation)
    }
}

/// Whether an entity count fits its manifest.
pub open spec fn valid_count(r: RootV, at: Share, o: Occupancy) -> bool {
    &&& r.catalog.contains_key(at.table)
    &&& at.slot < r.generations.len()
    &&& o.dead <= o.entities
}

/// Whether no two tables share a name.
pub open spec fn distinct_names(catalog: Map<u64, TableV>) -> bool {
    forall|a: u64, b: u64| #[trigger]
        catalog.contains_key(a) && #[trigger] catalog.contains_key(b) && a != b ==> catalog[a].name
            != catalog[b].name
}

/// Whether no two file references name the same file.
pub open spec fn distinct_files(files: Seq<FileInfo>) -> bool {
    forall|i: int, j: int|
        0 <= i < j < files.len() ==> (#[trigger] files[i]).named() != (#[trigger] files[j]).named()
}

/// Whether no two partitions share a place.
pub open spec fn distinct_places(parts: Map<Route, PartV>) -> bool {
    forall|a: Route, b: Route| #[trigger]
        parts.contains_key(a) && #[trigger] parts.contains_key(b) && a != b ==> !same_place(
            parts[a],
            parts[b],
        )
}

/// Whether the parts of a manifest agree with one another.
pub open spec fn valid_root(r: RootV) -> bool {
    &&& distinct_names(r.catalog)
    &&& valid_generations(r.generations, r.generation)
    &&& forall|at: Route| #[trigger]
        r.partitions.contains_key(at) ==> valid_part(r, at, r.partitions[at])
    &&& distinct_places(r.partitions)
    &&& forall|g: u64| #[trigger]
        r.history_generations.contains_key(g) ==> g <= r.generation && r.history_generations[g]
            <= r.lsn
    &&& forall|i: int| 0 <= i < r.files.len() ==> valid_file(r, #[trigger] r.files[i])
    &&& distinct_files(r.files)
    &&& forall|at: Route| #[trigger]
        r.partitions.contains_key(at) ==> complete_part(r.files, r.partitions[at])
    &&& forall|at: Share| #[trigger]
        r.occupancy.contains_key(at) ==> valid_count(r, at, r.occupancy[at])
}

/// Whether a list of generations ascends, fits, and ends with the manifest's own.
pub open spec fn valid_generations(s: Seq<GenerationInfo>, generation: u64) -> bool {
    &&& ascending(s)
    &&& 0 < s.len() <= MAX_SLOTS
    &&& s.last().generation == generation
}

/// Whether the pages of some partition's tree start outside its file.
pub open spec fn rootless(r: RootV) -> bool {
    exists|at: Route| #[trigger]
        r.partitions.contains_key(at) && !holds_page(
            r.files,
            r.partitions[at].file,
            r.partitions[at].base,
        )
}

/// Whether a manifest does not list every file that its partitions need.
pub open spec fn incomplete(r: RootV) -> bool {
    exists|at: Route| #[trigger]
        r.partitions.contains_key(at) && !complete_part(r.files, r.partitions[at])
}

/// Whether the parts of a manifest disagree in the way that a message names: the first
/// disagreement, in the order in which the parts are written, is the one that is named.
pub open spec fn disagrees(r: RootV, message: Seq<char>) -> bool {
    if !distinct_names(r.catalog) {
        message == "duplicate table"@
    } else if !ascending(r.generations) {
        message == "unordered generation list"@
    } else if !valid_generations(r.generations, r.generation) {
        message == "invalid generation list"@
    } else if !((forall|at: Route| #[trigger]
        r.partitions.contains_key(at) ==> valid_part(r, at, r.partitions[at]))
        && distinct_places(r.partitions)) {
        message == "invalid index partition"@
    } else if exists|g: u64| #[trigger]
        r.history_generations.contains_key(g) && !(g <= r.generation && r.history_generations[g]
            <= r.lsn) {
        message == "invalid history generation"@
    } else if !((forall|i: int| 0 <= i < r.files.len() ==> valid_file(r, #[trigger] r.files[i]))
        && distinct_files(r.files)) {
        message == "invalid checkpoint file reference"@
    } else if incomplete(r) {
        ||| message == "partition root outside index file"@ && rootless(r)
        ||| message == "incomplete partition manifest"@
    } else {
        message == "invalid generation occupancy"@ && !valid_root(r)
    }
}

/// Whether a message says why bytes that hold the parts of a manifest hold no valid one.
pub open spec fn refused_for(s: Seq<u8>, e: Error) -> bool {
    match dec_parts(s) {
        None => true,
        Some((r, rest)) => e matches Error::Corrupt(message) && (if valid_root(r) {
            rest.len() > 0 && message@ == "unexpected trailing bytes"@
        } else {
            disagrees(r, message@)
        }),
    }
}

/// An encoded manifest.
pub open spec fn enc_root(r: RootV) -> Seq<u8> {
    enc_pair((r.generation, r.lsn)) + enc_map::<Tables>(r.catalog) + le(r.generations.len(), 8)
        + enc_all(r.generations, generation_encoder()) + enc_map::<Partitions>(r.partitions)
        + enc_bool(r.history_compacted) + enc_map::<Histories>(r.history_generations) + le(
        r.files.len(),
        8,
    ) + enc_all(r.files, file_encoder()) + enc_map::<Counts>(r.occupancy)
}

/// The parts of a manifest, whether or not they agree.
pub open spec fn dec_parts(s: Seq<u8>) -> Option<(RootV, Seq<u8>)> {
    match dec_pair(s) {
        None => None,
        Some(((generation, lsn), s)) => match dec_map::<Tables>(s) {
            None => None,
            Some((catalog, s)) => match dec_list(s, 16, generation_decoder()) {
                None => None,
                Some((generations, s)) => match dec_map::<Partitions>(s) {
                    None => None,
                    Some((partitions, s)) => match dec_bool(s) {
                        None => None,
                        Some((history_compacted, s)) => match dec_map::<Histories>(s) {
                            None => None,
                            Some((history_generations, s)) => match dec_list(
                                s,
                                37,
                                file_decoder(),
                            ) {
                                None => None,
                                Some((files, s)) => match dec_map::<Counts>(s) {
                                    None => None,
                                    Some((occupancy, s)) => Some(
                                        (
                                            RootV {
                                                generation,
                                                lsn,
                                                catalog,
                                                generations,
                                                files,
                                                partitions,
                                                history_generations,
                                                history_compacted,
                                                occupancy,
                                            },
                                            s,
                                        ),
                                    ),
                                },
                            },
                        },
                    },
                },
            },
        },
    }
}

/// The manifest that bytes hold, if they hold a valid one and nothing else.
pub open spec fn dec_root(s: Seq<u8>) -> Option<RootV> {
    match dec_parts(s) {
        None => None,
        Some((r, rest)) => if rest.len() == 0 && valid_root(r) {
            Some(r)
        } else {
            None
        },
    }
}

/// Whether the parts of a manifest can be counted.
pub open spec fn sized(r: RootV) -> bool {
    &&& r.catalog.dom().finite() && r.catalog.dom().len() <= u64::MAX
    &&& r.partitions.dom().finite() && r.partitions.dom().len() <= u64::MAX
    &&& r.history_generations.dom().finite() && r.history_generations.dom().len() <= u64::MAX
    &&& r.occupancy.dom().finite() && r.occupancy.dom().len() <= u64::MAX
    &&& r.files.len() <= u64::MAX
}

/// Whether every part of a manifest survives encoding.
pub open spec fn encodable_root(r: RootV) -> bool {
    &&& r.catalog.dom().finite() && r.catalog.dom().len() <= u64::MAX
    &&& r.partitions.dom().finite() && r.partitions.dom().len() <= u64::MAX
    &&& r.history_generations.dom().finite() && r.history_generations.dom().len() <= u64::MAX
    &&& r.occupancy.dom().finite() && r.occupancy.dom().len() <= u64::MAX
    &&& r.files.len() <= u64::MAX
    &&& forall|id: u64| #[trigger]
        r.catalog.contains_key(id) ==> r.catalog[id].id == id && valid_table(r.catalog[id])
            && r.catalog[id].schemas.len() <= u64::MAX
    &&& forall|at: Route| #[trigger]
        r.partitions.contains_key(at) ==> {
            &&& r.partitions[at].file.table == at.table
            &&& r.partitions[at].file.kind == at.kind
            &&& r.partitions[at].slots.dom().finite()
            &&& r.partitions[at].dependencies.dom().finite()
            &&& r.partitions[at].dependencies.dom().len() <= u64::MAX
        }
}

fn read_parts(d: &mut Decoder<'_>) -> (r: Result<Root>)
    ensures
        match r {
            Ok(v) => dec_parts(old(d).rest()) == Some((v@, final(d).rest())) && distinct_names(
                v@.catalog,
            ) && valid_generations(v@.generations, v@.generation),
            Err(e) => e is Corrupt && (dec_parts(old(d).rest()) matches Some((v, _)) ==> !valid_root(
                v,
            ) && disagrees(v, e->Corrupt_0@)),
        },
{
    let (generation, lsn) = read_pair(d)?;
    let catalog = read_map::<Tables>(d, 25, "duplicate table")?;
    if !names_differ(&catalog) {
        return Err(corrupt("duplicate table"));
    }
    let generations = read_generations(d)?;
    if !generations_ascend(&generations) {
        return Err(corrupt("unordered generation list"));
    }
    if !generations_fit(&generations, generation) {
        return Err(corrupt("invalid generation list"));
    }
    let partitions = read_map::<Partitions>(d, 105, "duplicate index partition route")?;
    let history_compacted: bool = d.bool("invalid history compaction flag")?;
    let history_generations = read_map::<Histories>(d, 16, "invalid history generation")?;
    let files = read_files(d)?;
    let occupancy = read_map::<Counts>(d, 25, "invalid generation occupancy")?;
    proof {
        assert(meanings::<Histories>(history_generations@) =~= history_generations@);
        assert(meanings::<Counts>(occupancy@) =~= occupancy@);
    }
    Ok(
        Root {
            generation,
            lsn,
            catalog,
            generations,
            files,
            partitions,
            history_generations,
            history_compacted,
            occupancy,
        },
    )
}

/// The entries that a listing of references holds.
pub open spec fn listed_entries<K, V>(items: Seq<(&K, &V)>) -> Seq<(K, V)> {
    items.map_values(|e: (&K, &V)| (*e.0, *e.1))
}

/// Something holds of every entry of a map exactly if it holds of every listed entry.
pub proof fn lemma_every<K, V>(s: Seq<(K, V)>, m: Map<K, V>, p: spec_fn(K, V) -> bool)
    requires
        lists(s, m),
    ensures
        (forall|k: K| #[trigger] m.contains_key(k) ==> p(k, m[k])) == (forall|i: int|
            0 <= i < s.len() ==> p((#[trigger] s[i]).0, s[i].1)),
{
    reveal(lists);
    if forall|k: K| #[trigger] m.contains_key(k) ==> p(k, m[k]) {
        assert forall|i: int| 0 <= i < s.len() implies p((#[trigger] s[i]).0, s[i].1) by {
            assert(m.contains_key(s[i].0));
        }
    }
    if forall|i: int| 0 <= i < s.len() ==> p((#[trigger] s[i]).0, s[i].1) {
        assert forall|k: K| #[trigger] m.contains_key(k) implies p(k, m[k]) by {
            let i = choose|i: int| 0 <= i < s.len() && (#[trigger] s[i]).0 == k;
            assert(p(s[i].0, s[i].1));
        }
    }
}

fn names_differ(catalog: &OrderedMap<u64, Table>) -> (ok: bool)
    ensures
        ok == distinct_names(meanings::<Tables>(catalog@)),
{
    let items = catalog.items();
    let ghost m = meanings::<Tables>(catalog@);
    let ghost s = catalog.entries();
    let count: usize = items.len();
    proof {
        assert(listed_entries(items@).len() == items@.len());
        assert forall|i: int| 0 <= i < s.len() implies *(#[trigger] items@[i]).0 == s[i].0
            && *items@[i].1 == s[i].1 by {
            assert(listed_entries(items@)[i] == s[i]);
        }
    }
    let mut i: usize = 0;
    while i < count
        invariant
            i <= count,
            count == items@.len(),
            count == s.len(),
            s == catalog.entries(),
            m == meanings::<Tables>(catalog@),
            lists(s, catalog@),
            increasing(s),
            forall|a: int|
                0 <= a < s.len() ==> *(#[trigger] items@[a]).0 == s[a].0 && *items@[a].1 == s[a].1,
            forall|a: int, b: int|
                0 <= a < b < i ==> (#[trigger] s[a]).1@.name != (#[trigger] s[b]).1@.name,
        decreases count - i,
    {
        let mut j: usize = 0;
        while j < i
            invariant
                j <= i < count,
                count == items@.len(),
                count == s.len(),
                s == catalog.entries(),
                m == meanings::<Tables>(catalog@),
                lists(s, catalog@),
                increasing(s),
                forall|a: int|
                    0 <= a < s.len() ==> *(#[trigger] items@[a]).0 == s[a].0 && *items@[a].1
                        == s[a].1,
                forall|a: int| 0 <= a < j ==> (#[trigger] s[a]).1@.name != s[i as int].1@.name,
            decreases i - j,
        {
            let (ka, a) = items[j];
            let (kb, b) = items[i];
            if a.name == b.name {
                proof {
                    reveal(lists);
                    reveal(increasing);
                    let (x, y) = (s[j as int], s[i as int]);
                    assert(x.0 < y.0);
                    assert(m.contains_key(x.0) && m.contains_key(y.0));
                    assert(m[x.0].name == m[y.0].name);
                }
                return false;
            }
            j = j + 1;
        }
        i = i + 1;
    }
    proof {
        reveal(lists);
        assert forall|a: u64, b: u64| #[trigger]
            m.contains_key(a) && #[trigger] m.contains_key(b) && a != b implies m[a].name
            != m[b].name by {
            assert(catalog@.contains_key(a) && catalog@.contains_key(b));
            let x = choose|x: int| 0 <= x < s.len() && (#[trigger] s[x]).0 == a;
            let y = choose|y: int| 0 <= y < s.len() && (#[trigger] s[y]).0 == b;
            if x < y {
                assert(s[x].1@.name != s[y].1@.name);
            } else {
                assert(s[y].1@.name != s[x].1@.name);
            }
        }
    }
    true
}

fn generations_ascend(s: &Vec<GenerationInfo>) -> (ok: bool)
    ensures
        ok == ascending(s@),
{
    let count: usize = s.len();
    if count == 0 {
        return true;
    }
    let mut i: usize = 1;
    while i < count
        invariant
            1 <= i <= count,
            count == s@.len(),
            forall|a: int, b: int|
                0 <= a < b < i ==> (#[trigger] s@[a]).generation < (#[trigger] s@[b]).generation,
        decreases count - i,
    {
        if s[i - 1].generation >= s[i].generation {
            assert(!ascending(s@)) by {
                assert(!(s@[i - 1].generation < s@[i as int].generation));
            }
            return false;
        }
        assert forall|a: int, b: int| 0 <= a < b < i + 1 implies (#[trigger] s@[a]).generation < (
        #[trigger] s@[b]).generation by {
            if b == i && a < i - 1 {
                assert(s@[a].generation < s@[i - 1].generation);
            }
        }
        i = i + 1;
    }
    true
}

fn generations_fit(s: &Vec<GenerationInfo>, generation: u64) -> (ok: bool)
    requires
        ascending(s@),
    ensures
        ok == valid_generations(s@, generation),
{
    let count: usize = s.len();
    !(count == 0 || count > MAX_SLOTS || s[count - 1].generation != generation)
}

fn keys_in_order(a: Key, b: Key) -> (r: bool)
    ensures
        r == !b.before(a),
{
    !b.less(&a)
}

impl Root {
    fn part_fits(&self, at: &Route, p: &Partition) -> (ok: bool)
        ensures
            ok == valid_part(self@, *at, p@),
    {
        let first = bucket(at.kind, p.first);
        let last = bucket(at.kind, p.last);
        let slots = p.slots.items();
        let ghost s = p.slots.entries();
        let count: usize = slots.len();
        proof {
            assert(listed_entries(slots@).len() == slots@.len());
            reveal(lists);
            if s.len() > 0 {
                assert(p@.slots.dom().contains(s[0].0));
            } else {
                assert(p@.slots.dom() =~= Set::empty());
            }
        }
        if !self.catalog.contains_key(&at.table) || at.kind < 3 || at.kind > 5 || p.file.generation
            > self.generation || p.lsn > self.lsn || !keys_in_order(p.first, p.last) || first.0
            != at.low || first.1 != at.low_second || last.0 != at.low || last.1 != at.low_second
            || (at.kind == 3) != (count != 0) {
            return false;
        }
        let mut i: usize = 0;
        while i < count
            invariant
                i <= count,
                count == slots@.len(),
                s == p.slots.entries(),
                listed_entries(slots@) == s,
                lists(s, p.slots@),
                forall|a: int| 0 <= a < i ==> (#[trigger] s[a]).1 < self.generations@.len(),
            decreases count - i,
        {
            let (k, v) = slots[i];
            proof {
                assert(listed_entries(slots@)[i as int] == (*k, *v));
            }
            if *v as usize >= self.generations.len() {
                proof {
                    reveal(lists);
                    assert(p@.slots.contains_key(s[i as int].0));
                }
                return false;
            }
            i = i + 1;
        }
        let ghost generations = self.generations@;
        proof {
            assert(listed_entries(slots@).len() == slots@.len());
            lemma_every(s, p.slots@, |k: u8, v: u8| v < generations.len());
            let q = |k: u8, v: u8| v < generations.len();
            assert forall|k: u8| #[trigger] p@.slots.contains_key(k) implies p@.slots[k]
                < self@.generations.len() by {
                assert(q(k, p.slots@[k]));
            }
        }
        let files = p.dependencies.items();
        let ghost t = p.dependencies.entries();
        let total: usize = files.len();
        proof {
            assert(listed_entries(files@).len() == files@.len());
        }
        let mut i: usize = 0;
        while i < total
            invariant
                i <= total,
                total == files@.len(),
                t == p.dependencies.entries(),
                listed_entries(files@) == t,
                lists(t, p.dependencies@),
                forall|a: int|
                    0 <= a < i ==> (#[trigger] t[a]).0.table == at.table && (t[a].0.kind == 2
                        || t[a].0.kind == 6),
            decreases total - i,
        {
            let (k, v) = files[i];
            proof {
                assert(listed_entries(files@)[i as int] == (*k, *v));
            }
            if k.table != at.table || (k.kind != 2 && k.kind != 6) {
                proof {
                    reveal(lists);
                    assert(p@.dependencies.contains_key(t[i as int].0));
                }
                return false;
            }
            i = i + 1;
        }
        proof {
            assert(listed_entries(files@).len() == files@.len());
            reveal(lists);
            assert forall|f: FileId| #[trigger] p@.dependencies.contains_key(f) implies f.table
                == at.table && (f.kind == 2 || f.kind == 6) by {
                assert(p.dependencies@.contains_key(f));
                let a = choose|a: int| 0 <= a < t.len() && (#[trigger] t[a]).0 == f;
                assert(t[a].0.table == at.table);
            }
        }
        true
    }

    fn parts_fit(&self) -> (ok: bool)
        ensures
            ok == ((forall|at: Route| #[trigger]
                self@.partitions.contains_key(at) ==> valid_part(self@, at, self@.partitions[at]))
                && distinct_places(self@.partitions)),
    {
        let items = self.partitions.items();
        let ghost s = self.partitions.entries();
        let ghost m = self@.partitions;
        let count: usize = items.len();
        let mut places: OrderedMap<Extent, ()> = OrderedMap::new();
        proof {
            assert(listed_entries(items@).len() == items@.len());
        }
        let mut i: usize = 0;
        while i < count
            invariant
                i <= count,
                count == items@.len(),
                s == self.partitions.entries(),
                m == self@.partitions,
                listed_entries(items@) == s,
                lists(s, self.partitions@),
                increasing(s),
                forall|a: int|
                    0 <= a < i ==> valid_part(self@, (#[trigger] s[a]).0, s[a].1@),
                forall|a: int, b: int|
                    0 <= a < b < i ==> !same_place((#[trigger] s[a]).1@, (#[trigger] s[b]).1@),
                forall|a: int|
                    0 <= a < i ==> places@.contains_key(place_of((#[trigger] s[a]).1@)),
                forall|e: Extent| #[trigger]
                    places@.contains_key(e) ==> exists|a: int|
                        0 <= a < i && place_of((#[trigger] s[a]).1@) == e,
            decreases count - i,
        {
            let (k, v) = items[i];
            proof {
                assert(listed_entries(items@).len() == items@.len());
                assert(listed_entries(items@)[i as int] == (*k, *v));
                assert(m.contains_key(s[i as int].0) && m[s[i as int].0] == s[i as int].1@) by {
                    reveal(lists);
                    assert(self.partitions@.contains_key(s[i as int].0));
                }
            }
            if !self.part_fits(k, v) {
                return false;
            }
            let place = Extent { file: v.file, offset: v.base, length: 0 };
            if places.contains_key(&place) {
                proof {
                    let a = choose|a: int| 0 <= a < i && place_of((#[trigger] s[a]).1@) == place;
                    reveal(lists);
                    reveal(increasing);
                    assert(self.partitions@.contains_key(s[a].0));
                    assert(m.contains_key(s[a].0) && m[s[a].0] == s[a].1@);
                    assert(s[a].0.before(s[i as int].0));
                    Route::order_laws();
                    assert(same_place(m[s[a].0], m[s[i as int].0]));
                }
                return false;
            }
            let ghost before = places@;
            places.insert(place, ());
            proof {
                assert forall|a: int, b: int| 0 <= a < b < i + 1 implies !same_place(
                    (#[trigger] s[a]).1@,
                    (#[trigger] s[b]).1@,
                ) by {
                    if b == i {
                        assert(before.contains_key(place_of(s[a].1@)));
                    }
                }
                assert forall|e: Extent| #[trigger] places@.contains_key(e) implies exists|a: int|
                    0 <= a < i + 1 && place_of((#[trigger] s[a]).1@) == e by {
                    if e == place {
                        assert(place_of(s[i as int].1@) == e);
                    } else {
                        assert(before.contains_key(e));
                        let a = choose|a: int|
                            0 <= a < i && place_of((#[trigger] s[a]).1@) == e;
                        assert(place_of(s[a].1@) == e);
                    }
                }
            }
            i = i + 1;
        }
        proof {
            assert(listed_entries(items@).len() == items@.len());
            reveal(lists);
            assert forall|at: Route| #[trigger] m.contains_key(at) implies valid_part(
                self@,
                at,
                m[at],
            ) by {
                assert(self.partitions@.contains_key(at));
                let a = choose|a: int| 0 <= a < s.len() && (#[trigger] s[a]).0 == at;
                assert(valid_part(self@, s[a].0, s[a].1@));
            }
            assert forall|a: Route, b: Route| #[trigger]
                m.contains_key(a) && #[trigger] m.contains_key(b) && a != b implies !same_place(
                m[a],
                m[b],
            ) by {
                assert(self.partitions@.contains_key(a) && self.partitions@.contains_key(b));
                let x = choose|x: int| 0 <= x < s.len() && (#[trigger] s[x]).0 == a;
                let y = choose|y: int| 0 <= y < s.len() && (#[trigger] s[y]).0 == b;
                if x < y {
                    assert(!same_place(s[x].1@, s[y].1@));
                } else {
                    assert(!same_place(s[y].1@, s[x].1@));
                }
            }
        }
        true
    }

    fn histories_fit(&self) -> (ok: bool)
        ensures
            ok == (forall|g: u64| #[trigger]
                self@.history_generations.contains_key(g) ==> g <= self@.generation
                    && self@.history_generations[g] <= self@.lsn),
    {
        let items = self.history_generations.items();
        let ghost s = self.history_generations.entries();
        let count: usize = items.len();
        proof {
            assert(listed_entries(items@).len() == items@.len());
        }
        let mut i: usize = 0;
        while i < count
            invariant
                i <= count,
                count == items@.len(),
                s == self.history_generations.entries(),
                listed_entries(items@) == s,
                lists(s, self.history_generations@),
                forall|a: int|
                    0 <= a < i ==> (#[trigger] s[a]).0 <= self.generation && s[a].1 <= self.lsn,
            decreases count - i,
        {
            let (k, v) = items[i];
            proof {
                assert(listed_entries(items@).len() == items@.len());
                assert(listed_entries(items@)[i as int] == (*k, *v));
            }
            if *k > self.generation || *v > self.lsn {
                proof {
                    reveal(lists);
                    assert(self@.history_generations.contains_key(s[i as int].0));
                }
                return false;
            }
            i = i + 1;
        }
        proof {
            assert(listed_entries(items@).len() == items@.len());
            reveal(lists);
        }
        true
    }

    fn index_files(&self) -> (set: OrderedMap<FileId, ()>)
        ensures
            forall|f: FileId| #[trigger] set@.contains_key(f) == indexed(self@, f),
    {
        let items = self.partitions.items();
        let ghost s = self.partitions.entries();
        let count: usize = items.len();
        let mut set: OrderedMap<FileId, ()> = OrderedMap::new();
        proof {
            assert(listed_entries(items@).len() == items@.len());
        }
        let mut i: usize = 0;
        while i < count
            invariant
                i <= count,
                count == items@.len(),
                s == self.partitions.entries(),
                listed_entries(items@) == s,
                forall|a: int| 0 <= a < i ==> set@.contains_key((#[trigger] s[a]).1.file),
                forall|f: FileId| #[trigger]
                    set@.contains_key(f) ==> exists|a: int|
                        0 <= a < i && (#[trigger] s[a]).1.file == f,
            decreases count - i,
        {
            let (k, v) = items[i];
            proof {
                assert(listed_entries(items@).len() == items@.len());
                assert(listed_entries(items@)[i as int] == (*k, *v));
            }
            let ghost before = set@;
            set.insert(v.file, ());
            proof {
                assert forall|f: FileId| #[trigger] set@.contains_key(f) implies exists|a: int|
                    0 <= a < i + 1 && (#[trigger] s[a]).1.file == f by {
                    if before.contains_key(f) {
                        let a = choose|a: int| 0 <= a < i && (#[trigger] s[a]).1.file == f;
                        assert(s[a].1.file == f);
                    } else {
                        assert(s[i as int].1.file == f);
                    }
                }
            }
            i = i + 1;
        }
        proof {
            assert(listed_entries(items@).len() == items@.len());
            reveal(lists);
            assert forall|f: FileId| #[trigger] set@.contains_key(f) == indexed(self@, f) by {
                if set@.contains_key(f) {
                    let a = choose|a: int| 0 <= a < s.len() && (#[trigger] s[a]).1.file == f;
                    assert(self.partitions@.contains_key(s[a].0));
                    assert(self@.partitions.contains_key(s[a].0));
                }
                if indexed(self@, f) {
                    let at = choose|at: Route| #[trigger]
                        self@.partitions.contains_key(at) && self@.partitions[at].file == f;
                    assert(self.partitions@.contains_key(at));
                    let a = choose|a: int| 0 <= a < s.len() && (#[trigger] s[a]).0 == at;
                    assert(s[a].1.file == f);
                }
            }
        }
        set
    }

    fn names_generation(&self, generation: u64) -> (r: bool)
        ensures
            r == names(self@.generations, generation),
    {
        let mut i: usize = 0;
        while i < self.generations.len()
            invariant
                i <= self.generations@.len(),
                forall|a: int|
                    0 <= a < i ==> (#[trigger] self.generations@[a]).generation != generation,
            decreases self.generations@.len() - i,
        {
            if self.generations[i].generation == generation {
                return true;
            }
            i = i + 1;
        }
        false
    }

    fn file_fits(&self, f: &FileInfo, index_files: &OrderedMap<FileId, ()>) -> (ok: bool)
        requires
            forall|g: FileId| #[trigger] index_files@.contains_key(g) == indexed(self@, g),
        ensures
            ok == valid_file(self@, *f),
    {
        if !self.catalog.contains_key(&f.table) || f.kind > 6 || (f.kind < 3 && f.segment != 0) {
            return false;
        }
        if f.kind == 2 || f.kind == 6 {
            self.history_generations.contains_key(&f.generation)
        } else if f.kind >= 3 && f.kind <= 5 {
            index_files.contains_key(&f.id())
        } else {
            self.names_generation(f.generation)
        }
    }

    /// Checks the file references and gives each file's reference by its identity.
    fn files_fit(&self) -> (r: Option<OrderedMap<FileId, FileInfo>>)
        ensures
            r is Some == ((forall|i: int|
                0 <= i < self@.files.len() ==> valid_file(self@, #[trigger] self@.files[i]))
                && distinct_files(self@.files)),
            r is Some ==> forall|f: FileId| #[trigger]
                r.unwrap()@.contains_key(f) == listed(self@.files, f),
            r is Some ==> forall|i: int|
                0 <= i < self@.files.len() ==> r.unwrap()@.contains_key(
                    (#[trigger] self@.files[i]).named(),
                ) && r.unwrap()@[self@.files[i].named()] == self@.files[i],
    {
        let index_files = self.index_files();
        let ghost files = self@.files;
        let mut seen: OrderedMap<FileId, FileInfo> = OrderedMap::new();
        let mut i: usize = 0;
        while i < self.files.len()
            invariant
                i <= self.files@.len(),
                files == self@.files,
                forall|g: FileId| #[trigger] index_files@.contains_key(g) == indexed(self@, g),
                forall|a: int| 0 <= a < i ==> valid_file(self@, #[trigger] files[a]),
                forall|a: int, b: int|
                    0 <= a < b < i ==> (#[trigger] files[a]).named() != (
                    #[trigger] files[b]).named(),
                forall|a: int|
                    0 <= a < i ==> seen@.contains_key((#[trigger] files[a]).named())
                        && seen@[files[a].named()] == files[a],
                forall|f: FileId| #[trigger]
                    seen@.contains_key(f) ==> exists|a: int|
                        0 <= a < i && (#[trigger] files[a]).named() == f,
            decreases self.files@.len() - i,
        {
            let file = self.files[i];
            assert(file == files[i as int]);
            if !self.file_fits(&file, &index_files) {
                return None;
            }
            let id = file.id();
            if seen.contains_key(&id) {
                proof {
                    let a = choose|a: int| 0 <= a < i && (#[trigger] files[a]).named() == id;
                    assert(files[a].named() == files[i as int].named());
                }
                return None;
            }
            let ghost before = seen@;
            seen.insert(id, file);
            proof {
                assert forall|a: int, b: int| 0 <= a < b < i + 1 implies (
                #[trigger] files[a]).named() != (#[trigger] files[b]).named() by {
                    if b == i {
                        assert(before.contains_key(files[a].named()));
                    }
                }
                assert forall|f: FileId| #[trigger] seen@.contains_key(f) implies exists|a: int|
                    0 <= a < i + 1 && (#[trigger] files[a]).named() == f by {
                    if before.contains_key(f) {
                        let a = choose|a: int| 0 <= a < i && (#[trigger] files[a]).named() == f;
                        assert(files[a].named() == f);
                    } else {
                        assert(files[i as int].named() == f);
                    }
                }
            }
            i = i + 1;
        }
        Some(seen)
    }
}

/// Where a partition's tree starts.
pub open spec fn place_of(p: PartV) -> Extent {
    Extent { file: p.file, offset: p.base, length: 0 }
}

fn part_complete(p: &Partition, seen: &OrderedMap<FileId, FileInfo>, Ghost(files): Ghost<
    Seq<FileInfo>,
>) -> (r: Result<()>)
    requires
        forall|f: FileId| #[trigger] seen@.contains_key(f) == listed(files, f),
        forall|i: int|
            0 <= i < files.len() ==> seen@.contains_key((#[trigger] files[i]).named())
                && seen@[files[i].named()] == files[i],
    ensures
        match r {
            Ok(_) => complete_part(files, p@),
            Err(e) => !complete_part(files, p@) && e is Corrupt && e->Corrupt_0@ == (if holds_page(
                files,
                p@.file,
                p@.base,
            ) {
                "incomplete partition manifest"@
            } else {
                "partition root outside index file"@
            }),
        },
{
    match seen.get(&p.file) {
        None => {
            return Err(corrupt("partition root outside index file"));
        },
        Some(info) => {
            proof {
                let i = choose|i: int| 0 <= i < files.len() && (#[trigger] files[i]).named()
                    == p.file;
                assert(listed(files, p.file));
                assert(files[i] == *info);
                assert(holds_page(files, p.file, p.base) == (p.base < info.size / 8192)) by {
                    if holds_page(files, p.file, p.base) {
                        let j = choose|j: int|
                            0 <= j < files.len() && (#[trigger] files[j]).named() == p.file
                                && p.base < files[j].size / 8192;
                        assert(seen@[files[j].named()] == files[j]);
                    }
                    if p.base < info.size / 8192 {
                        assert(files[i].named() == p.file);
                    }
                }
            }
            if p.base >= info.size / 8192 {
                return Err(corrupt("partition root outside index file"));
            }
        },
    }
    let items = p.dependencies.items();
    let ghost s = p.dependencies.entries();
    let count: usize = items.len();
    proof {
        assert(listed_entries(items@).len() == items@.len());
    }
    let mut i: usize = 0;
    while i < count
        invariant
            i <= count,
            count == items@.len(),
            s == p.dependencies.entries(),
            listed_entries(items@) == s,
            holds_page(files, p@.file, p@.base),
            lists(s, p.dependencies@),
            forall|f: FileId| #[trigger] seen@.contains_key(f) == listed(files, f),
            forall|a: int| 0 <= a < i ==> listed(files, (#[trigger] s[a]).0),
        decreases count - i,
    {
        let (k, v) = items[i];
        proof {
            assert(listed_entries(items@).len() == items@.len());
            assert(listed_entries(items@)[i as int] == (*k, *v));
        }
        if !seen.contains_key(k) {
            proof {
                reveal(lists);
                assert(p@.dependencies.contains_key(s[i as int].0));
            }
            return Err(corrupt("incomplete partition manifest"));
        }
        i = i + 1;
    }
    proof {
        assert(listed_entries(items@).len() == items@.len());
        reveal(lists);
        assert forall|f: FileId| #[trigger] p@.dependencies.contains_key(f) implies listed(
            files,
            f,
        ) by {
            assert(p.dependencies@.contains_key(f));
            let a = choose|a: int| 0 <= a < s.len() && (#[trigger] s[a]).0 == f;
            assert(listed(files, s[a].0));
        }
    }
    Ok(())
}

impl Root {
    fn parts_complete(&self, seen: &OrderedMap<FileId, FileInfo>) -> (r: Result<()>)
        requires
            forall|f: FileId| #[trigger] seen@.contains_key(f) == listed(self@.files, f),
            forall|i: int|
                0 <= i < self@.files.len() ==> seen@.contains_key(
                    (#[trigger] self@.files[i]).named(),
                ) && seen@[self@.files[i].named()] == self@.files[i],
        ensures
            match r {
                Ok(_) => !incomplete(self@),
                Err(e) => incomplete(self@) && e is Corrupt && (e->Corrupt_0@
                    == "incomplete partition manifest"@ || e->Corrupt_0@
                    == "partition root outside index file"@ && rootless(self@)),
            },
    {
        let items = self.partitions.items();
        let ghost s = self.partitions.entries();
        let ghost files = self@.files;
        let count: usize = items.len();
        proof {
            assert(listed_entries(items@).len() == items@.len());
        }
        let mut i: usize = 0;
        while i < count
            invariant
                i <= count,
                count == items@.len(),
                files == self@.files,
                s == self.partitions.entries(),
                listed_entries(items@) == s,
                lists(s, self.partitions@),
                forall|f: FileId| #[trigger] seen@.contains_key(f) == listed(files, f),
                forall|a: int|
                    0 <= a < files.len() ==> seen@.contains_key((#[trigger] files[a]).named())
                        && seen@[files[a].named()] == files[a],
                forall|a: int| 0 <= a < i ==> complete_part(files, (#[trigger] s[a]).1@),
            decreases count - i,
        {
            let (k, v) = items[i];
            proof {
                assert(listed_entries(items@).len() == items@.len());
                assert(listed_entries(items@)[i as int] == (*k, *v));
            }
            if let Err(e) = part_complete(v, seen, Ghost(files)) {
                proof {
                    reveal(lists);
                    assert(self.partitions@.contains_key(s[i as int].0));
                    assert(self@.partitions.contains_key(s[i as int].0));
                }
                return Err(e);
            }
            i = i + 1;
        }
        proof {
            assert(listed_entries(items@).len() == items@.len());
            reveal(lists);
            assert forall|at: Route| #[trigger]
                self@.partitions.contains_key(at) implies complete_part(
                files,
                self@.partitions[at],
            ) by {
                assert(self.partitions@.contains_key(at));
                let a = choose|a: int| 0 <= a < s.len() && (#[trigger] s[a]).0 == at;
                assert(complete_part(files, s[a].1@));
            }
        }
        Ok(())
    }

    fn counts_fit(&self) -> (ok: bool)
        ensures
            ok == (forall|at: Share| #[trigger]
                self@.occupancy.contains_key(at) ==> valid_count(
                    self@,
                    at,
                    self@.occupancy[at],
                )),
    {
        let items = self.occupancy.items();
        let ghost s = self.occupancy.entries();
        let count: usize = items.len();
        proof {
            assert(listed_entries(items@).len() == items@.len());
        }
        let mut i: usize = 0;
        while i < count
            invariant
                i <= count,
                count == items@.len(),
                s == self.occupancy.entries(),
                listed_entries(items@) == s,
                lists(s, self.occupancy@),
                forall|a: int| 0 <= a < i ==> valid_count(self@, (#[trigger] s[a]).0, s[a].1),
            decreases count - i,
        {
            let (k, v) = items[i];
            proof {
                assert(listed_entries(items@).len() == items@.len());
                assert(listed_entries(items@)[i as int] == (*k, *v));
            }
            if !self.catalog.contains_key(&k.table) || k.slot as usize >= self.generations.len()
                || v.dead > v.entities {
                proof {
                    reveal(lists);
                    assert(self@.occupancy.contains_key(s[i as int].0));
                    assert(!valid_count(self@, s[i as int].0, s[i as int].1));
                }
                return false;
            }
            i = i + 1;
        }
        proof {
            assert(listed_entries(items@).len() == items@.len());
            reveal(lists);
            assert forall|at: Share| #[trigger]
                self@.occupancy.contains_key(at) implies valid_count(
                self@,
                at,
                self@.occupancy[at],
            ) by {
                let a = choose|a: int| 0 <= a < s.len() && (#[trigger] s[a]).0 == at;
                assert(valid_count(self@, s[a].0, s[a].1));
            }
        }
        true
    }

    /// Whether the parts of this manifest agree with one another.
    fn fits(&self) -> (r: Result<()>)
        requires
            distinct_names(self@.catalog),
            valid_generations(self@.generations, self@.generation),
        ensures
            match r {
                Ok(_) => valid_root(self@),
                Err(e) => !valid_root(self@) && e is Corrupt && disagrees(self@, e->Corrupt_0@),
            },
    {
        if !self.parts_fit() {
            return Err(corrupt("invalid index partition"));
        }
        if !self.histories_fit() {
            return Err(corrupt("invalid history generation"));
        }
        match self.files_fit() {
            None => {
                return Err(corrupt("invalid checkpoint file reference"));
            },
            Some(seen) => {
                self.parts_complete(&seen)?;
            },
        }
        if !self.counts_fit() {
            return Err(corrupt("invalid generation occupancy"));
        }
        Ok(())
    }

    /// Reads a manifest. Parts that can be read and disagree are refused with a message that
    /// names the first disagreement.
    pub fn decode(bytes: &[u8]) -> (r: Result<Root>)
        ensures
            match r {
                Ok(root) => dec_root(bytes@) == Some(root@),
                Err(e) => dec_root(bytes@) is None && e is Corrupt && refused_for(bytes@, e),
            },
    {
        let mut d = Decoder::new(bytes);
        let root = read_parts(&mut d)?;
        root.fits()?;
        d.finish()?;
        Ok(root)
    }

    /// Writes a manifest.
    pub fn encode(&self) -> (bytes: Vec<u8>)
        ensures
            bytes@ == enc_root(self@),
            sized(self@),
    {
        let mut e = Encoder::default();
        write_pair(self.generation, self.lsn, &mut e);
        write_map::<Tables>(&self.catalog, &mut e);
        let count: usize = self.generations.len();
        e.u64(count as u64);
        let ghost head = e.0@;
        let ghost enc = generation_encoder();
        let mut i: usize = 0;
        proof {
            assert(self.generations@.take(0) =~= Seq::empty());
            assert(head + Seq::<u8>::empty() =~= head);
        }
        while i < count
            invariant
                i <= count,
                count == self.generations@.len(),
                enc == generation_encoder(),
                e.0@ == head + enc_all(self.generations@.take(i as int), enc),
            decreases count - i,
        {
            let g = self.generations[i];
            proof {
                let s = self.generations@;
                assert(s.take(i + 1) =~= s.take(i as int).push(s[i as int]));
                lemma_enc_push(s.take(i as int), s[i as int], enc);
            }
            write_pair(g.generation, g.lsn, &mut e);
            proof {
                assert(e.0@ =~= head + enc_all(self.generations@.take(i + 1), enc));
            }
            i = i + 1;
        }
        assert(self.generations@.take(count as int) =~= self.generations@);
        write_map::<Partitions>(&self.partitions, &mut e);
        e.bool(self.history_compacted);
        write_map::<Histories>(&self.history_generations, &mut e);
        assert(meanings::<Histories>(self.history_generations@) =~= self.history_generations@);
        let count: usize = self.files.len();
        e.u64(count as u64);
        let ghost body = e.0@;
        let ghost enc = file_encoder();
        let mut i: usize = 0;
        proof {
            assert(self.files@.take(0) =~= Seq::empty());
            assert(body + Seq::<u8>::empty() =~= body);
        }
        while i < count
            invariant
                i <= count,
                count == self.files@.len(),
                enc == file_encoder(),
                e.0@ == body + enc_all(self.files@.take(i as int), enc),
            decreases count - i,
        {
            let f = self.files[i];
            proof {
                let s = self.files@;
                assert(s.take(i + 1) =~= s.take(i as int).push(s[i as int]));
                lemma_enc_push(s.take(i as int), s[i as int], enc);
            }
            let ghost before = e.0@;
            write_pair(f.generation, f.table, &mut e);
            e.u8(f.kind);
            write_pair(f.segment, f.size, &mut e);
            e.u32(f.crc);
            proof {
                assert(e.0@ =~= before + enc_file(f));
                assert(e.0@ =~= body + enc_all(self.files@.take(i + 1), enc));
            }
            i = i + 1;
        }
        assert(self.files@.take(count as int) =~= self.files@);
        write_map::<Counts>(&self.occupancy, &mut e);
        assert(meanings::<Counts>(self.occupancy@) =~= self.occupancy@);
        assert(e.0@ =~= enc_root(self@));
        assert(self@.catalog.dom() =~= self.catalog@.dom());
        assert(self@.partitions.dom() =~= self.partitions@.dom());
        e.0
    }
}

proof fn lemma_pair(p: (u64, u64), rest: Seq<u8>)
    ensures
        dec_pair(enc_pair(p) + rest) == Some((p, rest)),
        enc_pair(p).len() == 16,
{
    let tail = le(p.1 as nat, 8) + rest;
    assert(enc_pair(p) + rest =~= le(p.0 as nat, 8) + tail);
    lemma_u64(p.0, tail);
    lemma_u64(p.1, rest);
    lemma_le_len(p.0 as nat, 8);
    lemma_le_len(p.1 as nat, 8);
}

proof fn lemma_tables(k: u64, t: TableV)
    requires
        t.id == k,
        valid_table(t),
        t.schemas.len() <= u64::MAX,
    ensures
        survives::<Tables>(k, t),
{
    assert forall|r: Seq<u8>| #[trigger]
        Tables::dec(Tables::enc((k, t)) + r) == Some(((k, t), r)) by {
        lemma_table(t, r);
    }
    lemma_le_len(t.id as nat, 8);
    lemma_le_len(t.schemas.len(), 8);
    lemma_le_len(vstd::utf8::encode_utf8(t.name).len(), 8);
    let enc = crate::record::schema_encoder();
    assert forall|i: int| 0 <= i < t.schemas.len() implies enc(#[trigger] t.schemas[i]).len()
        >= 16 by {
        crate::record::lemma_schema(t.schemas[i], Seq::empty());
    }
    lemma_enc_len(t.schemas, enc, 16);
}

proof fn lemma_slots(k: u8, v: u8)
    ensures
        survives::<Slots>(k, v),
{
    assert forall|r: Seq<u8>| #[trigger]
        Slots::dec(Slots::enc((k, v)) + r) == Some(((k, v), r)) by {
        assert(Slots::enc((k, v)) + r =~= seq![k] + (seq![v] + r));
        lemma_u8(k, seq![v] + r);
        lemma_u8(v, r);
    }
}

proof fn lemma_dependency(f: FileId)
    ensures
        survives::<Dependencies>(f, ()),
{
    lemma_le_len(f.table as nat, 8);
    lemma_le_len(f.generation as nat, 8);
    lemma_le_len(f.segment as nat, 8);
    assert forall|r: Seq<u8>| #[trigger]
        Dependencies::dec(Dependencies::enc((f, ())) + r) == Some(((f, ()), r)) by {
        let s3 = le(f.segment as nat, 8) + r;
        let s2 = seq![f.kind] + s3;
        let s1 = le(f.generation as nat, 8) + s2;
        assert(enc_file_id(f) + r =~= le(f.table as nat, 8) + s1);
        lemma_u64(f.table, s1);
        lemma_u64(f.generation, s2);
        lemma_u8(f.kind, s3);
        lemma_u64(f.segment, r);
    }
}

proof fn lemma_history(k: u64, v: u64)
    ensures
        survives::<Histories>(k, v),
{
    lemma_pair((k, v), Seq::empty());
    assert forall|r: Seq<u8>| #[trigger]
        Histories::dec(Histories::enc((k, v)) + r) == Some(((k, v), r)) by {
        lemma_pair((k, v), r);
    }
}

proof fn lemma_share(k: Share, v: Occupancy)
    ensures
        survives::<Counts>(k, v),
{
    lemma_le_len(k.table as nat, 8);
    lemma_pair((v.entities, v.dead), Seq::empty());
    assert forall|r: Seq<u8>| #[trigger]
        Counts::dec(Counts::enc((k, v)) + r) == Some(((k, v), r)) by {
        let s2 = enc_pair((v.entities, v.dead)) + r;
        let s1 = seq![k.slot] + s2;
        assert(Counts::enc((k, v)) + r =~= le(k.table as nat, 8) + s1);
        lemma_u64(k.table, s1);
        lemma_u8(k.slot, s2);
        lemma_pair((v.entities, v.dead), r);
    }
}

proof fn lemma_route(k: Route, r: Seq<u8>)
    ensures
        dec_route(enc_route(k) + r) == Some((k, r)),
        enc_route(k).len() == 25,
{
    lemma_le_len(k.table as nat, 8);
    let p = (k.low, k.low_second);
    let s2 = enc_pair(p) + r;
    let s1 = seq![k.kind] + s2;
    assert(enc_route(k) + r =~= le(k.table as nat, 8) + s1);
    lemma_u64(k.table, s1);
    lemma_u8(k.kind, s2);
    lemma_pair(p, r);
}

proof fn lemma_part(k: Route, v: PartV)
    requires
        v.file.table == k.table,
        v.file.kind == k.kind,
        v.slots.dom().finite(),
        v.dependencies.dom().finite(),
        v.dependencies.dom().len() <= u64::MAX,
    ensures
        survives::<Partitions>(k, v),
{
    assert(v.slots.dom().len() <= 256) by {
        lemma_bytes_set(v.slots.dom());
    }
    assert forall|slot: u8| #[trigger] v.slots.contains_key(slot) implies survives::<Slots>(
        slot,
        v.slots[slot],
    ) by {
        lemma_slots(slot, v.slots[slot]);
    }
    assert forall|f: FileId| #[trigger] v.dependencies.contains_key(f) implies survives::<
        Dependencies,
    >(f, v.dependencies[f]) by {
        lemma_dependency(f);
    }
    let a = (v.file.generation, v.file.segment);
    let b = (v.lsn, v.base);
    assert forall|r: Seq<u8>| #[trigger]
        Partitions::dec(Partitions::enc((k, v)) + r) == Some(((k, v), r)) by {
        let s6 = enc_map::<Dependencies>(v.dependencies) + r;
        let s5 = enc_map::<Slots>(v.slots) + s6;
        let s4 = enc_pair(v.last) + s5;
        let s3 = enc_pair(v.first) + s4;
        let s2 = enc_pair(b) + s3;
        let s1 = enc_pair(a) + s2;
        assert(enc_part((k, v)) + r =~= enc_route(k) + s1);
        lemma_route(k, s1);
        lemma_pair(a, s2);
        lemma_pair(b, s3);
        lemma_pair(v.first, s4);
        lemma_pair(v.last, s5);
        lemma_map::<Slots>(v.slots, s6);
        lemma_map::<Dependencies>(v.dependencies, r);
    }
    let none = Seq::<u8>::empty();
    lemma_route(k, none);
    lemma_pair(a, none);
    lemma_pair(b, none);
    lemma_pair(v.first, none);
    lemma_pair(v.last, none);
    lemma_le_len(crate::key::listing(v.slots).len(), 8);
    lemma_le_len(crate::key::listing(v.dependencies).len(), 8);
}

/// There are no more than 256 bytes.
proof fn lemma_bytes_set(s: Set<u8>)
    ensures
        s.finite(),
        s.len() <= 256,
{
    let all = vstd::set_lib::set_int_range(0, 256);
    vstd::set_lib::lemma_int_range(0, 256);
    let t = s.map(|b: u8| b as int);
    assert(t.subset_of(all)) by {
        assert forall|x: int| t.contains(x) implies all.contains(x) by {
        }
    }
    vstd::set_lib::lemma_len_subset(t, all);
    assert(s =~= t.map(|x: int| x as u8)) by {
        assert forall|b: u8| s.contains(b) == t.map(|x: int| x as u8).contains(b) by {
            if s.contains(b) {
                assert(t.contains(b as int));
            }
        }
    }
    vstd::set_lib::lemma_map_size_bound(t, s, |x: int| x as u8);
}

proof fn lemma_generations(s: Seq<GenerationInfo>, rest: Seq<u8>)
    requires
        s.len() <= u64::MAX,
    ensures
        dec_list(le(s.len(), 8) + (enc_all(s, generation_encoder()) + rest), 16, generation_decoder())
            == Some((s, rest)),
{
    let enc = generation_encoder();
    let dec = generation_decoder();
    assert forall|i: int, r: Seq<u8>| 0 <= i < s.len() implies #[trigger] dec(enc(s[i]) + r)
        == Some((s[i], r)) by {
        lemma_pair((s[i].generation, s[i].lsn), r);
    }
    assert forall|i: int| 0 <= i < s.len() implies enc(#[trigger] s[i]).len() >= 16 by {
        lemma_pair((s[i].generation, s[i].lsn), Seq::empty());
    }
    lemma_all(s, rest, enc, dec);
    lemma_enc_len(s, enc, 16);
    lemma_count(s.len(), 16, enc_all(s, enc) + rest);
}

proof fn lemma_files(s: Seq<FileInfo>, rest: Seq<u8>)
    requires
        s.len() <= u64::MAX,
    ensures
        dec_list(le(s.len(), 8) + (enc_all(s, file_encoder()) + rest), 37, file_decoder()) == Some(
            (s, rest),
        ),
{
    let enc = file_encoder();
    let dec = file_decoder();
    assert forall|i: int, r: Seq<u8>| 0 <= i < s.len() implies #[trigger] dec(enc(s[i]) + r)
        == Some((s[i], r)) by {
        lemma_file(s[i], r);
    }
    assert forall|i: int| 0 <= i < s.len() implies enc(#[trigger] s[i]).len() >= 37 by {
        lemma_file(s[i], Seq::empty());
    }
    lemma_all(s, rest, enc, dec);
    lemma_enc_len(s, enc, 37);
    lemma_count(s.len(), 37, enc_all(s, enc) + rest);
}

proof fn lemma_catalog(r: RootV, rest: Seq<u8>)
    requires
        encodable_root(r),
    ensures
        dec_map::<Tables>(enc_map::<Tables>(r.catalog) + rest) == Some((r.catalog, rest)),
{
    assert forall|id: u64| #[trigger] r.catalog.contains_key(id) implies survives::<Tables>(
        id,
        r.catalog[id],
    ) by {
        lemma_tables(id, r.catalog[id]);
    }
    lemma_map::<Tables>(r.catalog, rest);
}

proof fn lemma_partitions(r: RootV, rest: Seq<u8>)
    requires
        encodable_root(r),
    ensures
        dec_map::<Partitions>(enc_map::<Partitions>(r.partitions) + rest) == Some(
            (r.partitions, rest),
        ),
{
    assert forall|at: Route| #[trigger] r.partitions.contains_key(at) implies survives::<
        Partitions,
    >(at, r.partitions[at]) by {
        lemma_part(at, r.partitions[at]);
    }
    lemma_map::<Partitions>(r.partitions, rest);
}

proof fn lemma_histories(r: RootV, rest: Seq<u8>)
    requires
        encodable_root(r),
    ensures
        dec_map::<Histories>(enc_map::<Histories>(r.history_generations) + rest) == Some(
            (r.history_generations, rest),
        ),
{
    assert forall|g: u64| #[trigger] r.history_generations.contains_key(g) implies survives::<
        Histories,
    >(g, r.history_generations[g]) by {
        lemma_history(g, r.history_generations[g]);
    }
    lemma_map::<Histories>(r.history_generations, rest);
}

proof fn lemma_counts(r: RootV, rest: Seq<u8>)
    requires
        encodable_root(r),
    ensures
        dec_map::<Counts>(enc_map::<Counts>(r.occupancy) + rest) == Some((r.occupancy, rest)),
{
    assert forall|at: Share| #[trigger] r.occupancy.contains_key(at) implies survives::<Counts>(
        at,
        r.occupancy[at],
    ) by {
        lemma_share(at, r.occupancy[at]);
    }
    lemma_map::<Counts>(r.occupancy, rest);
}

/// The parts of a manifest that is written before other bytes read back, and leave those bytes.
pub(crate) proof fn lemma_root_before(r: RootV, rest: Seq<u8>)
    requires
        valid_root(r),
        encodable_root(r),
    ensures
        dec_parts(enc_root(r) + rest) == Some((r, rest)),
{
    let s7 = enc_map::<Counts>(r.occupancy) + rest;
    let s6 = le(r.files.len(), 8) + (enc_all(r.files, file_encoder()) + s7);
    let s5 = enc_map::<Histories>(r.history_generations) + s6;
    let s4 = enc_bool(r.history_compacted) + s5;
    let s3 = enc_map::<Partitions>(r.partitions) + s4;
    let s2 = le(r.generations.len(), 8) + (enc_all(r.generations, generation_encoder()) + s3);
    let s1 = enc_map::<Tables>(r.catalog) + s2;
    lemma_whole(r, rest);
    lemma_pair((r.generation, r.lsn), s1);
    lemma_catalog(r, s2);
    lemma_generations(r.generations, s3);
    lemma_partitions(r, s4);
    lemma_bool(r.history_compacted, s5);
    lemma_histories(r, s6);
    lemma_files(r.files, s7);
    lemma_counts(r, rest);
}

/// What is written of a valid manifest reads back.
pub proof fn lemma_root(r: RootV)
    requires
        valid_root(r),
        encodable_root(r),
    ensures
        dec_root(enc_root(r)) == Some(r),
{
    let none = Seq::<u8>::empty();
    lemma_root_before(r, none);
    assert(enc_root(r) + none =~= enc_root(r));
}

/// A written manifest that any bytes follow is refused.
pub proof fn lemma_root_extended(r: RootV, rest: Seq<u8>)
    requires
        valid_root(r),
        encodable_root(r),
        rest.len() > 0,
    ensures
        dec_root(enc_root(r) + rest) is None,
{
    lemma_root_before(r, rest);
}

proof fn lemma_whole(r: RootV, rest: Seq<u8>)
    ensures
        enc_root(r) + rest == enc_pair((r.generation, r.lsn)) + (enc_map::<Tables>(r.catalog) + (le(
            r.generations.len(),
            8,
        ) + (enc_all(r.generations, generation_encoder()) + (enc_map::<Partitions>(r.partitions) + (
        enc_bool(r.history_compacted) + (enc_map::<Histories>(r.history_generations) + (le(
            r.files.len(),
            8,
        ) + (enc_all(r.files, file_encoder()) + (enc_map::<Counts>(r.occupancy)
            + rest))))))))),
{
    let a = enc_pair((r.generation, r.lsn));
    let b = enc_map::<Tables>(r.catalog);
    let c = le(r.generations.len(), 8);
    let d = enc_all(r.generations, generation_encoder());
    let e = enc_map::<Partitions>(r.partitions);
    let f = enc_bool(r.history_compacted);
    let g = enc_map::<Histories>(r.history_generations);
    let h = le(r.files.len(), 8);
    let i = enc_all(r.files, file_encoder());
    let j = enc_map::<Counts>(r.occupancy);
    lemma_chain(a, b, c, d, e, f, g, h, i, j, rest);
}

proof fn lemma_chain(
    a: Seq<u8>,
    b: Seq<u8>,
    c: Seq<u8>,
    d: Seq<u8>,
    e: Seq<u8>,
    f: Seq<u8>,
    g: Seq<u8>,
    h: Seq<u8>,
    i: Seq<u8>,
    j: Seq<u8>,
    rest: Seq<u8>,
)
    ensures
        a + b + c + d + e + f + g + h + i + j + rest == a + (b + (c + (d + (e + (f + (g + (h + (i + (j
            + rest))))))))),
{
    let t9 = j + rest;
    let t8 = i + t9;
    let t7 = h + t8;
    let t6 = g + t7;
    let t5 = f + t6;
    let t4 = e + t5;
    let t3 = d + t4;
    let t2 = c + t3;
    let p2 = a + b;
    let p3 = p2 + c;
    let p4 = p3 + d;
    let p5 = p4 + e;
    let p6 = p5 + f;
    let p7 = p6 + g;
    let p8 = p7 + h;
    lemma_regroup(p8 + i, j, rest);
    lemma_regroup(p8, i, t9);
    lemma_regroup(p7, h, t8);
    lemma_regroup(p6, g, t7);
    lemma_regroup(p5, f, t6);
    lemma_regroup(p4, e, t5);
    lemma_regroup(p3, d, t4);
    lemma_regroup(p2, c, t3);
    lemma_regroup(a, b, t2);
}

proof fn lemma_regroup(x: Seq<u8>, y: Seq<u8>, z: Seq<u8>)
    ensures
        (x + y) + z == x + (y + z),
{
    assert((x + y) + z =~= x + (y + z));
}

proof fn lemma_file(f: FileInfo, rest: Seq<u8>)
    ensures
        dec_file(enc_file(f) + rest) == Some((f, rest)),
        enc_file(f).len() == 37,
{
    lemma_le_len(f.crc as nat, 4);
    let s3 = le(f.crc as nat, 4) + rest;
    let p = (f.segment, f.size);
    let s2 = enc_pair(p) + s3;
    let s1 = seq![f.kind] + s2;
    let q = (f.generation, f.table);
    assert(enc_file(f) + rest =~= enc_pair(q) + s1);
    lemma_pair(q, s1);
    lemma_u8(f.kind, s2);
    lemma_pair(p, s3);
    lemma_u32(f.crc, rest);
}

impl Root {
    /// The manifest of an empty database.
    pub fn empty() -> (root: Self)
        ensures
            root@ == empty_root(),
            valid_root(root@),
    {
        let mut generations: Vec<GenerationInfo> = Vec::new();
        generations.push(GenerationInfo { generation: 0, lsn: 0 });
        let root = Root {
            generation: 0,
            lsn: 0,
            catalog: OrderedMap::new(),
            generations,
            files: Vec::new(),
            partitions: OrderedMap::new(),
            history_generations: OrderedMap::new(),
            history_compacted: true,
            occupancy: OrderedMap::new(),
        };
        assert(root@ =~= empty_root());
        root
    }

    /// The files that the manifest refers to, with their sizes.
    pub fn file_sizes(&self) -> (out: Vec<(FileId, u64)>)
        ensures
            out@ == self@.files.map_values(|f: FileInfo| (f.named(), f.size)),
    {
        let mut out: Vec<(FileId, u64)> = Vec::new();
        let mut i: usize = 0;
        while i < self.files.len()
            invariant
                i <= self.files@.len(),
                out@.len() == i,
                forall|j: int|
                    0 <= j < i ==> (#[trigger] out@[j]) == (
                        self.files@[j].named(),
                        self.files@[j].size,
                    ),
            decreases self.files@.len() - i,
        {
            out.push((self.files[i].id(), self.files[i].size));
            i = i + 1;
        }
        assert(out@ =~= self@.files.map_values(|f: FileInfo| (f.named(), f.size)));
        out
    }

    /// Lists the physical identity of every file this manifest references.
    pub fn file_ids(&self) -> (out: Vec<FileId>)
        ensures
            out@ == self@.files.map_values(|f: FileInfo| f.named()),
    {
        let mut out: Vec<FileId> = Vec::new();
        let mut i: usize = 0;
        while i < self.files.len()
            invariant
                i <= self.files@.len(),
                out@.len() == i,
                forall|j: int| 0 <= j < i ==> (#[trigger] out@[j]) == self.files@[j].named(),
            decreases self.files@.len() - i,
        {
            out.push(self.files[i].id());
            i = i + 1;
        }
        assert(out@ =~= self@.files.map_values(|f: FileInfo| f.named()));
        out
    }
}

/// The manifest of an empty database.
pub open spec fn empty_root() -> RootV {
    RootV {
        generation: 0,
        lsn: 0,
        catalog: Map::empty(),
        generations: seq![GenerationInfo { generation: 0, lsn: 0 }],
        files: Seq::empty(),
        partitions: Map::empty(),
        history_generations: Map::empty(),
        history_compacted: true,
        occupancy: Map::empty(),
    }
}

// ---- The next manifest ----

/// Whether a generation stays when others are absorbed.
pub open spec fn stays(absorb: Map<u64, ()>) -> spec_fn(GenerationInfo) -> bool {
    |g: GenerationInfo| !absorb.contains_key(g.generation)
}

/// The slot of a generation among those that stay.
pub open spec fn new_slot(s: Seq<GenerationInfo>, absorb: Map<u64, ()>, slot: int) -> Option<u8> {
    if 0 <= slot < s.len() && stays(absorb)(s[slot]) {
        Some(s.take(slot).filter(stays(absorb)).len() as u8)
    } else {
        None
    }
}

/// A slot translation: for each slot, the one that takes its place.
pub open spec fn translation(s: Seq<GenerationInfo>, absorb: Map<u64, ()>) -> Seq<Option<u8>> {
    Seq::new(MAX_SLOTS as nat, |slot: int| new_slot(s, absorb, slot))
}

proof fn lemma_kept_place(s: Seq<GenerationInfo>, absorb: Map<u64, ()>, slot: int)
    requires
        0 <= slot < s.len(),
        stays(absorb)(s[slot]),
    ensures
        s.take(slot).filter(stays(absorb)).len() < s.filter(stays(absorb)).len(),
        s.filter(stays(absorb))[s.take(slot).filter(stays(absorb)).len() as int] == s[slot],
    decreases s.len(),
{
    reveal(Seq::filter);
    let p = stays(absorb);
    let t = s.drop_last();
    if slot == t.len() {
        assert(s.take(slot) =~= t);
    } else {
        assert(t.take(slot) =~= s.take(slot));
        lemma_kept_place(t, absorb, slot);
    }
}

/// A translated slot names the generation that the slot named, and two slots that stay
/// translate to two slots.
pub proof fn lemma_translation(s: Seq<GenerationInfo>, absorb: Map<u64, ()>, a: u8, b: u8)
    requires
        s.len() <= MAX_SLOTS,
        translation(s, absorb)[a as int] is Some,
    ensures
        ({
            let n = translation(s, absorb)[a as int].unwrap();
            &&& n < s.filter(stays(absorb)).len()
            &&& a < s.len() && s.filter(stays(absorb))[n as int] == s[a as int]
            &&& ascending(s) && translation(s, absorb)[b as int] == Some(n) ==> a == b
        }),
{
    lemma_kept_place(s, absorb, a as int);
    lemma_filter_shorter(s, stays(absorb));
    if translation(s, absorb)[b as int] is Some {
        lemma_kept_place(s, absorb, b as int);
        if a < b {
            assert(ascending(s) ==> s[a as int].generation < s[b as int].generation);
        }
        if b < a {
            assert(ascending(s) ==> s[b as int].generation < s[a as int].generation);
        }
    }
}

proof fn lemma_filter_shorter<T>(s: Seq<T>, p: spec_fn(T) -> bool)
    ensures
        s.filter(p).len() <= s.len(),
    decreases s.len(),
{
    reveal(Seq::filter);
    if s.len() > 0 {
        lemma_filter_shorter(s.drop_last(), p);
    }
}

/// Whether a file of current states or bases stays.
pub open spec fn file_stays(absorb: Map<u64, ()>) -> spec_fn(FileInfo) -> bool {
    |f: FileInfo| (f.kind == 0 || f.kind == 1) && !absorb.contains_key(f.generation)
}

/// Whether counts moved onto their new slots.
pub open spec fn moved(
    before: Map<Share, Occupancy>,
    slots: Seq<Option<u8>>,
    after: Map<Share, Occupancy>,
) -> bool {
    &&& forall|at: Share| #[trigger]
        before.contains_key(at) && slots[at.slot as int] is Some ==> {
            let to = Share { table: at.table, slot: slots[at.slot as int].unwrap() };
            after.contains_key(to) && after[to] == before[at]
        }
    &&& forall|to: Share| #[trigger]
        after.contains_key(to) ==> exists|at: Share| #[trigger]
            before.contains_key(at) && at.table == to.table && slots[at.slot as int] == Some(
                to.slot,
            )
}

/// Whether no two slots translate to one.
pub open spec fn one_to_one(slots: Seq<Option<u8>>) -> bool {
    &&& slots.len() == MAX_SLOTS
    &&& forall|a: int, b: int|
        0 <= a < b < slots.len() && (#[trigger] slots[a]) is Some && (#[trigger] slots[b]) is Some
            ==> slots[a] != slots[b]
}

/// The entities of a slot, added up.
pub open spec fn slot_total(s: Seq<(Share, Occupancy)>, slot: u8) -> (nat, nat)
    decreases s.len(),
{
    if s.len() == 0 {
        (0, 0)
    } else {
        let t = slot_total(s.drop_last(), slot);
        if s.last().0.slot == slot {
            (t.0 + s.last().1.entities as nat, t.1 + s.last().1.dead as nat)
        } else {
            t
        }
    }
}

proof fn lemma_slot_total(s: Seq<(Share, Occupancy)>, slot: u8, n: int)
    requires
        0 <= n <= s.len(),
    ensures
        slot_total(s.take(n), slot).0 <= slot_total(s, slot).0,
        slot_total(s.take(n), slot).1 <= slot_total(s, slot).1,
    decreases s.len(),
{
    if n == s.len() {
        assert(s.take(n) =~= s);
    } else {
        let t = s.drop_last();
        assert(t.take(n) =~= s.take(n));
        lemma_slot_total(t, slot, n);
    }
}

impl Root {
    /// Sums the occupancy of one generation slot across every table.
    /// `None` if a sum cannot be counted.
    pub fn totals(&self, slot: u8) -> (r: Option<Occupancy>)
        ensures
            ({
                let total = slot_total(crate::key::listing(self@.occupancy), slot);
                match r {
                    Some(o) => o.entities == total.0 && o.dead == total.1,
                    None => total.0 > u64::MAX || total.1 > u64::MAX,
                }
            }),
    {
        let items = self.occupancy.items();
        let ghost s = self.occupancy.entries();
        let mut total = Occupancy { entities: 0, dead: 0 };
        let mut i: usize = 0;
        proof {
            crate::key::lemma_listing_is(s, self.occupancy@);
            assert(listed_entries(items@).len() == items@.len());
            assert(s.take(0) =~= Seq::empty());
        }
        while i < items.len()
            invariant
                i <= items@.len(),
                items@.len() == s.len(),
                s == crate::key::listing(self@.occupancy),
                listed_entries(items@) == s,
                total.entities == slot_total(s.take(i as int), slot).0,
                total.dead == slot_total(s.take(i as int), slot).1,
            decreases items@.len() - i,
        {
            let (at, value) = items[i];
            proof {
                assert(listed_entries(items@)[i as int] == (*at, *value));
                assert(s.take(i + 1).drop_last() =~= s.take(i as int));
                assert(s.take(i + 1).last() == s[i as int]);
                lemma_slot_total(s, slot, i + 1);
            }
            if at.slot == slot {
                if value.entities > u64::MAX - total.entities || value.dead > u64::MAX - total.dead {
                    return None;
                }
                total = Occupancy {
                    entities: total.entities + value.entities,
                    dead: total.dead + value.dead,
                };
            }
            i = i + 1;
        }
        assert(s.take(i as int) =~= s);
        Some(total)
    }

    /// Builds the generation list of the next manifest and the slot translation.
    ///
    /// Surviving generations keep their order, so translating an old slot is a
    /// lookup; an absorbed generation translates to `None` and its entities are
    /// rewritten.
    pub fn rebuild_slots(&self, absorb: &OrderedMap<u64, ()>, generation: u64, lsn: u64) -> (r:
        Result<(Vec<GenerationInfo>, Vec<Option<u8>>)>)
        requires
            self@.generations.len() <= MAX_SLOTS,
        ensures
            match r {
                Ok((generations, slots)) => {
                    &&& self@.generations.filter(stays(absorb@)).len() < MAX_SLOTS
                    &&& generations@ == self@.generations.filter(stays(absorb@)).push(
                        GenerationInfo { generation, lsn },
                    )
                    &&& slots@ == translation(self@.generations, absorb@)
                },
                Err(e) => e is Invalid && self@.generations.filter(stays(absorb@)).len()
                    >= MAX_SLOTS,
            },
    {
        let mut slots: Vec<Option<u8>> = Vec::new();
        let mut generations: Vec<GenerationInfo> = Vec::new();
        let ghost s = self@.generations;
        let ghost p = stays(absorb@);
        let mut old_slot: usize = 0;
        proof {
            assert(s.take(0) =~= Seq::empty());
            assert(generations@ =~= s.take(0).filter(p)) by {
                reveal(Seq::filter);
            }
        }
        while old_slot < self.generations.len()
            invariant
                old_slot <= self.generations@.len(),
                s == self@.generations,
                s.len() <= MAX_SLOTS,
                p == stays(absorb@),
                slots@.len() == old_slot,
                generations@ == s.take(old_slot as int).filter(p),
                generations@.len() <= old_slot,
                forall|j: int|
                    0 <= j < old_slot ==> (#[trigger] slots@[j]) == new_slot(s, absorb@, j),
            decreases self.generations@.len() - old_slot,
        {
            let entry = self.generations[old_slot];
            proof {
                reveal(Seq::filter);
                assert(s.take(old_slot + 1).drop_last() =~= s.take(old_slot as int));
                assert(s.take(old_slot + 1).last() == entry);
            }
            if !absorb.contains_key(&entry.generation) {
                slots.push(Some(generations.len() as u8));
                generations.push(entry);
            } else {
                slots.push(None);
            }
            old_slot = old_slot + 1;
        }
        assert(s.take(old_slot as int) =~= s);
        while slots.len() < MAX_SLOTS
            invariant
                self.generations@.len() <= slots@.len() <= MAX_SLOTS,
                s == self@.generations,
                forall|j: int|
                    0 <= j < slots@.len() ==> (#[trigger] slots@[j]) == new_slot(s, absorb@, j),
            decreases MAX_SLOTS - slots@.len(),
        {
            slots.push(None);
        }
        if generations.len() >= MAX_SLOTS {
            return Err(invalid("a manifest cannot reference more generations"));
        }
        generations.push(GenerationInfo { generation, lsn });
        assert(slots@ =~= translation(s, absorb@));
        Ok((generations, slots))
    }

    /// Copies the file references that survive into the next manifest.
    ///
    /// Indexes are rebuilt for the new manifest. Historical payload references
    /// are collected separately while those indexes are written.
    pub fn kept_files(&self, absorb: &OrderedMap<u64, ()>) -> (files: Vec<FileInfo>)
        ensures
            files@ == self@.files.filter(file_stays(absorb@)),
    {
        let mut files: Vec<FileInfo> = Vec::new();
        let ghost s = self@.files;
        let ghost p = file_stays(absorb@);
        let mut i: usize = 0;
        proof {
            assert(s.take(0) =~= Seq::empty());
            assert(files@ =~= s.take(0).filter(p)) by {
                reveal(Seq::filter);
            }
        }
        while i < self.files.len()
            invariant
                i <= self.files@.len(),
                s == self@.files,
                p == file_stays(absorb@),
                files@ == s.take(i as int).filter(p),
            decreases self.files@.len() - i,
        {
            let file = self.files[i];
            proof {
                reveal(Seq::filter);
                assert(s.take(i + 1).drop_last() =~= s.take(i as int));
                assert(s.take(i + 1).last() == file);
            }
            if (file.kind == 0 || file.kind == 1) && !absorb.contains_key(&file.generation) {
                files.push(file);
            }
            i = i + 1;
        }
        assert(s.take(i as int) =~= s);
        files
    }

    /// Moves the occupancy of surviving generations onto their new slots.
    pub fn kept_occupancy(&self, slots: &Vec<Option<u8>>) -> (after: OrderedMap<Share, Occupancy>)
        requires
            one_to_one(slots@),
        ensures
            moved(self@.occupancy, slots@, after@),
    {
        let items = self.occupancy.items();
        let ghost s = self.occupancy.entries();
        let ghost before = self.occupancy@;
        let mut after: OrderedMap<Share, Occupancy> = OrderedMap::new();
        let mut i: usize = 0;
        proof {
            assert(listed_entries(items@).len() == items@.len());
        }
        while i < items.len()
            invariant
                i <= items@.len(),
                items@.len() == s.len(),
                listed_entries(items@) == s,
                before == self.occupancy@,
                lists(s, before),
                increasing(s),
                one_to_one(slots@),
                forall|j: int|
                    0 <= j < i && slots@[(#[trigger] s[j]).0.slot as int] is Some ==> {
                        let to = Share {
                            table: s[j].0.table,
                            slot: slots@[s[j].0.slot as int].unwrap(),
                        };
                        after@.contains_key(to) && after@[to] == s[j].1
                    },
                forall|to: Share| #[trigger]
                    after@.contains_key(to) ==> exists|j: int|
                        0 <= j < i && (#[trigger] s[j]).0.table == to.table
                            && slots@[s[j].0.slot as int] == Some(to.slot),
            decreases items@.len() - i,
        {
            let (at, value) = items[i];
            proof {
                assert(listed_entries(items@)[i as int] == (*at, *value));
            }
            let ghost was = after@;
            match slots[at.slot as usize] {
                None => {},
                Some(slot) => {
                    let to = Share { table: at.table, slot };
                    after.insert(to, *value);
                    proof {
                        assert forall|j: int|
                            0 <= j < i && slots@[(#[trigger] s[j]).0.slot as int] is Some implies ({
                            let there = Share {
                                table: s[j].0.table,
                                slot: slots@[s[j].0.slot as int].unwrap(),
                            };
                            after@.contains_key(there) && after@[there] == s[j].1
                        }) by {
                            reveal(increasing);
                            assert(s[j].0.before(s[i as int].0));
                            let (a, b) = (s[j].0.slot as int, s[i as int].0.slot as int);
                            if a != b {
                                if a < b {
                                    assert(slots@[a] != slots@[b]);
                                } else {
                                    assert(slots@[b] != slots@[a]);
                                }
                            }
                        }
                        assert forall|there: Share| #[trigger] after@.contains_key(
                            there,
                        ) implies exists|j: int|
                            0 <= j < i + 1 && (#[trigger] s[j]).0.table == there.table
                                && slots@[s[j].0.slot as int] == Some(there.slot) by {
                            if there == to {
                                assert(s[i as int].0.table == there.table);
                            } else {
                                assert(was.contains_key(there));
                                let j = choose|j: int|
                                    0 <= j < i && (#[trigger] s[j]).0.table == there.table
                                        && slots@[s[j].0.slot as int] == Some(there.slot);
                                assert(s[j].0.table == there.table);
                            }
                        }
                    }
                },
            }
            i = i + 1;
        }
        proof {
            reveal(lists);
            assert forall|at: Share| #[trigger]
                before.contains_key(at) && slots@[at.slot as int] is Some implies ({
                let to = Share { table: at.table, slot: slots@[at.slot as int].unwrap() };
                after@.contains_key(to) && after@[to] == before[at]
            }) by {
                let j = choose|j: int| 0 <= j < s.len() && (#[trigger] s[j]).0 == at;
                assert(slots@[s[j].0.slot as int] is Some);
            }
            assert forall|to: Share| #[trigger] after@.contains_key(to) implies exists|at: Share|
                #[trigger]
                before.contains_key(at) && at.table == to.table && slots@[at.slot as int] == Some(
                    to.slot,
                ) by {
                let j = choose|j: int|
                    0 <= j < s.len() && (#[trigger] s[j]).0.table == to.table
                        && slots@[s[j].0.slot as int] == Some(to.slot);
                assert(before.contains_key(s[j].0));
            }
        }
        after
    }
}

} // verus!
