//! The life of a database over files kept in memory: transactions, history, checkpoints,
//! recovery and collection.

use evedb_core::checkpoint::{buckets, Checkpoint, Manner};
use evedb_core::commit::{Engine, Group};
use evedb_core::checksum::crc32c;
use evedb_core::cursor::{
    check_cancelled, collect_sized, take_batch, Bounds, CancellationToken, HistoryBatch,
    HistoryCursor, HistoryOptions, Stop,
};
use evedb_core::error::{Error, Result};
use evedb_core::memory::Accounted;
use evedb_core::maintenance::{
    collection_plan, full_plan, keep_files, keeps_catalog, keeps_segment, GenerationStats,
};
use evedb_core::model::{DataType, Entity, Event, Field, Fields, Schema, Value};
use evedb_core::operation::Operation;
use evedb_core::options::Options;
use evedb_core::ordered_map::OrderedMap;
use evedb_core::partitions::Route;
use evedb_core::pins::{pin_bytes, pinned_files, snapshot_stats, SnapshotStats};
use evedb_core::reader::ReadState;
use evedb_core::reading::{EventWalk, Room};
use evedb_core::recovery::{
    active_segment, check_segment, next_generation, order_roots, read_log, read_roots,
    replays_segment, select_root, Replay,
};
use evedb_core::resources::{Limits, Permit, Reservation, ResourceUsage, Resources};
use evedb_core::shared::{Claim, IsolationLevel, Revisions, TransactionOptions};
use evedb_core::snapshot::Root;
use evedb_core::staging::Staging;
use evedb_core::storage::frame;
use evedb_core::storage::pager::{FileId, Loaded};
use std::cell::RefCell;
use std::collections::{BTreeMap, BTreeSet};
use std::rc::Rc;
use std::sync::{Arc, Weak};

type Name = (u64, u64, u8, u64);

fn name(file: FileId) -> Name {
    (file.table, file.generation, file.kind, file.segment)
}

/// The files of a database.
#[derive(Default)]
struct Store {
    files: BTreeMap<Name, Vec<u8>>,
    wal: BTreeMap<u64, Vec<u8>>,
    catalogs: BTreeMap<u64, Vec<u8>>,
    // The checkpoint files that were read.
    visited: RefCell<BTreeSet<Name>>,
}

impl Store {
    fn size(&self) -> usize {
        self.files.values().map(Vec::len).sum::<usize>()
            + self.wal.values().map(Vec::len).sum::<usize>()
            + self.catalogs.values().map(Vec::len).sum::<usize>()
    }
}

type Disk = Rc<RefCell<Store>>;

fn disk() -> Disk {
    let mut store = Store::default();
    let root = Root::empty();
    let header = frame::encode(1, root.lsn, &root.encode()).unwrap();
    store.wal.insert(0, header);
    Rc::new(RefCell::new(store))
}

fn damaged(text: &str) -> Error {
    Error::Corrupt(text.to_owned())
}

/// Repeats an operation until the parts of files that it needs are in memory.
fn with_parts<T>(
    disk: &Disk,
    loaded: &mut Loaded,
    mut operation: impl FnMut(&Loaded) -> Result<T>,
) -> Result<T> {
    loop {
        match operation(loaded) {
            Err(Error::Unread { file, offset, length }) => {
                let store = disk.borrow();
                store.visited.borrow_mut().insert(name(file));
                let bytes = store
                    .files
                    .get(&name(file))
                    .ok_or_else(|| damaged("missing file"))?;
                if length == 0 {
                    loaded.measure(file, bytes.len() as u64);
                } else {
                    let part = bytes
                        .get(offset as usize..(offset + length) as usize)
                        .ok_or_else(|| damaged("short file"))?;
                    loaded.insert(file, offset, length, part.to_vec());
                    if length == 32 {
                        let ahead = bytes.len().min(offset as usize + 64 * 1024);
                        frame::read_ahead(loaded, file, offset, &bytes[offset as usize..ahead]);
                    }
                }
            }
            other => return other,
        }
    }
}

#[derive(Clone, Copy)]
struct Config {
    options: Options,
    live_ratio: f64,
}

impl Default for Config {
    fn default() -> Self {
        Config { options: Options::default(), live_ratio: 0.5 }
    }
}

struct Database {
    disk: Disk,
    engine: Engine,
    active: u64,
    resources: Resources,
    // The charge of a write is held by every view that holds the write.
    charges: Vec<(u64, Rc<Reservation>)>,
    revisions: Revisions,
    config: Config,
    // Parts of files that writes have come across. Reads go to the files.
    cache: Loaded,
    pins: Vec<Weak<ReadState>>,
}

impl Database {
    fn open(disk: &Disk) -> Result<Database> {
        Self::open_with(disk, Config::default())
    }

    fn open_with(disk: &Disk, config: Config) -> Result<Database> {
        config.options.validate(0)?;
        let segments: Vec<u64> = disk.borrow().wal.keys().copied().collect();
        let mut logs = Vec::new();
        let mut roots = Vec::new();
        let mut ends = Vec::new();
        for number in &segments {
            let data = disk.borrow().wal[number].clone();
            let (frames, end) = read_log(&data)?;
            roots.extend(read_roots(*number, &frames)?);
            logs.push((*number, frames));
            ends.push((end, data.len()));
        }
        let ordered = order_roots(&roots);
        let newest: Vec<_> =
            ordered.items().into_iter().rev().map(|(_, root)| root.clone()).collect();
        let mut found = Vec::new();
        for root in &newest {
            let mut digests = Vec::new();
            for id in root.file_ids() {
                let store = disk.borrow();
                match store.files.get(&name(id)) {
                    Some(bytes) => digests.push((bytes.len() as u64, crc32c(bytes))),
                    None => break,
                }
            }
            found.push(digests);
        }
        let root = match select_root(&newest, &found) {
            Some(at) => newest[at].clone(),
            None => return Err(damaged("no complete checkpoint")),
        };
        let active = active_segment(&logs).ok_or_else(|| damaged("missing active log"))?;
        let catalog = disk.borrow().catalogs.keys().next_back().copied();
        let next = next_generation(catalog, *segments.last().unwrap());
        let mut engine = Engine::open(root, next)?;
        let mut resources = Resources::new(config.options.limits);
        let mut charges = Vec::new();
        let mut loaded = Loaded::new();
        for ((number, frames), (end, length)) in logs.into_iter().zip(ends) {
            if !replays_segment(number, engine.state.root.generation, active) {
                continue;
            }
            let mut replay = Replay::new(frames);
            with_parts(disk, &mut loaded, |loaded| {
                replay.advance(&mut engine, loaded, &mut resources)
            })?;
            charges.extend(replay.finish().into_iter().map(|(lsn, charge)| (lsn, Rc::new(charge))));
            check_segment(number == active, end as u64, length as u64)?;
            if number == active {
                disk.borrow_mut().wal.get_mut(&number).unwrap().truncate(end);
            }
        }
        Ok(Database {
            disk: disk.clone(),
            engine,
            active,
            resources,
            charges,
            revisions: Revisions::new(),
            config,
            cache: loaded,
            pins: Vec::new(),
        })
    }

    fn give_up(&mut self, charge: Rc<Reservation>) {
        if let Ok(reservation) = Rc::try_unwrap(charge) {
            self.resources.release_writes(reservation);
        }
    }

    fn sequence(&self) -> u64 {
        self.engine.state.lsn
    }

    fn usage(&self) -> ResourceUsage {
        self.resources.usage()
    }

    fn pin(&self) -> Arc<ReadState> {
        Arc::new(self.engine.state.clone())
    }

    fn read<T>(&self, operation: impl FnMut(&Loaded) -> Result<T>) -> Result<T> {
        with_parts(&self.disk, &mut Loaded::new(), operation)
    }

    fn get(&self, table: u64, id: u64) -> Result<Option<Entity>> {
        self.read(|loaded| self.engine.state.get(loaded, table, id))
    }

    fn get_at_version(&self, table: u64, id: u64, version: u64) -> Result<Entity> {
        self.read(|loaded| self.engine.state.get_at_version(loaded, table, id, version))
    }

    fn replay(&self, table: u64, id: u64) -> Result<Entity> {
        self.read(|loaded| self.engine.state.replay(loaded, table, id))
    }

    fn replay_to_version(&self, table: u64, id: u64, version: u64) -> Result<Entity> {
        self.read(|loaded| self.engine.state.replay_to_version(loaded, table, id, version))
    }

    fn events(&self, table: u64, id: u64) -> Result<Vec<Event>> {
        let (base, current) = self.retained_range(table, id)?;
        let limits = self.config.options.limits;
        let max_bytes = limits.max_history_batch_bytes;
        let cursor = HistoryCursor::open(
            table,
            id,
            HistoryOptions { max_bytes, ..HistoryOptions::default() },
            false,
            base,
            current,
            limits.max_history_batch_events,
            max_bytes,
            std::mem::size_of::<Accounted<Event>>(),
        )?;
        let resources = Resources::new(limits);
        self.read(|loaded| cursor.collect(&self.engine.state, loaded, &resources))
    }

    fn retained_range(&self, table: u64, id: u64) -> Result<(u64, u64)> {
        self.read(|loaded| self.engine.state.retained_range(loaded, table, id))
    }

    fn scan(&self, table: u64) -> Result<Vec<Entity>> {
        let mut loaded = Loaded::new();
        let mut rows = self.engine.state.scan(table)?;
        let mut found = Vec::new();
        loop {
            let next = with_parts(&self.disk, &mut loaded, |loaded| match rows.next(loaded) {
                None => Ok(None),
                Some(Err(error)) => Err(error),
                Some(Ok(row)) => Ok(Some(row)),
            })?;
            match next {
                None => return Ok(found),
                Some(None) => {}
                Some(Some(entity)) => found.push(entity),
            }
        }
    }

    fn transaction(&mut self) -> Result<Transaction<'_>> {
        if self.disk.borrow().wal[&self.active].len() as u64 >= self.config.options.checkpoint_bytes
            && self.engine.state.lsn > self.engine.state.root.lsn
        {
            self.checkpoint()?;
        }
        let staging = Staging::new(self.pin(), false, &mut self.resources)?;
        Ok(Transaction { db: self, staging: Some(staging) })
    }

    fn write<T>(
        &mut self,
        operation: impl FnOnce(&mut Transaction<'_>) -> Result<T>,
    ) -> Result<T> {
        let mut tx = self.transaction()?;
        let result = operation(&mut tx)?;
        tx.commit()?;
        Ok(result)
    }

    fn create_table(&mut self, name: &str, schema: Schema) -> Result<u64> {
        self.write(|tx| tx.create_table(name, schema))
    }

    fn create(&mut self, table: u64, id: u64, fields: Fields) -> Result<()> {
        self.write(|tx| tx.create(table, id, fields))
    }

    fn apply(&mut self, table: u64, id: u64, fields: Fields) -> Result<()> {
        self.write(|tx| tx.apply(table, id, fields))
    }

    fn delete(&mut self, table: u64, id: u64) -> Result<()> {
        self.write(|tx| tx.delete(table, id))
    }

    fn retain_last(&mut self, table: u64, id: u64, count: u64) -> Result<()> {
        self.write(|tx| tx.retain_last(table, id, count))
    }

    fn release(&mut self, permit: Option<Permit>, reservation: Reservation) {
        if let Some(permit) = permit {
            self.resources.release(permit);
        }
        self.resources.release_writes(reservation);
    }

    /// Commits staged transactions as one group.
    fn commit_group(&mut self, batches: Vec<Staging>) -> Vec<Result<u64>> {
        let staged: Vec<_> = batches.into_iter().map(|staging| staging.prepare(None)).collect();
        let claims: Vec<_> = staged
            .iter()
            .map(|batch| Claim {
                base: batch.base_sequence,
                keys: batch.keys(),
                changes_catalog: batch.changes_catalog(),
                is_empty: batch.is_empty(),
            })
            .collect();
        let verdicts = self.revisions.screen(&claims, self.sequence() + 1);
        let mut prepared = Vec::new();
        let mut passed = Vec::new();
        let mut results: Vec<Option<Result<u64>>> = Vec::new();
        for ((batch, claim), verdict) in staged.into_iter().zip(claims).zip(verdicts) {
            match verdict {
                Err(error) => {
                    self.release(batch.permit, batch.reservation);
                    results.push(Some(Err(error)));
                }
                Ok(()) => {
                    prepared.push(batch);
                    passed.push(claim);
                    results.push(None);
                }
            }
        }
        let outcome = self.publish(prepared);
        for (claim, result) in passed.iter().zip(&outcome) {
            if let (Ok(sequence), false) = (result, claim.is_empty) {
                self.revisions.record(&claim.keys, claim.changes_catalog, *sequence);
            }
        }
        let mut outcome = outcome.into_iter();
        results
            .into_iter()
            .map(|result| result.unwrap_or_else(|| outcome.next().unwrap()))
            .collect()
    }

    fn publish(&mut self, mut batches: Vec<evedb_core::commit::Prepared>) -> Vec<Result<u64>> {
        let disk = self.disk.clone();
        let mut permits = Vec::new();
        for batch in &mut batches {
            permits.push(batch.permit.take());
            with_parts(&disk, &mut self.cache, |loaded| {
                batch.rebind(&self.engine.state, loaded)
            })
            .unwrap();
        }
        let mut group = Group::new(batches);
        group.settle(0);
        let frames = group.frames(self.engine.state.lsn).unwrap();
        let limit = self.config.options.limits.max_uncheckpointed_wal_bytes;
        match self.engine.wal_after(&frames, limit) {
            Err(error) => {
                let lost: Vec<Reservation> = group
                    .active
                    .iter_mut()
                    .map(|(_, batch)| {
                        std::mem::replace(&mut batch.reservation, self.resources.reservation())
                    })
                    .collect();
                for reservation in lost {
                    self.resources.release_writes(reservation);
                }
                group.fail(&error);
            }
            Ok(bytes) => {
                {
                    let mut store = disk.borrow_mut();
                    let log = store.wal.get_mut(&self.active).unwrap();
                    for frame in &frames {
                        log.extend_from_slice(frame);
                    }
                }
                for (offset, (_, batch)) in group.active.iter_mut().enumerate() {
                    let charge =
                        std::mem::replace(&mut batch.reservation, self.resources.reservation());
                    let lsn = self.engine.state.lsn + offset as u64 + 1;
                    self.charges.push((lsn, Rc::new(charge)));
                }
                self.engine.publish_group(&mut group, bytes);
            }
        }
        for permit in permits.into_iter().flatten() {
            self.resources.release(permit);
        }
        group.finish()
    }

    fn generations(&self) -> Vec<GenerationStats> {
        self.engine.state.root.generation_stats().unwrap()
    }

    fn checkpoint(&mut self) -> Result<()> {
        let stats = self.generations();
        let sparse: Vec<bool> = stats
            .iter()
            .map(|entry| {
                let live = (entry.entities - entry.dead) as f64;
                live / (entry.entities as f64) < self.config.live_ratio
            })
            .collect();
        let options = self.config.options;
        let plan = collection_plan(
            &stats,
            &sparse,
            options.max_generations,
            options.collect_entities,
        );
        self.build(plan, false)
    }

    fn compact(&mut self) -> Result<()> {
        let plan = full_plan(&self.engine.state.root.generations);
        let rewrite = self.engine.rewrites_history();
        self.build(plan, rewrite)
    }

    fn build(&mut self, plan: OrderedMap<u64, u64>, rewrite_history: bool) -> Result<()> {
        self.build_while(plan, rewrite_history, |_| ())
    }

    /// Builds and installs a checkpoint, with something done before it is installed.
    fn build_while(
        &mut self,
        plan: OrderedMap<u64, u64>,
        rewrite_history: bool,
        meanwhile: impl FnOnce(&mut Database),
    ) -> Result<()> {
        let generation = self.engine.begin_checkpoint()?;
        let root = self.engine.state.root.clone();
        let header = frame::encode(1, root.lsn, &root.encode())?;
        self.disk.borrow_mut().catalogs.insert(generation, Vec::new());
        self.disk.borrow_mut().wal.insert(generation, header);
        self.active = generation;
        self.engine.captured();
        let frontier = self.engine.wal_bytes;
        let state = self.engine.state.clone();
        match self.build_files(&state, generation, &plan, rewrite_history) {
            Err(error) => {
                self.engine.abandon_checkpoint();
                Err(error)
            }
            Ok(root) => {
                meanwhile(self);
                let root = Arc::new(root);
                let record = frame::encode(1, root.lsn, &root.encode())?;
                self.disk
                    .borrow_mut()
                    .wal
                    .get_mut(&generation)
                    .unwrap()
                    .extend_from_slice(&record);
                let previous = self.engine.install_checkpoint(root.clone(), frontier)?;
                let (kept, freed): (Vec<_>, Vec<_>) = std::mem::take(&mut self.charges)
                    .into_iter()
                    .partition(|(lsn, _)| *lsn > root.lsn);
                self.charges = kept;
                for (_, charge) in freed {
                    self.give_up(charge);
                }
                self.clean(&previous, &root);
                Ok(())
            }
        }
    }

    fn build_files(
        &mut self,
        state: &ReadState,
        generation: u64,
        plan: &OrderedMap<u64, u64>,
        rewrite_history: bool,
    ) -> Result<Root> {
        let options = self.config.options;
        let mut job = Checkpoint::begin(
            state,
            generation,
            plan,
            Manner {
                rewrite_history,
                segment_bytes: options.history_segment_bytes,
                compress: options.compress_history,
                max_partitions: options.limits.max_index_partitions,
            },
        )?;
        for (table, _) in state.catalog.items() {
            let mut writer = job.table(*table);
            for low in buckets(state, *table) {
                let mut progress = None;
                with_parts(&self.disk, &mut self.cache, |loaded| {
                    job.step(&mut writer, state, loaded, *table, low, &mut progress)
                })?;
            }
            let output = writer.finish();
            job.absorb_table(*table, &output)?;
            let mut store = self.disk.borrow_mut();
            for (file, bytes) in output.contents {
                if file.kind < 6 {
                    for (page, part) in bytes.chunks_exact(8192).enumerate() {
                        self.cache.insert(file, page as u64 * 8192, 8192, part.to_vec());
                    }
                }
                store.files.insert(name(file), bytes);
            }
        }
        job.check_limits(
            options.limits.max_history_files,
            options.limits.max_index_partitions,
        )?;
        let record = job.record()?;
        self.disk.borrow_mut().catalogs.insert(generation, record);
        Ok(job.root)
    }

    fn clean(&mut self, previous: &Root, current: &Root) {
        let mut keep = OrderedMap::new();
        keep_files(&mut keep, &previous.file_ids());
        keep_files(&mut keep, &current.file_ids());
        let owned = self.engine.state.overlay.file_sizes();
        keep_files(&mut keep, &owned.into_iter().map(|(file, _)| file).collect());
        self.pins.retain(|pin| pin.strong_count() != 0);
        let live: Vec<Arc<ReadState>> = self.pins.iter().filter_map(Weak::upgrade).collect();
        let pinned = pinned_files(&live.iter().map(|view| &**view).collect());
        keep_files(&mut keep, &pinned.items().into_iter().map(|(file, _)| *file).collect());
        let oldest = snapshot_stats(&live.iter().map(|view| &**view).collect()).oldest_sequence;
        self.revisions.prune(oldest.unwrap_or(self.engine.state.lsn));
        let mut store = self.disk.borrow_mut();
        store.wal.retain(|number, _| keeps_segment(*number, previous.generation));
        store
            .catalogs
            .retain(|number, _| keeps_catalog(*number, previous.generation, current.generation));
        store.files.retain(|file, _| {
            keep.contains_key(&FileId::new(file.0, file.1, file.2, file.3))
        });
    }
}

struct Transaction<'a> {
    db: &'a mut Database,
    staging: Option<Staging>,
}

impl Database {
    fn run(&mut self, staging: &mut Staging, operation: Operation) -> Result<()> {
        let resources = &mut self.resources;
        with_parts(&self.disk, &mut self.cache, |loaded| {
            staging.write(loaded, resources, &operation)
        })
    }

    fn run_maintained(
        &mut self,
        staging: &mut Staging,
        operation: Operation,
        table: u64,
        id: u64,
    ) -> Result<()> {
        self.run(staging, operation)?;
        let options = self.config.options;
        let retain = options.retain_events.map(|count| count as u64);
        for operation in staging.maintain(options.snapshot_interval, retain, table, id) {
            self.run(staging, operation)?;
        }
        Ok(())
    }

    fn commit(&mut self, staging: Staging) -> Result<u64> {
        match staging.committable() {
            Err(error) => {
                self.release(staging.permit, staging.reservation);
                Err(error)
            }
            Ok(()) => self.commit_group(vec![staging]).pop().unwrap(),
        }
    }
}

impl Transaction<'_> {
    fn create_table(&mut self, name: &str, schema: Schema) -> Result<u64> {
        let staging = self.staging.as_mut().unwrap();
        staging.create_table(&mut self.db.resources, name, schema)
    }

    fn rename_table(&mut self, id: u64, name: &str) -> Result<()> {
        let staging = self.staging.as_mut().unwrap();
        staging.rename_table(&mut self.db.resources, id, name)
    }

    fn alter_table(&mut self, id: u64, fields: Vec<Field>) -> Result<()> {
        let staging = self.staging.as_mut().unwrap();
        staging.alter_table(&mut self.db.resources, id, fields)
    }

    fn create(&mut self, table: u64, id: u64, fields: Fields) -> Result<()> {
        let staging = self.staging.as_mut().unwrap();
        self.db.run(staging, Operation::Create(table, id, fields))
    }

    fn apply(&mut self, table: u64, id: u64, fields: Fields) -> Result<()> {
        let staging = self.staging.as_mut().unwrap();
        self.db
            .run_maintained(staging, Operation::Apply(table, id, fields), table, id)
    }

    fn delete(&mut self, table: u64, id: u64) -> Result<()> {
        let staging = self.staging.as_mut().unwrap();
        self.db
            .run_maintained(staging, Operation::Delete(table, id), table, id)
    }

    fn retain_last(&mut self, table: u64, id: u64, count: u64) -> Result<()> {
        let staging = self.staging.as_mut().unwrap();
        self.db.run(staging, Operation::Retain(table, id, count))
    }

    fn snapshot(&mut self, table: u64, id: u64) -> Result<()> {
        let staging = self.staging.as_mut().unwrap();
        self.db.run(staging, Operation::Snapshot(table, id))
    }

    fn get(&mut self, table: u64, id: u64) -> Result<Option<Entity>> {
        let staging = self.staging.as_ref().unwrap();
        with_parts(&self.db.disk, &mut self.db.cache, |loaded| {
            staging.get(loaded, table, id)
        })
    }

    fn commit(mut self) -> Result<u64> {
        let staging = self.staging.take().unwrap();
        self.db.commit(staging)
    }
}

impl Drop for Transaction<'_> {
    fn drop(&mut self) {
        if let Some(staging) = self.staging.take() {
            self.db.release(staging.permit, staging.reservation);
        }
    }
}

/// A database that several writers stage against at once.
#[derive(Clone)]
struct Shared(Rc<RefCell<Database>>);

/// A transaction that is staged beside others, over a pinned view.
struct Writer {
    db: Shared,
    staging: Option<Staging>,
    pin: Snapshot,
}

impl Shared {
    fn open(disk: &Disk) -> Shared {
        Shared(Rc::new(RefCell::new(Database::open(disk).unwrap())))
    }

    fn open_with(disk: &Disk, config: Config) -> Shared {
        Shared(Rc::new(RefCell::new(Database::open_with(disk, config).unwrap())))
    }

    fn transaction(&self) -> Result<Writer> {
        self.transaction_with_options(TransactionOptions::default())
    }

    fn transaction_with_options(&self, requested: TransactionOptions) -> Result<Writer> {
        requested.supported()?;
        let pin = self.read_snapshot()?;
        let staging = Staging::new(pin.view.clone(), false, &mut self.0.borrow_mut().resources)?;
        Ok(Writer { db: self.clone(), staging: Some(staging), pin })
    }

    fn write<T>(&self, operation: impl FnOnce(&mut Transaction<'_>) -> Result<T>) -> Result<T> {
        self.0.borrow_mut().write(operation)
    }

    fn create_table(&self, name: &str, schema: Schema) -> Result<u64> {
        self.write(|tx| tx.create_table(name, schema))
    }

    fn create(&self, table: u64, id: u64, fields: Fields) -> Result<()> {
        self.write(|tx| tx.create(table, id, fields))
    }

    fn apply(&self, table: u64, id: u64, fields: Fields) -> Result<()> {
        self.write(|tx| tx.apply(table, id, fields))
    }

    fn delete(&self, table: u64, id: u64) -> Result<()> {
        self.write(|tx| tx.delete(table, id))
    }

    fn get(&self, table: u64, id: u64) -> Result<Option<Entity>> {
        self.0.borrow().get(table, id)
    }

    fn events(&self, table: u64, id: u64) -> Result<Vec<Event>> {
        self.0.borrow().events(table, id)
    }

    fn sequence(&self) -> u64 {
        self.0.borrow().sequence()
    }

    fn usage(&self) -> ResourceUsage {
        self.0.borrow().usage()
    }

    fn checkpoint(&self) -> Result<()> {
        self.0.borrow_mut().checkpoint()
    }

    fn compact(&self) -> Result<()> {
        self.0.borrow_mut().compact()
    }

    fn pinned(&self) -> SnapshotStats {
        let db = self.0.borrow();
        let live: Vec<Arc<ReadState>> = db.pins.iter().filter_map(Weak::upgrade).collect();
        snapshot_stats(&live.iter().map(|view| &**view).collect())
    }

    fn read_snapshot(&self) -> Result<Snapshot> {
        let mut db = self.0.borrow_mut();
        let limit = db.config.options.limits.max_pinned_bytes;
        let bytes = pin_bytes(&db.engine.state.root, limit)?;
        let permit = db.resources.snapshot(bytes)?;
        let view = db.pin();
        db.pins.push(Arc::downgrade(&view));
        let charges = db.charges.iter().map(|(_, charge)| charge.clone()).collect();
        Ok(Snapshot { db: self.clone(), view, charges, permit: Some(permit) })
    }

    fn history(&self, table: u64, id: u64, options: HistoryOptions) -> Result<Cursor> {
        options.validate(options.cancellation.is_cancelled())?;
        let snapshot = self.read_snapshot()?;
        let (base, current) = with_parts(&self.0.borrow().disk, &mut Loaded::new(), |loaded| {
            snapshot.view.retained_range(loaded, table, id)
        })?;
        let limits = self.0.borrow().config.options.limits;
        let cursor = HistoryCursor::open(
            table,
            id,
            options,
            false,
            base,
            current,
            limits.max_history_batch_events,
            limits.max_history_batch_bytes,
            std::mem::size_of::<Accounted<Event>>(),
        )?;
        let snapshot = if cursor.finished() { None } else { Some(snapshot) };
        Ok(Cursor { db: self.clone(), snapshot, cursor })
    }
}

/// A pinned view.
struct Snapshot {
    db: Shared,
    view: Arc<ReadState>,
    charges: Vec<Rc<Reservation>>,
    permit: Option<Permit>,
}

impl Drop for Snapshot {
    fn drop(&mut self) {
        for charge in std::mem::take(&mut self.charges) {
            self.db.0.borrow_mut().give_up(charge);
        }
        if let Some(permit) = self.permit.take() {
            self.db.0.borrow_mut().resources.release(permit);
        }
    }
}

/// History over a pinned view.
struct Cursor {
    db: Shared,
    snapshot: Option<Snapshot>,
    cursor: HistoryCursor,
}

impl Cursor {
    fn next_batch(&mut self) -> Result<Option<Batch>> {
        let Some(snapshot) = &self.snapshot else {
            return Ok(None);
        };
        let disk = self.db.0.borrow().disk.clone();
        let (cursor, view) = (&mut self.cursor, &snapshot.view);
        let read = with_parts(&disk, &mut Loaded::new(), |loaded| {
            cursor.next_batch(view, loaded, &mut self.db.0.borrow_mut().resources)
        });
        if read.is_err() || self.cursor.finished() {
            self.snapshot = None;
        }
        Ok(read?.map(|batch| Batch { db: self.db.clone(), batch: Some(batch) }))
    }
}

/// A batch that keeps its memory until it is dropped.
struct Batch {
    db: Shared,
    batch: Option<HistoryBatch>,
}

impl Batch {
    fn get(&self) -> &HistoryBatch {
        self.batch.as_ref().unwrap()
    }

    fn len(&self) -> usize {
        self.get().len()
    }

    fn iter(&self) -> &[Event] {
        self.get().iter()
    }

    fn memory_bytes(&self) -> usize {
        self.get().memory_bytes()
    }
}

impl Drop for Batch {
    fn drop(&mut self) {
        let memory = self.batch.take().unwrap().into_memory().unwrap();
        self.db.0.borrow_mut().resources.release_memory(memory);
    }
}

impl Writer {
    fn create_table(&mut self, name: &str, schema: Schema) -> Result<u64> {
        let staging = self.staging.as_mut().unwrap();
        staging.create_table(&mut self.db.0.borrow_mut().resources, name, schema)
    }

    fn rename_table(&mut self, id: u64, name: &str) -> Result<()> {
        let staging = self.staging.as_mut().unwrap();
        staging.rename_table(&mut self.db.0.borrow_mut().resources, id, name)
    }

    fn create(&mut self, table: u64, id: u64, fields: Fields) -> Result<()> {
        let staging = self.staging.as_mut().unwrap();
        self.db.0.borrow_mut().run(staging, Operation::Create(table, id, fields))
    }

    fn snapshot(&mut self, table: u64, id: u64) -> Result<()> {
        let staging = self.staging.as_mut().unwrap();
        self.db.0.borrow_mut().run(staging, Operation::Snapshot(table, id))
    }

    fn apply(&mut self, table: u64, id: u64, fields: Fields) -> Result<()> {
        let staging = self.staging.as_mut().unwrap();
        self.db
            .0
            .borrow_mut()
            .run_maintained(staging, Operation::Apply(table, id, fields), table, id)
    }

    fn get(&mut self, table: u64, id: u64) -> Result<Option<Entity>> {
        let staging = self.staging.as_ref().unwrap();
        with_parts(&self.db.0.borrow().disk, &mut Loaded::new(), |loaded| {
            staging.get(loaded, table, id)
        })
    }

    fn commit(mut self) -> Result<u64> {
        let staging = self.staging.take().unwrap();
        self.db.0.borrow_mut().commit(staging)
    }
}

impl Drop for Writer {
    fn drop(&mut self) {
        if let Some(staging) = self.staging.take() {
            self.db.0.borrow_mut().release(staging.permit, staging.reservation);
        }
    }
}

fn schema() -> Schema {
    Schema::new(vec![
        Field { id: 1, name: "count".into(), data_type: DataType::Int64, nullable: false },
        Field { id: 2, name: "label".into(), data_type: DataType::Text, nullable: true },
        Field { id: 3, name: "payload".into(), data_type: DataType::Bytes, nullable: true },
    ])
    .unwrap()
}

fn fields(value: i64) -> Fields {
    [(1, Value::Int64(value))].into()
}

#[test]
fn catalog_only_writes_trigger_automatic_checkpoints() {
    let disk = disk();
    let mut config = Config::default();
    config.options.checkpoint_bytes = 4096;
    let mut db = Database::open_with(&disk, config).unwrap();
    for id in 0..40 {
        db.create_table(&format!("table_{id}"), schema()).unwrap();
    }
    assert!(disk.borrow().catalogs.len() >= 2);
    drop(db);
    let db = Database::open(&disk).unwrap();
    assert_eq!(db.engine.state.catalog.items().len(), 40);
    assert_eq!(db.sequence(), 40);
}

#[test]
fn atomic_multitable_transactions_survive_wal_reopen() {
    let disk = disk();
    let mut db = Database::open(&disk).unwrap();
    let (a, b) = db
        .write(|tx| {
            let a = tx.create_table("accounts", schema())?;
            let b = tx.create_table("balances", schema())?;
            tx.create(a, 7, fields(10))?;
            tx.create(b, 9, fields(20))?;
            Ok((a, b))
        })
        .unwrap();
    db.write(|tx| {
        tx.apply(a, 7, fields(11))?;
        tx.apply(a, 7, fields(12))?;
        tx.apply(b, 9, fields(21))?;
        assert_eq!(tx.get(a, 7)?.unwrap().version, 2);
        Ok(())
    })
    .unwrap();
    assert_eq!(db.sequence(), 2);
    drop(db);
    let db = Database::open(&disk).unwrap();
    assert_eq!(db.get(a, 7).unwrap().unwrap().fields[&1], Value::Int64(12));
    assert_eq!(db.get(b, 9).unwrap().unwrap().fields[&1], Value::Int64(21));
    assert_eq!(db.get_at_version(a, 7, 1).unwrap().fields[&1], Value::Int64(11));
    assert_eq!(
        db.events(a, 7).unwrap().iter().map(|e| e.transaction).collect::<Vec<_>>(),
        [2, 2]
    );
    assert_eq!(db.replay(a, 7).unwrap(), db.get(a, 7).unwrap().unwrap());
}

#[test]
fn abort_and_invalid_assignment_do_not_publish_any_changes() {
    let disk = disk();
    let mut db = Database::open(&disk).unwrap();
    let table = db.create_table("items", schema()).unwrap();
    db.create(table, 1, fields(1)).unwrap();
    let before = db.sequence();
    {
        let mut tx = db.transaction().unwrap();
        tx.apply(table, 1, fields(2)).unwrap();
        assert!(tx.apply(table, 1, [(1, Value::Null)].into()).is_err());
        assert!(tx.commit().is_err());
    }
    {
        let mut tx = db.transaction().unwrap();
        tx.create(table, 2, fields(2)).unwrap();
    }
    assert_eq!(db.sequence(), before);
    assert_eq!(db.get(table, 1).unwrap().unwrap().fields[&1], Value::Int64(1));
    assert!(db.get(table, 2).unwrap().is_none());
    drop(db);
    let db = Database::open(&disk).unwrap();
    assert_eq!(db.sequence(), before);
    assert!(db.events(table, 1).unwrap().is_empty());
}

#[test]
fn btree_point_reads_and_scans_work_across_leaf_boundaries() {
    let disk = disk();
    let mut db = Database::open(&disk).unwrap();
    let table = db.create_table("items", schema()).unwrap();
    db.write(|tx| {
        for id in (0..900).rev() {
            tx.create(table, id, fields(id as i64))?;
        }
        Ok(())
    })
    .unwrap();
    db.checkpoint().unwrap();
    drop(db);
    let mut db = Database::open(&disk).unwrap();
    for id in [0, 1, 253, 254, 255, 508, 899] {
        assert_eq!(
            db.get(table, id).unwrap().unwrap().fields[&1],
            Value::Int64(id as i64)
        );
    }
    assert!(db.get(table, 900).unwrap().is_none());
    db.apply(table, 254, fields(-1)).unwrap();
    db.create(table, 1000, fields(1000)).unwrap();
    db.delete(table, 255).unwrap();
    let ids: Vec<u64> = db.scan(table).unwrap().iter().map(|entity| entity.id).collect();
    assert_eq!(ids.len(), 900);
    assert!(!ids.contains(&255));
    assert_eq!(ids.last(), Some(&1000));
    assert!(ids.windows(2).all(|w| w[0] < w[1]));
    db.checkpoint().unwrap();
    drop(db);
    let db = Database::open(&disk).unwrap();
    assert_eq!(db.get(table, 254).unwrap().unwrap().fields[&1], Value::Int64(-1));
    assert!(db.get(table, 255).unwrap().is_none());
}

#[test]
fn overflow_records_and_rotating_history_segments_survive_checkpoint() {
    let disk = disk();
    let mut config = Config::default();
    config.options.history_segment_bytes = 4096;
    config.options.compress_history = false;
    let mut db = Database::open_with(&disk, config).unwrap();
    let table = db.create_table("blobs", schema()).unwrap();
    let payload: Vec<u8> = (0..180_000).map(|i| (i % 251) as u8).collect();
    let mut initial = fields(0);
    initial.insert(3, Value::Bytes(payload.clone()));
    db.create(table, 1, initial).unwrap();
    db.write(|tx| {
        for i in 1..=3 {
            tx.apply(table, 1, [(3, Value::Bytes(vec![i as u8; 30_000]))].into())?;
        }
        Ok(())
    })
    .unwrap();
    db.checkpoint().unwrap();
    drop(db);
    let db = Database::open(&disk).unwrap();
    assert_eq!(
        db.get_at_version(table, 1, 0).unwrap().fields[&3],
        Value::Bytes(payload)
    );
    assert_eq!(
        db.get(table, 1).unwrap().unwrap().fields[&3],
        Value::Bytes(vec![3; 30_000])
    );
    let segments = disk.borrow().files.keys().filter(|file| file.1 == 1 && file.2 == 6).count();
    assert!(segments >= 3);
}

#[test]
fn retention_snapshots_nulls_and_deletion_keep_consistent_history() {
    let disk = disk();
    let mut config = Config::default();
    config.options.retain_events = Some(3);
    config.options.snapshot_interval = 2;
    let mut db = Database::open_with(&disk, config).unwrap();
    let table = db.create_table("items", schema()).unwrap();
    db.create(table, 1, fields(0)).unwrap();
    db.write(|tx| {
        for value in 1..=8 {
            tx.apply(table, 1, fields(value))?;
        }
        Ok(())
    })
    .unwrap();
    assert_eq!(db.retained_range(table, 1).unwrap(), (5, 8));
    assert_eq!(db.events(table, 1).unwrap().len(), 3);
    assert!(matches!(
        db.get_at_version(table, 1, 4),
        Err(Error::VersionUnavailable { first: 5, last: 8, .. })
    ));
    for version in 5..=8 {
        assert_eq!(
            db.get_at_version(table, 1, version).unwrap(),
            db.replay_to_version(table, 1, version).unwrap()
        );
    }
    db.checkpoint().unwrap();
    drop(db);
    // Recovery must reproduce recorded retention, independent of options used to reopen.
    let mut db = Database::open(&disk).unwrap();
    assert_eq!(db.retained_range(table, 1).unwrap(), (5, 8));
    db.apply(table, 1, [(2, Value::Text("label".into()))].into()).unwrap();
    db.apply(table, 1, [(2, Value::Null)].into()).unwrap();
    assert_eq!(db.get(table, 1).unwrap().unwrap().fields[&1], Value::Int64(8));
    assert_eq!(db.get(table, 1).unwrap().unwrap().fields[&2], Value::Null);
    db.delete(table, 1).unwrap();
    assert!(db.get(table, 1).unwrap().is_none());
    assert!(db.replay(table, 1).unwrap().deleted);
    assert!(db.create(table, 1, fields(0)).is_err());
    db.retain_last(table, 1, 0).unwrap();
    db.checkpoint().unwrap();
    drop(db);
    let db = Database::open(&disk).unwrap();
    assert_eq!(db.retained_range(table, 1).unwrap(), (11, 11));
    assert!(db.replay(table, 1).unwrap().deleted);
}

#[test]
fn rename_and_additive_schema_evolution_preserve_old_versions() {
    let disk = disk();
    let mut db = Database::open(&disk).unwrap();
    let table = db.create_table("old", schema()).unwrap();
    db.create(table, 1, fields(1)).unwrap();
    db.checkpoint().unwrap();
    db.write(|tx| {
        tx.rename_table(table, "new")?;
        let mut fields = schema().fields;
        fields[0].name = "renamed".into();
        fields.push(Field {
            id: 4,
            name: "enabled".into(),
            data_type: DataType::Bool,
            nullable: true,
        });
        tx.alter_table(table, fields)?;
        tx.apply(table, 1, [(4, Value::Bool(true))].into())?;
        Ok(())
    })
    .unwrap();
    db.checkpoint().unwrap();
    drop(db);
    let db = Database::open(&disk).unwrap();
    assert!(db.engine.state.table("old").is_none());
    assert_eq!(db.engine.state.table("new").unwrap().id, table);
    let old = db.get_at_version(table, 1, 0).unwrap();
    assert_eq!(old.schema_version, 1);
    assert!(!old.fields.contains_key(&4));
    assert_eq!(db.get(table, 1).unwrap().unwrap().schema_version, 2);
    assert_eq!(db.replay(table, 1).unwrap().fields[&4], Value::Bool(true));
}

fn flip(bytes: &mut [u8], offset: usize) {
    bytes[offset] ^= 1;
}

#[test]
fn damaged_latest_checkpoint_is_rebuilt_from_previous_and_wal() {
    let disk = disk();
    let mut db = Database::open(&disk).unwrap();
    let table = db.create_table("items", schema()).unwrap();
    db.create(table, 1, fields(1)).unwrap();
    db.checkpoint().unwrap();
    db.apply(table, 1, fields(2)).unwrap();
    db.checkpoint().unwrap();
    db.apply(table, 1, fields(3)).unwrap();
    let sequence = db.sequence();
    drop(db);
    flip(disk.borrow_mut().files.get_mut(&(1, 2, 0, 0)).unwrap(), 8191);
    let mut db = Database::open(&disk).unwrap();
    assert_eq!(db.sequence(), sequence);
    assert_eq!(db.get(table, 1).unwrap().unwrap().fields[&1], Value::Int64(3));
    db.checkpoint().unwrap();
    drop(db);
    flip(disk.borrow_mut().files.get_mut(&(1, 3, 0, 0)).unwrap(), 8191);
    let db = Database::open(&disk).unwrap();
    assert_eq!(db.sequence(), sequence);
    assert_eq!(db.replay(table, 1).unwrap().fields[&1], Value::Int64(3));
}

#[test]
fn committed_wal_corruption_is_an_error_instead_of_silent_rollback() {
    let disk = disk();
    let mut db = Database::open(&disk).unwrap();
    db.create_table("items", schema()).unwrap();
    drop(db);
    {
        let mut store = disk.borrow_mut();
        let log = store.wal.get_mut(&0).unwrap();
        let end = log.len();
        flip(log, end - 9);
    }
    assert!(matches!(Database::open(&disk), Err(Error::Corrupt(_))));
}

fn directories(disk: &Disk) -> usize {
    let mut generations: Vec<u64> = disk
        .borrow()
        .files
        .keys()
        .filter(|file| file.0 == 1)
        .map(|file| file.1)
        .collect();
    generations.sort_unstable();
    generations.dedup();
    generations.len()
}

#[test]
fn repeated_checkpoints_reclaim_old_generations_without_losing_inactive_entities() {
    let disk = disk();
    let mut db = Database::open(&disk).unwrap();
    let table = db.create_table("items", schema()).unwrap();
    db.create(table, 1, fields(1)).unwrap();
    db.create(table, 2, fields(20)).unwrap();
    for value in 2..=5 {
        db.apply(table, 1, fields(value)).unwrap();
        db.retain_last(table, 1, 1).unwrap();
        db.checkpoint().unwrap();
    }
    assert_eq!(disk.borrow().wal.len(), 2);
    // Entity 2 was never touched, so it still lives where it was first written
    // and its generation is still referenced.
    let first = db.generations()[0];
    assert_eq!((first.entities, first.dead), (2, 1));
    assert!(directories(&disk) <= Options::default().max_generations + 1);
    // Collecting everything leaves one generation, plus the retained baseline
    // until a second pass replaces that too.
    db.compact().unwrap();
    assert_eq!(db.generations().len(), 1);
    db.compact().unwrap();
    assert_eq!(directories(&disk), 2);
    drop(db);
    let db = Database::open(&disk).unwrap();
    assert_eq!(db.get(table, 2).unwrap().unwrap().fields[&1], Value::Int64(20));
    assert_eq!(db.retained_range(table, 1).unwrap(), (3, 4));
}

#[test]
fn damage_to_a_shared_file_is_reported_rather_than_recovered() {
    let disk = disk();
    let mut db = Database::open(&disk).unwrap();
    let table = db.create_table("items", schema()).unwrap();
    db.create(table, 1, fields(1)).unwrap();
    db.create(table, 2, fields(2)).unwrap();
    db.checkpoint().unwrap();
    let shared = db.generations()[0].generation;
    db.apply(table, 1, fields(3)).unwrap();
    db.checkpoint().unwrap();
    // Entity 2 never moved, so both the published and the retained manifest read
    // it from the same file. Sharing files is what makes a checkpoint cheap; it
    // also means the retained checkpoint is no longer an independent copy.
    assert!(db.generations().iter().any(|e| e.generation == shared));
    drop(db);
    flip(disk.borrow_mut().files.get_mut(&(1, shared, 0, 0)).unwrap(), 8191);
    assert!(matches!(Database::open(&disk), Err(Error::Corrupt(_))));
}

#[test]
fn an_untouched_entity_is_not_rewritten_by_a_checkpoint() {
    let disk = disk();
    let mut db = Database::open(&disk).unwrap();
    let table = db.create_table("items", schema()).unwrap();
    for id in 1..=4 {
        db.create(table, id, fields(id as i64)).unwrap();
    }
    db.checkpoint().unwrap();
    let original = db.generations()[0].generation;
    db.apply(table, 1, fields(100)).unwrap();
    db.checkpoint().unwrap();
    let generations = db.generations();
    assert_eq!(generations.len(), 2);
    // The first generation kept all four records and lost one to the rewrite.
    assert_eq!(generations[0].generation, original);
    assert_eq!((generations[0].entities, generations[0].dead), (4, 1));
    // The new generation holds only the entity the transaction touched.
    assert_eq!((generations[1].entities, generations[1].dead), (1, 0));
    assert_eq!(db.get(table, 4).unwrap().unwrap().fields[&1], Value::Int64(4));
    assert_eq!(db.get(table, 1).unwrap().unwrap().fields[&1], Value::Int64(100));
}

#[test]
fn a_generation_is_collected_once_it_loses_density() {
    let disk = disk();
    let mut db = Database::open(&disk).unwrap();
    let table = db.create_table("items", schema()).unwrap();
    for id in 1..=4 {
        db.create(table, id, fields(id as i64)).unwrap();
    }
    db.checkpoint().unwrap();
    let original = db.generations()[0].generation;
    // Three of four entities move away, which drops the generation below half.
    for id in 1..=3 {
        db.apply(table, id, fields(100 + id as i64)).unwrap();
        db.checkpoint().unwrap();
    }
    // The policy reads the published manifest, so the generation that just lost
    // its third entity is collected by the checkpoint that follows.
    assert!(db.generations().iter().any(|entry| entry.generation == original));
    db.checkpoint().unwrap();
    assert!(
        db.generations().iter().all(|entry| entry.generation != original),
        "a generation holding one live entity out of four must be collected"
    );
    for id in 1..=4 {
        let expected = if id <= 3 { 100 + id } else { id };
        assert_eq!(
            db.get(table, id as u64).unwrap().unwrap().fields[&1],
            Value::Int64(expected)
        );
    }
}

#[test]
fn collection_is_spread_over_checkpoints_when_it_exceeds_its_budget() {
    let disk = disk();
    // Mark the first generation for collection as soon as it loses one
    // entity, then let only two entities move per checkpoint.
    let mut config = Config { live_ratio: 0.9, ..Config::default() };
    config.options.collect_entities = 2;
    let mut db = Database::open_with(&disk, config).unwrap();
    let table = db.create_table("items", schema()).unwrap();
    for id in 1..=7 {
        db.create(table, id, fields(id as i64)).unwrap();
    }
    db.checkpoint().unwrap();
    let draining = db.generations()[0].generation;
    db.apply(table, 1, fields(100)).unwrap();
    let live = |db: &Database| {
        db.generations()
            .iter()
            .find(|entry| entry.generation == draining)
            .map(|entry| entry.entities - entry.dead)
    };
    // The first checkpoint publishes the rewritten entity, which is what marks
    // the generation for collection; the remaining six then move two at a time.
    let mut seen = Vec::new();
    for _ in 0..4 {
        db.checkpoint().unwrap();
        seen.push(live(&db));
    }
    assert_eq!(seen, [Some(6), Some(4), Some(2), None]);
    for id in 1..=7 {
        let expected = if id == 1 { 100 } else { id };
        assert_eq!(
            db.get(table, id as u64).unwrap().unwrap().fields[&1],
            Value::Int64(expected)
        );
    }
}

#[test]
fn churn_keeps_every_entity_readable_and_the_database_bounded() {
    let disk = disk();
    let mut db = Database::open(&disk).unwrap();
    let table = db.create_table("items", schema()).unwrap();
    let entities = 200u64;
    db.write(|tx| {
        for id in 1..=entities {
            tx.create(table, id, fields(0))?;
        }
        Ok(())
    })
    .unwrap();
    db.compact().unwrap();
    db.compact().unwrap();
    let mut expected = vec![0i64; entities as usize + 1];
    let mut random = 12345u64;
    let mut halfway = 0;
    for round in 1..=80i64 {
        for _ in 0..20 {
            random = random.wrapping_mul(6364136223846793005).wrapping_add(1);
            let id = random % entities + 1;
            db.apply(table, id, fields(round)).unwrap();
            expected[id as usize] = round;
        }
        db.checkpoint().unwrap();
        assert!(db.generations().len() <= Options::default().max_generations);
        if round == 40 {
            halfway = disk.borrow().size();
        }
    }
    // Every entity reads back, whichever generation now holds it.
    for id in 1..=entities {
        assert_eq!(
            db.get(table, id).unwrap().unwrap().fields[&1],
            Value::Int64(expected[id as usize])
        );
    }
    // Superseded records are reclaimed as generations are collected, so churn
    // settles instead of growing with the number of checkpoints. The steady
    // state is larger than a compacted database: it carries the superseded
    // records a collection has not reached yet, and every referenced generation
    // costs at least a few pages per table.
    let churned = disk.borrow().size();
    assert!(
        churned < halfway * 3 / 2,
        "{churned} bytes after 80 rounds against {halfway} after 40"
    );
    drop(db);
    let mut db = Database::open(&disk).unwrap();
    db.compact().unwrap();
    db.compact().unwrap();
    assert_eq!(db.generations().len(), 1);
    // A full pass reclaims what the bounded collections had not reached.
    assert!(disk.borrow().size() < churned);
    for id in 1..=entities {
        assert_eq!(
            db.get(table, id).unwrap().unwrap().fields[&1],
            Value::Int64(expected[id as usize])
        );
    }
}

#[test]
fn the_generation_budget_bounds_a_manifest() {
    let disk = disk();
    // Keep every generation dense so only the budget can collect one.
    let mut config = Config { live_ratio: 0.0, ..Config::default() };
    config.options.max_generations = 3;
    let mut db = Database::open_with(&disk, config).unwrap();
    let table = db.create_table("items", schema()).unwrap();
    for id in 1..=20 {
        db.create(table, id, fields(id as i64)).unwrap();
        db.checkpoint().unwrap();
        assert!(db.generations().len() <= 3);
    }
    drop(db);
    let db = Database::open(&disk).unwrap();
    for id in 1..=20 {
        assert_eq!(
            db.get(table, id).unwrap().unwrap().fields[&1],
            Value::Int64(id as i64)
        );
    }
}

#[test]
fn historical_reads_seek_to_a_snapshot_and_skip_earlier_events() {
    let disk = disk();
    let mut config = Config::default();
    config.options.snapshot_interval = 2;
    let mut db = Database::open_with(&disk, config).unwrap();
    let table = db.create_table("items", schema()).unwrap();
    db.create(table, 1, fields(0)).unwrap();
    db.write(|tx| {
        for value in 1..=600 {
            tx.apply(table, 1, fields(value))?;
        }
        Ok(())
    })
    .unwrap();
    db.checkpoint().unwrap();
    drop(db);
    let db = Database::open(&disk).unwrap();
    for version in [0, 1, 253, 254, 509, 510, 599, 600] {
        assert_eq!(
            db.get_at_version(table, 1, version).unwrap().fields[&1],
            Value::Int64(version as i64)
        );
    }
    // Damage an early event after startup verification. A late historical read
    // should touch only its eligible snapshot and the subsequent event range.
    flip(disk.borrow_mut().files.get_mut(&(1, 1, 6, 0)).unwrap(), 35);
    assert_eq!(
        db.get_at_version(table, 1, 599).unwrap().fields[&1],
        Value::Int64(599)
    );
    assert!(db.replay_to_version(table, 1, 599).is_err());
}

#[test]
fn conflicting_writers_abort_every_write_and_retry_from_a_fresh_view() {
    let disk = disk();
    let db = Shared::open(&disk);
    let a = db.create_table("a", schema()).unwrap();
    let b = db.create_table("b", schema()).unwrap();
    db.create(a, 1, fields(0)).unwrap();
    let mut first = db.transaction().unwrap();
    let mut second = db.transaction().unwrap();
    first.apply(a, 1, fields(1)).unwrap();
    second.apply(a, 1, fields(2)).unwrap();
    second.create(b, 9, fields(99)).unwrap();
    first.commit().unwrap();
    let sequence = db.sequence();
    assert!(
        matches!(second.commit(), Err(Error::Conflict { table: Some(t), entity: Some(1) }) if t == a)
    );
    assert_eq!(db.sequence(), sequence);
    assert!(db.get(b, 9).unwrap().is_none());
    db.apply(a, 1, fields(2)).unwrap();
    drop(db);
    let db = Database::open(&disk).unwrap();
    assert_eq!(db.get(a, 1).unwrap().unwrap().version, 2);
    assert!(db.get(b, 9).unwrap().is_none());
}

#[test]
fn retention_and_snapshot_writes_conflict_even_without_a_version_change() {
    for snapshot_only in [false, true] {
        let disk = disk();
        let db = Shared::open(&disk);
        let table = db.create_table("items", schema()).unwrap();
        db.create(table, 1, fields(0)).unwrap();
        db.apply(table, 1, fields(1)).unwrap();
        db.checkpoint().unwrap();
        let mut old = db.transaction().unwrap();
        old.apply(table, 1, fields(2)).unwrap();
        db.write(|tx| {
            if snapshot_only {
                tx.snapshot(table, 1)
            } else {
                tx.retain_last(table, 1, 0)
            }
        })
        .unwrap();
        assert_eq!(db.get(table, 1).unwrap().unwrap().version, 1);
        // Pruning must retain the conflict marker while an older writer is alive.
        for _ in 0..3 {
            db.compact().unwrap();
        }
        assert!(matches!(old.commit(), Err(Error::Conflict { .. })));
        let expected = if snapshot_only { (0, 1) } else { (1, 1) };
        assert_eq!(db.0.borrow().retained_range(table, 1).unwrap(), expected);
    }
}

#[test]
fn catalog_changes_abort_stale_writers_and_do_not_overwrite_committed_data() {
    let disk = disk();
    let db = Shared::open(&disk);
    let table = db.create_table("items", schema()).unwrap();
    db.create(table, 1, fields(1)).unwrap();
    let mut stale = db.transaction().unwrap();
    stale.apply(table, 1, fields(2)).unwrap();
    let mut ddl = db.transaction().unwrap();
    ddl.rename_table(table, "renamed").unwrap();
    db.create(table, 2, fields(2)).unwrap();
    ddl.commit().unwrap();
    assert!(matches!(
        stale.commit(),
        Err(Error::Conflict { table: None, entity: None })
    ));
    assert!(db.0.borrow().engine.state.table("renamed").is_some());
    assert!(db.get(table, 2).unwrap().is_some());
    let mut first = db.transaction().unwrap();
    let mut second = db.transaction().unwrap();
    first.create_table("one", schema()).unwrap();
    second.create_table("two", schema()).unwrap();
    second.commit().unwrap();
    assert!(matches!(first.commit(), Err(Error::Conflict { .. })));
}

#[test]
fn unsupported_isolation_is_explicit_and_snapshot_reads_are_repeatable() {
    let disk = disk();
    let db = Shared::open(&disk);
    for isolation in [IsolationLevel::ReadCommitted, IsolationLevel::Serializable] {
        assert!(
            matches!(db.transaction_with_options(TransactionOptions::with_isolation(isolation)), Err(Error::UnsupportedIsolation(actual)) if actual == isolation)
        );
    }
    assert_eq!(db.pinned().active, 0);
    let table = db.create_table("items", schema()).unwrap();
    db.create(table, 1, fields(1)).unwrap();
    let mut tx = db
        .transaction_with_options(TransactionOptions::with_isolation(IsolationLevel::Snapshot))
        .unwrap();
    let sequence = db.sequence();
    db.apply(table, 1, fields(2)).unwrap();
    assert_eq!(tx.get(table, 1).unwrap().unwrap().fields[&1], Value::Int64(1));
    tx.create(table, 3, fields(3)).unwrap();
    assert!(tx.apply(table, 1, [(1, Value::Text("wrong".into()))].into()).is_err());
    assert!(tx.commit().is_err());
    assert!(db.get(table, 3).unwrap().is_none());
    let readonly = db.transaction().unwrap();
    db.apply(table, 1, fields(3)).unwrap();
    assert_eq!(readonly.commit().unwrap(), sequence + 1);
}

#[test]
fn snapshot_write_skew_is_documented_instead_of_claiming_serializable() {
    let disk = disk();
    let db = Shared::open(&disk);
    let table = db.create_table("on_call", schema()).unwrap();
    db.write(|tx| {
        tx.create(table, 1, fields(1))?;
        tx.create(table, 2, fields(1))
    })
    .unwrap();
    let mut a = db.transaction().unwrap();
    let mut b = db.transaction().unwrap();
    assert_eq!(a.get(table, 2).unwrap().unwrap().fields[&1], Value::Int64(1));
    assert_eq!(b.get(table, 1).unwrap().unwrap().fields[&1], Value::Int64(1));
    a.apply(table, 1, fields(0)).unwrap();
    b.apply(table, 2, fields(0)).unwrap();
    a.commit().unwrap();
    b.commit().unwrap();
    assert_eq!(db.get(table, 1).unwrap().unwrap().fields[&1], Value::Int64(0));
    assert_eq!(db.get(table, 2).unwrap().unwrap().fields[&1], Value::Int64(0));
}

#[test]
fn late_staging_uses_the_begin_view_and_preserves_old_event_sequences() {
    let disk = disk();
    let db = Shared::open(&disk);
    let table = db.create_table("items", schema()).unwrap();
    db.create(table, 1, fields(0)).unwrap();
    db.apply(table, 1, fields(1)).unwrap();
    let original_sequence = db.sequence();
    db.checkpoint().unwrap();
    let mut old = db.transaction().unwrap();
    db.create(table, 2, fields(2)).unwrap();
    old.apply(table, 1, fields(3)).unwrap();
    let committed = old.commit().unwrap();
    let events = db.events(table, 1).unwrap();
    assert_eq!(events[0].transaction, original_sequence);
    assert_eq!(events[1].transaction, committed);
    let mut late = db.transaction().unwrap();
    db.delete(table, 1).unwrap();
    db.compact().unwrap();
    // Staging after the winner committed must still read the begin snapshot.
    late.apply(table, 1, fields(4)).unwrap();
    assert!(matches!(late.commit(), Err(Error::Conflict { .. })));
    drop(db);
    let db = Shared::open(&disk);
    assert!(db.get(table, 1).unwrap().is_none());
    assert!(matches!(
        db.create(table, 1, fields(5)),
        Err(Error::AlreadyExists(_))
    ));
    assert_eq!(db.events(table, 1).unwrap()[1].transaction, committed);
}

#[test]
fn a_scan_callback_can_commit_without_changing_the_scan_view() {
    let disk = disk();
    let db = Shared::open(&disk);
    let table = db.create_table("items", schema()).unwrap();
    db.create(table, 1, fields(1)).unwrap();
    db.checkpoint().unwrap();
    let snapshot = db.read_snapshot().unwrap();
    let mut loaded = Loaded::new();
    let mut rows = snapshot.view.scan(table).unwrap();
    let mut visited = Vec::new();
    loop {
        let next = with_parts(&disk, &mut loaded, |loaded| match rows.next(loaded) {
            None => Ok(None),
            Some(Err(error)) => Err(error),
            Some(Ok(row)) => Ok(Some(row)),
        })
        .unwrap();
        match next {
            None => break,
            Some(None) => {}
            Some(Some(entity)) => {
                visited.push(entity.id);
                db.create(table, 2, fields(2)).unwrap();
                db.compact().unwrap();
            }
        }
    }
    assert_eq!(visited, [1]);
    assert!(db.get(table, 2).unwrap().is_some());
}

fn byte_schema() -> Schema {
    Schema::new(vec![Field {
        id: 1,
        name: "bytes".into(),
        data_type: DataType::Bytes,
        nullable: false,
    }])
    .unwrap()
}

fn byte_fields(size: usize, value: u8) -> Fields {
    [(1, Value::Bytes(vec![value; size]))].into()
}

fn byte_baseline(size: usize, events: usize) -> Disk {
    let disk = disk();
    let mut config = Config::default();
    config.options.snapshot_interval = 0;
    let mut db = Database::open_with(&disk, config).unwrap();
    let table = db.create_table("items", byte_schema()).unwrap();
    db.create(table, 1, byte_fields(size, 0)).unwrap();
    db.write(|tx| {
        for i in 1..=events {
            tx.apply(table, 1, byte_fields(size, (i % 251) as u8))?;
        }
        Ok(())
    })
    .unwrap();
    db.checkpoint().unwrap();
    disk
}

#[test]
fn batches_cross_disk_memory_and_partition_boundaries_on_one_snapshot() {
    let disk = byte_baseline(8, 1030);
    let db = Shared::open(&disk);
    for _ in 0..3 {
        db.apply(1, 1, byte_fields(8, 7)).unwrap();
    }
    let mut cursor = db
        .history(
            1,
            1,
            HistoryOptions {
                first_version: Some(1022),
                last_version: Some(1033),
                max_events: 3,
                max_bytes: 2048,
                ..HistoryOptions::default()
            },
        )
        .unwrap();
    db.write(|tx| tx.retain_last(1, 1, 1)).unwrap();
    db.compact().unwrap();
    db.checkpoint().unwrap();
    let mut versions = Vec::new();
    while let Some(batch) = cursor.next_batch().unwrap() {
        assert!(batch.len() <= 3);
        assert!(batch.memory_bytes() <= 2048);
        versions.extend(batch.iter().iter().map(|event| event.version));
    }
    assert_eq!(versions, (1022..=1033).collect::<Vec<_>>());
    assert!(cursor.next_batch().unwrap().is_none());
    drop(cursor);
    assert_eq!(db.usage().snapshots, 0);
}

#[test]
fn byte_limits_stop_before_the_next_event_and_owned_batches_keep_their_budget() {
    let disk = byte_baseline(1024, 4);
    let db = Shared::open(&disk);
    let mut cursor = db
        .history(
            1,
            1,
            HistoryOptions { max_events: 99, max_bytes: 1700, ..HistoryOptions::default() },
        )
        .unwrap();
    let first = cursor.next_batch().unwrap().unwrap();
    assert_eq!(first.len(), 1);
    let second = cursor.next_batch().unwrap().unwrap();
    assert_eq!(second.iter()[0].version, 2);
    assert_eq!(
        db.usage().read_memory_bytes,
        first.memory_bytes() + second.memory_bytes()
    );
    drop(cursor);
    assert_eq!(db.usage().snapshots, 0);
    assert!(db.usage().read_memory_bytes > 0);
    drop(first);
    drop(second);
    assert_eq!(db.usage().read_memory_bytes, 0);
    let mut too_small = db
        .history(1, 1, HistoryOptions { max_bytes: 100, ..HistoryOptions::default() })
        .unwrap();
    assert!(matches!(
        too_small.next_batch(),
        Err(Error::LimitExceeded { resource: "history batch bytes", .. })
    ));
    assert_eq!(db.usage().read_memory_bytes, 0);
    assert_eq!(db.usage().scratch_bytes, 0);
    assert!(too_small.next_batch().unwrap().is_none());
}

#[test]
fn scratch_decoded_record_and_collector_limits_fail_without_leaks() {
    let disk = byte_baseline(8, 0);
    let mut db = Database::open(&disk).unwrap();
    db.apply(1, 1, byte_fields(65536, 0)).unwrap();
    db.apply(1, 1, byte_fields(8, 1)).unwrap();
    db.checkpoint().unwrap();
    drop(db);
    for (limits, resource) in [
        (Limits { max_scratch_bytes: 1024, ..Limits::default() }, "scratch bytes"),
        (Limits { max_decoded_record_bytes: 1024, ..Limits::default() }, "decoded record bytes"),
        (Limits { max_read_result_bytes: 1024, ..Limits::default() }, "read result bytes"),
    ] {
        let mut config = Config::default();
        config.options.limits = limits;
        let db = Database::open_with(&disk, config).unwrap();
        assert!(
            matches!(db.events(1, 1), Err(Error::LimitExceeded { resource: actual, .. }) if actual == resource),
            "{resource}"
        );
        assert_eq!(db.usage().read_memory_bytes, 0);
        assert_eq!(db.usage().scratch_bytes, 0);
        assert_eq!(db.usage().snapshots, 0);
    }
}

#[test]
fn a_damaged_event_behind_a_batch_does_not_fail_it() {
    let disk = byte_baseline(8, 4);
    let db = Shared::open(&disk);
    for (file, bytes) in disk.borrow_mut().files.iter_mut() {
        if file.2 == 6 && !bytes.is_empty() {
            let last = bytes.len() - 1;
            bytes[last] ^= 1;
        }
    }
    let options = HistoryOptions { max_events: 2, ..HistoryOptions::default() };
    let mut cursor = db.history(1, 1, options).unwrap();
    assert_eq!(cursor.next_batch().unwrap().unwrap().len(), 2);
    assert!(matches!(cursor.next_batch(), Err(Error::Corrupt(_))));
}

#[test]
fn cancelling_a_token_is_seen_by_its_clones_only() {
    let token = CancellationToken::default();
    let clone = token.clone();
    let other = CancellationToken::default();
    assert!(!token.is_cancelled() && !clone.is_cancelled() && !other.is_cancelled());
    assert!(token.check().is_ok());
    clone.cancel();
    assert!(token.is_cancelled() && clone.is_cancelled() && token.clone().is_cancelled());
    assert!(matches!(token.check(), Err(Error::Cancelled)));
    token.cancel();
    assert!(clone.is_cancelled());
    assert!(!other.is_cancelled());
}

#[test]
fn concurrent_batches_are_admitted_against_one_pool_and_release_on_error() {
    let disk = byte_baseline(8192, 4);
    let mut config = Config::default();
    config.options.limits.max_read_memory_bytes = 12_000;
    let db = Shared::open_with(&disk, config);
    let mut cursor = db
        .history(1, 1, HistoryOptions { max_events: 1, ..HistoryOptions::default() })
        .unwrap();
    let held = cursor.next_batch().unwrap().unwrap();
    assert!(matches!(
        cursor.next_batch(),
        Err(Error::LimitExceeded { resource: "decoded read bytes", .. })
    ));
    assert_eq!(db.usage().read_memory_bytes, held.memory_bytes());
    assert_eq!(db.usage().snapshots, 0);
    drop(held);
    let mut next = db
        .history(
            1,
            1,
            HistoryOptions { first_version: Some(2), max_events: 1, ..HistoryOptions::default() },
        )
        .unwrap();
    assert_eq!(next.next_batch().unwrap().unwrap().iter()[0].version, 2);
}

#[test]
fn small_encoded_updates_cannot_bypass_decoded_staging_limits_and_recovery_is_exempt() {
    let disk = byte_baseline(8192, 0);
    let mut limited = Config::default();
    limited.options.limits.max_transaction_decoded_bytes = 2000;
    limited.options.limits.max_resident_decoded_write_bytes = 2000;
    let mut db = Database::open_with(&disk, limited).unwrap();
    assert!(matches!(
        db.apply(1, 1, byte_fields(8, 1)),
        Err(Error::LimitExceeded { resource: "transaction decoded bytes", .. })
    ));
    assert_eq!(db.resources.usage().decoded_write_bytes, 0);
    let mut spare = Vec::with_capacity(8192);
    spare.extend([1u8; 8]);
    assert!(matches!(
        db.create(1, 2, [(1, Value::Bytes(spare))].into()),
        Err(Error::LimitExceeded { resource: "transaction decoded bytes", .. })
    ));
    assert_eq!(db.resources.usage().decoded_write_bytes, 0);
    drop(db);
    let mut db = Database::open(&disk).unwrap();
    db.apply(1, 1, byte_fields(8192, 2)).unwrap();
    drop(db);
    let mut db = Database::open_with(&disk, limited).unwrap();
    assert!(db.resources.usage().decoded_write_bytes > 2000);
    assert_eq!(db.get(1, 1).unwrap().unwrap().fields, byte_fields(8192, 2));
    db.checkpoint().unwrap();
    assert_eq!(db.resources.usage().decoded_write_bytes, 0);
    db.create(1, 2, byte_fields(8, 1)).unwrap();
}

#[test]
fn a_log_segment_with_a_torn_header_is_an_orphan() {
    let disk = item_baseline();
    {
        let mut db = Database::open(&disk).unwrap();
        db.create(1, 1, fields(1)).unwrap();
    }
    let root = Database::open(&disk).unwrap().engine.state.root.clone();
    let header = frame::encode(1, root.lsn, &root.encode()).unwrap();
    let last = *disk.borrow().wal.keys().next_back().unwrap();
    // A rotation that was cut off, and after a restart one that was not installed.
    disk.borrow_mut().wal.insert(last + 1, header[..header.len() / 2].to_vec());
    assert!(Database::open(&disk).unwrap().get(1, 1).unwrap().is_some());
    disk.borrow_mut().wal.insert(last + 2, header.clone());
    let mut db = Database::open(&disk).unwrap();
    assert!(db.get(1, 1).unwrap().is_some());
    db.create(1, 2, fields(2)).unwrap();
    drop(db);
    assert!(Database::open(&disk).unwrap().get(1, 2).unwrap().is_some());
    // A partial frame behind a complete header is damage in a segment that is not active.
    let mut torn = header.clone();
    torn.extend_from_slice(&header[..10]);
    disk.borrow_mut().wal.insert(last + 1, torn);
    assert!(matches!(Database::open(&disk), Err(Error::Corrupt(_))));
    assert!(check_segment(false, 0, 9).is_ok());
    assert!(check_segment(false, 9, 9).is_ok());
    assert!(check_segment(true, 4, 9).is_ok());
    assert!(matches!(check_segment(false, 4, 9), Err(Error::Corrupt(_))));
}

#[test]
fn an_operation_that_would_fail_anyway_says_so_before_its_size() {
    let disk = disk();
    let mut db = Database::open(&disk).unwrap();
    let table = db.create_table("items", byte_schema()).unwrap();
    db.create(table, 1, byte_fields(8, 1)).unwrap();
    let large = || byte_fields(9 * 1024 * 1024, 2);
    assert!(matches!(db.apply(table, 2, large()), Err(Error::NotFound(_))));
    assert!(matches!(db.create(table, 1, large()), Err(Error::AlreadyExists(_))));
    assert!(matches!(db.create(table, 2, large()), Err(Error::Invalid(_))));
    let limits = Limits { max_transaction_decoded_bytes: 64, ..Limits::default() };
    drop(db);
    let mut db = Database::open_with(&disk, limited(limits)).unwrap();
    assert!(matches!(db.apply(table, 2, byte_fields(4096, 2)), Err(Error::NotFound(_))));
    assert!(matches!(db.create(table, 1, byte_fields(4096, 2)), Err(Error::AlreadyExists(_))));
    assert!(matches!(
        db.apply(table, 1, byte_fields(4096, 2)),
        Err(Error::LimitExceeded { resource: "transaction decoded bytes", limit: 64 })
    ));
}

#[test]
fn a_state_that_no_record_can_hold_is_refused_before_it_is_staged() {
    let disk = disk();
    let mut db = Database::open(&disk).unwrap();
    let table = db.create_table("items", byte_schema()).unwrap();
    db.create(table, 1, byte_fields(8, 1)).unwrap();
    let before = db.usage();
    for size in [9, 17] {
        let refused = db.apply(table, 1, byte_fields(size * 1024 * 1024, 2));
        assert!(matches!(refused, Err(Error::Invalid(_))));
        assert_eq!(db.usage(), before);
    }
    assert_eq!(db.get(table, 1).unwrap().unwrap().version, 0);
}

#[test]
fn cursor_ranges_and_cancellation() {
    let disk = byte_baseline(8, 4);
    let db = Shared::open(&disk);
    let token = CancellationToken::default();
    let mut cursor = db
        .history(
            1,
            1,
            HistoryOptions { cancellation: token.clone(), ..HistoryOptions::default() },
        )
        .unwrap();
    token.cancel();
    assert!(matches!(cursor.next_batch(), Err(Error::Cancelled)));
    assert_eq!(db.usage().snapshots, 0);
    assert!(cursor.next_batch().unwrap().is_none());
    assert!(matches!(
        db.history(
            1,
            9,
            HistoryOptions { cancellation: token, ..HistoryOptions::default() }
        ),
        Err(Error::Cancelled)
    ));
    assert!(matches!(
        db.history(1, 1, HistoryOptions { first_version: Some(0), ..HistoryOptions::default() }),
        Err(Error::VersionUnavailable { requested: 0, first: 1, last: 4 })
    ));
    assert!(matches!(
        db.history(
            1,
            1,
            HistoryOptions {
                first_version: Some(3),
                last_version: Some(2),
                ..HistoryOptions::default()
            }
        ),
        Err(Error::Invalid(_))
    ));
    assert!(matches!(
        db.history(1, 1, HistoryOptions { max_events: 0, ..HistoryOptions::default() }),
        Err(Error::Invalid(_))
    ));
    db.create(1, 2, byte_fields(8, 0)).unwrap();
    let mut empty = db.history(1, 2, HistoryOptions::default()).unwrap();
    assert!(empty.next_batch().unwrap().is_none());
}

#[test]
fn unchanged_primary_and_history_partitions_keep_their_files_and_survive_slot_remapping() {
    let disk = disk();
    let mut config = Config::default();
    config.options.snapshot_interval = 32;
    config.options.checkpoint_bytes = 64 * 1024 * 1024;
    let mut db = Database::open_with(&disk, config).unwrap();
    let table = db.create_table("items", byte_schema()).unwrap();
    db.create(table, 1, byte_fields(8, 1)).unwrap();
    db.write(|tx| {
        for i in 1..=2050 {
            tx.apply(table, 1, byte_fields(8, (i % 251) as u8))?;
        }
        Ok(())
    })
    .unwrap();
    db.checkpoint().unwrap();
    db.create(table, 4096, byte_fields(8, 9)).unwrap();
    db.checkpoint().unwrap();
    let part = |db: &Database, kind: u8, low: (u64, u64)| {
        let route = Route { table, kind, low: low.0, low_second: low.1 };
        db.engine.state.root.partitions.get(&route).map(|part| (part.file, part.base))
    };
    let first = part(&db, 4, (1, 0)).unwrap();
    let second = part(&db, 4, (1, 1024)).unwrap();
    assert_eq!(first.0, second.0, "small trees share one immutable file");
    assert_ne!(first.1, second.1, "each tree has its own direct root");
    let routes = [(3, (4096, 0)), (4, (1, 0)), (4, (1, 1024)), (5, (1, 0))];
    let before: Vec<FileId> =
        routes.iter().map(|(kind, low)| part(&db, *kind, *low).unwrap().0).collect();
    let pin = db.pin();
    db.pins.push(Arc::downgrade(&pin));
    db.apply(table, 1, byte_fields(8, 7)).unwrap();
    db.checkpoint().unwrap();
    db.checkpoint().unwrap();
    for ((kind, low), file) in routes.into_iter().zip(before) {
        assert_eq!(part(&db, kind, low).unwrap().0, file, "{kind} {low:?}");
    }
    assert_eq!(db.get(table, 4096).unwrap().unwrap().fields, byte_fields(8, 9));
    for version in [0, 1, 1023, 1024, 1025] {
        assert_eq!(
            db.get_at_version(table, 1, version).unwrap(),
            db.replay_to_version(table, 1, version).unwrap()
        );
    }
    for version in [2047, 2048, 2050, 2051] {
        let state = db.get_at_version(table, 1, version).unwrap();
        assert_eq!(state.version, version);
    }
    db.retain_last(table, 1, 100).unwrap();
    db.checkpoint().unwrap();
    assert!(part(&db, 4, (1, 0)).is_none());
    assert_eq!(db.events(table, 1).unwrap().len(), 100);
    db.compact().unwrap();
    db.checkpoint().unwrap();
    let pinned = with_parts(&disk, &mut Loaded::new(), |loaded| pin.events(loaded, table, 1));
    assert_eq!(pinned.unwrap().len(), 2050);
    drop(pin);
    drop(db);
    let db = Database::open(&disk).unwrap();
    assert_eq!(db.events(table, 1).unwrap().len(), 100);
    assert_eq!(db.get(table, 4096).unwrap().unwrap().fields, byte_fields(8, 9));
}

#[test]
fn partition_routes_cover_sparse_maximum_ids_and_admit_before_extra_index_files() {
    let disk = disk();
    let mut config = Config::default();
    config.options.snapshot_interval = 0;
    config.options.limits.max_index_partitions = 2;
    let mut db = Database::open_with(&disk, config).unwrap();
    let table = db.create_table("items", byte_schema()).unwrap();
    for id in [0, 1023, u64::MAX] {
        db.create(table, id, byte_fields(8, 1)).unwrap();
    }
    db.checkpoint().unwrap();
    let ids: Vec<u64> = db.scan(table).unwrap().iter().map(|entity| entity.id).collect();
    assert_eq!(ids, [0, 1023, u64::MAX]);
    db.create(table, 1024, byte_fields(8, 2)).unwrap();
    assert!(matches!(
        db.checkpoint(),
        Err(Error::LimitExceeded { resource: "index partitions", .. })
    ));
    drop(db);
    let mut db = Database::open(&disk).unwrap();
    assert!(db.get(table, 1024).unwrap().is_some());
    db.checkpoint().unwrap();
    assert!(db.get(table, u64::MAX).unwrap().is_some());
}

fn limited(limits: Limits) -> Config {
    let mut config = Config::default();
    config.options.limits = limits;
    config.options.snapshot_interval = 0;
    config
}

fn item_baseline() -> Disk {
    let disk = disk();
    let mut db = Database::open(&disk).unwrap();
    db.create_table("items", schema()).unwrap();
    db.checkpoint().unwrap();
    disk
}

#[test]
fn oversized_batches_abort_atomically_in_both_apis() {
    for shared in [false, true] {
        let disk = item_baseline();
        let limits = Limits { max_transaction_operations: 1, ..Limits::default() };
        if shared {
            let db = Shared::open_with(&disk, limited(limits));
            let mut tx = db.transaction().unwrap();
            tx.create(1, 1, fields(1)).unwrap();
            assert!(matches!(tx.create(1, 2, fields(2)), Err(Error::LimitExceeded { .. })));
            assert!(tx.commit().is_err());
            assert!(db.get(1, 1).unwrap().is_none());
            assert_eq!(db.usage().resident_write_bytes, 0);
        } else {
            let mut local = Database::open_with(&disk, limited(limits)).unwrap();
            let mut tx = local.transaction().unwrap();
            tx.create(1, 1, fields(1)).unwrap();
            assert!(matches!(tx.create(1, 2, fields(2)), Err(Error::LimitExceeded { .. })));
            assert!(tx.commit().is_err());
            assert!(local.get(1, 1).unwrap().is_none());
        }
    }
}

#[test]
fn mutation_budget_transfers_to_publication_and_survives_a_pinned_checkpoint() {
    let disk = item_baseline();
    let db = Shared::open_with(
        &disk,
        limited(Limits {
            max_transaction_bytes: 46,
            max_resident_write_bytes: 92,
            ..Limits::default()
        }),
    );
    // One Int64 assignment is exactly 46 encoded bytes with the batch header.
    db.create(1, 1, fields(1)).unwrap();
    assert_eq!(db.usage().resident_write_bytes, 46);
    let old = db.read_snapshot().unwrap();
    db.apply(1, 1, fields(2)).unwrap();
    assert_eq!(db.usage().resident_write_bytes, 92);
    assert!(matches!(db.transaction(), Err(Error::LimitExceeded { .. })));
    assert_eq!(db.usage().transactions, 0);
    db.checkpoint().unwrap();
    assert_eq!(db.usage().resident_write_bytes, 46);
    drop(old);
    assert_eq!(db.usage().resident_write_bytes, 0);
    let mut tx = db.transaction().unwrap();
    tx.apply(1, 1, fields(3)).unwrap();
    assert!(matches!(
        tx.apply(1, 1, fields(4)),
        Err(Error::LimitExceeded { resource: "transaction bytes", .. })
    ));
    drop(tx);
    assert_eq!(db.usage().resident_write_bytes, 0);
}

#[test]
fn recovery_does_not_reject_acknowledged_writes_when_limits_are_lowered() {
    let disk = item_baseline();
    {
        let db = Shared::open(&disk);
        for id in 0..10 {
            db.create(1, id, fields(id as i64)).unwrap();
        }
    }
    let db = Shared::open_with(
        &disk,
        limited(Limits {
            max_transaction_bytes: 46,
            max_resident_write_bytes: 46,
            ..Limits::default()
        }),
    );
    assert!(db.get(1, 9).unwrap().is_some());
    assert!(db.usage().resident_write_bytes > 46);
    assert!(matches!(db.transaction(), Err(Error::LimitExceeded { .. })));
    db.checkpoint().unwrap();
    db.create(1, 10, fields(10)).unwrap();
}

#[test]
fn checkpoint_pin_byte_limit_is_checked_without_leaking_a_permit() {
    let disk = item_baseline();
    let db = Shared::open_with(
        &disk,
        limited(Limits { max_pinned_bytes: 0, ..Limits::default() }),
    );
    {
        // A checkpoint without entities still has history and page files of its table.
        db.create(1, 1, fields(1)).unwrap();
        db.checkpoint().unwrap();
    }
    assert!(matches!(
        db.read_snapshot(),
        Err(Error::LimitExceeded { resource: "pinned checkpoint bytes", .. })
    ));
    assert_eq!(db.usage().snapshots, 0);
    assert_eq!(db.usage().pinned_bytes, 0);
}

#[test]
fn groups_commit_in_order_and_overlapping_writers_have_one_winner() {
    let disk = disk();
    let db = Shared::open(&disk);
    let table = db.create_table("items", schema()).unwrap();
    let mut batches = Vec::new();
    for (id, value) in [(1, 10), (2, 20), (1, 30)] {
        let mut tx = db.transaction().unwrap();
        tx.create(table, id, fields(value)).unwrap();
        batches.push(tx.staging.take().unwrap());
    }
    let results = db.0.borrow_mut().commit_group(batches);
    assert!(matches!(results[0], Ok(2)));
    assert!(matches!(results[1], Ok(3)));
    assert!(matches!(
        results[2],
        Err(Error::Conflict { table: Some(_), entity: Some(1) })
    ));
    drop(db);
    let db = Database::open(&disk).unwrap();
    assert_eq!(db.get(table, 1).unwrap().unwrap().fields[&1], Value::Int64(10));
    assert_eq!(db.get(table, 2).unwrap().unwrap().fields[&1], Value::Int64(20));
}

#[test]
fn an_incomplete_log_tail_is_cut_off() {
    let disk = disk();
    let mut db = Database::open(&disk).unwrap();
    let table = db.create_table("items", schema()).unwrap();
    db.create(table, 1, fields(1)).unwrap();
    drop(db);
    let whole = disk.borrow().wal[&0].clone();
    for cut in [1, 9, 40] {
        let log = whole[..whole.len() - cut].to_vec();
        disk.borrow_mut().wal.insert(0, log);
        let db = Database::open(&disk).unwrap();
        assert_eq!(db.sequence(), 1);
        assert!(db.get(table, 1).unwrap().is_none());
    }
}

#[test]
fn an_installed_checkpoint_reads_as_before_with_what_was_written_meanwhile() {
    let disk = disk();
    let mut db = Database::open(&disk).unwrap();
    let table = db.create_table("items", schema()).unwrap();
    for id in 0..6 {
        db.create(table, id, fields(id as i64)).unwrap();
        db.apply(table, id, fields(10 + id as i64)).unwrap();
    }
    db.checkpoint().unwrap();
    db.apply(table, 1, fields(21)).unwrap();
    db.delete(table, 2).unwrap();
    db.retain_last(table, 3, 0).unwrap();
    db.write(|tx| tx.snapshot(table, 4)).unwrap();
    let reads = |db: &Database| {
        (0..9)
            .map(|id| {
                let versions: Vec<_> = (0..5)
                    .map(|v| format!("{:?}", db.get_at_version(table, id, v)))
                    .collect();
                let events = format!("{:?}", db.events(table, id));
                let range = format!("{:?}", db.retained_range(table, id));
                (format!("{:?}", db.get(table, id)), versions, events, range)
            })
            .collect::<Vec<_>>()
    };
    let mut before = Vec::new();
    let plan = full_plan(&db.engine.state.root.generations);
    db.build_while(plan, true, |db| {
        db.apply(table, 1, fields(31)).unwrap();
        db.apply(table, 5, fields(35)).unwrap();
        db.create(table, 6, fields(36)).unwrap();
        db.delete(table, 0).unwrap();
        before = reads(db);
    })
    .unwrap();
    assert_eq!(reads(&db), before);
    assert_eq!(db.get(table, 1).unwrap().unwrap().fields.get(&1), Some(&Value::Int64(31)));
    // Only what was written since the capture is in memory.
    assert_eq!(db.engine.state.overlay.len(), 4);
    drop(db);
    let db = Database::open(&disk).unwrap();
    assert_eq!(reads(&db), before);
}

#[test]
fn live_counts_are_the_entities_of_a_checkpoint() {
    let disk = disk();
    let mut db = Database::open_with(&disk, Config { live_ratio: 0.0, ..Config::default() }).unwrap();
    let table = db.create_table("items", schema()).unwrap();
    let count = |db: &Database| {
        let stats = db.generations();
        let live: u64 = stats.iter().map(|entry| entry.entities - entry.dead).sum();
        (live, stats.iter().map(|entry| (entry.entities, entry.dead)).collect::<Vec<_>>())
    };
    for id in 0..10 {
        db.create(table, id, fields(id as i64)).unwrap();
    }
    db.checkpoint().unwrap();
    let (live, shares) = count(&db);
    assert_eq!((live, shares.last()), (10, Some(&(10, 0))));
    // Three are touched, one of them deleted: copies of them are left behind.
    db.apply(table, 1, fields(7)).unwrap();
    db.apply(table, 2, fields(7)).unwrap();
    db.delete(table, 3).unwrap();
    db.create(table, 10, fields(10)).unwrap();
    db.checkpoint().unwrap();
    let (live, shares) = count(&db);
    assert_eq!(live, 11);
    assert_eq!(shares[shares.len() - 2..], [(10, 3), (4, 0)]);
    db.compact().unwrap();
    assert_eq!(count(&db), (11, vec![(11, 0)]));
}

#[test]
fn reads_from_stored_snapshots_are_those_of_replay_after_every_checkpoint() {
    let disk = disk();
    let mut config = Config::default();
    config.options.snapshot_interval = 3;
    let mut db = Database::open_with(&disk, config).unwrap();
    let table = db.create_table("items", schema()).unwrap();
    db.create(table, 1, fields(0)).unwrap();
    db.create(table, 2, fields(0)).unwrap();
    let alike = |db: &Database, id: u64, last: u64| {
        for version in 0..=last {
            let read = db.get_at_version(table, id, version).unwrap();
            assert_eq!(read.version, version);
            assert_eq!(read.fields[&1], Value::Int64(version as i64));
            assert_eq!(db.replay_to_version(table, id, version).unwrap().fields, read.fields);
        }
    };
    let grow = |db: &mut Database, id: u64, from: i64, to: i64| {
        db.write(|tx| {
            for value in from..=to {
                tx.apply(table, id, fields(value))?;
            }
            Ok(())
        })
        .unwrap()
    };
    // Written, then kept with their bucket, linked to, and written anew.
    grow(&mut db, 1, 1, 20);
    grow(&mut db, 2, 1, 7);
    db.checkpoint().unwrap();
    let sequences = db.engine.state.root.history_generations.clone();
    alike(&db, 1, 20);
    db.checkpoint().unwrap();
    alike(&db, 1, 20);
    alike(&db, 2, 7);
    grow(&mut db, 1, 21, 30);
    db.checkpoint().unwrap();
    alike(&db, 1, 30);
    alike(&db, 2, 7);
    let now = db.engine.state.root.history_generations.clone();
    for (generation, lsn) in sequences.items() {
        assert_eq!(now.get(generation), Some(lsn));
    }
    let generation = db.engine.state.root.generation;
    assert_eq!(now.get(&generation), Some(&db.engine.state.root.lsn));
    drop(db);
    let mut db = Database::open_with(&disk, config).unwrap();
    alike(&db, 1, 30);
    db.compact().unwrap();
    alike(&db, 1, 30);
    alike(&db, 2, 7);
    drop(db);
    let db = Database::open(&disk).unwrap();
    alike(&db, 1, 30);
    alike(&db, 2, 7);
}

#[test]
fn a_manifest_reads_back_and_lists_its_files_as_they_are() {
    let disk = disk();
    let mut db = Database::open_with(&disk, Config { live_ratio: 0.0, ..Config::default() }).unwrap();
    let (a, b) = (
        db.create_table("a", schema()).unwrap(),
        db.create_table("b", schema()).unwrap(),
    );
    let mut known: BTreeMap<Name, (u64, u32)> = BTreeMap::new();
    for round in 0..4 {
        for id in 0..5 {
            if round == 0 {
                db.create(a, id, fields(0)).unwrap();
                db.create(b, id + 2000, fields(0)).unwrap();
            } else if id < round {
                db.apply(a, id, fields(round as i64)).unwrap();
            }
        }
        db.checkpoint().unwrap();
        let root = &db.engine.state.root;
        let bytes = root.encode();
        assert_eq!(Root::decode(&bytes).unwrap().encode(), bytes);
        let store = disk.borrow();
        for info in &root.files {
            let name = name(info.id());
            let stored = &store.files[&name];
            assert_eq!((info.size, info.crc), (stored.len() as u64, crc32c(stored)));
            // A file that stays is listed as it was.
            let told = known.entry(name).or_insert((info.size, info.crc));
            assert_eq!(*told, (info.size, info.crc));
        }
    }
}

#[test]
fn files_that_nothing_leads_to_are_no_longer_listed() {
    let disk = disk();
    let mut db = Database::open_with(&disk, Config { live_ratio: 0.0, ..Config::default() }).unwrap();
    let table = db.create_table("items", schema()).unwrap();
    db.create(table, 1, fields(0)).unwrap();
    for value in 1..=5 {
        db.apply(table, 1, fields(value)).unwrap();
    }
    db.checkpoint().unwrap();
    let first = db.engine.state.root.generation;
    let history = |db: &Database| {
        let root = &db.engine.state.root;
        (
            root.files.iter().any(|info| info.generation == first && info.kind == 6),
            root.history_generations.contains_key(&first),
        )
    };
    db.apply(table, 1, fields(6)).unwrap();
    db.checkpoint().unwrap();
    assert_eq!(history(&db), (true, true));
    assert_eq!(db.events(table, 1).unwrap().len(), 6);
    // Without the early events nothing leads into the first generation's history.
    db.retain_last(table, 1, 1).unwrap();
    db.checkpoint().unwrap();
    assert_eq!(history(&db), (false, false));
    assert_eq!(db.get_at_version(table, 1, 6).unwrap().fields[&1], Value::Int64(6));
}

#[test]
fn every_retained_version_reads_and_retention_keeps_the_last_events() {
    let disk = disk();
    let mut db = Database::open(&disk).unwrap();
    let table = db.create_table("items", schema()).unwrap();
    db.create(table, 1, fields(0)).unwrap();
    for value in 1..=6 {
        db.apply(table, 1, fields(value)).unwrap();
        if value == 3 {
            db.write(|tx| tx.snapshot(table, 1)).unwrap();
            db.checkpoint().unwrap();
        }
    }
    let versions = |db: &Database| {
        db.events(table, 1).unwrap().iter().map(|event| event.version).collect::<Vec<_>>()
    };
    assert_eq!(versions(&db), [1, 2, 3, 4, 5, 6]);
    for (count, first) in [(9, 0), (5, 1), (2, 4), (0, 6)] {
        db.retain_last(table, 1, count).unwrap();
        assert_eq!(db.retained_range(table, 1).unwrap(), (first, 6));
        assert_eq!(versions(&db), (first + 1..=6).collect::<Vec<_>>());
        for version in 0..=7 {
            let read = db.get_at_version(table, 1, version);
            if (first..=6).contains(&version) {
                let entity = read.unwrap();
                assert_eq!(entity.version, version);
                assert_eq!(entity.fields.get(&1), Some(&Value::Int64(version as i64)));
                assert_eq!(db.replay_to_version(table, 1, version).unwrap().version, version);
            } else {
                assert!(matches!(
                    read,
                    Err(Error::VersionUnavailable { requested, first: low, last: 6 })
                        if requested == version && low == first
                ));
            }
        }
    }
}

#[test]
fn cancellation_is_asked_for_between_records() {
    let disk = byte_baseline(8, 5);
    let db = Shared::open(&disk);
    let reserve = |max_events: usize, cancel: Option<usize>| {
        let options = HistoryOptions { max_events, ..HistoryOptions::default() };
        let mut cursor = db.history(1, 1, options).unwrap();
        let mut resources = Resources::new(Limits::default());
        let view = cursor.snapshot.as_ref().unwrap().view.clone();
        let read = with_parts(&disk, &mut Loaded::new(), |loaded| {
            cursor.cursor.reserve_batch_unless(&view, loaded, &mut resources, cancel)
        });
        let ended = cursor.cursor.finished();
        read.map(|batch| (batch.map(|batch| batch.len()), ended))
    };
    // A batch of three asks once before it starts and once before each record.
    assert_eq!(reserve(3, None).unwrap(), (Some(3), false));
    for cancel in 0..=3 {
        assert!(matches!(reserve(3, Some(cancel)), Err(Error::Cancelled)));
    }
    assert_eq!(reserve(3, Some(4)).unwrap(), (Some(3), false));
    // The end of the history is looked for once more.
    assert!(matches!(reserve(9, Some(6)), Err(Error::Cancelled)));
    assert_eq!(reserve(9, Some(7)).unwrap(), (Some(5), true));

    let mut cursor = db.history(1, 1, HistoryOptions::default()).unwrap();
    let view = cursor.snapshot.as_ref().unwrap().view.clone();
    let resources = Resources::new(Limits::default());
    for (cancel, whole) in [(Some(0), false), (Some(6), false), (Some(7), true), (None, true)] {
        let events = with_parts(&disk, &mut Loaded::new(), |loaded| {
            cursor.cursor.collect_unless(&view, loaded, &resources, cancel)
        });
        assert_eq!(events.is_ok(), whole);
        assert!(matches!(events, Ok(_) | Err(Error::Cancelled)));
    }
    // A token that another reader cancels stops a batch that is under way.
    let asked = std::cell::Cell::new(0);
    let mut resources = Resources::new(Limits::default());
    let mut loaded = Loaded::new();
    let token = CancellationToken::default();
    let read = with_parts(&disk, &mut loaded, |loaded| {
        let check = |number: usize| {
            asked.set(number);
            if number == 2 {
                token.cancel();
            }
            token.check()
        };
        cursor.cursor.reserve_batch(&view, loaded, &mut resources, &check)
    });
    assert!(matches!(read, Err(Error::Cancelled)));
    assert_eq!(asked.get(), 2);
    assert!(cursor.cursor.finished());
}

#[test]
fn collected_history_holds_the_range_within_the_result_limits() {
    let disk = byte_baseline(8, 5);
    let db = Shared::open(&disk);
    let options = HistoryOptions { first_version: Some(2), ..HistoryOptions::default() };
    let cursor = db.history(1, 1, options).unwrap();
    let collect = |cursor: &Cursor, limits: Limits| {
        let resources = Resources::new(limits);
        let (from, view) = (&cursor.cursor, &cursor.snapshot.as_ref().unwrap().view);
        let events = with_parts(&disk, &mut Loaded::new(), |loaded| {
            from.collect(view, loaded, &resources)
        });
        assert_eq!(resources.usage().read_memory_bytes, 0);
        events.map(|events| events.iter().map(|event| event.version).collect::<Vec<_>>())
    };
    assert_eq!(collect(&cursor, Limits::default()).unwrap(), [2, 3, 4, 5]);
    let mut limits = Limits::default();
    limits.max_read_result_bytes = 1;
    assert!(matches!(
        collect(&cursor, limits),
        Err(Error::LimitExceeded { resource: "read result bytes", limit: 1 })
    ));
    let mut limits = Limits::default();
    limits.max_history_batch_bytes = 1;
    assert!(matches!(
        collect(&cursor, limits),
        Err(Error::LimitExceeded { resource: "history batch bytes", limit: 1 })
    ));
    let mut limits = Limits::default();
    limits.max_read_memory_bytes = 1;
    assert!(matches!(
        collect(&cursor, limits),
        Err(Error::LimitExceeded { resource: "decoded read bytes", limit: 1 })
    ));
    cursor.cursor.cancel();
    assert!(matches!(collect(&cursor, Limits::default()), Err(Error::Cancelled)));
}

#[test]
fn the_newest_checkpoint_with_intact_files_is_chosen() {
    let disk = disk();
    let mut db = Database::open(&disk).unwrap();
    let table = db.create_table("items", byte_schema()).unwrap();
    db.create(table, 1, byte_fields(8, 1)).unwrap();
    db.checkpoint().unwrap();
    let root = db.engine.state.root.clone();
    let digests: Vec<(u64, u32)> = root
        .file_ids()
        .into_iter()
        .map(|id| {
            let store = disk.borrow();
            let bytes = &store.files[&name(id)];
            (bytes.len() as u64, crc32c(bytes))
        })
        .collect();
    assert!(!digests.is_empty());
    let mut damaged = digests.clone();
    damaged[0].1 ^= 1;
    let roots = vec![root.clone(), root];
    assert_eq!(select_root(&roots, &vec![digests.clone()]), Some(0));
    assert_eq!(select_root(&roots, &vec![damaged.clone(), digests]), Some(1));
    assert_eq!(select_root(&roots, &vec![damaged]), None);
}

#[test]
fn segments_between_the_checkpoint_and_the_active_one_are_replayed() {
    assert!(!replays_segment(2, 3, 5));
    assert!(replays_segment(3, 3, 5));
    assert!(replays_segment(5, 3, 5));
    assert!(!replays_segment(6, 3, 5));
    let mut log = Vec::new();
    log.extend(frame::encode(2, 9, b"x").unwrap());
    let (frames, end) = read_log(&log).unwrap();
    assert_eq!(end, log.len());
    let segments = vec![(1, frames), (2, Vec::new())];
    assert_eq!(active_segment(&segments), Some(1));
    assert_eq!(active_segment(&vec![(1, Vec::new())]), None);
}

#[test]
fn replaying_stops_at_a_gap_and_keeps_what_came_before() {
    let disk = disk();
    let mut db = Database::open(&disk).unwrap();
    let table = db.create_table("items", byte_schema()).unwrap();
    db.create(table, 1, byte_fields(8, 1)).unwrap();
    drop(db);
    let number = *disk.borrow().wal.keys().next_back().unwrap();
    let whole = disk.borrow().wal[&number].clone();
    let (frames, _) = read_log(&whole).unwrap();
    let last = frames.last().unwrap();
    let skipped = frame::encode(2, last.lsn + 2, &last.payload).unwrap();
    disk.borrow_mut().wal.get_mut(&number).unwrap().extend(skipped);
    assert!(matches!(Database::open(&disk), Err(Error::Corrupt(_))));
    *disk.borrow_mut().wal.get_mut(&number).unwrap() = whole;
    let db = Database::open(&disk).unwrap();
    assert_eq!(db.sequence(), 2);
    assert_eq!(db.get(table, 1).unwrap().unwrap().fields, byte_fields(8, 1));
}

#[test]
fn frames_read_ahead_are_read_without_a_request() {
    let file = FileId { table: 1, generation: 1, kind: 6, segment: 0 };
    let mut bytes = vec![0; 5];
    let mut places = Vec::new();
    for n in 0..3u8 {
        places.push(bytes.len() as u64);
        bytes.extend(frame::encode(3, 9, &vec![n; n as usize * 10]).unwrap());
    }
    bytes.extend(frame::encode(3, 9, b"cut off").unwrap());
    bytes.truncate(bytes.len() - 1);
    let mut loaded = Loaded::new();
    loaded.measure(file, bytes.len() as u64);
    assert!(matches!(
        frame::read_at(&loaded, file, places[0]),
        Err(Error::Unread { offset: 5, length: 32, .. })
    ));
    frame::read_ahead(&mut loaded, file, 5, &bytes[5..]);
    for (n, place) in places.into_iter().enumerate() {
        let record = frame::read_at(&loaded, file, place).unwrap().unwrap();
        assert_eq!(record.payload, vec![n as u8; n * 10]);
    }
}

#[test]
fn generated_history_retention_and_checkpoint_sequences_match_a_version_model() {
    let disk = disk();
    let mut config = Config::default();
    config.options.snapshot_interval = 5;
    config.options.history_segment_bytes = 4096;
    config.options.max_generations = 3;
    let fields = |byte: u8, size: usize| byte_fields(size, byte);
    let mut db = Database::open_with(&disk, config).unwrap();
    let table = db.create_table("items", byte_schema()).unwrap();
    db.create(table, 1, fields(0, 17)).unwrap();
    let mut versions = vec![fields(0, 17)];
    let mut base = 0usize;
    let mut random = 891723u64;
    for step in 0..240 {
        random = random
            .wrapping_mul(6364136223846793005)
            .wrapping_add(1442695040888963407);
        match (random >> 32) % 8 {
            0..=3 => {
                let next = fields(versions.len() as u8, if step % 13 == 0 { 8192 } else { 17 });
                db.apply(table, 1, next.clone()).unwrap();
                versions.push(next);
            }
            4 => {
                let keep = (random >> 16) as usize % 10;
                db.retain_last(table, 1, keep as u64).unwrap();
                base = base.max((versions.len() - 1).saturating_sub(keep));
            }
            5 => db.write(|tx| tx.snapshot(table, 1)).unwrap(),
            6 => db.checkpoint().unwrap(),
            _ => {
                db.compact().unwrap();
                drop(db);
                db = Database::open_with(&disk, config).unwrap();
            }
        }
        let last = versions.len() - 1;
        assert_eq!(
            db.retained_range(table, 1).unwrap(),
            (base as u64, last as u64),
            "step {step}"
        );
        let target = base + random as usize % (last - base + 1);
        assert_eq!(
            db.get_at_version(table, 1, target as u64).unwrap().fields,
            versions[target],
            "step {step}, version {target}"
        );
        assert_eq!(
            db.replay_to_version(table, 1, target as u64).unwrap().fields,
            versions[target],
            "step {step}, version {target}"
        );
        assert_eq!(db.replay(table, 1).unwrap().fields, versions[last]);
        let events = db.events(table, 1).unwrap();
        assert_eq!(events.len(), last - base);
        for event in events {
            assert_eq!(event.fields, versions[event.version as usize]);
        }
    }
}

#[test]
fn history_file_budget_fails_before_publication_and_compaction_restores_progress() {
    let disk = disk();
    let mut config = Config::default();
    config.options.snapshot_interval = 0;
    config.options.limits.max_history_files = 3;
    let mut db = Database::open_with(&disk, config).unwrap();
    let table = db.create_table("items", byte_schema()).unwrap();
    db.create(table, 1, byte_fields(16, 0)).unwrap();
    db.apply(table, 1, byte_fields(128, 1)).unwrap();
    db.checkpoint().unwrap();
    db.apply(table, 1, byte_fields(128, 2)).unwrap();
    db.checkpoint().unwrap();
    db.apply(table, 1, byte_fields(128, 3)).unwrap();
    let generation = db.engine.state.root.generation;
    assert!(matches!(
        db.checkpoint(),
        Err(Error::LimitExceeded { resource: "history files", .. })
    ));
    assert_eq!(db.engine.state.root.generation, generation);
    let acknowledged = db.sequence();
    drop(db);
    let mut db = Database::open_with(&disk, config).unwrap();
    assert_eq!(db.sequence(), acknowledged);
    assert_eq!(db.events(table, 1).unwrap().len(), 3);
    db.compact().unwrap();
    db.checkpoint().unwrap();
    assert_eq!(db.replay(table, 1).unwrap().fields, byte_fields(128, 3));
}

#[test]
fn retention_reclaims_unreferenced_segments_only_after_pinned_views_release_them() {
    let disk = disk();
    let mut config = Config::default();
    config.options.snapshot_interval = 0;
    let mut db = Database::open_with(&disk, config).unwrap();
    let table = db.create_table("items", byte_schema()).unwrap();
    db.create(table, 1, byte_fields(16, 0)).unwrap();
    for value in 1..=10 {
        db.apply(table, 1, byte_fields(128, value)).unwrap();
    }
    db.checkpoint().unwrap();
    let old_files: Vec<Name> = disk
        .borrow()
        .files
        .iter()
        .filter(|(file, bytes)| file.2 == 6 && !bytes.is_empty())
        .map(|(file, _)| *file)
        .collect();
    let pinned = db.pin();
    db.pins.push(Arc::downgrade(&pinned));
    db.retain_last(table, 1, 0).unwrap();
    db.checkpoint().unwrap();
    db.checkpoint().unwrap();
    assert!(db.events(table, 1).unwrap().is_empty());
    assert_eq!(db.retained_range(table, 1).unwrap(), (10, 10));
    let events = with_parts(&disk, &mut Loaded::new(), |loaded| pinned.events(loaded, table, 1));
    assert_eq!(events.unwrap().len(), 10);
    assert!(!old_files.is_empty());
    assert!(old_files.iter().all(|file| disk.borrow().files.contains_key(file)));
    drop(pinned);
    db.checkpoint().unwrap();
    assert!(old_files.iter().all(|file| !disk.borrow().files.contains_key(file)));
}

#[test]
fn checkpoints_reuse_old_history_payloads_after_current_generations_are_collected() {
    let disk = disk();
    let mut config = Config::default();
    config.options.snapshot_interval = 0;
    config.options.compress_history = false;
    config.options.max_generations = 2;
    let mut db = Database::open_with(&disk, config).unwrap();
    let table = db.create_table("items", byte_schema()).unwrap();
    db.create(table, 1, byte_fields(16, 0)).unwrap();
    db.write(|tx| {
        for value in 1..=50 {
            tx.apply(table, 1, byte_fields(8192, value))?;
        }
        Ok(())
    })
    .unwrap();
    db.checkpoint().unwrap();
    let first = db.engine.state.root.generation;
    let history: Vec<(Name, usize)> = disk
        .borrow()
        .files
        .iter()
        .filter(|(file, bytes)| file.2 == 6 && !bytes.is_empty())
        .map(|(file, bytes)| (*file, bytes.len()))
        .collect();
    for value in 51..=55 {
        db.apply(table, 1, byte_fields(16, value)).unwrap();
        db.checkpoint().unwrap();
        let generation = db.engine.state.root.generation;
        let new_bytes: usize = disk
            .borrow()
            .files
            .iter()
            .filter(|(file, _)| file.2 == 6 && file.1 == generation)
            .map(|(_, bytes)| bytes.len())
            .sum();
        assert!(new_bytes < 256, "one small new event must not rewrite old payloads");
    }
    let root = db.engine.state.root.clone();
    assert!(!root.generations.iter().any(|entry| entry.generation == first));
    let listed: Vec<Name> = root.file_ids().into_iter().map(name).collect();
    for (file, bytes) in history {
        assert_eq!(disk.borrow().files[&file].len(), bytes);
        assert!(listed.contains(&file));
    }
    drop(db);
    let db = Database::open(&disk).unwrap();
    assert_eq!(db.events(table, 1).unwrap().len(), 55);
    assert_eq!(db.get_at_version(table, 1, 25).unwrap().fields, byte_fields(8192, 25));
}

#[test]
fn a_staged_writer_survives_compaction_without_pinning_obsolete_history_after_commit() {
    let disk = disk();
    let mut config = Config::default();
    config.options.snapshot_interval = 0;
    let db = Shared::open_with(&disk, config);
    let table = db.0.borrow_mut().create_table("items", byte_schema()).unwrap();
    db.create(table, 1, byte_fields(16, 0)).unwrap();
    for value in 1..=10 {
        db.apply(table, 1, byte_fields(128, value)).unwrap();
    }
    db.checkpoint().unwrap();
    let mut writer = db.transaction().unwrap();
    writer.snapshot(table, 1).unwrap();
    writer.apply(table, 1, byte_fields(16, 11)).unwrap();
    db.compact().unwrap();
    db.compact().unwrap();
    writer.commit().unwrap();
    let pinned = db.read_snapshot().unwrap();
    db.checkpoint().unwrap();
    db.compact().unwrap();
    db.checkpoint().unwrap();
    let view = pinned.view.clone();
    let mut loaded = Loaded::new();
    let events = with_parts(&disk, &mut loaded, |loaded| view.events(loaded, table, 1));
    assert_eq!(events.unwrap().len(), 11);
    let fifth = with_parts(&disk, &mut loaded, |loaded| view.get_at_version(loaded, table, 1, 5));
    assert_eq!(fifth.unwrap().fields, byte_fields(128, 5));
    let replayed = with_parts(&disk, &mut loaded, |loaded| view.replay(loaded, table, 1));
    assert_eq!(replayed.unwrap().fields, byte_fields(16, 11));
    drop(view);
    drop(pinned);
    drop(db);
    let db = Database::open(&disk).unwrap();
    assert_eq!(db.events(table, 1).unwrap().len(), 11);
}

#[test]
fn automatic_checkpoint_rebinds_local_history_and_keeps_budget_ownership() {
    let disk = disk();
    let mut config = Config::default();
    config.options.checkpoint_bytes = 4096;
    config.options.snapshot_interval = 0;
    config.options.compress_history = false;
    let mut db = Database::open_with(&disk, config).unwrap();
    let table = db.create_table("items", byte_schema()).unwrap();
    db.create(table, 1, byte_fields(16, 0)).unwrap();
    for value in 1..=25 {
        db.apply(table, 1, byte_fields(4096, value)).unwrap();
    }
    assert!(db.engine.state.root.generations.last().unwrap().generation > 1);
    assert_eq!(db.events(table, 1).unwrap().len(), 25);
    assert_eq!(db.replay(table, 1).unwrap().fields, byte_fields(4096, 25));
    let data = db.engine.state.overlay.get(&(table, 1)).unwrap().clone();
    assert_eq!(
        data.disk.as_ref().unwrap().root.generation,
        db.engine.state.root.generation
    );
    assert!(data.committed.items().len() <= 2);
    db.checkpoint().unwrap();
    assert_eq!(db.usage().resident_write_bytes, 0);
}

#[test]
fn active_transaction_and_pin_permits_are_released_on_all_paths() {
    let disk = disk();
    let db = Shared::open(&disk);
    db.create_table("items", schema()).unwrap();
    db.checkpoint().unwrap();
    drop(db);
    let mut config = Config::default();
    config.options.limits.max_transactions = 1;
    config.options.limits.max_snapshots = 2;
    let db = Shared::open_with(&disk, config);
    let tx = db.transaction().unwrap();
    assert_eq!(tx.pin.view.lsn, 1);
    assert!(matches!(
        db.transaction(),
        Err(Error::LimitExceeded { resource: "active transactions", .. })
    ));
    assert_eq!(db.usage().transactions, 1);
    assert_eq!(db.usage().snapshots, 1);
    let pin = Rc::new(db.read_snapshot().unwrap());
    let clone = pin.clone();
    assert!(matches!(
        db.read_snapshot(),
        Err(Error::LimitExceeded { resource: "active snapshots", .. })
    ));
    drop(tx);
    drop(pin);
    assert_eq!(db.usage().snapshots, 1);
    drop(clone);
    assert_eq!(db.usage().snapshots, 0);
    assert_eq!(db.usage().resident_write_bytes, 0);
    db.transaction().unwrap().commit().unwrap();
    assert_eq!(db.usage().transactions, 0);
}

#[test]
fn automatic_checkpoints_prune_revisions_but_preserve_live_writer_conflicts() {
    let disk = disk();
    let mut config = Config::default();
    config.options.checkpoint_bytes = 4096;
    config.options.snapshot_interval = 0;
    let db = Shared::open_with(&disk, config);
    let value = |value: u64| Fields::from([(1, Value::UInt64(value))]);
    let table = db
        .create_table(
            "items",
            Schema::new(vec![Field {
                id: 1,
                name: "value".into(),
                data_type: DataType::UInt64,
                nullable: false,
            }])
            .unwrap(),
        )
        .unwrap();
    db.create(table, 1, value(1)).unwrap();
    let mut stale = db.transaction().unwrap();
    stale.apply(table, 1, value(99)).unwrap();
    db.apply(table, 1, value(2)).unwrap();
    for id in 2..180 {
        db.create(table, id, value(id)).unwrap();
    }
    assert!(db.0.borrow().engine.state.root.generation > 0);
    assert!(matches!(stale.commit(), Err(Error::Conflict { .. })));
    for id in 180..360 {
        db.create(table, id, value(id)).unwrap();
    }
    assert!(
        db.0.borrow().revisions.entities.items().len() < 100,
        "automatic checkpoints must release unneeded conflict revisions"
    );
    assert_eq!(db.get(table, 1).unwrap().unwrap().fields, value(2));
}

#[test]
fn streaming_detects_missing_versions_and_stops_cooperatively_between_records() {
    let disk = disk();
    let db = Shared::open(&disk);
    let table = db.create_table("items", byte_schema()).unwrap();
    db.create(table, 1, byte_fields(8, 0)).unwrap();
    for i in 1..=4 {
        db.apply(table, 1, byte_fields(8, i)).unwrap();
    }
    let mut damaged = (**db.0.borrow().engine.state.overlay.get(&(table, 1)).unwrap()).clone();
    damaged.committed.remove(&2);
    let healthy = db.0.borrow().engine.state.clone();
    db.0.borrow_mut().engine.state.overlay.insert((table, 1), Arc::new(damaged));
    let mut cursor = db.history(table, 1, HistoryOptions::default()).unwrap();
    assert!(matches!(cursor.next_batch(), Err(Error::Corrupt(_))));
    assert_eq!(db.usage().read_memory_bytes, 0);
    assert_eq!(db.usage().snapshots, 0);
    assert!(cursor.next_batch().unwrap().is_none());
    db.0.borrow_mut().engine.state = healthy;
    db.checkpoint().unwrap();
    let disk = db.0.borrow().disk.clone();
    let root = db.0.borrow().engine.state.root.clone();
    let mut walk = EventWalk::new(Some(&root), table, 1, 1, 4, Vec::new());
    let room = Room { scratch_used: 0, max_scratch: usize::MAX, max_record: usize::MAX };
    let mut checks = 0;
    let mut events = Vec::new();
    let mut loaded = Loaded::new();
    let result = loop {
        checks += 1;
        if let Err(error) = check_cancelled(checks == 2) {
            break Err(error);
        }
        let next = with_parts(&disk, &mut loaded, |loaded| walk.next(loaded, &room).transpose());
        match next {
            Ok(Some(event)) => events.push(event),
            Ok(None) => break Ok(()),
            Err(error) => break Err(error),
        }
    };
    assert!(matches!(result, Err(Error::Cancelled)));
    assert_eq!(events.len(), 1);
    let mut cursor = db.history(table, 1, HistoryOptions { max_events: 1, ..HistoryOptions::default() }).unwrap();
    let batch = cursor.next_batch().unwrap().unwrap();
    assert_eq!(batch.iter(), &events[..]);
    assert!(db.usage().read_memory_bytes > 0);
    drop(batch);
    assert_eq!(db.usage().read_memory_bytes, 0);
    assert_eq!(db.usage().scratch_bytes, 0);
}

#[test]
fn writes_load_only_current_and_base_and_share_committed_event_payloads() {
    let disk = disk();
    let config = Config {
        options: Options {
            snapshot_interval: 0,
            compress_history: false,
            checkpoint_bytes: 64 * 1024 * 1024,
            ..Options::default()
        },
        ..Config::default()
    };
    let mut db = Database::open_with(&disk, config).unwrap();
    let table = db.create_table("items", byte_schema()).unwrap();
    db.create(table, 1, byte_fields(32, 0)).unwrap();
    db.write(|tx| {
        for value in 1..=100 {
            tx.apply(table, 1, byte_fields(8192, value))?;
        }
        Ok(())
    })
    .unwrap();
    db.checkpoint().unwrap();
    drop(db);
    disk.borrow().visited.borrow_mut().clear();
    let mut db = Database::open_with(&disk, config).unwrap();
    assert_eq!(disk.borrow().visited.borrow().len(), 0);
    let mut tx = db.transaction().unwrap();
    tx.apply(table, 1, byte_fields(16, 101)).unwrap();
    {
        let staging = tx.staging.as_ref().unwrap();
        let data = staging.staged.get(&(table, 1)).unwrap();
        assert!(data.disk.is_some());
        assert_eq!(data.committed.items().len(), 0);
        assert_eq!(data.events.len(), 1);
    }
    tx.commit().unwrap();
    assert_eq!(
        disk.borrow().visited.borrow().len(),
        3,
        "only primary, current and base files should be read"
    );
    let committed = |db: &Database, version: u64| {
        let data = db.engine.state.overlay.get(&(table, 1)).unwrap();
        data.committed.get(&version).unwrap().clone()
    };
    let payload = committed(&db, 101);
    for value in 102..=120 {
        db.apply(table, 1, byte_fields(16, value)).unwrap();
    }
    assert_eq!(payload, committed(&db, 101));
    assert!(db.engine.state.overlay.get(&(table, 1)).unwrap().events.is_empty());
    assert_eq!(db.events(table, 1).unwrap().len(), 120);
    assert_eq!(db.replay(table, 1).unwrap(), db.get(table, 1).unwrap().unwrap());
}

#[test]
fn manifests_with_parts_that_disagree_are_refused_with_the_first_reason() {
    let refused = |bytes: &[u8], text: &str| match Root::decode(bytes) {
        Err(Error::Corrupt(message)) => assert_eq!(message, text),
        _ => panic!("not refused"),
    };
    refused(&[0; 65], "invalid generation list");
    let mut bytes = Root::empty().encode();
    assert_eq!(Root::decode(&bytes).unwrap().encode(), bytes);
    bytes.push(0);
    refused(&bytes, "unexpected trailing bytes");
    // Two generations with one number: the list has its length behind the two numbers of the
    // manifest and the count of its tables.
    let one = Root::empty().encode();
    let mut two = one.clone();
    two[24] = 2;
    let entry = two[32..48].to_vec();
    two.splice(48..48, entry);
    refused(&two, "unordered generation list");
    for end in 0..one.len() {
        assert!(Root::decode(&one[..end]).is_err());
    }
}

#[test]
fn a_group_has_room_while_the_overlays_can_count_its_entities() {
    let disk = disk();
    let mut db = Database::open(&disk).unwrap();
    let table = db.create_table("items", schema()).unwrap();
    let mut batches = Vec::new();
    for id in 1..=3 {
        let mut staging = Staging::new(db.pin(), false, &mut db.resources).unwrap();
        db.run(&mut staging, Operation::Create(table, id, fields(1))).unwrap();
        batches.push(staging.prepare(None));
    }
    let group = Group::new(batches);
    assert!(db.engine.has_room_for(&group));
}

#[test]
fn batches_and_results_count_the_sizes_that_events_are_charged() {
    let db = Shared::open(&byte_baseline(8, 4));
    let events = db.events(1, 1).unwrap();
    let sizes = vec![10, 20, 30, 40];
    let bounds = |max_bytes| Bounds { last: 4, max_events: 10, max_bytes, slot_bytes: 8 };
    let (batch, next) = take_batch(&bounds(46), 1, &events, &sizes, 0, &Stop::Done).unwrap();
    assert_eq!((batch.len(), next), (2, Some(3)));
    assert_eq!(batch.iter(), &events[..2]);
    let (batch, next) = take_batch(&bounds(1000), 3, &events, &sizes, 2, &Stop::Done).unwrap();
    assert_eq!((batch.len(), next), (2, None));
    assert!(matches!(
        take_batch(&bounds(17), 1, &events, &sizes, 0, &Stop::Done),
        Err(Error::LimitExceeded { resource: "history batch bytes", limit: 17 })
    ));
    // What is damaged behind a full batch does not fail it.
    assert!(take_batch(&bounds(46), 1, &events, &sizes, 0, &Stop::Damaged).is_ok());
    assert!(matches!(
        take_batch(&bounds(1000), 1, &events, &sizes, 0, &Stop::Damaged),
        Err(Error::Corrupt(_))
    ));
    let mut limits = Limits::default();
    let collect = |limits: &Limits| {
        collect_sized(&bounds(1000), Some(1), &events, &sizes, &Stop::Done, limits, 0)
    };
    assert_eq!(collect(&limits).unwrap(), events);
    limits.max_read_result_bytes = 100;
    assert!(matches!(
        collect(&limits),
        Err(Error::LimitExceeded { resource: "read result bytes", limit: 100 })
    ));
}

#[test]
fn operations_are_refused_by_the_decoded_bytes_that_they_are_charged() {
    let disk = disk();
    let mut db = Database::open(&disk).unwrap();
    let table = db.create_table("items", schema()).unwrap();
    let mut limits = Limits::default();
    limits.max_transaction_decoded_bytes = 100;
    let mut resources = Resources::new(limits);
    let mut staging = Staging::new(db.pin(), false, &mut resources).unwrap();
    let loaded = Loaded::new();
    let create = Operation::Create(table, 1, fields(1));
    assert!(matches!(
        staging.write_charged(&loaded, &mut resources, &create, 101, false),
        Err(Error::LimitExceeded { resource: "transaction decoded bytes", limit: 100 })
    ));
    let mut staging = Staging::new(db.pin(), false, &mut resources).unwrap();
    staging.write_charged(&loaded, &mut resources, &create, 100, false).unwrap();
    assert_eq!(staging.reservation.decoded_bytes, 100);
    assert!(staging.staged.get(&(table, 1)).is_some());
}
