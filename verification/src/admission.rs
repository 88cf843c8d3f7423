//! Admission of decoded writes: what a transaction keeps in memory is charged for before it is
//! staged.

use crate::codec::MAX_RECORD;
use crate::entity::DataV;
use crate::error::invalid;
use crate::error::Error;
use crate::error::Fault;
use crate::error::Result;
use crate::memory::entity_bytes;
use crate::memory::fields_bytes;
use crate::memory::charges;
use crate::memory::merged_sizes;
use crate::memory::plus;
use crate::memory::saturated;
use crate::memory::spare;
use crate::model::fields_view;
use crate::model::Entity;
use crate::model::EntityV;
use crate::model::Event;
use crate::model::Fields;
use crate::model::ValueV;
use crate::operation::key_of_op;
use crate::operation::ops_view;
use crate::operation::OpV;
use crate::operation::Operation;
use crate::overlay::Key;
use crate::record::enc_fields;
use crate::resources::charged;
use crate::resources::check;
use crate::resources::owed;
use crate::resources::refunded;
use crate::resources::Charge;
use crate::resources::ResourceUsage;
use crate::resources::Resources;
use crate::staging::executed;
use crate::staging::fetched;
use crate::staging::op_asks;
use crate::staging::op_bytes;
use crate::staging::refused;
use crate::staging::run_failed;
use crate::staging::Staging;
use crate::storage::pager::lacks;
use crate::storage::pager::Files;
use crate::storage::pager::Loaded;
use vstd::prelude::*;

verus! {

/// The fields that an operation carries.
pub open spec fn op_fields(op: OpV) -> Map<u32, ValueV> {
    match op {
        OpV::Create(_, _, fields) => fields,
        OpV::Apply(_, _, fields) => fields,
        _ => Map::empty(),
    }
}

/// Whether a number is charged for the copy of an entity that an operation makes: of the
/// current state, and of the retained base where the transaction has not touched the entity.
pub open spec fn copy_cost(d: Option<DataV>, own: bool, n: usize) -> bool {
    let slot = vstd::layout::size_of::<Entity>();
    match d {
        None => n == 0,
        Some(d) => if own {
            charges(d.current.fields, slot, n)
        } else {
            exists|a: usize, b: usize|
                #![trigger charges(d.base.fields, slot, a), charges(d.current.fields, slot, b)]
                charges(d.base.fields, slot, a) && charges(d.current.fields, slot, b) && n
                    == saturated((a + b) as nat)
        },
    }
}

/// Whether a number is charged for the states that an operation makes: the current one and the
/// base of a new entity, the next one of a changed entity, or a snapshot.
pub open spec fn made_cost(current: Option<EntityV>, op: OpV, n: usize) -> bool {
    let slot = vstd::layout::size_of::<Entity>();
    match op {
        OpV::Create(_, _, fields) => exists|a: usize| #[trigger]
            charges(fields, slot, a) && n == saturated((2 * a) as nat),
        OpV::Apply(_, _, fields) => charges(
            match current {
                None => fields,
                Some(c) => c.fields.union_prefer_right(fields),
            },
            slot,
            n,
        ),
        OpV::Snapshot(_, _) => match current {
            None => n == 0,
            Some(c) => charges(c.fields, slot, n),
        },
        _ => n == 0,
    }
}

/// Whether a number is charged for an operation: for itself, for the copy of the entity that it
/// changes, and for the states that it makes.
pub open spec fn op_cost(op: OpV, d: Option<DataV>, own: bool, n: usize) -> bool {
    exists|a: usize, b: usize, c: usize| #[trigger]
        parts_cost(op, d, own, a, b, c) && n == saturated((a + b + c) as nat)
}

/// Whether numbers are charged for the parts of an operation's cost.
pub open spec fn parts_cost(op: OpV, d: Option<DataV>, own: bool, a: usize, b: usize, c: usize) -> bool {
    &&& charges(op_fields(op), vstd::layout::size_of::<Event>(), a)
    &&& copy_cost(d, own, b)
    &&& made_cost(current_of(d), op, c)
}

/// The encoded length of the state that an operation leaves of an entity.
pub open spec fn state_length(current: Option<EntityV>, op: OpV) -> nat {
    match op {
        OpV::Create(_, _, fields) => 25 + enc_fields(fields).len(),
        OpV::Apply(_, _, fields) => match current {
            None => 25 + enc_fields(fields).len(),
            Some(c) => 25 + enc_fields(c.fields.union_prefer_right(fields)).len(),
        },
        _ => 0,
    }
}

/// The current state of an entity.
pub open spec fn current_of(d: Option<DataV>) -> Option<EntityV> {
    match d {
        None => None,
        Some(d) => Some(d.current),
    }
}

/// The entity that an operation finds, if it finds one.
pub open spec fn found(s: Staging, files: Files, key: Key) -> Option<DataV> {
    if s.writes().catalog.contains_key(key.0) {
        match fetched(s.base@, files, s.writes(), key) {
            Err(_) => None,
            Ok(d) => d,
        }
    } else {
        None
    }
}

/// Whether a number is what a transaction is charged for an operation. What is allocated beyond
/// what texts and bytes hold is the allocator's affair; where there are none the number is
/// fixed.
pub open spec fn costs(s: Staging, files: Files, op: OpV, n: usize) -> bool {
    match key_of_op(op) {
        None => n == vstd::layout::size_of::<Event>(),
        Some(key) => op_cost(op, found(s, files, key), s.staged@.contains_key(key), n),
    }
}

/// Whether the state that an operation leaves cannot be stored in a record.
pub open spec fn oversized(s: Staging, files: Files, op: OpV) -> bool {
    match key_of_op(op) {
        None => false,
        Some(key) => state_length(current_of(found(s, files, key)), op) > MAX_RECORD,
    }
}

/// What an operation is charged on top of a copied entity, and whether the state that it leaves
/// is too long.
fn weigh(operation: &Operation, current: Option<&Entity>, copied: usize) -> (r: (usize, bool))
    ensures
        exists|a: usize, c: usize|
            #![trigger charges(op_fields(operation@), vstd::layout::size_of::<Event>(), a), made_cost(entity_view(current), operation@, c)]
            charges(op_fields(operation@), vstd::layout::size_of::<Event>(), a) && made_cost(
                entity_view(current),
                operation@,
                c,
            ) && r.0 == saturated((a + copied + c) as nat),
        r.1 == (state_length(entity_view(current), operation@) > MAX_RECORD),
{
    let slot: usize = std::mem::size_of::<Event>();
    let (own, made, long) = match operation {
        Operation::Create(_, _, fields) => {
            let none: Fields = Fields::new();
            let (decoded, encoded) = merged_sizes(&none, fields);
            proof {
                assert(fields_view(none@) =~= Map::empty());
                assert(fields_view(none@).union_prefer_right(fields_view(fields@))
                    =~= fields_view(fields@));
            }
            (plus(slot, fields_bytes(fields)), plus(decoded, decoded), encoded > MAX_RECORD)
        },
        Operation::Apply(_, _, fields) => {
            let own: usize = plus(slot, fields_bytes(fields));
            match current {
                Some(current) => {
                    let (decoded, encoded) = merged_sizes(&current.fields, fields);
                    (own, decoded, encoded > MAX_RECORD)
                },
                None => {
                    let none: Fields = Fields::new();
                    let (decoded, encoded) = merged_sizes(&none, fields);
                    proof {
                        assert(fields_view(none@) =~= Map::empty());
                        assert(fields_view(none@).union_prefer_right(fields_view(fields@))
                            =~= fields_view(fields@));
                    }
                    (own, decoded, encoded > MAX_RECORD)
                },
            }
        },
        Operation::Snapshot(_, _) => {
            let state: usize = match current {
                Some(current) => entity_bytes(current),
                None => 0,
            };
            (slot, state, false)
        },
        _ => (slot, 0, false),
    };
    proof {
        lemma_no_fields(slot);
        assert(charges(op_fields(operation@), vstd::layout::size_of::<Event>(), own));
        assert(made_cost(entity_view(current), operation@, made));
    }
    (plus(copied, plus(own, made)), long)
}

/// Nothing is charged for no fields.
proof fn lemma_no_fields(slot: usize)
    ensures
        charges(Map::<u32, ValueV>::empty(), slot as nat, slot),
{
    let m = Map::<u32, ValueV>::empty();
    reveal(crate::key::increasing);
    reveal(crate::key::lists);
    crate::key::lemma_listing_is(Seq::<(u32, ValueV)>::empty(), m);
    assert(spare(m, 0));
}

/// What an optional entity stands for.
pub open spec fn entity_view(e: Option<&Entity>) -> Option<EntityV> {
    match e {
        None => None,
        Some(e) => Some(e@),
    }
}

fn subject(operation: &Operation) -> (key: Option<Key>)
    ensures
        key == key_of_op(operation@),
{
    match operation {
        Operation::Table(_) => None,
        Operation::Create(t, id, _) => Some((*t, *id)),
        Operation::Apply(t, id, _) => Some((*t, *id)),
        Operation::Delete(t, id) => Some((*t, *id)),
        Operation::Retain(t, id, _) => Some((*t, *id)),
        Operation::Snapshot(t, id) => Some((*t, *id)),
    }
}

/// Whether an error refuses what a transaction would keep in memory.
pub open spec fn decoded_refused(s: Staging, resources: Resources, bytes: usize, e: Error) -> bool {
    let limits = resources.limits;
    if s.reservation.decoded_bytes + bytes > limits.max_transaction_decoded_bytes {
        e == (Error::LimitExceeded {
            resource: "transaction decoded bytes",
            limit: limits.max_transaction_decoded_bytes,
        })
    } else {
        &&& resources.used().decoded_write_bytes + bytes > limits.max_resident_decoded_write_bytes
        &&& e == (Error::LimitExceeded {
            resource: "resident decoded write bytes",
            limit: limits.max_resident_decoded_write_bytes,
        })
    }
}

/// Whether a transaction may hold so many more decoded bytes. Recovery always may.
pub open spec fn decoded_fits(s: Staging, resources: Resources, bytes: usize) -> bool {
    s.recovery || (s.reservation.decoded_bytes + bytes
        <= resources.limits.max_transaction_decoded_bytes && resources.used().decoded_write_bytes
        + bytes <= resources.limits.max_resident_decoded_write_bytes)
}

impl Staging {
    /// What an operation takes in memory, and whether the state that it leaves is too long.
    fn decoded_cost(&self, loaded: &Loaded, operation: &Operation) -> (r: Result<(usize, bool)>)
        ensures
            match r {
                Ok((bytes, long)) => forall|files: Files| #[trigger]
                    loaded.agrees(files) ==> costs(*self, files, operation@, bytes) && long
                        == oversized(*self, files, operation@),
                Err(e) => e is Unread && key_of_op(operation@) is Some && (lacks(loaded, e)
                    || forall|files: Files| !(#[trigger] loaded.agrees(files))) && forall|
                    files: Files,
                | #[trigger]
                    loaded.agrees(files) ==> op_asks(
                        self.base@,
                        files,
                        self.writes(),
                        operation@,
                        e,
                    ),
            },
    {
        let key = match subject(operation) {
            None => {
                return Ok((std::mem::size_of::<Event>(), false));
            },
            Some(key) => key,
        };
        if !self.catalog.contains_key(&key.0) {
            let cost = weigh(operation, None, 0);
            proof {
                assert forall|files: Files| #[trigger] loaded.agrees(files) implies costs(
                    *self,
                    files,
                    operation@,
                    cost.0,
                ) by {
                    lemma_cost(operation@, None, self.staged@.contains_key(key), 0, cost.0);
                }
            }
            return Ok(cost);
        }
        match self.staged.get(&key) {
            Some(data) => {
                let copied: usize = entity_bytes(&data.current);
                let cost = weigh(operation, Some(&data.current), copied);
                proof {
                    assert forall|files: Files| #[trigger] loaded.agrees(files) implies costs(
                        *self,
                        files,
                        operation@,
                        cost.0,
                    ) by {
                        lemma_cost(operation@, Some(data@), true, copied, cost.0);
                    }
                }
                return Ok(cost);
            },
            None => {},
        }
        let data = if self.base.catalog.contains_key(&key.0) {
            match self.base.load(loaded, key.0, key.1) {
                Err(Error::Unread { file, offset, length }) => {
                    return Err(Error::Unread { file, offset, length });
                },
                Err(_) => None,
                Ok(data) => data,
            }
        } else {
            None
        };
        assert(forall|files: Files| #[trigger]
            loaded.agrees(files) ==> found(*self, files, key) == (match data {
                None => None,
                Some(d) => Some(d@),
            }));
        match data {
            None => {
                let cost = weigh(operation, None, 0);
                proof {
                    assert forall|files: Files| #[trigger] loaded.agrees(files) implies costs(
                        *self,
                        files,
                        operation@,
                        cost.0,
                    ) by {
                        lemma_cost(operation@, None, false, 0, cost.0);
                    }
                }
                Ok(cost)
            },
            Some(data) => {
                let first: usize = entity_bytes(&data.base);
                let second: usize = entity_bytes(&data.current);
                let copied: usize = plus(first, second);
                let cost = weigh(operation, Some(&data.current), copied);
                proof {
                    let slot = vstd::layout::size_of::<Entity>();
                    assert(charges(data@.base.fields, slot, first));
                    assert(charges(data@.current.fields, slot, second));
                    assert forall|files: Files| #[trigger] loaded.agrees(files) implies costs(
                        *self,
                        files,
                        operation@,
                        cost.0,
                    ) by {
                        lemma_cost(operation@, Some(data@), false, copied, cost.0);
                    }
                }
                Ok(cost)
            },
        }
    }

    fn decoded_limits(&self, resources: &Resources, bytes: usize) -> (r: Result<()>)
        requires
            !self.recovery,
        ensures
            match r {
                Ok(_) => decoded_fits(*self, *resources, bytes),
                Err(e) => decoded_refused(*self, *resources, bytes, e),
            },
    {
        check(
            "transaction decoded bytes",
            self.reservation.decoded_bytes,
            bytes,
            resources.limits.max_transaction_decoded_bytes,
        )?;
        check(
            "resident decoded write bytes",
            resources.usage.decoded_write_bytes,
            bytes,
            resources.limits.max_resident_decoded_write_bytes,
        )
    }

    /// Ends the transaction over an operation that is too large, or that would not succeed
    /// anyway: that error goes first.
    fn refuse(
        &mut self,
        loaded: &Loaded,
        resources: &mut Resources,
        operation: &Operation,
        bytes: usize,
        reason: Error,
    ) -> (r: Result<()>)
        requires
            old(self).sound(),
            owed(old(resources).used(), old(self).reservation.charge()),
            bytes == op_bytes(operation@),
            !old(self).base@.poisoned && !old(self).failed,
            refused(*old(self), *old(resources), op_bytes(operation@)) is None,
            !old(self).recovery,
        ensures
            final(self).sound(),
            key_of_op(operation@) is None && r is Err ==> !(r->Err_0 is Unread) || r->Err_0
                == reason,
            final(self).base == old(self).base,
            final(self).recovery == old(self).recovery,
            final(self).permit == old(self).permit,
            final(resources).limits == old(resources).limits,
            owed(final(resources).used(), final(self).reservation.charge()),
            refunded(final(resources).used(), final(self).reservation.charge()) == refunded(
                old(resources).used(),
                old(self).reservation.charge(),
            ),
            match r {
                Ok(_) => false,
                Err(e) => overruled(
                    *old(self),
                    *old(resources),
                    *final(self),
                    final(resources).used(),
                    loaded,
                    operation@,
                    e,
                    e == reason,
                ),
            },
    {
        match self.rehearse(loaded, operation) {
            Ok(_) => {
                self.failed = true;
                Err(reason)
            },
            Err(Error::Unread { file, offset, length }) => Err(
                Error::Unread { file, offset, length },
            ),
            Err(e) => {
                match self.reservation.grow(resources, bytes) {
                    Ok(_) => {},
                    Err(_) => {},
                }
                self.failed = true;
                Err(e)
            },
        }
    }

    /// Runs an operation that is charged so many decoded bytes, if they are admitted. A state
    /// that no record can hold is refused. Recovery is held to no limit.
    pub fn write_charged(
        &mut self,
        loaded: &Loaded,
        resources: &mut Resources,
        operation: &Operation,
        decoded: usize,
        long: bool,
    ) -> (r: Result<()>)
        requires
            old(self).sound(),
            owed(old(resources).used(), old(self).reservation.charge()),
            old(self).recovery ==> old(resources).used().resident_write_bytes + op_bytes(
                operation@,
            ) <= usize::MAX,
        ensures
            final(self).sound(),
            key_of_op(operation@) is None && r is Err ==> !(r->Err_0 is Unread),
            final(self).base == old(self).base,
            final(self).recovery == old(self).recovery,
            final(self).permit == old(self).permit,
            final(resources).limits == old(resources).limits,
            owed(final(resources).used(), final(self).reservation.charge()),
            refunded(final(resources).used(), final(self).reservation.charge()) == refunded(
                old(resources).used(),
                old(self).reservation.charge(),
            ),
            wrote(
                *old(self),
                *old(resources),
                *final(self),
                final(resources).used(),
                loaded,
                operation@,
                decoded,
                long,
                r,
            ),
    {
        let bytes: usize = operation.encoded_len();
        if self.base.ready().is_err() || self.failed || self.within_limits(
            resources,
            bytes,
        ).is_err() {
            return self.run(loaded, resources, operation.clone());
        }
        let mut charge: usize = decoded;
        if self.recovery {
            let room: usize = usize::MAX - resources.usage.decoded_write_bytes;
            if charge > room {
                charge = room;
            }
        } else {
            let size: Result<()> = if long {
                Err(invalid("entity state exceeds the encoded record limit"))
            } else {
                self.decoded_limits(resources, decoded)
            };
            match size {
                Err(e) => {
                    return self.refuse(loaded, resources, operation, bytes, e);
                },
                Ok(_) => {},
            }
        }
        let ghost before = self.operations@;
        let copy = operation.clone();
        self.run(loaded, resources, copy)?;
        assert(ops_view(before.push(copy)) =~= ops_view(before).push(operation@));
        let recovery: bool = self.recovery;
        self.reservation.grow_decoded(resources, charge, recovery)
    }

    /// Runs an operation once the memory that it takes is admitted. A state that no record can
    /// hold is refused. Recovery is held to no limit.
    pub fn write(&mut self, loaded: &Loaded, resources: &mut Resources, operation: &Operation) -> (r:
        Result<()>)
        requires
            old(self).sound(),
            owed(old(resources).used(), old(self).reservation.charge()),
            old(self).recovery ==> old(resources).used().resident_write_bytes + op_bytes(
                operation@,
            ) <= usize::MAX,
        ensures
            final(self).sound(),
            key_of_op(operation@) is None && r is Err ==> !(r->Err_0 is Unread),
            final(self).base == old(self).base,
            final(self).recovery == old(self).recovery,
            final(self).permit == old(self).permit,
            final(resources).limits == old(resources).limits,
            owed(final(resources).used(), final(self).reservation.charge()),
            refunded(final(resources).used(), final(self).reservation.charge()) == refunded(
                old(resources).used(),
                old(self).reservation.charge(),
            ),
            r is Err && r->Err_0 is Unread && run_failed(
                *old(self),
                *old(resources),
                *final(self),
                final(resources).used(),
                loaded,
                operation@,
                r->Err_0,
            ) || exists|decoded: usize, long: bool| #[trigger]
                wrote(
                    *old(self),
                    *old(resources),
                    *final(self),
                    final(resources).used(),
                    loaded,
                    operation@,
                    decoded,
                    long,
                    r,
                ) && (old(self).base@.poisoned || old(self).failed || refused(
                    *old(self),
                    *old(resources),
                    op_bytes(operation@),
                ) is Some || forall|files: Files| #[trigger]
                    loaded.agrees(files) ==> costs(*old(self), files, operation@, decoded) && long
                        == oversized(*old(self), files, operation@)),
    {
        let bytes: usize = operation.encoded_len();
        if self.base.ready().is_err() || self.failed || self.within_limits(
            resources,
            bytes,
        ).is_err() {
            return self.write_charged(loaded, resources, operation, 0, false);
        }
        let (decoded, long) = match self.decoded_cost(loaded, operation) {
            Err(e) => {
                return Err(e);
            },
            Ok(cost) => cost,
        };
        self.write_charged(loaded, resources, operation, decoded, long)
    }
}

/// What recovery counts of decoded bytes: all of them, as far as they can be counted.
pub open spec fn counted(resources: Resources, decoded: usize) -> usize {
    let room = usize::MAX - resources.used().decoded_write_bytes;
    if decoded <= room {
        decoded
    } else {
        room as usize
    }
}

/// Whether an operation that is charged so many decoded bytes ran as it should: what it makes is
/// staged, logged and charged for; or it failed by itself; or it would succeed, but its state is
/// too long or the bytes are not admitted, and the transaction ends.
pub open spec fn wrote(
    before: Staging,
    resources: Resources,
    after: Staging,
    used: ResourceUsage,
    loaded: &Loaded,
    op: OpV,
    decoded: usize,
    long: bool,
    r: Result<()>,
) -> bool {
    let bytes = op_bytes(op);
    let held_up = before.base@.poisoned || before.failed || refused(before, resources, bytes)
        is Some;
    match r {
        Ok(_) => {
            let charge = if before.recovery {
                counted(resources, decoded)
            } else {
                decoded
            };
            &&& !held_up && !after.failed
            &&& before.recovery || !long && decoded_fits(before, resources, decoded)
            &&& forall|files: Files| #[trigger]
                loaded.agrees(files) ==> executed(before.base@, files, before.writes(), op) == Ok::<
                    _,
                    Fault,
                >(after.writes())
            &&& ops_view(after.operations@) == ops_view(before.operations@).push(op)
            &&& after.reservation.bytes == before.reservation.bytes + bytes
            &&& after.reservation.decoded_bytes == before.reservation.decoded_bytes + charge
            &&& used == charged(resources.used(), Charge::Write(bytes as usize, charge))
        },
        Err(e) => if held_up || before.recovery || !long && decoded_fits(
            before,
            resources,
            decoded,
        ) {
            run_failed(before, resources, after, used, loaded, op, e)
        } else {
            overruled(
                before,
                resources,
                after,
                used,
                loaded,
                op,
                e,
                if long {
                    e is Invalid
                } else {
                    decoded_refused(before, resources, decoded, e)
                },
            )
        },
    }
}

/// Whether an operation that is too large failed as it should: by itself, or, where it would
/// succeed otherwise, for its size.
pub open spec fn overruled(
    before: Staging,
    resources: Resources,
    after: Staging,
    used: ResourceUsage,
    loaded: &Loaded,
    op: OpV,
    e: Error,
    for_size: bool,
) -> bool {
    ||| run_failed(before, resources, after, used, loaded, op, e)
    ||| {
        &&& for_size
        &&& after.writes() == before.writes()
        &&& after.operations == before.operations
        &&& after.failed
        &&& after.reservation == before.reservation
        &&& used == resources.used()
        &&& forall|files: Files| #[trigger]
            loaded.agrees(files) ==> executed(before.base@, files, before.writes(), op) is Ok
    }
}

/// The parts of a cost make the cost.
proof fn lemma_cost(op: OpV, d: Option<DataV>, own: bool, copied: usize, n: usize)
    requires
        copy_cost(d, own, copied),
        exists|a: usize, c: usize|
            #![trigger charges(op_fields(op), vstd::layout::size_of::<Event>(), a), made_cost(current_of(d), op, c)]
            charges(op_fields(op), vstd::layout::size_of::<Event>(), a) && made_cost(
                current_of(d),
                op,
                c,
            ) && n == saturated((a + copied + c) as nat),
    ensures
        op_cost(op, d, own, n),
{
    let (a, c) = choose|a: usize, c: usize|
        #![trigger charges(op_fields(op), vstd::layout::size_of::<Event>(), a), made_cost(current_of(d), op, c)]
        charges(op_fields(op), vstd::layout::size_of::<Event>(), a) && made_cost(
            current_of(d),
            op,
            c,
        ) && n == saturated((a + copied + c) as nat);
    assert(parts_cost(op, d, own, a, copied, c));
}

} // verus!
