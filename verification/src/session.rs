//! Per-client session state and the transaction slot shared by sessions.
//!
//! Only one session at a time may be inside an explicit transaction. The
//! slot records which session owns the active transaction: every operation
//! but BEGIN may proceed when no transaction is active or when its own
//! session owns it; BEGIN waits until the slot is free and then claims it;
//! COMMIT and ROLLBACK release it. Waiting and waking are done by whoever
//! holds the slot (a lock and a condition variable); the decisions are here.
use vstd::prelude::*;
use crate::storage::{
    any_in_transaction, began, committed, create_outcome, each_table, has_table, insert_outcome, metadata_fits,
    not_found_msg, rolled_back, select_result, table_of, unit_result, Storage, TableModel,
};
use crate::parser::{Statement, StatementModel};
use crate::types::{columns_model, values_model, Column, Row, Value, ValueModel};

verus! {

/// Which session, if any, owns the active transaction.
pub struct TxnSlot {
    owner: Option<u64>,
}

impl View for TxnSlot {
    type V = Option<u64>;

    closed spec fn view(&self) -> Option<u64> {
        self.owner
    }
}

/// Whether session `id` may run an operation other than BEGIN.
pub open spec fn slot_allows(owner: Option<u64>, id: u64) -> bool {
    match owner {
        None => true,
        Some(o) => o == id,
    }
}

/// The owner after session `id` releases the slot: only the owner can
/// release it.
pub open spec fn slot_released(owner: Option<u64>, id: u64) -> Option<u64> {
    if owner == Some(id) {
        None
    } else {
        owner
    }
}

impl TxnSlot {
    pub fn new() -> (g: TxnSlot)
        ensures
            g@ is None,
    {
        TxnSlot { owner: None }
    }

    /// The session that owns the active transaction, if any.
    pub fn owner(&self) -> (o: Option<u64>)
        ensures
            o == self@,
    {
        self.owner
    }

    /// Whether session `id` may proceed: no transaction is active, or it is
    /// the session's own.
    pub fn allows(&self, id: u64) -> (b: bool)
        ensures
            b == slot_allows(self@, id),
    {
        match self.owner {
            None => true,
            Some(o) => o == id,
        }
    }

    /// Whether a BEGIN may claim the slot now.
    pub fn is_free(&self) -> (b: bool)
        ensures
            b == self@ is None,
    {
        self.owner.is_none()
    }

    /// Session `id` takes the free slot.
    pub fn claim(&mut self, id: u64)
        requires
            old(self)@ is None,
        ensures
            final(self)@ == Some(id),
    {
        self.owner = Some(id);
    }

    /// Session `id` gives the slot back, if it holds it.
    pub fn release(&mut self, id: u64)
        ensures
            final(self)@ == slot_released(old(self)@, id),
    {
        if self.owner == Some(id) {
            self.owner = None;
        }
    }
}

/// Once a session has claimed the slot, it alone may proceed, until it
/// releases the slot; no other session can release it.
pub proof fn lemma_slot_exclusive(id: u64, other: u64)
    requires
        id != other,
    ensures
        slot_allows(Some(id), id),
        !slot_allows(Some(id), other),
        slot_released(Some(id), other) == Some(id),
        slot_released(Some(id), id) is None,
        slot_allows(slot_released(Some(id), id), other),
{
}

/// How an operation is let in.
pub enum Admission {
    /// BEGIN outside a transaction: wait until the slot is free, then claim it.
    ClaimSlot,
    /// COMMIT and ROLLBACK: go straight in, under the exclusive lock.
    Direct,
    /// A read outside a transaction: wait until the slot allows the
    /// session, then read under the shared lock.
    WaitThenRead,
    /// Anything else: wait until the slot allows the session, then run
    /// under the exclusive lock.
    WaitThenWrite,
}

/// How an operation is let in, stated over the statement.
pub open spec fn admission_of(st: StatementModel, in_transaction: bool) -> Admission {
    match st {
        StatementModel::Begin => if in_transaction {
            Admission::WaitThenWrite
        } else {
            Admission::ClaimSlot
        },
        StatementModel::Commit => Admission::Direct,
        StatementModel::Rollback => Admission::Direct,
        StatementModel::Select { .. } => if in_transaction {
            Admission::WaitThenWrite
        } else {
            Admission::WaitThenRead
        },
        _ => Admission::WaitThenWrite,
    }
}

/// How a statement of a session is let in: a BEGIN claims the slot once it
/// is free; COMMIT and ROLLBACK need no wait; every other operation waits
/// until no other session holds the slot, and a SELECT outside a
/// transaction then reads alongside other readers.
pub fn admission(statement: &Statement, in_transaction: bool) -> (a: Admission)
    ensures
        a == admission_of(statement@, in_transaction),
{
    match statement {
        Statement::Begin => if in_transaction {
            Admission::WaitThenWrite
        } else {
            Admission::ClaimSlot
        },
        Statement::Commit => Admission::Direct,
        Statement::Rollback => Admission::Direct,
        Statement::Select { .. } => if in_transaction {
            Admission::WaitThenWrite
        } else {
            Admission::WaitThenRead
        },
        _ => Admission::WaitThenWrite,
    }
}

/// How a tree dump of a session is let in: like a SELECT.
pub fn dump_admission(in_transaction: bool) -> (a: Admission)
    ensures
        a == (if in_transaction {
            Admission::WaitThenWrite
        } else {
            Admission::WaitThenRead
        }),
{
    if in_transaction {
        Admission::WaitThenWrite
    } else {
        Admission::WaitThenRead
    }
}

/// Handle for one client of the database.
pub struct Session {
    session_id: u64,
    in_transaction: bool,
}

/// The model of a session: its id and whether it is inside a transaction.
pub struct SessionModel {
    pub id: u64,
    pub in_transaction: bool,
}

impl View for Session {
    type V = SessionModel;

    closed spec fn view(&self) -> SessionModel {
        SessionModel { id: self.session_id, in_transaction: self.in_transaction }
    }
}

pub open spec fn already_msg() -> Seq<char> {
    "Already in a transaction."@
}

pub open spec fn no_txn_msg() -> Seq<char> {
    "No active transaction."@
}

impl Session {
    pub fn new(session_id: u64) -> (s: Session)
        ensures
            s@ == (SessionModel { id: session_id, in_transaction: false }),
    {
        Session { session_id, in_transaction: false }
    }

    pub fn id(&self) -> (id: u64)
        ensures
            id == self@.id,
    {
        self.session_id
    }

    pub fn in_transaction(&self) -> (b: bool)
        ensures
            b == self@.in_transaction,
    {
        self.in_transaction
    }

    /// Create a table (see `Storage::create_table`). The caller holds the slot.
    pub fn create_table(&mut self, storage: &mut Storage, name: String, columns: Vec<Column>, file: &[u8], wal_log: &[u8]) -> (r: Result<(), String>)
        requires
            old(storage).wf(),
            metadata_fits(columns_model(columns@)),
        ensures
            final(storage).wf(),
            final(self)@ == old(self)@,
            create_outcome(old(storage)@, final(storage)@, name@, columns_model(columns@), file@, wal_log@, unit_result(r)),
    {
        storage.create_table(name, columns, file, wal_log)
    }

    /// Insert a row (see `Storage::insert`). The caller holds the slot.
    pub fn insert(&mut self, storage: &mut Storage, table: &str, values: Vec<Value>) -> (r: Result<(), String>)
        requires
            old(storage).wf(),
        ensures
            final(storage).wf(),
            final(self)@ == old(self)@,
            insert_outcome(old(storage)@, final(storage)@, table@, values_model(values@), unit_result(r)),
    {
        storage.insert(table, values)
    }

    /// All rows of a table (see `Storage::select_all`).
    pub fn select_all(&self, storage: &Storage, table: &str) -> (r: Result<(Vec<String>, Vec<Row>), String>)
        requires
            storage.wf(),
        ensures
            !has_table(storage@, table@) ==> (r matches Err(e) && e@ == not_found_msg(table@)),
            has_table(storage@, table@) ==> match r {
                Ok((headers, rows)) => select_result(table_of(storage@, table@)) == Ok::<
                    (Seq<Seq<char>>, Seq<Seq<ValueModel>>),
                    Option<Seq<char>>,
                >((crate::protocol::strings_model(headers@), crate::storage::rows_values(rows@))),
                Err(e) => select_result(table_of(storage@, table@)) matches Err(why) && (why matches Some(
                    msg,
                ) ==> msg == e@),
            },
    {
        storage.select_all(table)
    }

    /// The B+Tree of a table as text (see `Storage::dump_btree`).
    pub fn dump_btree(&self, storage: &Storage, table: &str) -> (r: Result<String, String>)
        requires
            storage.wf(),
        ensures
            !has_table(storage@, table@) ==> (r matches Err(e) && e@ == not_found_msg(table@)),
            has_table(storage@, table@) ==> {
                let t = table_of(storage@, table@);
                match r {
                    Ok(s) => crate::btree::tree_dump(t.pager, t.root_page, 0, crate::pager::MAX_PAGES as nat) == Some(s@),
                    Err(_) => crate::btree::tree_dump(t.pager, t.root_page, 0, crate::pager::MAX_PAGES as nat) is None,
                }
            },
    {
        storage.dump_btree(table)
    }

    /// Begin a transaction on every table. A session outside a transaction
    /// claims the slot, which its caller has waited to find free, and gives
    /// it back when the transaction cannot start.
    pub fn begin(&mut self, storage: &mut Storage, slot: &mut TxnSlot) -> (r: Result<(), String>)
        requires
            old(storage).wf(),
            !old(self)@.in_transaction ==> old(slot)@ is None,
        ensures
            final(storage).wf(),
            final(self)@.id == old(self)@.id,
            old(self)@.in_transaction ==> (r matches Err(e) && e@ == already_msg()) && final(self)@ == old(
                self,
            )@ && final(storage)@ == old(storage)@ && final(slot)@ == old(slot)@,
            !old(self)@.in_transaction ==> {
                &&& r is Err <==> any_in_transaction(old(storage)@)
                &&& r is Err ==> final(storage)@ == old(storage)@ && !final(self)@.in_transaction && r->Err_0@
                    == already_msg() && final(slot)@ is None
                &&& r is Ok ==> final(self)@.in_transaction && each_table(
                    old(storage)@,
                    final(storage)@,
                    |a: TableModel, b: TableModel| began(a, b),
                ) && final(slot)@ == Some(old(self)@.id)
            },
    {
        if self.in_transaction {
            return Err(String::from_str("Already in a transaction."));
        }
        slot.claim(self.session_id);
        let result = storage.begin();
        if result.is_err() {
            slot.release(self.session_id);
            return result;
        }
        self.in_transaction = true;
        Ok(())
    }

    /// Commit the session's transaction and give the slot back.
    pub fn commit(&mut self, storage: &mut Storage, slot: &mut TxnSlot) -> (r: Result<(), String>)
        requires
            old(storage).wf(),
        ensures
            final(storage).wf(),
            final(self)@ == (SessionModel { id: old(self)@.id, in_transaction: false }),
            !old(self)@.in_transaction ==> (r matches Err(e) && e@ == no_txn_msg()) && final(storage)@ == old(
                storage,
            )@ && final(slot)@ == old(slot)@,
            old(self)@.in_transaction ==> final(slot)@ == slot_released(old(slot)@, old(self)@.id),
            old(self)@.in_transaction ==> r is Ok && each_table(
                old(storage)@,
                final(storage)@,
                |a: TableModel, b: TableModel| committed(a, b),
            ),
    {
        if !self.in_transaction {
            return Err(String::from_str("No active transaction."));
        }
        let result = storage.commit();
        self.in_transaction = false;
        slot.release(self.session_id);
        result
    }

    /// Roll back the session's transaction and give the slot back.
    pub fn rollback(&mut self, storage: &mut Storage, slot: &mut TxnSlot) -> (r: Result<(), String>)
        requires
            old(storage).wf(),
        ensures
            final(storage).wf(),
            final(self)@ == (SessionModel { id: old(self)@.id, in_transaction: false }),
            !old(self)@.in_transaction ==> (r matches Err(e) && e@ == no_txn_msg()) && final(storage)@ == old(
                storage,
            )@ && final(slot)@ == old(slot)@,
            old(self)@.in_transaction ==> final(slot)@ == slot_released(old(slot)@, old(self)@.id),
            old(self)@.in_transaction ==> r is Ok && each_table(
                old(storage)@,
                final(storage)@,
                |a: TableModel, b: TableModel| rolled_back(a, b),
            ),
    {
        if !self.in_transaction {
            return Err(String::from_str("No active transaction."));
        }
        let result = storage.rollback();
        self.in_transaction = false;
        slot.release(self.session_id);
        result
    }

    /// The client is gone: a transaction it left open is rolled back and
    /// the slot given back.
    pub fn disconnect(&mut self, storage: &mut Storage, slot: &mut TxnSlot)
        requires
            old(storage).wf(),
        ensures
            final(storage).wf(),
            final(self)@ == (SessionModel { id: old(self)@.id, in_transaction: false }),
            !old(self)@.in_transaction ==> final(storage)@ == old(storage)@ && final(slot)@ == old(slot)@,
            old(self)@.in_transaction ==> final(slot)@ == slot_released(old(slot)@, old(self)@.id),
            old(self)@.in_transaction ==> each_table(
                old(storage)@,
                final(storage)@,
                |a: TableModel, b: TableModel| rolled_back(a, b),
            ),
    {
        if self.in_transaction {
            let _ = storage.rollback();
            self.in_transaction = false;
            slot.release(self.session_id);
        }
    }
}

} // verus!
