use vstd::prelude::*;
use crate::categorizer::{categorize_ticket, categorized, CategoryRule};
use crate::errors::AppError;
use crate::model::{opt_text, Ticket};
use crate::store::{
    get_sync_metadata, keys_unique, lemma_new_keys_add_rows, set_sync_metadata, upsert_ticket, upserted_all,
    TicketStore,
};

verus! {

/// Key of the sync cursor in the metadata table.
pub open spec fn cursor_key_text() -> Seq<char> {
    "last_sync_at"@
}

pub fn cursor_key() -> (r: String)
    ensures
        r@ == cursor_key_text(),
{
    String::from_str("last_sync_at")
}

/// Single-flight guard shared by the on-demand trigger and the background
/// scheduler.
pub struct SyncLock {
    pub syncing: bool,
}

impl SyncLock {
    pub fn new() -> (r: SyncLock)
        ensures
            !r.syncing,
    {
        SyncLock { syncing: false }
    }

    /// Takes the guard, or fails at once when a sync is already active.
    pub fn try_acquire(&mut self) -> (r: Result<(), AppError>)
        ensures
            old(self).syncing ==> (r matches Err(AppError::SyncAlreadyInProgress)),
            old(self).syncing ==> *final(self) == *old(self),
            !old(self).syncing ==> r is Ok && final(self).syncing,
    {
        if self.syncing {
            Err(AppError::SyncAlreadyInProgress)
        } else {
            self.syncing = true;
            Ok(())
        }
    }

    pub fn release(&mut self)
        ensures
            !final(self).syncing,
    {
        self.syncing = false;
    }
}

/// `t` with its category recomputed from the rules.
pub open spec fn recategorized(before: Ticket, after: Ticket, rules: Seq<CategoryRule>) -> bool {
    &&& after == Ticket { category: after.category, ..before }
    &&& opt_text(after.category) == categorized(before, rules)
}

/// Progress is reported at every tenth item.
pub fn is_progress_point(idx: usize) -> (r: bool)
    ensures
        r == (idx % 10 == 0),
{
    idx % 10 == 0
}

/// Recomputes the category of every ticket; a category from the remote side
/// is never kept.
pub fn categorize_all(tickets: Vec<Ticket>, rules: &[CategoryRule]) -> (r: Vec<Ticket>)
    ensures
        r@.len() == tickets@.len(),
        forall|k: int| 0 <= k < r@.len() ==> recategorized(tickets@[k], #[trigger] r@[k], rules@),
{
    let mut out: Vec<Ticket> = Vec::new();
    let n = tickets.len();
    let mut i: usize = 0;
    while i < n
        invariant
            n == tickets@.len(),
            i <= n,
            out@.len() == i,
            forall|k: int| 0 <= k < i ==> recategorized(tickets@[k], #[trigger] out@[k], rules@),
        decreases n - i,
    {
        let mut t = tickets[i].duplicate();
        t.category = categorize_ticket(&tickets[i], rules);
        out.push(t);
        i = i + 1;
    }
    out
}

/// Upserts every ticket, then moves the cursor to `now`; the number of
/// tickets written.
pub fn persist_sync(store: &mut TicketStore, tickets: &Vec<Ticket>, now: &String) -> (r: usize)
    requires
        old(store).wf(),
        old(store).tickets@.len() + tickets@.len() < i64::MAX,
    ensures
        final(store).wf(),
        final(store).tickets@ == upserted_all(old(store).tickets@, tickets@),
        final(store).meta() == old(store).meta().insert(cursor_key_text(), now@),
        r == tickets@.len(),
{
    let n = tickets.len();
    let mut i: usize = 0;
    while i < n
        invariant
            n == tickets@.len(),
            i <= n,
            store.wf(),
            store.tickets@.len() <= old(store).tickets@.len() + i,
            old(store).tickets@.len() + tickets@.len() < i64::MAX,
            store.tickets@ == upserted_all(old(store).tickets@, tickets@.subrange(0, i as int)),
            store.meta() == old(store).meta(),
        decreases n - i,
    {
        proof {
            let s = tickets@.subrange(0, i + 1);
            assert(s.drop_last() == tickets@.subrange(0, i as int));
            assert(s.last() == tickets@[i as int]);
        }
        upsert_ticket(store, &tickets[i]);
        i = i + 1;
    }
    assert(tickets@.subrange(0, n as int) == tickets@);
    let key = cursor_key();
    set_sync_metadata(store, &key, now);
    n
}

/// Opens a sync: takes the guard and reads the cursor to fetch from
/// (`None`: full backfill). Fails at once, touching nothing, when a sync is
/// already active.
pub fn start_sync(lock: &mut SyncLock, store: &TicketStore) -> (r: Result<Option<String>, AppError>)
    requires
        store.wf(),
    ensures
        old(lock).syncing ==> (r matches Err(AppError::SyncAlreadyInProgress)),
        old(lock).syncing ==> *final(lock) == *old(lock),
        !old(lock).syncing ==> final(lock).syncing,
        !old(lock).syncing ==> (r matches Ok(c) && match c {
            Some(v) => store.meta().contains_key(cursor_key_text()) && store.meta()[cursor_key_text()]
                == v@,
            None => !store.meta().contains_key(cursor_key_text()),
        }),
{
    match lock.try_acquire() {
        Err(e) => Err(e),
        Ok(()) => {
            let key = cursor_key();
            Ok(get_sync_metadata(store, &key))
        },
    }
}

/// Closes a sync with what the fetch gave: on success every ticket is
/// categorized and upserted and only then the cursor moves to `now`; on a
/// failure the store is left as it was. The guard is released either way.
pub fn complete_sync(
    lock: &mut SyncLock,
    store: &mut TicketStore,
    fetched: Result<Vec<Ticket>, AppError>,
    rules: &[CategoryRule],
    now: &String,
) -> (r: Result<usize, AppError>)
    requires
        old(store).wf(),
    ensures
        !final(lock).syncing,
        final(store).wf(),
        fetched is Err ==> *final(store) == *old(store),
        match fetched {
            Err(e) => r == Err::<usize, AppError>(e),
            Ok(ts) => if old(store).tickets@.len() + ts@.len() < i64::MAX {
                &&& r == Ok::<usize, AppError>(ts@.len() as usize)
                &&& final(store).meta() == old(store).meta().insert(cursor_key_text(), now@)
                &&& exists|cats: Seq<Ticket>|
                    cats.len() == ts@.len() && (forall|k: int|
                        0 <= k < cats.len() ==> recategorized(ts@[k], #[trigger] cats[k], rules@))
                        && final(store).tickets@ == upserted_all(old(store).tickets@, cats)
            } else {
                (r matches Err(AppError::Internal(_))) && *final(store) == *old(store)
            },
        },
{
    let result = match fetched {
        Err(e) => Err(e),
        Ok(ts) => {
            if ts.len() as u64 >= i64::MAX as u64 || store.len() as u64 >= i64::MAX as u64
                - ts.len() as u64 {
                Err(AppError::Internal(String::from_str("too many tickets for the store")))
            } else {
                let cats = categorize_all(ts, rules);
                let n = persist_sync(store, &cats, now);
                Ok(n)
            }
        },
    };
    lock.release();
    result
}

/// Row counts of a sync: fetched tickets with distinct natural keys, none
/// stored yet, each add one row once categorized and upserted (a backfill
/// into an empty store holds exactly as many rows as were fetched), and a
/// sync that fetched nothing leaves the rows as they were.
pub proof fn lemma_sync_row_count(rows: Seq<Ticket>, ts: Seq<Ticket>, cats: Seq<Ticket>, rules: Seq<CategoryRule>)
    requires
        keys_unique(rows),
        forall|a: int, b: int|
            0 <= a < ts.len() && 0 <= b < ts.len() && a != b ==> (#[trigger] ts[a]).jira_key@
                != (#[trigger] ts[b]).jira_key@,
        forall|a: int, j: int|
            0 <= a < ts.len() && 0 <= j < rows.len() ==> (#[trigger] ts[a]).jira_key@
                != (#[trigger] rows[j]).jira_key@,
        cats.len() == ts.len(),
        forall|k: int| 0 <= k < cats.len() ==> recategorized(ts[k], #[trigger] cats[k], rules),
    ensures
        upserted_all(rows, cats).len() == rows.len() + ts.len(),
        upserted_all(rows, Seq::<Ticket>::empty()) == rows,
{
    assert forall|a: int, b: int| 0 <= a < cats.len() && 0 <= b < cats.len() && a != b implies (#[trigger] cats[a]).jira_key@
        != (#[trigger] cats[b]).jira_key@ by {
        assert(recategorized(ts[a], cats[a], rules));
        assert(recategorized(ts[b], cats[b], rules));
        assert(cats[a].jira_key == ts[a].jira_key);
        assert(cats[b].jira_key == ts[b].jira_key);
    }
    assert forall|a: int, j: int| 0 <= a < cats.len() && 0 <= j < rows.len() implies (#[trigger] cats[a]).jira_key@
        != (#[trigger] rows[j]).jira_key@ by {
        assert(recategorized(ts[a], cats[a], rules));
        assert(cats[a].jira_key == ts[a].jira_key);
    }
    lemma_new_keys_add_rows(rows, cats);
}

} // verus!
