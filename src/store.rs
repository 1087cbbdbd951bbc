use vstd::prelude::*;
use crate::model::{clone_opt_string, Ticket};
use crate::order::{is_index_perm, key_before, lists, sort_indices, text_lt};

verus! {

/// One entry of the generic key/value metadata table.
pub struct MetaEntry {
    pub key: String,
    pub value: String,
}

/// In-memory ticket store: one row per natural key, rows numbered in order
/// of first insertion, and a key/value table for sync cursors.
pub struct TicketStore {
    pub tickets: Vec<Ticket>,
    pub metadata: Vec<MetaEntry>,
}

/// The row that an upsert of `new` over the stored row `old` leaves: the id,
/// the natural key, the creation time and the project of the first sync are
/// kept; every other field comes from `new`.
pub open spec fn merged(old: Ticket, new: Ticket) -> Ticket {
    Ticket {
        id: old.id,
        jira_key: old.jira_key,
        created_at: old.created_at,
        project_key: old.project_key,
        ..new
    }
}

/// The row that a first upsert of `new` inserts with row number `id`.
pub open spec fn inserted(new: Ticket, id: i64) -> Ticket {
    Ticket { id, ..new }
}

/// Natural keys are unique among rows.
pub open spec fn keys_unique(rows: Seq<Ticket>) -> bool {
    forall|i: int, j: int|
        0 <= i < rows.len() && 0 <= j < rows.len() && i != j ==> (#[trigger] rows[i]).jira_key@
            != (#[trigger] rows[j]).jira_key@
}

/// Index of the row holding natural key `key`, if any.
pub open spec fn row_of(rows: Seq<Ticket>, key: Seq<char>) -> Option<int> {
    if exists|i: int| 0 <= i < rows.len() && (#[trigger] rows[i]).jira_key@ == key {
        Some(choose|i: int| 0 <= i < rows.len() && (#[trigger] rows[i]).jira_key@ == key)
    } else {
        None
    }
}

/// The rows after an upsert of `t` into `rows`.
pub open spec fn upserted(rows: Seq<Ticket>, t: Ticket) -> Seq<Ticket> {
    match row_of(rows, t.jira_key@) {
        Some(i) => rows.update(i, merged(rows[i], t)),
        None => rows.push(inserted(t, (rows.len() + 1) as i64)),
    }
}

/// The rows after upserting each ticket of `ts` in order.
pub open spec fn upserted_all(rows: Seq<Ticket>, ts: Seq<Ticket>) -> Seq<Ticket>
    decreases ts.len(),
{
    if ts.len() == 0 {
        rows
    } else {
        upserted(upserted_all(rows, ts.drop_last()), ts.last())
    }
}

/// The key/value table as a map, later entries over earlier ones.
pub open spec fn meta_view(s: Seq<MetaEntry>) -> Map<Seq<char>, Seq<char>>
    decreases s.len(),
{
    if s.len() == 0 {
        Map::empty()
    } else {
        meta_view(s.drop_last()).insert(s.last().key@, s.last().value@)
    }
}

pub open spec fn meta_keys_unique(s: Seq<MetaEntry>) -> bool {
    forall|i: int, j: int|
        0 <= i < s.len() && 0 <= j < s.len() && i != j ==> (#[trigger] s[i]).key@ != (#[trigger] s[j]).key@
}

proof fn lemma_meta_absent(s: Seq<MetaEntry>, k: Seq<char>)
    requires
        forall|i: int| 0 <= i < s.len() ==> (#[trigger] s[i]).key@ != k,
    ensures
        !meta_view(s).contains_key(k),
    decreases s.len(),
{
    if s.len() > 0 {
        lemma_meta_absent(s.drop_last(), k);
        assert(s.last().key@ != k);
    }
}

proof fn lemma_meta_at(s: Seq<MetaEntry>, i: int)
    requires
        meta_keys_unique(s),
        0 <= i < s.len(),
    ensures
        meta_view(s).contains_key(s[i].key@),
        meta_view(s)[s[i].key@] == s[i].value@,
    decreases s.len(),
{
    if i < s.len() - 1 {
        let t = s.drop_last();
        assert(t[i] == s[i]);
        assert(s.last() == s[s.len() - 1]);
        lemma_meta_at(t, i);
    }
}

proof fn lemma_meta_update(s: Seq<MetaEntry>, i: int, e: MetaEntry)
    requires
        meta_keys_unique(s),
        0 <= i < s.len(),
        e.key@ == s[i].key@,
    ensures
        meta_view(s.update(i, e)) == meta_view(s).insert(e.key@, e.value@),
    decreases s.len(),
{
    let u = s.update(i, e);
    if i == s.len() - 1 {
        assert(u.drop_last() == s.drop_last());
        assert(meta_view(s.drop_last()).insert(e.key@, e.value@) == meta_view(s.drop_last()).insert(
            s.last().key@,
            s.last().value@,
        ).insert(e.key@, e.value@));
    } else {
        let t = s.drop_last();
        assert(u.drop_last() == t.update(i, e));
        assert(t[i] == s[i]);
        assert(meta_keys_unique(t));
        lemma_meta_update(t, i, e);
        assert(s.last() == s[s.len() - 1]);
        assert(s.last().key@ != e.key@);
        assert(u.last() == s.last());
        assert(meta_view(u) == meta_view(s).insert(e.key@, e.value@));
    }
}

impl TicketStore {
    pub open spec fn wf(&self) -> bool {
        &&& keys_unique(self.tickets@)
        &&& forall|i: int| 0 <= i < self.tickets@.len() ==> (#[trigger] self.tickets@[i]).id == i + 1
        &&& meta_keys_unique(self.metadata@)
    }

    /// The cursor table as a map from key to value.
    pub open spec fn meta(&self) -> Map<Seq<char>, Seq<char>> {
        meta_view(self.metadata@)
    }

    /// An empty store.
    pub fn new() -> (r: TicketStore)
        ensures
            r.wf(),
            r.tickets@.len() == 0,
            r.meta() == Map::<Seq<char>, Seq<char>>::empty(),
    {
        TicketStore { tickets: Vec::new(), metadata: Vec::new() }
    }

    /// Number of stored rows.
    pub fn len(&self) -> (r: usize)
        ensures
            r == self.tickets@.len(),
    {
        self.tickets.len()
    }
}

/// Finds the row holding natural key `key`.
pub fn find_row(rows: &Vec<Ticket>, key: &String) -> (r: Option<usize>)
    requires
        keys_unique(rows@),
    ensures
        r == match row_of(rows@, key@) {
            Some(i) => Some(i as usize),
            None => None::<usize>,
        },
        match r {
            Some(i) => i < rows@.len() && rows@[i as int].jira_key@ == key@,
            None => forall|j: int| 0 <= j < rows@.len() ==> (#[trigger] rows@[j]).jira_key@ != key@,
        },
{
    let mut i: usize = 0;
    while i < rows.len()
        invariant
            i <= rows@.len(),
            keys_unique(rows@),
            forall|j: int| 0 <= j < i ==> (#[trigger] rows@[j]).jira_key@ != key@,
        decreases rows@.len() - i,
    {
        if rows[i].jira_key == *key {
            proof {
                let c = choose|j: int| 0 <= j < rows@.len() && (#[trigger] rows@[j]).jira_key@ == key@;
                assert(rows@[i as int].jira_key@ == key@);
                assert(c == i);
            }
            return Some(i);
        }
        i = i + 1;
    }
    None
}

/// Inserts the ticket under its natural key, or overwrites every mutable
/// field of the row that already holds that key.
pub fn upsert_ticket(store: &mut TicketStore, ticket: &Ticket)
    requires
        old(store).wf(),
        old(store).tickets@.len() < i64::MAX,
    ensures
        final(store).wf(),
        final(store).tickets@ == upserted(old(store).tickets@, *ticket),
        final(store).tickets@.len() == old(store).tickets@.len() + if row_of(
            old(store).tickets@,
            ticket.jira_key@,
        ) is Some {
            0int
        } else {
            1int
        },
        final(store).metadata@ == old(store).metadata@,
{
    match find_row(&store.tickets, &ticket.jira_key) {
        Some(i) => {
            let row = Ticket {
                id: store.tickets[i].id,
                jira_key: store.tickets[i].jira_key.clone(),
                summary: ticket.summary.clone(),
                status: ticket.status.clone(),
                priority: ticket.priority.clone(),
                issue_type: ticket.issue_type.clone(),
                assignee: clone_opt_string(&ticket.assignee),
                reporter: clone_opt_string(&ticket.reporter),
                created_at: store.tickets[i].created_at.clone(),
                updated_at: ticket.updated_at.clone(),
                resolved_at: clone_opt_string(&ticket.resolved_at),
                labels: ticket.labels.clone(),
                project_key: store.tickets[i].project_key.clone(),
                category: clone_opt_string(&ticket.category),
            };
            store.tickets.set(i, row);
            proof {
                let rows = old(store).tickets@;
                assert forall|a: int, b: int|
                    0 <= a < store.tickets@.len() && 0 <= b < store.tickets@.len() && a != b implies
                    (#[trigger] store.tickets@[a]).jira_key@ != (#[trigger] store.tickets@[b]).jira_key@ by {
                    assert(rows[a].jira_key@ != rows[b].jira_key@);
                }
            }
        },
        None => {
            let mut row = ticket.duplicate();
            row.id = store.tickets.len() as i64 + 1;
            store.tickets.push(row);
            proof {
                let rows = old(store).tickets@;
                assert(store.tickets@ == rows.push(inserted(*ticket, (rows.len() + 1) as i64)));
                assert forall|a: int, b: int|
                    0 <= a < store.tickets@.len() && 0 <= b < store.tickets@.len() && a != b implies
                    (#[trigger] store.tickets@[a]).jira_key@ != (#[trigger] store.tickets@[b]).jira_key@ by {
                    if a < rows.len() && b < rows.len() {
                        assert(rows[a].jira_key@ != rows[b].jira_key@);
                    } else if a < rows.len() {
                        assert(rows[a].jira_key@ != ticket.jira_key@);
                    } else {
                        assert(rows[b].jira_key@ != ticket.jira_key@);
                    }
                }
            }
        },
    }
}

/// Reads a metadata value.
pub fn get_sync_metadata(store: &TicketStore, key: &String) -> (r: Option<String>)
    requires
        store.wf(),
    ensures
        match r {
            Some(v) => store.meta().contains_key(key@) && store.meta()[key@] == v@,
            None => !store.meta().contains_key(key@),
        },
{
    let mut i: usize = 0;
    while i < store.metadata.len()
        invariant
            i <= store.metadata@.len(),
            store.wf(),
            forall|j: int| 0 <= j < i ==> (#[trigger] store.metadata@[j]).key@ != key@,
        decreases store.metadata@.len() - i,
    {
        if store.metadata[i].key == *key {
            proof {
                lemma_meta_at(store.metadata@, i as int);
            }
            return Some(store.metadata[i].value.clone());
        }
        i = i + 1;
    }
    proof {
        lemma_meta_absent(store.metadata@, key@);
    }
    None
}

/// Writes a metadata value, replacing any earlier value under the key.
pub fn set_sync_metadata(store: &mut TicketStore, key: &String, value: &String)
    requires
        old(store).wf(),
    ensures
        final(store).wf(),
        final(store).meta() == old(store).meta().insert(key@, value@),
        final(store).tickets@ == old(store).tickets@,
{
    let entry = MetaEntry { key: key.clone(), value: value.clone() };
    let mut i: usize = 0;
    while i < store.metadata.len()
        invariant
            i <= store.metadata@.len(),
            store.metadata@ == old(store).metadata@,
            store.tickets@ == old(store).tickets@,
            old(store).wf(),
            entry.key@ == key@,
            entry.value@ == value@,
            forall|j: int| 0 <= j < i ==> (#[trigger] store.metadata@[j]).key@ != key@,
        decreases store.metadata@.len() - i,
    {
        if store.metadata[i].key == *key {
            proof {
                lemma_meta_update(store.metadata@, i as int, entry);
            }
            store.metadata.set(i, entry);
            proof {
                let s = old(store).metadata@;
                assert forall|a: int, b: int|
                    0 <= a < store.metadata@.len() && 0 <= b < store.metadata@.len() && a != b implies
                    (#[trigger] store.metadata@[a]).key@ != (#[trigger] store.metadata@[b]).key@ by {
                    assert(s[a].key@ != s[b].key@);
                }
            }
            return;
        }
        i = i + 1;
    }
    proof {
        let s = old(store).metadata@;
        assert(s.push(entry).drop_last() == s);
    }
    store.metadata.push(entry);
}

/// Where an upsert of `t` leaves the row of `t`'s natural key.
pub proof fn lemma_upserted_row(rows: Seq<Ticket>, t: Ticket)
    requires
        keys_unique(rows),
    ensures
        keys_unique(upserted(rows, t)),
        match row_of(rows, t.jira_key@) {
            Some(i) => 0 <= i < rows.len() && rows[i].jira_key@ == t.jira_key@
                && row_of(upserted(rows, t), t.jira_key@) == Some(i),
            None => row_of(upserted(rows, t), t.jira_key@) == Some(rows.len() as int)
                && forall|j: int| 0 <= j < rows.len() ==> (#[trigger] rows[j]).jira_key@ != t.jira_key@,
        },
{
    let u = upserted(rows, t);
    match row_of(rows, t.jira_key@) {
        Some(i) => {
            assert(rows[i].jira_key@ == t.jira_key@);
            assert forall|a: int, b: int|
                0 <= a < u.len() && 0 <= b < u.len() && a != b implies (#[trigger] u[a]).jira_key@
                    != (#[trigger] u[b]).jira_key@ by {
                assert(rows[a].jira_key@ != rows[b].jira_key@);
            }
            assert(u[i].jira_key@ == t.jira_key@);
            let c = choose|j: int| 0 <= j < u.len() && (#[trigger] u[j]).jira_key@ == t.jira_key@;
            assert(u[c].jira_key@ == u[i].jira_key@);
        },
        None => {
            assert forall|j: int| 0 <= j < rows.len() implies (#[trigger] rows[j]).jira_key@
                != t.jira_key@ by {
                if rows[j].jira_key@ == t.jira_key@ {
                    assert(exists|k: int| 0 <= k < rows.len() && (#[trigger] rows[k]).jira_key@ == t.jira_key@);
                }
            }
            let n = rows.len() as int;
            assert forall|a: int, b: int|
                0 <= a < u.len() && 0 <= b < u.len() && a != b implies (#[trigger] u[a]).jira_key@
                    != (#[trigger] u[b]).jira_key@ by {
                if a < n && b < n {
                    assert(rows[a].jira_key@ != rows[b].jira_key@);
                } else if a < n {
                    assert(rows[a].jira_key@ != t.jira_key@);
                } else {
                    assert(rows[b].jira_key@ != t.jira_key@);
                }
            }
            assert(u[n].jira_key@ == t.jira_key@);
            let c = choose|j: int| 0 <= j < u.len() && (#[trigger] u[j]).jira_key@ == t.jira_key@;
            assert(u[c].jira_key@ == u[n].jira_key@);
        },
    }
}

/// Idempotence: upserting the same ticket a second time leaves the rows as
/// the first upsert left them.
pub proof fn lemma_upsert_idempotent(rows: Seq<Ticket>, t: Ticket)
    requires
        keys_unique(rows),
    ensures
        upserted(upserted(rows, t), t) == upserted(rows, t),
{
    lemma_upserted_row(rows, t);
    let u = upserted(rows, t);
    match row_of(rows, t.jira_key@) {
        Some(i) => {
            assert(merged(u[i], t) == u[i]);
            assert(u.update(i, merged(u[i], t)) == u);
        },
        None => {
            let n = rows.len() as int;
            assert(merged(u[n], t) == u[n]);
            assert(u.update(n, merged(u[n], t)) == u);
        },
    }
}

/// Natural-key uniqueness: two records with the same natural key, upserted
/// one after the other into rows that lack that key, leave exactly one row
/// for the key, holding the second record's mutable fields and the first
/// record's creation time.
pub proof fn lemma_same_key_one_row(rows: Seq<Ticket>, a: Ticket, b: Ticket)
    requires
        keys_unique(rows),
        a.jira_key@ == b.jira_key@,
        row_of(rows, a.jira_key@) is None,
    ensures
        ({
            let r = upserted(upserted(rows, a), b);
            let n = rows.len() as int;
            &&& r.len() == n + 1
            &&& keys_unique(r)
            &&& r[n] == merged(inserted(a, (n + 1) as i64), b)
            &&& r[n].created_at == a.created_at
            &&& r[n].summary == b.summary
            &&& r[n].status == b.status
            &&& r[n].updated_at == b.updated_at
            &&& r[n].resolved_at == b.resolved_at
            &&& forall|j: int| 0 <= j < r.len() && j != n ==> (#[trigger] r[j]).jira_key@ != b.jira_key@
        }),
{
    lemma_upserted_row(rows, a);
    let u = upserted(rows, a);
    lemma_upserted_row(u, b);
    let n = rows.len() as int;
    assert(b.jira_key@ == a.jira_key@);
    assert(row_of(u, b.jira_key@) == Some(n));
    let r = upserted(u, b);
    assert forall|j: int| 0 <= j < r.len() && j != n implies (#[trigger] r[j]).jira_key@ != b.jira_key@ by {
        assert(u[j] == rows[j]);
    }
}

/// All rows, most recently created first (creation timestamps compared as
/// text).
pub fn get_tickets(store: &TicketStore) -> (r: Vec<Ticket>)
    ensures
        exists|p: Seq<usize>|
            #![trigger is_index_perm(p, store.tickets@.len() as int)]
            is_index_perm(p, store.tickets@.len() as int) && (forall|v: int|
                0 <= v < store.tickets@.len() ==> #[trigger] lists(p, v)) && r@.len() == p.len() && (forall|k: int|
                0 <= k < r@.len() ==> #[trigger] r@[k] == store.tickets@[p[k] as int]),
        forall|k: int| 0 <= k < r@.len() - 1 ==> !text_lt((#[trigger] r@[k]).created_at@, r@[k + 1].created_at@),
{
    let rows = &store.tickets;
    let mut nums: Vec<i128> = Vec::new();
    let mut texts: Vec<String> = Vec::new();
    let mut i: usize = 0;
    while i < rows.len()
        invariant
            i <= rows@.len(),
            nums@.len() == i,
            texts@.len() == i,
            forall|k: int| 0 <= k < i ==> #[trigger] nums@[k] == 0,
            forall|k: int| 0 <= k < i ==> #[trigger] texts@[k] == rows@[k].created_at,
        decreases rows@.len() - i,
    {
        nums.push(0);
        texts.push(rows[i].created_at.clone());
        i = i + 1;
    }
    let p = sort_indices(&nums, &texts, true);
    let mut r: Vec<Ticket> = Vec::new();
    let mut k: usize = 0;
    while k < p.len()
        invariant
            k <= p@.len(),
            is_index_perm(p@, rows@.len() as int),
            r@.len() == k,
            forall|q: int| 0 <= q < k ==> #[trigger] r@[q] == rows@[p@[q] as int],
        decreases p@.len() - k,
    {
        r.push(rows[p[k]].duplicate());
        k = k + 1;
    }
    proof {
        assert forall|a: int| 0 <= a < r@.len() - 1 implies !text_lt(
            (#[trigger] r@[a]).created_at@,
            r@[a + 1].created_at@,
        ) by {
            assert(r@[a] == rows@[p@[a] as int]);
            assert(r@[a + 1] == rows@[p@[a + 1] as int]);
            assert(!key_before(nums@[p@[a + 1] as int], texts@[p@[a + 1] as int]@, nums@[p@[a] as int],
                texts@[p@[a] as int]@, true));
        }
    }
    r
}

/// Current schema version of the store file.
pub const SCHEMA_VERSION: i32 = 1;

/// What opening the store file must do for a recorded schema version.
#[derive(PartialEq, Eq, Structural, Clone, Copy, Debug)]
pub enum SchemaStep {
    /// Fresh file: create the whole schema, then record the current version.
    CreateSchema,
    /// Older file: apply the additive migrations from that version.
    Migrate { from: i32 },
    UpToDate,
}

pub fn schema_step(version: i32) -> (r: SchemaStep)
    ensures
        version == 0 ==> r == SchemaStep::CreateSchema,
        version != 0 && version < SCHEMA_VERSION ==> r == (SchemaStep::Migrate { from: version }),
        version != 0 && version >= SCHEMA_VERSION ==> r == SchemaStep::UpToDate,
{
    if version == 0 {
        SchemaStep::CreateSchema
    } else if version < SCHEMA_VERSION {
        SchemaStep::Migrate { from: version }
    } else {
        SchemaStep::UpToDate
    }
}

/// A second payload for a natural key that is already stored, upserted
/// after a first one, leaves the row count as the first upsert left it and
/// exactly one row for the key. That row carries the second payload's
/// mutable fields and the creation time that the key was first stored
/// with: the first payload's when the key was new. Rows of other keys are
/// untouched.
pub proof fn lemma_same_key_second_payload(rows: Seq<Ticket>, a: Ticket, b: Ticket)
    requires
        keys_unique(rows),
        a.jira_key@ == b.jira_key@,
    ensures
        ({
            let u = upserted(rows, a);
            let r = upserted(u, b);
            &&& keys_unique(r)
            &&& r.len() == u.len()
            &&& exists|i: int|
                0 <= i < r.len() && r[i].jira_key@ == b.jira_key@ && r[i] == merged(u[i], b)
                    && r[i].created_at == (match row_of(rows, a.jira_key@) {
                    Some(k) => rows[k].created_at,
                    None => a.created_at,
                }) && (forall|j: int| 0 <= j < r.len() && j != i ==> (#[trigger] r[j]).jira_key@ != b.jira_key@
                    && r[j] == u[j])
        }),
{
    lemma_upserted_row(rows, a);
    let u = upserted(rows, a);
    lemma_upserted_row(u, b);
    let i = row_of(u, b.jira_key@)->Some_0;
    let r = upserted(u, b);
    assert(row_of(u, a.jira_key@) == row_of(u, b.jira_key@));
    assert(r[i] == merged(u[i], b));
    assert forall|j: int| 0 <= j < r.len() && j != i implies (#[trigger] r[j]).jira_key@ != b.jira_key@
        && r[j] == u[j] by {
        assert(u[j].jira_key@ != u[i].jira_key@);
    }
}

/// Tickets whose natural keys are distinct and not yet stored each add one
/// row: the row count grows by their number.
pub proof fn lemma_new_keys_add_rows(rows: Seq<Ticket>, ts: Seq<Ticket>)
    requires
        keys_unique(rows),
        forall|a: int, b: int|
            0 <= a < ts.len() && 0 <= b < ts.len() && a != b ==> (#[trigger] ts[a]).jira_key@
                != (#[trigger] ts[b]).jira_key@,
        forall|a: int, j: int|
            0 <= a < ts.len() && 0 <= j < rows.len() ==> (#[trigger] ts[a]).jira_key@
                != (#[trigger] rows[j]).jira_key@,
    ensures
        upserted_all(rows, ts).len() == rows.len() + ts.len(),
        keys_unique(upserted_all(rows, ts)),
        forall|a: int| 0 <= a < ts.len() ==> row_of(upserted_all(rows, ts), (#[trigger] ts[a]).jira_key@) is Some,
    decreases ts.len(),
{
    if ts.len() > 0 {
        let d = ts.drop_last();
        let t = ts.last();
        assert(t == ts[ts.len() - 1]);
        assert forall|a: int, b: int| 0 <= a < d.len() && 0 <= b < d.len() && a != b implies (#[trigger] d[a]).jira_key@
            != (#[trigger] d[b]).jira_key@ by {
            assert(d[a] == ts[a] && d[b] == ts[b]);
        }
        assert forall|a: int, j: int| 0 <= a < d.len() && 0 <= j < rows.len() implies (#[trigger] d[a]).jira_key@
            != (#[trigger] rows[j]).jira_key@ by {
            assert(d[a] == ts[a]);
        }
        lemma_new_keys_add_rows(rows, d);
        let u = upserted_all(rows, d);
        assert(upserted_all(rows, ts) == upserted(u, t));
        assert forall|j: int| 0 <= j < u.len() implies (#[trigger] u[j]).jira_key@ != t.jira_key@ by {
            lemma_rows_have_known_keys(rows, d, j);
            if j < rows.len() {
                assert(ts[ts.len() - 1].jira_key@ != rows[j].jira_key@);
            } else {
                let a = choose|a: int| 0 <= a < d.len() && d[a].jira_key@ == u[j].jira_key@;
                assert(d[a] == ts[a]);
                assert(ts[a].jira_key@ != ts[ts.len() - 1].jira_key@);
            }
        }
        if row_of(u, t.jira_key@) is Some {
            let c = choose|c: int| 0 <= c < u.len() && (#[trigger] u[c]).jira_key@ == t.jira_key@;
            assert(u[c].jira_key@ != t.jira_key@);
        }
        lemma_upserted_row(u, t);
        let r = upserted(u, t);
        assert forall|a: int| 0 <= a < ts.len() implies row_of(r, (#[trigger] ts[a]).jira_key@) is Some by {
            if a < d.len() {
                assert(d[a] == ts[a]);
                assert(row_of(u, d[a].jira_key@) is Some);
                let c = choose|c: int| 0 <= c < u.len() && (#[trigger] u[c]).jira_key@ == d[a].jira_key@;
                assert(r[c].jira_key@ == u[c].jira_key@);
            }
        }
    }
}

/// Every row after upserting `ts` into `rows` is a row of `rows` or holds
/// the key of one of `ts`.
proof fn lemma_rows_have_known_keys(rows: Seq<Ticket>, ts: Seq<Ticket>, j: int)
    requires
        0 <= j < upserted_all(rows, ts).len(),
    ensures
        j < rows.len() ==> upserted_all(rows, ts)[j].jira_key@ == rows[j].jira_key@,
        j >= rows.len() ==> exists|a: int| 0 <= a < ts.len() && ts[a].jira_key@ == upserted_all(rows, ts)[j].jira_key@,
    decreases ts.len(),
{
    if ts.len() > 0 {
        let d = ts.drop_last();
        let u = upserted_all(rows, d);
        let t = ts.last();
        match row_of(u, t.jira_key@) {
            Some(i) => {
                lemma_rows_have_known_keys(rows, d, j);
                if j >= rows.len() {
                    let a = choose|a: int| 0 <= a < d.len() && d[a].jira_key@ == u[j].jira_key@;
                    assert(d[a] == ts[a]);
                }
            },
            None => {
                if j < u.len() {
                    lemma_rows_have_known_keys(rows, d, j);
                    if j >= rows.len() {
                        let a = choose|a: int| 0 <= a < d.len() && d[a].jira_key@ == u[j].jira_key@;
                        assert(d[a] == ts[a]);
                    }
                } else {
                    assert(ts[ts.len() - 1] == t);
                    if j < rows.len() {
                        lemma_upserted_all_len(rows, d);
                    }
                }
            },
        }
    }
}

proof fn lemma_upserted_all_len(rows: Seq<Ticket>, ts: Seq<Ticket>)
    ensures
        upserted_all(rows, ts).len() >= rows.len(),
    decreases ts.len(),
{
    if ts.len() > 0 {
        lemma_upserted_all_len(rows, ts.drop_last());
    }
}

} // verus!
