use vstd::prelude::*;
use crate::errors::AppError;
use crate::model::Ticket;
use crate::order::{is_index_perm, key_before, lists, sort_indices, sorted_by_key, text_lt};
use crate::store::TicketStore;
use crate::text::same_text;

verus! {

/// Tickets that share one grouping key.
pub struct Group {
    pub key: String,
    pub count: usize,
    /// How many of them carry the flag.
    pub flagged: usize,
}

/// How many entries of `keys` equal `k`.
pub open spec fn occurrences(keys: Seq<String>, k: Seq<char>) -> nat
    decreases keys.len(),
{
    if keys.len() == 0 {
        0
    } else {
        occurrences(keys.drop_last(), k) + if keys.last()@ == k { 1nat } else { 0nat }
    }
}

/// How many entries of `keys` equal `k` and carry the flag.
pub open spec fn flagged_occurrences(keys: Seq<String>, flags: Seq<bool>, k: Seq<char>) -> nat
    decreases keys.len(),
{
    if keys.len() == 0 {
        0
    } else {
        flagged_occurrences(keys.drop_last(), flags, k) + if keys.last()@ == k && flags[keys.len() - 1] {
            1nat
        } else {
            0nat
        }
    }
}

proof fn lemma_occurrences_bound(keys: Seq<String>, k: Seq<char>)
    ensures
        occurrences(keys, k) <= keys.len(),
    decreases keys.len(),
{
    if keys.len() > 0 {
        lemma_occurrences_bound(keys.drop_last(), k);
    }
}

/// Groups are keyed by distinct texts.
pub open spec fn distinct_keys(gs: Seq<Group>) -> bool {
    forall|a: int, b: int|
        0 <= a < gs.len() && 0 <= b < gs.len() && a != b ==> (#[trigger] gs[a]).key@ != (#[trigger] gs[b]).key@
}

/// `gs` is the grouping of `keys`: one group per distinct key, with its
/// number of entries and of flagged entries.
pub open spec fn is_grouping(gs: Seq<Group>, keys: Seq<String>, flags: Seq<bool>) -> bool {
    &&& distinct_keys(gs)
    &&& forall|j: int| 0 <= j < gs.len() ==> (#[trigger] gs[j]).count == occurrences(keys, gs[j].key@)
        && gs[j].flagged == flagged_occurrences(keys, flags, gs[j].key@) && gs[j].count >= 1
    &&& forall|q: int| 0 <= q < keys.len() ==> #[trigger] has_group(gs, keys[q]@)
}

pub open spec fn has_group(gs: Seq<Group>, k: Seq<char>) -> bool {
    exists|j: int| 0 <= j < gs.len() && gs[j].key@ == k
}

/// Groups the keys, in order of first appearance, counting entries and
/// flagged entries per key.
pub fn group_keys(keys: &Vec<String>, flags: &Vec<bool>) -> (r: Vec<Group>)
    requires
        keys@.len() == flags@.len(),
    ensures
        is_grouping(r@, keys@, flags@),
{
    let n = keys.len();
    let mut gs: Vec<Group> = Vec::new();
    let mut i: usize = 0;
    while i < n
        invariant
            n == keys@.len(),
            n == flags@.len(),
            i <= n,
            is_grouping(gs@, keys@.subrange(0, i as int), flags@),
            forall|j: int| 0 <= j < gs@.len() ==> (#[trigger] gs@[j]).count <= i && gs@[j].flagged <= gs@[j].count,
        decreases n - i,
    {
        let ghost pre = keys@.subrange(0, i as int);
        let ghost post = keys@.subrange(0, i + 1);
        proof {
            assert(post.drop_last() == pre);
            assert(post.last() == keys@[i as int]);
            assert(post.len() == i + 1);
        }
        let fl: usize = if flags[i] { 1 } else { 0 };
        let mut j: usize = 0;
        let mut found = false;
        while j < gs.len() && !found
            invariant
                j <= gs@.len(),
                i < n,
                n == keys@.len(),
                found ==> j < gs@.len() && gs@[j as int].key@ == keys@[i as int]@,
                forall|q: int| 0 <= q < j ==> (#[trigger] gs@[q]).key@ != keys@[i as int]@,
            decreases gs@.len() - j + if found { 0int } else { 1int },
        {
            if gs[j].key == keys[i] {
                found = true;
            } else {
                j = j + 1;
            }
        }
        let ghost old_gs = gs@;
        if found {
            let g = Group { key: gs[j].key.clone(), count: gs[j].count + 1, flagged: gs[j].flagged + fl };
            proof {
                lemma_occurrences_bound(pre, gs@[j as int].key@);
            }
            gs.set(j, g);
            proof {
                assert forall|a: int, b: int|
                    0 <= a < gs@.len() && 0 <= b < gs@.len() && a != b implies (#[trigger] gs@[a]).key@
                        != (#[trigger] gs@[b]).key@ by {
                    assert(old_gs[a].key@ != old_gs[b].key@);
                }
                assert forall|q: int| 0 <= q < post.len() implies #[trigger] has_group(gs@, post[q]@) by {
                    if q < i {
                        assert(pre[q] == post[q]);
                        assert(has_group(old_gs, pre[q]@));
                        let w = choose|w: int| 0 <= w < old_gs.len() && old_gs[w].key@ == pre[q]@;
                        assert(gs@[w].key@ == post[q]@);
                    } else {
                        assert(gs@[j as int].key@ == post[q]@);
                    }
                }
            }
        } else {
            let g = Group { key: keys[i].clone(), count: 1, flagged: fl };
            gs.push(g);
            proof {
                assert forall|a: int, b: int|
                    0 <= a < gs@.len() && 0 <= b < gs@.len() && a != b implies (#[trigger] gs@[a]).key@
                        != (#[trigger] gs@[b]).key@ by {
                    if a < old_gs.len() && b < old_gs.len() {
                        assert(old_gs[a].key@ != old_gs[b].key@);
                    }
                }
                assert forall|q: int| 0 <= q < post.len() implies #[trigger] has_group(gs@, post[q]@) by {
                    if q < i {
                        assert(pre[q] == post[q]);
                        assert(has_group(old_gs, pre[q]@));
                        let w = choose|w: int| 0 <= w < old_gs.len() && old_gs[w].key@ == pre[q]@;
                        assert(gs@[w].key@ == post[q]@);
                    } else {
                        assert(gs@[old_gs.len() as int].key@ == post[q]@);
                    }
                }
                assert(occurrences(pre, keys@[i as int]@) == 0) by {
                    lemma_absent_zero(pre, old_gs, keys@[i as int]@);
                }
                assert(flagged_occurrences(pre, flags@, keys@[i as int]@) == 0) by {
                    lemma_absent_zero_flagged(pre, flags@, old_gs, keys@[i as int]@);
                }
            }
        }
        i = i + 1;
    }
    assert(keys@.subrange(0, n as int) == keys@);
    gs
}

proof fn lemma_absent_zero(keys: Seq<String>, gs: Seq<Group>, k: Seq<char>)
    requires
        forall|q: int| 0 <= q < keys.len() ==> #[trigger] has_group(gs, keys[q]@),
        forall|j: int| 0 <= j < gs.len() ==> (#[trigger] gs[j]).key@ != k,
    ensures
        occurrences(keys, k) == 0,
    decreases keys.len(),
{
    if keys.len() > 0 {
        let d = keys.drop_last();
        assert forall|q: int| 0 <= q < d.len() implies #[trigger] has_group(gs, d[q]@) by {
            assert(d[q] == keys[q]);
        }
        lemma_absent_zero(d, gs, k);
        assert(has_group(gs, keys[keys.len() - 1]@));
    }
}

proof fn lemma_absent_zero_flagged(keys: Seq<String>, flags: Seq<bool>, gs: Seq<Group>, k: Seq<char>)
    requires
        forall|q: int| 0 <= q < keys.len() ==> #[trigger] has_group(gs, keys[q]@),
        forall|j: int| 0 <= j < gs.len() ==> (#[trigger] gs[j]).key@ != k,
    ensures
        flagged_occurrences(keys, flags, k) == 0,
    decreases keys.len(),
{
    if keys.len() > 0 {
        let d = keys.drop_last();
        assert forall|q: int| 0 <= q < d.len() implies #[trigger] has_group(gs, d[q]@) by {
            assert(d[q] == keys[q]);
        }
        lemma_absent_zero_flagged(d, flags, gs, k);
        assert(has_group(gs, keys[keys.len() - 1]@));
    }
}

/// `r` holds the groups `gs` in the order that `p` gives.
pub open spec fn reordered(r: Seq<Group>, gs: Seq<Group>, p: Seq<usize>) -> bool {
    &&& r.len() == p.len()
    &&& forall|k: int| 0 <= k < r.len() ==> #[trigger] r[k] == gs[p[k] as int]
}

proof fn lemma_reordered_grouping(r: Seq<Group>, gs: Seq<Group>, p: Seq<usize>, keys: Seq<String>, flags: Seq<bool>)
    requires
        is_grouping(gs, keys, flags),
        is_index_perm(p, gs.len() as int),
        forall|v: int| 0 <= v < gs.len() ==> #[trigger] lists(p, v),
        reordered(r, gs, p),
    ensures
        is_grouping(r, keys, flags),
{
    assert forall|a: int, b: int| 0 <= a < r.len() && 0 <= b < r.len() && a != b implies (#[trigger] r[a]).key@
        != (#[trigger] r[b]).key@ by {
        assert(r[a] == gs[p[a] as int]);
        assert(r[b] == gs[p[b] as int]);
    }
    assert forall|j: int| 0 <= j < r.len() implies (#[trigger] r[j]).count == occurrences(keys, r[j].key@)
        && r[j].flagged == flagged_occurrences(keys, flags, r[j].key@) && r[j].count >= 1 by {
        assert(r[j] == gs[p[j] as int]);
    }
    assert forall|q: int| 0 <= q < keys.len() implies #[trigger] has_group(r, keys[q]@) by {
        assert(has_group(gs, keys[q]@));
        let g = choose|g: int| 0 <= g < gs.len() && gs[g].key@ == keys[q]@;
        assert(lists(p, g));
        let w = choose|w: int| 0 <= w < p.len() && p[w] == g;
        assert(r[w] == gs[g]);
    }
}

fn copy_group(g: &Group) -> (r: Group)
    ensures
        r == *g,
{
    Group { key: g.key.clone(), count: g.count, flagged: g.flagged }
}

/// The groups in the order that `p` gives.
fn arrange(gs: &Vec<Group>, p: &Vec<usize>) -> (r: Vec<Group>)
    requires
        forall|k: int| 0 <= k < p@.len() ==> (#[trigger] p@[k]) < gs@.len(),
    ensures
        reordered(r@, gs@, p@),
{
    let mut r: Vec<Group> = Vec::new();
    let mut k: usize = 0;
    while k < p.len()
        invariant
            k <= p@.len(),
            forall|q: int| 0 <= q < p@.len() ==> (#[trigger] p@[q]) < gs@.len(),
            r@.len() == k,
            forall|q: int| 0 <= q < k ==> #[trigger] r@[q] == gs@[p@[q] as int],
        decreases p@.len() - k,
    {
        r.push(copy_group(&gs[p[k]]));
        k = k + 1;
    }
    r
}

/// Entries in order of count, largest first.
pub open spec fn by_count_desc(r: Seq<Group>) -> bool {
    forall|k: int| 0 <= k < r.len() - 1 ==> (#[trigger] r[k]).count >= r[k + 1].count
}

/// Entries in ascending order of their keys.
pub open spec fn by_key_asc(r: Seq<Group>) -> bool {
    forall|k: int| 0 <= k < r.len() - 1 ==> !text_lt((#[trigger] r[k + 1]).key@, r[k].key@)
}

/// Groups the keys, largest group first.
pub fn count_groups(keys: &Vec<String>) -> (r: Vec<Group>)
    ensures
        is_grouping(r@, keys@, Seq::new(keys@.len(), |i: int| false)),
        by_count_desc(r@),
{
    let mut flags: Vec<bool> = Vec::new();
    let mut i: usize = 0;
    while i < keys.len()
        invariant
            i <= keys@.len(),
            flags@ == Seq::new(i as nat, |k: int| false),
        decreases keys@.len() - i,
    {
        flags.push(false);
        i = i + 1;
    }
    let gs = group_keys(keys, &flags);
    let mut nums: Vec<i128> = Vec::new();
    let mut names: Vec<String> = Vec::new();
    let mut j: usize = 0;
    while j < gs.len()
        invariant
            j <= gs@.len(),
            nums@.len() == j,
            names@.len() == j,
            forall|q: int| 0 <= q < j ==> #[trigger] nums@[q] == -(gs@[q].count as int),
            forall|q: int| 0 <= q < j ==> #[trigger] names@[q] == gs@[q].key,
        decreases gs@.len() - j,
    {
        nums.push(-(gs[j].count as i128));
        names.push(gs[j].key.clone());
        j = j + 1;
    }
    let p = sort_indices(&nums, &names, false);
    let r = arrange(&gs, &p);
    proof {
        lemma_reordered_grouping(r@, gs@, p@, keys@, flags@);
        assert forall|k: int| 0 <= k < r@.len() - 1 implies (#[trigger] r@[k]).count >= r@[k + 1].count by {
            assert(!key_before(nums@[p@[k + 1] as int], names@[p@[k + 1] as int]@, nums@[p@[k] as int],
                names@[p@[k] as int]@, false));
            assert(r@[k] == gs@[p@[k] as int]);
            assert(r@[k + 1] == gs@[p@[k + 1] as int]);
        }
    }
    r
}

/// Groups the keys in ascending key order.
pub fn key_groups(keys: &Vec<String>, flags: &Vec<bool>) -> (r: Vec<Group>)
    requires
        keys@.len() == flags@.len(),
    ensures
        is_grouping(r@, keys@, flags@),
        by_key_asc(r@),
{
    let gs = group_keys(keys, flags);
    let mut nums: Vec<i128> = Vec::new();
    let mut names: Vec<String> = Vec::new();
    let mut j: usize = 0;
    while j < gs.len()
        invariant
            j <= gs@.len(),
            nums@.len() == j,
            names@.len() == j,
            forall|q: int| 0 <= q < j ==> #[trigger] nums@[q] == 0,
            forall|q: int| 0 <= q < j ==> #[trigger] names@[q] == gs@[q].key,
        decreases gs@.len() - j,
    {
        nums.push(0);
        names.push(gs[j].key.clone());
        j = j + 1;
    }
    let p = sort_indices(&nums, &names, false);
    let r = arrange(&gs, &p);
    proof {
        lemma_reordered_grouping(r@, gs@, p@, keys@, flags@);
        assert forall|k: int| 0 <= k < r@.len() - 1 implies !text_lt((#[trigger] r@[k + 1]).key@, r@[k].key@) by {
            assert(!key_before(nums@[p@[k + 1] as int], names@[p@[k + 1] as int]@, nums@[p@[k] as int],
                names@[p@[k] as int]@, false));
            assert(r@[k] == gs@[p@[k] as int]);
            assert(r@[k + 1] == gs@[p@[k + 1] as int]);
        }
    }
    r
}

/// A ticket attribute that the dashboard counts by.
#[derive(PartialEq, Eq, Structural, Clone, Copy, Debug)]
pub enum CountField {
    Status,
    Priority,
    Category,
}

/// The label of a ticket under a counted attribute; an absent category is
/// "Uncategorized".
pub open spec fn label_of(t: Ticket, f: CountField) -> Seq<char> {
    match f {
        CountField::Status => t.status@,
        CountField::Priority => t.priority@,
        CountField::Category => match t.category {
            Some(c) => c@,
            None => "Uncategorized"@,
        },
    }
}

pub open spec fn labels_of(ts: Seq<Ticket>, f: CountField, ls: Seq<String>) -> bool {
    &&& ls.len() == ts.len()
    &&& forall|i: int| 0 <= i < ts.len() ==> (#[trigger] ls[i])@ == label_of(ts[i], f)
}

fn label_column(tickets: &Vec<Ticket>, f: CountField) -> (r: Vec<String>)
    ensures
        labels_of(tickets@, f, r@),
{
    let mut r: Vec<String> = Vec::new();
    let mut i: usize = 0;
    while i < tickets.len()
        invariant
            i <= tickets@.len(),
            r@.len() == i,
            forall|k: int| 0 <= k < i ==> (#[trigger] r@[k])@ == label_of(tickets@[k], f),
        decreases tickets@.len() - i,
    {
        let t = &tickets[i];
        let v = match f {
            CountField::Status => t.status.clone(),
            CountField::Priority => t.priority.clone(),
            CountField::Category => match &t.category {
                Some(c) => c.clone(),
                None => String::from_str("Uncategorized"),
            },
        };
        r.push(v);
        i = i + 1;
    }
    r
}

/// One row of a grouped count.
pub struct CountEntry {
    pub name: String,
    pub count: usize,
}

/// `r` lists the groups `gs` as count rows, in the same order.
pub open spec fn count_rows(r: Seq<CountEntry>, gs: Seq<Group>) -> bool {
    &&& r.len() == gs.len()
    &&& forall|k: int| 0 <= k < r.len() ==> (#[trigger] r[k]).name@ == gs[k].key@ && r[k].count == gs[k].count
}

fn to_count_rows(gs: &Vec<Group>) -> (r: Vec<CountEntry>)
    ensures
        count_rows(r@, gs@),
{
    let mut r: Vec<CountEntry> = Vec::new();
    let mut k: usize = 0;
    while k < gs.len()
        invariant
            k <= gs@.len(),
            r@.len() == k,
            forall|q: int| 0 <= q < k ==> (#[trigger] r@[q]).name@ == gs@[q].key@ && r@[q].count == gs@[q].count,
        decreases gs@.len() - k,
    {
        r.push(CountEntry { name: gs[k].key.clone(), count: gs[k].count });
        k = k + 1;
    }
    r
}

/// `r` counts the tickets per label of `f`: one row per distinct label,
/// with its number of tickets, largest first.
pub open spec fn is_count_table(r: Seq<CountEntry>, ts: Seq<Ticket>, f: CountField) -> bool {
    exists|ls: Seq<String>, gs: Seq<Group>|
        #![trigger labels_of(ts, f, ls), count_rows(r, gs)]
        labels_of(ts, f, ls) && is_grouping(gs, ls, Seq::new(ls.len(), |i: int| false)) && by_count_desc(gs)
            && count_rows(r, gs)
}

/// Tickets grouped by one attribute, largest group first.
pub fn count_by_field(tickets: &Vec<Ticket>, f: CountField) -> (r: Vec<CountEntry>)
    ensures
        is_count_table(r@, tickets@, f),
{
    let ls = label_column(tickets, f);
    let gs = count_groups(&ls);
    let r = to_count_rows(&gs);
    assert(count_rows(r@, gs@));
    r
}

pub open spec fn count_field_named(field: Seq<char>) -> Option<CountField> {
    if field == "status"@ {
        Some(CountField::Status)
    } else if field == "priority"@ {
        Some(CountField::Priority)
    } else if field == "category"@ {
        Some(CountField::Category)
    } else {
        None
    }
}

/// Grouped counts by a named attribute (`status`, `priority` or
/// `category`); any other name is refused.
pub fn get_count_by_field(tickets: &Vec<Ticket>, field: &str) -> (r: Result<Vec<CountEntry>, AppError>)
    ensures
        count_field_named(field@) is None <==> r matches Err(AppError::Internal(_)),
        r is Ok ==> count_field_named(field@) is Some,
        r matches Ok(rows) ==> is_count_table(rows@, tickets@, count_field_named(field@)->Some_0),
{
    let f = if same_text(field, "status") {
        CountField::Status
    } else if same_text(field, "priority") {
        CountField::Priority
    } else if same_text(field, "category") {
        CountField::Category
    } else {
        return Err(AppError::Internal(String::from_str("Invalid field name")));
    };
    assert(count_field_named(field@) == Some(f));
    let rows = count_by_field(tickets, f);
    Ok(rows)
}

/// The `YYYY-MM` month of an ISO-8601 timestamp: its first seven characters.
pub open spec fn month_of(s: Seq<char>) -> Seq<char> {
    if s.len() >= 7 {
        s.subrange(0, 7)
    } else {
        s
    }
}

/// Resolved within the month in which it was created.
pub open spec fn resolved_same_month(t: Ticket) -> bool {
    match t.resolved_at {
        Some(r) => month_of(r@) == month_of(t.created_at@),
        None => false,
    }
}

pub fn month_text(s: &String) -> (r: String)
    ensures
        r@ == month_of(s@),
{
    let n = s.unicode_len();
    let m: usize = if n >= 7 { 7 } else { n };
    let r = String::from_str(s.substring_char(0, m));
    assert(n < 7 ==> s@.subrange(0, n as int) == s@);
    r
}

/// One month of the time series.
pub struct TimeSeriesEntry {
    /// `YYYY-MM`.
    pub date: String,
    pub created: usize,
    /// Tickets created in the month and resolved within that same month.
    pub resolved: usize,
}

pub open spec fn months_of(ts: Seq<Ticket>, ks: Seq<String>, fs: Seq<bool>) -> bool {
    &&& ks.len() == ts.len()
    &&& fs.len() == ts.len()
    &&& forall|i: int| 0 <= i < ts.len() ==> (#[trigger] ks[i])@ == month_of(ts[i].created_at@)
        && fs[i] == resolved_same_month(ts[i])
}

/// The monthly series: months ascending, at most twelve, the earliest first.
pub open spec fn is_time_series(r: Seq<TimeSeriesEntry>, ts: Seq<Ticket>) -> bool {
    exists|ks: Seq<String>, fs: Seq<bool>, gs: Seq<Group>|
        #![trigger months_of(ts, ks, fs), series_rows(r, gs)]
        months_of(ts, ks, fs) && is_grouping(gs, ks, fs) && by_key_asc(gs) && series_rows(r, gs)
}

/// `r` lists the first twelve (or fewer) groups of `gs` as series rows.
pub open spec fn series_rows(r: Seq<TimeSeriesEntry>, gs: Seq<Group>) -> bool {
    &&& r.len() == if gs.len() < 12 { gs.len() } else { 12 }
    &&& forall|k: int| 0 <= k < r.len() ==> (#[trigger] r[k]).date@ == gs[k].key@ && r[k].created == gs[k].count
        && r[k].resolved == gs[k].flagged
}

/// Created and same-month-resolved counts per creation month.
pub fn get_tickets_over_time(tickets: &Vec<Ticket>) -> (r: Vec<TimeSeriesEntry>)
    ensures
        is_time_series(r@, tickets@),
{
    let mut ks: Vec<String> = Vec::new();
    let mut fs: Vec<bool> = Vec::new();
    let mut i: usize = 0;
    while i < tickets.len()
        invariant
            i <= tickets@.len(),
            ks@.len() == i,
            fs@.len() == i,
            forall|k: int| 0 <= k < i ==> (#[trigger] ks@[k])@ == month_of(tickets@[k].created_at@),
            forall|k: int| 0 <= k < i ==> #[trigger] fs@[k] == resolved_same_month(tickets@[k]),
        decreases tickets@.len() - i,
    {
        let t = &tickets[i];
        let m = month_text(&t.created_at);
        let same = match &t.resolved_at {
            Some(res) => {
                let rm = month_text(res);
                same_text(&rm, &m)
            },
            None => false,
        };
        assert(same == resolved_same_month(tickets@[i as int]));
        ks.push(m);
        assert(ks@[i as int]@ == month_of(tickets@[i as int].created_at@));
        fs.push(same);
        i = i + 1;
    }
    let gs = key_groups(&ks, &fs);
    let lim: usize = if gs.len() < 12 { gs.len() } else { 12 };
    let mut r: Vec<TimeSeriesEntry> = Vec::new();
    let mut k: usize = 0;
    while k < lim
        invariant
            lim <= gs@.len(),
            lim == if gs@.len() < 12 { gs@.len() } else { 12 },
            k <= lim,
            r@.len() == k,
            forall|q: int| 0 <= q < k ==> (#[trigger] r@[q]).date@ == gs@[q].key@ && r@[q].created == gs@[q].count
                && r@[q].resolved == gs@[q].flagged,
        decreases lim - k,
    {
        r.push(TimeSeriesEntry { date: gs[k].key.clone(), created: gs[k].count, resolved: gs[k].flagged });
        k = k + 1;
    }
    assert(months_of(tickets@, ks@, fs@));
    assert(series_rows(r@, gs@));
    r
}

/// What `DateTime::parse_from_str` with the ISO-8601 format of the tracker
/// gives as Unix seconds for a timestamp text.
pub uninterp spec fn parsed_timestamp(s: Seq<char>) -> Option<i64>;

/// Relies on `chrono::DateTime::parse_from_str` (format
/// `%Y-%m-%dT%H:%M:%S%.f%#z`) and `DateTime::timestamp`: the instant as
/// seconds since the Unix epoch, or `None` when the text does not parse.
#[verifier::external_body]
fn timestamp_seconds(s: &str) -> (r: Option<i64>)
    ensures
        r == parsed_timestamp(s@),
{
    chrono::DateTime::parse_from_str(s, "%Y-%m-%dT%H:%M:%S%.f%#z").ok().map(|d| d.timestamp())
}

/// Calendar resolution time of a ticket in seconds, when it is resolved and
/// both timestamps parse.
pub open spec fn resolution_secs(t: Ticket) -> Option<i64> {
    match t.resolved_at {
        None => None,
        Some(r) => match (parsed_timestamp(t.created_at@), parsed_timestamp(r@)) {
            (Some(c), Some(e)) => if i64::MIN <= e - c <= i64::MAX {
                Some((e - c) as i64)
            } else {
                None
            },
            _ => None,
        },
    }
}

/// Resolution times of the tickets, in order, restricted to one priority
/// when `prio` names one.
pub open spec fn durations_of(ts: Seq<Ticket>, prio: Option<Seq<char>>) -> Seq<i64>
    decreases ts.len(),
{
    if ts.len() == 0 {
        Seq::empty()
    } else {
        let rest = durations_of(ts.drop_last(), prio);
        let t = ts.last();
        let in_scope = match prio {
            Some(p) => t.priority@ == p,
            None => true,
        };
        match resolution_secs(t) {
            Some(d) => if in_scope { rest.push(d) } else { rest },
            None => rest,
        }
    }
}

fn resolution_seconds(t: &Ticket) -> (r: Option<i64>)
    ensures
        r == resolution_secs(*t),
{
    match &t.resolved_at {
        None => None,
        Some(res) => {
            let c = timestamp_seconds(&t.created_at);
            let e = timestamp_seconds(res);
            match (c, e) {
                (Some(c), Some(e)) => {
                    let d: i128 = e as i128 - c as i128;
                    if i64::MIN as i128 <= d && d <= i64::MAX as i128 {
                        Some(d as i64)
                    } else {
                        None
                    }
                },
                _ => None,
            }
        },
    }
}

/// Resolution times of the tickets, optionally of one priority.
pub fn durations(tickets: &Vec<Ticket>, prio: Option<&String>) -> (r: Vec<i64>)
    ensures
        r@ == durations_of(
            tickets@,
            match prio {
                Some(p) => Some(p@),
                None => None,
            },
        ),
{
    let ghost pv = match prio {
        Some(p) => Some(p@),
        None => None,
    };
    let mut r: Vec<i64> = Vec::new();
    let mut i: usize = 0;
    while i < tickets.len()
        invariant
            i <= tickets@.len(),
            r@ == durations_of(tickets@.subrange(0, i as int), pv),
            pv == match prio {
                Some(p) => Some(p@),
                None => None::<Seq<char>>,
            },
        decreases tickets@.len() - i,
    {
        let t = &tickets[i];
        proof {
            let s = tickets@.subrange(0, i + 1);
            assert(s.drop_last() == tickets@.subrange(0, i as int));
            assert(s.last() == tickets@[i as int]);
        }
        let in_scope = match prio {
            Some(p) => same_text(&t.priority, p),
            None => true,
        };
        match resolution_seconds(t) {
            Some(d) => {
                if in_scope {
                    r.push(d);
                }
            },
            None => {},
        }
        i = i + 1;
    }
    assert(tickets@.subrange(0, tickets@.len() as int) == tickets@);
    r
}

pub open spec fn sum_of(s: Seq<i64>) -> int
    decreases s.len(),
{
    if s.len() == 0 {
        0
    } else {
        sum_of(s.drop_last()) + s.last()
    }
}

/// `m` is the value at position `len / 2` of the values ordered ascending
/// (the lower median for even counts); zero for no values.
pub open spec fn is_lower_median(m: i64, s: Seq<i64>) -> bool {
    if s.len() == 0 {
        m == 0
    } else {
        exists|p: Seq<usize>|
            is_index_perm(p, s.len() as int) && (forall|k: int|
                0 <= k < s.len() - 1 ==> s[#[trigger] p[k] as int] <= s[p[k + 1] as int]) && m == s[p[(
            s.len() / 2) as int] as int]
    }
}

/// Count, sum and lower median of resolution times in seconds.
pub struct DurationStats {
    pub count: usize,
    pub total_seconds: i128,
    pub median_seconds: i64,
}

pub open spec fn stats_of(st: DurationStats, s: Seq<i64>) -> bool {
    &&& st.count == s.len()
    &&& st.total_seconds == sum_of(s)
    &&& is_lower_median(st.median_seconds, s)
}

/// The lower median: the value at index `len / 2` once sorted ascending.
pub fn lower_median(values: &Vec<i64>) -> (r: i64)
    ensures
        is_lower_median(r, values@),
{
    let n = values.len();
    if n == 0 {
        return 0;
    }
    let mut nums: Vec<i128> = Vec::new();
    let mut texts: Vec<String> = Vec::new();
    let mut i: usize = 0;
    while i < n
        invariant
            n == values@.len(),
            i <= n,
            nums@.len() == i,
            texts@.len() == i,
            forall|k: int| 0 <= k < i ==> #[trigger] nums@[k] == values@[k] as i128,
            forall|k: int| 0 <= k < i ==> (#[trigger] texts@[k])@ == Seq::<char>::empty(),
        decreases n - i,
    {
        nums.push(values[i] as i128);
        texts.push(String::new());
        i = i + 1;
    }
    let p = sort_indices(&nums, &texts, false);
    proof {
        assert forall|k: int| 0 <= k < n - 1 implies values@[#[trigger] p@[k] as int] <= values@[p@[k + 1] as int] by {
            assert(!key_before(nums@[p@[k + 1] as int], texts@[p@[k + 1] as int]@, nums@[p@[k] as int],
                texts@[p@[k] as int]@, false));
            assert(!text_lt(Seq::<char>::empty(), Seq::<char>::empty()));
        }
    }
    values[p[n / 2]]
}

/// Sum of the values, exact in 128 bits.
pub fn sum_seconds(values: &Vec<i64>) -> (r: i128)
    ensures
        r == sum_of(values@),
{
    let n = values.len();
    let mut total: i128 = 0;
    let mut i: usize = 0;
    while i < n
        invariant
            n == values@.len(),
            i <= n,
            total == sum_of(values@.subrange(0, i as int)),
            -(i as int) * 0x8000_0000_0000_0000 <= total <= (i as int) * 0x8000_0000_0000_0000,
        decreases n - i,
    {
        proof {
            let s = values@.subrange(0, i + 1);
            assert(s.drop_last() == values@.subrange(0, i as int));
            assert(s.last() == values@[i as int]);
            assert((i as int) * 0x8000_0000_0000_0000 + 0x8000_0000_0000_0000 <= 0x7fff_ffff_ffff_ffff_ffff_ffff_ffff_ffff)
                by (nonlinear_arith)
                requires i < n, n <= usize::MAX;
            assert((i + 1) as int * 0x8000_0000_0000_0000 == (i as int) * 0x8000_0000_0000_0000 + 0x8000_0000_0000_0000)
                by (nonlinear_arith);
        }
        total = total + values[i] as i128;
        i = i + 1;
    }
    assert(values@.subrange(0, n as int) == values@);
    total
}

pub fn duration_stats(values: &Vec<i64>) -> (r: DurationStats)
    ensures
        stats_of(r, values@),
{
    DurationStats { count: values.len(), total_seconds: sum_seconds(values), median_seconds: lower_median(values) }
}

/// Rank of a priority in the dashboard's fixed order; unknown names last.
pub open spec fn priority_rank(p: Seq<char>) -> i128 {
    if p == "Critical"@ {
        1
    } else if p == "High"@ {
        2
    } else if p == "Medium"@ {
        3
    } else if p == "Low"@ {
        4
    } else {
        5
    }
}

pub fn rank_of(p: &String) -> (r: i128)
    ensures
        r == priority_rank(p@),
{
    if same_text(p, "Critical") {
        1
    } else if same_text(p, "High") {
        2
    } else if same_text(p, "Medium") {
        3
    } else if same_text(p, "Low") {
        4
    } else {
        5
    }
}

/// `fs` marks the resolved tickets of `ts`.
pub open spec fn resolved_flags(ts: Seq<Ticket>, fs: Seq<bool>) -> bool {
    &&& fs.len() == ts.len()
    &&& forall|i: int| 0 <= i < ts.len() ==> #[trigger] fs[i] == ts[i].resolved_at is Some
}

/// Resolution statistics of one priority.
pub struct AvgEntry {
    pub name: String,
    /// Resolved tickets of this priority; zero when none is resolved.
    pub count: usize,
    /// Over the resolved tickets of this priority whose timestamps parse;
    /// all zero when there are none.
    pub stats: DurationStats,
}

/// `e` describes priority `e.name` of the tickets whose priorities are `ks`
/// and resolved marks `fs`.
pub open spec fn avg_entry_ok(e: AvgEntry, ts: Seq<Ticket>, ks: Seq<String>, fs: Seq<bool>) -> bool {
    &&& occurrences(ks, e.name@) >= 1
    &&& e.count == flagged_occurrences(ks, fs, e.name@)
    &&& stats_of(e.stats, durations_of(ts, Some(e.name@)))
}

pub open spec fn has_entry(r: Seq<AvgEntry>, k: Seq<char>) -> bool {
    exists|j: int| 0 <= j < r.len() && r[j].name@ == k
}

/// Entries in the fixed priority order, names ascending within a rank.
pub open spec fn ranked(r: Seq<AvgEntry>) -> bool {
    forall|k: int|
        0 <= k < r.len() - 1 ==> !key_before(
            priority_rank((#[trigger] r[k + 1]).name@),
            r[k + 1].name@,
            priority_rank(r[k].name@),
            r[k].name@,
            false,
        )
}

/// Per-priority resolution statistics: one entry for each priority that any
/// ticket has, with zero count and zero statistics where no ticket of that
/// priority is resolved.
pub open spec fn is_priority_table(r: Seq<AvgEntry>, ts: Seq<Ticket>) -> bool {
    exists|ks: Seq<String>, fs: Seq<bool>|
        #![trigger labels_of(ts, CountField::Priority, ks), resolved_flags(ts, fs)]
        labels_of(ts, CountField::Priority, ks) && resolved_flags(ts, fs) && (forall|j: int|
            0 <= j < r.len() ==> avg_entry_ok(#[trigger] r[j], ts, ks, fs)) && (forall|a: int, b: int|
            0 <= a < r.len() && 0 <= b < r.len() && a != b ==> (#[trigger] r[a]).name@ != (#[trigger] r[b]).name@)
            && (forall|q: int| 0 <= q < ks.len() ==> #[trigger] has_entry(r, ks[q]@)) && ranked(r)
}

/// A priority with no resolved ticket has no resolution times, so its
/// entry reports zero for the count, the sum and the median.
pub proof fn lemma_unresolved_priority_zero(ts: Seq<Ticket>, p: Seq<char>, st: DurationStats)
    requires
        forall|i: int| 0 <= i < ts.len() && (#[trigger] ts[i]).priority@ == p ==> ts[i].resolved_at is None,
        stats_of(st, durations_of(ts, Some(p))),
    ensures
        durations_of(ts, Some(p)).len() == 0,
        st.count == 0,
        st.total_seconds == 0,
        st.median_seconds == 0,
{
    lemma_no_durations(ts, p);
}

proof fn lemma_no_durations(ts: Seq<Ticket>, p: Seq<char>)
    requires
        forall|i: int| 0 <= i < ts.len() && (#[trigger] ts[i]).priority@ == p ==> ts[i].resolved_at is None,
    ensures
        durations_of(ts, Some(p)).len() == 0,
    decreases ts.len(),
{
    if ts.len() > 0 {
        let d = ts.drop_last();
        assert forall|i: int| 0 <= i < d.len() && (#[trigger] d[i]).priority@ == p implies d[i].resolved_at is None by {
            assert(d[i] == ts[i]);
        }
        lemma_no_durations(d, p);
        assert(ts.last() == ts[ts.len() - 1]);
    }
}

fn copy_stats(s: &DurationStats) -> (r: DurationStats)
    ensures
        r == *s,
{
    DurationStats { count: s.count, total_seconds: s.total_seconds, median_seconds: s.median_seconds }
}

/// Average and lower-median resolution time per priority, in the fixed
/// priority order.
pub fn get_resolution_time_by_priority(tickets: &Vec<Ticket>) -> (r: Vec<AvgEntry>)
    ensures
        is_priority_table(r@, tickets@),
{
    let ks = label_column(tickets, CountField::Priority);
    let mut fs: Vec<bool> = Vec::new();
    let mut i: usize = 0;
    while i < tickets.len()
        invariant
            i <= tickets@.len(),
            fs@.len() == i,
            forall|k: int| 0 <= k < i ==> #[trigger] fs@[k] == tickets@[k].resolved_at is Some,
        decreases tickets@.len() - i,
    {
        fs.push(tickets[i].resolved_at.is_some());
        i = i + 1;
    }
    let gs = group_keys(&ks, &fs);
    let mut entries: Vec<AvgEntry> = Vec::new();
    let mut nums: Vec<i128> = Vec::new();
    let mut names: Vec<String> = Vec::new();
    let mut j: usize = 0;
    while j < gs.len()
        invariant
            j <= gs@.len(),
            is_grouping(gs@, ks@, fs@),
            entries@.len() == j,
            nums@.len() == j,
            names@.len() == j,
            forall|q: int| 0 <= q < j ==> (#[trigger] entries@[q]).name@ == gs@[q].key@,
            forall|q: int| 0 <= q < j ==> avg_entry_ok(#[trigger] entries@[q], tickets@, ks@, fs@),
            forall|q: int| 0 <= q < j ==> #[trigger] nums@[q] == priority_rank(entries@[q].name@),
            forall|q: int| 0 <= q < j ==> (#[trigger] names@[q])@ == entries@[q].name@,
        decreases gs@.len() - j,
    {
        let key = &gs[j].key;
        let ds = durations(tickets, Some(key));
        let st = duration_stats(&ds);
        nums.push(rank_of(key));
        names.push(key.clone());
        entries.push(AvgEntry { name: key.clone(), count: gs[j].flagged, stats: st });
        j = j + 1;
    }
    let p = sort_indices(&nums, &names, false);
    let mut r: Vec<AvgEntry> = Vec::new();
    let mut k: usize = 0;
    while k < p.len()
        invariant
            k <= p@.len(),
            is_index_perm(p@, entries@.len() as int),
            r@.len() == k,
            forall|q: int| 0 <= q < k ==> #[trigger] r@[q] == entries@[p@[q] as int],
        decreases p@.len() - k,
    {
        let e = &entries[p[k]];
        r.push(AvgEntry { name: e.name.clone(), count: e.count, stats: copy_stats(&e.stats) });
        k = k + 1;
    }
    proof {
        let rs = r@;
        let es = entries@;
        assert forall|a: int| 0 <= a < rs.len() implies avg_entry_ok(#[trigger] rs[a], tickets@, ks@, fs@) by {
            assert(rs[a] == es[p@[a] as int]);
        }
        assert forall|a: int, b: int| 0 <= a < rs.len() && 0 <= b < rs.len() && a != b implies (#[trigger] rs[a]).name@
            != (#[trigger] rs[b]).name@ by {
            assert(rs[a] == es[p@[a] as int]);
            assert(rs[b] == es[p@[b] as int]);
            assert(gs@[p@[a] as int].key@ != gs@[p@[b] as int].key@);
        }
        assert forall|q: int| 0 <= q < ks@.len() implies #[trigger] has_entry(rs, ks@[q]@) by {
            assert(has_group(gs@, ks@[q]@));
            let g = choose|g: int| 0 <= g < gs@.len() && gs@[g].key@ == ks@[q]@;
            assert(lists(p@, g));
            let w = choose|w: int| 0 <= w < p@.len() && p@[w] == g;
            assert(rs[w] == es[g]);
        }
        assert forall|a: int| 0 <= a < rs.len() - 1 implies !key_before(
            priority_rank((#[trigger] rs[a + 1]).name@),
            rs[a + 1].name@,
            priority_rank(rs[a].name@),
            rs[a].name@,
            false,
        ) by {
            assert(rs[a] == es[p@[a] as int]);
            assert(rs[a + 1] == es[p@[a + 1] as int]);
            assert(!key_before(nums@[p@[a + 1] as int], names@[p@[a + 1] as int]@, nums@[p@[a] as int],
                names@[p@[a] as int]@, false));
        }
        assert(labels_of(tickets@, CountField::Priority, ks@));
        assert(resolved_flags(tickets@, fs@));
    }
    r
}

/// Number of tickets without a resolution time stamp.
pub open spec fn open_count(ts: Seq<Ticket>) -> nat
    decreases ts.len(),
{
    if ts.len() == 0 {
        0
    } else {
        open_count(ts.drop_last()) + if ts.last().resolved_at is None { 1nat } else { 0nat }
    }
}

/// Totals over the whole store.
pub struct SummaryStats {
    pub total_tickets: usize,
    pub open_tickets: usize,
    pub resolved_tickets: usize,
    /// Resolution times over all tickets whose timestamps parse.
    pub resolution: DurationStats,
}

pub open spec fn is_summary(s: SummaryStats, ts: Seq<Ticket>) -> bool {
    &&& s.total_tickets == ts.len()
    &&& s.open_tickets == open_count(ts)
    &&& s.resolved_tickets == ts.len() - open_count(ts)
    &&& stats_of(s.resolution, durations_of(ts, None))
}

pub fn get_summary_stats(tickets: &Vec<Ticket>) -> (r: SummaryStats)
    ensures
        is_summary(r, tickets@),
{
    let mut open: usize = 0;
    let mut i: usize = 0;
    while i < tickets.len()
        invariant
            i <= tickets@.len(),
            open == open_count(tickets@.subrange(0, i as int)),
            open <= i,
        decreases tickets@.len() - i,
    {
        proof {
            let s = tickets@.subrange(0, i + 1);
            assert(s.drop_last() == tickets@.subrange(0, i as int));
            assert(s.last() == tickets@[i as int]);
        }
        if tickets[i].resolved_at.is_none() {
            open = open + 1;
        }
        i = i + 1;
    }
    assert(tickets@.subrange(0, tickets@.len() as int) == tickets@);
    let ds = durations(tickets, None);
    SummaryStats {
        total_tickets: tickets.len(),
        open_tickets: open,
        resolved_tickets: tickets.len() - open,
        resolution: duration_stats(&ds),
    }
}

/// Everything the dashboard shows, computed afresh from the rows.
pub struct AggregationResult {
    pub tickets_by_status: Vec<CountEntry>,
    pub tickets_by_priority: Vec<CountEntry>,
    pub tickets_by_category: Vec<CountEntry>,
    pub tickets_over_time: Vec<TimeSeriesEntry>,
    pub resolution_time_by_priority: Vec<AvgEntry>,
    pub summary: SummaryStats,
}

pub fn get_aggregations(store: &TicketStore) -> (r: AggregationResult)
    ensures
        is_count_table(r.tickets_by_status@, store.tickets@, CountField::Status),
        is_count_table(r.tickets_by_priority@, store.tickets@, CountField::Priority),
        is_count_table(r.tickets_by_category@, store.tickets@, CountField::Category),
        is_time_series(r.tickets_over_time@, store.tickets@),
        is_priority_table(r.resolution_time_by_priority@, store.tickets@),
        is_summary(r.summary, store.tickets@),
{
    let ts = &store.tickets;
    AggregationResult {
        tickets_by_status: count_by_field(ts, CountField::Status),
        tickets_by_priority: count_by_field(ts, CountField::Priority),
        tickets_by_category: count_by_field(ts, CountField::Category),
        tickets_over_time: get_tickets_over_time(ts),
        resolution_time_by_priority: get_resolution_time_by_priority(ts),
        summary: get_summary_stats(ts),
    }
}

} // verus!
