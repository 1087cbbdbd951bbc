use ticket_dashboard::categorizer::{CategoryRule, MatchMode, RuleCondition};
use ticket_dashboard::errors::AppError;
use ticket_dashboard::model::Ticket;
use ticket_dashboard::store::{
    get_sync_metadata, get_tickets, schema_step, set_sync_metadata, upsert_ticket, SchemaStep,
    TicketStore,
};
use ticket_dashboard::sync::{complete_sync, is_progress_point, start_sync, SyncLock};

fn ticket(key: &str, summary: &str, created: &str) -> Ticket {
    Ticket {
        id: 0,
        jira_key: key.to_string(),
        summary: summary.to_string(),
        status: "Open".to_string(),
        priority: "High".to_string(),
        issue_type: "Task".to_string(),
        assignee: Some("Ann".to_string()),
        reporter: None,
        created_at: created.to_string(),
        updated_at: created.to_string(),
        resolved_at: None,
        labels: "a,b".to_string(),
        project_key: "OPS".to_string(),
        category: None,
    }
}

fn snapshot(store: &TicketStore) -> Vec<String> {
    get_tickets(store)
        .iter()
        .map(|t| {
            format!(
                "{}|{}|{}|{}|{}|{:?}|{}|{}|{:?}",
                t.id, t.jira_key, t.summary, t.status, t.created_at, t.resolved_at, t.updated_at,
                t.project_key, t.category
            )
        })
        .collect()
}

fn vpn_rules() -> Vec<CategoryRule> {
    vec![CategoryRule {
        id: "vpn".to_string(),
        name: "VPN".to_string(),
        color: "#000000".to_string(),
        conditions: vec![RuleCondition {
            field: "summary".to_string(),
            operator: "contains".to_string(),
            value: "vpn".to_string(),
            case_sensitive: false,
        }],
        match_mode: MatchMode::Any,
    }]
}

#[test]
fn upsert_twice_changes_nothing() {
    let mut store = TicketStore::new();
    let t = ticket("OPS-1", "VPN down", "2025-01-02T00:00:00Z");
    upsert_ticket(&mut store, &t);
    let once = snapshot(&store);
    upsert_ticket(&mut store, &t);
    assert_eq!(store.len(), 1);
    assert_eq!(snapshot(&store), once);
}

#[test]
fn same_key_keeps_one_row() {
    let mut store = TicketStore::new();
    let first = ticket("OPS-1", "first", "2025-01-02T00:00:00Z");
    let mut second = ticket("OPS-1", "second", "2025-03-01T00:00:00Z");
    second.status = "Done".to_string();
    second.resolved_at = Some("2025-03-02T00:00:00Z".to_string());
    second.project_key = "MOVED".to_string();
    upsert_ticket(&mut store, &first);
    upsert_ticket(&mut store, &second);
    assert_eq!(store.len(), 1);
    let rows = get_tickets(&store);
    assert_eq!(rows[0].summary, "second");
    assert_eq!(rows[0].status, "Done");
    assert_eq!(rows[0].resolved_at.as_deref(), Some("2025-03-02T00:00:00Z"));
    assert_eq!(rows[0].updated_at, "2025-03-01T00:00:00Z");
    assert_eq!(rows[0].created_at, "2025-01-02T00:00:00Z");
    assert_eq!(rows[0].project_key, "OPS");
    assert_eq!(rows[0].id, 1);
}

#[test]
fn tickets_come_newest_first() {
    let mut store = TicketStore::new();
    upsert_ticket(&mut store, &ticket("A-1", "a", "2025-01-02T00:00:00Z"));
    upsert_ticket(&mut store, &ticket("A-2", "b", "2025-03-02T00:00:00Z"));
    upsert_ticket(&mut store, &ticket("A-3", "c", "2025-02-02T00:00:00Z"));
    let keys: Vec<String> = get_tickets(&store).iter().map(|t| t.jira_key.clone()).collect();
    assert_eq!(keys, vec!["A-2", "A-3", "A-1"]);
    let ids: Vec<i64> = get_tickets(&store).iter().map(|t| t.id).collect();
    assert_eq!(ids, vec![2, 3, 1]);
}

#[test]
fn metadata_is_a_key_value_table() {
    let mut store = TicketStore::new();
    let key = "last_sync_at".to_string();
    assert_eq!(get_sync_metadata(&store, &key), None);
    set_sync_metadata(&mut store, &key, &"T1".to_string());
    set_sync_metadata(&mut store, &"other".to_string(), &"x".to_string());
    set_sync_metadata(&mut store, &key, &"T2".to_string());
    assert_eq!(get_sync_metadata(&store, &key), Some("T2".to_string()));
    assert_eq!(get_sync_metadata(&store, &"other".to_string()), Some("x".to_string()));
}

#[test]
fn second_trigger_fails_while_syncing() {
    let mut lock = SyncLock::new();
    let mut store = TicketStore::new();
    set_sync_metadata(&mut store, &"last_sync_at".to_string(), &"T0".to_string());
    upsert_ticket(&mut store, &ticket("A-1", "a", "2025-01-02T00:00:00Z"));
    let before = snapshot(&store);
    assert!(start_sync(&mut lock, &store).is_ok());
    let second = start_sync(&mut lock, &store);
    assert!(matches!(second, Err(AppError::SyncAlreadyInProgress)));
    assert!(lock.syncing);
    assert_eq!(snapshot(&store), before);
    assert_eq!(get_sync_metadata(&store, &"last_sync_at".to_string()), Some("T0".to_string()));
    let done = complete_sync(&mut lock, &mut store, Ok(vec![]), &vpn_rules(), &"T1".to_string());
    assert_eq!(done.ok(), Some(0));
    assert!(!lock.syncing);
    assert!(start_sync(&mut lock, &store).is_ok());
}

#[test]
fn backfill_then_empty_incremental_sync() {
    let mut lock = SyncLock::new();
    let mut store = TicketStore::new();
    let rules = vpn_rules();

    let cursor = start_sync(&mut lock, &store).ok().unwrap();
    assert_eq!(cursor, None);
    let fetched = vec![
        ticket("A-1", "VPN broken", "2025-01-02T00:00:00Z"),
        ticket("A-2", "printer", "2025-01-03T00:00:00Z"),
        ticket("A-3", "vpn slow", "2025-01-04T00:00:00Z"),
    ];
    let n = complete_sync(&mut lock, &mut store, Ok(fetched), &rules, &"2025-02-01T00:00:00Z".to_string());
    assert_eq!(n.ok(), Some(3));
    assert_eq!(store.len(), 3);
    let cursor_key = "last_sync_at".to_string();
    assert_eq!(get_sync_metadata(&store, &cursor_key), Some("2025-02-01T00:00:00Z".to_string()));
    let cats: Vec<Option<String>> = get_tickets(&store).iter().map(|t| t.category.clone()).collect();
    assert_eq!(cats, vec![Some("VPN".to_string()), None, Some("VPN".to_string())]);

    let cursor = start_sync(&mut lock, &store).ok().unwrap();
    assert_eq!(cursor, Some("2025-02-01T00:00:00Z".to_string()));
    let n = complete_sync(&mut lock, &mut store, Ok(vec![]), &rules, &"2025-02-01T00:05:00Z".to_string());
    assert_eq!(n.ok(), Some(0));
    assert_eq!(store.len(), 3);
    assert_eq!(get_sync_metadata(&store, &cursor_key), Some("2025-02-01T00:05:00Z".to_string()));
}

#[test]
fn failed_fetch_leaves_store_and_cursor() {
    let mut lock = SyncLock::new();
    let mut store = TicketStore::new();
    let key = "last_sync_at".to_string();
    set_sync_metadata(&mut store, &key, &"T0".to_string());
    assert!(start_sync(&mut lock, &store).is_ok());
    let r = complete_sync(&mut lock, &mut store, Err(AppError::Config("bad".to_string())), &vpn_rules(), &"T1".to_string());
    assert!(matches!(r, Err(AppError::Config(_))));
    assert!(!lock.syncing);
    assert_eq!(store.len(), 0);
    assert_eq!(get_sync_metadata(&store, &key), Some("T0".to_string()));
}

#[test]
fn remote_category_is_recomputed() {
    let mut lock = SyncLock::new();
    let mut store = TicketStore::new();
    let mut t = ticket("A-1", "printer jam", "2025-01-02T00:00:00Z");
    t.category = Some("Remote".to_string());
    assert!(start_sync(&mut lock, &store).is_ok());
    assert!(complete_sync(&mut lock, &mut store, Ok(vec![t]), &vpn_rules(), &"T".to_string()).is_ok());
    assert_eq!(get_tickets(&store)[0].category, None);
}

#[test]
fn progress_every_tenth_item() {
    assert!(is_progress_point(0));
    assert!(!is_progress_point(9));
    assert!(is_progress_point(10));
    assert!(is_progress_point(20));
}

#[test]
fn schema_steps() {
    assert_eq!(schema_step(0), SchemaStep::CreateSchema);
    assert_eq!(schema_step(1), SchemaStep::UpToDate);
    assert_eq!(schema_step(-3), SchemaStep::Migrate { from: -3 });
}
