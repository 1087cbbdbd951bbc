use ticket_dashboard::aggregation::{
    count_by_field, get_aggregations, get_count_by_field, get_resolution_time_by_priority,
    get_summary_stats, get_tickets_over_time, lower_median, month_text, sum_seconds, CountField,
};
use ticket_dashboard::errors::AppError;
use ticket_dashboard::model::Ticket;
use ticket_dashboard::store::{upsert_ticket, TicketStore};

fn ticket(key: &str, priority: &str, created: &str, resolved: Option<&str>, category: Option<&str>) -> Ticket {
    Ticket {
        id: 0,
        jira_key: key.to_string(),
        summary: "s".to_string(),
        status: if resolved.is_some() { "Done".to_string() } else { "Open".to_string() },
        priority: priority.to_string(),
        issue_type: "Task".to_string(),
        assignee: None,
        reporter: None,
        created_at: created.to_string(),
        updated_at: created.to_string(),
        resolved_at: resolved.map(|r| r.to_string()),
        labels: String::new(),
        project_key: "OPS".to_string(),
        category: category.map(|c| c.to_string()),
    }
}

const HOUR: i64 = 3600;

#[test]
fn median_takes_upper_middle_of_even_count() {
    assert_eq!(lower_median(&vec![4 * HOUR, 1 * HOUR, 3 * HOUR, 2 * HOUR]), 3 * HOUR);
    assert_eq!(lower_median(&vec![5, 1, 3]), 3);
    assert_eq!(lower_median(&vec![]), 0);
    assert_eq!(lower_median(&vec![7]), 7);
    assert_eq!(sum_seconds(&vec![i64::MAX, i64::MAX]), 2 * (i64::MAX as i128));
}

#[test]
fn counts_sorted_by_size() {
    let ts = vec![
        ticket("A-1", "Low", "2025-01-01T00:00:00Z", None, Some("VPN")),
        ticket("A-2", "High", "2025-01-02T00:00:00Z", None, None),
        ticket("A-3", "High", "2025-01-03T00:00:00Z", None, Some("VPN")),
        ticket("A-4", "High", "2025-01-04T00:00:00Z", None, None),
    ];
    let p = count_by_field(&ts, CountField::Priority);
    let rows: Vec<(String, usize)> = p.iter().map(|e| (e.name.clone(), e.count)).collect();
    assert_eq!(rows, vec![("High".to_string(), 3), ("Low".to_string(), 1)]);
    let c = get_count_by_field(&ts, "category").ok().unwrap();
    let rows: Vec<(String, usize)> = c.iter().map(|e| (e.name.clone(), e.count)).collect();
    assert_eq!(rows, vec![("Uncategorized".to_string(), 2), ("VPN".to_string(), 2)]);
    assert!(matches!(get_count_by_field(&ts, "summary"), Err(AppError::Internal(_))));
}

#[test]
fn series_counts_same_month_resolutions_only() {
    let ts = vec![
        ticket("A-1", "Low", "2025-02-01T00:00:00Z", Some("2025-02-10T00:00:00Z"), None),
        ticket("A-2", "Low", "2025-01-05T00:00:00Z", Some("2025-02-03T00:00:00Z"), None),
        ticket("A-3", "Low", "2025-01-20T00:00:00Z", None, None),
    ];
    let s = get_tickets_over_time(&ts);
    let rows: Vec<(String, usize, usize)> = s.iter().map(|e| (e.date.clone(), e.created, e.resolved)).collect();
    assert_eq!(rows, vec![("2025-01".to_string(), 2, 0), ("2025-02".to_string(), 1, 1)]);
}

#[test]
fn series_keeps_first_twelve_months() {
    let mut ts = Vec::new();
    for m in 1..=12 {
        ts.push(ticket(&format!("A-{m}"), "Low", &format!("2024-{m:02}-01T00:00:00Z"), None, None));
    }
    ts.push(ticket("B-1", "Low", "2025-01-01T00:00:00Z", None, None));
    let s = get_tickets_over_time(&ts);
    assert_eq!(s.len(), 12);
    assert_eq!(s[0].date, "2024-01");
    assert_eq!(s[11].date, "2024-12");
    assert_eq!(month_text(&"2025-03-04T00:00:00Z".to_string()), "2025-03");
}

#[test]
fn resolution_stats_per_priority() {
    let ts = vec![
        ticket("A-1", "Low", "2025-01-01T00:00:00Z", Some("2025-01-01T01:00:00Z"), None),
        ticket("A-2", "Critical", "2025-01-01T00:00:00Z", Some("2025-01-01T04:00:00Z"), None),
        ticket("A-3", "Critical", "2025-01-01T00:00:00Z", Some("2025-01-01T02:00:00Z"), None),
        ticket("A-4", "Critical", "2025-01-01T00:00:00.000+0100", Some("2025-01-01T01:00:00.000+0100"), None),
        ticket("A-5", "Critical", "2025-01-01T00:00:00Z", Some("2025-01-01T03:00:00Z"), None),
        ticket("A-6", "High", "2025-01-01T00:00:00Z", None, None),
        ticket("A-7", "Blocker", "2025-01-01T00:00:00Z", Some("2025-01-01T05:00:00Z"), None),
    ];
    let r = get_resolution_time_by_priority(&ts);
    let names: Vec<&str> = r.iter().map(|e| e.name.as_str()).collect();
    assert_eq!(names, vec!["Critical", "High", "Low", "Blocker"]);
    assert_eq!(r[0].count, 4);
    assert_eq!(r[0].stats.count, 4);
    assert_eq!(r[0].stats.total_seconds, 10 * HOUR as i128);
    assert_eq!(r[0].stats.median_seconds, 3 * HOUR);
    assert_eq!(r[1].count, 0);
    assert_eq!(r[1].stats.count, 0);
    assert_eq!(r[1].stats.total_seconds, 0);
    assert_eq!(r[1].stats.median_seconds, 0);
    assert_eq!(r[2].stats.median_seconds, HOUR);
}

#[test]
fn open_only_priority_reports_zero() {
    let ts = vec![
        ticket("A-1", "Medium", "2025-01-01T00:00:00Z", None, None),
        ticket("A-2", "Medium", "2025-01-02T00:00:00Z", None, None),
        ticket("A-3", "Low", "2025-01-01T00:00:00Z", Some("2025-01-01T02:00:00Z"), None),
    ];
    let r = get_resolution_time_by_priority(&ts);
    let rows: Vec<(String, usize, i128, i64)> = r
        .iter()
        .map(|e| (e.name.clone(), e.count, e.stats.total_seconds, e.stats.median_seconds))
        .collect();
    assert_eq!(
        rows,
        vec![("Medium".to_string(), 0, 0, 0), ("Low".to_string(), 1, 2 * HOUR as i128, 2 * HOUR)]
    );
}

#[test]
fn summary_totals() {
    let ts = vec![
        ticket("A-1", "Low", "2025-01-01T00:00:00Z", Some("2025-01-01T02:00:00Z"), None),
        ticket("A-2", "Low", "2025-01-01T00:00:00Z", None, None),
        ticket("A-3", "Low", "2025-01-01T00:00:00Z", Some("2025-01-01T04:00:00Z"), None),
    ];
    let s = get_summary_stats(&ts);
    assert_eq!(s.total_tickets, 3);
    assert_eq!(s.open_tickets, 1);
    assert_eq!(s.resolved_tickets, 2);
    assert_eq!(s.resolution.total_seconds, 6 * HOUR as i128);
    assert_eq!(s.resolution.median_seconds, 4 * HOUR);
}

#[test]
fn aggregations_of_a_store() {
    let mut store = TicketStore::new();
    upsert_ticket(&mut store, &ticket("A-1", "Low", "2025-01-01T00:00:00Z", None, None));
    upsert_ticket(&mut store, &ticket("A-2", "High", "2025-01-01T00:00:00Z", None, Some("VPN")));
    let a = get_aggregations(&store);
    assert_eq!(a.summary.total_tickets, 2);
    assert_eq!(a.tickets_by_status.len(), 1);
    assert_eq!(a.tickets_by_status[0].count, 2);
    assert_eq!(a.tickets_by_category.len(), 2);
    assert_eq!(a.tickets_over_time.len(), 1);
    assert_eq!(a.resolution_time_by_priority.len(), 2);
    assert!(a.resolution_time_by_priority.iter().all(|e| e.count == 0 && e.stats.median_seconds == 0));
    assert_eq!(a.summary.resolution.median_seconds, 0);
}
