use ticket_dashboard::errors::{AppError, JiraError};
use ticket_dashboard::jira::{
    api_base_url, build_jql, parse_u64, classify_failure, convert_issue_to_ticket, join_labels, retry_after_secs,
    retry_hint, status_is_success, DisplayNameField, JiraClient, JiraFields, JiraIssue, JiraSearchResponse,
    KeyField, NameField, PageCollector,
};

fn issue(key: &str, labels: &[&str]) -> JiraIssue {
    JiraIssue {
        key: key.to_string(),
        fields: JiraFields {
            summary: "VPN down".to_string(),
            status: NameField { name: "Open".to_string() },
            priority: NameField { name: "High".to_string() },
            issuetype: NameField { name: "Bug".to_string() },
            assignee: Some(DisplayNameField { display_name: "Ann".to_string() }),
            reporter: None,
            created: "2025-01-01T00:00:00Z".to_string(),
            updated: "2025-01-02T00:00:00Z".to_string(),
            resolutiondate: None,
            labels: labels.iter().map(|l| l.to_string()).collect(),
            project: KeyField { key: "OPS".to_string() },
        },
    }
}

#[test]
fn issue_becomes_ticket() {
    let t = convert_issue_to_ticket(&issue("OPS-7", &["net", "vpn"]));
    assert_eq!(t.id, 0);
    assert_eq!(t.jira_key, "OPS-7");
    assert_eq!(t.issue_type, "Bug");
    assert_eq!(t.assignee.as_deref(), Some("Ann"));
    assert_eq!(t.reporter, None);
    assert_eq!(t.labels, "net,vpn");
    assert_eq!(t.project_key, "OPS");
    assert_eq!(t.category, None);
}

#[test]
fn labels_join_with_commas() {
    assert_eq!(join_labels(&vec![]), "");
    assert_eq!(join_labels(&vec!["a".to_string()]), "a");
    assert_eq!(join_labels(&vec!["a".to_string(), "b".to_string(), "c".to_string()]), "a,b,c");
}

#[test]
fn query_depends_on_cursor() {
    assert_eq!(build_jql(None), "assignee = currentUser() ORDER BY created DESC");
    assert_eq!(
        build_jql(Some("2025-01-01T00:00:00Z")),
        "assignee = currentUser() AND updated >= \"2025-01-01T00:00:00Z\" ORDER BY updated ASC"
    );
}

#[test]
fn base_url_and_auth_header() {
    assert_eq!(api_base_url("https://x.atlassian.net//"), "https://x.atlassian.net/rest/api/3");
    assert_eq!(api_base_url("https://x.atlassian.net"), "https://x.atlassian.net/rest/api/3");
    let c = JiraClient::new("https://x.atlassian.net/", "a@b.c", "tok").ok().unwrap();
    assert_eq!(c.auth_header, "Basic YUBiLmM6dG9r");
    assert_eq!(c.search_url(), "https://x.atlassian.net/rest/api/3/search/jql");
    assert_eq!(JiraClient::create_auth_header("user", "pass"), "Basic dXNlcjpwYXNz");
}

#[test]
fn status_classification() {
    assert!(status_is_success(200));
    assert!(status_is_success(204));
    assert!(!status_is_success(301));
    assert!(matches!(classify_failure(401, 60, String::new()), JiraError::Unauthorized));
    assert!(matches!(
        classify_failure(429, 120, String::new()),
        JiraError::RateLimited { retry_after_secs: 120 }
    ));
    match classify_failure(500, 60, "boom".to_string()) {
        JiraError::ApiError { status, body } => {
            assert_eq!(status, 500);
            assert_eq!(body, "boom");
        }
        _ => panic!("expected an API error"),
    }
}

#[test]
fn retry_header_default_and_cap() {
    assert_eq!(retry_after_secs(None), 60);
    assert_eq!(retry_after_secs(Some("abc")), 60);
    assert_eq!(retry_after_secs(Some("30")), 30);
    assert_eq!(retry_after_secs(Some("1000")), 300);
    assert_eq!(retry_hint(Some(300)), 300);
    assert_eq!(retry_hint(None), 60);
}

#[test]
fn pages_accumulate_until_no_token() {
    let mut c = PageCollector::new();
    let more = c
        .on_page(JiraSearchResponse {
            issues: vec![issue("A-1", &[]), issue("A-2", &[])],
            next_page_token: Some("t1".to_string()),
        })
        .ok()
        .unwrap();
    assert!(more);
    assert_eq!(c.next_page_token.as_deref(), Some("t1"));
    let more = c
        .on_page(JiraSearchResponse { issues: vec![issue("A-3", &[])], next_page_token: None })
        .ok()
        .unwrap();
    assert!(!more);
    assert!(c.finished);
    let keys: Vec<&str> = c.tickets.iter().map(|t| t.jira_key.as_str()).collect();
    assert_eq!(keys, vec!["A-1", "A-2", "A-3"]);
}

#[test]
fn empty_page_with_token_is_fatal() {
    let mut c = PageCollector::new();
    let r = c.on_page(JiraSearchResponse { issues: vec![], next_page_token: Some("t".to_string()) });
    assert!(matches!(r, Err(AppError::JiraApi(JiraError::ParseError(_)))));
    let mut d = PageCollector::new();
    let r = d.on_page(JiraSearchResponse { issues: vec![], next_page_token: None });
    assert_eq!(r.ok(), Some(false));
}

#[test]
fn decimal_header_values() {
    assert_eq!(parse_u64("120"), Some(120));
    assert_eq!(parse_u64("+7"), Some(7));
    assert_eq!(parse_u64("007"), Some(7));
    assert_eq!(parse_u64("18446744073709551615"), Some(u64::MAX));
    assert_eq!(parse_u64("18446744073709551616"), None);
    assert_eq!(parse_u64(""), None);
    assert_eq!(parse_u64("+"), None);
    assert_eq!(parse_u64("-1"), None);
    assert_eq!(parse_u64("1a"), None);
    assert_eq!(parse_u64(" 1"), None);
    assert_eq!(retry_after_secs(Some("+120")), 120);
}
