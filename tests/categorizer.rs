use ticket_dashboard::categorizer::{
    categorize_ticket, compare_text, eval_condition, CategoryRule, MatchMode, RuleCondition,
};
use ticket_dashboard::model::Ticket;
use ticket_dashboard::text::contains_text;

fn ticket_with_summary(summary: &str) -> Ticket {
    Ticket {
        id: 1,
        jira_key: "TEST-1".to_string(),
        summary: summary.to_string(),
        status: "Open".to_string(),
        priority: "Medium".to_string(),
        issue_type: "Task".to_string(),
        assignee: None,
        reporter: None,
        created_at: "2025-01-01T00:00:00Z".to_string(),
        updated_at: "2025-01-01T00:00:00Z".to_string(),
        resolved_at: None,
        labels: String::new(),
        project_key: "TEST".to_string(),
        category: None,
    }
}

fn condition(field: &str, operator: &str, value: &str, case_sensitive: bool) -> RuleCondition {
    RuleCondition {
        field: field.to_string(),
        operator: operator.to_string(),
        value: value.to_string(),
        case_sensitive,
    }
}

fn rule(id: &str, name: &str, conditions: Vec<RuleCondition>, match_mode: MatchMode) -> CategoryRule {
    CategoryRule {
        id: id.to_string(),
        name: name.to_string(),
        color: "#3b82f6".to_string(),
        conditions,
        match_mode,
    }
}

#[test]
fn test_categorize_password_reset() {
    let ticket = ticket_with_summary("User forgot password, needs reset");
    let rules = vec![CategoryRule {
        id: "pwd-1".to_string(),
        name: "Password".to_string(),
        color: "#ef4444".to_string(),
        conditions: vec![condition("summary", "contains", "password", false)],
        match_mode: MatchMode::Any,
    }];
    let result = categorize_ticket(&ticket, &rules);
    assert_eq!(result, Some("Password".to_string()));
}

#[test]
fn test_categorize_no_match() {
    let ticket = ticket_with_summary("Weird thing");
    let rules = vec![CategoryRule {
        id: "vpn-1".to_string(),
        name: "VPN".to_string(),
        color: "#3b82f6".to_string(),
        conditions: vec![condition("summary", "contains", "vpn", false)],
        match_mode: MatchMode::Any,
    }];
    let result = categorize_ticket(&ticket, &rules);
    assert_eq!(result, None);
}

#[test]
fn first_matching_rule_wins() {
    let ticket = ticket_with_summary("password and vpn issue");
    let rules = vec![
        rule("a", "A", vec![condition("summary", "contains", "vpn", true)], MatchMode::Any),
        rule("b", "B", vec![condition("summary", "contains", "password", true)], MatchMode::Any),
    ];
    assert_eq!(categorize_ticket(&ticket, &rules), Some("A".to_string()));
    let swapped = vec![
        rule("b", "B", vec![condition("summary", "contains", "password", true)], MatchMode::Any),
        rule("a", "A", vec![condition("summary", "contains", "vpn", true)], MatchMode::Any),
    ];
    assert_eq!(categorize_ticket(&ticket, &swapped), Some("B".to_string()));
}

#[test]
fn case_flag_decides_contains() {
    let ticket = ticket_with_summary("need vpn access");
    assert!(eval_condition(&ticket, &condition("summary", "contains", "VPN", false)));
    assert!(!eval_condition(&ticket, &condition("summary", "contains", "VPN", true)));
}

#[test]
fn equals_and_unknown_selectors() {
    let mut ticket = ticket_with_summary("Printer");
    ticket.issue_type = "Bug".to_string();
    assert!(eval_condition(&ticket, &condition("issue_type", "equals", "bug", false)));
    assert!(!eval_condition(&ticket, &condition("issue_type", "equals", "bug", true)));
    assert!(eval_condition(&ticket, &condition("issue_type", "equals", "Bug", true)));
    assert!(!eval_condition(&ticket, &condition("assignee", "equals", "Bug", true)));
    assert!(!eval_condition(&ticket, &condition("issue_type", "startsWith", "B", true)));
}

#[test]
fn regex_conditions_are_lenient() {
    let mut ticket = ticket_with_summary("Error 504 on login");
    ticket.labels = "network,urgent".to_string();
    assert!(eval_condition(&ticket, &condition("summary", "regex", r"\d{3}", true)));
    assert!(!eval_condition(&ticket, &condition("summary", "regex", r"^\d+$", true)));
    assert!(!eval_condition(&ticket, &condition("summary", "regex", "(unclosed", true)));
    assert!(eval_condition(&ticket, &condition("labels", "regex", "urg", true)));
}

#[test]
fn match_modes_all_and_any() {
    let mut ticket = ticket_with_summary("vpn down");
    ticket.project_key = "NET".to_string();
    let both = || {
        vec![
            condition("summary", "contains", "vpn", true),
            condition("project_key", "equals", "OPS", true),
        ]
    };
    let all = vec![rule("x", "X", both(), MatchMode::All)];
    let any = vec![rule("y", "Y", both(), MatchMode::Any)];
    assert_eq!(categorize_ticket(&ticket, &all), None);
    assert_eq!(categorize_ticket(&ticket, &any), Some("Y".to_string()));
    assert_eq!(categorize_ticket(&ticket, &[]), None);
}

#[test]
fn compare_text_on_prepared_text() {
    assert!(compare_text("contains", "need vpn access", "vpn"));
    assert!(!compare_text("contains", "need vpn access", "VPN"));
    assert!(compare_text("equals", "abc", "abc"));
    assert!(!compare_text("regex", "abc", "abc"));
}

#[test]
fn substring_search_edges() {
    assert!(contains_text("abc", ""));
    assert!(contains_text("", ""));
    assert!(!contains_text("", "a"));
    assert!(contains_text("abc", "abc"));
    assert!(contains_text("xxabc", "abc"));
    assert!(!contains_text("ab", "abc"));
    assert!(contains_text("héllo wörld", "ö"));
}
