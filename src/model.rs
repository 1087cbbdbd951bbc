use vstd::prelude::*;

verus! {

/// One remote issue, mirrored locally.
pub struct Ticket {
    pub id: i64,
    /// The natural key: the remote issue identifier.
    pub jira_key: String,
    pub summary: String,
    pub status: String,
    pub priority: String,
    pub issue_type: String,
    pub assignee: Option<String>,
    pub reporter: Option<String>,
    /// ISO-8601 timestamp.
    pub created_at: String,
    /// ISO-8601 timestamp.
    pub updated_at: String,
    /// ISO-8601 timestamp, absent while the ticket is open.
    pub resolved_at: Option<String>,
    /// Labels joined by commas.
    pub labels: String,
    pub project_key: String,
    /// Computed locally by the categorizer, never taken from the remote side.
    pub category: Option<String>,
}

/// Connection parameters of the remote tracker.
pub struct JiraSettings {
    pub jira_url: String,
    pub email: String,
}

/// The text of an optional string.
pub open spec fn opt_text(s: Option<String>) -> Option<Seq<char>> {
    match s {
        Some(v) => Some(v@),
        None => None,
    }
}

pub fn clone_opt_string(s: &Option<String>) -> (r: Option<String>)
    ensures
        r == *s,
{
    match s {
        Some(v) => Some(v.clone()),
        None => None,
    }
}

impl Ticket {
    /// A field-by-field copy.
    pub fn duplicate(&self) -> (r: Ticket)
        ensures
            r == *self,
    {
        Ticket {
            id: self.id,
            jira_key: self.jira_key.clone(),
            summary: self.summary.clone(),
            status: self.status.clone(),
            priority: self.priority.clone(),
            issue_type: self.issue_type.clone(),
            assignee: clone_opt_string(&self.assignee),
            reporter: clone_opt_string(&self.reporter),
            created_at: self.created_at.clone(),
            updated_at: self.updated_at.clone(),
            resolved_at: clone_opt_string(&self.resolved_at),
            labels: self.labels.clone(),
            project_key: self.project_key.clone(),
            category: clone_opt_string(&self.category),
        }
    }
}

} // verus!
