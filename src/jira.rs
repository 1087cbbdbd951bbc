use vstd::prelude::*;
use base64::Engine;
use crate::errors::{AppError, JiraError};
use crate::model::{clone_opt_string, opt_text, Ticket};

verus! {

/// One page of a remote search.
pub struct JiraSearchResponse {
    pub issues: Vec<JiraIssue>,
    /// Continuation token; absent on the last page.
    pub next_page_token: Option<String>,
}

pub struct JiraIssue {
    pub key: String,
    pub fields: JiraFields,
}

pub struct JiraFields {
    pub summary: String,
    pub status: NameField,
    pub priority: NameField,
    pub issuetype: NameField,
    pub assignee: Option<DisplayNameField>,
    pub reporter: Option<DisplayNameField>,
    pub created: String,
    pub updated: String,
    pub resolutiondate: Option<String>,
    pub labels: Vec<String>,
    pub project: KeyField,
}

pub struct NameField {
    pub name: String,
}

pub struct DisplayNameField {
    pub display_name: String,
}

pub struct KeyField {
    pub key: String,
}

/// Largest number of issues asked for per page.
pub const PAGE_SIZE: u32 = 100;

/// Retry hint used when a rate-limit response carries no usable header.
pub const DEFAULT_RETRY_SECS: u64 = 60;

/// Upper bound on any retry hint.
pub const MAX_RETRY_SECS: u64 = 300;

/// Labels joined by commas.
pub open spec fn joined(ls: Seq<String>) -> Seq<char>
    decreases ls.len(),
{
    if ls.len() == 0 {
        Seq::empty()
    } else if ls.len() == 1 {
        ls[0]@
    } else {
        joined(ls.drop_last()) + ","@ + ls.last()@
    }
}

pub open spec fn display_name_of(f: Option<DisplayNameField>) -> Option<Seq<char>> {
    match f {
        Some(d) => Some(d.display_name@),
        None => None,
    }
}

/// The local ticket that mirrors a remote issue: row id 0 until stored, no
/// category until categorized.
pub open spec fn mirrors(t: Ticket, issue: JiraIssue) -> bool {
    &&& t.id == 0
    &&& t.jira_key@ == issue.key@
    &&& t.summary@ == issue.fields.summary@
    &&& t.status@ == issue.fields.status.name@
    &&& t.priority@ == issue.fields.priority.name@
    &&& t.issue_type@ == issue.fields.issuetype.name@
    &&& opt_text(t.assignee) == display_name_of(issue.fields.assignee)
    &&& opt_text(t.reporter) == display_name_of(issue.fields.reporter)
    &&& t.created_at@ == issue.fields.created@
    &&& t.updated_at@ == issue.fields.updated@
    &&& opt_text(t.resolved_at) == opt_text(issue.fields.resolutiondate)
    &&& t.labels@ == joined(issue.fields.labels@)
    &&& t.project_key@ == issue.fields.project.key@
    &&& t.category is None
}

/// Joins labels with commas.
pub fn join_labels(labels: &Vec<String>) -> (r: String)
    ensures
        r@ == joined(labels@),
{
    let mut out = String::new();
    let n = labels.len();
    let mut i: usize = 0;
    while i < n
        invariant
            n == labels@.len(),
            i <= n,
            out@ == joined(labels@.subrange(0, i as int)),
        decreases n - i,
    {
        let ghost before = labels@.subrange(0, i as int);
        let ghost after = labels@.subrange(0, i + 1);
        assert(after.drop_last() == before);
        assert(after.last() == labels@[i as int]);
        if i == 0 {
            out = labels[i].clone();
        } else {
            out.append(",");
            out.append(&labels[i]);
        }
        i = i + 1;
    }
    assert(labels@.subrange(0, n as int) == labels@);
    out
}

fn display_name(f: &Option<DisplayNameField>) -> (r: Option<String>)
    ensures
        opt_text(r) == display_name_of(*f),
{
    match f {
        Some(d) => Some(d.display_name.clone()),
        None => None,
    }
}

/// Mirrors a remote issue as a local ticket.
pub fn convert_issue_to_ticket(issue: &JiraIssue) -> (r: Ticket)
    ensures
        mirrors(r, *issue),
{
    Ticket {
        id: 0,
        jira_key: issue.key.clone(),
        summary: issue.fields.summary.clone(),
        status: issue.fields.status.name.clone(),
        priority: issue.fields.priority.name.clone(),
        issue_type: issue.fields.issuetype.name.clone(),
        assignee: display_name(&issue.fields.assignee),
        reporter: display_name(&issue.fields.reporter),
        created_at: issue.fields.created.clone(),
        updated_at: issue.fields.updated.clone(),
        resolved_at: clone_opt_string(&issue.fields.resolutiondate),
        labels: join_labels(&issue.fields.labels),
        project_key: issue.fields.project.key.clone(),
        category: None,
    }
}

/// Decimal value of a run of digits.
pub open spec fn digits_value(s: Seq<char>) -> int
    decreases s.len(),
{
    if s.len() == 0 {
        0
    } else {
        digits_value(s.drop_last()) * 10 + (s.last() as int - '0' as int)
    }
}

pub open spec fn all_digits(s: Seq<char>) -> bool {
    forall|i: int| 0 <= i < s.len() ==> '0' <= #[trigger] s[i] && s[i] <= '9'
}

/// The text without one leading `+`.
pub open spec fn unsigned_part(s: Seq<char>) -> Seq<char> {
    if s.len() > 0 && s[0] == '+' {
        s.drop_first()
    } else {
        s
    }
}

/// An unsigned decimal number as `str::parse::<u64>` reads it: an optional
/// `+`, then one or more ASCII digits, of a value that fits in 64 bits.
pub open spec fn parsed_u64(s: Seq<char>) -> Option<u64> {
    let d = unsigned_part(s);
    if d.len() > 0 && all_digits(d) && digits_value(d) <= u64::MAX {
        Some(digits_value(d) as u64)
    } else {
        None
    }
}

proof fn lemma_digits_grow(s: Seq<char>, k: int)
    requires
        all_digits(s),
        0 <= k <= s.len(),
    ensures
        0 <= digits_value(s.subrange(0, k)) <= digits_value(s),
    decreases s.len(),
{
    if s.len() > 0 {
        let d = s.drop_last();
        assert(all_digits(d)) by {
            assert forall|i: int| 0 <= i < d.len() implies '0' <= #[trigger] d[i] && d[i] <= '9' by {
                assert(d[i] == s[i]);
            }
        }
        assert(s.last() == s[s.len() - 1]);
        if k < s.len() {
            assert(d.subrange(0, k) == s.subrange(0, k));
            lemma_digits_grow(d, k);
        } else {
            assert(s.subrange(0, k) == s);
            lemma_digits_grow(d, d.len() as int);
            assert(d.subrange(0, d.len() as int) == d);
        }
    } else {
        assert(s.subrange(0, k) == s);
    }
}

/// Reads an unsigned decimal number; `None` when the text is not one or the
/// value does not fit in 64 bits.
pub fn parse_u64(s: &str) -> (r: Option<u64>)
    ensures
        r == parsed_u64(s@),
{
    let n = s.unicode_len();
    let start: usize = if n > 0 && s.get_char(0) == '+' { 1 } else { 0 };
    let ghost d = unsigned_part(s@);
    assert(d == s@.subrange(start as int, n as int));
    if start == n {
        return None;
    }
    let mut value: u64 = 0;
    let mut i: usize = start;
    while i < n
        invariant
            n == s@.len(),
            start <= i <= n,
            d == s@.subrange(start as int, n as int),
            d == unsigned_part(s@),
            all_digits(d.subrange(0, i - start)),
            value == digits_value(d.subrange(0, i - start)),
        decreases n - i,
    {
        let c = s.get_char(i);
        let ghost pre = d.subrange(0, i - start);
        let ghost post = d.subrange(0, i - start + 1);
        assert(post.drop_last() == pre);
        assert(post.last() == c);
        if !('0' <= c && c <= '9') {
            assert(!all_digits(d)) by {
                assert(d[i - start] == c);
            }
            return None;
        }
        assert(all_digits(post)) by {
            assert forall|j: int| 0 <= j < post.len() implies '0' <= #[trigger] post[j] && post[j] <= '9' by {
                if j < pre.len() {
                    assert(post[j] == pre[j]);
                }
            }
        }
        let digit: u64 = (c as u32 - '0' as u32) as u64;
        if value > (u64::MAX - digit) / 10 {
            proof {
                assert(digits_value(post) == value * 10 + digit);
                assert(value * 10 + digit > u64::MAX) by (nonlinear_arith)
                    requires value > (u64::MAX - digit) / 10, digit <= 9;
                if all_digits(d) {
                    lemma_digits_grow(d, i - start + 1);
                }
            }
            return None;
        }
        proof {
            assert(value * 10 + digit <= u64::MAX) by (nonlinear_arith)
                requires value <= (u64::MAX - digit) / 10, digit <= 9;
        }
        value = value * 10 + digit;
        i = i + 1;
    }
    assert(d.subrange(0, n - start) == d);
    Some(value)
}

/// Retry hint from an already parsed header: the default when absent, capped
/// at the maximum.
pub fn retry_hint(parsed: Option<u64>) -> (r: u64)
    ensures
        r == match parsed {
            None => DEFAULT_RETRY_SECS,
            Some(v) => if v <= MAX_RETRY_SECS { v } else { MAX_RETRY_SECS },
        },
{
    match parsed {
        None => DEFAULT_RETRY_SECS,
        Some(v) => if v <= MAX_RETRY_SECS { v } else { MAX_RETRY_SECS },
    }
}

pub open spec fn retry_spec(header: Option<Seq<char>>) -> u64 {
    let parsed = match header {
        None => None,
        Some(h) => parsed_u64(h),
    };
    match parsed {
        None => DEFAULT_RETRY_SECS,
        Some(v) => if v <= MAX_RETRY_SECS { v } else { MAX_RETRY_SECS },
    }
}

/// Retry hint from the raw retry header of a rate-limit response.
pub fn retry_after_secs(header: Option<&str>) -> (r: u64)
    ensures
        r == retry_spec(match header {
            Some(h) => Some(h@),
            None => None,
        }),
{
    match header {
        None => retry_hint(None),
        Some(h) => retry_hint(parse_u64(h)),
    }
}

/// Sorts a non-success status into the error it stands for: 401 is
/// `Unauthorized`, 429 is `RateLimited` with the hint, any other status is
/// `ApiError` with the body.
pub fn classify_failure(status: u16, retry_after: u64, body: String) -> (r: JiraError)
    ensures
        status == 401 ==> r is Unauthorized,
        status == 429 ==> r == (JiraError::RateLimited { retry_after_secs: retry_after }),
        status != 401 && status != 429 ==> r == (JiraError::ApiError { status, body }),
{
    if status == 401 {
        JiraError::Unauthorized
    } else if status == 429 {
        JiraError::RateLimited { retry_after_secs: retry_after }
    } else {
        JiraError::ApiError { status, body }
    }
}

/// 2xx statuses.
pub open spec fn is_success(status: u16) -> bool {
    200 <= status <= 299
}

pub fn status_is_success(status: u16) -> (r: bool)
    ensures
        r == is_success(status),
{
    200 <= status && status <= 299
}

pub open spec fn backfill_query() -> Seq<char> {
    "assignee = currentUser() ORDER BY created DESC"@
}

pub open spec fn incremental_query(ts: Seq<char>) -> Seq<char> {
    "assignee = currentUser() AND updated >= \""@ + ts + "\" ORDER BY updated ASC"@
}

/// The search query: issues assigned to the caller, updated at or after the
/// cursor in ascending update order when there is one; otherwise everything,
/// newest first.
pub fn build_jql(since: Option<&str>) -> (r: String)
    ensures
        r@ == match since {
            Some(ts) => incremental_query(ts@),
            None => backfill_query(),
        },
{
    match since {
        Some(ts) => {
            let mut q = String::from_str("assignee = currentUser() AND updated >= \"");
            q.append(ts);
            q.append("\" ORDER BY updated ASC");
            q
        },
        None => String::from_str("assignee = currentUser() ORDER BY created DESC"),
    }
}

/// `s` without its trailing slashes.
pub open spec fn trim_slashes(s: Seq<char>) -> Seq<char>
    decreases s.len(),
{
    if s.len() > 0 && s.last() == '/' {
        trim_slashes(s.drop_last())
    } else {
        s
    }
}

proof fn lemma_trim_prefix(s: Seq<char>, n: int)
    requires
        0 <= n <= s.len(),
        forall|k: int| n <= k < s.len() ==> s[k] == '/',
    ensures
        trim_slashes(s) == trim_slashes(s.subrange(0, n)),
    decreases s.len() - n,
{
    if n < s.len() {
        assert(s.last() == '/');
        assert(s.drop_last().subrange(0, n) == s.subrange(0, n));
        lemma_trim_prefix(s.drop_last(), n);
    } else {
        assert(s.subrange(0, n) == s);
    }
}

/// The REST base of the tracker at `url`.
pub fn api_base_url(url: &str) -> (r: String)
    ensures
        r@ == trim_slashes(url@) + "/rest/api/3"@,
{
    let mut n = url.unicode_len();
    while n > 0 && url.get_char(n - 1) == '/'
        invariant
            n <= url@.len(),
            forall|k: int| n <= k < url@.len() ==> url@[k] == '/',
        decreases n,
    {
        n = n - 1;
    }
    proof {
        lemma_trim_prefix(url@, n as int);
        let p = url@.subrange(0, n as int);
        if n > 0 {
            assert(p.last() == url@[n - 1]);
        }
    }
    let mut r = String::from_str(url.substring_char(0, n));
    r.append("/rest/api/3");
    r
}

/// What the base64 standard engine makes of the UTF-8 bytes of a text.
pub uninterp spec fn base64_text(s: Seq<char>) -> Seq<char>;

/// Relies on `base64::engine::general_purpose::STANDARD.encode`: the padded
/// standard-alphabet encoding of the text's bytes.
#[verifier::external_body]
fn base64_encode(s: &str) -> (r: String)
    ensures
        r@ == base64_text(s@),
{
    base64::engine::general_purpose::STANDARD.encode(s)
}

pub open spec fn basic_auth(email: Seq<char>, token: Seq<char>) -> Seq<char> {
    "Basic "@ + base64_text(email + ":"@ + token)
}

/// Client state of the remote tracker: the REST base and the basic-auth
/// header, both computed once.
pub struct JiraClient {
    pub base_url: String,
    pub auth_header: String,
}

impl JiraClient {
    /// The header value for HTTP Basic authentication with `email:token`.
    pub fn create_auth_header(email: &str, token: &str) -> (r: String)
        ensures
            r@ == basic_auth(email@, token@),
    {
        let mut credentials = String::from_str(email);
        credentials.append(":");
        credentials.append(token);
        let encoded = base64_encode(&credentials);
        let mut h = String::from_str("Basic ");
        h.append(&encoded);
        h
    }

    pub fn new(jira_url: &str, email: &str, token: &str) -> (r: Result<JiraClient, AppError>)
        ensures
            r matches Ok(c) && c.base_url@ == trim_slashes(jira_url@) + "/rest/api/3"@
                && c.auth_header@ == basic_auth(email@, token@),
    {
        let base_url = api_base_url(jira_url);
        let auth_header = JiraClient::create_auth_header(email, token);
        Ok(JiraClient { base_url, auth_header })
    }

    /// Address of the search endpoint.
    pub fn search_url(&self) -> (r: String)
        ensures
            r@ == self.base_url@ + "/search/jql"@,
    {
        let mut u = String::from_str(&self.base_url);
        u.append("/search/jql");
        u
    }
}

/// Accumulates the pages of one search until a page comes without a
/// continuation token.
pub struct PageCollector {
    pub tickets: Vec<Ticket>,
    /// Token to send with the next page request.
    pub next_page_token: Option<String>,
    pub finished: bool,
}

impl PageCollector {
    pub fn new() -> (r: PageCollector)
        ensures
            r.tickets@.len() == 0,
            r.next_page_token is None,
            !r.finished,
    {
        PageCollector { tickets: Vec::new(), next_page_token: None, finished: false }
    }

    /// Takes one page. `Ok(true)`: request the next page with the stored
    /// token. `Ok(false)`: the search is complete. A page that carries a
    /// token but no issues makes no progress and fails the search.
    pub fn on_page(&mut self, page: JiraSearchResponse) -> (r: Result<bool, AppError>)
        requires
            !old(self).finished,
        ensures
            page.next_page_token is Some && page.issues@.len() == 0 ==> r matches Err(
                AppError::JiraApi(JiraError::ParseError(_)),
            ),
            r is Err ==> page.next_page_token is Some && page.issues@.len() == 0,
            r is Err ==> final(self).tickets@ == old(self).tickets@,
            r matches Ok(more) ==> {
                &&& more == page.next_page_token is Some
                &&& final(self).finished == !more
                &&& final(self).next_page_token == page.next_page_token
                &&& final(self).tickets@.len() == old(self).tickets@.len() + page.issues@.len()
                &&& forall|k: int| 0 <= k < old(self).tickets@.len() ==> final(self).tickets@[k]
                    == old(self).tickets@[k]
                &&& forall|k: int| 0 <= k < page.issues@.len() ==> mirrors(
                    #[trigger] final(self).tickets@[old(self).tickets@.len() + k],
                    page.issues@[k],
                )
            },
    {
        if page.next_page_token.is_some() && page.issues.len() == 0 {
            return Err(AppError::JiraApi(JiraError::ParseError(
                String::from_str("search page without issues but with a continuation token"),
            )));
        }
        let n = page.issues.len();
        let start = self.tickets.len();
        let mut i: usize = 0;
        while i < n
            invariant
                n == page.issues@.len(),
                i <= n,
                start == old(self).tickets@.len(),
                self.tickets@.len() == start + i,
                forall|k: int| 0 <= k < start ==> self.tickets@[k] == old(self).tickets@[k],
                forall|k: int| 0 <= k < i ==> mirrors(#[trigger] self.tickets@[start + k], page.issues@[k]),
            decreases n - i,
        {
            let t = convert_issue_to_ticket(&page.issues[i]);
            self.tickets.push(t);
            i = i + 1;
        }
        let more = page.next_page_token.is_some();
        self.next_page_token = page.next_page_token;
        self.finished = !more;
        Ok(more)
    }
}

} // verus!
