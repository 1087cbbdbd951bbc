use vstd::prelude::*;

verus! {

/// Failures of the local store.
pub enum DbError {
    /// The underlying engine reported a failure; its description.
    Sqlite(String),
    LockFailed,
    Migration(String),
}

/// Failures of the remote tracker client.
pub enum JiraError {
    /// Transport failure; its description.
    Http(String),
    /// 401: terminal, not retried.
    Unauthorized,
    /// 429, with the capped retry hint in seconds.
    RateLimited { retry_after_secs: u64 },
    /// Any other non-success status, with the raw response body.
    ApiError { status: u16, body: String },
    /// A success response whose body could not be read as a search page.
    ParseError(String),
    NotConfigured,
}

/// Every failure that reaches the sync boundary.
pub enum AppError {
    Database(DbError),
    JiraApi(JiraError),
    Keyring(String),
    SyncAlreadyInProgress,
    Config(String),
    Internal(String),
}

} // verus!
