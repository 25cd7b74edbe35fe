//! Cache errors, update outcomes and the checks applied to fetched responses.
use vstd::prelude::*;
use vstd::string::*;
use crate::text::{owned, push_str};
use crate::versions::{decimal, push_decimal};

verus! {

/// Maximum allowed response body size in bytes (10 MiB).
pub const MAX_BODY_SIZE: usize = 10485760;

/// Represents errors that can occur during cache operations; each variant
/// carries a human-readable description.
#[derive(Debug)]
pub enum CacheError {
    /// An error occurred while fetching a remote resource.
    Fetch(String),
    /// An error occurred while writing to the local filesystem.
    Write(String),
    /// An error occurred while reading from the local filesystem.
    Read(String),
}

/// The text a cache error is shown as.
pub open spec fn cache_error_text(e: CacheError) -> Seq<char> {
    match e {
        CacheError::Fetch(m) => "Fetch: "@ + m@,
        CacheError::Write(m) => "Write: "@ + m@,
        CacheError::Read(m) => "Read: "@ + m@,
    }
}

impl CacheError {
    /// The error as text: its kind, a colon and its message.
    pub fn to_string(&self) -> (r: String)
        ensures
            r@ == cache_error_text(*self),
    {
        match self {
            CacheError::Fetch(m) => {
                let mut s = owned("Fetch: ");
                push_str(&mut s, m.as_str());
                s
            },
            CacheError::Write(m) => {
                let mut s = owned("Write: ");
                push_str(&mut s, m.as_str());
                s
            },
            CacheError::Read(m) => {
                let mut s = owned("Read: ");
                push_str(&mut s, m.as_str());
                s
            },
        }
    }
}

/// Outcome of a cache update, surfaced to the webview as a lowercase tag.
#[derive(Clone, Copy, Debug, PartialEq, Eq, Structural)]
pub enum CacheUpdateStatus {
    /// The cache snapshot was fetched, written, and staged for next launch.
    Success,
    /// The cache update failed before producing a usable snapshot.
    Failed,
}

/// The tag sent to the webview for an update outcome.
pub open spec fn status_tag(s: CacheUpdateStatus) -> Seq<char> {
    match s {
        CacheUpdateStatus::Success => "success"@,
        CacheUpdateStatus::Failed => "failed"@,
    }
}

impl CacheUpdateStatus {
    /// String tag sent over the bridge.
    pub fn as_tag(self) -> (r: &'static str)
        ensures
            r@ == status_tag(self),
    {
        match self {
            CacheUpdateStatus::Success => "success",
            CacheUpdateStatus::Failed => "failed",
        }
    }
}

/// The message for a body of `n` bytes that exceeds the limit.
pub open spec fn too_large_message(n: nat) -> Seq<char> {
    "Too large: "@ + decimal(n) + " bytes"@
}

fn too_large(n: u64) -> (r: CacheError)
    ensures
        r matches CacheError::Fetch(m) && m@ == too_large_message(n as nat),
{
    let mut m = owned("Too large: ");
    push_decimal(&mut m, n as u128);
    push_str(&mut m, " bytes");
    CacheError::Fetch(m)
}

/// Checks a response before its body is read: a non-success status is an
/// `HTTP <status>` fetch error, and a declared `Content-Length` above
/// `MAX_BODY_SIZE` is a `Too large` fetch error.
pub fn check_response_head(success: bool, status: &str, content_length: Option<u64>) -> (r: Result<(), CacheError>)
    ensures
        !success ==> (r matches Err(CacheError::Fetch(m)) && m@ == "HTTP "@ + status@),
        success && (content_length matches Some(c) && c > MAX_BODY_SIZE) ==> (r matches Err(CacheError::Fetch(m))
            && m@ == too_large_message(content_length->0 as nat)),
        success && !(content_length matches Some(c) && c > MAX_BODY_SIZE) ==> r is Ok,
{
    if !success {
        let mut m = owned("HTTP ");
        push_str(&mut m, status);
        return Err(CacheError::Fetch(m));
    }
    if let Some(c) = content_length {
        if c > MAX_BODY_SIZE as u64 {
            return Err(too_large(c));
        }
    }
    Ok(())
}

/// Checks a downloaded body against `MAX_BODY_SIZE`.
pub fn check_body_size(body: Vec<u8>) -> (r: Result<Vec<u8>, CacheError>)
    ensures
        body@.len() > MAX_BODY_SIZE ==> (r matches Err(CacheError::Fetch(m)) && m@ == too_large_message(
            body@.len(),
        )),
        body@.len() <= MAX_BODY_SIZE ==> r == Ok::<Vec<u8>, CacheError>(body),
{
    if body.len() > MAX_BODY_SIZE {
        return Err(too_large(body.len() as u64));
    }
    Ok(body)
}

} // verus!
