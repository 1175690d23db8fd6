//! Error values of the library.

use vstd::prelude::*;
use crate::text::{str_concat, u64_decimal};

verus! {

/// All errors that the library reports.
pub enum FsearchError {
    DirectoryNotFound(String),
    NotADirectory(String),
    InvalidDepth(i64),
    InvalidPattern { pattern: String, reason: String },
    UnsupportedHashAlgorithm(String),
    Io { path: String, source: String },
    PermissionDenied(String),
    Config(String),
    ConfigParse { path: String, source: String },
    Interrupted,
}

/// Convenience alias used throughout the library.
pub type FsearchResult<T> = Result<T, FsearchError>;


/// Decimal rendering of a signed integer (`{}` of an `i64`).
pub open spec fn signed_decimal(v: int) -> Seq<char> {
    if v < 0 {
        seq!['-'] + crate::text::decimal((-v) as nat)
    } else {
        crate::text::decimal(v as nat)
    }
}

/// Decimal rendering of an `i64`.
pub fn i64_decimal(v: i64) -> (s: String)
    ensures
        s@ == signed_decimal(v as int),
{
    if v < 0 {
        let m = (-(v as i128)) as u64;
        let digits = u64_decimal(m);
        let r = str_concat("-", digits.as_str());
        proof {
            reveal_strlit("-");
        }
        r
    } else {
        u64_decimal(v as u64)
    }
}

/// The text of an error, as the tool prints it.
pub open spec fn error_message(e: FsearchError) -> Seq<char> {
    match e {
        FsearchError::DirectoryNotFound(p) => "🚫 Directory does not exist: "@ + p@,
        FsearchError::NotADirectory(p) => "🚫 Path is not a directory: "@ + p@,
        FsearchError::InvalidDepth(d) => "❌ Invalid depth: must be >= 0, got "@ + signed_decimal(d as int),
        FsearchError::InvalidPattern { pattern, reason } => "❌ Invalid pattern '"@ + pattern@ + "': "@
            + reason@,
        FsearchError::UnsupportedHashAlgorithm(a) => "🔍 Hash algorithm '"@ + a@
            + "' is not supported (use 'md5' or 'sha256')"@,
        FsearchError::Io { path, source } => "📁 IO error on '"@ + path@ + "': "@ + source@,
        FsearchError::PermissionDenied(p) => "🔒 Permission denied: "@ + p@,
        FsearchError::Config(m) => "⚙️  Config error: "@ + m@,
        FsearchError::ConfigParse { path, source } => "⚙️  Config parse error in '"@ + path@ + "': "@
            + source@,
        FsearchError::Interrupted => "🛑 Operation interrupted by user"@,
    }
}

/// `lit` followed by `a`, then `mid`, then `b`.
fn join4(lit: &str, a: &str, mid: &str, b: &str) -> (r: String)
    ensures
        r@ == lit@ + a@ + mid@ + b@,
{
    let x = str_concat(lit, a);
    let y = str_concat(x.as_str(), mid);
    str_concat(y.as_str(), b)
}

impl FsearchError {
    /// The text of this error, as the tool prints it.
    pub fn message(&self) -> (m: String)
        ensures
            m@ == error_message(*self),
    {
        match self {
            FsearchError::DirectoryNotFound(p) => str_concat("🚫 Directory does not exist: ", p.as_str()),
            FsearchError::NotADirectory(p) => str_concat("🚫 Path is not a directory: ", p.as_str()),
            FsearchError::InvalidDepth(d) => {
                let n = i64_decimal(*d);
                str_concat("❌ Invalid depth: must be >= 0, got ", n.as_str())
            },
            FsearchError::InvalidPattern { pattern, reason } => join4(
                "❌ Invalid pattern '",
                pattern.as_str(),
                "': ",
                reason.as_str(),
            ),
            FsearchError::UnsupportedHashAlgorithm(a) => {
                let x = str_concat("🔍 Hash algorithm '", a.as_str());
                str_concat(x.as_str(), "' is not supported (use 'md5' or 'sha256')")
            },
            FsearchError::Io { path, source } => join4(
                "📁 IO error on '",
                path.as_str(),
                "': ",
                source.as_str(),
            ),
            FsearchError::PermissionDenied(p) => str_concat("🔒 Permission denied: ", p.as_str()),
            FsearchError::Config(m) => str_concat("⚙️  Config error: ", m.as_str()),
            FsearchError::ConfigParse { path, source } => join4(
                "⚙️  Config parse error in '",
                path.as_str(),
                "': ",
                source.as_str(),
            ),
            FsearchError::Interrupted => "🛑 Operation interrupted by user".to_owned(),
        }
    }
}

}
