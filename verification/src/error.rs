//! The library's error type.

use vstd::prelude::*;
use crate::strings::push_str;

verus! {

/// Why a request or a reply could not be used.
pub enum TwitchError {
    /// A playlist could not be read, or had no usable entry.
    ParseError(String),
    /// A JSON reply could not be parsed.
    Json,
    /// The request itself failed, with the transport's message.
    Http(String),
}

/// The abstract value of an error.
pub enum TwitchErrorView {
    ParseError(Seq<char>),
    Json,
    Http(Seq<char>),
}

impl View for TwitchError {
    type V = TwitchErrorView;

    open spec fn view(&self) -> TwitchErrorView {
        match self {
            TwitchError::ParseError(s) => TwitchErrorView::ParseError(s@),
            TwitchError::Json => TwitchErrorView::Json,
            TwitchError::Http(s) => TwitchErrorView::Http(s@),
        }
    }
}

/// The text shown for an error.
pub open spec fn error_message(e: TwitchErrorView) -> Seq<char> {
    match e {
        TwitchErrorView::ParseError(v) => "parse error: '"@ + v + "'"@,
        TwitchErrorView::Json => "JSON error"@,
        TwitchErrorView::Http(m) => m,
    }
}

impl TwitchError {
    /// The text shown for this error.
    pub fn message(&self) -> (r: String)
        ensures
            r@ == error_message(self@),
    {
        let mut r = String::new();
        match self {
            TwitchError::ParseError(v) => {
                push_str(&mut r, "parse error: '");
                push_str(&mut r, v);
                push_str(&mut r, "'");
            },
            TwitchError::Json => {
                push_str(&mut r, "JSON error");
            },
            TwitchError::Http(m) => {
                push_str(&mut r, m);
            },
        }
        r
    }

    /// A copy of this error.
    pub fn duplicate(&self) -> (r: TwitchError)
        ensures
            r@ == self@,
    {
        match self {
            TwitchError::ParseError(v) => TwitchError::ParseError(v.clone()),
            TwitchError::Json => TwitchError::Json,
            TwitchError::Http(m) => TwitchError::Http(m.clone()),
        }
    }
}

} // verus!
