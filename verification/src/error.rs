//! Error values returned by the store, the path parser and the coercions.

use vstd::prelude::*;

verus! {

/// Mathematical model of an error.
pub enum ErrorView {
    Frozen,
    ParseError { fragment: Seq<char> },
    NotFound { key: Seq<char> },
    InvalidType {
        origin: Option<Seq<char>>,
        unexpected: Seq<char>,
        expected: Seq<char>,
        key: Option<Seq<char>>,
    },
    SourceError { uri: Option<Seq<char>>, message: Seq<char> },
}

/// Everything that can go wrong while mutating or querying a configuration.
#[derive(Debug, Clone)]
pub enum ConfigError {
    /// A mutating operation was invoked after the store was frozen.
    Frozen,
    /// A key string does not match the path grammar; carries the
    /// offending fragment.
    ParseError { fragment: String },
    /// A `get` found no value under the requested key; carries the
    /// original key text.
    NotFound { key: String },
    /// A coercion was requested against a value of an incompatible shape;
    /// carries the value's provenance (if known), a description of the
    /// actual shape, the requested shape, and, when raised through a keyed
    /// access, the path that addressed the value.
    InvalidType {
        origin: Option<String>,
        unexpected: String,
        expected: String,
        key: Option<String>,
    },
    /// A source failed while contributing its values during a refresh;
    /// carries the source's description and its own diagnostic.
    SourceError { uri: Option<String>, message: String },
}

/// The view of an optional string.
pub open spec fn opt_view(o: Option<String>) -> Option<Seq<char>> {
    match o {
        Some(s) => Some(s@),
        None => None,
    }
}

impl View for ConfigError {
    type V = ErrorView;

    open spec fn view(&self) -> ErrorView {
        match self {
            ConfigError::Frozen => ErrorView::Frozen,
            ConfigError::ParseError { fragment } => ErrorView::ParseError { fragment: fragment@ },
            ConfigError::NotFound { key } => ErrorView::NotFound { key: key@ },
            ConfigError::InvalidType { origin, unexpected, expected, key } => {
                ErrorView::InvalidType {
                    origin: opt_view(*origin),
                    unexpected: unexpected@,
                    expected: expected@,
                    key: opt_view(*key),
                }
            },
            ConfigError::SourceError { uri, message } => {
                ErrorView::SourceError { uri: opt_view(*uri), message: message@ }
            },
        }
    }
}

impl ConfigError {
    /// Attaches the path string that addressed the failing value to an
    /// `InvalidType` error; any other error is returned unchanged.
    pub fn extend_with_key(self, key: &str) -> (r: ConfigError)
        ensures
            r@ == match self@ {
                ErrorView::InvalidType { origin, unexpected, expected, key: _ } =>
                    ErrorView::InvalidType { origin, unexpected, expected, key: Some(key@) },
                other => other,
            },
    {
        match self {
            ConfigError::InvalidType { origin, unexpected, expected, key: _ } => {
                ConfigError::InvalidType { origin, unexpected, expected, key: Some(key.to_owned()) }
            },
            _ => self,
        }
    }
}

} // verus!
