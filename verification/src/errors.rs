//! The error taxonomy of a cook request.
//!
//! Every error is fatal to the whole request: no partial result is ever
//! returned, and none of these is retriable without fixing the underlying
//! data or registry configuration first.

use vstd::prelude::*;
use crate::ids::{canonical_uuid_text, uuid_to_canonical_text};

verus! {

/// Why a cook request failed.
#[derive(Clone, Copy, Debug, PartialEq, Eq, Structural)]
pub enum CookError {
    /// A referenced prefab asset cannot be fetched.
    LoadError { asset: u128 },
    /// A prefab transitively references itself.
    CycleError { asset: u128 },
    /// A component type appears in data with no matching registry entry.
    UnregisteredComponentType { component_type: u128 },
    /// A structured-value diff payload was encountered; that encoding has no
    /// defined semantics and is rejected explicitly.
    UnsupportedDiffEncoding,
    /// A binary diff payload does not decode against its component's schema.
    MalformedDiff { component_type: u128 },
    /// An override names an entity absent from the identity map.
    DanglingOverrideReference { entity: u128 },
    /// The verification re-serialization of the cooked result disagreed with
    /// the first serialization.
    RoundTripMismatch,
}

/// The one-line description of an error, over the canonical identifier text.
pub open spec fn error_text(e: CookError) -> Seq<char> {
    match e {
        CookError::LoadError { asset } =>
            "prefab asset failed to load: "@ + canonical_uuid_text(asset),
        CookError::CycleError { asset } =>
            "prefab reference cycle through: "@ + canonical_uuid_text(asset),
        CookError::UnregisteredComponentType { component_type } =>
            "component type is not registered: "@ + canonical_uuid_text(component_type),
        CookError::UnsupportedDiffEncoding =>
            "structured-value diffs are not supported"@,
        CookError::MalformedDiff { component_type } =>
            "malformed binary diff for component type: "@ + canonical_uuid_text(component_type),
        CookError::DanglingOverrideReference { entity } =>
            "override names an unknown entity: "@ + canonical_uuid_text(entity),
        CookError::RoundTripMismatch =>
            "cooked data failed to round-trip"@,
    }
}

impl CookError {
    /// Renders the error as one line of text.
    pub fn describe(&self) -> (r: String)
        ensures
            r@ == error_text(*self),
    {
        match *self {
            CookError::LoadError { asset } => {
                let mut s = "prefab asset failed to load: ".to_owned();
                s.append(uuid_to_canonical_text(asset).as_str());
                s
            },
            CookError::CycleError { asset } => {
                let mut s = "prefab reference cycle through: ".to_owned();
                s.append(uuid_to_canonical_text(asset).as_str());
                s
            },
            CookError::UnregisteredComponentType { component_type } => {
                let mut s = "component type is not registered: ".to_owned();
                s.append(uuid_to_canonical_text(component_type).as_str());
                s
            },
            CookError::UnsupportedDiffEncoding => {
                "structured-value diffs are not supported".to_owned()
            },
            CookError::MalformedDiff { component_type } => {
                let mut s = "malformed binary diff for component type: ".to_owned();
                s.append(uuid_to_canonical_text(component_type).as_str());
                s
            },
            CookError::DanglingOverrideReference { entity } => {
                let mut s = "override names an unknown entity: ".to_owned();
                s.append(uuid_to_canonical_text(entity).as_str());
                s
            },
            CookError::RoundTripMismatch => {
                "cooked data failed to round-trip".to_owned()
            },
        }
    }
}

} // verus!
