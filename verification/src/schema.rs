//! Current wire-schema metadata. Only the current schema is supported.

use vstd::prelude::*;

verus! {

pub const SCHEMA_VERSION: u16 = 7;

pub fn is_supported_schema_version(schema_version: u16) -> (r: bool)
    ensures
        r == (schema_version == SCHEMA_VERSION),
{
    schema_version == SCHEMA_VERSION
}

} // verus!
