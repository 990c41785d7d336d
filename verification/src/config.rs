//! The logical schema of the build configuration: a list of named data
//! queries and a list of page specifications.

use vstd::prelude::*;

verus! {

/// Keep only records whose field `key` equals `equals`.
pub struct ConfigDataDSLWhenIs {
    pub key: String,
    pub equals: String,
}

/// Keep only records whose field `key` is a string different from `equals`.
pub struct ConfigDataDSLWhenIsNot {
    pub key: String,
    pub equals: String,
}

/// Keep only records that have a field named `key`.
pub struct ConfigDataDSLWhenHas {
    pub key: String,
}

/// Keep only records that have no field named `key`.
pub struct ConfigDataDSLWhenHasNot {
    pub key: String,
}

/// Keep only records whose field `key` is a string matching `regex`.
pub struct ConfigDataDSLWhenMatches {
    pub key: String,
    pub regex: String,
}

/// Sort by the field `key`; `order` is `"desc"` for descending, anything
/// else means ascending.
pub struct ConfigDataDSLSort {
    pub key: String,
    pub order: String,
}

/// One named data query: which collection to read, which filters, sort and
/// limit to apply, and whether to reduce the result to its first or last
/// record. When neither `first` nor `last` is present the whole list is
/// bound; presence alone decides, not the boolean's value.
pub struct ConfigDataDSL {
    pub name: String,
    pub collection: String,
    pub when_is: Option<ConfigDataDSLWhenIs>,
    pub when_is_not: Option<ConfigDataDSLWhenIsNot>,
    pub when_has: Option<ConfigDataDSLWhenHas>,
    pub when_has_not: Option<ConfigDataDSLWhenHasNot>,
    pub when_matches: Option<ConfigDataDSLWhenMatches>,
    pub sort: Option<ConfigDataDSLSort>,
    pub limit: Option<usize>,
    pub first: Option<bool>,
    pub last: Option<bool>,
}

/// The output location of a page, relative to the output directory. The
/// path may hold `{field}` placeholders when the page spec names a
/// collection.
pub struct ConfigPagesDSLPage {
    pub path: String,
}

/// One page specification: with a `collection`, the template is rendered
/// once per record of that collection; without one, exactly once.
pub struct ConfigPagesDSL {
    pub collection: Option<String>,
    pub page: ConfigPagesDSLPage,
    pub template: String,
}

/// The whole build configuration.
pub struct Config {
    pub data: Option<Vec<ConfigDataDSL>>,
    pub pages: Option<Vec<ConfigPagesDSL>>,
}

} // verus!
