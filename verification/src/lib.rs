//! Decoding of URL query strings, and the HTTP date of a Unix time.
//!
//! `escape` decodes percent-escapes with the lookahead cursor of `cursor`.
//! `query` cuts a query string into its tokens and builds from them a flat
//! mapping of names to values, or an extended one in which a name may stand
//! for an array or an object. The mappings are `string_map::StringMap`s.
//! `time` turns a Unix time into a date of the Gregorian calendar and writes
//! it as an HTTP date.

pub mod cursor;
pub mod escape;
pub mod query;
pub mod string_map;
pub mod text;
pub mod time;
