use vstd::prelude::*;

verus! {

/// The default character set: the Latin letters, upper case and lower case
/// interleaved, darkest first.
pub const ENGLISH: &'static str = "AaBbCcDdEeFfGgHhIiJjKkLlMmNnOoPpQqRrSsTtUuVvWwXxYyZz";

} // verus!
