use vstd::prelude::*;

verus! {

/// The greeting body owed for the path segment `name`: `Hello, <name>!`,
/// with the segment echoed verbatim.
pub open spec fn greeting_text(name: Seq<char>) -> Seq<char> {
    "Hello, "@ + name + "!"@
}

/// Builds the response body for `GET /hello/<name>`. The segment is copied
/// into the greeting unchanged: no escaping, no validation, no length limit.
pub fn greeting(name: &str) -> (r: String)
    ensures
        r@ == greeting_text(name@),
{
    let r = String::from_str("Hello, ");
    let r = r.concat(name);
    r.concat("!")
}

} // verus!
