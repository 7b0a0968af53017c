use vstd::prelude::*;

verus! {

/// The path parameters of a request.
pub struct PathInfo;

/// The query parameters of a request.
pub struct QueryInfo;

/// The form fields of a request.
pub struct FormInfo;

/// What a handler learns about the request besides its body.
pub struct RequestInfo;

} // verus!
