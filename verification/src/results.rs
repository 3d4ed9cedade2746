use vstd::prelude::*;

verus! {

/// The envelope every operation answers with at the boundary: a success
/// flag, an optional message and an optional list of arguments.
#[derive(Clone, Debug)]
pub struct Response {
    pub success: bool,
    pub message: Option<String>,
    pub value: Option<Vec<Argument>>,
}

/// One argument of a request or an answer: the publisher it concerns and,
/// where they apply, a sheet title, a cursor id and an encoded payload.
#[derive(Clone, Debug)]
pub struct Argument {
    pub publisher: String,
    pub sheet: Option<String>,
    pub id: Option<String>,
    pub payload: Option<String>,
}

impl Response {
    /// A fresh envelope: empty message and value collapse to absent ones.
    pub fn new(success: bool, message: String, value: Vec<Argument>) -> (r: Response)
        ensures
            r.success == success,
            message@.len() == 0 ==> r.message is None,
            message@.len() > 0 ==> r.message == Some(message),
            value@.len() == 0 ==> r.value is None,
            value@.len() > 0 ==> r.value == Some(value),
    {
        Response {
            success,
            message: string_to_optional(message),
            value: vector_to_optional(value),
        }
    }

    /// The failing envelope: like `new`, with the success flag cleared.
    pub fn error(message: String, value: Vec<Argument>) -> (r: Response)
        ensures
            !r.success,
            message@.len() == 0 ==> r.message is None,
            message@.len() > 0 ==> r.message == Some(message),
            value@.len() == 0 ==> r.value is None,
            value@.len() > 0 ==> r.value == Some(value),
    {
        Response { success: false, message: string_to_optional(message), value: vector_to_optional(value) }
    }
}

impl Default for Response {
    /// The empty envelope: not a success, nothing attached.
    fn default() -> (r: Response)
        ensures
            !r.success,
            r.message is None,
            r.value is None,
    {
        Response { success: false, message: None, value: None }
    }
}

impl Argument {
    /// A fresh argument: empty strings collapse to absent fields.
    pub fn new(publisher: String, sheet: String, id: String, payload: String) -> (r: Argument)
        ensures
            r.publisher == publisher,
            sheet@.len() == 0 ==> r.sheet is None,
            sheet@.len() > 0 ==> r.sheet == Some(sheet),
            id@.len() == 0 ==> r.id is None,
            id@.len() > 0 ==> r.id == Some(id),
            payload@.len() == 0 ==> r.payload is None,
            payload@.len() > 0 ==> r.payload == Some(payload),
    {
        Argument {
            publisher,
            sheet: string_to_optional(sheet),
            id: string_to_optional(id),
            payload: string_to_optional(payload),
        }
    }
}

/// Turns a possibly empty string into an optional: an empty string becomes
/// `None`, any other string is kept as `Some`.
pub fn string_to_optional(s: String) -> (r: Option<String>)
    ensures
        s@.len() == 0 ==> r is None,
        s@.len() > 0 ==> r == Some(s),
{
    if s.as_str().is_empty() {
        None
    } else {
        Some(s)
    }
}

/// Turns an optional string back into a string: `None` becomes the empty
/// string.
pub fn optional_to_string(opt: Option<String>) -> (r: String)
    ensures
        opt matches Some(s) ==> r == s,
        opt is None ==> r@.len() == 0,
{
    match opt {
        Some(s) => s,
        None => String::new(),
    }
}

/// Turns a possibly empty vector into an optional: an empty vector becomes
/// `None`, any other vector is kept as `Some`.
pub fn vector_to_optional<T>(v: Vec<T>) -> (r: Option<Vec<T>>)
    ensures
        v@.len() == 0 ==> r is None,
        v@.len() > 0 ==> r == Some(v),
{
    if v.is_empty() {
        None
    } else {
        Some(v)
    }
}

/// Turns an optional vector back into a vector: `None` becomes the empty
/// vector.
pub fn optional_to_vector<T>(v: Option<Vec<T>>) -> (r: Vec<T>)
    ensures
        v matches Some(inner) ==> r == inner,
        v is None ==> r@.len() == 0,
{
    match v {
        Some(inner) => inner,
        None => Vec::new(),
    }
}

} // verus!
