//! The rules of the REST API that do not touch the network: which status
//! and error text answer each failure, and the content type of a file of
//! the embedded dashboard.
use vstd::prelude::*;
use crate::error::{Error, error_text};
use crate::text::{chars_of, push_str, str_equal};
use crate::validate::{ValidationError, copy_text, messages};
use crate::model::Workflow;

verus! {

/// The store call a request made.
#[derive(Clone, Copy)]
pub enum StoreCall {
    List,
    Create,
    Get,
    Update,
    Delete,
    Run,
}

/// The status that answers a failed store call: a duplicate id on create
/// is a conflict, a missing workflow on update is not found, anything else
/// is an internal error.
pub open spec fn failure_status(call: StoreCall, e: Error) -> u16 {
    match (call, e) {
        (StoreCall::Create, Error::Duplicate { .. }) => 409,
        (StoreCall::Update, Error::NotFound { .. }) => 404,
        _ => 500,
    }
}

/// The error text that answers a failed store call.
pub open spec fn failure_message(call: StoreCall, e: Error) -> Seq<char> {
    match (call, e) {
        (StoreCall::Create, Error::Duplicate { id }) => "workflow '"@ + id@ + "' already exists"@,
        (StoreCall::Update, Error::NotFound { id }) => not_found_text(id@),
        _ => "internal error: "@ + error_text(e),
    }
}

/// The text for a workflow that is not stored.
pub open spec fn not_found_text(id: Seq<char>) -> Seq<char> {
    "workflow '"@ + id + "' not found"@
}

/// The status and error text that answer a failed store call.
pub fn failure_reply(call: StoreCall, e: &Error) -> (r: (u16, String))
    ensures
        r.0 == failure_status(call, *e),
        r.1@ == failure_message(call, *e),
{
    match (call, e) {
        (StoreCall::Create, Error::Duplicate { id }) => {
            let mut s = String::new();
            push_str(&mut s, "workflow '");
            push_str(&mut s, id.as_str());
            push_str(&mut s, "' already exists");
            assert(s@ =~= failure_message(call, *e));
            (409, s)
        },
        (StoreCall::Update, Error::NotFound { id }) => {
            let s = not_found_message(id.as_str());
            (404, s)
        },
        _ => {
            let mut s = String::new();
            push_str(&mut s, "internal error: ");
            let t = e.message();
            push_str(&mut s, t.as_str());
            assert(s@ =~= failure_message(call, *e));
            (500, s)
        },
    }
}

/// The text for a workflow that is not stored.
pub fn not_found_message(id: &str) -> (s: String)
    ensures
        s@ == not_found_text(id@),
{
    let mut s = String::new();
    push_str(&mut s, "workflow '");
    push_str(&mut s, id);
    push_str(&mut s, "' not found");
    assert(s@ =~= not_found_text(id@));
    s
}

/// The text for a request body that is not a workflow, or not JSON.
pub fn invalid_body_message(detail: &str) -> (s: String)
    ensures
        s@ == "invalid JSON body: "@ + detail@,
{
    let mut s = String::new();
    push_str(&mut s, "invalid JSON body: ");
    push_str(&mut s, detail);
    s
}

/// The details of a refused workflow: the message of each error, in order.
pub fn validation_details(errors: &Vec<ValidationError>) -> (d: Vec<String>)
    ensures
        d@.map_values(|s: String| s@) == messages(errors@),
{
    let mut d: Vec<String> = Vec::new();
    let mut i: usize = 0;
    while i < errors.len()
        invariant
            i <= errors@.len(),
            d@.map_values(|s: String| s@) == messages(errors@).take(i as int),
        decreases errors@.len() - i,
    {
        let mut s = String::new();
        push_str(&mut s, errors[i].message.as_str());
        assert(s@ =~= errors@[i as int].message@);
        assert(messages(errors@)[i as int] == errors@[i as int].message@);
        assert(messages(errors@).take(i + 1) =~= messages(errors@).take(i as int).push(s@));
        let ghost before = d@;
        d.push(s);
        assert(d@.map_values(|s: String| s@) =~= messages(errors@).take(i + 1));
        i = i + 1;
    }
    assert(messages(errors@).take(errors@.len() as int) =~= messages(errors@));
    d
}

// ---------------------------------------------------------------------------
// Content types
// ---------------------------------------------------------------------------

/// The position of the last `.` in `s`.
pub open spec fn last_dot(s: Seq<char>) -> Option<int>
    decreases s.len(),
{
    if s.len() == 0 {
        None
    } else if s.last() == '.' {
        Some(s.len() - 1)
    } else {
        last_dot(s.drop_last())
    }
}

/// What follows the last `.` of a path, or the whole path when it has none
/// (`path.rsplit('.').next()`).
pub open spec fn extension(path: Seq<char>) -> Seq<char> {
    match last_dot(path) {
        Some(i) => path.subrange(i + 1, path.len() as int),
        None => path,
    }
}

/// The content type of a file with extension `ext`.
pub open spec fn content_type_of(ext: Seq<char>) -> Seq<char> {
    if ext == "html"@ || ext == "htm"@ {
        "text/html; charset=utf-8"@
    } else if ext == "css"@ {
        "text/css; charset=utf-8"@
    } else if ext == "js"@ {
        "application/javascript; charset=utf-8"@
    } else if ext == "json"@ {
        "application/json"@
    } else if ext == "svg"@ {
        "image/svg+xml"@
    } else if ext == "png"@ {
        "image/png"@
    } else if ext == "jpg"@ || ext == "jpeg"@ {
        "image/jpeg"@
    } else if ext == "ico"@ {
        "image/x-icon"@
    } else if ext == "woff2"@ {
        "font/woff2"@
    } else if ext == "webp"@ {
        "image/webp"@
    } else {
        "application/octet-stream"@
    }
}

/// The extension of a path.
fn extension_of(path: &str) -> (r: String)
    ensures
        r@ == extension(path@),
{
    let chars = chars_of(path);
    let mut i: usize = chars.len();
    assert(chars@.take(i as int) =~= chars@);
    while i > 0
        invariant
            i <= chars@.len(),
            chars@ == path@,
            last_dot(path@) == last_dot(chars@.take(i as int)),
        decreases i,
    {
        assert(chars@.take(i as int).last() == chars@[i - 1]);
        assert(chars@.take(i as int).drop_last() =~= chars@.take(i - 1));
        if chars[i - 1] == '.' {
            let mut r = String::new();
            let mut j: usize = i;
            while j < chars.len()
                invariant
                    i <= j <= chars@.len(),
                    r@ == chars@.subrange(i as int, j as int),
                decreases chars@.len() - j,
            {
                crate::text::push_char(&mut r, chars[j]);
                assert(chars@.subrange(i as int, j + 1) =~= chars@.subrange(i as int, j as int).push(chars@[j as int]));
                j = j + 1;
            }
            return r;
        }
        i = i - 1;
    }
    let mut r = String::new();
    push_str(&mut r, path);
    assert(r@ =~= path@);
    r
}

/// The content type to serve a dashboard file with, by its extension.
pub fn guess_content_type(path: &str) -> (r: &'static str)
    ensures
        r@ == content_type_of(extension(path@)),
{
    let e = extension_of(path);
    let e = e.as_str();
    if str_equal(e, "html") || str_equal(e, "htm") {
        "text/html; charset=utf-8"
    } else if str_equal(e, "css") {
        "text/css; charset=utf-8"
    } else if str_equal(e, "js") {
        "application/javascript; charset=utf-8"
    } else if str_equal(e, "json") {
        "application/json"
    } else if str_equal(e, "svg") {
        "image/svg+xml"
    } else if str_equal(e, "png") {
        "image/png"
    } else if str_equal(e, "jpg") || str_equal(e, "jpeg") {
        "image/jpeg"
    } else if str_equal(e, "ico") {
        "image/x-icon"
    } else if str_equal(e, "woff2") {
        "font/woff2"
    } else if str_equal(e, "webp") {
        "image/webp"
    } else {
        "application/octet-stream"
    }
}

/// The workflow that `PUT /workflows/:id` stores: the body's workflow,
/// with the id of the path in place of its own.
pub fn with_path_id(wf: Workflow, id: &str) -> (w: Workflow)
    ensures
        w.id@ == id@,
        w.name == wf.name,
        w.knots == wf.knots,
        w.connections == wf.connections,
        w.active == wf.active,
{
    Workflow { id: copy_text(id), ..wf }
}

} // verus!
