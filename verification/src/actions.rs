//! The handlers' decision logic: what an upload, a save, a registration or
//! a login does with a request body, stated as plain values in and out.
//! The surrounding process performs the file, store and stream work.
use vstd::prelude::*;

verus! {

use crate::bytes::text_or_empty;
use crate::error::{DecodeError, HttpError};
use crate::form::{FormData, parse_form_bytes, spec_parse_form};
use crate::hash::{hash_password, spec_hash_password};
use crate::multipart::{decode_multipart, spec_multipart};
use crate::pages::{spec_upload_page, spec_save_page, upload_success_page, save_success_page};
use crate::request::{extract_boundary, body_slice, spec_boundary, spec_body};
use crate::response::{build_response, spec_response};
use vstd::string::StringExecFns;
use vstd::utf8::encode_utf8;

/// Everything a stored upload needs: where the file goes, what it holds,
/// and the response that confirms it.
pub struct UploadPlan {
    pub directory: &'static str,
    pub file_path: String,
    pub filename: String,
    pub content: Vec<u8>,
    pub response: Vec<u8>,
}

/// Decides an upload request from the raw request bytes: the boundary is
/// read from the head, the body is decoded as multipart, and on success
/// the file's target path and the confirmation response are assembled.
/// A missing or empty `boundary=` token fails with `MissingBoundary`; a
/// decode that leaves no filename or no content fails with
/// `InvalidUpload`. No file is touched here either way.
pub fn plan_upload(data: &[u8]) -> (r: Result<UploadPlan, HttpError>)
    ensures
        match r {
            Ok(plan) => {
                &&& spec_boundary(data@) matches Some(b) && spec_multipart(spec_body(data@), b)
                    == Some((plan.filename@, plan.content@))
                &&& plan.directory@ == "static/uploads"@
                &&& plan.file_path@ == "static/uploads/"@ + plan.filename@
                &&& plan.response@ == spec_response(
                    200,
                    "OK"@,
                    "text/html"@,
                    encode_utf8(spec_upload_page(plan.filename@)),
                )
            },
            Err(e) => match e {
                HttpError::Decode(DecodeError::MissingBoundary) => spec_boundary(data@) is None,
                HttpError::Decode(DecodeError::InvalidUpload) => spec_boundary(
                    data@,
                ) matches Some(b) && spec_multipart(spec_body(data@), b) is None,
                _ => false,
            },
        },
{
    let boundary = match extract_boundary(data) {
        Some(b) => b,
        None => {
            return Err(HttpError::Decode(DecodeError::MissingBoundary));
        },
    };
    let body = body_slice(data);
    let part = match decode_multipart(body, boundary.as_slice()) {
        Ok(p) => p,
        Err(e) => {
            return Err(HttpError::Decode(e));
        },
    };
    let mut file_path = String::from_str("static/uploads/");
    file_path.append(part.filename.as_str());
    let page = upload_success_page(part.filename.as_str());
    let response = build_response(200, "OK", "text/html", page.as_str().as_bytes());
    Ok(
        UploadPlan {
            directory: "static/uploads",
            file_path,
            filename: part.filename,
            content: part.content,
            response,
        },
    )
}

/// Everything a save needs: the fixed target file, the content to write,
/// and the response that confirms it.
pub struct SavePlan {
    pub file_path: &'static str,
    pub content: String,
    pub response: Vec<u8>,
}

/// Decides a save request from the body bytes: the `content` form field is
/// written verbatim to the fixed file, and the fixed confirmation page is
/// the response. A missing field degrades to empty content.
pub fn plan_save(body: &[u8]) -> (r: SavePlan)
    ensures
        ({
            let form = spec_parse_form(body@);
            &&& r.file_path@ == "user_content.txt"@
            &&& r.content@ == if form.contains_key("content"@) {
                form["content"@]
            } else {
                Seq::<char>::empty()
            }
            &&& r.response@ == spec_response(
                200,
                "OK"@,
                "text/html"@,
                encode_utf8(spec_save_page()),
            )
        }),
{
    let form = parse_form_bytes(body);
    let content = match form.get("content") {
        Some(v) => v.clone(),
        None => String::new(),
    };
    let page = save_success_page();
    let response = build_response(200, "OK", "text/html", page.as_bytes());
    SavePlan { file_path: "user_content.txt", content, response }
}

/// What the credential store is asked about: the username, and the hash of
/// the password. The password itself goes no further.
pub struct Credentials {
    pub username: String,
    pub password_hash: String,
}

/// Reads a registration or login body: the `username` and `password` form
/// fields, missing ones degrading to empty, with the password hashed for
/// the store.
pub fn plan_credentials(body: &[u8]) -> (r: Credentials)
    ensures
        ({
            let form = spec_parse_form(body@);
            let password = if form.contains_key("password"@) {
                form["password"@]
            } else {
                Seq::<char>::empty()
            };
            &&& r.username@ == if form.contains_key("username"@) {
                form["username"@]
            } else {
                Seq::<char>::empty()
            }
            &&& r.password_hash@ == spec_hash_password(password)
        }),
{
    let form = parse_form_bytes(body);
    let username = match form.get("username") {
        Some(v) => v.clone(),
        None => String::new(),
    };
    let password = match form.get("password") {
        Some(v) => v.clone(),
        None => String::new(),
    };
    let password_hash = hash_password(password.as_str());
    Credentials { username, password_hash }
}

} // verus!
