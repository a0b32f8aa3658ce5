//! The fixed HTML pages and page builders the handlers respond with.
use vstd::prelude::*;

verus! {

use crate::bytes::{
    dec_text, dec_text_int, u64_to_string, i64_to_string, replace_all, replace_slice,
    bytes_to_string_lossy, lossy_chars,
};
use vstd::string::StringExecFns;
use vstd::utf8::{encode_utf8, valid_utf8, decode_utf8};

/// A directory entry as the file listing shows it: name, size in bytes,
/// and the time column's text.
pub struct FileEntry {
    pub name: String,
    pub size: u64,
    pub modified: String,
}

/// One table row of the file listing.
pub open spec fn spec_listing_row(e: FileEntry) -> Seq<char> {
    "<tr><td><a href=\"/static/"@ + e.name@ + "\">"@ + e.name@ + "</a></td><td>"@ + dec_text(
        e.size as nat,
    ) + "</td><td>"@ + e.modified@ + "</td></tr>"@
}

/// The table rows of the file listing, in order.
pub open spec fn spec_listing_rows(es: Seq<FileEntry>) -> Seq<char>
    decreases es.len(),
{
    if es.len() == 0 {
        Seq::empty()
    } else {
        spec_listing_rows(es.drop_last()) + spec_listing_row(es.last())
    }
}

/// The row shown when the static directory is absent.
pub open spec fn spec_listing_missing_row() -> Seq<char> {
    "<tr><td colspan=\"3\">The static directory is missing</td></tr>"@
}

/// The file listing page around the given rows.
pub open spec fn spec_listing_page(rows: Seq<char>) -> Seq<char> {
    "<!DOCTYPE html>\n<html>\n<head><title>File manager</title></head>\n<body>\n<h1>File manager</h1>\n<p><a href=\"/upload\">Upload a file</a> | <a href=\"/\">Start page</a></p>\n<table><tr><th>Name</th><th>Size (bytes)</th><th>Modified</th></tr>"@
        + rows + "</table>\n</body>\n</html>"@
}

/// Builds the file listing page: one row per entry when the directory was
/// read, and a single notice row when it is absent.
pub fn file_listing_page(entries: Option<&Vec<FileEntry>>) -> (r: String)
    ensures
        match entries {
            Some(es) => r@ == spec_listing_page(spec_listing_rows(es@)),
            None => r@ == spec_listing_page(spec_listing_missing_row()),
        },
{
    let mut rows = String::new();
    match entries {
        Some(es) => {
            let n = es.len();
            proof {
                assert(es@.subrange(0, 0) =~= Seq::<FileEntry>::empty());
            }
            for i in 0..n
                invariant
                    n == es@.len(),
                    rows@ == spec_listing_rows(es@.subrange(0, i as int)),
            {
                let e = &es[i];
                rows.append("<tr><td><a href=\"/static/");
                rows.append(e.name.as_str());
                rows.append("\">");
                rows.append(e.name.as_str());
                rows.append("</a></td><td>");
                let size = u64_to_string(e.size);
                rows.append(size.as_str());
                rows.append("</td><td>");
                rows.append(e.modified.as_str());
                rows.append("</td></tr>");
                proof {
                    let pre = es@.subrange(0, i + 1);
                    assert(pre.drop_last() =~= es@.subrange(0, i as int));
                    assert(pre.last() == es@[i as int]);
                    assert(rows@ == spec_listing_rows(pre));
                }
            }
            proof {
                assert(es@.subrange(0, n as int) =~= es@);
            }
        },
        None => {
            rows.append("<tr><td colspan=\"3\">The static directory is missing</td></tr>");
        },
    }
    let mut page = String::from_str(
        "<!DOCTYPE html>\n<html>\n<head><title>File manager</title></head>\n<body>\n<h1>File manager</h1>\n<p><a href=\"/upload\">Upload a file</a> | <a href=\"/\">Start page</a></p>\n<table><tr><th>Name</th><th>Size (bytes)</th><th>Modified</th></tr>",
    );
    page.append(rows.as_str());
    page.append("</table>\n</body>\n</html>");
    page
}

/// One table row of the admin panel's user table.
pub open spec fn spec_admin_row(id: int, name: Seq<char>) -> Seq<char> {
    "<tr><td>"@ + dec_text_int(id) + "</td><td>"@ + name + "</td></tr>"@
}

/// The admin panel's user rows, in order.
pub open spec fn spec_admin_rows(users: Seq<(i64, String)>) -> Seq<char>
    decreases users.len(),
{
    if users.len() == 0 {
        Seq::empty()
    } else {
        spec_admin_rows(users.drop_last()) + spec_admin_row(
            users.last().0 as int,
            users.last().1@,
        )
    }
}

/// The admin panel page around the given user rows.
pub open spec fn spec_admin_page(rows: Seq<char>) -> Seq<char> {
    "<!DOCTYPE html>\n<html>\n<head><title>Admin panel</title></head>\n<body>\n<h1>Admin panel</h1>\n<table><tr><th>ID</th><th>Username</th></tr>"@
        + rows + "</table>\n<p><a href=\"/\">Start page</a></p>\n</body>\n</html>"@
}

/// Builds the admin panel page listing every stored user's id and name.
pub fn admin_page(users: &Vec<(i64, String)>) -> (r: String)
    ensures
        r@ == spec_admin_page(spec_admin_rows(users@)),
{
    let mut rows = String::new();
    let n = users.len();
    proof {
        assert(users@.subrange(0, 0) =~= Seq::<(i64, String)>::empty());
    }
    for i in 0..n
        invariant
            n == users@.len(),
            rows@ == spec_admin_rows(users@.subrange(0, i as int)),
    {
        let (id, name) = &users[i];
        rows.append("<tr><td>");
        let ids = i64_to_string(*id);
        rows.append(ids.as_str());
        rows.append("</td><td>");
        rows.append(name.as_str());
        rows.append("</td></tr>");
        proof {
            let pre = users@.subrange(0, i + 1);
            assert(pre.drop_last() =~= users@.subrange(0, i as int));
            assert(pre.last() == users@[i as int]);
            assert(rows@ == spec_admin_rows(pre));
        }
    }
    proof {
        assert(users@.subrange(0, n as int) =~= users@);
    }
    let mut page = String::from_str(
        "<!DOCTYPE html>\n<html>\n<head><title>Admin panel</title></head>\n<body>\n<h1>Admin panel</h1>\n<table><tr><th>ID</th><th>Username</th></tr>",
    );
    page.append(rows.as_str());
    page.append("</table>\n<p><a href=\"/\">Start page</a></p>\n</body>\n</html>");
    page
}

/// The confirmation page for a stored upload, naming the file.
pub open spec fn spec_upload_page(filename: Seq<char>) -> Seq<char> {
    "<!DOCTYPE html>\n<html>\n<head><title>Success</title></head>\n<body>\n<h1>File "@ + filename
        + " uploaded</h1>\n<p><a href=\"/files\">See the files</a> | <a href=\"/upload\">Upload more</a> | <a href=\"/\">Start page</a></p>\n</body>\n</html>"@
}

/// Builds the upload confirmation page naming the stored file.
pub fn upload_success_page(filename: &str) -> (r: String)
    ensures
        r@ == spec_upload_page(filename@),
{
    let mut page = String::from_str(
        "<!DOCTYPE html>\n<html>\n<head><title>Success</title></head>\n<body>\n<h1>File ",
    );
    page.append(filename);
    page.append(
        " uploaded</h1>\n<p><a href=\"/files\">See the files</a> | <a href=\"/upload\">Upload more</a> | <a href=\"/\">Start page</a></p>\n</body>\n</html>",
    );
    page
}

/// The confirmation page for saved form content.
pub open spec fn spec_save_page() -> Seq<char> {
    "<!DOCTYPE html>\n<html>\n<head><title>Success</title></head>\n<body>\n<h1>Content saved</h1>\n<p><a href=\"/\">Back to the start page</a></p>\n</body>\n</html>"@
}

/// The fixed confirmation page for saved form content.
pub fn save_success_page() -> (r: &'static str)
    ensures
        r@ == spec_save_page(),
{
    "<!DOCTYPE html>\n<html>\n<head><title>Success</title></head>\n<body>\n<h1>Content saved</h1>\n<p><a href=\"/\">Back to the start page</a></p>\n</body>\n</html>"
}

/// Which template page a registration attempt is answered with.
pub fn register_outcome_page(user_exists: bool, registered: bool) -> (r: &'static str)
    ensures
        r@ == if user_exists {
            "user_exists.html"@
        } else if registered {
            "registered.html"@
        } else {
            "unauthorized.html"@
        },
{
    if user_exists {
        "user_exists.html"
    } else if registered {
        "registered.html"
    } else {
        "unauthorized.html"
    }
}

/// Which template page a login attempt is answered with.
pub fn login_outcome_page(authenticated: bool) -> (r: &'static str)
    ensures
        r@ == if authenticated {
            "welcome.html"@
        } else {
            "unauthorized.html"@
        },
{
    if authenticated {
        "welcome.html"
    } else {
        "unauthorized.html"
    }
}

/// The log line written for a served request.
pub open spec fn spec_log_line(ip: Seq<char>, path: Seq<char>, time: Seq<char>) -> Seq<char> {
    "["@ + ip + "] "@ + path + " requested "@ + path + " at "@ + time
}

/// Builds the log line for a served request.
pub fn log_line(ip: &str, path: &str, time: &str) -> (r: String)
    ensures
        r@ == spec_log_line(ip@, path@, time@),
{
    let mut line = String::from_str("[");
    line.append(ip);
    line.append("] ");
    line.append(path);
    line.append(" requested ");
    line.append(path);
    line.append(" at ");
    line.append(time);
    line
}

/// The log line written for a stored upload.
pub open spec fn spec_upload_log_line(filename: Seq<char>, time: Seq<char>) -> Seq<char> {
    "Uploaded file "@ + filename + " at "@ + time
}

/// Builds the log line for a stored upload.
pub fn upload_log_line(filename: &str, time: &str) -> (r: String)
    ensures
        r@ == spec_upload_log_line(filename@, time@),
{
    let mut line = String::from_str("Uploaded file ");
    line.append(filename);
    line.append(" at ");
    line.append(time);
    line
}

/// One list item of the file manager page.
pub open spec fn spec_manager_item(name: Seq<char>) -> Seq<char> {
    "<li><a href=\"/files/"@ + name + "\">"@ + name + "</a></li>"@
}

/// The newline-joined list items of the file manager page.
pub open spec fn spec_manager_items(names: Seq<String>) -> Seq<char>
    decreases names.len(),
{
    if names.len() == 0 {
        Seq::empty()
    } else if names.len() == 1 {
        spec_manager_item(names[0]@)
    } else {
        spec_manager_items(names.drop_last()) + "\n"@ + spec_manager_item(names.last()@)
    }
}

/// The bytes of the `{{FILES}}` placeholder.
pub open spec fn files_marker() -> Seq<u8> {
    encode_utf8("{{FILES}}"@)
}

/// The file manager page: the template with every `{{FILES}}` placeholder
/// replaced by the item list, decoded best-effort.
pub open spec fn spec_manager_page(template: Seq<char>, names: Seq<String>) -> Seq<char> {
    lossy_chars(
        replace_all(
            encode_utf8(template),
            files_marker(),
            encode_utf8(spec_manager_items(names)),
        ),
    )
}

/// Builds the file manager page from its template: the `{{FILES}}`
/// placeholder becomes one linked list item per stored file.
pub fn file_manager_page(template: &str, names: &Vec<String>) -> (r: String)
    ensures
        r@ == spec_manager_page(template@, names@),
{
    let mut items = String::new();
    let n = names.len();
    proof {
        assert(names@.subrange(0, 0) =~= Seq::<String>::empty());
    }
    for i in 0..n
        invariant
            n == names@.len(),
            items@ == spec_manager_items(names@.subrange(0, i as int)),
    {
        if i > 0 {
            items.append("\n");
        }
        items.append("<li><a href=\"/files/");
        items.append(names[i].as_str());
        items.append("\">");
        items.append(names[i].as_str());
        items.append("</a></li>");
        proof {
            let pre = names@.subrange(0, i + 1);
            assert(pre.drop_last() =~= names@.subrange(0, i as int));
            assert(pre.last() == names@[i as int]);
            if i == 0 {
                assert(pre.len() == 1);
                assert(pre[0] == names@[0]);
            }
            assert(items@ == spec_manager_items(pre));
        }
    }
    proof {
        assert(names@.subrange(0, n as int) =~= names@);
    }
    let marker = "{{FILES}}".as_bytes();
    proof {
        reveal_strlit("{{FILES}}");
        assert("{{FILES}}"@.len() == 9);
        assert(vstd::utf8::is_ascii_chars("{{FILES}}"@));
        vstd::utf8::is_ascii_chars_encode_utf8("{{FILES}}"@);
        assert(marker@.len() == 9);
    }
    let replaced = replace_slice(template.as_bytes(), marker, items.as_str().as_bytes());
    bytes_to_string_lossy(replaced.as_slice())
}

} // verus!
