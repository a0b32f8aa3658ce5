//! Routing of `(method, path)` to a serving strategy, by ordered rules:
//! static prefixes first, then POST actions, then the fixed page table.
use vstd::prelude::*;

verus! {

use crate::form::str_eq;
use vstd::string::StrSliceExecFns;
use vstd::string::StringExecFns;

/// A routing decision at the specification level.
pub enum Route {
    StaticFile(Seq<char>),
    TemplatePage(Seq<char>),
    Action(Seq<char>),
    NotFound,
}

/// The router's classification of a request: serve a file from disk, serve
/// a template page, run a named handler, or report an unknown route.
pub enum RouteDecision {
    StaticFile(String),
    TemplatePage(String),
    Action(String),
    NotFound,
}

impl View for RouteDecision {
    type V = Route;

    open spec fn view(&self) -> Route {
        match self {
            RouteDecision::StaticFile(p) => Route::StaticFile(p@),
            RouteDecision::TemplatePage(p) => Route::TemplatePage(p@),
            RouteDecision::Action(p) => Route::Action(p@),
            RouteDecision::NotFound => Route::NotFound,
        }
    }
}

/// True when `s` begins with `pre`.
pub open spec fn spec_starts_with(s: Seq<char>, pre: Seq<char>) -> bool {
    s.len() >= pre.len() && s.subrange(0, pre.len() as int) == pre
}

/// Where a `(method, path)` pair is routed. First match wins: the static
/// and upload prefixes, then the POST actions, then the fixed table of
/// pages and named handlers, and otherwise nothing.
pub open spec fn spec_route(method: Seq<char>, path: Seq<char>) -> Route {
    if spec_starts_with(path, "/static/"@) {
        Route::StaticFile(path.subrange(1, path.len() as int))
    } else if spec_starts_with(path, "/files/"@) {
        Route::StaticFile("uploads/"@ + path.subrange("/files/"@.len() as int, path.len() as int))
    } else if method == "POST"@ && (path == "/register"@ || path == "/login"@ || path
        == "/upload"@ || path == "/save"@) {
        Route::Action(path.subrange(1, path.len() as int))
    } else if path == "/"@ {
        Route::TemplatePage("index.html"@)
    } else if path == "/about"@ {
        Route::TemplatePage("about.html"@)
    } else if path == "/register"@ {
        Route::TemplatePage("register.html"@)
    } else if path == "/upload"@ {
        Route::TemplatePage("upload.html"@)
    } else if path == "/files"@ || path == "/admin"@ || path == "/admin/files"@ {
        Route::Action(path.subrange(1, path.len() as int))
    } else {
        Route::NotFound
    }
}

/// Checks whether `s` begins with `pre`, character by character.
pub fn str_starts_with(s: &str, pre: &str) -> (r: bool)
    ensures
        r == spec_starts_with(s@, pre@),
{
    let n = s.unicode_len();
    let m = pre.unicode_len();
    if n < m {
        return false;
    }
    let sub = s.substring_char(0, m);
    str_eq(sub, pre)
}

/// Routes a request line's method and path to a serving decision.
pub fn route(method: &str, path: &str) -> (r: RouteDecision)
    ensures
        r@ == spec_route(method@, path@),
{
    let n = path.unicode_len();
    if str_starts_with(path, "/static/") {
        proof {
            reveal_strlit("/static/");
        }
        let rest = path.substring_char(1, n);
        RouteDecision::StaticFile(String::from_str(rest))
    } else if str_starts_with(path, "/files/") {
        proof {
            reveal_strlit("/files/");
        }
        let m = "/files/".unicode_len();
        let rest = path.substring_char(m, n);
        let mut p = String::from_str("uploads/");
        p.append(rest);
        RouteDecision::StaticFile(p)
    } else if str_eq(method, "POST") && (str_eq(path, "/register") || str_eq(path, "/login")
        || str_eq(path, "/upload") || str_eq(path, "/save")) {
        proof {
            reveal_strlit("/register");
            reveal_strlit("/login");
            reveal_strlit("/upload");
            reveal_strlit("/save");
        }
        RouteDecision::Action(String::from_str(path.substring_char(1, n)))
    } else if str_eq(path, "/") {
        RouteDecision::TemplatePage(String::from_str("index.html"))
    } else if str_eq(path, "/about") {
        RouteDecision::TemplatePage(String::from_str("about.html"))
    } else if str_eq(path, "/register") {
        RouteDecision::TemplatePage(String::from_str("register.html"))
    } else if str_eq(path, "/upload") {
        RouteDecision::TemplatePage(String::from_str("upload.html"))
    } else if str_eq(path, "/files") || str_eq(path, "/admin") || str_eq(path, "/admin/files") {
        proof {
            reveal_strlit("/files");
            reveal_strlit("/admin");
            reveal_strlit("/admin/files");
        }
        RouteDecision::Action(String::from_str(path.substring_char(1, n)))
    } else {
        RouteDecision::NotFound
    }
}

} // verus!
