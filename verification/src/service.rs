//! What the conversion service decides: which request asks for what, and how
//! the outcome of the work is answered. The transport itself, the reading of
//! files and the decoding of documents are left to the caller.

use crate::dfa::{Dfa, DfaView};
use crate::nfa::{Nfa, Unsanitary};
use vstd::prelude::*;

verus! {

/// The method of a request.
#[derive(Debug, Clone, Copy, PartialEq, Eq, Structural)]
pub enum Method {
    Get,
    Post,
    Other,
}

/// The status of a reply.
#[derive(Debug, Clone, Copy, PartialEq, Eq, Structural)]
pub enum Status {
    Success,
    BadRequest,
    NotFound,
    InternalServerError,
}

/// The kind of content of a reply.
#[derive(Debug, Clone, Copy, PartialEq, Eq, Structural)]
pub enum ContentType {
    Html,
    Css,
    JavaScript,
    Json,
    Binary,
}

/// What a request asks for.
#[derive(Debug)]
pub enum Action {
    /// The file at the given path below the directory of the pages.
    Serve(String),
    /// The conversion of the automaton in the body of the request.
    Convert,
    /// Nothing that the service offers.
    Refuse,
}

/// What a request asks for, as a mathematical object.
pub enum ActionView {
    Serve(Seq<char>),
    Convert,
    Refuse,
}

impl View for Action {
    type V = ActionView;

    open spec fn view(&self) -> ActionView {
        match self {
            Action::Serve(path) => ActionView::Serve(path@),
            Action::Convert => ActionView::Convert,
            Action::Refuse => ActionView::Refuse,
        }
    }
}

/// The answer to a request for a file.
#[derive(Debug)]
pub struct Reply {
    pub status: Status,
    pub content_type: ContentType,
    pub body: Vec<u8>,
}

/// What a request with the given method and path asks for; `json` tells
/// whether its body is declared to be a JSON document.
///
/// The root is the start page, every other path read with `GET` is a file
/// below the directory of the pages, and a JSON document posted to the
/// submission path asks for a conversion.
pub open spec fn asked(method: Method, path: Seq<char>, json: bool) -> ActionView {
    if method == Method::Get {
        if path == "/"@ {
            ActionView::Serve("index.html"@)
        } else if path.len() > 0 && path[0] == '/' {
            ActionView::Serve(path.skip(1))
        } else {
            ActionView::Refuse
        }
    } else if method == Method::Post && path == "/submit"@ && json {
        ActionView::Convert
    } else {
        ActionView::Refuse
    }
}

/// `suffix` stands at the end of `s`.
pub open spec fn is_suffix(suffix: Seq<char>, s: Seq<char>) -> bool {
    suffix.len() <= s.len() && s.skip(s.len() - suffix.len()) == suffix
}

/// The kind of content of the file at `path`, told by the ending of its
/// name.
pub open spec fn content_of(path: Seq<char>) -> ContentType {
    if is_suffix(".html"@, path) {
        ContentType::Html
    } else if is_suffix(".css"@, path) {
        ContentType::Css
    } else if is_suffix(".js"@, path) {
        ContentType::JavaScript
    } else if is_suffix(".json"@, path) {
        ContentType::Json
    } else {
        ContentType::Binary
    }
}

impl Status {
    /// The number of the status.
    pub fn code(&self) -> (n: u16)
        ensures
            n == match self {
                Status::Success => 200u16,
                Status::BadRequest => 400u16,
                Status::NotFound => 404u16,
                Status::InternalServerError => 500u16,
            },
    {
        match self {
            Status::Success => 200,
            Status::BadRequest => 400,
            Status::NotFound => 404,
            Status::InternalServerError => 500,
        }
    }
}

/// What a request with the given method and path asks for.
pub fn route(method: Method, path: &str, json: bool) -> (action: Action)
    ensures
        action@ == asked(method, path@, json),
{
    let given = String::from_str(path);
    match method {
        Method::Get => {
            if given == String::from_str("/") {
                Action::Serve(String::from_str("index.html"))
            } else {
                let n = path.unicode_len();
                if n > 0 && path.get_char(0) == '/' {
                    let rest = path.substring_char(1, n);
                    assert(rest@ =~= path@.skip(1));
                    Action::Serve(String::from_str(rest))
                } else {
                    Action::Refuse
                }
            }
        },
        Method::Post => {
            if json && given == String::from_str("/submit") {
                Action::Convert
            } else {
                Action::Refuse
            }
        },
        Method::Other => Action::Refuse,
    }
}

/// Whether `suffix` stands at the end of `s`.
pub fn ends_with(s: &str, suffix: &str) -> (r: bool)
    ensures
        r == is_suffix(suffix@, s@),
{
    let n = s.unicode_len();
    let k = suffix.unicode_len();
    if k > n {
        return false;
    }
    let tail = s.substring_char(n - k, n);
    assert(tail@ =~= s@.skip(n - k));
    String::from_str(tail) == String::from_str(suffix)
}

/// The kind of content of the file at `path`.
pub fn content_type(path: &str) -> (kind: ContentType)
    ensures
        kind == content_of(path@),
{
    if ends_with(path, ".html") {
        ContentType::Html
    } else if ends_with(path, ".css") {
        ContentType::Css
    } else if ends_with(path, ".js") {
        ContentType::JavaScript
    } else if ends_with(path, ".json") {
        ContentType::Json
    } else {
        ContentType::Binary
    }
}

/// The answer to a request for the file at `path`, given what was read
/// there: the file with its kind of content, or that there is none.
pub fn serve(path: &str, contents: Option<Vec<u8>>) -> (reply: Reply)
    ensures
        match contents {
            Some(body) => reply.status == Status::Success && reply.content_type == content_of(path@)
                && reply.body@ == body@,
            None => reply.status == Status::NotFound && reply.content_type == ContentType::Binary
                && reply.body@.len() == 0,
        },
{
    match contents {
        Some(body) => Reply { status: Status::Success, content_type: content_type(path), body },
        None => Reply {
            status: Status::NotFound,
            content_type: ContentType::Binary,
            body: Vec::new(),
        },
    }
}

/// The answer to a request for a conversion, given the automaton that the
/// body of the request was decoded to, if it could be decoded.
///
/// A body that is no description of an automaton, and an automaton that is
/// not well formed, are the client's errors. A well-formed automaton is
/// answered by the minimal deterministic automaton that accepts the same
/// words.
pub fn convert(document: Option<Nfa<Unsanitary>>) -> (answer: Result<Dfa, Status>)
    ensures
        match document {
            Some(nfa) => if nfa@.well_formed() {
                &&& answer matches Ok(dfa)
                &&& dfa@.reduced()
                &&& forall|w: Seq<Seq<char>>| dfa@.accepts(w) == nfa@.accepts(w)
                &&& exists|whole: DfaView, sets: Seq<Set<Seq<char>>>, class_of: Seq<usize>|
                    {
                        &&& whole.well_formed()
                        &&& #[trigger] whole.determinises(nfa@, sets)
                        &&& #[trigger] dfa@.merges(whole, class_of)
                    }
            } else {
                answer == Err::<Dfa, Status>(Status::BadRequest)
            },
            None => answer == Err::<Dfa, Status>(Status::BadRequest),
        },
{
    match document {
        Some(nfa) => match nfa.check() {
            Ok(valid) => {
                let whole = valid.make_deterministic();
                let ghost sets = choose|sets: Seq<Set<Seq<char>>>| #[trigger]
                    whole@.determinises(nfa@, sets);
                let merged = whole.minimise();
                proof {
                    let class_of = choose|class_of: Seq<usize>| #[trigger]
                        merged@.merges(whole@, class_of);
                    assert(whole@.determinises(nfa@, sets) && merged@.merges(whole@, class_of));
                }
                Ok(merged)
            },
            Err(_) => Err(Status::BadRequest),
        },
        None => Err(Status::BadRequest),
    }
}

} // verus!
