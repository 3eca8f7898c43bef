//! A worker's handling of one request line: which plugin action it routes
//! to, and the response that goes back.
use vstd::prelude::*;
use vstd::utf8::{encode_utf8, is_char_boundary};
use crate::config::Router;
use crate::parser::{Parser, request_target, request_target_defined};
use crate::text::{chars_of, concat, lowercase_of, to_lowercase};

verus! {

broadcast use vstd::string::group_string_axioms;

/// The status line of a successful answer.
pub fn ok_200_status_line() -> (r: &'static str)
    ensures
        r@ == seq!['H', 'T', 'T', 'P', '/', '1', '.', '1', ' ', '2', '0', '0', ' ', 'O', 'K', '\r', '\n', '\r', '\n'],
{
    let r = "HTTP/1.1 200 OK\r\n\r\n";
    proof {
        reveal_strlit("HTTP/1.1 200 OK\r\n\r\n");
    }
    assert(r@ =~= seq!['H', 'T', 'T', 'P', '/', '1', '.', '1', ' ', '2', '0', '0', ' ', 'O', 'K', '\r', '\n', '\r', '\n']);
    r
}

/// The status line of an answer to a request that names nothing known.
pub fn error_404_status_line() -> (r: &'static str)
    ensures
        r@ == seq![
            'H', 'T', 'T', 'P', '/', '1', '.', '1', ' ', '4', '0', '4', ' ', 'N', 'O', 'T', ' ', 'F', 'O', 'U', 'N', 'D',
            '\r', '\n', '\r', '\n',
        ],
{
    let r = "HTTP/1.1 404 NOT FOUND\r\n\r\n";
    proof {
        reveal_strlit("HTTP/1.1 404 NOT FOUND\r\n\r\n");
    }
    assert(r@ =~= seq![
        'H', 'T', 'T', 'P', '/', '1', '.', '1', ' ', '4', '0', '4', ' ', 'N', 'O', 'T', ' ', 'F', 'O', 'U', 'N', 'D',
        '\r', '\n', '\r', '\n',
    ]);
    r
}

/// Whether a request line starts with `"GET "` or `"POST"`.
pub open spec fn is_get_or_post(m: Seq<char>) -> bool {
    m.len() >= 4 && (m.take(4) == seq!['G', 'E', 'T', ' '] || m.take(4) == seq!['P', 'O', 'S', 'T'])
}

/// The action and arguments a `GET`/`POST` target routes to under `rules`:
/// the lower-cased function name must be routed; the arguments are lower-cased.
pub open spec fn route_of(rules: Map<Seq<char>, Seq<char>>, target: (Seq<char>, Seq<char>)) -> Option<(Seq<char>, Seq<char>)> {
    let func = lowercase_of(target.0);
    if rules.contains_key(func) {
        Some((rules[func], lowercase_of(target.1)))
    } else {
        None
    }
}

/// Whether a worker can take the request line apart: slicing its first four
/// bytes, and, for `GET`/`POST`, reading its target (see `request_target_defined`).
pub open spec fn message_defined(m: Seq<char>) -> bool {
    &&& is_char_boundary(encode_utf8(m), 4)
    &&& is_get_or_post(m) ==> request_target_defined(m.skip(3))
}

/// What a request line asks for: running a plugin action with arguments, or
/// the not-found page.
pub enum Route {
    Run { action: String, args: String },
    NotFound,
}

impl Route {
    /// The (action, arguments) of a `Run`, `None` for `NotFound`.
    pub open spec fn run_view(&self) -> Option<(Seq<char>, Seq<char>)> {
        match self {
            Route::Run { action, args } => Some((action@, args@)),
            Route::NotFound => None,
        }
    }
}

/// A worker: the page it answers unknown requests with, and its route rules.
pub struct Worker {
    pub file_name_404: String,
    pub route_rules: Router,
}

impl Parser for Worker {}

impl Worker {
    /// A worker with the given not-found page and route rules.
    pub fn new(file_name_404: String, route_rules: Router) -> (r: Worker)
        ensures
            r.file_name_404 == file_name_404,
            r.route_rules == route_rules,
    {
        Worker { file_name_404, route_rules }
    }

    /// Routes a request line: `GET ` and `POST` requests are looked up by
    /// their target, everything else gets the not-found page.
    pub fn process_message(&self, message: &str) -> (r: Route)
        requires
            self.route_rules.route_rules.wf(),
            message_defined(message@),
        ensures
            r.run_view() == (if is_get_or_post(message@) {
                route_of(self.route_rules.route_rules.view(), request_target(message@.skip(3)))
            } else {
                None
            }),
    {
        let v = chars_of(message);
        let get = v.len() >= 4 && v[0] == 'G' && v[1] == 'E' && v[2] == 'T' && v[3] == ' ';
        let post = v.len() >= 4 && v[0] == 'P' && v[1] == 'O' && v[2] == 'S' && v[3] == 'T';
        assert(get <==> (v@.len() >= 4 && v@.take(4) == seq!['G', 'E', 'T', ' '])) by {
            if v@.len() >= 4 && v@.take(4) == seq!['G', 'E', 'T', ' '] {
                assert(v@.take(4)[0] == 'G' && v@.take(4)[1] == 'E' && v@.take(4)[2] == 'T' && v@.take(4)[3] == ' ');
            }
            if get {
                assert(v@.take(4) =~= seq!['G', 'E', 'T', ' ']);
            }
        }
        assert(post <==> (v@.len() >= 4 && v@.take(4) == seq!['P', 'O', 'S', 'T'])) by {
            if v@.len() >= 4 && v@.take(4) == seq!['P', 'O', 'S', 'T'] {
                assert(v@.take(4)[0] == 'P' && v@.take(4)[1] == 'O' && v@.take(4)[2] == 'S' && v@.take(4)[3] == 'T');
            }
            if post {
                assert(v@.take(4) =~= seq!['P', 'O', 'S', 'T']);
            }
        }
        if get || post {
            let rest = message.substring_char(3, v.len());
            assert(rest@ =~= message@.skip(3));
            self.process_get(rest)
        } else {
            Route::NotFound
        }
    }

    /// Routes the target of a `GET`/`POST` request.
    pub fn process_get(&self, message: &str) -> (r: Route)
        requires
            self.route_rules.route_rules.wf(),
            request_target_defined(message@),
        ensures
            r.run_view() == route_of(self.route_rules.route_rules.view(), request_target(message@)),
    {
        let real_message = self.real_message_by_get(message);
        let func = to_lowercase(real_message.0);
        let args = to_lowercase(real_message.1);
        match self.route_rules.get_option(func.as_str()) {
            Some(action) => Route::Run { action: action.clone(), args },
            None => Route::NotFound,
        }
    }

    /// The bytes sent back: the status line, then the answer.
    pub fn make_response(status_line: &str, result: &str) -> (r: String)
        ensures
            r@ == status_line@ + result@,
    {
        concat(status_line, result)
    }
}

} // verus!
