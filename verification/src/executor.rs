//! Turning a routed action such as `"gpio.get_w1(string)"` and the request
//! arguments into the plugin library, the method and its typed arguments.
use vstd::prelude::*;
use crate::config::{ConfigMap, has_equals, load_lines};
use crate::params::Params;
use crate::text::{chars_of, concat, find_char, find_or_len, has_char, owned, split_on, split_pieces, trim, trimmed};

verus! {

broadcast use vstd::string::group_string_axioms;

/// Library and method of an action `lib.method`: the text before and after the first `'.'`.
pub open spec fn action_parts(a: Seq<char>) -> (Seq<char>, Seq<char>) {
    let off = find_or_len(a, seq!['.']);
    (a.take(off), a.skip(off + 1))
}

/// Name and argument description of a method `name(desc)`: the text before
/// the first `'('`, and the trimmed text between it and the next `')'` (or the end).
pub open spec fn method_parts(m: Seq<char>) -> (Seq<char>, Seq<char>) {
    let off = find_or_len(m, seq!['(']);
    let rest = m.skip(off + 1);
    (m.take(off), trimmed(rest.take(find_or_len(rest, seq![')']))))
}

/// Why the arguments of a call could not be built.
#[derive(PartialEq, Eq, Structural, Debug, Clone, Copy)]
pub enum ArgsError {
    /// The description and the request name different numbers of arguments.
    SizeMismatch,
}

/// The message that reports a size mismatch.
pub open spec fn size_mismatch_message() -> Seq<char> {
    seq![
        'D', 'e', 's', 'c', 'r', 'i', 'p', 't', 'i', 'o', 'n', ' ', 'a', 'r', 'g', 'u', 'm', 'e', 'n', 't', 's', ' ',
        'a', 'n', 'd', ' ', 'a', 'r', 'g', 'u', 'm', 'e', 'n', 't', 's', ' ', 'h', 'a', 'v', 'e', ' ', 'd', 'i', 'f',
        'f', 'e', 'r', 'e', 'n', 't', ' ', 's', 'i', 'z', 'e', '!',
    ]
}

impl ArgsError {
    /// The message that reports the error.
    pub fn description(&self) -> (r: &'static str)
        ensures
            r@ == size_mismatch_message(),
    {
        match self {
            ArgsError::SizeMismatch => {
                let r = "Description arguments and arguments have different size!";
                proof {
                    reveal_strlit("Description arguments and arguments have different size!");
                }
                assert(r@ =~= size_mismatch_message());
                r
            },
        }
    }
}

/// The arguments built from the comma-separated descriptions and values:
/// `Some` when both have the same number of pieces, each argument pairing the
/// description and the value at its position.
pub open spec fn args_match(desc: Seq<char>, args: Seq<char>, r: Seq<(Seq<char>, Seq<char>)>) -> bool {
    let d = split_on(desc, ',');
    let a = split_on(args, ',');
    &&& r.len() == d.len()
    &&& d.len() == a.len()
    &&& forall|i: int| 0 <= i < r.len() ==> #[trigger] r[i] == (d[i], a[i])
}

/// The (description, argument) pairs of a list of arguments.
pub open spec fn params_view(v: Seq<Params>) -> Seq<(Seq<char>, Seq<char>)> {
    v.map_values(|p: Params| (p.desc@, p.arg@))
}

/// The plugin executor's view of its configuration: the function descriptions.
pub struct Executor {
    pub func_desc_map: ConfigMap,
}

impl Executor {
    /// An executor with the function descriptions loaded from configuration lines.
    pub fn new(lines: &Vec<String>) -> (r: Executor)
        requires
            forall|i: int| 0 <= i < lines.len() ==> has_equals(#[trigger] lines@[i]@),
        ensures
            r.func_desc_map.wf(),
            r.func_desc_map.view() == load_lines(Map::empty(), lines@.map_values(|l: String| l@)),
    {
        let mut func_desc_map = ConfigMap::new();
        func_desc_map.load(lines);
        Executor { func_desc_map }
    }

    /// Splits `lib.method` at its first `'.'`; the action must hold one.
    pub fn split_action<'a>(action: &'a str) -> (r: (&'a str, &'a str))
        requires
            has_char(action@, '.'),
        ensures
            (r.0@, r.1@) == action_parts(action@),
    {
        let v = chars_of(action);
        let off = find_char(&v, '.');
        let first = action.substring_char(0, off);
        let last = action.substring_char(off + 1, v.len());
        assert(last@ =~= action@.skip(off + 1));
        (first, last)
    }

    /// Splits `name(desc)` into the name and the trimmed description; the
    /// method must hold a `'('`.
    pub fn split_method<'a>(method: &'a str) -> (r: (&'a str, &'a str))
        requires
            has_char(method@, '('),
        ensures
            (r.0@, r.1@) == method_parts(method@),
    {
        let v = chars_of(method);
        let off = find_char(&v, '(');
        let first = method.substring_char(0, off);
        let last = method.substring_char(off + 1, v.len());
        assert(last@ =~= method@.skip(off + 1));
        let lv = chars_of(last);
        let off1 = find_char(&lv, ')');
        let first1 = last.substring_char(0, off1);
        (first, trim(first1))
    }

    /// Pairs the comma-separated descriptions with the comma-separated
    /// arguments; refused when their numbers differ.
    pub fn create_args(args_desc: &str, args: &str) -> (r: Result<Vec<Params>, ArgsError>)
        ensures
            match r {
                Ok(v) => args_match(args_desc@, args@, params_view(v@)),
                Err(e) => e == ArgsError::SizeMismatch && split_on(args_desc@, ',').len() != split_on(
                    args@,
                    ',',
                ).len(),
            },
    {
        let desc_vec = split_pieces(args_desc, ',');
        let args_vec = split_pieces(args, ',');
        let ghost d = split_on(args_desc@, ',');
        let ghost a = split_on(args@, ',');
        assert(desc_vec@.len() == d.len());
        assert(args_vec@.len() == a.len());
        if desc_vec.len() != args_vec.len() {
            return Err(ArgsError::SizeMismatch);
        }
        let mut res_args: Vec<Params> = Vec::new();
        let mut i: usize = 0;
        while i < desc_vec.len()
            invariant
                i <= desc_vec.len(),
                desc_vec.len() == args_vec.len(),
                desc_vec@.map_values(|p: &str| p@) == d,
                args_vec@.map_values(|p: &str| p@) == a,
                res_args@.len() == i,
                forall|j: int| 0 <= j < i ==> #[trigger] params_view(res_args@)[j] == (d[j], a[j]),
            decreases desc_vec.len() - i,
        {
            assert(desc_vec@[i as int]@ == d[i as int]);
            assert(args_vec@[i as int]@ == a[i as int]);
            let ghost before = res_args@;
            res_args.push(Params { desc: owned(desc_vec[i]), arg: owned(args_vec[i]) });
            proof {
                assert forall|j: int| 0 <= j < i + 1 implies #[trigger] params_view(res_args@)[j] == (d[j], a[j]) by {
                    if j < i {
                        assert(res_args@[j] == before[j]);
                        assert(params_view(before)[j] == (d[j], a[j]));
                    }
                }
            }
            i += 1;
        }
        Ok(res_args)
    }

    /// Library, method and arguments of a call of `action` with `args`; the
    /// arguments are `None` when they do not match the description.
    pub fn get_params<'a>(&self, action: &'a str, args: &str) -> (r: (&'a str, &'a str, Option<Vec<Params>>))
        requires
            has_char(action@, '.'),
            has_char(action_parts(action@).1, '('),
        ensures
            r.0@ == action_parts(action@).0,
            r.1@ == method_parts(action_parts(action@).1).0,
            ({
                let desc = method_parts(action_parts(action@).1).1;
                match r.2 {
                    Some(v) => args_match(desc, args@, params_view(v@)),
                    None => split_on(desc, ',').len() != split_on(args@, ',').len(),
                }
            }),
    {
        let (lib, method) = Executor::split_action(action);
        let (real_method, args_desc) = Executor::split_method(method);
        match Executor::create_args(args_desc, args) {
            Ok(v) => (lib, real_method, Some(v)),
            Err(_) => (lib, real_method, None),
        }
    }

    /// The file of a plugin library: `"lib" + name + ".so"`.
    pub fn library_file_name(lib_name: &str) -> (r: String)
        ensures
            r@ == seq!['l', 'i', 'b'] + lib_name@ + seq!['.', 's', 'o'],
    {
        let prefix = "lib";
        let suffix = ".so";
        proof {
            reveal_strlit("lib");
            reveal_strlit(".so");
        }
        let with_prefix = concat(prefix, lib_name);
        let r = concat(with_prefix.as_str(), suffix);
        assert(prefix@ =~= seq!['l', 'i', 'b']);
        assert(suffix@ =~= seq!['.', 's', 'o']);
        r
    }
}

} // verus!
