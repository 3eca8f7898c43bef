//! Extraction of the requested function and its arguments from the request line.
use vstd::prelude::*;
use vstd::utf8::{encode_utf8, is_char_boundary};
use crate::text::{
    chars_of, contains_seq, find_in, find_or_len, is_white_space, lemma_find_char_at, lemma_first_occurrence_is_found,
    lemma_trim_end_space, lemma_trim_start_space, lemma_trimmed_bare, occurs_at, trim, trimmed,
};

verus! {

broadcast use {vstd::string::group_string_axioms, vstd::utf8::encode_utf8_valid_utf8};

/// The marker that ends the request target: `"HTTP"`.
pub open spec fn http_chars() -> Seq<char> {
    seq!['H', 'T', 'T', 'P']
}

/// Length of `s` in UTF-8 bytes.
pub open spec fn byte_len(s: Seq<char>) -> nat {
    encode_utf8(s).len()
}

/// The text before the first `"HTTP"` of a request line.
pub open spec fn target_part(m: Seq<char>) -> Seq<char> {
    m.take(find_or_len(m, http_chars()))
}

/// Whether the request line can be taken apart: the target part is at most one
/// byte long, or once trimmed it starts with a one-byte character (its first
/// character is dropped by byte slicing).
pub open spec fn request_target_defined(m: Seq<char>) -> bool {
    byte_len(target_part(m)) <= 1 || is_char_boundary(encode_utf8(trimmed(target_part(m))), 1)
}

/// The (function, arguments) that a request line names: the target part is
/// trimmed, loses its first character (the `'/'`), is trimmed again, and is
/// split at its first `'/'`, which is dropped. A target of at most one byte
/// names nothing.
pub open spec fn request_target(m: Seq<char>) -> (Seq<char>, Seq<char>) {
    let first = target_part(m);
    if byte_len(first) <= 1 {
        (Seq::<char>::empty(), Seq::<char>::empty())
    } else {
        let t = trimmed(trimmed(first).drop_first());
        let off = find_or_len(t, seq!['/']);
        let args = t.skip(off);
        (t.take(off), if args.len() > 0 { args.drop_first() } else { args })
    }
}

proof fn lemma_encoding_nonempty(s: Seq<char>)
    requires
        s.len() > 0,
    ensures
        encode_utf8(s).len() >= 1 + encode_utf8(s.drop_first()).len(),
        encode_utf8(s).len() == 1 + encode_utf8(s.drop_first()).len() <==> (s[0] as u32) <= 0x7F,
{
}

/// At most one byte: empty, or a single one-byte character.
proof fn lemma_byte_len_at_most_one(s: Seq<char>)
    ensures
        byte_len(s) <= 1 <==> (s.len() == 0 || (s.len() == 1 && (s[0] as u32) <= 0x7F)),
{
    if s.len() == 0 {
        assert(encode_utf8(s) =~= Seq::<u8>::empty());
    } else {
        lemma_encoding_nonempty(s);
        if s.len() >= 2 {
            lemma_encoding_nonempty(s.drop_first());
        } else {
            assert(s.drop_first() =~= Seq::<char>::empty());
            assert(encode_utf8(s.drop_first()) =~= Seq::<u8>::empty());
        }
    }
}

proof fn lemma_boundary_one_nonempty(s: Seq<char>)
    requires
        is_char_boundary(encode_utf8(s), 1),
    ensures
        s.len() >= 1,
{
    if s.len() == 0 {
        assert(encode_utf8(s) =~= Seq::<u8>::empty());
    }
}

/// The request line of a GET for function `f` with arguments `a`:
/// `" /" + f + "/" + a + " HTTP/1.1"`.
pub open spec fn get_line(f: Seq<char>, a: Seq<char>) -> Seq<char> {
    seq![' ', '/'] + f + seq!['/'] + a + seq![' ', 'H', 'T', 'T', 'P', '/', '1', '.', '1']
}

/// The part of `get_line(f, a)` before `"HTTP"`.
spec fn get_target(f: Seq<char>, a: Seq<char>) -> Seq<char> {
    seq![' ', '/'] + f + seq!['/'] + a + seq![' ']
}

proof fn lemma_http_chars()
    ensures
        http_chars().len() == 4,
        http_chars()[0] == 'H' && http_chars()[1] == 'T' && http_chars()[2] == 'T' && http_chars()[3] == 'P',
{
}

/// A target made of `f` and `a` holds `"HTTP"` only where `f` or `a` does.
proof fn lemma_no_http_in_target(f: Seq<char>, a: Seq<char>)
    requires
        !contains_seq(f, http_chars()),
        !contains_seq(a, http_chars()),
    ensures
        forall|j: int| !occurs_at(get_target(f, a), http_chars(), j),
{
    let p = get_target(f, a);
    let nf = f.len() as int;
    let na = a.len() as int;
    lemma_http_chars();
    assert forall|j: int| !occurs_at(p, http_chars(), j) by {
        if occurs_at(p, http_chars(), j) {
            let w = p.subrange(j, j + 4);
            assert(w == http_chars());
            if j < 2 {
                assert(w[0] == p[j]);
            } else if j + 4 <= 2 + nf {
                assert(f.subrange(j - 2, j + 2) =~= w);
                assert(occurs_at(f, http_chars(), j - 2));
            } else if j <= 2 + nf {
                assert(p[2 + nf] == '/');
                assert(w[2 + nf - j] == p[2 + nf]);
            } else if j + 4 <= 3 + nf + na {
                assert(a.subrange(j - 3 - nf, j + 1 - nf) =~= w);
                assert(occurs_at(a, http_chars(), j - 3 - nf));
            } else {
                assert(p[3 + nf + na] == ' ');
                assert(w[3 + nf + na - j] == p[3 + nf + na]);
            }
        }
    }
}

/// The target of `get_line(f, a)` is the text before its `"HTTP"`.
proof fn lemma_get_line_target(f: Seq<char>, a: Seq<char>)
    requires
        !contains_seq(f, http_chars()),
        !contains_seq(a, http_chars()),
    ensures
        target_part(get_line(f, a)) == get_target(f, a),
{
    let m = get_line(f, a);
    let p = get_target(f, a);
    let k = p.len() as int;
    lemma_http_chars();
    lemma_no_http_in_target(f, a);
    assert(m =~= p + seq!['H', 'T', 'T', 'P', '/', '1', '.', '1']);
    assert(m.subrange(k, k + 4) =~= http_chars());
    assert forall|j: int| 0 <= j < k implies !occurs_at(m, http_chars(), j) by {
        if occurs_at(m, http_chars(), j) {
            if j + 4 <= k {
                assert(p.subrange(j, j + 4) =~= m.subrange(j, j + 4));
                assert(occurs_at(p, http_chars(), j));
            } else {
                assert(m[k - 1] == ' ');
                assert(m.subrange(j, j + 4)[k - 1 - j] == m[k - 1]);
            }
        }
    }
    lemma_first_occurrence_is_found(m, http_chars(), k);
    assert(m.take(k) =~= p);
}

/// A GET request line is read back into its function and arguments: for a
/// function name `f` without `'/'` or white space and arguments `a` without
/// white space (neither holding `"HTTP"`), the line
/// `" /" + f + "/" + a + " HTTP/1.1"` can be taken apart and names exactly
/// `(f, a)`; the arguments are the whole text after the first `'/'`,
/// `'-'`, `'/'` and any other character included.
pub proof fn law_get_line_parts(f: Seq<char>, a: Seq<char>)
    requires
        forall|i: int| 0 <= i < f.len() ==> f[i] != '/' && !is_white_space(#[trigger] f[i]),
        forall|i: int| 0 <= i < a.len() ==> !is_white_space(#[trigger] a[i]),
        !contains_seq(f, http_chars()),
        !contains_seq(a, http_chars()),
    ensures
        request_target_defined(get_line(f, a)),
        request_target(get_line(f, a)) == (f, a),
{
    let p = get_target(f, a);
    lemma_get_line_target(f, a);
    let t = f + seq!['/'] + a;
    let r = seq!['/'] + t;
    // the target is more than one byte long
    lemma_byte_len_at_most_one(p);
    // trimming the target leaves "/" + f + "/" + a
    assert(p =~= seq![' '] + (r + seq![' ']));
    lemma_trim_start_space(r + seq![' ']);
    assert((r + seq![' '])[0] == '/');
    lemma_trim_end_space(r);
    assert(r.last() == t.last());
    assert(t.last() == (if a.len() > 0 { a.last() } else { '/' }));
    lemma_trimmed_bare(r);
    assert(trimmed(p) == r);
    // dropping the '/' and trimming again leaves f + "/" + a
    assert(r.drop_first() =~= t);
    assert(t[0] == (if f.len() > 0 { f[0] } else { '/' }));
    lemma_trimmed_bare(t);
    // the first '/' of that is the one after f
    assert(t[f.len() as int] == '/');
    assert forall|j: int| 0 <= j < f.len() implies t[j] != '/' by {
        assert(t[j] == f[j]);
    }
    lemma_find_char_at(t, '/', f.len() as int);
    assert(t.take(f.len() as int) =~= f);
    assert(t.skip(f.len() as int) =~= seq!['/'] + a);
    assert((seq!['/'] + a).drop_first() =~= a);
    // the trimmed target starts with the one-byte '/'
    vstd::utf8::encode_utf8_first_scalar(r);
    let bytes = encode_utf8(r);
    assert(r[0] == '/');
    assert(vstd::utf8::has_width_1_encoding(r[0] as u32));
    assert(vstd::utf8::length_of_first_scalar(bytes) == 1);
    assert(bytes.len() >= 1);
    assert(vstd::utf8::valid_utf8(bytes));
    assert(vstd::utf8::is_char_boundary(bytes, 1)) by {
        reveal_with_fuel(vstd::utf8::is_char_boundary, 2);
    }
}

/// Reads the function and arguments out of a request line such as
/// `" /hello/world HTTP/1.1"`.
pub trait Parser {
    fn real_message_by_get<'a>(&self, message: &'a str) -> (r: (&'a str, &'a str))
        requires
            request_target_defined(message@),
        ensures
            (r.0@, r.1@) == request_target(message@),
    {
        let m = chars_of(message);
        let http = vec!['H', 'T', 'T', 'P'];
        assert(http@ =~= http_chars());
        let offset = find_in(&m, &http);
        let first = message.substring_char(0, offset);
        assert(first@ == target_part(message@));
        let nf = first.unicode_len();
        let small = nf == 0 || (nf == 1 && (first.get_char(0) as u32) <= 0x7F);
        proof {
            lemma_byte_len_at_most_one(first@);
        }
        if small {
            let none = message.substring_char(0, 0);
            assert(none@ =~= Seq::<char>::empty());
            return (none, none);
        }
        let t1 = trim(first);
        proof {
            lemma_boundary_one_nonempty(t1@);
        }
        let n1 = t1.unicode_len();
        let t2 = t1.substring_char(1, n1);
        assert(t2@ =~= trimmed(first@).drop_first());
        let t = trim(t2);
        let tv = chars_of(t);
        let slash = vec!['/'];
        assert(slash@ =~= seq!['/']);
        let off = find_in(&tv, &slash);
        let func = t.substring_char(0, off);
        let args = t.substring_char(off, tv.len());
        assert(args@ =~= t@.skip(off as int));
        let n = args.unicode_len();
        if n > 0 {
            let rest = args.substring_char(1, n);
            assert(rest@ =~= args@.drop_first());
            (func, rest)
        } else {
            (func, args)
        }
    }
}

} // verus!
