//! Character-level helpers on string slices, specified over `Seq<char>`.
use vstd::prelude::*;

verus! {

broadcast use vstd::string::group_string_axioms;

/// Unicode `White_Space` code points: the characters that `str::trim` removes.
pub open spec fn is_white_space(c: char) -> bool {
    let u = c as u32;
    ||| 0x09 <= u <= 0x0D
    ||| u == 0x20
    ||| u == 0x85
    ||| u == 0xA0
    ||| u == 0x1680
    ||| 0x2000 <= u <= 0x200A
    ||| u == 0x2028
    ||| u == 0x2029
    ||| u == 0x202F
    ||| u == 0x205F
    ||| u == 0x3000
}

/// `s` without its leading white space.
pub open spec fn trim_start(s: Seq<char>) -> Seq<char>
    decreases s.len(),
{
    if s.len() > 0 && is_white_space(s[0]) {
        trim_start(s.drop_first())
    } else {
        s
    }
}

/// `s` without its trailing white space.
pub open spec fn trim_end(s: Seq<char>) -> Seq<char>
    decreases s.len(),
{
    if s.len() > 0 && is_white_space(s.last()) {
        trim_end(s.drop_last())
    } else {
        s
    }
}

/// `s` without leading and trailing white space.
pub open spec fn trimmed(s: Seq<char>) -> Seq<char> {
    trim_end(trim_start(s))
}

/// A name for what `str::to_lowercase` returns: the Unicode lower-case
/// mapping of the string (which for a capital sigma depends on its
/// neighbours, so it is not a per-character map).
pub uninterp spec fn lowercase_of(s: Seq<char>) -> Seq<char>;

/// `p` occurs in `s` starting at character index `i`.
pub open spec fn occurs_at(s: Seq<char>, p: Seq<char>, i: int) -> bool {
    0 <= i && i + p.len() <= s.len() && s.subrange(i, i + p.len()) == p
}

/// `i` is the index of the first occurrence of `p` in `s`.
pub open spec fn is_first_occurrence(s: Seq<char>, p: Seq<char>, i: int) -> bool {
    occurs_at(s, p, i) && forall|j: int| 0 <= j < i ==> !occurs_at(s, p, j)
}

/// Index of the first occurrence of `p` in `s`, or the length of `s` when
/// there is none (the `find(..).unwrap_or(len)` idiom, in characters).
pub open spec fn find_or_len(s: Seq<char>, p: Seq<char>) -> int {
    if exists|i: int| is_first_occurrence(s, p, i) {
        choose|i: int| is_first_occurrence(s, p, i)
    } else {
        s.len() as int
    }
}

/// `p` occurs somewhere in `s`.
pub open spec fn contains_seq(s: Seq<char>, p: Seq<char>) -> bool {
    exists|i: int| occurs_at(s, p, i)
}

/// The first occurrence is unique, so `find_or_len` names it.
pub proof fn lemma_first_occurrence_is_found(s: Seq<char>, p: Seq<char>, i: int)
    requires
        is_first_occurrence(s, p, i),
    ensures
        find_or_len(s, p) == i,
{
    let j = choose|j: int| is_first_occurrence(s, p, j);
    assert(is_first_occurrence(s, p, j));
    if j < i {
        assert(!occurs_at(s, p, j));
    } else if i < j {
        assert(!occurs_at(s, p, i));
    }
}

/// Without any occurrence, `find_or_len` is the length.
pub proof fn lemma_absent_is_len(s: Seq<char>, p: Seq<char>)
    requires
        forall|i: int| !occurs_at(s, p, i),
    ensures
        find_or_len(s, p) == s.len(),
        !contains_seq(s, p),
{
    assert(!(exists|i: int| is_first_occurrence(s, p, i)));
}

/// Pieces of `s` between the separators `c` (as `str::split` with a `char`
/// pattern yields them); defined on prefixes, one character at a time.
pub open spec fn split_on(s: Seq<char>, c: char) -> Seq<Seq<char>>
    decreases s.len(),
{
    if s.len() == 0 {
        seq![Seq::<char>::empty()]
    } else {
        let before = split_on(s.drop_last(), c);
        if s.last() == c {
            before.push(Seq::<char>::empty())
        } else {
            before.update(before.len() - 1, before.last().push(s.last()))
        }
    }
}

/// The lines of `s` as `str::lines` yields them: split after each `'\n'`,
/// drop that `'\n'` and then one `'\r'` before it; no empty last line after a
/// final `'\n'`. Defined on prefixes: `(finished lines, unfinished last line)`.
pub open spec fn lines_state(s: Seq<char>) -> (Seq<Seq<char>>, Seq<char>)
    decreases s.len(),
{
    if s.len() == 0 {
        (Seq::<Seq<char>>::empty(), Seq::<char>::empty())
    } else {
        let (done, cur) = lines_state(s.drop_last());
        if s.last() == '\n' {
            let line = if cur.len() > 0 && cur.last() == '\r' {
                cur.drop_last()
            } else {
                cur
            };
            (done.push(line), Seq::<char>::empty())
        } else {
            (done, cur.push(s.last()))
        }
    }
}

/// The lines of `s` (see `lines_state`).
pub open spec fn lines_of(s: Seq<char>) -> Seq<Seq<char>> {
    let (done, cur) = lines_state(s);
    if cur.len() > 0 {
        done.push(cur)
    } else {
        done
    }
}

/// Collects the characters of `s` into a vector.
pub fn chars_of(s: &str) -> (v: Vec<char>)
    ensures
        v@ == s@,
{
    let mut v: Vec<char> = Vec::new();
    for c in it: s.chars()
        invariant
            v@ == it.seq().take(it.index() as int),
    {
        v.push(c);
    }
    assert(v@ =~= s@);
    v
}

/// Whether `c` is a Unicode `White_Space` character (as `char::is_whitespace`).
pub fn is_white_space_char(c: char) -> (r: bool)
    ensures
        r == is_white_space(c),
{
    let u = c as u32;
    (0x09 <= u && u <= 0x0D) || u == 0x20 || u == 0x85 || u == 0xA0 || u == 0x1680 || (0x2000 <= u && u
        <= 0x200A) || u == 0x2028 || u == 0x2029 || u == 0x202F || u == 0x205F || u == 0x3000
}

/// A text that neither starts nor ends with white space is its own trim.
pub proof fn lemma_trimmed_bare(s: Seq<char>)
    requires
        s.len() > 0 ==> !is_white_space(s[0]) && !is_white_space(s.last()),
    ensures
        trim_start(s) == s,
        trim_end(s) == s,
        trimmed(s) == s,
{
}

/// A space before a text is trimmed away with the rest of its leading white space.
pub proof fn lemma_trim_start_space(s: Seq<char>)
    ensures
        trim_start(seq![' '] + s) == trim_start(s),
{
    assert((seq![' '] + s).drop_first() =~= s);
}

/// A space after a text is trimmed away with the rest of its trailing white space.
pub proof fn lemma_trim_end_space(s: Seq<char>)
    ensures
        trim_end(s + seq![' ']) == trim_end(s),
{
    assert((s + seq![' ']).drop_last() =~= s);
}

/// The first `c` of `s` is at `k` when `s[k] == c` and no earlier character is `c`.
pub proof fn lemma_find_char_at(s: Seq<char>, c: char, k: int)
    requires
        0 <= k < s.len(),
        s[k] == c,
        forall|j: int| 0 <= j < k ==> s[j] != c,
    ensures
        find_or_len(s, seq![c]) == k,
{
    assert(s.subrange(k, k + 1) =~= seq![c]);
    assert forall|j: int| 0 <= j < k implies !occurs_at(s, seq![c], j) by {
        if occurs_at(s, seq![c], j) {
            assert(s.subrange(j, j + 1)[0] == s[j]);
        }
    }
    lemma_first_occurrence_is_found(s, seq![c], k);
}

/// Leading white space can be skipped before trimming the start.
pub proof fn lemma_trim_start_skip(s: Seq<char>, k: int)
    requires
        0 <= k <= s.len(),
        forall|i: int| 0 <= i < k ==> is_white_space(#[trigger] s[i]),
    ensures
        trim_start(s) == trim_start(s.skip(k)),
    decreases k,
{
    if k > 0 {
        let t = s.drop_first();
        assert forall|i: int| 0 <= i < k - 1 implies is_white_space(#[trigger] t[i]) by {
            assert(t[i] == s[i + 1]);
        }
        lemma_trim_start_skip(t, k - 1);
        assert(t.skip(k - 1) =~= s.skip(k));
    } else {
        assert(s.skip(0) =~= s);
    }
}

/// Trailing white space can be cut before trimming the end.
pub proof fn lemma_trim_end_take(t: Seq<char>, k: int)
    requires
        0 <= k <= t.len(),
        forall|i: int| k <= i < t.len() ==> is_white_space(#[trigger] t[i]),
    ensures
        trim_end(t) == trim_end(t.take(k)),
    decreases t.len() - k,
{
    if k < t.len() {
        let u = t.drop_last();
        assert(is_white_space(t[t.len() - 1]));
        assert forall|i: int| k <= i < u.len() implies is_white_space(#[trigger] u[i]) by {
            assert(u[i] == t[i]);
        }
        lemma_trim_end_take(u, k);
        assert(u.take(k) =~= t.take(k));
    } else {
        assert(t.take(k) =~= t);
    }
}

/// Whether every character of `s` is white space.
pub open spec fn all_white_space(s: Seq<char>) -> bool {
    forall|i: int| 0 <= i < s.len() ==> is_white_space(#[trigger] s[i])
}

/// Trimming a text padded with white space on both sides gives the text,
/// when the text itself neither starts nor ends with white space.
pub proof fn lemma_trimmed_padded(w1: Seq<char>, x: Seq<char>, w2: Seq<char>)
    requires
        all_white_space(w1),
        all_white_space(w2),
        x.len() > 0 ==> !is_white_space(x[0]) && !is_white_space(x.last()),
    ensures
        trimmed(w1 + x + w2) == x,
{
    let s = w1 + x + w2;
    assert forall|i: int| 0 <= i < w1.len() implies is_white_space(#[trigger] s[i]) by {
        assert(s[i] == w1[i]);
    }
    lemma_trim_start_skip(s, w1.len() as int);
    let u = s.skip(w1.len() as int);
    assert(u =~= x + w2);
    assert forall|i: int| x.len() <= i < u.len() implies is_white_space(#[trigger] u[i]) by {
        assert(u[i] == w2[i - x.len()]);
    }
    if x.len() > 0 {
        assert(u[0] == x[0]);
        assert(trim_start(u) == u);
        lemma_trim_end_take(u, x.len() as int);
        assert(u.take(x.len() as int) =~= x);
        lemma_trimmed_bare(x);
    } else {
        lemma_trim_start_skip(u, u.len() as int);
        assert(u.skip(u.len() as int) =~= Seq::<char>::empty());
    }
}

/// `str::trim`: the slice of `s` without its leading and trailing characters
/// of the Unicode `White_Space` property.
pub fn trim(s: &str) -> (r: &str)
    ensures
        r@ == trimmed(s@),
{
    let v = chars_of(s);
    let mut a: usize = 0;
    while a < v.len() && is_white_space_char(v[a])
        invariant
            a <= v.len(),
            v@ == s@,
            forall|i: int| 0 <= i < a ==> is_white_space(#[trigger] v@[i]),
        decreases v.len() - a,
    {
        a += 1;
    }
    let mut b: usize = v.len();
    while b > a && is_white_space_char(v[b - 1])
        invariant
            a <= b <= v.len(),
            v@ == s@,
            forall|i: int| b <= i < v.len() ==> is_white_space(#[trigger] v@[i]),
        decreases b,
    {
        b -= 1;
    }
    proof {
        lemma_trim_start_skip(s@, a as int);
        let t = s@.skip(a as int);
        assert(trim_start(t) == t);
        assert forall|i: int| b - a <= i < t.len() implies is_white_space(#[trigger] t[i]) by {
            assert(t[i] == v@[i + a]);
        }
        lemma_trim_end_take(t, b - a);
        let w = t.take(b - a);
        if w.len() > 0 {
            assert(w.last() == v@[b - 1]);
        }
        assert(trim_end(w) == w);
        assert(w =~= s@.subrange(a as int, b as int));
    }
    s.substring_char(a, b)
}

/// Calls `str::to_lowercase`. Claimed: the result depends on `s` alone, and
/// is named `lowercase_of(s@)`; what the mapping is, is not stated.
#[verifier::external_body]
pub(crate) fn to_lowercase(s: &str) -> (r: String)
    ensures
        r@ == lowercase_of(s@),
{
    s.to_lowercase()
}

/// Calls `String::push`. Claimed: the string afterwards is the string before
/// with `c` appended.
#[verifier::external_body]
pub(crate) fn push_char(s: &mut String, c: char)
    ensures
        final(s)@ == old(s)@.push(c),
{
    s.push(c);
}

/// A `String` holding the characters of `v`.
pub fn string_of(v: &Vec<char>) -> (r: String)
    ensures
        r@ == v@,
{
    let mut r = String::new();
    let mut i: usize = 0;
    while i < v.len()
        invariant
            i <= v.len(),
            r@ == v@.take(i as int),
        decreases v.len() - i,
    {
        push_char(&mut r, v[i]);
        i += 1;
        assert(r@ =~= v@.take(i as int));
    }
    assert(v@.take(v.len() as int) =~= v@);
    r
}

/// An owned copy of `s`.
pub fn owned(s: &str) -> (r: String)
    ensures
        r@ == s@,
{
    s.to_owned()
}

/// `a` followed by `b`, as a new `String`.
pub fn concat(a: &str, b: &str) -> (r: String)
    ensures
        r@ == a@ + b@,
{
    let av = chars_of(a);
    let bv = chars_of(b);
    let mut r = string_of(&av);
    let mut i: usize = 0;
    while i < bv.len()
        invariant
            i <= bv.len(),
            r@ == a@ + b@.take(i as int),
            bv@ == b@,
        decreases bv.len() - i,
    {
        push_char(&mut r, bv[i]);
        i += 1;
        assert(r@ =~= a@ + b@.take(i as int));
    }
    assert(b@.take(bv.len() as int) =~= b@);
    r
}

/// Whether `p` occurs in `s` at index `i`.
pub fn matches_at(s: &Vec<char>, p: &Vec<char>, i: usize) -> (r: bool)
    ensures
        r == occurs_at(s@, p@, i as int),
{
    if i > s.len() || p.len() > s.len() - i {
        return false;
    }
    let mut k: usize = 0;
    while k < p.len()
        invariant
            k <= p.len(),
            i + p.len() <= s.len(),
            forall|m: int| 0 <= m < k ==> s@[i + m] == p@[m],
        decreases p.len() - k,
    {
        if s[i + k] != p[k] {
            assert(s@.subrange(i as int, i + p.len())[k as int] != p@[k as int]);
            return false;
        }
        k += 1;
    }
    assert(s@.subrange(i as int, i + p.len()) =~= p@);
    true
}

/// Index of the first occurrence of `p` in `s`, or `s.len()` without one.
pub fn find_in(s: &Vec<char>, p: &Vec<char>) -> (r: usize)
    requires
        p.len() > 0,
    ensures
        r == find_or_len(s@, p@),
        r < s.len() ==> is_first_occurrence(s@, p@, r as int),
        r == s.len() ==> (forall|j: int| 0 <= j < s.len() ==> !occurs_at(s@, p@, j)),
{
    let mut i: usize = 0;
    while i < s.len()
        invariant
            i <= s.len(),
            forall|j: int| 0 <= j < i ==> !occurs_at(s@, p@, j),
        decreases s.len() - i,
    {
        if matches_at(s, p, i) {
            proof {
                lemma_first_occurrence_is_found(s@, p@, i as int);
            }
            return i;
        }
        i += 1;
    }
    proof {
        assert forall|j: int| !occurs_at(s@, p@, j) by {
            if 0 <= j < s.len() {
                assert(!occurs_at(s@, p@, j));
            }
        }
        lemma_absent_is_len(s@, p@);
    }
    s.len()
}

/// Whether the character `c` occurs in `s`.
pub open spec fn has_char(s: Seq<char>, c: char) -> bool {
    exists|i: int| 0 <= i < s.len() && s[i] == c
}

/// Index of the first `c` in `v`, or `v.len()` without one.
pub fn find_char(v: &Vec<char>, c: char) -> (r: usize)
    ensures
        r == find_or_len(v@, seq![c]),
        r <= v.len(),
        has_char(v@, c) <==> r < v.len(),
        r < v.len() ==> v@[r as int] == c,
        forall|j: int| 0 <= j < r ==> v@[j] != c,
{
    let mut p: Vec<char> = Vec::new();
    p.push(c);
    assert(p@ =~= seq![c]);
    let r = find_in(v, &p);
    proof {
        if r < v.len() {
            assert(v@.subrange(r as int, r + 1)[0] == c);
            assert forall|j: int| 0 <= j < r implies v@[j] != c by {
                if v@[j] == c {
                    assert(v@.subrange(j, j + 1) =~= p@);
                    assert(occurs_at(v@, p@, j));
                }
            }
        } else {
            assert forall|j: int| 0 <= j < r implies v@[j] != c by {
                if v@[j] == c {
                    assert(v@.subrange(j, j + 1) =~= p@);
                    assert(occurs_at(v@, p@, j));
                }
            }
        }
    }
    r
}

/// The pieces of `s` between the separators `c`, as slices of `s`.
pub fn split_pieces<'a>(s: &'a str, c: char) -> (r: Vec<&'a str>)
    ensures
        r@.map_values(|p: &str| p@) == split_on(s@, c),
{
    let v = chars_of(s);
    let mut pieces: Vec<&'a str> = Vec::new();
    let mut start: usize = 0;
    let mut i: usize = 0;
    assert(pieces@.map_values(|p: &str| p@).push(s@.subrange(0, 0)) =~= split_on(s@.take(0), c)) by {
        assert(s@.take(0) =~= Seq::<char>::empty());
    }
    while i < v.len()
        invariant
            v@ == s@,
            start <= i <= v.len(),
            pieces@.map_values(|p: &str| p@).push(s@.subrange(start as int, i as int)) == split_on(
                s@.take(i as int),
                c,
            ),
        decreases v.len() - i,
    {
        let ghost before = pieces@.map_values(|p: &str| p@);
        assert(s@.take(i + 1).drop_last() =~= s@.take(i as int));
        assert(s@.take(i + 1).last() == v@[i as int]);
        if v[i] == c {
            pieces.push(s.substring_char(start, i));
            assert(pieces@.map_values(|p: &str| p@) =~= before.push(s@.subrange(start as int, i as int)));
            start = i + 1;
            assert(s@.subrange(start as int, i + 1) =~= Seq::<char>::empty());
        } else {
            assert(s@.subrange(start as int, i + 1) =~= s@.subrange(start as int, i as int).push(v@[i as int]));
            assert(before.push(s@.subrange(start as int, i + 1)) =~= before.push(
                s@.subrange(start as int, i as int),
            ).update(before.len() as int, s@.subrange(start as int, i as int).push(v@[i as int])));
        }
        i += 1;
    }
    let ghost before = pieces@.map_values(|p: &str| p@);
    pieces.push(s.substring_char(start, v.len()));
    assert(pieces@.map_values(|p: &str| p@) =~= before.push(s@.subrange(start as int, v.len() as int)));
    assert(s@.take(v.len() as int) =~= s@);
    pieces
}

/// The lines of `s` (as `str::lines` yields them), as slices of `s`.
pub fn line_pieces<'a>(s: &'a str) -> (r: Vec<&'a str>)
    ensures
        r@.map_values(|p: &str| p@) == lines_of(s@),
{
    let v = chars_of(s);
    let mut done: Vec<&'a str> = Vec::new();
    let mut start: usize = 0;
    let mut i: usize = 0;
    assert(lines_state(s@.take(0)) == (Seq::<Seq<char>>::empty(), Seq::<char>::empty())) by {
        assert(s@.take(0) =~= Seq::<char>::empty());
    }
    assert(done@.map_values(|p: &str| p@) =~= Seq::<Seq<char>>::empty());
    assert(s@.subrange(0, 0) =~= Seq::<char>::empty());
    while i < v.len()
        invariant
            v@ == s@,
            start <= i <= v.len(),
            (done@.map_values(|p: &str| p@), s@.subrange(start as int, i as int)) == lines_state(
                s@.take(i as int),
            ),
        decreases v.len() - i,
    {
        let ghost before = done@.map_values(|p: &str| p@);
        let ghost cur = s@.subrange(start as int, i as int);
        assert(s@.take(i + 1).drop_last() =~= s@.take(i as int));
        assert(s@.take(i + 1).last() == v@[i as int]);
        if v[i] == '\n' {
            let end: usize = if i > start && v[i - 1] == '\r' {
                i - 1
            } else {
                i
            };
            assert(cur.len() > 0 ==> cur.last() == v@[i - 1]);
            assert(s@.subrange(start as int, end as int) =~= (if cur.len() > 0 && cur.last() == '\r' {
                cur.drop_last()
            } else {
                cur
            }));
            done.push(s.substring_char(start, end));
            assert(done@.map_values(|p: &str| p@) =~= before.push(s@.subrange(start as int, end as int)));
            start = i + 1;
            assert(s@.subrange(start as int, i + 1) =~= Seq::<char>::empty());
        } else {
            assert(s@.subrange(start as int, i + 1) =~= cur.push(v@[i as int]));
        }
        i += 1;
    }
    assert(s@.take(v.len() as int) =~= s@);
    if start < v.len() {
        let ghost before = done@.map_values(|p: &str| p@);
        done.push(s.substring_char(start, v.len()));
        assert(done@.map_values(|p: &str| p@) =~= before.push(s@.subrange(start as int, v.len() as int)));
    }
    done
}

} // verus!
