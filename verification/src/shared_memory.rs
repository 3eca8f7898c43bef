//! Names of the shared memory segments.
use vstd::prelude::*;
use crate::hash::{get_hash, str_hash};
use crate::numbers::{decimal, decimal_string};
use crate::text::{chars_of, concat};

verus! {

broadcast use vstd::string::group_string_axioms;

/// The prefix of every segment name.
pub open spec fn prefix_chars() -> Seq<char> {
    seq!['d', 'o', 'b', 'b', 'y', '.']
}

/// The prefix of every segment name: `"dobby."`.
pub fn shared_memory_prefix() -> (r: &'static str)
    ensures
        r@ == prefix_chars(),
{
    let r = "dobby.";
    proof {
        reveal_strlit("dobby.");
    }
    assert(r@ =~= prefix_chars());
    r
}

/// The name of the segment with the given id: the prefix, then the id in decimal.
pub fn get_full_id(unique_id: u64) -> (r: String)
    ensures
        r@ == prefix_chars() + decimal(unique_id as nat),
{
    let digits = decimal_string(unique_id);
    concat(shared_memory_prefix(), digits.as_str())
}

/// The id of the segment that holds the contents of the cached file whose
/// name hashes to `file_name_hash`: the hash of that hash's decimal text.
pub fn node_segment_id(file_name_hash: u64) -> (r: u64)
    ensures
        r == str_hash(decimal(file_name_hash as nat)),
{
    let text = decimal_string(file_name_hash);
    get_hash(text.as_str())
}

/// Whether a file in the shared memory folder is one of ours: its first six
/// bytes are the prefix. Slicing the name there requires byte 6 to start a character.
pub fn is_shared_memory_file(name: &str) -> (r: bool)
    requires
        vstd::utf8::is_char_boundary(vstd::utf8::encode_utf8(name@), 6),
    ensures
        r == (name@.len() >= 6 && name@.take(6) == prefix_chars()),
{
    let v = chars_of(name);
    let p = chars_of(shared_memory_prefix());
    if v.len() < 6 {
        return false;
    }
    let mut i: usize = 0;
    while i < 6
        invariant
            i <= 6,
            v.len() >= 6,
            v@ == name@,
            p@ == prefix_chars(),
            forall|j: int| 0 <= j < i ==> v@[j] == p@[j],
        decreases 6 - i,
    {
        if v[i] != p[i] {
            assert(name@.take(6)[i as int] != prefix_chars()[i as int]);
            return false;
        }
        i += 1;
    }
    assert(name@.take(6) =~= prefix_chars());
    true
}

/// Every segment name that `get_full_id` makes is recognised as ours.
pub proof fn law_full_id_is_recognised(unique_id: u64)
    ensures
        ({
            let name = prefix_chars() + decimal(unique_id as nat);
            name.len() >= 6 && name.take(6) == prefix_chars()
        }),
{
    let name = prefix_chars() + decimal(unique_id as nat);
    assert(name.take(6) =~= prefix_chars());
}

} // verus!
