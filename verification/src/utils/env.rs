//! Settings in the style of environment variables: names and values as the
//! process found them at startup, and lookups with and without a default.

use vstd::prelude::*;

verus! {

/// The value that `vars` gives to `key`: that of the last pair with this
/// name, if there is one. A later pair thus overrides an earlier one.
pub open spec fn lookup(vars: Seq<(String, String)>, key: Seq<char>) -> Option<Seq<char>>
    decreases vars.len(),
{
    if vars.len() == 0 {
        None
    } else if vars.last().0@ == key {
        Some(vars.last().1@)
    } else {
        lookup(vars.drop_last(), key)
    }
}

/// Whether two byte strings are the same.
fn same_bytes(a: &[u8], b: &[u8]) -> (same: bool)
    ensures
        same == (a@ == b@),
{
    if a.len() != b.len() {
        return false;
    }
    let mut i: usize = 0;
    while i < a.len()
        invariant
            a@.len() == b@.len(),
            i <= a@.len(),
            a@.take(i as int) == b@.take(i as int),
        decreases a@.len() - i,
    {
        if a[i] != b[i] {
            return false;
        }
        proof {
            assert(a@.take(i + 1) =~= a@.take(i as int).push(a@[i as int]));
            assert(b@.take(i + 1) =~= b@.take(i as int).push(b@[i as int]));
        }
        i = i + 1;
    }
    proof {
        assert(a@.take(a@.len() as int) =~= a@);
        assert(b@.take(b@.len() as int) =~= b@);
    }
    true
}

/// Whether two texts are the same.
pub fn same_text(a: &str, b: &str) -> (same: bool)
    ensures
        same == (a@ == b@),
{
    proof {
        vstd::utf8::encode_utf8_decode_utf8(a@);
        vstd::utf8::encode_utf8_decode_utf8(b@);
    }
    same_bytes(a.as_bytes(), b.as_bytes())
}

/// Finds the value that `vars` gives to `key`.
pub fn find<'a>(vars: &'a Vec<(String, String)>, key: &str) -> (value: Option<&'a String>)
    ensures
        match value {
            Some(v) => lookup(vars@, key@) == Some(v@),
            None => lookup(vars@, key@) is None,
        },
{
    let mut i: usize = vars.len();
    proof {
        assert(vars@.take(i as int) =~= vars@);
    }
    while i > 0
        invariant
            i <= vars@.len(),
            lookup(vars@, key@) == lookup(vars@.take(i as int), key@),
        decreases i,
    {
        proof {
            assert(vars@.take(i as int).drop_last() =~= vars@.take(i - 1));
            assert(vars@.take(i as int).last() == vars@[i - 1]);
        }
        i = i - 1;
        if same_text(vars[i].0.as_str(), key) {
            return Some(&vars[i].1);
        }
    }
    None
}

/// Returns the value that `vars` gives to `key`, or `default` if they give
/// it none.
pub fn get_env_or(vars: &Vec<(String, String)>, key: &str, default: &str) -> (value: String)
    ensures
        value@ == match lookup(vars@, key@) {
            Some(v) => v,
            None => default@,
        },
{
    match find(vars, key) {
        Some(v) => v.clone(),
        None => default.to_owned(),
    }
}

/// Returns the value that `vars` gives to `key`, which must be there.
pub fn get_env(vars: &Vec<(String, String)>, key: &str) -> (value: String)
    requires
        lookup(vars@, key@) is Some,
    ensures
        Some(value@) == lookup(vars@, key@),
{
    match find(vars, key) {
        Some(v) => v.clone(),
        None => String::new(),
    }
}

} // verus!
