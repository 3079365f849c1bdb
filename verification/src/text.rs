//! Character-level text helpers: conversion between strings and character
//! vectors, and the category normalization rule.

use vstd::prelude::*;
use vstd::string::StrSliceExecFns;

verus! {

/// Relies on `Iterator::collect` for `String`: the collected string holds
/// exactly the characters of `v`, in order.
#[verifier::external_body]
pub fn chars_to_string(v: &Vec<char>) -> (s: String)
    ensures
        s@ == v@,
{
    v.iter().collect()
}

/// Turns a string slice into the vector of its characters.
pub fn str_to_chars(s: &str) -> (v: Vec<char>)
    ensures
        v@ == s@,
{
    let n = s.unicode_len();
    let mut v: Vec<char> = Vec::new();
    let mut i: usize = 0;
    while i < n
        invariant
            n == s@.len(),
            i <= n,
            v@ == s@.take(i as int),
        decreases n - i,
    {
        let c = s.get_char(i);
        v.push(c);
        assert(s@.take(i as int + 1) =~= s@.take(i as int).push(s@[i as int]));
        i = i + 1;
    }
    assert(s@.take(n as int) =~= s@);
    v
}

/// One character of the normalization rule: spaces become underscores and
/// uppercase ASCII letters become lowercase; everything else is unchanged.
pub open spec fn norm_char(c: char) -> char {
    if c as u32 == 32 {
        '_'
    } else if 65 <= c as u32 && c as u32 <= 90 {
        (((c as u32) + 32) as u8) as char
    } else {
        c
    }
}

/// The normalized form of a category name.
pub open spec fn norm_seq(s: Seq<char>) -> Seq<char> {
    Seq::new(s.len(), |i: int| norm_char(s[i]))
}

/// Normalizes a human-readable item name into a category key: lowercased,
/// with spaces replaced by underscores.
pub fn normalize(s: &str) -> (r: String)
    ensures
        r@ == norm_seq(s@),
{
    let cs = str_to_chars(s);
    let mut out: Vec<char> = Vec::new();
    let mut i: usize = 0;
    while i < cs.len()
        invariant
            cs@ == s@,
            i <= cs@.len(),
            out@ == norm_seq(s@.take(i as int)),
        decreases cs@.len() - i,
    {
        let c = cs[i];
        let u = c as u32;
        let nc: char = if u == 32 {
            '_'
        } else if 65 <= u && u <= 90 {
            ((u + 32) as u8) as char
        } else {
            c
        };
        assert(nc == norm_char(c));
        out.push(nc);
        assert(norm_seq(s@.take(i as int + 1)) =~= norm_seq(s@.take(i as int)).push(norm_char(s@[i as int])));
        i = i + 1;
    }
    assert(s@.take(cs@.len() as int) =~= s@);
    chars_to_string(&out)
}

/// Normalizing one character twice gives the same result as once.
pub proof fn lemma_norm_char_idempotent(c: char)
    ensures
        norm_char(norm_char(c)) == norm_char(c),
{
}

/// Category normalization is idempotent: normalizing an already normalized
/// name leaves it unchanged.
pub proof fn lemma_normalize_idempotent(s: Seq<char>)
    ensures
        norm_seq(norm_seq(s)) == norm_seq(s),
{
    assert forall|i: int| 0 <= i < s.len() implies norm_char(norm_char(s[i])) == norm_char(s[i]) by {
        lemma_norm_char_idempotent(s[i]);
    }
    assert(norm_seq(norm_seq(s)) =~= norm_seq(s));
}

} // verus!
