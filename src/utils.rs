use vstd::prelude::*;

use crate::text::{chars_of, halves, halves_chars, string_of};

verus! {

/// `s` split at its first space; the second part is empty when there is none.
pub fn partition(s: &str) -> (r: (String, String))
    ensures
        r.0@ == halves(s@, ' ').0,
        r.1@ == halves(s@, ' ').1,
{
    partition_by(s, ' ')
}

/// `s` split at its first `pat`; the second part is empty when there is none.
pub fn partition_by(s: &str, pat: char) -> (r: (String, String))
    ensures
        r.0@ == halves(s@, pat).0,
        r.1@ == halves(s@, pat).1,
{
    let v = chars_of(s);
    let (a, b) = halves_chars(v.as_slice(), pat);
    (string_of(a.as_slice()), string_of(b.as_slice()))
}

/// The first `l` entries of `a`, or all of them when there are fewer.
pub fn truncated<T: Copy>(a: &[T], l: usize) -> (r: Vec<T>)
    ensures
        r@ == if a@.len() > l {
            a@.subrange(0, l as int)
        } else {
            a@
        },
{
    let mut c: Vec<T> = Vec::new();
    let mut i: usize = 0;
    while i < a.len() && i < l
        invariant
            i <= a@.len(),
            i <= l,
            c@ == a@.subrange(0, i as int),
        decreases a.len() - i,
    {
        c.push(a[i]);
        i = i + 1;
    }
    proof {
        if a@.len() <= l {
            assert(a@.subrange(0, a@.len() as int) =~= a@);
        }
    }
    c
}

/// One round of the world generator's mixing: add a constant (wrapping),
/// then a 13/17/5 xorshift.
pub open spec fn mix(seed: u32) -> u32 {
    let s0 = ((seed as int + 92857) % 0x1_0000_0000) as u32;
    let s1 = s0 ^ ((s0 << 13u32) as u32);
    let s2 = s1 ^ (s1 >> 17u32);
    s2 ^ ((s2 << 5u32) as u32)
}

/// The next number of the world generator's sequence.
pub fn randomize(seed: u32) -> (r: u32)
    ensures
        r == mix(seed),
{
    let mut s = seed.wrapping_add(92857);
    s = s ^ (s << 13u32);
    s = s ^ (s >> 17u32);
    s = s ^ (s << 5u32);
    s
}

/// Its argument, unchanged.
pub fn identity<T>(t: T) -> (r: T)
    ensures
        r == t,
{
    t
}

} // verus!
