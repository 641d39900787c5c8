//! Verified text utilities shared by the whole crate: conversion between
//! `String` and `Vec<char>`, substring search, and the trusted declarations
//! for the few `std` character operations that have no vstd specification.

use vstd::prelude::*;
use vstd::std_specs::iter::IteratorSpec;

verus! {

broadcast use vstd::string::group_string_axioms;

/// Relies on `String::push`: appends the character to the end of the string.
pub assume_specification[ String::push ](s: &mut String, c: char)
    ensures
        final(s)@ == old(s)@.push(c),
;

/// Whether a character counts as alphanumeric under Unicode; the class that
/// `char::is_alphanumeric` decides.
pub uninterp spec fn alnum_class(c: char) -> bool;

/// Relies on `char::is_alphanumeric`: membership in a fixed Unicode character
/// class, a function of the character alone.
pub assume_specification[ char::is_alphanumeric ](c: char) -> (r: bool)
    ensures
        r == alnum_class(c),
;

/// The Unicode lowercase mapping of one character (one or more characters).
pub uninterp spec fn lower_chars(c: char) -> Seq<char>;

/// The Unicode uppercase mapping of one character (one or more characters).
pub uninterp spec fn upper_chars(c: char) -> Seq<char>;

/// Relies on `char::to_lowercase`: the Unicode lowercase mapping, a function
/// of the character alone.
#[verifier::external_body]
fn to_lower_chars(c: char) -> (r: Vec<char>)
    ensures
        r@ == lower_chars(c),
{
    c.to_lowercase().collect()
}

/// Relies on `char::to_uppercase`: the Unicode uppercase mapping, a function
/// of the character alone.
#[verifier::external_body]
fn to_upper_chars(c: char) -> (r: Vec<char>)
    ensures
        r@ == upper_chars(c),
{
    c.to_uppercase().collect()
}

/// Relies on `char::from_u32`: for a Unicode scalar value it returns the
/// character with that value.
#[verifier::external_body]
pub fn char_from_scalar(u: u32) -> (c: char)
    requires
        u < 0xD800 || (0xDFFF < u && u <= 0x10FFFF),
    ensures
        c == u as char,
{
    char::from_u32(u).unwrap()
}

pub open spec fn is_ascii_char(c: char) -> bool {
    (c as u32) < 128
}

/// The single-character lowercase mapping used for ASCII characters.
pub open spec fn ascii_lower_char(c: char) -> char {
    if 'A' <= c && c <= 'Z' {
        ((c as u32) + 32) as char
    } else {
        c
    }
}

/// The single-character uppercase mapping used for ASCII characters.
pub open spec fn ascii_upper_char(c: char) -> char {
    if 'a' <= c && c <= 'z' {
        ((c as u32) - 32) as char
    } else {
        c
    }
}

/// What lower-casing one character yields: the ASCII rule for ASCII
/// characters, the Unicode mapping otherwise.
pub open spec fn lower_char_spec(c: char) -> Seq<char> {
    if is_ascii_char(c) {
        seq![ascii_lower_char(c)]
    } else {
        lower_chars(c)
    }
}

/// What upper-casing one character yields: the ASCII rule for ASCII
/// characters, the Unicode mapping otherwise.
pub open spec fn upper_char_spec(c: char) -> Seq<char> {
    if is_ascii_char(c) {
        seq![ascii_upper_char(c)]
    } else {
        upper_chars(c)
    }
}

/// Appends the lowercase mapping of `c` to `out`.
pub fn push_lower(out: &mut Vec<char>, c: char)
    ensures
        final(out)@ == old(out)@ + lower_char_spec(c),
{
    if (c as u32) < 128 {
        if 'A' <= c && c <= 'Z' {
            let l = char_from_scalar((c as u32) + 32);
            out.push(l);
            assert(out@ =~= old(out)@ + lower_char_spec(c));
        } else {
            out.push(c);
            assert(out@ =~= old(out)@ + lower_char_spec(c));
        }
    } else {
        let mut w = to_lower_chars(c);
        out.append(&mut w);
        assert(out@ =~= old(out)@ + lower_char_spec(c));
    }
}

/// Appends the uppercase mapping of `c` to `out`.
pub fn push_upper(out: &mut Vec<char>, c: char)
    ensures
        final(out)@ == old(out)@ + upper_char_spec(c),
{
    if (c as u32) < 128 {
        if 'a' <= c && c <= 'z' {
            let u = char_from_scalar((c as u32) - 32);
            out.push(u);
            assert(out@ =~= old(out)@ + upper_char_spec(c));
        } else {
            out.push(c);
            assert(out@ =~= old(out)@ + upper_char_spec(c));
        }
    } else {
        let mut w = to_upper_chars(c);
        out.append(&mut w);
        assert(out@ =~= old(out)@ + upper_char_spec(c));
    }
}

/// Appends the characters of a string slice to `st`.
pub fn push_str_chars(st: &mut Vec<char>, w: &str)
    ensures
        final(st)@ == old(st)@ + w@,
{
    let mut v = chars_of(w);
    st.append(&mut v);
}

/// Collects the characters of a string slice into a vector.
pub fn chars_of(s: &str) -> (r: Vec<char>)
    ensures
        r@ == s@,
{
    let mut it = s.chars();
    let mut r: Vec<char> = Vec::new();
    loop
        invariant
            r@ + it.remaining() == s@,
            it.decrease() is Some,
        ensures
            r@ == s@,
        decreases it.decrease()->0,
    {
        match it.next() {
            Some(c) => {
                r.push(c);
            },
            None => {
                assert(r@ =~= s@);
                break ;
            },
        }
    }
    r
}

/// Compares two string slices by their characters.
pub fn str_eq(a: &str, b: &str) -> (r: bool)
    ensures
        r == (a@ == b@),
{
    let va = chars_of(a);
    let vb = chars_of(b);
    if va.len() != vb.len() {
        return false;
    }
    let mut i: usize = 0;
    while i < va.len()
        invariant
            i <= va@.len(),
            va@.len() == vb@.len(),
            va@ == a@,
            vb@ == b@,
            forall|j: int| 0 <= j < i as int ==> va@[j] == vb@[j],
        decreases va@.len() - i,
    {
        if va[i] != vb[i] {
            return false;
        }
        i = i + 1;
    }
    proof {
        assert(a@ =~= b@);
    }
    true
}

/// Whether `s` begins with `prefix`, by characters.
pub fn str_starts_with(s: &str, prefix: &str) -> (r: bool)
    ensures
        r == (s@.len() >= prefix@.len() && s@.subrange(0, prefix@.len() as int) == prefix@),
{
    let vs = chars_of(s);
    let vp = chars_of(prefix);
    if vs.len() < vp.len() {
        return false;
    }
    let mut i: usize = 0;
    while i < vp.len()
        invariant
            i <= vp@.len(),
            vp@.len() <= vs@.len(),
            vs@ == s@,
            vp@ == prefix@,
            forall|j: int| 0 <= j < i as int ==> vs@[j] == vp@[j],
        decreases vp@.len() - i,
    {
        if vs[i] != vp[i] {
            assert(s@.subrange(0, prefix@.len() as int)[i as int] != prefix@[i as int]);
            return false;
        }
        i = i + 1;
    }
    proof {
        assert(s@.subrange(0, prefix@.len() as int) =~= prefix@);
    }
    true
}

/// Whether `s` ends with `suffix`, by characters.
pub fn str_ends_with(s: &str, suffix: &str) -> (r: bool)
    ensures
        r == (s@.len() >= suffix@.len() && s@.subrange(
            s@.len() - suffix@.len(),
            s@.len() as int,
        ) == suffix@),
{
    let vs = chars_of(s);
    let vp = chars_of(suffix);
    if vs.len() < vp.len() {
        return false;
    }
    let n = vs.len();
    let off = n - vp.len();
    let mut i: usize = 0;
    while i < vp.len()
        invariant
            i <= vp@.len(),
            vp@.len() <= vs@.len(),
            n as int == vs@.len(),
            off as int == vs@.len() - vp@.len(),
            vs@ == s@,
            vp@ == suffix@,
            forall|j: int| 0 <= j < i as int ==> vs@[off as int + j] == vp@[j],
        decreases vp@.len() - i,
    {
        if vs[off + i] != vp[i] {
            assert(s@.subrange(s@.len() - suffix@.len(), s@.len() as int)[i as int]
                != suffix@[i as int]);
            return false;
        }
        i = i + 1;
    }
    proof {
        assert(s@.subrange(s@.len() - suffix@.len(), s@.len() as int) =~= suffix@);
    }
    true
}

/// Whether the first character of `s` is `c`.
pub fn first_char_is(s: &str, c: char) -> (r: bool)
    ensures
        r == (s@.len() > 0 && s@[0] == c),
{
    let v = chars_of(s);
    if v.len() == 0 {
        false
    } else {
        v[0] == c
    }
}

/// Appends the characters of `v[from..to]` to `out`.
pub fn push_range(out: &mut Vec<char>, v: &Vec<char>, from: usize, to: usize)
    requires
        from <= to <= v@.len(),
    ensures
        final(out)@ == old(out)@ + v@.subrange(from as int, to as int),
{
    let mut j = from;
    proof {
        assert(v@.subrange(from as int, from as int) =~= Seq::<char>::empty());
        assert(out@ =~= out@ + v@.subrange(from as int, from as int));
    }
    while j < to
        invariant
            from <= j <= to <= v@.len(),
            out@ == old(out)@ + v@.subrange(from as int, j as int),
        decreases to - j,
    {
        proof {
            assert(v@.subrange(from as int, j as int).push(v@[j as int]) =~= v@.subrange(
                from as int,
                j as int + 1,
            ));
        }
        out.push(v[j]);
        j = j + 1;
    }
}

/// The characters of `v[from..to]` as a fresh vector.
pub fn copy_range(v: &Vec<char>, from: usize, to: usize) -> (r: Vec<char>)
    requires
        from <= to <= v@.len(),
    ensures
        r@ == v@.subrange(from as int, to as int),
{
    let mut r: Vec<char> = Vec::new();
    push_range(&mut r, v, from, to);
    proof {
        assert(r@ =~= v@.subrange(from as int, to as int));
    }
    r
}

/// Whether `pat` occurs somewhere in `s`.
pub open spec fn contains_seq(s: Seq<char>, pat: Seq<char>) -> bool {
    exists|i: int|
        #![trigger s.subrange(i, i + pat.len() as int)]
        0 <= i && i + pat.len() <= s.len() && s.subrange(i, i + pat.len() as int) == pat
}

/// Whether `pat` occurs anywhere in `s`.
pub fn str_contains(s: &str, pat: &str) -> (r: bool)
    ensures
        r == contains_seq(s@, pat@),
{
    let vs = chars_of(s);
    let vp = chars_of(pat);
    let n = vs.len();
    let m = vp.len();
    if m > n {
        proof {
            assert forall|i: int|
                #![trigger s@.subrange(i, i + pat@.len() as int)]
                0 <= i && i + pat@.len() <= s@.len() implies s@.subrange(
                i,
                i + pat@.len() as int,
            ) != pat@ by {
            }
        }
        return false;
    }
    let mut i: usize = 0;
    while i <= n - m
        invariant
            m <= n,
            n as int == vs@.len(),
            m as int == vp@.len(),
            vs@ == s@,
            vp@ == pat@,
            i <= n - m + 1,
            forall|t: int|
                #![trigger s@.subrange(t, t + pat@.len() as int)]
                0 <= t < i as int ==> s@.subrange(t, t + pat@.len() as int) != pat@,
        decreases n - m - i + 1,
    {
        let mut k: usize = 0;
        let mut ok = true;
        while k < m
            invariant
                k <= m,
                i + m <= n,
                n as int == vs@.len(),
                m as int == vp@.len(),
                vs@ == s@,
                vp@ == pat@,
                ok == (forall|t: int| 0 <= t < k as int ==> vs@[i as int + t] == vp@[t]),
            decreases m - k,
        {
            if vs[i + k] != vp[k] {
                proof {
                    assert(vs@[i as int + k as int] != vp@[k as int]);
                }
                ok = false;
                k = m;
            } else {
                k = k + 1;
            }
        }
        if ok {
            proof {
                assert(s@.subrange(i as int, i as int + pat@.len() as int) =~= pat@);
            }
            return true;
        }
        proof {
            let w = choose|t: int| 0 <= t < m as int && vs@[i as int + t] != vp@[t];
            assert(s@.subrange(i as int, i as int + pat@.len() as int)[w] != pat@[w]);
        }
        i = i + 1;
    }
    proof {
        assert forall|t: int|
            #![trigger s@.subrange(t, t + pat@.len() as int)]
            0 <= t && t + pat@.len() <= s@.len() implies s@.subrange(
            t,
            t + pat@.len() as int,
        ) != pat@ by {
            if t < i as int {
            } else {
                assert(t > n as int - m as int);
            }
        }
    }
    false
}

/// The decimal rendering of `n`, most significant digit first.
pub open spec fn dec_seq(n: nat) -> Seq<char>
    decreases n,
{
    if n < 10 {
        seq![(('0' as u32) + n) as char]
    } else {
        dec_seq(n / 10) + seq![(('0' as u32) + n % 10) as char]
    }
}

/// Appends the decimal rendering of `n`.
pub fn push_dec(out: &mut Vec<char>, n: u32)
    ensures
        final(out)@ == old(out)@ + dec_seq(n as nat),
    decreases n,
{
    if n < 10 {
        let c = char_from_scalar(48 + n);
        out.push(c);
        assert(out@ =~= old(out)@ + dec_seq(n as nat));
    } else {
        push_dec(out, n / 10);
        let c = char_from_scalar(48 + n % 10);
        out.push(c);
        assert(out@ =~= old(out)@ + dec_seq(n as nat));
    }
}

/// Builds a `String` from a sequence of characters.
pub fn string_of(v: &Vec<char>) -> (r: String)
    ensures
        r@ == v@,
{
    let mut r = String::new();
    let mut i: usize = 0;
    while i < v.len()
        invariant
            i <= v@.len(),
            r@ == v@.subrange(0, i as int),
        decreases v@.len() - i,
    {
        r.push(v[i]);
        i = i + 1;
        assert(r@ =~= v@.subrange(0, i as int));
    }
    assert(r@ =~= v@);
    r
}

} // verus!
