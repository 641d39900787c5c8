//! The quoted-string grammar shared by marked source literals and the
//! catalog file format: decoding of escape sequences into logical text and
//! encoding of text back into a quoted body.
//!
//! The escape conventions are the JSON ones: `\"`, `\\`, `\/`, `\b`, `\f`,
//! `\n`, `\r`, `\t`, and `\uXXXX` with surrogate pairs for characters
//! outside the basic plane.  Raw control characters and unpaired surrogates
//! are rejected.

use vstd::prelude::*;

use crate::text::char_from_scalar;

verus! {

/// The value of one hexadecimal digit, or -1.
pub open spec fn hex_val(c: char) -> int {
    if '0' <= c && c <= '9' {
        (c as int) - 48
    } else if 'a' <= c && c <= 'f' {
        (c as int) - 87
    } else if 'A' <= c && c <= 'F' {
        (c as int) - 55
    } else {
        -1
    }
}

/// The value of the four hexadecimal digits at `i`, or -1.
pub open spec fn hex4(s: Seq<char>, i: int) -> int {
    if 0 <= i && i + 4 <= s.len() && hex_val(s[i]) >= 0 && hex_val(s[i + 1]) >= 0 && hex_val(
        s[i + 2],
    ) >= 0 && hex_val(s[i + 3]) >= 0 {
        ((hex_val(s[i]) * 16 + hex_val(s[i + 1])) * 16 + hex_val(s[i + 2])) * 16 + hex_val(
            s[i + 3],
        )
    } else {
        -1
    }
}

/// Prepends a character to a successful decode; failure passes through.
pub open spec fn cons_decoded(c: char, rest: Option<Seq<char>>) -> Option<Seq<char>> {
    match rest {
        Some(r) => Some(seq![c] + r),
        None => None,
    }
}

/// Decodes the escaped body `s` from position `i` on into its logical text;
/// `None` on a malformed escape, a raw quote or control character, or an
/// unpaired surrogate.
pub open spec fn unescape_from(s: Seq<char>, i: int) -> Option<Seq<char>>
    decreases s.len() - i,
    when 0 <= i <= s.len()
{
    if i == s.len() {
        Some(Seq::<char>::empty())
    } else if s[i] == '\\' {
        if i + 1 >= s.len() {
            None
        } else {
            let d = s[i + 1];
            if d == '"' {
                cons_decoded('"', unescape_from(s, i + 2))
            } else if d == '\\' {
                cons_decoded('\\', unescape_from(s, i + 2))
            } else if d == '/' {
                cons_decoded('/', unescape_from(s, i + 2))
            } else if d == 'b' {
                cons_decoded('\u{8}', unescape_from(s, i + 2))
            } else if d == 'f' {
                cons_decoded('\u{c}', unescape_from(s, i + 2))
            } else if d == 'n' {
                cons_decoded('\n', unescape_from(s, i + 2))
            } else if d == 'r' {
                cons_decoded('\r', unescape_from(s, i + 2))
            } else if d == 't' {
                cons_decoded('\t', unescape_from(s, i + 2))
            } else if d == 'u' {
                let v = hex4(s, i + 2);
                if v < 0 {
                    None
                } else if 0xD800 <= v && v < 0xDC00 {
                    if i + 12 <= s.len() && s[i + 6] == '\\' && s[i + 7] == 'u' {
                        let w = hex4(s, i + 8);
                        if 0xDC00 <= w && w < 0xE000 {
                            cons_decoded(
                                (0x10000 + (v - 0xD800) * 0x400 + (w - 0xDC00)) as char,
                                unescape_from(s, i + 12),
                            )
                        } else {
                            None
                        }
                    } else {
                        None
                    }
                } else if 0xDC00 <= v && v < 0xE000 {
                    None
                } else {
                    cons_decoded(v as char, unescape_from(s, i + 6))
                }
            } else {
                None
            }
        }
    } else if s[i] == '"' {
        None
    } else if (s[i] as u32) < 0x20 {
        None
    } else {
        cons_decoded(s[i], unescape_from(s, i + 1))
    }
}

/// The logical text of an escaped body, or `None` when malformed.
pub open spec fn unescape_seq(s: Seq<char>) -> Option<Seq<char>> {
    unescape_from(s, 0)
}

/// Prepends already-decoded text to a pending decode.
pub open spec fn opt_concat(p: Seq<char>, o: Option<Seq<char>>) -> Option<Seq<char>> {
    match o {
        Some(r) => Some(p + r),
        None => None,
    }
}

proof fn lemma_unescape_step(s: Seq<char>, i: int, j: int, p: Seq<char>, c: char)
    requires
        unescape_from(s, i) == cons_decoded(c, unescape_from(s, j)),
    ensures
        opt_concat(p, unescape_from(s, i)) == opt_concat(p.push(c), unescape_from(s, j)),
{
    match unescape_from(s, j) {
        Some(r) => {
            assert(p + (seq![c] + r) =~= p.push(c) + r);
        },
        None => {
        },
    }
}

/// The value of one hexadecimal digit character, or -1.
fn hex_val_exec(c: char) -> (r: i32)
    ensures
        r as int == hex_val(c),
{
    if '0' <= c && c <= '9' {
        (c as u32 as i32) - 48
    } else if 'a' <= c && c <= 'f' {
        (c as u32 as i32) - 87
    } else if 'A' <= c && c <= 'F' {
        (c as u32 as i32) - 55
    } else {
        -1i32
    }
}

/// Decodes an escaped quoted-string body into its logical text.
#[verifier::rlimit(60)]
pub fn unescape_chars(v: &Vec<char>) -> (r: Option<Vec<char>>)
    ensures
        match r {
            Some(out) => unescape_seq(v@) matches Some(u) && out@ == u,
            None => unescape_seq(v@) is None,
        },
{
    let n = v.len();
    let mut out: Vec<char> = Vec::new();
    let mut i: usize = 0;
    while i < n
        invariant
            i <= n,
            n as int == v@.len(),
            unescape_from(v@, 0) == opt_concat(out@, unescape_from(v@, i as int)),
        decreases n - i,
    {
        let c = v[i];
        if c == '\\' {
            if i + 1 >= n {
                return None;
            }
            let d = v[i + 1];
            if d == '"' {
                proof {
                    lemma_unescape_step(v@, i as int, i as int + 2, out@, '"');
                }
                out.push('"');
                i = i + 2;
            } else if d == '\\' {
                proof {
                    lemma_unescape_step(v@, i as int, i as int + 2, out@, '\\');
                }
                out.push('\\');
                i = i + 2;
            } else if d == '/' {
                proof {
                    lemma_unescape_step(v@, i as int, i as int + 2, out@, '/');
                }
                out.push('/');
                i = i + 2;
            } else if d == 'b' {
                proof {
                    lemma_unescape_step(v@, i as int, i as int + 2, out@, '\u{8}');
                }
                out.push('\u{8}');
                i = i + 2;
            } else if d == 'f' {
                proof {
                    lemma_unescape_step(v@, i as int, i as int + 2, out@, '\u{c}');
                }
                out.push('\u{c}');
                i = i + 2;
            } else if d == 'n' {
                proof {
                    lemma_unescape_step(v@, i as int, i as int + 2, out@, '\n');
                }
                out.push('\n');
                i = i + 2;
            } else if d == 'r' {
                proof {
                    lemma_unescape_step(v@, i as int, i as int + 2, out@, '\r');
                }
                out.push('\r');
                i = i + 2;
            } else if d == 't' {
                proof {
                    lemma_unescape_step(v@, i as int, i as int + 2, out@, '\t');
                }
                out.push('\t');
                i = i + 2;
            } else if d == 'u' {
                if n - i < 6 {
                    proof {
                        assert(hex4(v@, i as int + 2) == -1);
                    }
                    return None;
                }
                let h0 = hex_val_exec(v[i + 2]);
                let h1 = hex_val_exec(v[i + 3]);
                let h2 = hex_val_exec(v[i + 4]);
                let h3 = hex_val_exec(v[i + 5]);
                if h0 < 0 || h1 < 0 || h2 < 0 || h3 < 0 {
                    return None;
                }
                let val: u32 = (((h0 as u32) * 16 + (h1 as u32)) * 16 + (h2 as u32)) * 16 + (
                h3 as u32);
                proof {
                    assert(val as int == hex4(v@, i as int + 2));
                }
                if 0xD800 <= val && val < 0xDC00 {
                    if n - i < 12 || v[i + 6] != '\\' || v[i + 7] != 'u' {
                        return None;
                    }
                    let g0 = hex_val_exec(v[i + 8]);
                    let g1 = hex_val_exec(v[i + 9]);
                    let g2 = hex_val_exec(v[i + 10]);
                    let g3 = hex_val_exec(v[i + 11]);
                    if g0 < 0 || g1 < 0 || g2 < 0 || g3 < 0 {
                        return None;
                    }
                    let wal: u32 = (((g0 as u32) * 16 + (g1 as u32)) * 16 + (g2 as u32)) * 16 + (
                    g3 as u32);
                    proof {
                        assert(wal as int == hex4(v@, i as int + 8));
                    }
                    if !(0xDC00 <= wal && wal < 0xE000) {
                        return None;
                    }
                    let combined: u32 = 0x10000 + (val - 0xD800) * 0x400 + (wal - 0xDC00);
                    let ch = char_from_scalar(combined);
                    proof {
                        lemma_unescape_step(v@, i as int, i as int + 12, out@, ch);
                    }
                    out.push(ch);
                    i = i + 12;
                } else if 0xDC00 <= val && val < 0xE000 {
                    return None;
                } else {
                    let ch = char_from_scalar(val);
                    proof {
                        lemma_unescape_step(v@, i as int, i as int + 6, out@, ch);
                    }
                    out.push(ch);
                    i = i + 6;
                }
            } else {
                return None;
            }
        } else if c == '"' {
            return None;
        } else if (c as u32) < 0x20 {
            return None;
        } else {
            proof {
                lemma_unescape_step(v@, i as int, i as int + 1, out@, c);
            }
            out.push(c);
            i = i + 1;
        }
    }
    proof {
        assert(unescape_from(v@, n as int) == Some(Seq::<char>::empty()));
        assert(out@ + Seq::<char>::empty() =~= out@);
    }
    Some(out)
}

/// The escaped rendering of one character inside a quoted string.
pub open spec fn escape_char(c: char) -> Seq<char> {
    if c == '"' {
        seq!['\\', '"']
    } else if c == '\\' {
        seq!['\\', '\\']
    } else if c == '\n' {
        seq!['\\', 'n']
    } else if c == '\r' {
        seq!['\\', 'r']
    } else if c == '\t' {
        seq!['\\', 't']
    } else if c == '\u{8}' {
        seq!['\\', 'b']
    } else if c == '\u{c}' {
        seq!['\\', 'f']
    } else if (c as u32) < 0x20 {
        seq!['\\', 'u', '0', '0', crate::utils::hex_digit(((c as u32) / 16) as nat),
            crate::utils::hex_digit(((c as u32) % 16) as nat)]
    } else {
        seq![c]
    }
}

/// The escaped rendering of a whole text as a quoted-string body.
pub open spec fn escape_seq(s: Seq<char>) -> Seq<char>
    decreases s.len(),
{
    if s.len() == 0 {
        Seq::<char>::empty()
    } else {
        escape_char(s[0]) + escape_seq(s.drop_first())
    }
}

proof fn lemma_escape_snoc(s: Seq<char>, c: char)
    ensures
        escape_seq(s.push(c)) == escape_seq(s) + escape_char(c),
    decreases s.len(),
{
    if s.len() == 0 {
        assert(s.push(c)[0] == c);
        assert(s.push(c).drop_first() =~= Seq::<char>::empty());
        assert(escape_seq(s.push(c).drop_first()) =~= Seq::<char>::empty());
        assert(escape_seq(s.push(c)) =~= escape_seq(s) + escape_char(c));
    } else {
        assert(s.push(c)[0] == s[0]);
        assert(s.push(c).drop_first() =~= s.drop_first().push(c));
        lemma_escape_snoc(s.drop_first(), c);
        assert(escape_seq(s.push(c)) == escape_char(s[0]) + escape_seq(s.drop_first().push(c)));
        assert(escape_seq(s.push(c)) =~= escape_seq(s) + escape_char(c));
    }
}

/// Appends the escaped rendering of one character.
fn push_escaped(out: &mut Vec<char>, c: char)
    ensures
        final(out)@ == old(out)@ + escape_char(c),
{
    if c == '"' {
        out.push('\\');
        out.push('"');
    } else if c == '\\' {
        out.push('\\');
        out.push('\\');
    } else if c == '\n' {
        out.push('\\');
        out.push('n');
    } else if c == '\r' {
        out.push('\\');
        out.push('r');
    } else if c == '\t' {
        out.push('\\');
        out.push('t');
    } else if c == '\u{8}' {
        out.push('\\');
        out.push('b');
    } else if c == '\u{c}' {
        out.push('\\');
        out.push('f');
    } else if (c as u32) < 0x20 {
        out.push('\\');
        out.push('u');
        out.push('0');
        out.push('0');
        let hi = char_from_scalar(if (c as u32) / 16 < 10 {
            48 + (c as u32) / 16
        } else {
            87 + (c as u32) / 16
        });
        let lo = char_from_scalar(if (c as u32) % 16 < 10 {
            48 + (c as u32) % 16
        } else {
            87 + (c as u32) % 16
        });
        out.push(hi);
        out.push(lo);
        assert(out@ =~= old(out)@ + escape_char(c));
    } else {
        out.push(c);
    }
    assert(out@ =~= old(out)@ + escape_char(c));
}

/// Appends the escaped rendering of a whole text.
pub fn push_escape_seq(out: &mut Vec<char>, v: &Vec<char>)
    ensures
        final(out)@ == old(out)@ + escape_seq(v@),
{
    let mut i: usize = 0;
    proof {
        assert(v@.subrange(0, 0) =~= Seq::<char>::empty());
        assert(escape_seq(v@.subrange(0, 0)) =~= Seq::<char>::empty());
        assert(out@ =~= out@ + escape_seq(v@.subrange(0, 0)));
    }
    while i < v.len()
        invariant
            i <= v@.len(),
            out@ == old(out)@ + escape_seq(v@.subrange(0, i as int)),
        decreases v@.len() - i,
    {
        proof {
            lemma_escape_snoc(v@.subrange(0, i as int), v@[i as int]);
            assert(v@.subrange(0, i as int).push(v@[i as int]) =~= v@.subrange(0, i as int + 1));
        }
        push_escaped(out, v[i]);
        i = i + 1;
    }
    proof {
        assert(v@.subrange(0, v@.len() as int) =~= v@);
    }
}

proof fn lemma_hex_digit_val(d: nat)
    requires
        d < 16,
    ensures
        hex_val(crate::utils::hex_digit(d)) == d,
{
    if d < 10 {
        assert(crate::utils::hex_digit(d) as int == 48 + d);
    } else {
        assert(crate::utils::hex_digit(d) as int == 87 + d);
    }
}

/// Decoding picks up exactly where one escaped character ends.
#[verifier::rlimit(60)]
#[verifier::spinoff_prover]
proof fn lemma_unescape_unit(t: Seq<char>, i: int, c: char)
    requires
        0 <= i,
        i + escape_char(c).len() <= t.len(),
        forall|d: int| 0 <= d < escape_char(c).len() ==> #[trigger] t[i + d] == escape_char(c)[d],
    ensures
        unescape_from(t, i) == cons_decoded(c, unescape_from(t, i + escape_char(c).len())),
{
    if c == '"' || c == '\\' || c == '\n' || c == '\r' || c == '\t' || c == '\u{8}' || c
        == '\u{c}' {
        assert(t[i + 0] == '\\');
        assert(t[i + 1] == escape_char(c)[1]);
    } else if (c as u32) < 0x20 {
        assert(t[i + 0] == '\\');
        assert(t[i + 1] == 'u');
        assert(t[i + 2] == '0');
        assert(t[i + 3] == '0');
        assert(t[i + 4] == crate::utils::hex_digit(((c as u32) / 16) as nat));
        assert(t[i + 5] == crate::utils::hex_digit(((c as u32) % 16) as nat));
        lemma_hex_digit_val(((c as u32) / 16) as nat);
        lemma_hex_digit_val(((c as u32) % 16) as nat);
        assert(hex_val('0') == 0);
        assert(hex4(t, i + 2) == (c as u32) as int);
        assert(((c as u32) as int) < 0x20);
        assert((((c as u32)) as char) == c);
    } else {
        assert(t[i + 0] == c);
    }
}

/// Escaping and then decoding a text yields the text back: the quoted
/// rendering loses nothing.
pub proof fn lemma_escape_round_trip(s: Seq<char>)
    ensures
        unescape_seq(escape_seq(s)) == Some(s),
{
    lemma_escape_round_trip_from(s, escape_seq(s), 0);
    assert(escape_seq(s).subrange(0, escape_seq(s).len() as int) =~= escape_seq(s));
}

proof fn lemma_escape_round_trip_from(s: Seq<char>, t: Seq<char>, i: int)
    requires
        0 <= i <= t.len(),
        t.subrange(i, t.len() as int) == escape_seq(s),
    ensures
        unescape_from(t, i) == Some(s),
    decreases s.len(),
{
    if s.len() == 0 {
        assert(escape_seq(s).len() == 0);
        assert(i == t.len());
    } else {
        let c = s[0];
        let u = escape_char(c).len() as int;
        assert(escape_seq(s) == escape_char(c) + escape_seq(s.drop_first()));
        assert forall|d: int| 0 <= d < u implies #[trigger] t[i + d] == escape_char(c)[d] by {
            assert(t.subrange(i, t.len() as int)[d] == escape_seq(s)[d]);
        }
        lemma_unescape_unit(t, i, c);
        assert forall|d: int|
            0 <= d < escape_seq(s.drop_first()).len() implies t.subrange(
            i + u,
            t.len() as int,
        )[d] == escape_seq(s.drop_first())[d] by {
            assert(t.subrange(i, t.len() as int)[u + d] == escape_seq(s)[u + d]);
        }
        assert(t.subrange(i + u, t.len() as int) =~= escape_seq(s.drop_first()));
        lemma_escape_round_trip_from(s.drop_first(), t, i + u);
        assert(seq![c] + s.drop_first() =~= s);
    }
}

} // verus!
