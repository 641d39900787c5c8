//! Identifier synthesis: the pure mapping from literal text to a stable,
//! readable localization key, plus the accessor expression built around a key
//! and a small error-message helper.
//!
//! The model mirrors the documented algorithm: every character contributes a
//! chunk to a space-separated stream (punctuation is spelled out, unknown
//! characters become a hex token, alphanumerics, spaces and underscores pass
//! through), the stream is split into words, and the words are joined in
//! lower camel case.

use vstd::prelude::*;

use crate::text::alnum_class;
use crate::text::char_from_scalar;
use crate::text::lower_char_spec;
use crate::text::push_lower;
use crate::text::push_str_chars;
use crate::text::push_upper;
use crate::text::upper_char_spec;
use vstd::string::StringExecFns;

verus! {

/// The punctuation characters that are spelled out by name.
pub open spec fn is_table_char(c: char) -> bool {
    ||| c == '*'
    ||| c == '\''
    ||| c == '-'
    ||| c == '!'
    ||| c == '?'
    ||| c == '.'
    ||| c == ','
    ||| c == ':'
    ||| c == ';'
    ||| c == '('
    ||| c == ')'
    ||| c == '['
    ||| c == ']'
    ||| c == '{'
    ||| c == '}'
    ||| c == '<'
    ||| c == '>'
    ||| c == '/'
    ||| c == '\\'
    ||| c == '|'
    ||| c == '#'
    ||| c == '@'
    ||| c == '&'
    ||| c == '%'
    ||| c == '$'
    ||| c == '^'
    ||| c == '+'
    ||| c == '='
    ||| c == '~'
    ||| c == '`'
    ||| c == '"'
}

/// The spelled-out name of a punctuation character, as a space-delimited
/// stream chunk.
pub open spec fn table_stream(c: char) -> Seq<char> {
    if c == '*' {
        " asterix "@
    } else if c == '\'' {
        " apostrophe "@
    } else if c == '-' {
        " hyphen "@
    } else if c == '!' {
        " exclamation mark "@
    } else if c == '?' {
        " question mark "@
    } else if c == '.' {
        " period "@
    } else if c == ',' {
        " comma "@
    } else if c == ':' {
        " colon "@
    } else if c == ';' {
        " semicolon "@
    } else if c == '(' {
        " open parenthesis "@
    } else if c == ')' {
        " close parenthesis "@
    } else if c == '[' {
        " open bracket "@
    } else if c == ']' {
        " close bracket "@
    } else if c == '{' {
        " open brace "@
    } else if c == '}' {
        " close brace "@
    } else if c == '<' {
        " less than "@
    } else if c == '>' {
        " greater than "@
    } else if c == '/' {
        " forward slash "@
    } else if c == '\\' {
        " backslash "@
    } else if c == '|' {
        " pipe "@
    } else if c == '#' {
        " hash "@
    } else if c == '@' {
        " at "@
    } else if c == '&' {
        " ampersand "@
    } else if c == '%' {
        " percent "@
    } else if c == '$' {
        " dollar "@
    } else if c == '^' {
        " caret "@
    } else if c == '+' {
        " plus "@
    } else if c == '=' {
        " equals "@
    } else if c == '~' {
        " tilde "@
    } else if c == '`' {
        " backtick "@
    } else if c == '"' {
        " double quote "@
    } else {
        Seq::<char>::empty()
    }
}

/// One lowercase hexadecimal digit.
pub open spec fn hex_digit(d: nat) -> char {
    if d < 10 {
        (('0' as u32) + d) as char
    } else {
        (('a' as u32) + d - 10) as char
    }
}

/// The lowercase hexadecimal rendering of `n`, most significant digit first.
pub open spec fn hex_seq(n: nat) -> Seq<char>
    decreases n,
{
    if n < 16 {
        seq![hex_digit(n)]
    } else {
        hex_seq(n / 16) + seq![hex_digit(n % 16)]
    }
}

/// The stream chunk contributed by one character of the literal text.
pub open spec fn char_stream(c: char) -> Seq<char> {
    if is_table_char(c) {
        table_stream(c)
    } else if alnum_class(c) || c == ' ' || c == '_' {
        seq![c]
    } else {
        " char_"@ + hex_seq(c as u32 as nat) + seq![' ']
    }
}

/// The whole space-delimited stream of a literal text.
pub open spec fn stream_of(s: Seq<char>) -> Seq<char>
    decreases s.len(),
{
    if s.len() == 0 {
        Seq::<char>::empty()
    } else {
        char_stream(s[0]) + stream_of(s.drop_first())
    }
}

/// The longest space-free prefix of `s`.
pub open spec fn take_word(s: Seq<char>) -> Seq<char>
    decreases s.len(),
{
    if s.len() == 0 || s[0] == ' ' {
        Seq::<char>::empty()
    } else {
        seq![s[0]] + take_word(s.drop_first())
    }
}

/// The words of a stream: maximal space-free runs, empties dropped.
pub open spec fn words_of(s: Seq<char>) -> Seq<Seq<char>>
    decreases s.len(),
    via words_of_decreases
{
    if s.len() == 0 {
        Seq::<Seq<char>>::empty()
    } else if s[0] == ' ' {
        words_of(s.drop_first())
    } else {
        seq![take_word(s)] + words_of(s.skip(take_word(s).len() as int))
    }
}

proof fn lemma_take_word_len(s: Seq<char>)
    requires
        s.len() > 0,
        s[0] != ' ',
    ensures
        1 <= take_word(s).len() <= s.len(),
    decreases s.len(),
{
    if s.len() > 1 && s[1] != ' ' {
        lemma_take_word_len(s.drop_first());
    } else {
        assert(s.len() == 1 || s.drop_first()[0] == ' ');
        assert(take_word(s.drop_first()) =~= Seq::<char>::empty());
    }
}

#[via_fn]
proof fn words_of_decreases(s: Seq<char>) {
    if s.len() != 0 && s[0] != ' ' {
        lemma_take_word_len(s);
    }
}

/// A word mapped to lowercase, character by character.
pub open spec fn lower_word(w: Seq<char>) -> Seq<char>
    decreases w.len(),
{
    if w.len() == 0 {
        Seq::<char>::empty()
    } else {
        lower_char_spec(w[0]) + lower_word(w.drop_first())
    }
}

/// A word with its first character uppercased and the rest lowercased.
pub open spec fn cap_word(w: Seq<char>) -> Seq<char> {
    if w.len() == 0 {
        Seq::<char>::empty()
    } else {
        upper_char_spec(w[0]) + lower_word(w.drop_first())
    }
}

/// The capitalized continuation words of a camel-case join.
pub open spec fn camel_rest(ws: Seq<Seq<char>>) -> Seq<char>
    decreases ws.len(),
{
    if ws.len() == 0 {
        Seq::<char>::empty()
    } else {
        cap_word(ws[0]) + camel_rest(ws.drop_first())
    }
}

/// The lower-camel-case join of a word sequence.
pub open spec fn camel_of(ws: Seq<Seq<char>>) -> Seq<char> {
    if ws.len() == 0 {
        Seq::<char>::empty()
    } else {
        lower_word(ws[0]) + camel_rest(ws.drop_first())
    }
}

/// The localization key synthesized from a literal text.  Deterministic: it
/// is a function of the text alone.
pub open spec fn key_of(s: Seq<char>) -> Seq<char> {
    camel_of(words_of(stream_of(s)))
}

proof fn lemma_stream_snoc(s: Seq<char>, c: char)
    ensures
        stream_of(s.push(c)) == stream_of(s) + char_stream(c),
    decreases s.len(),
{
    if s.len() == 0 {
        assert(s.push(c)[0] == c);
        assert(s.push(c).drop_first() =~= Seq::<char>::empty());
        assert(stream_of(s.push(c).drop_first()) =~= Seq::<char>::empty());
        assert(stream_of(s.push(c)) =~= stream_of(s) + char_stream(c));
    } else {
        assert(s.push(c)[0] == s[0]);
        assert(s.push(c).drop_first() =~= s.drop_first().push(c));
        lemma_stream_snoc(s.drop_first(), c);
        assert(stream_of(s.push(c)) == char_stream(s[0]) + stream_of(s.drop_first().push(c)));
        assert(stream_of(s.push(c)) =~= stream_of(s) + char_stream(c));
    }
}

proof fn lemma_lower_word_snoc(w: Seq<char>, c: char)
    ensures
        lower_word(w.push(c)) == lower_word(w) + lower_char_spec(c),
    decreases w.len(),
{
    if w.len() == 0 {
        assert(w.push(c)[0] == c);
        assert(w.push(c).drop_first() =~= Seq::<char>::empty());
        assert(lower_word(w.push(c).drop_first()) =~= Seq::<char>::empty());
        assert(lower_word(w.push(c)) =~= lower_word(w) + lower_char_spec(c));
    } else {
        assert(w.push(c)[0] == w[0]);
        assert(w.push(c).drop_first() =~= w.drop_first().push(c));
        lemma_lower_word_snoc(w.drop_first(), c);
        assert(lower_word(w.push(c)) == lower_char_spec(w[0]) + lower_word(w.drop_first().push(c)));
        assert(lower_word(w.push(c)) =~= lower_word(w) + lower_char_spec(c));
    }
}

proof fn lemma_camel_rest_snoc(ws: Seq<Seq<char>>, w: Seq<char>)
    ensures
        camel_rest(ws.push(w)) == camel_rest(ws) + cap_word(w),
    decreases ws.len(),
{
    if ws.len() == 0 {
        assert(ws.push(w)[0] == w);
        assert(ws.push(w).drop_first() =~= Seq::<Seq<char>>::empty());
        assert(camel_rest(ws.push(w).drop_first()) =~= Seq::<char>::empty());
        assert(camel_rest(ws.push(w)) =~= camel_rest(ws) + cap_word(w));
    } else {
        assert(ws.push(w)[0] == ws[0]);
        assert(ws.push(w).drop_first() =~= ws.drop_first().push(w));
        lemma_camel_rest_snoc(ws.drop_first(), w);
        assert(camel_rest(ws.push(w)) == cap_word(ws[0]) + camel_rest(ws.drop_first().push(w)));
        assert(camel_rest(ws.push(w)) =~= camel_rest(ws) + cap_word(w));
    }
}

/// Whether `c` is in the spelled-out punctuation table.
fn is_table(c: char) -> (r: bool)
    ensures
        r == is_table_char(c),
{
    match c {
        '*' | '\'' | '-' | '!' | '?' | '.' | ',' | ':' | ';' | '(' | ')' | '[' | ']' | '{'
            | '}' | '<' | '>' | '/' | '\\' | '|' | '#' | '@' | '&' | '%' | '$' | '^' | '+' | '='
            | '~' | '`' | '"' => true,
        _ => false,
    }
}

/// Appends the spelled-out name of a punctuation character to the stream.
fn push_table(st: &mut Vec<char>, c: char)
    requires
        is_table_char(c),
    ensures
        final(st)@ == old(st)@ + table_stream(c),
{
    match c {
        '*' => push_str_chars(st, " asterix "),
        '\'' => push_str_chars(st, " apostrophe "),
        '-' => push_str_chars(st, " hyphen "),
        '!' => push_str_chars(st, " exclamation mark "),
        '?' => push_str_chars(st, " question mark "),
        '.' => push_str_chars(st, " period "),
        ',' => push_str_chars(st, " comma "),
        ':' => push_str_chars(st, " colon "),
        ';' => push_str_chars(st, " semicolon "),
        '(' => push_str_chars(st, " open parenthesis "),
        ')' => push_str_chars(st, " close parenthesis "),
        '[' => push_str_chars(st, " open bracket "),
        ']' => push_str_chars(st, " close bracket "),
        '{' => push_str_chars(st, " open brace "),
        '}' => push_str_chars(st, " close brace "),
        '<' => push_str_chars(st, " less than "),
        '>' => push_str_chars(st, " greater than "),
        '/' => push_str_chars(st, " forward slash "),
        '\\' => push_str_chars(st, " backslash "),
        '|' => push_str_chars(st, " pipe "),
        '#' => push_str_chars(st, " hash "),
        '@' => push_str_chars(st, " at "),
        '&' => push_str_chars(st, " ampersand "),
        '%' => push_str_chars(st, " percent "),
        '$' => push_str_chars(st, " dollar "),
        '^' => push_str_chars(st, " caret "),
        '+' => push_str_chars(st, " plus "),
        '=' => push_str_chars(st, " equals "),
        '~' => push_str_chars(st, " tilde "),
        '`' => push_str_chars(st, " backtick "),
        '"' => push_str_chars(st, " double quote "),
        _ => assert(false),
    }
}

/// One lowercase hexadecimal digit as a character.
fn hex_digit_char(d: u32) -> (c: char)
    requires
        d < 16,
    ensures
        c == hex_digit(d as nat),
{
    if d < 10 {
        char_from_scalar(48 + d)
    } else {
        char_from_scalar(87 + d)
    }
}

/// Appends the lowercase hexadecimal rendering of `n` to the stream.
fn push_hex(st: &mut Vec<char>, n: u32)
    ensures
        final(st)@ == old(st)@ + hex_seq(n as nat),
    decreases n,
{
    if n < 16 {
        let c = hex_digit_char(n);
        st.push(c);
        assert(st@ =~= old(st)@ + hex_seq(n as nat));
    } else {
        push_hex(st, n / 16);
        let c = hex_digit_char(n % 16);
        st.push(c);
        assert(st@ =~= old(st)@ + hex_seq(n as nat));
    }
}

/// Appends the stream chunk of one literal character.
fn push_char_stream(st: &mut Vec<char>, c: char)
    ensures
        final(st)@ == old(st)@ + char_stream(c),
{
    if is_table(c) {
        push_table(st, c);
    } else if c.is_alphanumeric() || c == ' ' || c == '_' {
        st.push(c);
        assert(st@ =~= old(st)@ + char_stream(c));
    } else {
        push_str_chars(st, " char_");
        push_hex(st, c as u32);
        st.push(' ');
        assert(st@ =~= old(st)@ + char_stream(c));
    }
}

/// The views of a sequence of character vectors.
pub open spec fn views_of(ws: Seq<Vec<char>>) -> Seq<Seq<char>> {
    ws.map_values(|w: Vec<char>| w@)
}

/// Splits a stream into its words.
fn split_words(st: &Vec<char>) -> (ws: Vec<Vec<char>>)
    ensures
        views_of(ws@) == words_of(st@),
{
    let mut ws: Vec<Vec<char>> = Vec::new();
    let mut i: usize = 0;
    proof {
        assert(st@.skip(0) =~= st@);
        assert(views_of(ws@) =~= Seq::<Seq<char>>::empty());
        assert(views_of(ws@) + words_of(st@.skip(0)) =~= words_of(st@));
    }
    while i < st.len()
        invariant
            i <= st@.len(),
            views_of(ws@) + words_of(st@.skip(i as int)) == words_of(st@),
        decreases st@.len() - i,
    {
        if st[i] == ' ' {
            proof {
                assert(st@.skip(i as int).drop_first() =~= st@.skip(i as int + 1));
            }
            i = i + 1;
        } else {
            let ghost start = i as int;
            let ghost wfull = take_word(st@.skip(start));
            proof {
                lemma_take_word_len(st@.skip(start));
            }
            let mut w: Vec<char> = Vec::new();
            while i < st.len() && st[i] != ' '
                invariant
                    start <= i as int <= st@.len(),
                    i as int == start + w@.len(),
                    wfull == take_word(st@.skip(start)),
                    wfull =~= w@ + take_word(st@.skip(i as int)),
                decreases st@.len() - i,
            {
                proof {
                    assert(st@.skip(i as int).drop_first() =~= st@.skip(i as int + 1));
                    assert(take_word(st@.skip(i as int)) == seq![st@[i as int]] + take_word(
                        st@.skip(i as int + 1),
                    ));
                }
                w.push(st[i]);
                i = i + 1;
            }
            proof {
                assert(take_word(st@.skip(i as int)) =~= Seq::<char>::empty());
                assert(w@ =~= wfull);
                assert(i as int == start + wfull.len());
                assert(st@.skip(start).skip(wfull.len() as int) =~= st@.skip(i as int));
                assert(words_of(st@.skip(start)) == seq![wfull] + words_of(st@.skip(i as int)));
            }
            ws.push(w);
            proof {
                assert(views_of(ws@) =~= views_of(ws@.drop_last()) + seq![wfull]);
                assert(views_of(ws@) + words_of(st@.skip(i as int)) =~= words_of(st@));
            }
        }
    }
    proof {
        assert(words_of(st@.skip(i as int)) =~= Seq::<Seq<char>>::empty());
        assert(views_of(ws@) =~= words_of(st@));
    }
    ws
}

/// Joins words in lower camel case: the first word lowercased, every later
/// word capitalized.
fn camel_join(ws: &Vec<Vec<char>>) -> (out: Vec<char>)
    ensures
        out@ == camel_of(views_of(ws@)),
{
    let mut out: Vec<char> = Vec::new();
    let mut k: usize = 0;
    while k < ws.len()
        invariant
            k <= ws@.len(),
            out@ == if k == 0 {
                Seq::<char>::empty()
            } else {
                (lower_word(views_of(ws@)[0]) + camel_rest(views_of(ws@).subrange(1, k as int)))
            },
        decreases ws@.len() - k,
    {
        let w = &ws[k];
        let ghost wv = w@;
        let ghost before = out@;
        let mut j: usize = 0;
        if k == 0 {
            while j < w.len()
                invariant
                    j <= wv.len(),
                    wv == w@,
                    out@ == before + lower_word(wv.subrange(0, j as int)),
                decreases wv.len() - j,
            {
                proof {
                    lemma_lower_word_snoc(wv.subrange(0, j as int), wv[j as int]);
                    assert(wv.subrange(0, j as int).push(wv[j as int]) =~= wv.subrange(
                        0,
                        j as int + 1,
                    ));
                }
                push_lower(&mut out, w[j]);
                j = j + 1;
            }
            proof {
                assert(wv.subrange(0, wv.len() as int) =~= wv);
            }
        } else {
            if w.len() > 0 {
                push_upper(&mut out, w[0]);
                j = 1;
            }
            while j < w.len()
                invariant
                    wv == w@,
                    out@ == if wv.len() == 0 {
                        before
                    } else {
                        (before + upper_char_spec(wv[0]) + lower_word(
                            wv.subrange(1, j as int),
                        ))
                    },
                    wv.len() == 0 ==> j == 0,
                    wv.len() > 0 ==> 1 <= j as int <= wv.len(),
                decreases wv.len() - j,
            {
                proof {
                    lemma_lower_word_snoc(wv.subrange(1, j as int), wv[j as int]);
                    assert(wv.subrange(1, j as int).push(wv[j as int]) =~= wv.subrange(
                        1,
                        j as int + 1,
                    ));
                }
                push_lower(&mut out, w[j]);
                j = j + 1;
            }
            proof {
                if wv.len() == 0 {
                    assert(cap_word(wv) =~= Seq::<char>::empty());
                    assert(out@ =~= before + cap_word(wv));
                } else {
                    assert(wv.subrange(1, wv.len() as int) =~= wv.drop_first());
                    assert(out@ =~= before + cap_word(wv));
                }
            }
        }
        k = k + 1;
        proof {
            assert(views_of(ws@)[k - 1] == wv);
            if k - 1 == 0 {
                assert(views_of(ws@).subrange(1, 1) =~= Seq::<Seq<char>>::empty());
                assert(camel_rest(views_of(ws@).subrange(1, 1)) =~= Seq::<char>::empty());
                assert(out@ =~= lower_word(views_of(ws@)[0]) + camel_rest(
                    views_of(ws@).subrange(1, k as int),
                ));
            } else {
                lemma_camel_rest_snoc(views_of(ws@).subrange(1, k - 1), wv);
                assert(views_of(ws@).subrange(1, k - 1).push(wv) =~= views_of(ws@).subrange(
                    1,
                    k as int,
                ));
                assert(out@ =~= lower_word(views_of(ws@)[0]) + camel_rest(
                    views_of(ws@).subrange(1, k as int),
                ));
            }
        }
    }
    proof {
        if ws@.len() == 0 {
            assert(out@ =~= camel_of(views_of(ws@)));
        } else {
            assert(views_of(ws@).subrange(1, ws@.len() as int) =~= views_of(ws@).drop_first());
            assert(out@ =~= camel_of(views_of(ws@)));
        }
    }
    out
}

/// Synthesizes the deterministic localization key of a literal text.  The
/// same text always yields the same key; distinct texts may collide only
/// when their word streams coincide.
pub fn id_string(s: &str) -> (r: String)
    ensures
        r@ == key_of(s@),
{
    let v = crate::text::chars_of(s);
    let mut st: Vec<char> = Vec::new();
    let mut i: usize = 0;
    while i < v.len()
        invariant
            i <= v@.len(),
            v@ == s@,
            st@ == stream_of(v@.subrange(0, i as int)),
        decreases v@.len() - i,
    {
        proof {
            lemma_stream_snoc(v@.subrange(0, i as int), v@[i as int]);
            assert(v@.subrange(0, i as int).push(v@[i as int]) =~= v@.subrange(0, i as int + 1));
        }
        push_char_stream(&mut st, v[i]);
        i = i + 1;
    }
    proof {
        assert(v@.subrange(0, v@.len() as int) =~= v@);
    }
    let ws = split_words(&st);
    let key = camel_join(&ws);
    crate::text::string_of(&key)
}


/// The fixed accessor prefix written in front of a generated key.
pub open spec fn accessor_prefix() -> Seq<char> {
    "AppLocalizations.of(context)!."@
}

/// The accessor expression generated for a key.
pub open spec fn accessor_of(key: Seq<char>) -> Seq<char> {
    accessor_prefix() + key
}

/// Builds the accessor expression that references a localization key.
pub fn localization_getter(n: &String) -> (r: String)
    ensures
        r@ == accessor_of(n@),
{
    let mut r = String::from_str("AppLocalizations.of(context)!.");
    r.append(n.as_str());
    r
}

/// Prefixes a failed computation's error with a description; successes pass
/// through untouched.
pub fn stringe<T>(msg: &str, val: Result<T, String>) -> (r: Result<T, String>)
    ensures
        match val {
            Ok(t) => r matches Ok(rt) && rt == t,
            Err(e) => r matches Err(m) && m@ == msg@ + ": "@ + e@,
        },
{
    match val {
        Ok(t) => Ok(t),
        Err(e) => {
            let mut m = String::from_str(msg);
            m.append(": ");
            m.append(e.as_str());
            Err(m)
        },
    }
}

/// Key synthesis is deterministic and pure: the key is a function of the
/// literal text alone, independent of any surrounding content.  Two runs on
/// equal texts always agree.
pub proof fn lemma_synthesize_deterministic(a: Seq<char>, b: Seq<char>)
    requires
        a == b,
    ensures
        key_of(a) == key_of(b),
{
}

/// Texts whose word streams coincide collide to the same key; in particular
/// byte-identical texts always do.
pub proof fn lemma_collision_from_same_words(a: Seq<char>, b: Seq<char>)
    requires
        words_of(stream_of(a)) == words_of(stream_of(b)),
    ensures
        key_of(a) == key_of(b),
{
}

} // verus!
