//! Extraction of marked literals from source content: scanning for the
//! `_"..."` convention, decoding each literal, synthesizing its key, and
//! rewriting the matched span into the accessor expression.
//!
//! The scan is lexical: a match is an underscore immediately followed by a
//! double-quoted literal whose escaped quotes are respected.  A literal that
//! never closes is no match; one whose body does not decode, or whose key
//! comes out empty, is skipped and left in place.  Within one content, a key
//! seen twice keeps the first literal's text.

use vstd::prelude::*;

use crate::quoted::unescape_chars;
use crate::quoted::unescape_seq;
use crate::text::chars_of;
use crate::text::copy_range;
use crate::text::push_range;
use crate::text::push_str_chars;
use crate::text::str_eq;
use crate::text::string_of;
use crate::utils::accessor_of;
use crate::utils::accessor_prefix;
use crate::utils::id_string;
use crate::utils::key_of;
use crate::utils::localization_getter;
use crate::arb::ArbValue;
use crate::arb::Catalog;
use crate::arb::Entry;
use crate::arb::Metadata;
use crate::arb::Placeholder;
use crate::arb::meta_key_exec;
use crate::arb::meta_key_of;
use crate::project::Project;
use crate::project::import_dir_of;
use crate::text::alnum_class;
use vstd::string::StringExecFns;

verus! {

/// Position just after the closing quote of a literal body starting at `i`
/// (just after the opening quote): a backslash escapes the next character,
/// the first unescaped quote closes; `None` when the literal never closes.
pub open spec fn scan_end(s: Seq<char>, i: int) -> Option<int>
    decreases s.len() - i,
    when 0 <= i <= s.len()
{
    if i >= s.len() {
        None
    } else if s[i] == '"' {
        Some(i + 1)
    } else if s[i] == '\\' && i + 1 < s.len() {
        scan_end(s, i + 2)
    } else {
        scan_end(s, i + 1)
    }
}

pub proof fn lemma_scan_end_bounds(s: Seq<char>, i: int)
    requires
        0 <= i <= s.len(),
        scan_end(s, i) is Some,
    ensures
        i < scan_end(s, i)->0 <= s.len(),
    decreases s.len() - i,
{
    if i >= s.len() {
    } else if s[i] == '"' {
    } else if s[i] == '\\' && i + 1 < s.len() {
        lemma_scan_end_bounds(s, i + 2);
    } else {
        lemma_scan_end_bounds(s, i + 1);
    }
}

/// The end of the marked-literal span starting at `p`, when `p` starts one:
/// an underscore, an opening quote, and a body that closes.
pub open spec fn match_at(s: Seq<char>, p: int) -> Option<int> {
    if 0 <= p && p + 1 < s.len() && s[p] == '_' && s[p + 1] == '"' {
        scan_end(s, p + 2)
    } else {
        None
    }
}

/// The leftmost marked-literal span at or after `i`: its start and end.
pub open spec fn find_match(s: Seq<char>, i: int) -> Option<(int, int)>
    decreases s.len() - i,
    when 0 <= i <= s.len()
{
    if i >= s.len() {
        None
    } else if match_at(s, i) is Some {
        Some((i, match_at(s, i)->0))
    } else {
        find_match(s, i + 1)
    }
}

pub proof fn lemma_match_at_bounds(s: Seq<char>, p: int)
    requires
        match_at(s, p) is Some,
    ensures
        0 <= p,
        p + 3 <= match_at(s, p)->0 <= s.len(),
{
    lemma_scan_end_bounds(s, p + 2);
}

pub proof fn lemma_find_match_some(s: Seq<char>, i: int)
    requires
        0 <= i <= s.len(),
        find_match(s, i) is Some,
    ensures
        find_match(s, i) matches Some(pe) ==> {
            &&& i <= pe.0
            &&& match_at(s, pe.0) == Some(pe.1)
            &&& i < pe.1
            &&& pe.0 + 3 <= pe.1 <= s.len()
            &&& forall|j: int| i <= j < pe.0 ==> match_at(s, j) is None
        },
    decreases s.len() - i,
{
    if i >= s.len() {
    } else if match_at(s, i) is Some {
        lemma_match_at_bounds(s, i);
    } else {
        lemma_find_match_some(s, i + 1);
    }
}

pub proof fn lemma_find_match_none(s: Seq<char>, i: int)
    requires
        0 <= i <= s.len(),
        find_match(s, i) is None,
    ensures
        forall|j: int| i <= j ==> match_at(s, j) is None,
    decreases s.len() - i,
{
    if i >= s.len() {
        assert forall|j: int| i <= j implies match_at(s, j) is None by {
            if j + 1 < s.len() {
            }
        }
    } else if match_at(s, i) is Some {
    } else {
        lemma_find_match_none(s, i + 1);
    }
}

/// A usable synthesized key: nonempty, and no metadata key.
pub open spec fn key_valid(k: Seq<char>) -> bool {
    k.len() > 0 && k[0] != '@'
}

/// What one matched span yields: the synthesized key and the decoded text,
/// or nothing when the body does not decode or the key comes out unusable.
pub open spec fn match_entry(s: Seq<char>, p: int, e: int) -> Option<(Seq<char>, Seq<char>)> {
    match unescape_seq(s.subrange(p + 2, e - 1)) {
        Some(txt) => if !key_valid(key_of(txt)) {
            None
        } else {
            Some((key_of(txt), txt))
        },
        None => None,
    }
}

/// The rewritten content from position `i` on: every yielding span becomes
/// the accessor expression of its key, everything else is copied through.
pub open spec fn rewrite_from(s: Seq<char>, i: int) -> Seq<char>
    decreases s.len() - i,
    when 0 <= i <= s.len()
    via rewrite_from_decreases
{
    match find_match(s, i) {
        None => s.subrange(i, s.len() as int),
        Some((p, e)) => match match_entry(s, p, e) {
            None => s.subrange(i, e) + rewrite_from(s, e),
            Some((k, txt)) => s.subrange(i, p) + accessor_of(k) + rewrite_from(s, e),
        },
    }
}

#[via_fn]
proof fn rewrite_from_decreases(s: Seq<char>, i: int) {
    if find_match(s, i) is Some {
        lemma_find_match_some(s, i);
    }
}

/// The rewritten content of a whole source text.
pub open spec fn rewrite_of(s: Seq<char>) -> Seq<char> {
    rewrite_from(s, 0)
}

/// The new (key, text) pairs from position `i` on, skipping keys already in
/// `seen`: a key met twice keeps the first literal's text.
pub open spec fn entries_from(s: Seq<char>, i: int, seen: Seq<Seq<char>>) -> Seq<
    (Seq<char>, Seq<char>),
>
    decreases s.len() - i,
    when 0 <= i <= s.len()
    via entries_from_decreases
{
    match find_match(s, i) {
        None => Seq::empty(),
        Some((p, e)) => match match_entry(s, p, e) {
            None => entries_from(s, e, seen),
            Some((k, txt)) => if seen.contains(k) {
                entries_from(s, e, seen)
            } else {
                seq![(k, txt)] + entries_from(s, e, seen.push(k))
            },
        },
    }
}

#[via_fn]
proof fn entries_from_decreases(s: Seq<char>, i: int, seen: Seq<Seq<char>>) {
    if find_match(s, i) is Some {
        lemma_find_match_some(s, i);
    }
}

/// The ordered new-entry map of a whole source text.
pub open spec fn entries_of(s: Seq<char>) -> Seq<(Seq<char>, Seq<char>)> {
    entries_from(s, 0, Seq::empty())
}

/// The number of marked-literal spans from `i` on.
pub open spec fn match_count(s: Seq<char>, i: int) -> nat
    decreases s.len() - i,
    when 0 <= i <= s.len()
    via match_count_decreases
{
    match find_match(s, i) {
        None => 0,
        Some((p, e)) => 1 + match_count(s, e),
    }
}

#[via_fn]
proof fn match_count_decreases(s: Seq<char>, i: int) {
    if find_match(s, i) is Some {
        lemma_find_match_some(s, i);
    }
}

/// The number of spans actually rewritten from `i` on.
pub open spec fn rewrite_count(s: Seq<char>, i: int) -> nat
    decreases s.len() - i,
    when 0 <= i <= s.len()
    via rewrite_count_decreases
{
    match find_match(s, i) {
        None => 0,
        Some((p, e)) => match match_entry(s, p, e) {
            None => rewrite_count(s, e),
            Some(_) => 1 + rewrite_count(s, e),
        },
    }
}

#[via_fn]
proof fn rewrite_count_decreases(s: Seq<char>, i: int) {
    if find_match(s, i) is Some {
        lemma_find_match_some(s, i);
    }
}

/// At most one new entry comes out of each rewritten span, and each span
/// rewritten is a marked literal: the entry map is never larger than the
/// rewrite count, which is never larger than the match count.
pub proof fn lemma_entry_counts(s: Seq<char>, i: int, seen: Seq<Seq<char>>)
    requires
        0 <= i <= s.len(),
    ensures
        entries_from(s, i, seen).len() <= rewrite_count(s, i) <= match_count(s, i),
    decreases s.len() - i,
{
    match find_match(s, i) {
        None => {
        },
        Some((p, e)) => {
            lemma_find_match_some(s, i);
            match match_entry(s, p, e) {
                None => {
                    lemma_entry_counts(s, e, seen);
                },
                Some((k, txt)) => {
                    if seen.contains(k) {
                        lemma_entry_counts(s, e, seen);
                        lemma_entry_counts(s, e, seen.push(k));
                    } else {
                        lemma_entry_counts(s, e, seen.push(k));
                    }
                },
            }
        },
    }
}

/// A content with no new entries rewrites to itself: extraction without
/// discoveries never touches the text.
pub proof fn lemma_no_entries_identity(s: Seq<char>, i: int)
    requires
        0 <= i <= s.len(),
        entries_from(s, i, Seq::empty()).len() == 0,
    ensures
        rewrite_from(s, i) == s.subrange(i, s.len() as int),
    decreases s.len() - i,
{
    match find_match(s, i) {
        None => {
        },
        Some((p, e)) => {
            lemma_find_match_some(s, i);
            match match_entry(s, p, e) {
                None => {
                    lemma_no_entries_identity(s, e);
                    assert(s.subrange(i, e) + s.subrange(e, s.len() as int) =~= s.subrange(
                        i,
                        s.len() as int,
                    ));
                },
                Some((k, txt)) => {
                    assert(!Seq::<Seq<char>>::empty().contains(k));
                    assert(entries_from(s, i, Seq::empty()).len() > 0);
                },
            }
        },
    }
}

/// Finds the end of the literal body starting at `from`, scanning over
/// escape pairs.
fn scan_end_exec(v: &Vec<char>, from: usize) -> (r: Option<usize>)
    requires
        from <= v@.len(),
    ensures
        r matches Some(e) ==> scan_end(v@, from as int) == Some(e as int) && from < e <= v@.len(),
        r is None ==> scan_end(v@, from as int) is None,
{
    let n = v.len();
    let mut i = from;
    while i < n
        invariant
            from <= i <= n,
            n as int == v@.len(),
            scan_end(v@, from as int) == scan_end(v@, i as int),
        decreases n - i,
    {
        let c = v[i];
        if c == '"' {
            return Some(i + 1);
        } else if c == '\\' && i + 1 < n {
            i = i + 2;
        } else {
            i = i + 1;
        }
    }
    None
}

/// Finds the leftmost marked-literal span at or after `from`.
fn find_match_exec(v: &Vec<char>, from: usize) -> (r: Option<(usize, usize)>)
    requires
        from <= v@.len(),
    ensures
        r matches Some(pe) ==> {
            &&& find_match(v@, from as int) == Some((pe.0 as int, pe.1 as int))
            &&& from <= pe.0
            &&& pe.0 + 3 <= pe.1 <= v@.len()
        },
        r is None ==> find_match(v@, from as int) is None,
{
    let n = v.len();
    let mut i = from;
    while i < n
        invariant
            from <= i <= n,
            n as int == v@.len(),
            find_match(v@, from as int) == find_match(v@, i as int),
        decreases n - i,
    {
        if v[i] == '_' && i + 1 < n && v[i + 1] == '"' {
            match scan_end_exec(v, i + 2) {
                Some(e) => {
                    proof {
                        assert(match_at(v@, i as int) == Some(e as int));
                    }
                    return Some((i, e));
                },
                None => {
                    proof {
                        assert(match_at(v@, i as int) is None);
                    }
                    i = i + 1;
                },
            }
        } else {
            proof {
                assert(match_at(v@, i as int) is None);
            }
            i = i + 1;
        }
    }
    None
}

/// One newly discovered literal: its synthesized key and its decoded text.
#[derive(Debug, Clone, PartialEq, Eq)]
pub struct NewEntry {
    pub key: String,
    pub text: String,
}

/// What extraction returns: the rewritten content, the ordered map of new
/// entries, and whether anything changed (when nothing did, the content is
/// returned untouched and nothing should be written back).
#[derive(Debug)]
pub struct ExtractOutcome {
    pub content: String,
    pub entries: Vec<NewEntry>,
    pub changed: bool,
}

/// The (key, text) views of discovered entries.
pub open spec fn entry_views(es: Seq<NewEntry>) -> Seq<(Seq<char>, Seq<char>)> {
    es.map_values(|e: NewEntry| (e.key@, e.text@))
}

/// The key views of discovered entries.
pub open spec fn entry_keys(es: Seq<NewEntry>) -> Seq<Seq<char>> {
    es.map_values(|e: NewEntry| e.key@)
}

/// Whether an entry with this key was already discovered.
fn entries_contain(entries: &Vec<NewEntry>, key: &str) -> (r: bool)
    ensures
        r == entry_keys(entries@).contains(key@),
{
    let mut i: usize = 0;
    while i < entries.len()
        invariant
            i <= entries@.len(),
            forall|j: int| 0 <= j < i as int ==> entries@[j].key@ != key@,
        decreases entries@.len() - i,
    {
        if str_eq(entries[i].key.as_str(), key) {
            assert(entry_keys(entries@)[i as int] == key@);
            return true;
        }
        i = i + 1;
    }
    proof {
        assert(forall|j: int|
            0 <= j < entry_keys(entries@).len() ==> entry_keys(entries@)[j] != key@);
    }
    false
}

/// Scans `content` for marked literals, rewrites each decodable one into the
/// accessor expression of its synthesized key, and reports the new (key,
/// text) pairs in first-seen order, one per distinct key.  Content without
/// discoveries is returned unchanged, and `changed` says so.
pub fn extract(content: &str) -> (r: ExtractOutcome)
    ensures
        r.content@ == rewrite_of(content@),
        entry_views(r.entries@) == entries_of(content@),
        r.changed == (entries_of(content@).len() > 0),
        !r.changed ==> r.content@ == content@,
{
    let v = chars_of(content);
    let n = v.len();
    let mut out: Vec<char> = Vec::new();
    let mut entries: Vec<NewEntry> = Vec::new();
    let mut i: usize = 0;
    proof {
        assert(out@ + rewrite_from(v@, 0) =~= rewrite_from(v@, 0));
        assert(entry_views(entries@) =~= Seq::<(Seq<char>, Seq<char>)>::empty());
        assert(entry_keys(entries@) =~= Seq::<Seq<char>>::empty());
        assert(entry_views(entries@) + entries_from(v@, 0, entry_keys(entries@)) =~= entries_of(
            v@,
        ));
    }
    while i < n
        invariant
            i <= n,
            n as int == v@.len(),
            v@ == content@,
            rewrite_of(v@) == out@ + rewrite_from(v@, i as int),
            entries_of(v@) == entry_views(entries@) + entries_from(
                v@,
                i as int,
                entry_keys(entries@),
            ),
        decreases n - i,
    {
        let ghost seen = entry_keys(entries@);
        match find_match_exec(&v, i) {
            None => {
                proof {
                    assert(rewrite_from(v@, i as int) == v@.subrange(i as int, n as int));
                    assert(entries_from(v@, i as int, seen) =~= Seq::<
                        (Seq<char>, Seq<char>),
                    >::empty());
                    assert(entry_views(entries@) + entries_from(v@, i as int, seen) =~= entry_views(
                        entries@,
                    ));
                }
                push_range(&mut out, &v, i, n);
                i = n;
                proof {
                    assert(rewrite_from(v@, n as int) =~= Seq::<char>::empty());
                    assert(out@ + rewrite_from(v@, n as int) =~= out@);
                    assert(entries_from(v@, n as int, entry_keys(entries@)) =~= Seq::<
                        (Seq<char>, Seq<char>),
                    >::empty());
                    assert(entry_views(entries@) + entries_from(v@, n as int, entry_keys(entries@))
                        =~= entry_views(entries@));
                }
            },
            Some((p, e)) => {
                let inner = copy_range(&v, p + 2, e - 1);
                let decoded = unescape_chars(&inner);
                let mut skip = true;
                let mut key = String::new();
                let mut txt_s = String::new();
                match decoded {
                    Some(txt) => {
                        txt_s = string_of(&txt);
                        key = id_string(txt_s.as_str());
                        let kv = chars_of(key.as_str());
                        if kv.len() > 0 && kv[0] != '@' {
                            skip = false;
                        }
                    },
                    None => {
                    },
                }
                if skip {
                    proof {
                        assert(match_entry(v@, p as int, e as int) is None);
                        assert(rewrite_from(v@, i as int) == v@.subrange(i as int, e as int)
                            + rewrite_from(v@, e as int));
                        assert(out@ + rewrite_from(v@, i as int) =~= (out@ + v@.subrange(
                            i as int,
                            e as int,
                        )) + rewrite_from(v@, e as int));
                        assert(entries_from(v@, i as int, seen) == entries_from(
                            v@,
                            e as int,
                            seen,
                        ));
                    }
                    push_range(&mut out, &v, i, e);
                    i = e;
                } else {
                    let ghost kk = key@;
                    let ghost tt = txt_s@;
                    proof {
                        assert(match_entry(v@, p as int, e as int) == Some((kk, tt)));
                        assert(rewrite_from(v@, i as int) == v@.subrange(i as int, p as int)
                            + accessor_of(kk) + rewrite_from(v@, e as int));
                    }
                    push_range(&mut out, &v, i, p);
                    let acc = localization_getter(&key);
                    push_str_chars(&mut out, acc.as_str());
                    proof {
                        assert(out@ + rewrite_from(v@, e as int) =~= rewrite_of(v@));
                    }
                    if !entries_contain(&entries, key.as_str()) {
                        proof {
                            assert(entries_from(v@, i as int, seen) == seq![(kk, tt)]
                                + entries_from(v@, e as int, seen.push(kk)));
                        }
                        entries.push(NewEntry { key, text: txt_s });
                        proof {
                            assert(entry_views(entries@) =~= entry_views(entries@.drop_last())
                                + seq![(kk, tt)]);
                            assert(entry_keys(entries@) =~= seen.push(kk));
                            assert(entry_views(entries@) + entries_from(
                                v@,
                                e as int,
                                entry_keys(entries@),
                            ) =~= entries_of(v@));
                        }
                    } else {
                        proof {
                            assert(entries_from(v@, i as int, seen) == entries_from(
                                v@,
                                e as int,
                                seen,
                            ));
                        }
                    }
                    i = e;
                }
            },
        }
    }
    proof {
        assert(rewrite_from(v@, n as int) =~= Seq::<char>::empty());
        assert(out@ =~= rewrite_of(v@));
        assert(entries_from(v@, n as int, entry_keys(entries@)) =~= Seq::<
            (Seq<char>, Seq<char>),
        >::empty());
        assert(entry_views(entries@) =~= entries_of(v@));
    }
    let changed = entries.len() > 0;
    proof {
        if !changed {
            assert(entries_of(v@).len() == 0);
            lemma_no_entries_identity(v@, 0);
            assert(rewrite_of(v@) =~= v@);
        }
    }
    let content_out = string_of(&out);
    ExtractOutcome { content: content_out, entries, changed }
}

/// A character that may stand in an interpolation marker's name.
pub open spec fn is_word_char(c: char) -> bool {
    alnum_class(c) || c == '_'
}

/// The longest run of name characters starting at `i`.
pub open spec fn word_run(s: Seq<char>, i: int) -> Seq<char>
    decreases s.len() - i,
    when 0 <= i <= s.len()
{
    if i >= s.len() || !is_word_char(s[i]) {
        Seq::<char>::empty()
    } else {
        seq![s[i]] + word_run(s, i + 1)
    }
}

pub proof fn lemma_word_run_len(s: Seq<char>, i: int)
    requires
        0 <= i <= s.len(),
    ensures
        word_run(s, i).len() <= s.len() - i,
    decreases s.len() - i,
{
    if i < s.len() && is_word_char(s[i]) {
        lemma_word_run_len(s, i + 1);
    }
}

/// The names of the `{name}` interpolation markers from `i` on, first
/// occurrence of each name only.
pub open spec fn placeholders_from(s: Seq<char>, i: int, seen: Seq<Seq<char>>) -> Seq<Seq<char>>
    decreases s.len() - i,
    when 0 <= i <= s.len()
    via placeholders_from_decreases
{
    if i >= s.len() {
        Seq::<Seq<char>>::empty()
    } else if s[i] == '{' {
        let w = word_run(s, i + 1);
        if w.len() >= 1 && i + 1 + w.len() < s.len() && s[i + 1 + w.len()] == '}' {
            if seen.contains(w) {
                placeholders_from(s, i + 2 + w.len(), seen)
            } else {
                seq![w] + placeholders_from(s, i + 2 + w.len(), seen.push(w))
            }
        } else {
            placeholders_from(s, i + 1, seen)
        }
    } else {
        placeholders_from(s, i + 1, seen)
    }
}

#[via_fn]
proof fn placeholders_from_decreases(s: Seq<char>, i: int, seen: Seq<Seq<char>>) {
    if 0 <= i && i < s.len() {
        lemma_word_run_len(s, i + 1);
    }
}

/// The interpolation-marker names of a literal text, in first-seen order.
pub open spec fn placeholder_names(s: Seq<char>) -> Seq<Seq<char>> {
    placeholders_from(s, 0, Seq::empty())
}

/// The (name, type) views of a placeholder list.
pub open spec fn ph_views(ps: Seq<Placeholder>) -> Seq<(Seq<char>, Seq<char>)> {
    ps.map_values(|p: Placeholder| (p.name@, p.ptype@))
}

/// The name views of a placeholder list.
pub open spec fn ph_names(ps: Seq<Placeholder>) -> Seq<Seq<char>> {
    ps.map_values(|p: Placeholder| p.name@)
}

/// Whether a placeholder with this name was already recorded.
fn placeholders_contain(ps: &Vec<Placeholder>, name: &str) -> (r: bool)
    ensures
        r == ph_names(ps@).contains(name@),
{
    let mut i: usize = 0;
    while i < ps.len()
        invariant
            i <= ps@.len(),
            forall|j: int| 0 <= j < i as int ==> ps@[j].name@ != name@,
        decreases ps@.len() - i,
    {
        if str_eq(ps[i].name.as_str(), name) {
            assert(ph_names(ps@)[i as int] == name@);
            return true;
        }
        i = i + 1;
    }
    proof {
        assert(forall|j: int| 0 <= j < ph_names(ps@).len() ==> ph_names(ps@)[j] != name@);
    }
    false
}

/// Collects the run of name characters starting at `from`.
fn word_run_exec(v: &Vec<char>, from: usize) -> (r: Vec<char>)
    requires
        from <= v@.len(),
    ensures
        r@ == word_run(v@, from as int),
        from + r@.len() <= v@.len(),
{
    let n = v.len();
    let mut i = from;
    let mut r: Vec<char> = Vec::new();
    while i < n
        invariant
            from <= i <= n,
            n as int == v@.len(),
            i as int == from as int + r@.len(),
            word_run(v@, from as int) == r@ + word_run(v@, i as int),
        decreases n - i,
    {
        let c = v[i];
        if c.is_alphanumeric() || c == '_' {
            proof {
                assert(word_run(v@, i as int) == seq![v@[i as int]] + word_run(v@, i as int + 1));
                assert(r@ + (seq![v@[i as int]] + word_run(v@, i as int + 1)) =~= r@.push(
                    v@[i as int],
                ) + word_run(v@, i as int + 1));
            }
            r.push(c);
            i = i + 1;
        } else {
            proof {
                assert(word_run(v@, i as int) =~= Seq::<char>::empty());
                assert(r@ + word_run(v@, i as int) =~= r@);
            }
            return r;
        }
    }
    proof {
        assert(word_run(v@, n as int) =~= Seq::<char>::empty());
        assert(r@ + word_run(v@, n as int) =~= r@);
    }
    r
}

/// Scans a literal text for `{name}` interpolation markers and records each
/// distinct name as a placeholder of type `String` in a fresh metadata
/// object.
pub fn create_metadata(txt: &str) -> (m: Metadata)
    ensures
        ph_names(m.placeholders@) == placeholder_names(txt@),
        forall|j: int|
            0 <= j < m.placeholders@.len() ==> (#[trigger] m.placeholders@[j].ptype)@
                == "String"@,
{
    let v = chars_of(txt);
    let n = v.len();
    let mut ps: Vec<Placeholder> = Vec::new();
    let mut i: usize = 0;
    proof {
        assert(ph_names(ps@) =~= Seq::<Seq<char>>::empty());
        assert(ph_names(ps@) + placeholders_from(v@, 0, ph_names(ps@)) =~= placeholder_names(v@));
    }
    while i < n
        invariant
            i <= n,
            n as int == v@.len(),
            v@ == txt@,
            placeholder_names(txt@) == ph_names(ps@) + placeholders_from(
                v@,
                i as int,
                ph_names(ps@),
            ),
            forall|j: int|
                0 <= j < ps@.len() ==> (#[trigger] ps@[j].ptype)@ == "String"@,
        decreases n - i,
    {
        let ghost seen = ph_names(ps@);
        if v[i] == '{' {
            let w = word_run_exec(&v, i + 1);
            let wl = w.len();
            if wl >= 1 && i + 1 + wl < n && v[i + 1 + wl] == '}' {
                let name_s = string_of(&w);
                if placeholders_contain(&ps, name_s.as_str()) {
                    proof {
                        assert(placeholders_from(v@, i as int, seen) == placeholders_from(
                            v@,
                            i as int + 2 + wl as int,
                            seen,
                        ));
                    }
                    i = i + 2 + wl;
                } else {
                    let ghost wv = w@;
                    proof {
                        assert(placeholders_from(v@, i as int, seen) == seq![wv]
                            + placeholders_from(v@, i as int + 2 + wl as int, seen.push(wv)));
                    }
                    ps.push(Placeholder { name: name_s, ptype: String::from_str("String") });
                    proof {
                        assert(ph_names(ps@) =~= seen.push(wv));
                        assert(ph_names(ps@) + placeholders_from(
                            v@,
                            i as int + 2 + wl as int,
                            ph_names(ps@),
                        ) =~= placeholder_names(txt@));
                    }
                    i = i + 2 + wl;
                }
            } else {
                proof {
                    assert(placeholders_from(v@, i as int, seen) == placeholders_from(
                        v@,
                        i as int + 1,
                        seen,
                    ));
                }
                i = i + 1;
            }
        } else {
            proof {
                assert(placeholders_from(v@, i as int, seen) == placeholders_from(
                    v@,
                    i as int + 1,
                    seen,
                ));
            }
            i = i + 1;
        }
    }
    proof {
        assert(placeholders_from(v@, n as int, ph_names(ps@)) =~= Seq::<Seq<char>>::empty());
        assert(ph_names(ps@) =~= placeholder_names(txt@));
    }
    Metadata { placeholders: ps }
}

/// The keys discovered by one extraction are pairwise distinct, and none of
/// them is in the already-seen set.
pub proof fn lemma_entries_distinct(s: Seq<char>, i: int, seen: Seq<Seq<char>>)
    requires
        0 <= i <= s.len(),
    ensures
        forall|a: int, b: int|
            0 <= a < b < entries_from(s, i, seen).len() ==> (#[trigger] entries_from(
                s,
                i,
                seen,
            )[a]).0 != (#[trigger] entries_from(s, i, seen)[b]).0,
        forall|a: int|
            0 <= a < entries_from(s, i, seen).len() ==> !seen.contains(
                (#[trigger] entries_from(s, i, seen)[a]).0,
            ),
        forall|a: int|
            0 <= a < entries_from(s, i, seen).len() ==> key_valid(
                (#[trigger] entries_from(s, i, seen)[a]).0,
            ),
    decreases s.len() - i,
{
    match find_match(s, i) {
        None => {
        },
        Some((p, e)) => {
            lemma_find_match_some(s, i);
            match match_entry(s, p, e) {
                None => {
                    lemma_entries_distinct(s, e, seen);
                    assert(entries_from(s, i, seen) == entries_from(s, e, seen));
                },
                Some((k, txt)) => {
                    if seen.contains(k) {
                        lemma_entries_distinct(s, e, seen);
                        assert(entries_from(s, i, seen) == entries_from(s, e, seen));
                    } else {
                        lemma_entries_distinct(s, e, seen.push(k));
                        let es = entries_from(s, i, seen);
                        let tail = entries_from(s, e, seen.push(k));
                        assert(es == seq![(k, txt)] + tail);
                        assert forall|a: int| 0 <= a < tail.len() implies tail[a].0 != k
                            && !seen.contains(tail[a].0) by {
                            assert(!seen.push(k).contains(tail[a].0));
                            assert(seen.push(k)[seen.len() as int] == k);
                            if seen.contains(tail[a].0) {
                                let w = choose|t: int|
                                    0 <= t < seen.len() && seen[t] == tail[a].0;
                                assert(seen.push(k)[w] == tail[a].0);
                            }
                        }
                        assert forall|a: int, b: int|
                            0 <= a < b < entries_from(s, i, seen).len() implies (
                        #[trigger] entries_from(s, i, seen)[a]).0 != (#[trigger] entries_from(
                            s,
                            i,
                            seen,
                        )[b]).0 by {
                            assert(entries_from(s, i, seen)[a] == es[a]);
                            assert(entries_from(s, i, seen)[b] == es[b]);
                            if a == 0 {
                                assert(es[b].0 == tail[b - 1].0);
                                assert(tail[b - 1].0 != k);
                            } else {
                                assert(es[a].0 == tail[a - 1].0);
                                assert(es[b].0 == tail[b - 1].0);
                            }
                        }
                        assert forall|a: int|
                            0 <= a < entries_from(s, i, seen).len() implies !seen.contains(
                            (#[trigger] entries_from(s, i, seen)[a]).0,
                        ) by {
                            assert(entries_from(s, i, seen)[a] == es[a]);
                            if a > 0 {
                                assert(es[a].0 == tail[a - 1].0);
                                assert(!seen.contains(tail[a - 1].0));
                            }
                        }
                        assert forall|a: int|
                            0 <= a < entries_from(s, i, seen).len() implies key_valid(
                            (#[trigger] entries_from(s, i, seen)[a]).0,
                        ) by {
                            assert(entries_from(s, i, seen)[a] == es[a]);
                            if a > 0 {
                                assert(es[a].0 == tail[a - 1].0);
                            }
                        }
                    }
                },
            }
        },
    }
}

/// What an entry appended by a merge may be: a discovered key with its text,
/// or the paired metadata key with the markers of that text — in either case
/// one the catalog did not hold before.
pub open spec fn added_entry_ok(old_cat: Catalog, es: Seq<NewEntry>, e: Entry) -> bool {
    exists|j: int|
        {
            &&& 0 <= j < es.len()
            &&& {
                ||| {
                    &&& e.key@ == (#[trigger] es[j]).key@
                    &&& !old_cat.has_key(es[j].key@)
                    &&& e.value matches ArbValue::Text(t) && t@ == es[j].text@
                }
                ||| {
                    &&& e.key@ == meta_key_of(es[j].key@)
                    &&& !old_cat.has_key(meta_key_of(es[j].key@))
                    &&& e.value matches ArbValue::Meta(m) && ph_names(m.placeholders@)
                        == placeholder_names(es[j].text@)
                }
            }
        }
}

/// Merges newly discovered entries into the template catalog: a key not yet
/// present is inserted with its literal text as the canonical value, paired
/// with a metadata entry when none exists.  A key already present is left
/// alone: the first writer wins.  Returns whether anything was inserted.
pub fn merge(catalog: &mut Catalog, new_entries: &Vec<NewEntry>) -> (changed: bool)
    requires
        old(catalog).wf(),
        forall|a: int, b: int|
            0 <= a < b < new_entries@.len() ==> (#[trigger] new_entries@[a].key)@
                != (#[trigger] new_entries@[b].key)@,
        forall|a: int| 0 <= a < new_entries@.len() ==> key_valid((#[trigger] new_entries@[a].key)@),
    ensures
        final(catalog).wf(),
        final(catalog).entries@.len() >= old(catalog).entries@.len(),
        forall|i: int|
            0 <= i < old(catalog).entries@.len() ==> final(catalog).entries@[i] == old(
                catalog,
            ).entries@[i],
        forall|j: int|
            0 <= j < new_entries@.len() ==> final(catalog).has_key(
                (#[trigger] new_entries@[j].key)@,
            ),
        forall|j: int|
            0 <= j < new_entries@.len() && !old(catalog).has_key(new_entries@[j].key@) ==> {
                &&& final(catalog).val_of((#[trigger] new_entries@[j].key)@) matches
                    ArbValue::Text(t) && t@ == new_entries@[j].text@
                &&& final(catalog).has_key(meta_key_of(new_entries@[j].key@))
            },
        forall|i: int|
            #![trigger final(catalog).entries@[i]]
            old(catalog).entries@.len() <= i < final(catalog).entries@.len() ==> added_entry_ok(
                *old(catalog),
                new_entries@,
                final(catalog).entries@[i],
            ),
        changed == (final(catalog).entries@.len() != old(catalog).entries@.len()),
{
    let ghost old_len = old(catalog).entries@.len() as int;
    let ghost es = new_entries@;
    let mut changed = false;
    let mut j: usize = 0;
    while j < new_entries.len()
        invariant
            j <= new_entries@.len(),
            es == new_entries@,
            old(catalog).wf(),
            catalog.wf(),
            catalog.entries@.len() >= old_len,
            old_len == old(catalog).entries@.len() as int,
            forall|a: int, b: int|
                0 <= a < b < es.len() ==> (#[trigger] es[a].key)@ != (#[trigger] es[b].key)@,
            forall|a: int| 0 <= a < es.len() ==> key_valid((#[trigger] es[a].key)@),
            forall|i: int|
                0 <= i < old_len ==> catalog.entries@[i] == old(catalog).entries@[i],
            forall|jj: int| 0 <= jj < j as int ==> catalog.has_key((#[trigger] es[jj].key)@),
            forall|jj: int|
                0 <= jj < j as int && !old(catalog).has_key(es[jj].key@) ==> {
                    &&& catalog.val_of((#[trigger] es[jj].key)@) matches ArbValue::Text(t) && t@
                        == es[jj].text@
                    &&& catalog.has_key(meta_key_of(es[jj].key@))
                },
            forall|i: int|
                #![trigger catalog.entries@[i]]
                old_len <= i < catalog.entries@.len() ==> added_entry_ok(
                    *old(catalog),
                    es.subrange(0, j as int),
                    catalog.entries@[i],
                ),
            changed == (catalog.entries@.len() != old_len),
        decreases new_entries@.len() - j,
    {
        let ghost before = *catalog;
        let e = &new_entries[j];
        match catalog.find_index(e.key.as_str()) {
            Some(_) => {
                proof {
                    if !old(catalog).has_key(e.key@) {
                        catalog.lemma_idx(e.key@);
                        let ix = catalog.idx_of(e.key@);
                        if ix < old_len {
                            assert(old(catalog).keys()[ix] == e.key@);
                        } else {
                            assert(added_entry_ok(
                                *old(catalog),
                                es.subrange(0, j as int),
                                catalog.entries@[ix],
                            ));
                            let w = choose|t: int|
                                {
                                    &&& 0 <= t < es.subrange(0, j as int).len()
                                    &&& {
                                        ||| {
                                            &&& catalog.entries@[ix].key@ == es.subrange(
                                                0,
                                                j as int,
                                            )[t].key@
                                            &&& !old(catalog).has_key(
                                                es.subrange(0, j as int)[t].key@,
                                            )
                                            &&& catalog.entries@[ix].value matches ArbValue::Text(
                                                tx,
                                            ) && tx@ == es.subrange(0, j as int)[t].text@
                                        }
                                        ||| {
                                            &&& catalog.entries@[ix].key@ == meta_key_of(
                                                es.subrange(0, j as int)[t].key@,
                                            )
                                            &&& !old(catalog).has_key(
                                                meta_key_of(es.subrange(0, j as int)[t].key@),
                                            )
                                            &&& catalog.entries@[ix].value matches ArbValue::Meta(
                                                m,
                                            ) && ph_names(m.placeholders@) == placeholder_names(
                                                es.subrange(0, j as int)[t].text@,
                                            )
                                        }
                                    }
                                };
                            assert(es.subrange(0, j as int)[w] == es[w]);
                            assert(key_valid(es[j as int].key@));
                            assert(catalog.entries@[ix].key@ == e.key@);
                            assert(false);
                        }
                    }
                }
            },
            None => {
                proof {
                    if old(catalog).has_key(e.key@) {
                        crate::arb::lemma_extend_val(*old(catalog), *catalog, e.key@);
                    }
                }
                catalog.add_key(e.key.as_str(), e.text.as_str());
                changed = true;
                let ghost after_add = *catalog;
                let mk = meta_key_exec(e.key.as_str());
                match catalog.find_index(mk.as_str()) {
                    Some(_) => {
                    },
                    None => {
                        proof {
                            if old(catalog).has_key(mk@) {
                                crate::arb::lemma_extend_val(*old(catalog), *catalog, mk@);
                            }
                        }
                        let meta = create_metadata(e.text.as_str());
                        catalog.insert_absent(mk.as_str(), ArbValue::Meta(meta));
                        proof {
                            crate::arb::lemma_extend_val(after_add, *catalog, e.key@);
                        }
                    },
                }
                proof {
                    assert(catalog.has_key(e.key@)) by {
                        crate::arb::lemma_extend_val(after_add, *catalog, e.key@);
                    }
                    assert(catalog.has_key(mk@)) by {
                        if catalog.entries@.len() == after_add.entries@.len() {
                        } else {
                            assert(catalog.entries@.last().key@ == mk@);
                            assert(catalog.keys().last() == mk@);
                        }
                    }
                }
            },
        }
        j = j + 1;
        proof {
            assert forall|jj: int| 0 <= jj < j as int implies catalog.has_key(
                (#[trigger] es[jj].key)@,
            ) by {
                if jj < j as int - 1 {
                    assert(before.has_key(es[jj].key@));
                    crate::arb::lemma_extend_val(before, *catalog, es[jj].key@);
                }
            }
            assert forall|jj: int|
                0 <= jj < j as int && !old(catalog).has_key(es[jj].key@) implies (catalog.val_of(
                (#[trigger] es[jj].key)@,
            ) matches ArbValue::Text(t) && t@ == es[jj].text@) && catalog.has_key(
                meta_key_of(es[jj].key@),
            ) by {
                if jj < j as int - 1 {
                    crate::arb::lemma_extend_val(before, *catalog, es[jj].key@);
                    crate::arb::lemma_extend_val(before, *catalog, meta_key_of(es[jj].key@));
                }
            }
            assert forall|i: int|
                #![trigger catalog.entries@[i]]
                old_len <= i < catalog.entries@.len() implies added_entry_ok(
                *old(catalog),
                es.subrange(0, j as int),
                catalog.entries@[i],
            ) by {
                if i < before.entries@.len() && added_entry_ok(
                    *old(catalog),
                    es.subrange(0, j as int - 1),
                    before.entries@[i],
                ) {
                    let sub_old = es.subrange(0, j as int - 1);
                    let sub_new = es.subrange(0, j as int);
                    let w = choose|t: int|
                        {
                            &&& 0 <= t < sub_old.len()
                            &&& {
                                ||| {
                                    &&& before.entries@[i].key@ == sub_old[t].key@
                                    &&& !old(catalog).has_key(sub_old[t].key@)
                                    &&& before.entries@[i].value matches ArbValue::Text(tx) && tx@
                                        == sub_old[t].text@
                                }
                                ||| {
                                    &&& before.entries@[i].key@ == meta_key_of(sub_old[t].key@)
                                    &&& !old(catalog).has_key(meta_key_of(sub_old[t].key@))
                                    &&& before.entries@[i].value matches ArbValue::Meta(m)
                                        && ph_names(m.placeholders@) == placeholder_names(
                                        sub_old[t].text@,
                                    )
                                }
                            }
                        };
                    assert(sub_old[w] == es[w]);
                    assert(sub_new[w] == es[w]);
                    assert(catalog.entries@[i] == before.entries@[i]);
                }
                if i >= before.entries@.len() {
                    let jj = j as int - 1;
                    let sub_new = es.subrange(0, j as int);
                    assert(sub_new[jj] == es[jj]);
                    assert(!old(catalog).has_key(es[jj].key@));
                    if i == before.entries@.len() {
                        assert(catalog.entries@[i].key@ == es[jj].key@);
                        assert(catalog.entries@[i].value matches ArbValue::Text(tx) && tx@
                            == es[jj].text@);
                    } else {
                        assert(i == before.entries@.len() + 1);
                        assert(catalog.entries@[i].key@ == meta_key_of(es[jj].key@));
                        assert(!old(catalog).has_key(meta_key_of(es[jj].key@)));
                        assert(catalog.entries@[i].value matches ArbValue::Meta(m) && ph_names(
                            m.placeholders@,
                        ) == placeholder_names(es[jj].text@));
                    }
                }
            }
        }
    }
    proof {
        assert(es.subrange(0, es.len() as int) =~= es);
    }
    changed
}

/// Whether positions `i` and `j` witness an import line: the word `import`
/// at `i`, the file name at `j`, and no line break between them.
pub open spec fn import_match(s: Seq<char>, file: Seq<char>, i: int, j: int) -> bool {
    &&& 0 <= i
    &&& i + 6 <= j
    &&& j + file.len() <= s.len()
    &&& s.subrange(i, i + 6) == "import"@
    &&& s.subrange(j, j + file.len()) == file
    &&& forall|t: int| i + 6 <= t < j ==> s[t] != '\n'
}

/// Whether the content already mentions the file on an import line.
pub open spec fn has_import(s: Seq<char>, file: Seq<char>) -> bool {
    exists|i: int, j: int| import_match(s, file, i, j)
}

/// Whether `pat` occurs at position `i` of `v`.
fn match_at_pos(v: &Vec<char>, i: usize, pat: &Vec<char>) -> (r: bool)
    requires
        i <= v@.len(),
    ensures
        r == (i + pat@.len() <= v@.len() && v@.subrange(i as int, i as int + pat@.len() as int)
            == pat@),
{
    let n = v.len();
    let m = pat.len();
    if n - i < m {
        return false;
    }
    let mut k: usize = 0;
    while k < m
        invariant
            k <= m,
            m as int == pat@.len(),
            n as int == v@.len(),
            i + m <= n,
            forall|t: int| 0 <= t < k as int ==> v@[i as int + t] == pat@[t],
        decreases m - k,
    {
        if v[i + k] != pat[k] {
            proof {
                assert(v@.subrange(i as int, i as int + pat@.len() as int)[k as int]
                    != pat@[k as int]);
            }
            return false;
        }
        k = k + 1;
    }
    proof {
        assert(v@.subrange(i as int, i as int + pat@.len() as int) =~= pat@);
    }
    true
}

/// Searches the content for an import line mentioning `file`.
fn find_import(v: &Vec<char>, file: &Vec<char>) -> (r: bool)
    ensures
        r == has_import(v@, file@),
{
    let imp = crate::text::chars_of("import");
    proof {
        reveal_strlit("import");
    }
    let n = v.len();
    let mut i: usize = 0;
    while i < n
        invariant
            i <= n,
            n as int == v@.len(),
            imp@ == "import"@,
            imp@.len() == 6,
            forall|a: int, b: int| 0 <= a < i as int ==> !import_match(v@, file@, a, b),
        decreases n - i,
    {
        if match_at_pos(v, i, &imp) {
            let mut j = i + 6;
            if j > n {
                proof {
                    assert forall|b: int| true implies !import_match(v@, file@, i as int, b) by {
                        if import_match(v@, file@, i as int, b) {
                            assert(i as int + 6 <= b && b + file@.len() <= n as int);
                        }
                    }
                }
            } else {
                loop
                    invariant
                        i as int + 6 <= j as int <= n as int,
                        n as int == v@.len(),
                        i as int + 6 <= n as int,
                        v@.subrange(i as int, i as int + 6) == "import"@,
                        forall|t: int| i as int + 6 <= t < j as int ==> v@[t] != '\n',
                        forall|b: int|
                            i as int + 6 <= b < j as int ==> !import_match(
                                v@,
                                file@,
                                i as int,
                                b,
                            ),
                    ensures
                        forall|b: int| !import_match(v@, file@, i as int, b),
                    decreases n as int - j as int + 1,
                {
                    if match_at_pos(v, j, file) {
                        proof {
                            assert(import_match(v@, file@, i as int, j as int));
                        }
                        return true;
                    }
                    proof {
                        assert(!import_match(v@, file@, i as int, j as int));
                    }
                    if j == n {
                        proof {
                            assert forall|b: int| true implies !import_match(
                                v@,
                                file@,
                                i as int,
                                b,
                            ) by {
                                if import_match(v@, file@, i as int, b) {
                                    assert(i as int + 6 <= b && b + file@.len() <= n as int);
                                    if b >= j as int {
                                        assert(b == n as int && file@.len() == 0);
                                        assert(v@.subrange(b, b) =~= Seq::<char>::empty());
                                    }
                                }
                            }
                        }
                        break ;
                    }
                    if v[j] == '\n' {
                        proof {
                            assert forall|b: int| true implies !import_match(
                                v@,
                                file@,
                                i as int,
                                b,
                            ) by {
                                if import_match(v@, file@, i as int, b) {
                                    if b > j as int {
                                        assert(v@[j as int] == '\n');
                                    }
                                }
                            }
                        }
                        break ;
                    }
                    j = j + 1;
                }
            }
            i = i + 1;
        } else {
            proof {
                assert forall|b: int| true implies !import_match(v@, file@, i as int, b) by {
                    if import_match(v@, file@, i as int, b) {
                        assert(i as int + 6 <= b);
                        assert(b + file@.len() <= v@.len());
                        assert(v@.subrange(i as int, i as int + 6) == "import"@);
                    }
                }
            }
            i = i + 1;
        }
    }
    proof {
        assert forall|a: int, b: int| true implies !import_match(v@, file@, a, b) by {
            if import_match(v@, file@, a, b) {
                assert(a + 6 <= b && b + file@.len() <= v@.len());
                assert(0 <= a < n as int);
            }
        }
    }
    false
}

/// The import line inserted in front of a file that begins referencing
/// generated keys.
pub open spec fn import_statement_of(p: Project) -> Seq<char> {
    "import 'package:"@ + p.name@ + seq!['/'] + import_dir_of(p.l10n_dir@) + seq!['/']
        + p.localizations_file@ + "';\n"@
}

/// Prepends the project's import line to `content`, unless an import line
/// already mentions the localizations file; never duplicates the import.
pub fn ensure_localization_import(project: &Project, content: &mut String)
    ensures
        has_import(old(content)@, project.localizations_file@) ==> final(content)@ == old(
            content,
        )@,
        !has_import(old(content)@, project.localizations_file@) ==> final(content)@
            == import_statement_of(*project) + old(content)@,
{
    let v = chars_of(content.as_str());
    let fv = chars_of(project.localizations_file.as_str());
    if !find_import(&v, &fv) {
        let mut st = String::from_str("import 'package:");
        st.append(project.name.as_str());
        st.push('/');
        let dir = project.import_dir();
        st.append(dir.as_str());
        st.push('/');
        st.append(project.localizations_file.as_str());
        st.append("';\n");
        st.append(content.as_str());
        proof {
            assert(st@ =~= import_statement_of(*project) + old(content)@);
        }
        *content = st;
    }
}

/// What an entry appended to the template may be, keyed by discovered
/// (key, text) pairs.
pub open spec fn added_pair_ok(
    old_cat: Catalog,
    pairs: Seq<(Seq<char>, Seq<char>)>,
    e: Entry,
) -> bool {
    exists|j: int|
        {
            &&& 0 <= j < pairs.len()
            &&& {
                ||| {
                    &&& e.key@ == (#[trigger] pairs[j]).0
                    &&& !old_cat.has_key(pairs[j].0)
                    &&& e.value matches ArbValue::Text(t) && t@ == pairs[j].1
                }
                ||| {
                    &&& e.key@ == meta_key_of(pairs[j].0)
                    &&& !old_cat.has_key(meta_key_of(pairs[j].0))
                    &&& e.value matches ArbValue::Meta(m) && ph_names(m.placeholders@)
                        == placeholder_names(pairs[j].1)
                }
            }
        }
}

/// What one processing pass returns: the content to write back when
/// `write_file` says so, and whether the template catalog gained keys.
#[derive(Debug)]
pub struct ProcessOutcome {
    pub content: String,
    pub write_file: bool,
    pub template_changed: bool,
}

/// One full pass over a source file's content: extracts and rewrites marked
/// literals, merges the discoveries into the template catalog, and, when the
/// template gained a key, makes sure the rewritten content imports the
/// localization bindings.  Content without discoveries comes back untouched,
/// with the template unchanged.
pub fn process_content(project: &Project, content: &str, template: &mut Catalog) -> (r:
    ProcessOutcome)
    requires
        old(template).wf(),
    ensures
        final(template).wf(),
        final(template).entries@.len() >= old(template).entries@.len(),
        forall|i: int|
            0 <= i < old(template).entries@.len() ==> final(template).entries@[i] == old(
                template,
            ).entries@[i],
        forall|j: int|
            0 <= j < entries_of(content@).len() ==> final(template).has_key(
                (#[trigger] entries_of(content@)[j]).0,
            ),
        forall|i: int|
            #![trigger final(template).entries@[i]]
            old(template).entries@.len() <= i < final(template).entries@.len() ==> added_pair_ok(
                *old(template),
                entries_of(content@),
                final(template).entries@[i],
            ),
        r.write_file == (entries_of(content@).len() > 0),
        !r.write_file ==> r.content@ == content@ && final(template).entries@ == old(
            template,
        ).entries@,
        r.template_changed == (final(template).entries@.len() != old(template).entries@.len()),
        r.write_file ==> r.content@ == if r.template_changed && !has_import(
            rewrite_of(content@),
            project.localizations_file@,
        ) {
            import_statement_of(*project) + rewrite_of(content@)
        } else {
            rewrite_of(content@)
        },
{
    let ex = extract(content);
    let mut out_content = ex.content;
    if !ex.changed {
        return ProcessOutcome { content: out_content, write_file: false, template_changed: false };
    }
    proof {
        lemma_entries_distinct(content@, 0, Seq::<Seq<char>>::empty());
        assert(entry_views(ex.entries@) == entries_of(content@));
        assert forall|a: int, b: int|
            0 <= a < b < ex.entries@.len() implies (#[trigger] ex.entries@[a].key)@
            != (#[trigger] ex.entries@[b].key)@ by {
            assert(entry_views(ex.entries@)[a] == (ex.entries@[a].key@, ex.entries@[a].text@));
            assert(entry_views(ex.entries@)[b] == (ex.entries@[b].key@, ex.entries@[b].text@));
            assert(entries_of(content@)[a].0 != entries_of(content@)[b].0);
        }
        assert forall|a: int| 0 <= a < ex.entries@.len() implies key_valid(
            (#[trigger] ex.entries@[a].key)@,
        ) by {
            assert(entry_views(ex.entries@)[a] == (ex.entries@[a].key@, ex.entries@[a].text@));
            assert(key_valid(entries_of(content@)[a].0));
        }
    }
    let template_changed = merge(template, &ex.entries);
    proof {
        assert forall|j: int| 0 <= j < entries_of(content@).len() implies template.has_key(
            (#[trigger] entries_of(content@)[j]).0,
        ) by {
            assert(entry_views(ex.entries@)[j] == (ex.entries@[j].key@, ex.entries@[j].text@));
            assert(template.has_key(ex.entries@[j].key@));
        }
        assert forall|i: int|
            #![trigger template.entries@[i]]
            old(template).entries@.len() <= i < template.entries@.len() implies added_pair_ok(
            *old(template),
            entries_of(content@),
            template.entries@[i],
        ) by {
            assert(added_entry_ok(*old(template), ex.entries@, template.entries@[i]));
            let w = choose|t: int|
                {
                    &&& 0 <= t < ex.entries@.len()
                    &&& {
                        ||| {
                            &&& template.entries@[i].key@ == ex.entries@[t].key@
                            &&& !old(template).has_key(ex.entries@[t].key@)
                            &&& template.entries@[i].value matches ArbValue::Text(tx) && tx@
                                == ex.entries@[t].text@
                        }
                        ||| {
                            &&& template.entries@[i].key@ == meta_key_of(ex.entries@[t].key@)
                            &&& !old(template).has_key(meta_key_of(ex.entries@[t].key@))
                            &&& template.entries@[i].value matches ArbValue::Meta(m) && ph_names(
                                m.placeholders@,
                            ) == placeholder_names(ex.entries@[t].text@)
                        }
                    }
                };
            assert(entry_views(ex.entries@)[w] == (ex.entries@[w].key@, ex.entries@[w].text@));
            assert((#[trigger] entries_of(content@)[w]).0 == ex.entries@[w].key@);
        }
    }
    if template_changed {
        ensure_localization_import(project, &mut out_content);
    }
    ProcessOutcome { content: out_content, write_file: true, template_changed }
}

/// A scan that closed in one text closes identically in another text that
/// carries the same characters over the scanned range.
proof fn lemma_scan_follow(s: Seq<char>, j: int, z: int, t: Seq<char>, j2: int)
    requires
        0 <= j <= s.len(),
        scan_end(s, j) == Some(z),
        0 <= j2,
        j2 + (z - j) <= t.len(),
        forall|d: int| 0 <= d < z - j ==> #[trigger] t[j2 + d] == s[j + d],
    ensures
        scan_end(t, j2) == Some(j2 + (z - j)),
    decreases s.len() - j,
{
    lemma_scan_end_bounds(s, j);
    if s[j] == '"' {
        assert(z == j + 1);
        assert(t[j2 + 0] == s[j + 0]);
    } else if s[j] == '\\' && j + 1 < s.len() {
        assert(scan_end(s, j + 2) == Some(z));
        lemma_scan_end_bounds(s, j + 2);
        assert(t[j2 + 0] == s[j + 0]);
        assert(t[j2 + 1] == s[j + 1]);
        assert forall|d: int| 0 <= d < z - (j + 2) implies #[trigger] t[(j2 + 2) + d] == s[(j + 2)
            + d] by {
            assert(t[j2 + (d + 2)] == s[j + (d + 2)]);
        }
        lemma_scan_follow(s, j + 2, z, t, j2 + 2);
        assert(j2 + 1 < t.len());
    } else {
        assert(scan_end(s, j + 1) == Some(z));
        lemma_scan_end_bounds(s, j + 1);
        assert(t[j2 + 0] == s[j + 0]);
        assert forall|d: int| 0 <= d < z - (j + 1) implies #[trigger] t[(j2 + 1) + d] == s[(j + 1)
            + d] by {
            assert(t[j2 + (d + 1)] == s[j + (d + 1)]);
        }
        lemma_scan_follow(s, j + 1, z, t, j2 + 1);
        if s[j] == '\\' {
            assert(j + 1 >= s.len());
            assert(z > j + 1);
            assert(false);
        }
    }
}

/// A scan started at or before an upcoming marked-literal opener always
/// closes: the opener's quote is reachable because an underscore precedes
/// it.
proof fn lemma_scan_reaches_opener(s: Seq<char>, j: int, p: int)
    requires
        0 <= j <= p + 1,
        p + 1 < s.len(),
        s[p] == '_',
        s[p + 1] == '"',
    ensures
        scan_end(s, j) is Some,
    decreases p + 1 - j,
{
    if j == p + 1 {
    } else if j == p {
        lemma_scan_reaches_opener(s, j + 1, p);
    } else if s[j] == '"' {
    } else if s[j] == '\\' && j + 1 < s.len() {
        assert(j + 2 <= p + 1);
        lemma_scan_reaches_opener(s, j + 2, p);
    } else {
        lemma_scan_reaches_opener(s, j + 1, p);
    }
}

/// Scanning a text's suffix behaves like scanning the suffix alone.
proof fn lemma_suffix_scan_end(t: Seq<char>, u: Seq<char>, m: int, k: int)
    requires
        0 <= m,
        t.len() == m + u.len(),
        forall|d: int| 0 <= d < u.len() ==> #[trigger] t[m + d] == u[d],
        0 <= k <= u.len(),
    ensures
        scan_end(t, m + k) == (match scan_end(u, k) {
            Some(z) => Some(m + z),
            None => None::<int>,
        }),
    decreases u.len() - k,
{
    if k == u.len() {
    } else {
        assert(t[m + k] == u[k]);
        if u[k] == '"' {
        } else if u[k] == '\\' && k + 1 < u.len() {
            assert(t[m + (k + 1)] == u[k + 1]);
            lemma_suffix_scan_end(t, u, m, k + 2);
        } else {
            lemma_suffix_scan_end(t, u, m, k + 1);
            if u[k] == '\\' {
                assert(k + 1 == u.len());
                assert(m + k + 1 == t.len());
            }
        }
    }
}

/// A match in a text's suffix is a match of the suffix alone.
proof fn lemma_suffix_match_at(t: Seq<char>, u: Seq<char>, m: int, k: int)
    requires
        0 <= m,
        t.len() == m + u.len(),
        forall|d: int| 0 <= d < u.len() ==> #[trigger] t[m + d] == u[d],
        0 <= k <= u.len(),
    ensures
        match_at(t, m + k) == (match match_at(u, k) {
            Some(z) => Some(m + z),
            None => None::<int>,
        }),
{
    if k + 1 < u.len() {
        assert(t[m + k] == u[k]);
        assert(t[m + (k + 1)] == u[k + 1]);
        if u[k] == '_' && u[k + 1] == '"' {
            lemma_suffix_scan_end(t, u, m, k + 2);
        }
    }
}

/// The leftmost match in a text's suffix is the suffix's own leftmost
/// match.
proof fn lemma_suffix_find(t: Seq<char>, u: Seq<char>, m: int, k: int)
    requires
        0 <= m,
        t.len() == m + u.len(),
        forall|d: int| 0 <= d < u.len() ==> #[trigger] t[m + d] == u[d],
        0 <= k <= u.len(),
    ensures
        find_match(t, m + k) == (match find_match(u, k) {
            Some(pe) => Some((m + pe.0, m + pe.1)),
            None => None::<(int, int)>,
        }),
    decreases u.len() - k,
{
    lemma_suffix_match_at(t, u, m, k);
    if k == u.len() {
    } else if match_at(u, k) is Some {
    } else {
        lemma_suffix_find(t, u, m, k + 1);
    }
}

/// The entries discovered in a text's suffix are the suffix's own entries.
proof fn lemma_suffix_entries(t: Seq<char>, u: Seq<char>, m: int, k: int, seen: Seq<Seq<char>>)
    requires
        0 <= m,
        t.len() == m + u.len(),
        forall|d: int| 0 <= d < u.len() ==> #[trigger] t[m + d] == u[d],
        0 <= k <= u.len(),
    ensures
        entries_from(t, m + k, seen) == entries_from(u, k, seen),
    decreases u.len() - k,
{
    lemma_suffix_find(t, u, m, k);
    match find_match(u, k) {
        None => {
        },
        Some((p, e)) => {
            lemma_find_match_some(u, k);
            assert forall|d: int|
                #![trigger u.subrange(p + 2, e - 1)[d]]
                0 <= d < (e - 1) - (p + 2) implies t.subrange(
                m + p + 2,
                m + e - 1,
            )[d] == u.subrange(p + 2, e - 1)[d] by {
                assert(t[m + (p + 2 + d)] == u[p + 2 + d]);
            }
            assert(t.subrange(m + p + 2, m + e - 1) =~= u.subrange(p + 2, e - 1));
            assert(match_entry(t, m + p, m + e) == match_entry(u, p, e));
            match match_entry(u, p, e) {
                None => {
                    lemma_suffix_entries(t, u, m, e, seen);
                },
                Some((key, txt)) => {
                    if seen.contains(key) {
                        lemma_suffix_entries(t, u, m, e, seen);
                    } else {
                        lemma_suffix_entries(t, u, m, e, seen.push(key));
                    }
                },
            }
        },
    }
}

/// Skipping over positions where nothing matches does not change what is
/// found.
proof fn lemma_skip_find(t: Seq<char>, a: int, b: int)
    requires
        0 <= a <= b <= t.len(),
        forall|j: int| a <= j < b ==> match_at(t, j) is None,
    ensures
        find_match(t, a) == find_match(t, b),
    decreases b - a,
{
    if a < b {
        assert(match_at(t, a) is None);
        lemma_skip_find(t, a + 1, b);
    }
}

/// A key safe to splice into source text: nonempty, free of quotes, and not
/// ending with an underscore — so a rewritten span can never recombine with
/// its surroundings into a new marked literal.
pub open spec fn key_rewrite_safe(k: Seq<char>) -> bool {
    &&& k.len() > 0
    &&& k[k.len() - 1] != '_'
    &&& forall|d: int| 0 <= d < k.len() ==> k[d] != '"'
}

/// Every key the content's marked literals synthesize is safe to splice.
pub open spec fn all_keys_safe(s: Seq<char>) -> bool {
    forall|p: int|
        match #[trigger] match_at(s, p) {
            Some(e) => match match_entry(s, p, e) {
                Some(kt) => key_rewrite_safe(kt.0),
                None => true,
            },
            None => true,
        }
}

/// Positions inside a copied segment never start a match: a marked-literal
/// opener there would have matched in the original content already.
proof fn lemma_segment_no_match(s: Seq<char>, i: int, p: int, w: Seq<char>)
    requires
        0 <= i <= p,
        p + 1 < s.len(),
        s[p] == '_',
        s[p + 1] == '"',
        forall|j: int| i <= j < p ==> match_at(s, j) is None,
        p - i < w.len(),
        forall|d: int| 0 <= d < p - i ==> #[trigger] w[d] == s[i + d],
        w[p - i] != '"',
    ensures
        forall|j: int| 0 <= j < p - i ==> match_at(w, j) is None,
{
    assert forall|j: int| 0 <= j < p - i implies match_at(w, j) is None by {
        if j + 1 < w.len() && w[j] == '_' && w[j + 1] == '"' {
            assert(w[j] == s[i + j]);
            if j + 1 < p - i {
                assert(w[j + 1] == s[i + j + 1]);
                lemma_scan_reaches_opener(s, i + j + 2, p);
                assert(match_at(s, i + j) is Some);
                assert(false);
            } else {
                assert(j + 1 == p - i);
                assert(false);
            }
        }
    }
}

/// Positions inside a spliced accessor expression never start a match: the
/// expression holds no quote, and its last character is no underscore.
proof fn lemma_accessor_no_match(w: Seq<char>, base: int, key: Seq<char>)
    requires
        key_rewrite_safe(key),
        0 <= base,
        base + 30 + key.len() <= w.len(),
        forall|d: int| 0 <= d < 30 + key.len() ==> #[trigger] w[base + d] == accessor_of(key)[d],
    ensures
        forall|j: int| base <= j < base + 30 + key.len() ==> match_at(w, j) is None,
{
    reveal_strlit("AppLocalizations.of(context)!.");
    assert(accessor_prefix().len() == 30);
    assert(forall|d: int| 0 <= d < 30 ==> accessor_prefix()[d] != '"');
    assert(forall|d: int| 0 <= d < 30 ==> accessor_prefix()[d] != '_');
    assert forall|j: int| base <= j < base + 30 + key.len() implies match_at(w, j) is None by {
        if j + 1 < w.len() && w[j] == '_' && w[j + 1] == '"' {
            let d = j - base;
            assert(w[base + d] == accessor_of(key)[d]);
            if d < 30 {
                assert(accessor_of(key)[d] == accessor_prefix()[d]);
                assert(false);
            } else {
                assert(accessor_of(key)[d] == key[d - 30]);
                if d == 30 + key.len() - 1 {
                    assert(key[key.len() - 1] != '_');
                    assert(false);
                } else {
                    assert(w[base + (d + 1)] == accessor_of(key)[d + 1]);
                    if d + 1 < 30 {
                        assert(false);
                    } else {
                        assert(accessor_of(key)[d + 1] == key[d + 1 - 30]);
                        assert(key[d + 1 - 30] != '"');
                        assert(false);
                    }
                }
            }
        }
    }
}

proof fn lemma_clean_none(s: Seq<char>, i: int)
    requires
        0 <= i <= s.len(),
        find_match(s, i) is None,
    ensures
        entries_from(rewrite_from(s, i), 0, Seq::<Seq<char>>::empty()) == Seq::<
            (Seq<char>, Seq<char>),
        >::empty(),
{
    let w = rewrite_from(s, i);
    lemma_find_match_none(s, i);
    assert(w == s.subrange(i, s.len() as int));
    assert(s.len() == i + w.len());
    assert forall|d: int| 0 <= d < w.len() implies #[trigger] s[i + d] == w[d] by {
    }
    assert forall|kk: int| 0 <= kk < w.len() implies match_at(w, kk) is None by {
        lemma_suffix_match_at(s, w, i, kk);
    }
    lemma_skip_find(w, 0, w.len() as int);
    assert(find_match(w, w.len() as int) is None);
    assert(entries_from(w, 0, Seq::<Seq<char>>::empty()) =~= Seq::<
        (Seq<char>, Seq<char>),
    >::empty());
}

#[verifier::rlimit(50)]
proof fn lemma_clean_skip(s: Seq<char>, i: int, p: int, e: int)
    requires
        0 <= i <= s.len(),
        find_match(s, i) == Some((p, e)),
        match_entry(s, p, e) is None,
        entries_from(rewrite_from(s, e), 0, Seq::<Seq<char>>::empty()) == Seq::<
            (Seq<char>, Seq<char>),
        >::empty(),
    ensures
        entries_from(rewrite_from(s, i), 0, Seq::<Seq<char>>::empty()) == Seq::<
            (Seq<char>, Seq<char>),
        >::empty(),
{
    lemma_find_match_some(s, i);
    let w = rewrite_from(s, i);
    let wrest = rewrite_from(s, e);
    let c = s.subrange(i, e);
    assert(w == c + wrest);
    assert(w.len() == (e - i) + wrest.len());
    assert forall|d: int| 0 <= d < wrest.len() implies #[trigger] w[(e - i) + d] == wrest[d] by {
    }
    assert forall|d: int| 0 <= d < p - i implies #[trigger] w[d] == s[i + d] by {
    }
    assert(w[p - i] == s[p]);
    lemma_segment_no_match(s, i, p, w);
    assert(w[p - i + 1] == s[p + 1]);
    assert forall|d: int|
        #![trigger w[(p - i + 2) + d]]
        0 <= d < e - (p + 2) implies w[(p - i + 2) + d] == s[(p + 2) + d] by {
        assert(w[(p - i + 2) + d] == s[i + (p - i + 2 + d)]);
    }
    lemma_scan_follow(s, p + 2, e, w, p - i + 2);
    assert(match_at(w, p - i) == Some(e - i));
    assert forall|d: int|
        #![trigger s.subrange(p + 2, e - 1)[d]]
        0 <= d < (e - 1) - (p + 2) implies w.subrange(p - i + 2, e - i - 1)[d] == s.subrange(
        p + 2,
        e - 1,
    )[d] by {
        assert(w[(p - i + 2) + d] == s[i + (p - i + 2 + d)]);
    }
    assert(w.subrange(p - i + 2, e - i - 1) =~= s.subrange(p + 2, e - 1));
    assert(match_entry(w, p - i, e - i) is None);
    lemma_skip_find(w, 0, p - i);
    assert(find_match(w, 0) == Some((p - i, e - i)));
    lemma_suffix_entries(w, wrest, e - i, 0, Seq::<Seq<char>>::empty());
    assert(entries_from(w, 0, Seq::<Seq<char>>::empty()) == entries_from(
        w,
        (e - i) + 0,
        Seq::<Seq<char>>::empty(),
    ));
}

#[verifier::rlimit(50)]
proof fn lemma_clean_rewrite(s: Seq<char>, i: int, p: int, e: int, key: Seq<char>, txt: Seq<char>)
    requires
        0 <= i <= s.len(),
        find_match(s, i) == Some((p, e)),
        match_entry(s, p, e) == Some((key, txt)),
        key_rewrite_safe(key),
        entries_from(rewrite_from(s, e), 0, Seq::<Seq<char>>::empty()) == Seq::<
            (Seq<char>, Seq<char>),
        >::empty(),
    ensures
        entries_from(rewrite_from(s, i), 0, Seq::<Seq<char>>::empty()) == Seq::<
            (Seq<char>, Seq<char>),
        >::empty(),
{
    lemma_find_match_some(s, i);
    let w = rewrite_from(s, i);
    let wrest = rewrite_from(s, e);
    let cseg = s.subrange(i, p);
    let acc = accessor_of(key);
    assert(w == cseg + acc + wrest);
    reveal_strlit("AppLocalizations.of(context)!.");
    assert(accessor_prefix().len() == 30);
    assert(acc.len() == 30 + key.len());
    let ca = (p - i) + acc.len();
    assert(w.len() == ca + wrest.len());
    assert forall|d: int| 0 <= d < wrest.len() implies #[trigger] w[ca + d] == wrest[d] by {
    }
    assert forall|d: int| 0 <= d < p - i implies #[trigger] w[d] == s[i + d] by {
    }
    assert forall|d: int| 0 <= d < acc.len() implies #[trigger] w[(p - i) + d] == acc[d] by {
    }
    assert(w[(p - i) + 0] == acc[0]);
    assert(acc[0] == accessor_prefix()[0]);
    assert(w[p - i] != '"');
    lemma_segment_no_match(s, i, p, w);
    lemma_accessor_no_match(w, p - i, key);
    assert forall|j: int| 0 <= j < ca implies match_at(w, j) is None by {
        if j < p - i {
        } else {
            assert(p - i <= j < (p - i) + 30 + key.len());
        }
    }
    lemma_skip_find(w, 0, ca);
    lemma_suffix_find(w, wrest, ca, 0);
    lemma_suffix_entries(w, wrest, ca, 0, Seq::<Seq<char>>::empty());
    assert(find_match(w, 0) == find_match(w, ca + 0));
    assert(entries_from(w, 0, Seq::<Seq<char>>::empty()) == entries_from(
        w,
        ca + 0,
        Seq::<Seq<char>>::empty(),
    ));
}

proof fn lemma_rewrite_from_clean(s: Seq<char>, i: int)
    requires
        0 <= i <= s.len(),
        all_keys_safe(s),
    ensures
        entries_from(rewrite_from(s, i), 0, Seq::<Seq<char>>::empty()) == Seq::<
            (Seq<char>, Seq<char>),
        >::empty(),
    decreases s.len() - i,
{
    match find_match(s, i) {
        None => {
            lemma_clean_none(s, i);
        },
        Some((p, e)) => {
            lemma_find_match_some(s, i);
            lemma_rewrite_from_clean(s, e);
            match match_entry(s, p, e) {
                None => {
                    lemma_clean_skip(s, i, p, e);
                },
                Some((key, txt)) => {
                    assert(key_rewrite_safe(key)) by {
                        assert(match_at(s, p) == Some(e));
                    }
                    lemma_clean_rewrite(s, i, p, e, key, txt);
                },
            }
        },
    }
}

/// Extraction is idempotent: the rewritten content of any source text whose
/// synthesized keys are safe to splice yields no new entries, and rewriting
/// it again returns it unchanged.
pub proof fn lemma_extract_idempotent(s: Seq<char>)
    requires
        all_keys_safe(s),
    ensures
        entries_of(rewrite_of(s)).len() == 0,
        rewrite_of(rewrite_of(s)) == rewrite_of(s),
{
    lemma_rewrite_from_clean(s, 0);
    lemma_no_entries_identity(rewrite_of(s), 0);
    assert(rewrite_of(s).subrange(0, rewrite_of(s).len() as int) =~= rewrite_of(s));
}

} // verus!
