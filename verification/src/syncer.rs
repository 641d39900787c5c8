//! Catalog synchronization: propagation of template keys into per-language
//! catalogs.  Propagation is additive only — a key already present in a
//! language catalog is never overwritten — and inserts the template text
//! behind the placeholder sentinel, marking the entry as untranslated.

use vstd::prelude::*;

use crate::arb::ArbValue;
use crate::arb::Catalog;
use crate::arb::Entry;
use crate::arb::is_meta_key;
use crate::text::first_char_is;
use crate::text::str_ends_with;
use crate::text::str_eq;
use vstd::string::StringExecFns;

verus! {

/// The text a placeholder falls back to: the template's text value, or
/// nothing where the template holds no text under the key.
pub open spec fn fallback_text(v: ArbValue) -> Seq<char> {
    match v {
        ArbValue::Text(t) => t@,
        ArbValue::Meta(_) => Seq::<char>::empty(),
    }
}

/// The placeholder stored for a not-yet-translated key: the sentinel in
/// front of the fallback text.
pub open spec fn placeholder_seq(t: Seq<char>) -> Seq<char> {
    seq![crate::sentinel()] + t
}

/// A string value marked as untranslated: it starts with the sentinel.
pub open spec fn is_untranslated(s: Seq<char>) -> bool {
    s.len() > 0 && s[0] == crate::sentinel()
}

/// Whether a directory entry is a per-language catalog file: not the
/// template itself, and carrying the catalog extension.
pub fn is_language_file(file_name: &str, template_name: &str) -> (r: bool)
    ensures
        r == (file_name@ != template_name@ && file_name@.len() >= 4 && file_name@.subrange(
            file_name@.len() - 4,
            file_name@.len() as int,
        ) == ".arb"@),
{
    proof {
        reveal_strlit(".arb");
    }
    !str_eq(file_name, template_name) && str_ends_with(file_name, ".arb")
}

/// Inserts every non-metadata key of the template that `other` lacks, with a
/// placeholder value built from the template's text.  Keys already present
/// keep their entries untouched; nothing is ever removed.  Returns whether
/// anything was inserted.
pub fn propagate(template: &Catalog, other: &mut Catalog) -> (changed: bool)
    requires
        template.wf(),
        old(other).wf(),
    ensures
        final(other).wf(),
        forall|j: int|
            0 <= j < template.entries@.len() && !is_meta_key(template.entries@[j].key@)
                ==> final(other).has_key(template.entries@[j].key@),
        final(other).entries@.len() >= old(other).entries@.len(),
        forall|i: int|
            0 <= i < old(other).entries@.len() ==> final(other).entries@[i] == old(
                other,
            ).entries@[i],
        forall|i: int|
            #![trigger final(other).entries@[i]]
            old(other).entries@.len() <= i < final(other).entries@.len() ==> {
                let e = final(other).entries@[i];
                &&& template.has_key(e.key@)
                &&& !is_meta_key(e.key@)
                &&& !old(other).has_key(e.key@)
                &&& e.value matches ArbValue::Text(t) && t@ == placeholder_seq(
                    fallback_text(template.val_of(e.key@)),
                )
            },
        changed == (final(other).entries@.len() != old(other).entries@.len()),
{
    let ghost old_len = old(other).entries@.len() as int;
    let mut changed = false;
    let mut ti: usize = 0;
    while ti < template.entries.len()
        invariant
            template.wf(),
            other.wf(),
            ti <= template.entries@.len(),
            other.entries@.len() >= old_len,
            old_len == old(other).entries@.len() as int,
            forall|i: int|
                0 <= i < old_len ==> other.entries@[i] == old(other).entries@[i],
            forall|j: int|
                0 <= j < ti as int && !is_meta_key(template.entries@[j].key@)
                    ==> other.has_key(template.entries@[j].key@),
            forall|i: int|
                #![trigger other.entries@[i]]
                old_len <= i < other.entries@.len() ==> {
                    let e = other.entries@[i];
                    &&& template.has_key(e.key@)
                    &&& !is_meta_key(e.key@)
                    &&& !old(other).has_key(e.key@)
                    &&& e.value matches ArbValue::Text(t) && t@ == placeholder_seq(
                        fallback_text(template.val_of(e.key@)),
                    )
                },
            changed == (other.entries@.len() != old_len),
        decreases template.entries@.len() - ti,
    {
        let ghost prev = *other;
        let e = &template.entries[ti];
        if !first_char_is(e.key.as_str(), '@') {
            match other.find_index(e.key.as_str()) {
                Some(_) => {
                },
                None => {
                    proof {
                        assert(template.has_key(e.key@)) by {
                            assert(template.keys()[ti as int] == e.key@);
                        }
                        template.lemma_idx(e.key@);
                        assert(template.idx_of(e.key@) == ti as int);
                        assert(!old(other).has_key(e.key@)) by {
                            if old(other).has_key(e.key@) {
                                let w = choose|i: int|
                                    0 <= i < old(other).keys().len() && old(other).keys()[i]
                                        == e.key@;
                                assert(other.keys()[w] == e.key@);
                            }
                        }
                    }
                    let mut p = String::new();
                    p.push('#');
                    match &e.value {
                        ArbValue::Text(t) => p.append(t.as_str()),
                        ArbValue::Meta(_) => {
                        },
                    }
                    let new_key = e.key.clone();
                    other.entries.push(Entry { key: new_key, value: ArbValue::Text(p) });
                    changed = true;
                    proof {
                        assert(other.keys() =~= prev.keys().push(e.key@));
                        assert forall|j: int|
                            0 <= j < prev.entries@.len() implies prev.entries@[j].key@
                            != e.key@ by {
                            assert(prev.keys()[j] == prev.entries@[j].key@);
                        }
                        assert(other.wf());
                        assert(other.has_key(e.key@)) by {
                            assert(other.keys()[prev.keys().len() as int] == e.key@);
                        }
                    }
                },
            }
        }
        ti = ti + 1;
        proof {
            assert forall|j: int|
                0 <= j < ti as int && !is_meta_key(template.entries@[j].key@) implies other.has_key(
                template.entries@[j].key@,
            ) by {
                if j < ti as int - 1 {
                    assert(prev.has_key(template.entries@[j].key@));
                    let w = choose|i: int|
                        0 <= i < prev.keys().len() && prev.keys()[i] == template.entries@[j].key@;
                    assert(other.keys()[w] == template.entries@[j].key@);
                }
            }
        }
    }
    changed
}

} // verus!
