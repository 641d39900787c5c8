//! The translation pipeline's decisions: which catalog entries still need a
//! translation, which language a catalog file targets, how a provider
//! response is classified, and how a batch of jobs is dispatched — with the
//! rate-limit signal aborting everything that was not yet attempted.
//!
//! The provider call itself and all file traffic happen outside; the
//! library receives plain values and returns decisions.

use vstd::prelude::*;

use crate::arb::ArbFile;
use crate::arb::ArbValue;
use crate::arb::Catalog;
use crate::syncer::is_untranslated;
use crate::text::chars_of;
use crate::text::copy_range;
use crate::text::str_contains;
use crate::text::string_of;
use vstd::string::StringExecFns;

verus! {

/// What one provider call came to: a translation, a failure to log, or the
/// rate-limit signal that aborts the batch.
#[derive(Debug)]
pub enum TranslateResult {
    Translated(String),
    Error(String),
    RateLimitExceeded,
}

/// One pending translation: a key, the fallback text to translate, the
/// target language, and the catalog file owning the entry.
#[derive(Debug, Clone)]
pub struct TranslationJob {
    pub key: String,
    pub text: String,
    pub lang: String,
    pub arb_file: ArbFile,
}

/// The index of the last dot standing past the first position, or -1.
pub open spec fn last_dot(s: Seq<char>) -> int
    decreases s.len(),
{
    if s.len() <= 1 {
        -1
    } else if s.last() == '.' {
        s.len() - 1
    } else {
        last_dot(s.drop_last())
    }
}

/// The file stem: everything before the last dot, when one stands past the
/// first position; the whole name otherwise.
pub open spec fn stem_of(s: Seq<char>) -> Seq<char> {
    if last_dot(s) >= 0 {
        s.subrange(0, last_dot(s))
    } else {
        s
    }
}

/// The index of the last underscore, or -1.
pub open spec fn last_us(s: Seq<char>) -> int
    decreases s.len(),
{
    if s.len() == 0 {
        -1
    } else if s.last() == '_' {
        s.len() - 1
    } else {
        last_us(s.drop_last())
    }
}

/// The suffix after the last underscore; the whole text when none occurs.
pub open spec fn after_last_underscore(s: Seq<char>) -> Seq<char> {
    s.subrange(last_us(s) + 1, s.len() as int)
}

/// The language code a catalog file name encodes: the text after the last
/// underscore of its stem.
pub open spec fn lang_of(name: Seq<char>) -> Seq<char> {
    after_last_underscore(stem_of(name))
}

proof fn lemma_last_dot_char(s: Seq<char>)
    ensures
        last_dot(s) >= -1,
        last_dot(s) == -1 ==> forall|d: int| 0 < d < s.len() ==> s[d] != '.',
        last_dot(s) >= 0 ==> {
            &&& 0 < last_dot(s) < s.len()
            &&& s[last_dot(s)] == '.'
            &&& forall|t: int| last_dot(s) < t < s.len() ==> s[t] != '.'
        },
    decreases s.len(),
{
    if s.len() <= 1 {
    } else if s.last() == '.' {
    } else {
        lemma_last_dot_char(s.drop_last());
        assert(forall|d: int| 0 <= d < s.len() - 1 ==> s.drop_last()[d] == s[d]);
    }
}

proof fn lemma_last_us_char(s: Seq<char>)
    ensures
        last_us(s) >= -1,
        last_us(s) == -1 ==> forall|d: int| 0 <= d < s.len() ==> s[d] != '_',
        last_us(s) >= 0 ==> {
            &&& 0 <= last_us(s) < s.len()
            &&& s[last_us(s)] == '_'
            &&& forall|t: int| last_us(s) < t < s.len() ==> s[t] != '_'
        },
    decreases s.len(),
{
    if s.len() == 0 {
    } else if s.last() == '_' {
    } else {
        lemma_last_us_char(s.drop_last());
        assert(forall|d: int| 0 <= d < s.len() - 1 ==> s.drop_last()[d] == s[d]);
    }
}

/// Infers the target language of a per-language catalog file; `None` when
/// the name encodes none.
pub fn infer_language(file_name: &str) -> (r: Option<String>)
    ensures
        r matches Some(l) ==> l@ == lang_of(file_name@) && l@.len() > 0,
        r is None <==> lang_of(file_name@).len() == 0,
{
    let v = chars_of(file_name);
    let n = v.len();

    let mut stem_end = n;
    let mut i = n;
    while i > 0
        invariant_except_break
            stem_end == n,
            forall|t: int| i as int <= t < n as int ==> v@[t] != '.' || t == 0,
        invariant
            0 <= i <= n,
            n as int == v@.len(),
            v@ == file_name@,
        ensures
            (stem_end == n && (forall|t: int| 0 < t < n as int ==> v@[t] != '.')) || (stem_end
                < n && stem_end > 0 && v@[stem_end as int] == '.' && (forall|t: int|
                (stem_end as int) < t < (n as int) ==> v@[t] != '.')),
        decreases i,
    {
        i = i - 1;
        if i > 0 && v[i] == '.' {
            stem_end = i;
            break ;
        }
    }
    proof {
        lemma_last_dot_char(v@);
        if stem_end == n {
            assert(last_dot(v@) == -1) by {
                if last_dot(v@) >= 0 {
                    assert(v@[last_dot(v@)] != '.');
                }
            }
            assert(stem_of(v@) =~= v@);
        } else {
            assert(last_dot(v@) == stem_end as int) by {
                if last_dot(v@) == -1 {
                    assert(v@[stem_end as int] != '.');
                } else if last_dot(v@) < stem_end as int {
                    assert(v@[stem_end as int] != '.');
                } else if last_dot(v@) > stem_end as int {
                    assert(v@[last_dot(v@)] != '.');
                }
            }
        }
    }
    let stem = copy_range(&v, 0, stem_end);
    proof {
        assert(stem@ == stem_of(file_name@));
    }
    let m = stem.len();
    let mut cut = 0usize;
    let mut j = m;
    while j > 0
        invariant_except_break
            cut == 0,
            forall|t: int| j as int <= t < m as int ==> stem@[t] != '_',
        invariant
            0 <= j <= m,
            m as int == stem@.len(),
        ensures
            (cut == 0 && (forall|t: int| 0 <= t < m as int ==> stem@[t] != '_')) || (cut > 0
                && cut <= m && stem@[cut as int - 1] == '_' && (forall|t: int|
                cut as int <= t < (m as int) ==> stem@[t] != '_')),
        decreases j,
    {
        j = j - 1;
        if stem[j] == '_' {
            cut = j + 1;
            break ;
        }
    }
    proof {
        lemma_last_us_char(stem@);
        if cut == 0 {
            assert(last_us(stem@) == -1) by {
                if last_us(stem@) >= 0 {
                    assert(stem@[last_us(stem@)] != '_');
                }
            }
        } else {
            assert(last_us(stem@) == cut as int - 1) by {
                if last_us(stem@) == -1 {
                    assert(stem@[cut as int - 1] != '_');
                } else if last_us(stem@) < cut as int - 1 {
                    assert(stem@[cut as int - 1] != '_');
                } else if last_us(stem@) > cut as int - 1 {
                    assert(stem@[last_us(stem@)] != '_');
                }
            }
        }
        assert(cut as int == last_us(stem@) + 1);
    }
    let lang_chars = copy_range(&stem, cut, m);
    proof {
        assert(lang_chars@ == lang_of(file_name@));
    }
    if lang_chars.len() == 0 {
        None
    } else {
        Some(string_of(&lang_chars))
    }
}

/// The (key, fallback text) pairs of a catalog's untranslated entries: the
/// text values that start with the sentinel, sentinel stripped.
pub open spec fn jobs_of(es: Seq<crate::arb::Entry>) -> Seq<(Seq<char>, Seq<char>)>
    decreases es.len(),
{
    if es.len() == 0 {
        Seq::<(Seq<char>, Seq<char>)>::empty()
    } else {
        let head = if es[0].value matches ArbValue::Text(t) && is_untranslated(t@) {
            seq![(es[0].key@, es[0].value->Text_0@.drop_first())]
        } else {
            Seq::<(Seq<char>, Seq<char>)>::empty()
        };
        head + jobs_of(es.drop_first())
    }
}

proof fn lemma_jobs_of_snoc(es: Seq<crate::arb::Entry>, e: crate::arb::Entry)
    ensures
        jobs_of(es.push(e)) == jobs_of(es) + (if e.value matches ArbValue::Text(t)
            && is_untranslated(t@) {
            seq![(e.key@, e.value->Text_0@.drop_first())]
        } else {
            Seq::<(Seq<char>, Seq<char>)>::empty()
        }),
    decreases es.len(),
{
    let tailseq = if e.value matches ArbValue::Text(t) && is_untranslated(t@) {
        seq![(e.key@, e.value->Text_0@.drop_first())]
    } else {
        Seq::<(Seq<char>, Seq<char>)>::empty()
    };
    if es.len() == 0 {
        assert(es.push(e)[0] == e);
        assert(es.push(e).drop_first() =~= Seq::<crate::arb::Entry>::empty());
        assert(jobs_of(es.push(e).drop_first()) =~= Seq::<(Seq<char>, Seq<char>)>::empty());
        assert(jobs_of(es.push(e)) =~= jobs_of(es) + tailseq);
    } else {
        assert(es.push(e)[0] == es[0]);
        assert(es.push(e).drop_first() =~= es.drop_first().push(e));
        lemma_jobs_of_snoc(es.drop_first(), e);
        assert(jobs_of(es.push(e)) =~= jobs_of(es) + tailseq);
    }
}

/// Scans one per-language catalog for untranslated entries and emits one
/// job per placeholder value, carrying the text with the sentinel stripped,
/// the target language, and the owning catalog file.
pub fn scan_catalog(catalog: &Catalog, lang: &str, path: &str) -> (jobs: Vec<TranslationJob>)
    ensures
        jobs@.len() == jobs_of(catalog.entries@).len(),
        forall|j: int|
            #![trigger jobs@[j]]
            0 <= j < jobs@.len() ==> {
                &&& jobs@[j].key@ == jobs_of(catalog.entries@)[j].0
                &&& jobs@[j].text@ == jobs_of(catalog.entries@)[j].1
                &&& jobs@[j].lang@ == lang@
                &&& jobs@[j].arb_file.path@ == path@
            },
{
    let mut jobs: Vec<TranslationJob> = Vec::new();
    let mut i: usize = 0;
    proof {
        assert(catalog.entries@.subrange(0, 0) =~= Seq::<crate::arb::Entry>::empty());
        assert(jobs_of(catalog.entries@.subrange(0, 0)) =~= Seq::<(Seq<char>, Seq<char>)>::empty());
    }
    while i < catalog.entries.len()
        invariant
            i <= catalog.entries@.len(),
            jobs@.len() == jobs_of(catalog.entries@.subrange(0, i as int)).len(),
            forall|j: int|
                #![trigger jobs@[j]]
                0 <= j < jobs@.len() ==> {
                    &&& jobs@[j].key@ == jobs_of(catalog.entries@.subrange(0, i as int))[j].0
                    &&& jobs@[j].text@ == jobs_of(catalog.entries@.subrange(0, i as int))[j].1
                    &&& jobs@[j].lang@ == lang@
                    &&& jobs@[j].arb_file.path@ == path@
                },
        decreases catalog.entries@.len() - i,
    {
        let ghost pre = catalog.entries@.subrange(0, i as int);
        proof {
            lemma_jobs_of_snoc(pre, catalog.entries@[i as int]);
            assert(pre.push(catalog.entries@[i as int]) =~= catalog.entries@.subrange(
                0,
                i as int + 1,
            ));
        }
        let e = &catalog.entries[i];
        match &e.value {
            ArbValue::Text(t) => {
                if crate::text::first_char_is(t.as_str(), '#') {
                    let tv = chars_of(t.as_str());
                    let rest = copy_range(&tv, 1, tv.len());
                    let job = TranslationJob {
                        key: e.key.clone(),
                        text: string_of(&rest),
                        lang: String::from_str(lang),
                        arb_file: ArbFile::new(String::from_str(path)),
                    };
                    proof {
                        assert(rest@ =~= e.value->Text_0@.drop_first());
                    }
                    jobs.push(job);
                }
            },
            ArbValue::Meta(_) => {
            },
        }
        i = i + 1;
    }
    proof {
        assert(catalog.entries@.subrange(0, catalog.entries@.len() as int) =~= catalog.entries@);
    }
    jobs
}

/// The provider's rate-limit message; seeing it means the run must stop.
pub open spec fn quota_message() -> Seq<char> {
    "You exceeded your current quota, please check your plan and billing details. For more information on this error, head to: https://ai.google.dev/gemini-api/docs/rate-limits"@
}

/// Whether a provider response is the rate-limit signal: the dedicated
/// status code together with the quota message in the body.
pub open spec fn rate_limited(status: u16, body: Seq<char>) -> bool {
    status == 429 && crate::text::contains_seq(body, quota_message())
}

/// Classifies a provider response from its status code, its body, and the
/// translated content the caller extracted from it (when any): a success
/// with content is a translation, the rate-limit signal aborts the run, and
/// everything else is an error to log.
pub fn classify_response(status: u16, body: &str, content: Option<String>) -> (r: TranslateResult)
    ensures
        !(200 <= status < 300) && rate_limited(status, body@) ==> r is RateLimitExceeded,
        !(200 <= status < 300) && !rate_limited(status, body@) ==> (r matches
            TranslateResult::Error(m) && m@ == "Gemini API returned an error status: "@ + crate::text::dec_seq(
            status as nat,
        ) + " - "@ + body@),
        (200 <= status < 300) && content is Some ==> (r matches TranslateResult::Translated(t)
            && t@ == content->0@),
        (200 <= status < 300) && content is None ==> (r matches TranslateResult::Error(m) && m@
            == "Could not find translated content in API response: "@ + body@),
{
    if 200 <= status && status < 300 {
        match content {
            Some(t) => TranslateResult::Translated(t),
            None => {
                let mut m = String::from_str("Could not find translated content in API response: ");
                m.append(body);
                TranslateResult::Error(m)
            },
        }
    } else if status == 429 && str_contains(
        body,
        "You exceeded your current quota, please check your plan and billing details. For more information on this error, head to: https://ai.google.dev/gemini-api/docs/rate-limits",
    ) {
        TranslateResult::RateLimitExceeded
    } else {
        let mut digits: Vec<char> = Vec::new();
        crate::text::push_dec(&mut digits, status as u32);
        let mut m = String::from_str("Gemini API returned an error status: ");
        m.append(string_of(&digits).as_str());
        m.append(" - ");
        m.append(body);
        proof {
            assert(m@ =~= "Gemini API returned an error status: "@ + crate::text::dec_seq(
                status as nat,
            ) + " - "@ + body@);
        }
        TranslateResult::Error(m)
    }
}

/// One batch of translation jobs being dispatched: jobs are handed out in
/// order, and the rate-limit signal aborts everything not yet attempted.
#[derive(Debug)]
pub struct Batch {
    pub jobs: Vec<TranslationJob>,
    pub next: usize,
    pub aborted: bool,
}

impl Batch {
    /// Whether the batch would hand out another job.
    pub open spec fn would_dispatch(self) -> bool {
        !self.aborted && self.next < self.jobs@.len()
    }

    /// A fresh batch over one scan's worth of jobs.
    pub fn new(jobs: Vec<TranslationJob>) -> (b: Batch)
        ensures
            b.jobs == jobs,
            b.next == 0,
            !b.aborted,
    {
        Batch { jobs, next: 0, aborted: false }
    }

    /// Hands out the index of the next job to attempt, in order; nothing is
    /// handed out once the batch is aborted or exhausted.
    pub fn next_job(&mut self) -> (r: Option<usize>)
        ensures
            final(self).jobs == old(self).jobs,
            final(self).aborted == old(self).aborted,
            old(self).would_dispatch() ==> r == Some(old(self).next) && final(self).next == old(
                self,
            ).next + 1,
            !old(self).would_dispatch() ==> r is None && final(self).next == old(self).next,
            old(self).aborted ==> r is None,
    {
        if self.aborted || self.next >= self.jobs.len() {
            None
        } else {
            let i = self.next;
            self.next = self.next + 1;
            Some(i)
        }
    }

    /// Records one job's outcome: the rate-limit signal aborts the batch,
    /// so that every job not yet attempted stays unattempted; any other
    /// outcome leaves dispatch untouched.
    pub fn record(&mut self, outcome: &TranslateResult)
        ensures
            final(self).jobs == old(self).jobs,
            final(self).next == old(self).next,
            final(self).aborted == (old(self).aborted || outcome is RateLimitExceeded),
    {
        match outcome {
            TranslateResult::RateLimitExceeded => {
                self.aborted = true;
            },
            _ => {
            },
        }
    }
}

/// Once a batch is aborted, no job is ever dispatched again: jobs after a
/// rate-limited one are never attempted.
pub proof fn lemma_abort_stops_dispatch(b: Batch)
    requires
        b.aborted,
    ensures
        !b.would_dispatch(),
{
}

/// Stores a finished translation through the single writer: the placeholder
/// value is replaced in place — the entry count does not change for a key
/// that exists — and the stored value no longer carries the sentinel
/// whenever the translated text does not.
pub fn apply_translation(catalog: &mut Catalog, key: &str, translated: &str)
    requires
        old(catalog).wf(),
    ensures
        final(catalog).wf(),
        final(catalog).has_key(key@),
        old(catalog).has_key(key@) ==> final(catalog).entries@.len() == old(
            catalog,
        ).entries@.len(),
        final(catalog).val_of(key@) matches ArbValue::Text(t) && t@ == translated@,
        !is_untranslated(translated@) ==> (final(catalog).val_of(key@) matches ArbValue::Text(t)
            && !is_untranslated(t@)),
        forall|k: Seq<char>|
            old(catalog).has_key(k) && k != key@ ==> #[trigger] final(catalog).has_key(k)
                && final(catalog).val_of(k) == old(catalog).val_of(k),
{
    proof {
        if old(catalog).has_key(key@) {
            old(catalog).lemma_idx(key@);
        }
    }
    catalog.add_key(key, translated);
    proof {
        assert forall|k: Seq<char>|
            old(catalog).has_key(k) && k != key@ implies #[trigger] final(catalog).has_key(k)
            && final(catalog).val_of(k) == old(catalog).val_of(k) by {
            old(catalog).lemma_idx(k);
            let ik = old(catalog).idx_of(k);
            if old(catalog).has_key(key@) {
                assert(ik != old(catalog).idx_of(key@));
                assert(catalog.entries@[ik] == old(catalog).entries@[ik]);
            } else {
                assert(catalog.entries@[ik] == old(catalog).entries@[ik]);
            }
            assert(catalog.has_key(k)) by {
                assert(catalog.keys()[ik] == k);
            }
            catalog.lemma_idx(k);
        }
    }
}

} // verus!
