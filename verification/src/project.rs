//! Project configuration: the validated description of where the source
//! tree, the catalog directory and the template catalog live.  Reading and
//! parsing the two configuration files is outside work; the library receives
//! their plain fields and validates them here.

use vstd::prelude::*;

use crate::text::chars_of;
use crate::text::copy_range;
use crate::text::str_starts_with;
use crate::text::string_of;
use vstd::string::StringExecFns;

verus! {

/// The fields read from the localization configuration file.
#[derive(Debug, Clone, PartialEq, Eq)]
pub struct L10NYaml {
    pub arb_dir: String,
    pub template_arb_file: String,
    pub output_localization_file: String,
}

/// The fields read from the package manifest.
#[derive(Debug, Clone, PartialEq, Eq)]
pub struct PubSpec {
    pub name: String,
}

/// A validated project: its name, its root, the catalog directory, the
/// template catalog file and the generated-bindings file.
#[derive(Debug, Clone, PartialEq, Eq)]
pub struct Project {
    pub name: String,
    pub root_dir: String,
    pub l10n_dir: String,
    pub arb_template: String,
    pub localizations_file: String,
}

/// `s` without one trailing slash, when it carries one.
pub open spec fn strip_trailing_slash(s: Seq<char>) -> Seq<char> {
    if s.len() > 0 && s.last() == '/' {
        s.drop_last()
    } else {
        s
    }
}

/// The catalog directory as referenced from an import line: the `lib/`
/// prefix is dropped.
pub open spec fn import_dir_of(l10n: Seq<char>) -> Seq<char> {
    if l10n.len() >= 4 && l10n.subrange(0, 4) == "lib/"@ {
        l10n.skip(4)
    } else {
        l10n
    }
}

impl Project {
    /// Validates the parsed configuration: the catalog directory must point
    /// under `lib/`; a trailing slash on it is dropped.
    pub fn from_config(pubspec: PubSpec, config: L10NYaml, root_dir: String) -> (r: Result<
        Project,
        String,
    >)
        ensures
            r matches Ok(p) ==> {
                &&& config.arb_dir@.len() >= 4 && config.arb_dir@.subrange(0, 4) == "lib/"@
                &&& p.name@ == pubspec.name@
                &&& p.root_dir@ == root_dir@
                &&& p.l10n_dir@ == strip_trailing_slash(config.arb_dir@)
                &&& p.arb_template@ == config.template_arb_file@
                &&& p.localizations_file@ == config.output_localization_file@
            },
            r is Err <==> !(config.arb_dir@.len() >= 4 && config.arb_dir@.subrange(0, 4)
                == "lib/"@),
    {
        proof {
            reveal_strlit("lib/");
        }
        if !str_starts_with(config.arb_dir.as_str(), "lib/") {
            return Err(String::from_str(
                "Please, make sure your configuration arb-dir points to `lib/...`",
            ));
        }
        let dir_chars = chars_of(config.arb_dir.as_str());
        let n = dir_chars.len();
        let l10n_dir = if n > 0 && dir_chars[n - 1] == '/' {
            let trimmed = copy_range(&dir_chars, 0, n - 1);
            proof {
                assert(trimmed@ =~= strip_trailing_slash(config.arb_dir@));
            }
            string_of(&trimmed)
        } else {
            string_of(&dir_chars)
        };
        Ok(
            Project {
                name: pubspec.name,
                root_dir,
                l10n_dir,
                arb_template: config.template_arb_file,
                localizations_file: config.output_localization_file,
            },
        )
    }

    /// The path of the template catalog file: root, catalog directory and
    /// template file name joined with slashes.
    pub fn arb_template_path(&self) -> (r: String)
        ensures
            r@ == self.root_dir@ + seq!['/'] + self.l10n_dir@ + seq!['/'] + self.arb_template@,
    {
        let mut r = self.root_dir.clone();
        r.push('/');
        r.append(self.l10n_dir.as_str());
        r.push('/');
        r.append(self.arb_template.as_str());
        proof {
            assert(r@ =~= self.root_dir@ + seq!['/'] + self.l10n_dir@ + seq!['/']
                + self.arb_template@);
        }
        r
    }

    /// The catalog directory as referenced from an import line.
    pub fn import_dir(&self) -> (r: String)
        ensures
            r@ == import_dir_of(self.l10n_dir@),
    {
        proof {
            reveal_strlit("lib/");
        }
        if str_starts_with(self.l10n_dir.as_str(), "lib/") {
            let v = chars_of(self.l10n_dir.as_str());
            let tail = copy_range(&v, 4, v.len());
            proof {
                assert(tail@ =~= import_dir_of(self.l10n_dir@));
            }
            string_of(&tail)
        } else {
            let v = chars_of(self.l10n_dir.as_str());
            string_of(&v)
        }
    }
}

} // verus!
