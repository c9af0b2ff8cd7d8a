//! The runtime side: one bundle per language, served with fallback to
//! the default language, and the localizer that renders an entry
//! without ever failing its caller.
use vstd::prelude::*;
use fluent_bundle::FluentArgs;
use crate::fluent::{
    Bundle, bundle_ids, bundle_valued_message_ids, format_message, langid_ok, parse_langid,
    rendered_plain, renders_clean,
};
use crate::loader::{
    LocalizationLoadingError, RawFile, Resource, all_parse, files_id_seq, ftl_files,
    lemma_files_ids, load_bundle, load_resources_from_folder, resources_ids,
};

verus! {

/// One language directory as read from the resource root: its name
/// and its raw catalog files.
pub struct LanguageDir {
    pub name: String,
    pub files: Vec<RawFile>,
}

/// A language directory loads cleanly: every catalog file parses and
/// no entry identifier is defined twice within the directory.
pub open spec fn dir_ok(d: LanguageDir) -> bool {
    all_parse(ftl_files(d.files@)) && files_id_seq(d.files@).no_duplicates()
}

/// The bundle a language directory is owed: every default entry, with
/// the directory's own entries on top.
pub open spec fn dir_bundle_ids(defaults: Seq<Resource>, d: LanguageDir) -> Set<Seq<char>> {
    resources_ids(defaults).union(files_id_seq(d.files@).to_set())
}

/// The stored bundle at position `m` came from one of the first
/// `bound` language directories, keyed by its name and holding exactly
/// the entries that directory is owed.
pub open spec fn bundle_sourced(
    bs: Seq<(String, Bundle)>,
    m: int,
    bound: int,
    languages: Seq<LanguageDir>,
    defaults: Seq<Resource>,
) -> bool {
    exists|k: int|
        0 <= k < bound && (#[trigger] languages[k]).name@ == bs[m].0@ && bundle_ids(bs[m].1)
            == dir_bundle_ids(defaults, languages[k])
}

/// All loaded bundles, keyed by language name, with the configured
/// default language. Built once; read-only afterwards.
pub struct LocalizationHolder {
    pub bundles: Vec<(String, Bundle)>,
    pub default_language: String,
}

/// The bundle stored beside the first matching key (meaningful when
/// `has_lang`; keys are distinct, so the first match is the match).
pub open spec fn lang_bundle(s: Seq<(String, Bundle)>, n: Seq<char>) -> Bundle
    decreases s.len(),
{
    if s.len() == 0 {
        arbitrary()
    } else if s[0].0@ == n {
        s[0].1
    } else {
        lang_bundle(s.drop_first(), n)
    }
}

impl LocalizationHolder {
    /// No language name is keyed twice.
    pub open spec fn wf(self) -> bool {
        forall|i: int, j: int|
            0 <= i < j < self.bundles@.len() ==> (#[trigger] self.bundles@[i]).0@ != (
            #[trigger] self.bundles@[j]).0@
    }

    /// Whether a bundle is keyed under `n`.
    pub open spec fn has_lang(self, n: Seq<char>) -> bool {
        exists|i: int| 0 <= i < self.bundles@.len() && (#[trigger] self.bundles@[i]).0@ == n
    }

    /// Assembles one bundle per language directory whose name is a
    /// valid language identifier; a directory with an invalid name is
    /// skipped. Each bundle inherits the default catalogs underneath
    /// the language's own.
    pub fn load(
        default_language: String,
        defaults: &Vec<Resource>,
        languages: &Vec<LanguageDir>,
    ) -> (r: Result<LocalizationHolder, LocalizationLoadingError>)
        requires
            forall|i: int, j: int|
                0 <= i < j < languages@.len() ==> (#[trigger] languages@[i]).name@ != (
                #[trigger] languages@[j]).name@,
        ensures
            match r {
                Ok(h) => {
                    &&& h.wf()
                    &&& h.default_language == default_language
                    &&& forall|i: int|
                        0 <= i < languages@.len() && langid_ok(
                            (#[trigger] languages@[i]).name@,
                        ) ==> h.has_lang(languages@[i].name@)
                    &&& forall|n: Seq<char>|
                        h.has_lang(n) ==> langid_ok(n) && exists|i: int|
                            0 <= i < languages@.len() && (#[trigger] languages@[i]).name@ == n
                    &&& forall|i: int|
                        0 <= i < languages@.len() && langid_ok(
                            (#[trigger] languages@[i]).name@,
                        ) ==> dir_ok(languages@[i]) && bundle_ids(
                            lang_bundle(h.bundles@, languages@[i].name@),
                        ) == dir_bundle_ids(defaults@, languages@[i])
                },
                Err(e) => exists|i: int|
                    0 <= i < languages@.len() && langid_ok((#[trigger] languages@[i]).name@)
                        && !dir_ok(languages@[i]),
            },
    {
        let mut bundles: Vec<(String, Bundle)> = Vec::new();
        let mut i: usize = 0;
        while i < languages.len()
            invariant
                i <= languages@.len(),
                forall|a: int, b: int|
                    0 <= a < b < languages@.len() ==> (#[trigger] languages@[a]).name@ != (
                    #[trigger] languages@[b]).name@,
                forall|a: int, b: int|
                    0 <= a < b < bundles@.len() ==> (#[trigger] bundles@[a]).0@ != (
                    #[trigger] bundles@[b]).0@,
                forall|k: int|
                    0 <= k < i && langid_ok((#[trigger] languages@[k]).name@) ==> exists|m: int|
                        0 <= m < bundles@.len() && (#[trigger] bundles@[m]).0@ == languages@[
                            k
                        ].name@,
                forall|m: int|
                    0 <= m < bundles@.len() ==> langid_ok((#[trigger] bundles@[m]).0@) && exists|
                        k: int,
                    | 0 <= k < i && (#[trigger] languages@[k]).name@ == bundles@[m].0@,
                forall|k: int|
                    0 <= k < i && langid_ok((#[trigger] languages@[k]).name@) ==> dir_ok(
                        languages@[k],
                    ),
                forall|m: int|
                    0 <= m < bundles@.len() ==> #[trigger] bundle_sourced(
                        bundles@,
                        m,
                        i as int,
                        languages@,
                        defaults@,
                    ),
            decreases languages@.len() - i,
        {
            let dir = &languages[i];
            match parse_langid(dir.name.as_str()) {
                Err(_) => {
                    proof {
                        assert forall|m: int| 0 <= m < bundles@.len() implies #[trigger]
                        bundle_sourced(bundles@, m, i + 1, languages@, defaults@) by {
                            assert(bundle_sourced(bundles@, m, i as int, languages@, defaults@));
                            let k = choose|k: int|
                                0 <= k < i && (#[trigger] languages@[k]).name@ == bundles@[m].0@
                                    && bundle_ids(bundles@[m].1) == dir_bundle_ids(
                                    defaults@,
                                    languages@[k],
                                );
                            assert(0 <= k < i + 1 && languages@[k].name@ == bundles@[m].0@
                                && bundle_ids(bundles@[m].1) == dir_bundle_ids(
                                defaults@,
                                languages@[k],
                            ));
                        }
                    }
                },
                Ok(identifier) => {
                    let resources = match load_resources_from_folder(&dir.files) {
                        Ok(rs) => rs,
                        Err(e) => {
                            proof {
                                assert(!dir_ok(languages@[i as int]));
                            }
                            return Err(e);
                        },
                    };
                    proof {
                        lemma_files_ids(dir.files@, resources@);
                    }
                    let bundle = match load_bundle(dir.name.as_str(), identifier, defaults, &resources) {
                        Ok(b) => b,
                        Err(e) => {
                            proof {
                                assert(!files_id_seq(dir.files@).no_duplicates());
                                assert(!dir_ok(languages@[i as int]));
                            }
                            return Err(e);
                        },
                    };
                    proof {
                        assert(dir_ok(languages@[i as int]));
                        assert(bundle_ids(bundle) =~= dir_bundle_ids(
                            defaults@,
                            languages@[i as int],
                        ));
                    }
                    let ghost pre = bundles@;
                    let ghost new_ids = bundle_ids(bundle);
                    bundles.push((dir.name.clone(), bundle));
                    proof {
                        assert(bundles@[bundles@.len() - 1].0@ == languages@[i as int].name@);
                        assert(bundle_ids(bundles@[bundles@.len() - 1].1) == new_ids);
                        assert forall|k: int|
                            0 <= k < i + 1 && langid_ok(
                                (#[trigger] languages@[k]).name@,
                            ) implies exists|m: int|
                            0 <= m < bundles@.len() && (#[trigger] bundles@[m]).0@ == languages@[
                                k
                            ].name@ by {
                            if k < i {
                                let m = choose|m: int|
                                    0 <= m < pre.len() && (#[trigger] pre[m]).0@ == languages@[
                                        k
                                    ].name@;
                                assert(bundles@[m].0@ == languages@[k].name@);
                            } else {
                                assert(bundles@[bundles@.len() - 1].0@ == languages@[k].name@);
                            }
                        }
                        assert forall|m: int| 0 <= m < bundles@.len() implies #[trigger]
                        bundle_sourced(bundles@, m, i + 1, languages@, defaults@) by {
                            if m < pre.len() {
                                assert(bundle_sourced(pre, m, i as int, languages@, defaults@));
                                let k = choose|k: int|
                                    0 <= k < i && (#[trigger] languages@[k]).name@ == pre[m].0@
                                        && bundle_ids(pre[m].1) == dir_bundle_ids(
                                        defaults@,
                                        languages@[k],
                                    );
                                assert(bundles@[m] == pre[m]);
                                assert(languages@[k].name@ == bundles@[m].0@ && bundle_ids(
                                    bundles@[m].1,
                                ) == dir_bundle_ids(defaults@, languages@[k]));
                            } else {
                                assert(languages@[i as int].name@ == bundles@[m].0@
                                    && bundle_ids(bundles@[m].1) == dir_bundle_ids(
                                    defaults@,
                                    languages@[i as int],
                                ));
                            }
                        }
                    }
                },
            }
            i = i + 1;
        }
        proof {
            assert forall|t: int|
                0 <= t < languages@.len() && langid_ok(
                    (#[trigger] languages@[t]).name@,
                ) implies bundle_ids(lang_bundle(bundles@, languages@[t].name@))
                == dir_bundle_ids(defaults@, languages@[t]) by {
                let m = choose|m: int|
                    0 <= m < bundles@.len() && (#[trigger] bundles@[m]).0@ == languages@[
                        t
                    ].name@;
                lemma_lang_bundle_at(bundles@, m);
                assert(lang_bundle(bundles@, languages@[t].name@) == bundles@[m].1);
                assert(bundle_sourced(bundles@, m, languages@.len() as int, languages@, defaults@));
                let k = choose|k: int|
                    0 <= k < languages@.len() && (#[trigger] languages@[k]).name@ == bundles@[
                        m
                    ].0@ && bundle_ids(bundles@[m].1) == dir_bundle_ids(
                        defaults@,
                        languages@[k],
                    );
                if k != t {
                    if k < t {
                        assert(languages@[k].name@ != languages@[t].name@);
                    } else {
                        assert(languages@[t].name@ != languages@[k].name@);
                    }
                    assert(false);
                }
            }
        }
        Ok(LocalizationHolder { bundles, default_language })
    }

    /// The bundle for the requested language, or the default
    /// language's bundle when the language is unknown.
    pub fn get_bundle(&self, language: &str) -> (r: &Bundle)
        requires
            self.wf(),
            self.has_lang(self.default_language@),
        ensures
            *r == if self.has_lang(language@) {
                lang_bundle(self.bundles@, language@)
            } else {
                lang_bundle(self.bundles@, self.default_language@)
            },
    {
        let mut i: usize = 0;
        while i < self.bundles.len()
            invariant
                i <= self.bundles@.len(),
                forall|j: int| 0 <= j < i ==> (#[trigger] self.bundles@[j]).0@ != language@,
            decreases self.bundles@.len() - i,
        {
            if self.bundles[i].0.as_str().eq(language) {
                proof {
                    lemma_lang_bundle_at(self.bundles@, i as int);
                }
                return &self.bundles[i].1;
            }
            i = i + 1;
        }
        assert(!self.has_lang(language@));
        self.get_default_bundle()
    }

    /// The default language's bundle.
    pub fn get_default_bundle(&self) -> (r: &Bundle)
        requires
            self.wf(),
            self.has_lang(self.default_language@),
        ensures
            *r == lang_bundle(self.bundles@, self.default_language@),
    {
        let mut i: usize = 0;
        while i < self.bundles.len()
            invariant
                i <= self.bundles@.len(),
                self.wf(),
                self.has_lang(self.default_language@),
                forall|j: int|
                    0 <= j < i ==> (#[trigger] self.bundles@[j]).0@ != self.default_language@,
            decreases self.bundles@.len() - i,
        {
            if self.bundles[i].0.eq(&self.default_language) {
                proof {
                    lemma_lang_bundle_at(self.bundles@, i as int);
                }
                return &self.bundles[i].1;
            }
            i = i + 1;
        }
        proof {
            assert(!self.has_lang(self.default_language@));
        }
        unreached()
    }
}

/// With no earlier match, the stored bundle at the key's position is
/// the one `lang_bundle` names.
proof fn lemma_lang_bundle_at(s: Seq<(String, Bundle)>, i: int)
    requires
        0 <= i < s.len(),
        forall|j: int| 0 <= j < i ==> (#[trigger] s[j]).0@ != s[i].0@,
    ensures
        lang_bundle(s, s[i].0@) == s[i].1,
    decreases i,
{
    if i > 0 {
        assert(s.drop_first()[i - 1] == s[i]);
        assert forall|j: int| 0 <= j < i - 1 implies (#[trigger] s.drop_first()[j]).0@ != s
            .drop_first()[i - 1].0@ by {
            assert(s.drop_first()[j] == s[j + 1]);
        }
        lemma_lang_bundle_at(s.drop_first(), i - 1);
    }
}

/// The placeholder a caller receives instead of an error: localized
/// text must never crash its caller.
pub open spec fn failure_text(name: Seq<char>) -> Seq<char> {
    "Failed to localize the \""@ + name + "\" response."@
}

/// The decision the localizer takes on a formatting outcome, exact for
/// every value: a missing entry or a rendering that reported errors
/// yields the placeholder naming the entry, a clean rendering comes
/// back as it is.
pub fn finish_localize(name: &str, outcome: Option<(String, Vec<String>)>) -> (r: String)
    ensures
        match outcome {
            None => r@ == failure_text(name@),
            Some(p) => r@ == (if p.1@.len() == 0 {
                p.0@
            } else {
                failure_text(name@)
            }),
        },
{
    match outcome {
        None => placeholder_for(name),
        Some((text, errors)) => {
            if errors.len() == 0 {
                text
            } else {
                placeholder_for(name)
            }
        },
    }
}

/// Builds the placeholder text for one entry name.
fn placeholder_for(name: &str) -> (r: String)
    ensures
        r@ == failure_text(name@),
{
    let mut out = String::new();
    out.append("Failed to localize the \"");
    out.append(name);
    out.append("\" response.");
    proof {
        assert(out@ =~= failure_text(name@));
    }
    out
}

/// Serves localized text for one language, with the default language
/// underneath.
pub struct LanguageLocalizer<'a> {
    pub localizations: &'a LocalizationHolder,
    pub language: &'a str,
}

impl<'a> LanguageLocalizer<'a> {
    pub fn new(holder: &'a LocalizationHolder, language: &'a str) -> (r: LanguageLocalizer<'a>)
        ensures
            r.localizations == holder,
            r.language == language,
    {
        LanguageLocalizer { localizations: holder, language }
    }

    /// The bundle this localizer reads: the requested language's, or
    /// the default one.
    pub open spec fn active_bundle(self) -> Bundle {
        if self.localizations.has_lang(self.language@) {
            lang_bundle(self.localizations.bundles@, self.language@)
        } else {
            lang_bundle(self.localizations.bundles@, self.localizations.default_language@)
        }
    }

    /// Renders the named entry with the given arguments. An entry that
    /// is absent, or whose rendering reports errors, yields the
    /// placeholder text instead: the caller never sees a failure. A
    /// present entry rendered without arguments comes back as the
    /// formatted text whenever formatting reports no errors. The text
    /// of a rendering with arguments cannot be named abstractly (the
    /// argument collection carries borrowed data an uninterpreted
    /// name cannot take), so for that path the exact decision on every
    /// formatting outcome stands in `finish_localize`, which this
    /// function applies.
    pub fn localize(&self, name: &str, arguments: Option<&FluentArgs>) -> (r: String)
        requires
            self.localizations.wf(),
            self.localizations.has_lang(self.localizations.default_language@),
        ensures
            !bundle_valued_message_ids(self.active_bundle()).contains(name@) ==> r@
                == failure_text(name@),
            arguments is None && bundle_valued_message_ids(self.active_bundle()).contains(
                name@,
            ) ==> r@ == (if renders_clean(self.active_bundle(), name@) {
                rendered_plain(self.active_bundle(), name@)
            } else {
                failure_text(name@)
            }),
    {
        let bundle = self.localizations.get_bundle(self.language);
        proof {
            assert(*bundle == self.active_bundle());
        }
        finish_localize(name, format_message(bundle, name, arguments))
    }

    /// The recovery path for a rendering failure: the errors are
    /// dropped and a generic placeholder naming the entry comes back.
    pub fn handle_errors(&self, name: &str, errors: &Vec<String>) -> (r: String)
        ensures
            r@ == failure_text(name@),
    {
        placeholder_for(name)
    }
}

} // verus!
