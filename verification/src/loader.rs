//! The resource loader and bundle assembler: catalog files with the
//! right extension are parsed into resources, parse failures are
//! rendered with line and column context, and one bundle per language
//! is built on top of the default language's catalogs after a
//! duplicate-key check against the language's own catalogs alone.
use vstd::prelude::*;
use std::sync::Arc;
use fluent_bundle::FluentResource;
use unic_langid::LanguageIdentifier;
use crate::diag::prettify_parse_error;
use crate::fluent::{
    Bundle, add_resource, add_resource_overriding, bundle_ids, bundle_valued_message_ids,
    clone_langid, clone_resource, new_bundle, parse_ok, parse_resource, parsed_entry_ids,
    resource_entry_ids, resource_id_set, resource_valued_message_ids, set_plain_output,
};
use crate::text::fold_displayable;

verus! {

/// The extension a catalog file must carry to be loaded.
pub fn file_extension() -> (r: &'static str)
    ensures
        r@ == ".ftl"@,
{
    ".ftl"
}

/// One raw catalog file, as read from a language's directory: its
/// plain file name and its text.
pub struct RawFile {
    pub name: String,
    pub content: String,
}

/// A parsed resource and its original file name without the extension.
pub struct Resource {
    pub name: String,
    pub resource: Arc<FluentResource>,
}

/// A fatal loading defect, with enough context to locate it.
#[derive(Debug)]
pub struct LocalizationLoadingError {
    error: String,
}

impl LocalizationLoadingError {
    /// The message of the defect.
    pub closed spec fn text(self) -> Seq<char> {
        self.error@
    }

    pub fn new(error: String) -> (r: LocalizationLoadingError)
        ensures
            r.text() == error@,
    {
        LocalizationLoadingError { error }
    }

    /// The message, for callers that report it.
    pub fn message(&self) -> (r: &String)
        ensures
            r@ == self.text(),
    {
        &self.error
    }
}

/// Whether a file name ends in the catalog extension.
pub open spec fn has_ftl_ext(n: Seq<char>) -> bool {
    n.len() >= 4 && n.subrange(n.len() - 4, n.len() as int) == ".ftl"@
}

/// The file name without the extension.
pub open spec fn strip_ext(n: Seq<char>) -> Seq<char> {
    n.take(n.len() - 4)
}

/// Whether the name carries the catalog extension.
fn ends_with_ftl(name: &String) -> (r: bool)
    ensures
        r == has_ftl_ext(name@),
{
    let s = name.as_str();
    let n = s.unicode_len();
    if n < 4 {
        proof {
            reveal_strlit(".ftl");
        }
        return false;
    }
    proof {
        reveal_strlit(".ftl");
    }
    let r = s.get_char(n - 4) == '.' && s.get_char(n - 3) == 'f' && s.get_char(n - 2) == 't'
        && s.get_char(n - 1) == 'l';
    proof {
        if r {
            assert(name@.subrange(name@.len() - 4, name@.len() as int) =~= ".ftl"@);
        } else {
            let sub = name@.subrange(name@.len() - 4, name@.len() as int);
            if sub == ".ftl"@ {
                assert(sub[0] == name@[name@.len() - 4]);
                assert(sub[1] == name@[name@.len() - 3]);
                assert(sub[2] == name@[name@.len() - 2]);
                assert(sub[3] == name@[name@.len() - 1]);
                assert(sub[0] == '.' && sub[1] == 'f' && sub[2] == 't' && sub[3] == 'l');
                assert(false);
            }
        }
    }
    r
}

/// The files the loader takes: those with the catalog extension, in
/// order; others are skipped.
pub open spec fn ftl_files(fs: Seq<RawFile>) -> Seq<RawFile>
    decreases fs,
{
    if fs.len() == 0 {
        Seq::empty()
    } else if has_ftl_ext(fs[0].name@) {
        seq![fs[0]] + ftl_files(fs.drop_first())
    } else {
        ftl_files(fs.drop_first())
    }
}

pub proof fn lemma_ftl_files_snoc(fs: Seq<RawFile>, i: int)
    requires
        0 <= i < fs.len(),
    ensures
        ftl_files(fs.take(i + 1)) == ftl_files(fs.take(i)) + (if has_ftl_ext(fs[i].name@) {
            seq![fs[i]]
        } else {
            Seq::<RawFile>::empty()
        }),
    decreases i,
{
    let a = fs.take(i + 1);
    let tail = if has_ftl_ext(fs[i].name@) {
        seq![fs[i]]
    } else {
        Seq::<RawFile>::empty()
    };
    if i == 0 {
        assert(a.drop_first() =~= Seq::empty());
        assert(a[0] == fs[0]);
        assert(fs.take(0) =~= Seq::<RawFile>::empty());
        assert(ftl_files(a) =~= ftl_files(fs.take(0)) + tail);
    } else {
        lemma_ftl_files_snoc(fs.drop_first(), i - 1);
        assert(a.drop_first() =~= fs.drop_first().take(i));
        assert(fs.take(i).drop_first() =~= fs.drop_first().take(i - 1));
        assert(a[0] == fs[0]);
        assert(fs.take(i)[0] == fs[0]);
        assert(fs.drop_first()[i - 1] == fs[i]);
        assert(ftl_files(a) =~= ftl_files(fs.take(i)) + tail);
    }
}

/// All catalog files of the batch parse.
pub open spec fn all_parse(fs: Seq<RawFile>) -> bool {
    forall|i: int| 0 <= i < fs.len() ==> parse_ok((#[trigger] fs[i]).content@)
}

/// Takes the extension off a name known to carry it.
fn strip_ftl_ext(name: &String) -> (r: String)
    requires
        has_ftl_ext(name@),
    ensures
        r@ == strip_ext(name@),
{
    let s = name.as_str();
    let n = s.unicode_len();
    let stripped = s.substring_char(0, n - 4);
    proof {
        assert(stripped@ =~= strip_ext(name@));
    }
    stripped.to_owned()
}

/// Parses every file that carries the catalog extension, skipping the
/// rest; one file that fails to parse fails the whole load, with every
/// syntax error's line and column in the message. Succeeds exactly
/// when every catalog file parses.
pub fn load_resources_from_folder(files: &Vec<RawFile>) -> (r: Result<
    Vec<Resource>,
    LocalizationLoadingError,
>)
    ensures
        match r {
            Ok(rs) => {
                &&& all_parse(ftl_files(files@))
                &&& rs@.len() == ftl_files(files@).len()
                &&& forall|i: int|
                    0 <= i < rs@.len() ==> (#[trigger] rs@[i]).name@ == strip_ext(
                        ftl_files(files@)[i].name@,
                    )
                &&& forall|i: int|
                    0 <= i < rs@.len() ==> resource_entry_ids((#[trigger] rs@[i]).resource)
                        == parsed_entry_ids(ftl_files(files@)[i].content@)
            },
            Err(e) => !all_parse(ftl_files(files@)) && parse_failure_reported(e, files@),
        },
{
    let mut out: Vec<Resource> = Vec::new();
    let mut i: usize = 0;
    while i < files.len()
        invariant
            i <= files@.len(),
            all_parse(ftl_files(files@.take(i as int))),
            out@.len() == ftl_files(files@.take(i as int)).len(),
            forall|k: int|
                0 <= k < out@.len() ==> (#[trigger] out@[k]).name@ == strip_ext(
                    ftl_files(files@.take(i as int))[k].name@,
                ),
            forall|k: int|
                0 <= k < out@.len() ==> resource_entry_ids((#[trigger] out@[k]).resource)
                    == parsed_entry_ids(ftl_files(files@.take(i as int))[k].content@),
        decreases files@.len() - i,
    {
        let file = &files[i];
        if ends_with_ftl(&file.name) {
            let source = file.content.clone();
            match parse_resource(source) {
                Ok(resource) => {
                    let name = strip_ftl_ext(&file.name);
                    out.push(Resource { name, resource });
                },
                Err(faults) => {
                    let mut pretty: Vec<String> = Vec::new();
                    let mut f: usize = 0;
                    while f < faults.len()
                        decreases faults@.len() - f,
                    {
                        let fault = &faults[f];
                        pretty.push(
                            prettify_parse_error(
                                file.content.as_str(),
                                fault.kind.as_str(),
                                fault.start,
                            ),
                        );
                        f = f + 1;
                    }
                    let mut message = String::new();
                    message.append("Failed to load localization file ");
                    message.append(file.name.as_str());
                    message.append("\n");
                    let folded = fold_displayable(&pretty, "\n-----\n");
                    message.append(folded.as_str());
                    let failure = LocalizationLoadingError::new(message);
                    proof {
                        lemma_ftl_files_snoc(files@, i as int);
                        lemma_ftl_files_prefix(files@, i as int + 1);
                        assert(ftl_files(files@.take(i + 1))[out@.len() as int] == files@[
                            i as int
                        ]);
                        assert(ftl_files(files@)[out@.len() as int] == files@[i as int]);
                        assert(!parse_ok(files@[i as int].content@));
                        assert(!all_parse(ftl_files(files@)));
                        let p = "Failed to load localization file "@ + files@[i as int].name@
                            + "\n"@;
                        assert(failure.text() == p + folded@);
                        assert(failure.text().take(p.len() as int) =~= p);
                        assert(p.is_prefix_of(failure.text()));
                        assert(parse_failure_reported(failure, files@));
                    }
                    return Err(failure);
                },
            }
        }
        proof {
            lemma_ftl_files_snoc(files@, i as int);
            if has_ftl_ext(files@[i as int].name@) {
                assert(ftl_files(files@.take(i + 1)) =~= ftl_files(files@.take(i as int)).push(
                    files@[i as int],
                ));
            } else {
                assert(ftl_files(files@.take(i + 1)) =~= ftl_files(files@.take(i as int)));
            }
        }
        i = i + 1;
    }
    proof {
        assert(files@.take(files@.len() as int) =~= files@);
    }
    Ok(out)
}

/// A prefix's catalog files are a prefix of the whole batch's.
pub proof fn lemma_ftl_files_prefix(fs: Seq<RawFile>, i: int)
    requires
        0 <= i <= fs.len(),
    ensures
        ftl_files(fs.take(i)).len() <= ftl_files(fs).len(),
        forall|k: int|
            0 <= k < ftl_files(fs.take(i)).len() ==> #[trigger] ftl_files(fs)[k] == ftl_files(
                fs.take(i),
            )[k],
    decreases fs.len() - i,
{
    if i == fs.len() {
        assert(fs.take(i) =~= fs);
    } else {
        lemma_ftl_files_snoc(fs, i);
        lemma_ftl_files_prefix(fs, i + 1);
    }
}

/// The entry identifiers of a run of resources, concatenated in order.
pub open spec fn resources_id_seq(rs: Seq<Resource>) -> Seq<Seq<char>>
    decreases rs,
{
    if rs.len() == 0 {
        Seq::empty()
    } else {
        resource_entry_ids(rs[0].resource) + resources_id_seq(rs.drop_first())
    }
}

/// The entry identifiers of a run of resources, as one set.
pub open spec fn resources_ids(rs: Seq<Resource>) -> Set<Seq<char>> {
    resources_id_seq(rs).to_set()
}

/// The entry identifiers that a directory's catalog files parse to,
/// concatenated in loader order.
pub open spec fn files_id_seq(fs: Seq<RawFile>) -> Seq<Seq<char>>
    decreases fs,
{
    if fs.len() == 0 {
        Seq::empty()
    } else if has_ftl_ext(fs[0].name@) {
        parsed_entry_ids(fs[0].content@) + files_id_seq(fs.drop_first())
    } else {
        files_id_seq(fs.drop_first())
    }
}

/// Resources parsed from a directory's catalog files carry exactly the
/// identifiers the files' text parses to.
pub proof fn lemma_files_ids(fs: Seq<RawFile>, rs: Seq<Resource>)
    requires
        rs.len() == ftl_files(fs).len(),
        forall|i: int|
            0 <= i < rs.len() ==> resource_entry_ids((#[trigger] rs[i]).resource)
                == parsed_entry_ids(ftl_files(fs)[i].content@),
    ensures
        resources_id_seq(rs) == files_id_seq(fs),
    decreases fs.len(),
{
    if fs.len() == 0 {
        assert(ftl_files(fs) =~= Seq::<RawFile>::empty());
        assert(resources_id_seq(rs) =~= files_id_seq(fs));
    } else if has_ftl_ext(fs[0].name@) {
        assert(ftl_files(fs) == seq![fs[0]] + ftl_files(fs.drop_first()));
        assert(ftl_files(fs)[0] == fs[0]);
        assert forall|i: int|
            0 <= i < rs.drop_first().len() implies resource_entry_ids(
            (#[trigger] rs.drop_first()[i]).resource,
        ) == parsed_entry_ids(ftl_files(fs.drop_first())[i].content@) by {
            assert(rs.drop_first()[i] == rs[i + 1]);
            assert(ftl_files(fs)[i + 1] == ftl_files(fs.drop_first())[i]);
        }
        lemma_files_ids(fs.drop_first(), rs.drop_first());
        assert(resources_id_seq(rs) =~= files_id_seq(fs));
    } else {
        assert(ftl_files(fs) == ftl_files(fs.drop_first()));
        lemma_files_ids(fs.drop_first(), rs);
        assert(files_id_seq(fs) == files_id_seq(fs.drop_first()));
    }
}

/// The failure message names a catalog file that does not parse.
pub open spec fn parse_failure_reported(e: LocalizationLoadingError, fs: Seq<RawFile>) -> bool {
    exists|i: int|
        0 <= i < fs.len() && has_ftl_ext((#[trigger] fs[i]).name@) && !parse_ok(fs[i].content@)
            && ("Failed to load localization file "@ + fs[i].name@ + "\n"@).is_prefix_of(e.text())
}

/// The failure message names the language and the catalog whose
/// addition hit a duplicate key.
pub open spec fn duplicate_reported(
    e: LocalizationLoadingError,
    lang: Seq<char>,
    rs: Seq<Resource>,
) -> bool {
    exists|i: int|
        0 <= i < rs.len() && ("Failed to load localization file "@ + lang + "/"@ + (#[trigger] rs[
            i
        ]).name@ + " into the duplicate test bundle\n"@).is_prefix_of(e.text())
}

/// The valued-message identifiers a bundle holds after the resources
/// are added in order with override semantics, starting from `acc`:
/// each resource removes every identifier it redefines and adds its
/// own valued messages.
pub open spec fn fold_valued(acc: Set<Seq<char>>, rs: Seq<Resource>) -> Set<Seq<char>>
    decreases rs,
{
    if rs.len() == 0 {
        acc
    } else {
        fold_valued(
            acc.difference(resource_id_set(rs[0].resource)).union(
                resource_valued_message_ids(rs[0].resource),
            ),
            rs.drop_first(),
        )
    }
}

/// The valued-message identifiers a run of resources provides on its
/// own.
pub open spec fn resources_valued(rs: Seq<Resource>) -> Set<Seq<char>> {
    fold_valued(Set::empty(), rs)
}

/// One more resource folds onto the end.
pub proof fn lemma_fold_valued_snoc(acc: Set<Seq<char>>, rs: Seq<Resource>, i: int)
    requires
        0 <= i < rs.len(),
    ensures
        fold_valued(acc, rs.take(i + 1)) == fold_valued(acc, rs.take(i)).difference(
            resource_id_set(rs[i].resource),
        ).union(resource_valued_message_ids(rs[i].resource)),
    decreases i,
{
    let a = rs.take(i + 1);
    if i == 0 {
        assert(a.drop_first() =~= Seq::empty());
        assert(a[0] == rs[0]);
        assert(rs.take(0) =~= Seq::<Resource>::empty());
        let acc1 = acc.difference(resource_id_set(rs[0].resource)).union(
            resource_valued_message_ids(rs[0].resource),
        );
        assert(a.len() == 1);
        assert(resource_id_set(a[0].resource) == resource_id_set(rs[0].resource));
        assert(fold_valued(acc, a) == fold_valued(acc1, a.drop_first()));
        assert(a.drop_first().len() == 0);
        assert(fold_valued(acc1, a.drop_first()) == acc1);
        assert(fold_valued(acc, rs.take(0)) == acc);
        assert(fold_valued(acc, a) =~= fold_valued(acc, rs.take(0)).difference(
            resource_id_set(rs[0].resource),
        ).union(resource_valued_message_ids(rs[0].resource)));
    } else {
        let acc1 = acc.difference(resource_id_set(rs[0].resource)).union(
            resource_valued_message_ids(rs[0].resource),
        );
        lemma_fold_valued_snoc(acc1, rs.drop_first(), i - 1);
        assert(a.drop_first() =~= rs.drop_first().take(i));
        assert(rs.take(i).drop_first() =~= rs.drop_first().take(i - 1));
        assert(a[0] == rs[0]);
        assert(rs.take(i)[0] == rs[0]);
        assert(rs.drop_first()[i - 1] == rs[i]);
        assert(fold_valued(acc, a) == fold_valued(acc1, rs.drop_first().take(i)));
        assert(fold_valued(acc, rs.take(i)) == fold_valued(acc1, rs.drop_first().take(i - 1)));
        assert(fold_valued(acc, a) =~= fold_valued(acc, rs.take(i)).difference(
            resource_id_set(rs[i].resource),
        ).union(resource_valued_message_ids(rs[i].resource)));
    }
}

/// Folding from any start: the start keeps whatever the run does not
/// redefine, beside the run's own valued messages.
pub proof fn lemma_fold_valued_base(acc: Set<Seq<char>>, rs: Seq<Resource>)
    ensures
        fold_valued(acc, rs) == acc.difference(resources_ids(rs)).union(resources_valued(rs)),
    decreases rs.len(),
{
    if rs.len() == 0 {
        assert(resources_id_seq(rs) =~= Seq::<Seq<char>>::empty());
        assert(fold_valued(acc, rs) =~= acc.difference(resources_ids(rs)).union(
            resources_valued(rs),
        ));
    } else {
        let ids0 = resource_id_set(rs[0].resource);
        let val0 = resource_valued_message_ids(rs[0].resource);
        let a1 = acc.difference(ids0).union(val0);
        let e1 = Set::<Seq<char>>::empty().difference(ids0).union(val0);
        lemma_fold_valued_base(a1, rs.drop_first());
        lemma_fold_valued_base(e1, rs.drop_first());
        lemma_to_set_concat(
            resource_entry_ids(rs[0].resource),
            resources_id_seq(rs.drop_first()),
        );
        assert(resources_id_seq(rs) == resource_entry_ids(rs[0].resource) + resources_id_seq(
            rs.drop_first(),
        ));
        assert(resources_ids(rs) =~= ids0.union(resources_ids(rs.drop_first())));
        assert(fold_valued(acc, rs) == a1.difference(resources_ids(rs.drop_first())).union(
            resources_valued(rs.drop_first()),
        ));
        assert(resources_valued(rs) == e1.difference(resources_ids(rs.drop_first())).union(
            resources_valued(rs.drop_first()),
        ));
        assert(fold_valued(acc, rs) =~= acc.difference(resources_ids(rs)).union(
            resources_valued(rs),
        ));
    }
}

pub proof fn lemma_resources_id_snoc(rs: Seq<Resource>, i: int)
    requires
        0 <= i < rs.len(),
    ensures
        resources_id_seq(rs.take(i + 1)) == resources_id_seq(rs.take(i)) + resource_entry_ids(
            rs[i].resource,
        ),
    decreases i,
{
    let a = rs.take(i + 1);
    if i == 0 {
        assert(a.drop_first() =~= Seq::empty());
        assert(a[0] == rs[0]);
        assert(rs.take(0) =~= Seq::<Resource>::empty());
        assert(resources_id_seq(a) =~= resources_id_seq(rs.take(0)) + resource_entry_ids(
            rs[0].resource,
        ));
    } else {
        lemma_resources_id_snoc(rs.drop_first(), i - 1);
        assert(a.drop_first() =~= rs.drop_first().take(i));
        assert(rs.take(i).drop_first() =~= rs.drop_first().take(i - 1));
        assert(a[0] == rs[0]);
        assert(rs.take(i)[0] == rs[0]);
        assert(rs.drop_first()[i - 1] == rs[i]);
        assert(resources_id_seq(a) =~= resources_id_seq(rs.take(i)) + resource_entry_ids(
            rs[i].resource,
        ));
    }
}

/// Two identifier runs together are duplicate-free exactly when each
/// is and they share nothing.
pub proof fn lemma_concat_no_dup(a: Seq<Seq<char>>, b: Seq<Seq<char>>)
    ensures
        (a + b).no_duplicates() == (a.no_duplicates() && b.no_duplicates() && a.to_set().disjoint(
            b.to_set(),
        )),
{
    if (a + b).no_duplicates() {
        assert forall|i: int, j: int| 0 <= i < a.len() && 0 <= j < a.len() && i != j implies a[i]
            != a[j] by {
            assert((a + b)[i] == a[i]);
            assert((a + b)[j] == a[j]);
        }
        assert forall|i: int, j: int| 0 <= i < b.len() && 0 <= j < b.len() && i != j implies b[i]
            != b[j] by {
            assert((a + b)[a.len() + i] == b[i]);
            assert((a + b)[a.len() + j] == b[j]);
        }
        assert forall|x: Seq<char>| a.to_set().contains(x) implies !b.to_set().contains(x) by {
            let i = choose|i: int| 0 <= i < a.len() && a[i] == x;
            if b.to_set().contains(x) {
                let j = choose|j: int| 0 <= j < b.len() && b[j] == x;
                assert((a + b)[i] == x);
                assert((a + b)[a.len() + j] == x);
            }
        }
        assert(a.to_set().disjoint(b.to_set()));
    }
    if a.no_duplicates() && b.no_duplicates() && a.to_set().disjoint(b.to_set()) {
        assert forall|i: int, j: int|
            0 <= i < (a + b).len() && 0 <= j < (a + b).len() && i != j implies (a + b)[i] != (a
            + b)[j] by {
            if i < a.len() && j < a.len() {
                assert((a + b)[i] == a[i] && (a + b)[j] == a[j]);
            } else if i >= a.len() && j >= a.len() {
                assert((a + b)[i] == b[i - a.len()] && (a + b)[j] == b[j - a.len()]);
            } else if i < a.len() {
                assert((a + b)[i] == a[i] && (a + b)[j] == b[j - a.len()]);
                assert(a.to_set().contains(a[i]));
                assert(b.to_set().contains(b[j - a.len()]));
            } else {
                assert((a + b)[i] == b[i - a.len()] && (a + b)[j] == a[j]);
                assert(a.to_set().contains(a[j]));
                assert(b.to_set().contains(b[i - a.len()]));
            }
        }
        assert((a + b).no_duplicates());
    }
}

/// Builds the bundle for one language: the language's own catalogs are
/// first added, without override semantics, to a throwaway bundle, so
/// that a key defined twice within this language fails loudly; then
/// the real bundle takes the default catalogs and the language's own
/// on top with override semantics, which never errors. On success the
/// bundle holds every default and language entry.
pub fn load_bundle(
    lang_name: &str,
    identifier: LanguageIdentifier,
    defaults: &Vec<Resource>,
    lang_resources: &Vec<Resource>,
) -> (r: Result<Bundle, LocalizationLoadingError>)
    ensures
        match r {
            Ok(b) => {
                &&& bundle_ids(b) == resources_ids(defaults@).union(resources_ids(lang_resources@))
                &&& bundle_valued_message_ids(b) == resources_valued(defaults@).difference(
                    resources_ids(lang_resources@),
                ).union(resources_valued(lang_resources@))
                &&& resources_id_seq(lang_resources@).no_duplicates()
            },
            Err(e) => !resources_id_seq(lang_resources@).no_duplicates() && duplicate_reported(
                e,
                lang_name@,
                lang_resources@,
            ),
        },
{
    let second = clone_langid(&identifier);
    let mut bundle = new_bundle(identifier);
    set_plain_output(&mut bundle);
    let mut test_bundle = new_bundle(second);
    let mut i: usize = 0;
    while i < lang_resources.len()
        invariant
            i <= lang_resources@.len(),
            bundle_ids(test_bundle) == resources_id_seq(lang_resources@.take(i as int)).to_set(),
            resources_id_seq(lang_resources@.take(i as int)).no_duplicates(),
        decreases lang_resources@.len() - i,
    {
        let res = clone_resource(&lang_resources[i].resource);
        match add_resource(&mut test_bundle, res) {
            Ok(_) => {
                proof {
                    lemma_resources_id_snoc(lang_resources@, i as int);
                    lemma_concat_no_dup(
                        resources_id_seq(lang_resources@.take(i as int)),
                        resource_entry_ids(lang_resources@[i as int].resource),
                    );
                    lemma_to_set_concat(
                        resources_id_seq(lang_resources@.take(i as int)),
                        resource_entry_ids(lang_resources@[i as int].resource),
                    );
                }
            },
            Err(errors) => {
                proof {
                    lemma_resources_id_snoc(lang_resources@, i as int);
                    lemma_concat_no_dup(
                        resources_id_seq(lang_resources@.take(i as int)),
                        resource_entry_ids(lang_resources@[i as int].resource),
                    );
                    assert(!resources_id_seq(lang_resources@.take(i + 1)).no_duplicates());
                    lemma_no_dup_prefix(lang_resources@, i + 1);
                }
                let folded = fold_displayable(&errors, "\n-----\n");
                let mut message = String::new();
                message.append("Failed to load localization file ");
                message.append(lang_name);
                message.append("/");
                message.append(lang_resources[i].name.as_str());
                message.append(" into the duplicate test bundle\n");
                message.append(folded.as_str());
                let failure = LocalizationLoadingError::new(message);
                proof {
                    let p = "Failed to load localization file "@ + lang_name@ + "/"@
                        + lang_resources@[i as int].name@
                        + " into the duplicate test bundle\n"@;
                    assert(failure.text() == p + folded@);
                    assert(failure.text().take(p.len() as int) =~= p);
                    assert(p.is_prefix_of(failure.text()));
                    assert(duplicate_reported(failure, lang_name@, lang_resources@));
                }
                return Err(failure);
            },
        }
        i = i + 1;
    }
    proof {
        assert(lang_resources@.take(lang_resources@.len() as int) =~= lang_resources@);
    }
    let mut d: usize = 0;
    proof {
        assert(defaults@.take(0) =~= Seq::<Resource>::empty());
        assert(lang_resources@.take(0) =~= Seq::<Resource>::empty());
    }
    while d < defaults.len()
        invariant
            d <= defaults@.len(),
            bundle_ids(bundle) == resources_ids(defaults@.take(d as int)),
            bundle_valued_message_ids(bundle) == resources_valued(defaults@.take(d as int)),
        decreases defaults@.len() - d,
    {
        let res = clone_resource(&defaults[d].resource);
        add_resource_overriding(&mut bundle, res);
        proof {
            lemma_resources_id_snoc(defaults@, d as int);
            lemma_to_set_concat(
                resources_id_seq(defaults@.take(d as int)),
                resource_entry_ids(defaults@[d as int].resource),
            );
            lemma_fold_valued_snoc(Set::empty(), defaults@, d as int);
        }
        d = d + 1;
    }
    proof {
        assert(defaults@.take(defaults@.len() as int) =~= defaults@);
    }
    let mut l: usize = 0;
    while l < lang_resources.len()
        invariant
            l <= lang_resources@.len(),
            bundle_ids(bundle) == resources_ids(defaults@).union(
                resources_ids(lang_resources@.take(l as int)),
            ),
            bundle_valued_message_ids(bundle) == fold_valued(
                resources_valued(defaults@),
                lang_resources@.take(l as int),
            ),
        decreases lang_resources@.len() - l,
    {
        let res = clone_resource(&lang_resources[l].resource);
        add_resource_overriding(&mut bundle, res);
        proof {
            lemma_resources_id_snoc(lang_resources@, l as int);
            lemma_to_set_concat(
                resources_id_seq(lang_resources@.take(l as int)),
                resource_entry_ids(lang_resources@[l as int].resource),
            );
            lemma_fold_valued_snoc(resources_valued(defaults@), lang_resources@, l as int);
            assert(bundle_ids(bundle) =~= resources_ids(defaults@).union(
                resources_ids(lang_resources@.take(l + 1)),
            ));
        }
        l = l + 1;
    }
    proof {
        assert(lang_resources@.take(lang_resources@.len() as int) =~= lang_resources@);
        lemma_fold_valued_base(resources_valued(defaults@), lang_resources@);
    }
    Ok(bundle)
}

/// The set of a concatenation is the union of the sets.
pub proof fn lemma_to_set_concat(a: Seq<Seq<char>>, b: Seq<Seq<char>>)
    ensures
        (a + b).to_set() == a.to_set().union(b.to_set()),
{
    assert forall|x: Seq<char>| (a + b).to_set().contains(x) implies a.to_set().union(
        b.to_set(),
    ).contains(x) by {
        let i = choose|i: int| 0 <= i < (a + b).len() && (a + b)[i] == x;
        if i < a.len() {
            assert(a[i] == x);
        } else {
            assert(b[i - a.len()] == x);
        }
    }
    assert forall|x: Seq<char>| a.to_set().union(b.to_set()).contains(x) implies (a
        + b).to_set().contains(x) by {
        if a.to_set().contains(x) {
            let i = choose|i: int| 0 <= i < a.len() && a[i] == x;
            assert((a + b)[i] == x);
        } else {
            let i = choose|i: int| 0 <= i < b.len() && b[i] == x;
            assert((a + b)[a.len() + i] == x);
        }
    }
    assert((a + b).to_set() =~= a.to_set().union(b.to_set()));
}

/// Duplicates in a prefix are duplicates of the whole run.
pub proof fn lemma_no_dup_prefix(rs: Seq<Resource>, i: int)
    requires
        0 <= i <= rs.len(),
        !resources_id_seq(rs.take(i)).no_duplicates(),
    ensures
        !resources_id_seq(rs).no_duplicates(),
    decreases rs.len() - i,
{
    if i == rs.len() {
        assert(rs.take(i) =~= rs);
    } else {
        lemma_resources_id_snoc(rs, i);
        lemma_concat_no_dup(resources_id_seq(rs.take(i)), resource_entry_ids(rs[i].resource));
        lemma_no_dup_prefix(rs, i + 1);
    }
}

} // verus!
