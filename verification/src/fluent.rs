//! The boundary to the fluent runtime: parsed resources, per-language
//! bundles and pattern formatting. Each trusted item names the outside
//! function it relies on; the contracts speak of the entry identifiers
//! the outside source shows it stores.
use vstd::prelude::*;
use std::sync::Arc;
use fluent_bundle::{FluentArgs, FluentResource};
use fluent_bundle::bundle::FluentBundle as RawBundle;
use intl_memoizer::concurrent::IntlLangMemoizer;
use unic_langid::LanguageIdentifier;

verus! {

/// The concurrent bundle the loader builds: shared resources, one
/// memoizer per language.
pub type Bundle = RawBundle<Arc<FluentResource>, IntlLangMemoizer>;

#[verifier::external_type_specification]
#[verifier::external_body]
pub struct ExFluentResource(FluentResource);

#[verifier::external_type_specification]
#[verifier::external_body]
#[verifier::reject_recursive_types(R)]
#[verifier::reject_recursive_types(M)]
pub struct ExFluentBundle<R, M>(RawBundle<R, M>);

#[verifier::external_type_specification]
#[verifier::external_body]
pub struct ExIntlLangMemoizer(IntlLangMemoizer);

#[verifier::external_type_specification]
#[verifier::external_body]
pub struct ExLanguageIdentifier(LanguageIdentifier);

#[verifier::external_type_specification]
#[verifier::external_body]
pub struct ExFluentArgs<'a>(FluentArgs<'a>);

/// The identifiers of the message and term entries a parsed resource
/// holds, in source order.
pub uninterp spec fn resource_entry_ids(r: Arc<FluentResource>) -> Seq<Seq<char>>;

/// The identifiers whose last entry in the resource is a message that
/// carries a value: when one resource defines an identifier twice, the
/// later entry is the one that override-insertion leaves in a bundle.
pub uninterp spec fn resource_valued_message_ids(r: Arc<FluentResource>) -> Set<Seq<char>>;

/// The identifiers a bundle's entry map holds.
pub uninterp spec fn bundle_ids(b: Bundle) -> Set<Seq<char>>;

/// The identifiers that a bundle resolves to a message with a value.
pub uninterp spec fn bundle_valued_message_ids(b: Bundle) -> Set<Seq<char>>;

/// Whether a string spells a valid language identifier.
pub uninterp spec fn langid_ok(s: Seq<char>) -> bool;

/// Whether catalog text parses without a syntax error.
pub uninterp spec fn parse_ok(source: Seq<char>) -> bool;

/// The entry identifiers that parsing catalog text yields, in source
/// order: a function of the text alone.
pub uninterp spec fn parsed_entry_ids(source: Seq<char>) -> Seq<Seq<char>>;

/// The text that formatting the named message of the bundle with no
/// arguments produces: a function of the bundle value and the
/// identifier alone.
pub uninterp spec fn rendered_plain(b: Bundle, id: Seq<char>) -> Seq<char>;

/// Whether formatting the named message of the bundle with no
/// arguments reports no errors: a function of the bundle value and
/// the identifier alone.
pub uninterp spec fn renders_clean(b: Bundle, id: Seq<char>) -> bool;

/// The entry identifiers of a resource, as a set.
pub open spec fn resource_id_set(r: Arc<FluentResource>) -> Set<Seq<char>> {
    resource_entry_ids(r).to_set()
}

/// One parse failure: the kind of error as text and the byte offset
/// it was reported at.
pub struct ParseFault {
    pub kind: String,
    pub start: usize,
}

/// Relies on FluentResource::try_new: parses catalog text into a
/// resource, or reports each syntax error's kind and start offset;
/// whether it succeeds depends on the text alone.
#[verifier::external_body]
pub fn parse_resource(source: String) -> (r: Result<Arc<FluentResource>, Vec<ParseFault>>)
    ensures
        (r is Ok) == parse_ok(source@),
        r matches Ok(res) ==> resource_entry_ids(res) == parsed_entry_ids(source@),
{
    match FluentResource::try_new(source) {
        Ok(res) => Ok(Arc::new(res)),
        Err((_partial, errors)) => Err(
            errors.into_iter().map(
                |e| ParseFault { kind: format!("{}", e.kind), start: e.pos.start },
            ).collect(),
        ),
    }
}

/// Relies on str::parse via unic_langid's FromStr: whether the text is
/// a well-formed language identifier depends on the text alone.
#[verifier::external_body]
pub fn parse_langid(s: &str) -> (r: Result<LanguageIdentifier, ()>)
    ensures
        (r is Ok) == langid_ok(s@),
{
    match s.parse::<LanguageIdentifier>() {
        Ok(l) => Ok(l),
        Err(_) => Err(()),
    }
}

/// Relies on unic_langid's derived Clone: the copy equals the
/// original.
#[verifier::external_body]
pub fn clone_langid(l: &LanguageIdentifier) -> (r: LanguageIdentifier)
    ensures
        r == *l,
{
    l.clone()
}

/// Relies on Arc::clone: the copy is the same resource.
#[verifier::external_body]
pub fn clone_resource(r: &Arc<FluentResource>) -> (c: Arc<FluentResource>)
    ensures
        c == *r,
{
    r.clone()
}

/// Relies on FluentBundle::new_concurrent: a fresh bundle holds no
/// entries.
#[verifier::external_body]
pub fn new_bundle(locale: LanguageIdentifier) -> (r: Bundle)
    ensures
        bundle_ids(r) == Set::<Seq<char>>::empty(),
        bundle_valued_message_ids(r) == Set::<Seq<char>>::empty(),
{
    Bundle::new_concurrent(vec![locale])
}

/// Relies on FluentBundle::set_use_isolating: it only switches the
/// directional-isolation marks in rendered text and moves no entry.
#[verifier::external_body]
pub fn set_plain_output(b: &mut Bundle)
    ensures
        bundle_ids(*final(b)) == bundle_ids(*old(b)),
        bundle_valued_message_ids(*final(b)) == bundle_valued_message_ids(*old(b)),
{
    b.set_use_isolating(false)
}

/// Relies on FluentBundle::add_resource: each entry is inserted unless
/// its identifier is already taken, in which case it is skipped and an
/// error reported; so it succeeds exactly when the resource's
/// identifiers are fresh and mutually distinct.
#[verifier::external_body]
pub fn add_resource(b: &mut Bundle, r: Arc<FluentResource>) -> (res: Result<(), Vec<String>>)
    ensures
        bundle_ids(*final(b)) == bundle_ids(*old(b)).union(resource_id_set(r)),
        (res is Ok) == (resource_entry_ids(r).no_duplicates() && bundle_ids(*old(b)).disjoint(
            resource_id_set(r),
        )),
        res is Ok ==> bundle_valued_message_ids(*final(b)) == bundle_valued_message_ids(
            *old(b),
        ).union(resource_valued_message_ids(r)),
        res matches Err(es) ==> es@.len() > 0,
{
    b.add_resource(r).map_err(|es| es.into_iter().map(|e| e.to_string()).collect())
}

/// Relies on FluentBundle::add_resource_overriding: each entry is
/// inserted, replacing any entry that held its identifier; it never
/// errors.
#[verifier::external_body]
pub fn add_resource_overriding(b: &mut Bundle, r: Arc<FluentResource>)
    ensures
        bundle_ids(*final(b)) == bundle_ids(*old(b)).union(resource_id_set(r)),
        bundle_valued_message_ids(*final(b)) == bundle_valued_message_ids(*old(b)).difference(
            resource_id_set(r),
        ).union(resource_valued_message_ids(r)),
{
    b.add_resource_overriding(r)
}

/// Relies on FluentBundle::get_message, FluentMessage::value and
/// FluentBundle::format_pattern, chained because the intermediate
/// values borrow from the bundle: the formatted text and the
/// formatting errors come back exactly when the identifier names a
/// message with a value; what the text holds is not modeled.
#[verifier::external_body]
pub fn format_message(b: &Bundle, id: &str, args: Option<&FluentArgs>) -> (r: Option<
    (String, Vec<String>),
>)
    ensures
        (r is Some) == bundle_valued_message_ids(*b).contains(id@),
        args is None ==> (r matches Some(p) ==> p.0@ == rendered_plain(*b, id@) && (p.1@.len()
            == 0) == renders_clean(*b, id@)),
{
    let message = b.get_message(id)?;
    let pattern = message.value()?;
    let mut errors = Vec::new();
    let text = b.format_pattern(pattern, args, &mut errors);
    Some((text.to_string(), errors.into_iter().map(|e| e.to_string()).collect()))
}

} // verus!
