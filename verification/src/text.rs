//! Small text utilities shared by the catalog passes: identifier
//! sanitizing, parameter letters, and string joining.
use vstd::prelude::*;

verus! {

/// What Unicode lower-casing maps the text to.
pub uninterp spec fn lower_of(s: Seq<char>) -> Seq<char>;

/// The text with every hyphen replaced by an underscore.
pub open spec fn dehyphened(s: Seq<char>) -> Seq<char> {
    s.map_values(
        |c: char|
            if c == '-' {
                '_'
            } else {
                c
            },
    )
}

/// The sanitized form of a whole identifier: hyphens become
/// underscores, then the result is lower-cased.
pub open spec fn sanitized(s: Seq<char>) -> Seq<char> {
    lower_of(dehyphened(s))
}

/// Relies on str::to_lowercase: the lowercase form depends on the
/// characters alone; an empty string stays empty.
#[verifier::external_body]
fn lowercase(s: &str) -> (r: String)
    ensures
        r@ == lower_of(s@),
        s@.len() == 0 ==> r@.len() == 0,
{
    s.to_lowercase()
}

/// Relies on str's PartialEq: two string slices are equal exactly
/// when their characters are.
pub assume_specification[ <str as core::cmp::PartialEq>::eq ](a: &str, b: &str) -> (r: bool)
    ensures
        r == (a@ == b@),
;

/// Appends one character to a string.
/// Relies on String::push: it appends the given character.
#[verifier::external_body]
pub(crate) fn push_char(s: &mut String, c: char)
    ensures
        final(s)@ == old(s)@.push(c),
{
    s.push(c)
}

/// Turns an entry or catalog name into an operation identifier
/// fragment: hyphens become underscores and the result is lower-cased.
pub fn sanitize(original: &str) -> (r: String)
    ensures
        r@ == sanitized(original@),
{
    let n: usize = original.unicode_len();
    let mut replaced = String::new();
    let mut i: usize = 0;
    while i < n
        invariant
            i <= n,
            n == original@.len(),
            replaced@ == dehyphened(original@).take(i as int),
        decreases n - i,
    {
        let c = original.get_char(i);
        let mapped = if c == '-' {
            '_'
        } else {
            c
        };
        push_char(&mut replaced, mapped);
        i = i + 1;
        assert(replaced@ =~= dehyphened(original@).take(i as int));
    }
    assert(replaced@ =~= dehyphened(original@));
    lowercase(replaced.as_str())
}

/// The `i`-th upper-case letter of the parameter alphabet: `'A'` is letter 0.
pub open spec fn alphabet_letter(i: int) -> char {
    ((65 + i) as u32) as char
}

/// The ordered type-parameter letters for an entry with `amount` variables.
/// More than 26 variables on one entry is rejected before this is called.
pub fn get_letters(amount: usize) -> (r: Vec<char>)
    requires
        amount <= 26,
    ensures
        r@.len() == amount,
        forall|i: int| 0 <= i < amount ==> r@[i] == alphabet_letter(i),
{
    let mut out: Vec<char> = Vec::new();
    let mut i: usize = 0;
    while i < amount
        invariant
            i <= amount,
            amount <= 26,
            out@.len() == i,
            forall|j: int| 0 <= j < i ==> out@[j] == alphabet_letter(j),
        decreases amount - i,
    {
        let c = ((65 + i) as u8) as char;
        assert(c == alphabet_letter(i as int));
        out.push(c);
        i = i + 1;
    }
    out
}

/// The strings of `items` joined with `sep` between neighbours; empty
/// when `items` is empty.
pub open spec fn joined(items: Seq<Seq<char>>, sep: Seq<char>) -> Seq<char>
    decreases items.len(),
{
    if items.len() == 0 {
        Seq::empty()
    } else if items.len() == 1 {
        items[0]
    } else {
        items[0] + sep + joined(items.drop_first(), sep)
    }
}

/// The views of a sequence of strings.
pub open spec fn string_views(items: Seq<String>) -> Seq<Seq<char>> {
    items.map_values(|s: String| s@)
}

proof fn lemma_joined_snoc(items: Seq<Seq<char>>, extra: Seq<char>, sep: Seq<char>)
    requires
        items.len() >= 1,
    ensures
        joined(items.push(extra), sep) == joined(items, sep) + sep + extra,
    decreases items.len(),
{
    let grown = items.push(extra);
    assert(grown[0] == items[0]);
    if items.len() == 1 {
        assert(grown.drop_first() =~= seq![extra]);
        assert(joined(grown.drop_first(), sep) == extra);
        assert(joined(grown, sep) =~= items[0] + sep + extra);
    } else {
        lemma_joined_snoc(items.drop_first(), extra, sep);
        assert(grown.drop_first() =~= items.drop_first().push(extra));
        assert(joined(grown, sep) == grown[0] + sep + joined(grown.drop_first(), sep));
        assert(joined(grown, sep) =~= joined(items, sep) + sep + extra);
    }
}

/// Joins the given strings with `separator` between neighbours, the way
/// diagnostic reports list their items; an empty list gives an empty string.
pub fn fold_displayable(items: &Vec<String>, separator: &str) -> (r: String)
    ensures
        r@ == joined(string_views(items@), separator@),
{
    let mut out = String::new();
    if items.len() == 0 {
        return out;
    }
    out.append(items[0].as_str());
    let mut i: usize = 1;
    while i < items.len()
        invariant
            1 <= i <= items@.len(),
            out@ == joined(string_views(items@).take(i as int), separator@),
        decreases items@.len() - i,
    {
        out.append(separator);
        out.append(items[i].as_str());
        proof {
            let pre = string_views(items@).take(i as int);
            lemma_joined_snoc(pre, items@[i as int]@, separator@);
            assert(string_views(items@).take(i + 1) =~= pre.push(items@[i as int]@));
        }
        i = i + 1;
    }
    assert(string_views(items@).take(items@.len() as int) =~= string_views(items@));
    out
}

} // verus!
