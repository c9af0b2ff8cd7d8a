//! The default-bundle completeness check: every entry name the
//! generated surface expects must carry a value in the default
//! language's own catalogs; whatever is missing is reported once,
//! aggregated, with terms marked apart from messages.
use vstd::prelude::*;
use crate::ast::Entry;
use crate::names::{contains_name, distinct_names, insert_name, name_set};
use crate::text::{fold_displayable, joined, string_views};

verus! {

/// Whether `e` is a message named `n` that carries a value.
pub open spec fn entry_is_valued_message(e: Entry, n: Seq<char>) -> bool {
    match e {
        Entry::Message { id, value } => id@ == n && value is Some,
        Entry::Term { id, value } => false,
    }
}

/// Whether `e` is a term named `n`.
pub open spec fn entry_is_term(e: Entry, n: Seq<char>) -> bool {
    match e {
        Entry::Message { id, value } => false,
        Entry::Term { id, value } => id@ == n,
    }
}

/// The names that the default catalogs provide a message value for.
pub open spec fn found_message_set(es: Seq<Entry>) -> Set<Seq<char>> {
    Set::new(|n: Seq<char>| exists|i: int| 0 <= i < es.len() && entry_is_valued_message(#[trigger] es[i], n))
}

/// The term names the default catalogs define.
pub open spec fn found_term_set(es: Seq<Entry>) -> Set<Seq<char>> {
    Set::new(|n: Seq<char>| exists|i: int| 0 <= i < es.len() && entry_is_term(#[trigger] es[i], n))
}

/// The expected names that `found` does not cover, in order.
pub open spec fn missing_of(expected: Seq<String>, found: Set<Seq<char>>) -> Seq<String>
    decreases expected.len(),
{
    if expected.len() == 0 {
        Seq::empty()
    } else if found.contains(expected[0]@) {
        missing_of(expected.drop_first(), found)
    } else {
        seq![expected[0]] + missing_of(expected.drop_first(), found)
    }
}

pub proof fn lemma_missing_snoc(expected: Seq<String>, found: Set<Seq<char>>, i: int)
    requires
        0 <= i < expected.len(),
    ensures
        missing_of(expected.take(i + 1), found) == missing_of(expected.take(i), found) + (
        if found.contains(expected[i]@) {
            Seq::<String>::empty()
        } else {
            seq![expected[i]]
        }),
    decreases i,
{
    let a = expected.take(i + 1);
    let tail = if found.contains(expected[i]@) {
        Seq::<String>::empty()
    } else {
        seq![expected[i]]
    };
    if i == 0 {
        assert(a.drop_first() =~= Seq::empty());
        assert(a[0] == expected[0]);
        assert(expected.take(0) =~= Seq::<String>::empty());
        assert(missing_of(a, found) =~= missing_of(expected.take(0), found) + tail);
    } else {
        lemma_missing_snoc(expected.drop_first(), found, i - 1);
        assert(a.drop_first() =~= expected.drop_first().take(i));
        assert(expected.take(i).drop_first() =~= expected.drop_first().take(i - 1));
        assert(a[0] == expected[0]);
        assert(expected.take(i)[0] == expected[0]);
        assert(expected.drop_first()[i - 1] == expected[i]);
        assert(missing_of(a, found) =~= missing_of(expected.take(i), found) + tail);
    }
}

/// An expected name that the catalogs do not cover stands in the
/// aggregated missing list.
pub proof fn lemma_missing_reported(expected: Seq<String>, found: Set<Seq<char>>, i: int)
    requires
        0 <= i < expected.len(),
        !found.contains(expected[i]@),
    ensures
        missing_of(expected, found).len() > 0,
        exists|k: int|
            0 <= k < missing_of(expected, found).len() && (#[trigger] missing_of(expected, found)[
                k
            ])@ == expected[i]@,
    decreases expected.len(),
{
    if i == 0 {
        assert(missing_of(expected, found)[0]@ == expected[0]@);
    } else {
        lemma_missing_reported(expected.drop_first(), found, i - 1);
        let rest = missing_of(expected.drop_first(), found);
        let k = choose|k: int| 0 <= k < rest.len() && (#[trigger] rest[k])@ == expected.drop_first()[i - 1]@;
        if found.contains(expected[0]@) {
            assert(missing_of(expected, found)[k]@ == expected[i]@);
        } else {
            assert(missing_of(expected, found)[k + 1]@ == expected[i]@);
        }
    }
}

/// The aggregated missing-key report: messages as they are, terms
/// marked with a leading hyphen.
pub struct MissingKeys {
    pub messages: Vec<String>,
    pub terms: Vec<String>,
}

/// The views the report lists: message names, then hyphen-marked terms.
pub open spec fn report_items(messages: Seq<String>, terms: Seq<String>) -> Seq<Seq<char>> {
    string_views(messages) + terms.map_values(|t: String| "-"@ + t@)
}

impl MissingKeys {
    /// One line naming every missing key, terms distinguishable from
    /// messages by their hyphen mark.
    pub fn report(&self) -> (r: String)
        ensures
            r@ == "The following localization keys were not found in the default language bundle: "@
                + joined(report_items(self.messages@, self.terms@), ", "@),
    {
        let mut items: Vec<String> = Vec::new();
        let mut i: usize = 0;
        while i < self.messages.len()
            invariant
                i <= self.messages@.len(),
                items@.len() == i,
                string_views(items@) == string_views(self.messages@.take(i as int)),
            decreases self.messages@.len() - i,
        {
            let ghost items_pre = items@;
            items.push(self.messages[i].clone());
            proof {
                assert forall|k: int| 0 <= k < i + 1 implies string_views(items@)[k]
                    == string_views(self.messages@.take(i + 1))[k] by {
                    assert(string_views(items@)[k] == items@[k]@);
                    assert(string_views(self.messages@.take(i + 1))[k] == self.messages@.take(
                        i + 1,
                    )[k]@);
                    if k < i {
                        assert(items@[k] == items_pre[k]);
                        assert(string_views(items_pre)[k] == string_views(
                            self.messages@.take(i as int),
                        )[k]);
                        assert(string_views(items_pre)[k] == items_pre[k]@);
                        assert(string_views(self.messages@.take(i as int))[k]
                            == self.messages@.take(i as int)[k]@);
                    }
                }
                assert(string_views(items@).len() == i + 1);
                assert(string_views(self.messages@.take(i + 1)).len() == i + 1);
                assert(string_views(items@) =~~= string_views(self.messages@.take(i + 1)));
            }
            i = i + 1;
        }
        proof {
            assert(self.messages@.take(self.messages@.len() as int) =~= self.messages@);
        }
        let mut j: usize = 0;
        let msg_len = self.messages.len();
        while j < self.terms.len()
            invariant
                j <= self.terms@.len(),
                msg_len == self.messages@.len(),
                items@.len() == msg_len + j,
                string_views(items@) == string_views(self.messages@) + self.terms@.take(
                    j as int,
                ).map_values(|t: String| "-"@ + t@),
            decreases self.terms@.len() - j,
        {
            let mut marked = String::new();
            marked.append("-");
            marked.append(self.terms[j].as_str());
            let ghost items_pre = items@;
            let ghost marked_view = marked@;
            items.push(marked);
            proof {
                let mapper = |t: String| "-"@ + t@;
                let target = string_views(self.messages@) + self.terms@.take(j + 1).map_values(
                    mapper,
                );
                let old_target = string_views(self.messages@) + self.terms@.take(
                    j as int,
                ).map_values(mapper);
                assert(self.terms@.take(j + 1).map_values(mapper).len() == j + 1);
                assert(self.terms@.take(j as int).map_values(mapper).len() == j);
                assert(string_views(self.messages@).len() == self.messages@.len());
                assert forall|k: int| 0 <= k < items@.len() implies string_views(items@)[k]
                    == target[k] by {
                    assert(string_views(items@)[k] == items@[k]@);
                    if k < items_pre.len() {
                        assert(items@[k] == items_pre[k]);
                        assert(string_views(items_pre)[k] == old_target[k]);
                        assert(string_views(items_pre)[k] == items_pre[k]@);
                        if k < self.messages@.len() {
                            assert(target[k] == string_views(self.messages@)[k]);
                            assert(old_target[k] == string_views(self.messages@)[k]);
                        } else {
                            let off = k - self.messages@.len();
                            assert(old_target[k] == self.terms@.take(j as int).map_values(
                                mapper,
                            )[off]);
                            assert(self.terms@.take(j as int).map_values(mapper)[off] == mapper(
                                self.terms@.take(j as int)[off],
                            ));
                            assert(target[k] == self.terms@.take(j + 1).map_values(mapper)[off]);
                            assert(self.terms@.take(j + 1).map_values(mapper)[off] == mapper(
                                self.terms@.take(j + 1)[off],
                            ));
                        }
                    } else {
                        assert(items@[k]@ == marked_view);
                        assert(target[k] == self.terms@.take(j + 1).map_values(mapper)[j as int]);
                        assert(self.terms@.take(j + 1).map_values(mapper)[j as int] == mapper(
                            self.terms@.take(j + 1)[j as int],
                        ));
                        assert(marked_view == "-"@ + self.terms@[j as int]@);
                    }
                }
                assert(string_views(items@).len() == msg_len + j + 1);
                assert(target.len() == msg_len + j + 1);
                assert(string_views(items@) =~~= target);
                assert(target =~~= string_views(self.messages@) + self.terms@.take(
                    j + 1,
                ).map_values(|t: String| "-"@ + t@));
            }
            j = j + 1;
        }
        proof {
            assert(self.terms@.take(self.terms@.len() as int) =~= self.terms@);
            assert(string_views(items@) =~= report_items(self.messages@, self.terms@));
        }
        let body = fold_displayable(&items, ", ");
        let mut out = String::new();
        out.append(
            "The following localization keys were not found in the default language bundle: ",
        );
        out.append(body.as_str());
        out
    }
}

/// Gathers the names the default catalogs actually provide: message
/// names with a value, and term names.
fn gather_found(entries: &Vec<Entry>) -> (r: (Vec<String>, Vec<String>))
    ensures
        distinct_names(r.0@),
        distinct_names(r.1@),
        name_set(r.0@) == found_message_set(entries@),
        name_set(r.1@) == found_term_set(entries@),
{
    let mut msgs: Vec<String> = Vec::new();
    let mut terms: Vec<String> = Vec::new();
    let mut i: usize = 0;
    while i < entries.len()
        invariant
            i <= entries@.len(),
            distinct_names(msgs@),
            distinct_names(terms@),
            name_set(msgs@) == found_message_set(entries@.take(i as int)),
            name_set(terms@) == found_term_set(entries@.take(i as int)),
        decreases entries@.len() - i,
    {
        match &entries[i] {
            Entry::Message { id, value } => {
                if value.is_some() {
                    insert_name(&mut msgs, id.clone());
                }
            },
            Entry::Term { id, value } => {
                insert_name(&mut terms, id.clone());
            },
        }
        proof {
            assert(entries@.take(i + 1).drop_last() =~= entries@.take(i as int));
            assert(entries@.take(i + 1).last() == entries@[i as int]);
            assert forall|n: Seq<char>| found_message_set(entries@.take(i + 1)).contains(
                n,
            ) implies name_set(msgs@).contains(n) by {
                let k = choose|k: int|
                    0 <= k < entries@.take(i + 1).len() && entry_is_valued_message(
                        #[trigger] entries@.take(i + 1)[k],
                        n,
                    );
                if k < i {
                    assert(found_message_set(entries@.take(i as int)).contains(n));
                }
            }
            assert forall|n: Seq<char>| name_set(msgs@).contains(n) implies found_message_set(
                entries@.take(i + 1),
            ).contains(n) by {
                if found_message_set(entries@.take(i as int)).contains(n) {
                    let k = choose|k: int|
                        0 <= k < i && entry_is_valued_message(
                            #[trigger] entries@.take(i as int)[k],
                            n,
                        );
                    assert(entry_is_valued_message(entries@.take(i + 1)[k], n));
                } else {
                    assert(entry_is_valued_message(entries@.take(i + 1)[i as int], n));
                }
            }
            assert(name_set(msgs@) =~= found_message_set(entries@.take(i + 1)));
            assert forall|n: Seq<char>| found_term_set(entries@.take(i + 1)).contains(
                n,
            ) implies name_set(terms@).contains(n) by {
                let k = choose|k: int|
                    0 <= k < entries@.take(i + 1).len() && entry_is_term(
                        #[trigger] entries@.take(i + 1)[k],
                        n,
                    );
                if k < i {
                    assert(found_term_set(entries@.take(i as int)).contains(n));
                }
            }
            assert forall|n: Seq<char>| name_set(terms@).contains(n) implies found_term_set(
                entries@.take(i + 1),
            ).contains(n) by {
                if found_term_set(entries@.take(i as int)).contains(n) {
                    let k = choose|k: int|
                        0 <= k < i && entry_is_term(#[trigger] entries@.take(i as int)[k], n);
                    assert(entry_is_term(entries@.take(i + 1)[k], n));
                } else {
                    assert(entry_is_term(entries@.take(i + 1)[i as int], n));
                }
            }
            assert(name_set(terms@) =~= found_term_set(entries@.take(i + 1)));
        }
        i = i + 1;
    }
    proof {
        assert(entries@.take(entries@.len() as int) =~= entries@);
    }
    (msgs, terms)
}

/// The expected names not covered by `found`, kept in their given
/// order.
fn filter_missing(expected: &Vec<String>, found: &Vec<String>) -> (r: Vec<String>)
    ensures
        r@ == missing_of(expected@, name_set(found@)),
{
    let mut out: Vec<String> = Vec::new();
    let mut i: usize = 0;
    while i < expected.len()
        invariant
            i <= expected@.len(),
            out@ == missing_of(expected@.take(i as int), name_set(found@)),
        decreases expected@.len() - i,
    {
        if !contains_name(found, &expected[i]) {
            out.push(expected[i].clone());
        }
        proof {
            lemma_missing_snoc(expected@, name_set(found@), i as int);
            assert(out@ =~= missing_of(expected@.take(i + 1), name_set(found@)));
        }
        i = i + 1;
    }
    proof {
        assert(expected@.take(expected@.len() as int) =~= expected@);
    }
    out
}

/// Compares the names the generated surface expects against what the
/// default language's catalogs actually hold with a value: whatever is
/// absent is returned as one aggregated report, messages and terms
/// apart. Success comes exactly when nothing is missing.
pub fn validate_default_bundle_complete(
    expected_messages: &Vec<String>,
    expected_terms: &Vec<String>,
    default_entries: &Vec<Entry>,
) -> (r: Result<(), MissingKeys>)
    ensures
        match r {
            Ok(_) => {
                &&& missing_of(expected_messages@, found_message_set(default_entries@)).len() == 0
                &&& missing_of(expected_terms@, found_term_set(default_entries@)).len() == 0
            },
            Err(m) => {
                &&& m.messages@ == missing_of(
                    expected_messages@,
                    found_message_set(default_entries@),
                )
                &&& m.terms@ == missing_of(expected_terms@, found_term_set(default_entries@))
                &&& m.messages@.len() + m.terms@.len() > 0
            },
        },
{
    let (found_messages, found_terms) = gather_found(default_entries);
    let missing_messages = filter_missing(expected_messages, &found_messages);
    let missing_terms = filter_missing(expected_terms, &found_terms);
    if missing_messages.len() == 0 && missing_terms.len() == 0 {
        Ok(())
    } else {
        Err(MissingKeys { messages: missing_messages, terms: missing_terms })
    }
}

} // verus!
