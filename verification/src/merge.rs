//! The override model of bundle assembly: which tier — the default
//! language or the language itself — provides each entry name, and the
//! duplicate-key check run against a language's own catalogs alone.
use vstd::prelude::*;
use crate::names::{contains_name, distinct_names, insert_name, name_set};

verus! {

/// Where a bundle entry comes from.
#[derive(Debug, PartialEq, Eq, Structural, Clone, Copy)]
pub enum Tier {
    Default,
    Language,
}

/// One assembled entry: its name and the tier that last provided it.
pub struct MergedEntry {
    pub name: String,
    pub tier: Tier,
}

/// The assembled bundle at the name level: each entry name at most
/// once, carrying the tier whose catalog won.
pub struct MergedCatalog {
    pub entries: Vec<MergedEntry>,
}

pub open spec fn merged_names(s: Seq<MergedEntry>) -> Seq<String> {
    s.map_values(|e: MergedEntry| e.name)
}

/// Whether some entry of `s` carries the name `n`.
pub open spec fn seq_has_key(s: Seq<MergedEntry>, n: Seq<char>) -> bool {
    exists|i: int| 0 <= i < s.len() && (#[trigger] s[i]).name@ == n
}

/// The tier stored beside the first entry named `n` (meaningful when
/// `seq_has_key`; with distinct names the first entry is the only one).
pub open spec fn seq_tier_of(s: Seq<MergedEntry>, n: Seq<char>) -> Tier
    decreases s.len(),
{
    if s.len() == 0 {
        Tier::Default
    } else if s[0].name@ == n {
        s[0].tier
    } else {
        seq_tier_of(s.drop_first(), n)
    }
}

impl MergedCatalog {
    pub open spec fn wf(self) -> bool {
        distinct_names(merged_names(self.entries@))
    }

    /// Whether some tier provides `n`.
    pub open spec fn has_key(self, n: Seq<char>) -> bool {
        seq_has_key(self.entries@, n)
    }

    /// The tier that provides `n` (meaningful when `has_key`).
    pub open spec fn tier_of(self, n: Seq<char>) -> Tier {
        seq_tier_of(self.entries@, n)
    }

    /// A fresh, empty assembly.
    pub fn new() -> (r: MergedCatalog)
        ensures
            r.wf(),
            forall|n: Seq<char>| !r.has_key(n),
    {
        let r = MergedCatalog { entries: Vec::new() };
        proof {
            assert forall|n: Seq<char>| !r.has_key(n) by {}
        }
        r
    }

    /// Adds one entry with override semantics: a same-named entry is
    /// replaced, never an error; otherwise the entry is appended.
    pub fn add_overriding(&mut self, name: String, tier: Tier)
        requires
            old(self).wf(),
        ensures
            final(self).wf(),
            forall|n: Seq<char>|
                final(self).has_key(n) == (old(self).has_key(n) || n == name@),
            final(self).tier_of(name@) == tier,
            forall|n: Seq<char>|
                n != name@ && old(self).has_key(n) ==> final(self).tier_of(n) == old(
                    self,
                ).tier_of(n),
    {
        let ghost pre = self.entries@;
        let mut i: usize = 0;
        while i < self.entries.len()
            invariant
                i <= self.entries@.len(),
                self.entries@ == pre,
                pre == old(self).entries@,
                distinct_names(merged_names(pre)),
                forall|j: int| 0 <= j < i ==> (#[trigger] pre[j]).name@ != name@,
            decreases self.entries@.len() - i,
        {
            if self.entries[i].name.eq(&name) {
                proof {
                    assert(seq_has_key(pre, name@));
                }
                let slot = &mut self.entries[i];
                *slot = MergedEntry { name, tier };
                proof {
                    lemma_lookup(pre, self.entries@, i as int);
                }
                return;
            }
            i = i + 1;
        }
        self.entries.push(MergedEntry { name, tier });
        proof {
            lemma_lookup_push(pre, self.entries@);
        }
    }

    /// Which tier provides `name` in the assembled bundle, if any.
    pub fn lookup(&self, name: &String) -> (r: Option<Tier>)
        requires
            self.wf(),
        ensures
            match r {
                Some(t) => self.has_key(name@) && t == self.tier_of(name@),
                None => !self.has_key(name@),
            },
    {
        let mut i: usize = 0;
        while i < self.entries.len()
            invariant
                i <= self.entries@.len(),
                self.wf(),
                forall|j: int| 0 <= j < i ==> (#[trigger] self.entries@[j]).name@ != name@,
            decreases self.entries@.len() - i,
        {
            if self.entries[i].name.eq(name) {
                proof {
                    lemma_tier_unique(self.entries@, i as int);
                }
                return Some(self.entries[i].tier);
            }
            i = i + 1;
        }
        None
    }
}

/// With distinct names, the tier of a present name is the tier stored
/// at its (unique) position.
proof fn lemma_tier_unique(s: Seq<MergedEntry>, i: int)
    requires
        distinct_names(merged_names(s)),
        0 <= i < s.len(),
    ensures
        seq_tier_of(s, s[i].name@) == s[i].tier,
    decreases s.len(),
{
    if i == 0 {
    } else {
        assert(merged_names(s)[0] == s[0].name);
        assert(merged_names(s)[i] == s[i].name);
        assert(merged_names(s)[0]@ != merged_names(s)[i]@);
        assert forall|a: int, b: int|
            0 <= a < b < s.drop_first().len() implies merged_names(s.drop_first())[a]@
            != merged_names(s.drop_first())[b]@ by {
            assert(merged_names(s)[a + 1] == s[a + 1].name);
            assert(merged_names(s)[b + 1] == s[b + 1].name);
            assert(merged_names(s)[a + 1]@ != merged_names(s)[b + 1]@);
            assert(merged_names(s.drop_first())[a] == s.drop_first()[a].name);
            assert(merged_names(s.drop_first())[b] == s.drop_first()[b].name);
        }
        lemma_tier_unique(s.drop_first(), i - 1);
    }
}

/// Replacing the entry at a name's unique position updates that name
/// and no other.
proof fn lemma_lookup(pre: Seq<MergedEntry>, post: Seq<MergedEntry>, i: int)
    requires
        distinct_names(merged_names(pre)),
        0 <= i < pre.len(),
        post.len() == pre.len(),
        post[i].name@ == pre[i].name@,
        forall|j: int| 0 <= j < pre.len() && j != i ==> post[j] == pre[j],
    ensures
        distinct_names(merged_names(post)),
        forall|n: Seq<char>| #[trigger] seq_has_key(post, n) == seq_has_key(pre, n),
        seq_tier_of(post, pre[i].name@) == post[i].tier,
        forall|n: Seq<char>|
            n != pre[i].name@ && seq_has_key(pre, n) ==> seq_tier_of(post, n) == seq_tier_of(
                pre,
                n,
            ),
{
    assert forall|a: int, b: int| 0 <= a < b < post.len() implies merged_names(post)[a]@
        != merged_names(post)[b]@ by {
        assert(merged_names(pre)[a]@ != merged_names(pre)[b]@);
    }
    assert forall|n: Seq<char>| #[trigger] seq_has_key(post, n) == seq_has_key(pre, n) by {
        if seq_has_key(post, n) {
            let k = choose|k: int| 0 <= k < post.len() && (#[trigger] post[k]).name@ == n;
            assert(pre[k].name@ == n);
        }
        if seq_has_key(pre, n) {
            let k = choose|k: int| 0 <= k < pre.len() && (#[trigger] pre[k]).name@ == n;
            assert(post[k].name@ == n);
        }
    }
    lemma_tier_unique(post, i);
    assert forall|n: Seq<char>|
        n != pre[i].name@ && seq_has_key(pre, n) implies seq_tier_of(post, n) == seq_tier_of(
        pre,
        n,
    ) by {
        let k = choose|k: int| 0 <= k < pre.len() && (#[trigger] pre[k]).name@ == n;
        assert(k != i);
        assert(post[k] == pre[k]);
        lemma_tier_unique(post, k);
        lemma_tier_unique(pre, k);
    }
}

/// Appending an entry with a fresh name adds that name and no other.
proof fn lemma_lookup_push(pre: Seq<MergedEntry>, post: Seq<MergedEntry>)
    requires
        distinct_names(merged_names(pre)),
        post.len() == pre.len() + 1,
        forall|j: int| 0 <= j < pre.len() ==> post[j] == pre[j],
        forall|j: int| 0 <= j < pre.len() ==> (#[trigger] pre[j]).name@ != post[pre.len() as int].name@,
    ensures
        distinct_names(merged_names(post)),
        forall|n: Seq<char>|
            #[trigger] seq_has_key(post, n) == (seq_has_key(pre, n) || n == post[
                pre.len() as int
            ].name@),
        seq_tier_of(post, post[pre.len() as int].name@) == post[pre.len() as int].tier,
        forall|n: Seq<char>|
            n != post[pre.len() as int].name@ && seq_has_key(pre, n) ==> seq_tier_of(post, n)
                == seq_tier_of(pre, n),
{
    let last = pre.len() as int;
    assert forall|a: int, b: int| 0 <= a < b < post.len() implies merged_names(post)[a]@
        != merged_names(post)[b]@ by {
        if b < last {
            assert(merged_names(pre)[a]@ != merged_names(pre)[b]@);
        } else {
            assert(pre[a].name@ != post[last].name@);
        }
    }
    assert forall|n: Seq<char>|
        #[trigger] seq_has_key(post, n) == (seq_has_key(pre, n) || n == post[last].name@) by {
        if seq_has_key(post, n) {
            let k = choose|k: int| 0 <= k < post.len() && (#[trigger] post[k]).name@ == n;
            if k < last {
                assert(pre[k].name@ == n);
            }
        }
        if seq_has_key(pre, n) {
            let k = choose|k: int| 0 <= k < pre.len() && (#[trigger] pre[k]).name@ == n;
            assert(post[k].name@ == n);
        }
        if n == post[last].name@ {
            assert(post[last].name@ == n);
        }
    }
    lemma_tier_unique(post, last);
    assert forall|n: Seq<char>|
        n != post[last].name@ && seq_has_key(pre, n) implies seq_tier_of(post, n) == seq_tier_of(
        pre,
        n,
    ) by {
        let k = choose|k: int| 0 <= k < pre.len() && (#[trigger] pre[k]).name@ == n;
        assert(post[k] == pre[k]);
        lemma_tier_unique(post, k);
        lemma_tier_unique(pre, k);
    }
}

/// Assembles the bundle for one language at the name level: first the
/// default catalogs' names, then the language's own on top, each with
/// override semantics. A language entry wins; a name only the default
/// tier defines falls back to it; overriding never errors. The same
/// override-then-fallback composition holds of the real bundles at the
/// valued-identifier level, stated on the bundle builder itself.
pub fn assemble_merged(defaults: &Vec<String>, lang: &Vec<String>) -> (r: MergedCatalog)
    ensures
        r.wf(),
        forall|n: Seq<char>|
            r.has_key(n) == (name_set(defaults@).contains(n) || name_set(lang@).contains(n)),
        forall|n: Seq<char>| name_set(lang@).contains(n) ==> r.tier_of(n) == Tier::Language,
        forall|n: Seq<char>|
            !name_set(lang@).contains(n) && name_set(defaults@).contains(n) ==> r.tier_of(n)
                == Tier::Default,
{
    let mut m = MergedCatalog::new();
    let mut i: usize = 0;
    while i < defaults.len()
        invariant
            i <= defaults@.len(),
            m.wf(),
            forall|n: Seq<char>| m.has_key(n) == name_set(defaults@.take(i as int)).contains(n),
            forall|n: Seq<char>| m.has_key(n) ==> m.tier_of(n) == Tier::Default,
        decreases defaults@.len() - i,
    {
        m.add_overriding(defaults[i].clone(), Tier::Default);
        proof {
            crate::names::lemma_name_set_take_one_more(defaults@, i as int);
        }
        i = i + 1;
    }
    proof {
        assert(defaults@.take(defaults@.len() as int) =~= defaults@);
    }
    let mut j: usize = 0;
    while j < lang.len()
        invariant
            j <= lang@.len(),
            m.wf(),
            forall|n: Seq<char>|
                m.has_key(n) == (name_set(defaults@).contains(n) || name_set(
                    lang@.take(j as int),
                ).contains(n)),
            forall|n: Seq<char>|
                name_set(lang@.take(j as int)).contains(n) ==> m.tier_of(n) == Tier::Language,
            forall|n: Seq<char>|
                !name_set(lang@.take(j as int)).contains(n) && name_set(defaults@).contains(n)
                    ==> m.tier_of(n) == Tier::Default,
        decreases lang@.len() - j,
    {
        m.add_overriding(lang[j].clone(), Tier::Language);
        proof {
            crate::names::lemma_name_set_take_one_more(lang@, j as int);
        }
        j = j + 1;
    }
    proof {
        assert(lang@.take(lang@.len() as int) =~= lang@);
    }
    m
}

/// Rejects a name defined twice within one language's own catalogs,
/// ignoring inherited defaults: overriding would silently mask such an
/// authoring mistake, so it is checked separately and is fatal.
pub fn check_duplicate_keys(names: &Vec<String>) -> (r: Result<(), String>)
    ensures
        match r {
            Ok(_) => distinct_names(names@),
            Err(n) => exists|i: int, j: int|
                0 <= i < j < names@.len() && #[trigger] names@[i]@ == #[trigger] names@[j]@
                    && names@[i]@ == n@,
        },
{
    let mut seen: Vec<String> = Vec::new();
    let mut i: usize = 0;
    while i < names.len()
        invariant
            i <= names@.len(),
            distinct_names(seen@),
            name_set(seen@) == name_set(names@.take(i as int)),
            distinct_names(names@.take(i as int)),
        decreases names@.len() - i,
    {
        if contains_name(&seen, &names[i]) {
            proof {
                let k = choose|k: int|
                    0 <= k < i && (#[trigger] names@.take(i as int)[k])@ == names@[i as int]@;
                assert(names@[k]@ == names@[i as int]@);
            }
            return Err(names[i].clone());
        }
        insert_name(&mut seen, names[i].clone());
        proof {
            crate::names::lemma_name_set_take_one_more(names@, i as int);
        }
        i = i + 1;
    }
    proof {
        assert(names@.take(names@.len() as int) =~= names@);
    }
    Ok(())
}

} // verus!
