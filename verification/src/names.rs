//! Name collections with set semantics, kept as vectors of distinct
//! strings so that variable and dependency sets stay executable.
use vstd::prelude::*;

verus! {

/// The set of character sequences held by a sequence of strings.
pub open spec fn name_set(s: Seq<String>) -> Set<Seq<char>> {
    Set::new(|n: Seq<char>| exists|i: int| 0 <= i < s.len() && s[i]@ == n)
}

/// No two strings of the sequence spell the same name.
pub open spec fn distinct_names(s: Seq<String>) -> bool {
    forall|i: int, j: int| 0 <= i < j < s.len() ==> s[i]@ != s[j]@
}

pub proof fn lemma_name_set_push(s: Seq<String>, x: String)
    ensures
        name_set(s.push(x)) == name_set(s).insert(x@),
{
    assert forall|m: Seq<char>| name_set(s.push(x)).contains(m) implies name_set(s).insert(
        x@,
    ).contains(m) by {
        let i = choose|i: int| 0 <= i < s.push(x).len() && s.push(x)[i]@ == m;
        if i < s.len() {
            assert(s[i]@ == m);
        } else {
            assert(s.push(x)[i] == x);
        }
    }
    assert forall|m: Seq<char>| name_set(s).insert(x@).contains(m) implies name_set(
        s.push(x),
    ).contains(m) by {
        if m == x@ {
            assert(s.push(x)[s.len() as int]@ == m);
        } else {
            let i = choose|i: int| 0 <= i < s.len() && s[i]@ == m;
            assert(s.push(x)[i]@ == m);
        }
    }
    assert(name_set(s.push(x)) =~= name_set(s).insert(x@));
}

pub proof fn lemma_name_set_take_one_more(s: Seq<String>, i: int)
    requires
        0 <= i < s.len(),
    ensures
        name_set(s.take(i + 1)) == name_set(s.take(i)).insert(s[i]@),
{
    assert(s.take(i + 1) =~= s.take(i).push(s[i]));
    lemma_name_set_push(s.take(i), s[i]);
}

/// Whether `v` holds the name `n`.
pub fn contains_name(v: &Vec<String>, n: &String) -> (r: bool)
    ensures
        r == name_set(v@).contains(n@),
{
    let mut i: usize = 0;
    while i < v.len()
        invariant
            i <= v@.len(),
            forall|j: int| 0 <= j < i ==> v@[j]@ != n@,
        decreases v@.len() - i,
    {
        if v[i].eq(n) {
            assert(v@[i as int]@ == n@);
            return true;
        }
        i = i + 1;
    }
    assert(!name_set(v@).contains(n@));
    false
}

/// Adds `n` unless an equal name is already present.
pub fn insert_name(v: &mut Vec<String>, n: String)
    requires
        distinct_names(old(v)@),
    ensures
        distinct_names(final(v)@),
        name_set(final(v)@) == name_set(old(v)@).insert(n@),
        final(v)@.len() >= old(v)@.len(),
{
    let present = contains_name(v, &n);
    if !present {
        let ghost pre = v@;
        v.push(n);
        proof {
            lemma_name_set_push(pre, n);
        }
    } else {
        assert(name_set(v@) =~= name_set(v@).insert(n@));
    }
}

/// Unions every name of `other` into `v`.
pub fn union_names(v: &mut Vec<String>, other: &Vec<String>)
    requires
        distinct_names(old(v)@),
    ensures
        distinct_names(final(v)@),
        name_set(final(v)@) == name_set(old(v)@).union(name_set(other@)),
{
    let mut i: usize = 0;
    while i < other.len()
        invariant
            i <= other@.len(),
            distinct_names(v@),
            name_set(v@) == name_set(old(v)@).union(name_set(other@.take(i as int))),
        decreases other@.len() - i,
    {
        let copy = other[i].clone();
        insert_name(v, copy);
        proof {
            lemma_name_set_take_one_more(other@, i as int);
            assert(name_set(v@) =~= name_set(old(v)@).union(name_set(other@.take(i + 1))));
        }
        i = i + 1;
    }
    assert(other@.take(other@.len() as int) =~= other@);
}

/// Removes the name `n`; with distinct names at most one entry leaves.
pub fn remove_name(v: &mut Vec<String>, n: &String)
    requires
        distinct_names(old(v)@),
    ensures
        distinct_names(final(v)@),
        name_set(final(v)@) == name_set(old(v)@).remove(n@),
{
    let mut i: usize = 0;
    while i < v.len()
        invariant
            i <= v@.len(),
            v@ == old(v)@,
            distinct_names(old(v)@),
            forall|j: int| 0 <= j < i ==> v@[j]@ != n@,
        decreases v@.len() - i,
    {
        if v[i].eq(n) {
            assert(v@[i as int]@ == n@);
            let ghost pre = v@;
            let ghost pos = i as int;
            v.remove(i);
            proof {
                assert(v@ =~= pre.take(pos) + pre.skip(pos + 1));
                assert(pre[pos]@ == n@);
                assert forall|a: int, b: int| 0 <= a < b < v@.len() implies v@[a]@ != v@[b]@ by {
                    let a2: int = if a < pos {
                        a
                    } else {
                        a + 1
                    };
                    let b2: int = if b < pos {
                        b
                    } else {
                        b + 1
                    };
                    assert(v@[a] == pre[a2]);
                    assert(v@[b] == pre[b2]);
                    assert(pre[a2]@ != pre[b2]@);
                }
                assert forall|m: Seq<char>| name_set(v@).contains(m) implies name_set(pre).remove(
                    n@,
                ).contains(m) by {
                    let k = choose|k: int| 0 <= k < v@.len() && v@[k]@ == m;
                    if k < pos {
                        assert(pre[k]@ == m);
                        assert(pre[k]@ != pre[pos]@);
                    } else {
                        assert(pre[k + 1]@ == m);
                        assert(pre[pos]@ != pre[k + 1]@);
                    }
                }
                assert forall|m: Seq<char>| name_set(pre).remove(n@).contains(m) implies name_set(
                    v@,
                ).contains(m) by {
                    let k = choose|k: int| 0 <= k < pre.len() && pre[k]@ == m;
                    assert(pre[pos]@ == n@);
                    assert(k != pos);
                    if k < pos {
                        assert(v@[k]@ == m);
                    } else {
                        assert(v@[k - 1]@ == m);
                    }
                }
                assert(name_set(v@) =~= name_set(pre).remove(n@));
            }
            return;
        }
        i = i + 1;
    }
    assert(name_set(v@) =~= name_set(v@).remove(n@));
}

} // verus!
