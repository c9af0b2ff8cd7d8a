//! The accessor surface: one operation per resolved message entry,
//! named from its catalog and sanitized entry name, with one typed
//! parameter letter per required variable.
use vstd::prelude::*;
use crate::graph::{BuildError, Node};
use crate::text::{alphabet_letter, fold_displayable, get_letters, joined, push_char, sanitize, sanitized, string_views};

verus! {

/// One generated operation: its identifier, the entry it renders, the
/// original variable names it passes on as arguments, and the type
/// parameter letters that stand for their value types.
pub struct Accessor {
    pub op_name: String,
    pub entry_name: String,
    pub params: Vec<String>,
    pub letters: Vec<char>,
}

/// The operation identifier derived from a catalog and entry name.
pub open spec fn op_name_of(category: Seq<char>, name: Seq<char>) -> Seq<char> {
    sanitized(category) + "_"@ + sanitized(name)
}

/// The accessor that a resolved node calls for: argument names are the
/// node's variable names, letters run from the start of the alphabet.
pub open spec fn accessor_matches(a: Accessor, n: Node) -> bool {
    &&& a.op_name@ == op_name_of(n.category@, n.name@)
    &&& a.entry_name@ == n.name@
    &&& a.params@ == n.variables@
    &&& a.letters@.len() == n.variables@.len()
    &&& forall|k: int| 0 <= k < a.letters@.len() ==> a.letters@[k] == alphabet_letter(k)
}

/// The message nodes of the graph, in order: terms are private helpers
/// and get no accessor.
pub open spec fn message_nodes(ns: Seq<Node>) -> Seq<Node>
    decreases ns,
{
    if ns.len() == 0 {
        Seq::empty()
    } else if ns[0].term {
        message_nodes(ns.drop_first())
    } else {
        seq![ns[0]] + message_nodes(ns.drop_first())
    }
}

pub proof fn lemma_message_nodes_snoc(ns: Seq<Node>, i: int)
    requires
        0 <= i < ns.len(),
    ensures
        message_nodes(ns.take(i + 1)) == message_nodes(ns.take(i)) + (if ns[i].term {
            Seq::<Node>::empty()
        } else {
            seq![ns[i]]
        }),
    decreases i,
{
    let a = ns.take(i + 1);
    let tail = if ns[i].term {
        Seq::<Node>::empty()
    } else {
        seq![ns[i]]
    };
    if i == 0 {
        assert(a.drop_first() =~= Seq::empty());
        assert(a[0] == ns[0]);
        assert(ns.take(0) =~= Seq::<Node>::empty());
        assert(message_nodes(a) =~= message_nodes(ns.take(0)) + tail);
    } else {
        lemma_message_nodes_snoc(ns.drop_first(), i - 1);
        assert(a.drop_first() =~= ns.drop_first().take(i));
        assert(ns.take(i).drop_first() =~= ns.drop_first().take(i - 1));
        assert(a[0] == ns[0]);
        assert(ns.take(i)[0] == ns[0]);
        assert(ns.drop_first()[i - 1] == ns[i]);
        assert(message_nodes(a) =~= message_nodes(ns.take(i)) + tail);
    }
}

/// A fresh vector spelling the same names.
fn copy_names(v: &Vec<String>) -> (r: Vec<String>)
    ensures
        r@ == v@,
{
    let mut out: Vec<String> = Vec::new();
    let mut i: usize = 0;
    while i < v.len()
        invariant
            i <= v@.len(),
            out@ == v@.take(i as int),
        decreases v@.len() - i,
    {
        out.push(v[i].clone());
        proof {
            assert(out@ =~= v@.take(i + 1));
        }
        i = i + 1;
    }
    proof {
        assert(v@.take(v@.len() as int) =~= v@);
    }
    out
}

/// Emits one accessor per resolved message node, in graph order. An
/// entry that transitively needs more variables than there are
/// parameter letters is rejected by name, never truncated.
pub fn make_accessors(nodes: &Vec<Node>) -> (r: Result<
    Vec<Accessor>,
    BuildError,
>)
    ensures
        match r {
            Ok(accs) => {
                &&& accs@.len() == message_nodes(nodes@).len()
                &&& forall|i: int|
                    0 <= i < accs@.len() ==> accessor_matches(
                        #[trigger] accs@[i],
                        message_nodes(nodes@)[i],
                    )
                &&& forall|i: int|
                    0 <= i < nodes@.len() && !(#[trigger] nodes@[i]).term ==> nodes@[
                        i
                    ].variables@.len() <= 26
            },
            Err(e) => (e is TooManyVariables) && exists|i: int|
                0 <= i < nodes@.len() && !(#[trigger] nodes@[i]).term && nodes@[
                    i
                ].variables@.len() > 26,
        },
{
    let mut out: Vec<Accessor> = Vec::new();
    let mut i: usize = 0;
    while i < nodes.len()
        invariant
            i <= nodes@.len(),
            out@.len() == message_nodes(nodes@.take(i as int)).len(),
            forall|k: int|
                0 <= k < out@.len() ==> accessor_matches(
                    #[trigger] out@[k],
                    message_nodes(nodes@.take(i as int))[k],
                ),
            forall|j: int|
                0 <= j < i && !(#[trigger] nodes@[j]).term ==> nodes@[j].variables@.len() <= 26,
        decreases nodes@.len() - i,
    {
        let node = &nodes[i];
        if !node.term {
            let count = node.variables.len();
            if count > 26 {
                return Err(BuildError::TooManyVariables(node.name.clone()));
            }
            let letters = get_letters(count);
            let params = copy_names(&node.variables);
            let mut op_name = sanitize(node.category.as_str());
            op_name.append("_");
            let rest = sanitize(node.name.as_str());
            op_name.append(rest.as_str());
            let acc = Accessor {
                op_name,
                entry_name: node.name.clone(),
                params,
                letters,
            };
            proof {
                assert(accessor_matches(acc, nodes@[i as int]));
            }
            out.push(acc);
        }
        proof {
            lemma_message_nodes_snoc(nodes@, i as int);
            if nodes@[i as int].term {
                assert(message_nodes(nodes@.take(i + 1)) =~= message_nodes(
                    nodes@.take(i as int),
                ));
            } else {
                assert(message_nodes(nodes@.take(i + 1)) =~= message_nodes(
                    nodes@.take(i as int),
                ).push(nodes@[i as int]));
            }
        }
        i = i + 1;
    }
    proof {
        assert(nodes@.take(nodes@.len() as int) =~= nodes@);
    }
    Ok(out)
}

/// The term nodes of the graph, in order.
pub open spec fn term_nodes(ns: Seq<Node>) -> Seq<Node>
    decreases ns,
{
    if ns.len() == 0 {
        Seq::empty()
    } else if ns[0].term {
        seq![ns[0]] + term_nodes(ns.drop_first())
    } else {
        term_nodes(ns.drop_first())
    }
}

pub proof fn lemma_term_nodes_snoc(ns: Seq<Node>, i: int)
    requires
        0 <= i < ns.len(),
    ensures
        term_nodes(ns.take(i + 1)) == term_nodes(ns.take(i)) + (if ns[i].term {
            seq![ns[i]]
        } else {
            Seq::<Node>::empty()
        }),
    decreases i,
{
    let a = ns.take(i + 1);
    let tail = if ns[i].term {
        seq![ns[i]]
    } else {
        Seq::<Node>::empty()
    };
    if i == 0 {
        assert(a.drop_first() =~= Seq::empty());
        assert(a[0] == ns[0]);
        assert(ns.take(0) =~= Seq::<Node>::empty());
        assert(term_nodes(a) =~= term_nodes(ns.take(0)) + tail);
    } else {
        lemma_term_nodes_snoc(ns.drop_first(), i - 1);
        assert(a.drop_first() =~= ns.drop_first().take(i));
        assert(ns.take(i).drop_first() =~= ns.drop_first().take(i - 1));
        assert(a[0] == ns[0]);
        assert(ns.take(i)[0] == ns[0]);
        assert(ns.drop_first()[i - 1] == ns[i]);
        assert(term_nodes(a) =~= term_nodes(ns.take(i)) + tail);
    }
}

/// The entry names the generated surface expects at runtime: message
/// names and term names, in graph order.
pub fn expected_names(nodes: &Vec<Node>) -> (r: (Vec<String>, Vec<String>))
    ensures
        r.0@.len() == message_nodes(nodes@).len(),
        forall|i: int|
            0 <= i < r.0@.len() ==> (#[trigger] r.0@[i])@ == message_nodes(nodes@)[i].name@,
        r.1@.len() == term_nodes(nodes@).len(),
        forall|i: int|
            0 <= i < r.1@.len() ==> (#[trigger] r.1@[i])@ == term_nodes(nodes@)[i].name@,
{
    let mut messages: Vec<String> = Vec::new();
    let mut terms: Vec<String> = Vec::new();
    let mut i: usize = 0;
    while i < nodes.len()
        invariant
            i <= nodes@.len(),
            messages@.len() == message_nodes(nodes@.take(i as int)).len(),
            forall|k: int|
                0 <= k < messages@.len() ==> (#[trigger] messages@[k])@ == message_nodes(
                    nodes@.take(i as int),
                )[k].name@,
            terms@.len() == term_nodes(nodes@.take(i as int)).len(),
            forall|k: int|
                0 <= k < terms@.len() ==> (#[trigger] terms@[k])@ == term_nodes(
                    nodes@.take(i as int),
                )[k].name@,
        decreases nodes@.len() - i,
    {
        if nodes[i].term {
            terms.push(nodes[i].name.clone());
        } else {
            messages.push(nodes[i].name.clone());
        }
        proof {
            lemma_message_nodes_snoc(nodes@, i as int);
            lemma_term_nodes_snoc(nodes@, i as int);
            if nodes@[i as int].term {
                assert(term_nodes(nodes@.take(i + 1)) =~= term_nodes(nodes@.take(i as int)).push(
                    nodes@[i as int],
                ));
                assert(message_nodes(nodes@.take(i + 1)) =~= message_nodes(nodes@.take(i as int)));
            } else {
                assert(message_nodes(nodes@.take(i + 1)) =~= message_nodes(
                    nodes@.take(i as int),
                ).push(nodes@[i as int]));
                assert(term_nodes(nodes@.take(i + 1)) =~= term_nodes(nodes@.take(i as int)));
            }
        }
        i = i + 1;
    }
    proof {
        assert(nodes@.take(nodes@.len() as int) =~= nodes@);
    }
    (messages, terms)
}

/// Two accessors get distinct identifiers whenever the derived
/// operation names of their entries differ. Sanitizing can merge
/// entries that differ only in hyphens against underscores or in
/// letter case (as entries named with only that difference would),
/// so the claim is stated away from such collisions.
pub proof fn lemma_accessor_names_unique(accs: Seq<Accessor>, nodes: Seq<Node>, i: int, j: int)
    requires
        accs.len() == message_nodes(nodes).len(),
        forall|k: int|
            0 <= k < accs.len() ==> accessor_matches(#[trigger] accs[k], message_nodes(nodes)[k]),
        0 <= i < accs.len(),
        0 <= j < accs.len(),
        op_name_of(message_nodes(nodes)[i].category@, message_nodes(nodes)[i].name@)
            != op_name_of(message_nodes(nodes)[j].category@, message_nodes(nodes)[j].name@),
    ensures
        accs[i].op_name@ != accs[j].op_name@,
{
    assert(accessor_matches(accs[i], message_nodes(nodes)[i]));
    assert(accessor_matches(accs[j], message_nodes(nodes)[j]));
}

/// The generic parameter names of an accessor: one single-letter name
/// per variable.
pub open spec fn generic_names(letters: Seq<char>) -> Seq<Seq<char>> {
    letters.map_values(|l: char| seq![l])
}

/// The `where` bound emitted for one parameter letter.
pub open spec fn bound_lines(letters: Seq<char>) -> Seq<Seq<char>> {
    letters.map_values(|l: char| "\t"@ + seq![l] + ": Into<fluent_bundle::FluentValue<'a>>,"@)
}

/// The parameter list pieces: each variable as a sanitized identifier
/// typed by its letter.
pub open spec fn param_pieces(params: Seq<String>, letters: Seq<char>) -> Seq<Seq<char>> {
    Seq::new(params.len(), |k: int| ", "@ + sanitized(params[k]@) + ": "@ + seq![letters[k]])
}

/// The argument-assembly lines: each original variable name is passed
/// to the renderer under its own name.
pub open spec fn set_lines(params: Seq<String>) -> Seq<Seq<char>> {
    params.map_values(
        |p: String| "\t\targuments.set(\""@ + p@ + "\", "@ + sanitized(p@) + ".into());"@,
    )
}

/// The source text of one accessor operation: a plain method for an
/// entry with no variables, otherwise a generic method that assembles
/// the arguments and renders the entry.
pub open spec fn accessor_source(
    op: Seq<char>,
    entry: Seq<char>,
    params: Seq<String>,
    letters: Seq<char>,
) -> Seq<char> {
    if params.len() == 0 {
        "\tpub fn "@ + op + "(&self) -> String {\n\t\tself.localize(\""@ + entry
            + "\", None)\n\t}\n"@
    } else {
        "\tpub fn "@ + op + "<"@ + joined(generic_names(letters), ", "@) + ">(&self"@ + joined(
            param_pieces(params, letters),
            ""@,
        ) + ") -> String\n\twhere\n"@ + joined(bound_lines(letters), "\n"@)
            + "\n\t{\n\t\tlet mut arguments = fluent_bundle::FluentArgs::new();\n"@ + joined(
            set_lines(params),
            "\n"@,
        ) + "\n\t\tself.localize(\""@ + entry + "\", Some(&arguments))\n\t}\n"@
    }
}

/// Mapping a pushed string pushes its view.
proof fn lemma_views_push(s: Seq<String>, x: String)
    ensures
        string_views(s.push(x)) == string_views(s).push(x@),
{
    assert forall|k: int| 0 <= k < s.push(x).len() implies string_views(s.push(x))[k]
        == string_views(s).push(x@)[k] by {
        if k < s.len() {
            assert(s.push(x)[k] == s[k]);
            assert(string_views(s)[k] == s[k]@);
        }
    }
    assert(string_views(s.push(x)).len() == s.len() + 1);
    assert(string_views(s.push(x)) =~~= string_views(s).push(x@));
}

/// Emits the source text of one accessor operation.
pub fn emit_accessor(a: &Accessor) -> (r: String)
    requires
        a.params@.len() == a.letters@.len(),
    ensures
        r@ == accessor_source(a.op_name@, a.entry_name@, a.params@, a.letters@),
{
    if a.params.len() == 0 {
        let mut out = String::new();
        out.append("\tpub fn ");
        out.append(a.op_name.as_str());
        out.append("(&self) -> String {\n\t\tself.localize(\"");
        out.append(a.entry_name.as_str());
        out.append("\", None)\n\t}\n");
        proof {
            assert(out@ =~= accessor_source(a.op_name@, a.entry_name@, a.params@, a.letters@));
        }
        out
    } else {
        let n = a.letters.len();
        let mut generics: Vec<String> = Vec::new();
        let mut bounds: Vec<String> = Vec::new();
        let mut pieces: Vec<String> = Vec::new();
        let mut sets: Vec<String> = Vec::new();
        let mut k: usize = 0;
        while k < n
            invariant
                k <= n,
                n == a.letters@.len(),
                n == a.params@.len(),
                string_views(generics@) == generic_names(a.letters@).take(k as int),
                string_views(bounds@) == bound_lines(a.letters@).take(k as int),
                string_views(pieces@) == param_pieces(a.params@, a.letters@).take(k as int),
                string_views(sets@) == set_lines(a.params@).take(k as int),
            decreases n - k,
        {
            let l = a.letters[k];
            let p = &a.params[k];
            let sp = sanitize(p.as_str());
            let ghost g_pre = generics@;
            let ghost b_pre = bounds@;
            let ghost p_pre = pieces@;
            let ghost s_pre = sets@;
            let mut g = String::new();
            push_char(&mut g, l);
            proof {
                assert(g@ =~= seq![l]);
            }
            generics.push(g);
            let mut b = String::new();
            b.append("\t");
            push_char(&mut b, l);
            b.append(": Into<fluent_bundle::FluentValue<'a>>,");
            proof {
                assert(b@ =~= bound_lines(a.letters@)[k as int]);
            }
            bounds.push(b);
            let mut pc = String::new();
            pc.append(", ");
            pc.append(sp.as_str());
            pc.append(": ");
            push_char(&mut pc, l);
            proof {
                assert(pc@ =~= param_pieces(a.params@, a.letters@)[k as int]);
            }
            pieces.push(pc);
            let mut st = String::new();
            st.append("\t\targuments.set(\"");
            st.append(p.as_str());
            st.append("\", ");
            st.append(sp.as_str());
            st.append(".into());");
            proof {
                assert(st@ =~= set_lines(a.params@)[k as int]);
            }
            sets.push(st);
            proof {
                lemma_views_push(g_pre, generics@.last());
                lemma_views_push(b_pre, bounds@.last());
                lemma_views_push(p_pre, pieces@.last());
                lemma_views_push(s_pre, sets@.last());
                assert(string_views(generics@) =~= generic_names(a.letters@).take(k + 1));
                assert(string_views(bounds@) =~= bound_lines(a.letters@).take(k + 1));
                assert(string_views(pieces@) =~= param_pieces(a.params@, a.letters@).take(k + 1));
                assert(string_views(sets@) =~= set_lines(a.params@).take(k + 1));
            }
            k = k + 1;
        }
        proof {
            assert(generic_names(a.letters@).take(n as int) =~= generic_names(a.letters@));
            assert(bound_lines(a.letters@).take(n as int) =~= bound_lines(a.letters@));
            assert(param_pieces(a.params@, a.letters@).take(n as int) =~= param_pieces(
                a.params@,
                a.letters@,
            ));
            assert(set_lines(a.params@).take(n as int) =~= set_lines(a.params@));
        }
        let generics_text = fold_displayable(&generics, ", ");
        let params_text = fold_displayable(&pieces, "");
        let bounds_text = fold_displayable(&bounds, "\n");
        let sets_text = fold_displayable(&sets, "\n");
        let mut out = String::new();
        out.append("\tpub fn ");
        out.append(a.op_name.as_str());
        out.append("<");
        out.append(generics_text.as_str());
        out.append(">(&self");
        out.append(params_text.as_str());
        out.append(") -> String\n\twhere\n");
        out.append(bounds_text.as_str());
        out.append("\n\t{\n\t\tlet mut arguments = fluent_bundle::FluentArgs::new();\n");
        out.append(sets_text.as_str());
        out.append("\n\t\tself.localize(\"");
        out.append(a.entry_name.as_str());
        out.append("\", Some(&arguments))\n\t}\n");
        proof {
            assert(out@ =~= accessor_source(a.op_name@, a.entry_name@, a.params@, a.letters@));
        }
        out
    }
}

} // verus!
