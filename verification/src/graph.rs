//! The build-time symbol graph: one node per catalog entry, holding
//! the variables and cross-references the entry mentions directly,
//! pending transitive resolution.
use vstd::prelude::*;
use crate::ast::{
    Catalog, Entry, Expression, InlineExpression, Pattern, PatternElement, ScanFacts, element_facts,
    elements_facts, empty_facts, expression_facts, inline_facts, pattern_facts, patterns_facts,
};
use crate::names::{distinct_names, insert_name, name_set};

verus! {

/// A fatal defect found while building or resolving the graph.
#[derive(Debug)]
pub enum BuildError {
    /// A template called a function, which this pass does not support.
    UnsupportedFunctionReference,
    /// An entry references a name for which no entry was loaded.
    UnknownDependency(String),
    /// A reference chain leads from an entry back to itself.
    CyclicDependency(String),
    /// An entry transitively needs more variables than parameter
    /// letters exist.
    TooManyVariables(String),
    /// Two loaded entries carry the same name.
    DuplicateName(String),
}

/// One graph node: the entry of one catalog, with the variable and
/// dependency name sets gathered for it so far.
pub struct Node {
    pub category: String,
    pub name: String,
    pub variables: Vec<String>,
    pub dependencies: Vec<String>,
    pub term: bool,
}

impl Node {
    /// Both name collections hold no repeated name.
    pub open spec fn wf(self) -> bool {
        distinct_names(self.variables@) && distinct_names(self.dependencies@)
    }

    /// The variable names of the node, as a set.
    pub open spec fn vars(self) -> Set<Seq<char>> {
        name_set(self.variables@)
    }

    /// The dependency names of the node, as a set.
    pub open spec fn deps(self) -> Set<Seq<char>> {
        name_set(self.dependencies@)
    }

    /// A fresh node with empty variable and dependency sets.
    pub fn new(category: String, name: String, term: bool) -> (r: Node)
        ensures
            r.category == category,
            r.name == name,
            r.term == term,
            r.vars() == Set::<Seq<char>>::empty(),
            r.deps() == Set::<Seq<char>>::empty(),
            r.wf(),
    {
        let r = Node {
            category,
            name,
            variables: Vec::new(),
            dependencies: Vec::new(),
            term,
        };
        proof {
            assert(r.vars() =~= Set::<Seq<char>>::empty());
            assert(r.deps() =~= Set::<Seq<char>>::empty());
        }
        r
    }
}

/// What identifies a node, apart from its gathered sets.
pub open spec fn same_identity(a: Node, b: Node) -> bool {
    a.category == b.category && a.name == b.name && a.term == b.term
}

/// A successful scan extended the node's sets by exactly the facts of
/// the scanned fragment.
pub open spec fn scan_ok(before: Node, after: Node, f: ScanFacts) -> bool {
    &&& after.wf()
    &&& same_identity(before, after)
    &&& after.vars() == before.vars().union(f.vars)
    &&& after.deps() == before.deps().union(f.deps)
}

/// A failed scan leaves a well-formed node with its identity intact.
pub open spec fn scan_err(before: Node, after: Node) -> bool {
    after.wf() && same_identity(before, after)
}

/// Records the variable or entry reference of one inline expression in
/// the node, or rejects a function reference.
pub fn process_inline_expression(expression: &InlineExpression, node: &mut Node) -> (r: Result<
    (),
    BuildError,
>)
    requires
        old(node).wf(),
    ensures
        match r {
            Ok(_) => scan_ok(*old(node), *final(node), inline_facts(*expression)) && !inline_facts(
                *expression,
            ).has_function,
            Err(e) => scan_err(*old(node), *final(node)) && inline_facts(*expression).has_function && e == BuildError::UnsupportedFunctionReference,
        },
    decreases *expression, 0int,
{
    match expression {
        InlineExpression::FunctionReference { id } => Err(
            BuildError::UnsupportedFunctionReference,
        ),
        InlineExpression::MessageReference { id } => {
            insert_name(&mut node.dependencies, id.clone());
            proof {
                assert(node.vars() =~= old(node).vars().union(
                    inline_facts(*expression).vars,
                ));
                assert(node.deps() =~= old(node).deps().union(
                    inline_facts(*expression).deps,
                ));
            }
            Ok(())
        },
        InlineExpression::TermReference { id } => {
            insert_name(&mut node.dependencies, id.clone());
            proof {
                assert(node.vars() =~= old(node).vars().union(
                    inline_facts(*expression).vars,
                ));
                assert(node.deps() =~= old(node).deps().union(
                    inline_facts(*expression).deps,
                ));
            }
            Ok(())
        },
        InlineExpression::VariableReference { id } => {
            insert_name(&mut node.variables, id.clone());
            proof {
                assert(node.vars() =~= old(node).vars().union(
                    inline_facts(*expression).vars,
                ));
                assert(node.deps() =~= old(node).deps().union(
                    inline_facts(*expression).deps,
                ));
            }
            Ok(())
        },
        InlineExpression::Placeable { expression: inner } => process_expression(&**inner, node),
        InlineExpression::StringLiteral { value: _ } => {
            proof {
                assert(node.vars() =~= old(node).vars().union(empty_facts().vars));
                assert(node.deps() =~= old(node).deps().union(empty_facts().deps));
            }
            Ok(())
        },
        InlineExpression::NumberLiteral { value: _ } => {
            proof {
                assert(node.vars() =~= old(node).vars().union(empty_facts().vars));
                assert(node.deps() =~= old(node).deps().union(empty_facts().deps));
            }
            Ok(())
        },
    }
}

/// Scans a placeable: a single inline expression, or a selector whose
/// selector and every variant pattern are all scanned.
pub fn process_expression(expression: &Expression, node: &mut Node) -> (r: Result<(), BuildError>)
    requires
        old(node).wf(),
    ensures
        match r {
            Ok(_) => scan_ok(*old(node), *final(node), expression_facts(*expression))
                && !expression_facts(*expression).has_function,
            Err(e) => scan_err(*old(node), *final(node)) && expression_facts(
                *expression,
            ).has_function && e == BuildError::UnsupportedFunctionReference,
        },
    decreases *expression, 0int,
{
    match expression {
        Expression::Select { selector, variants } => {
            let r1 = process_inline_expression(selector, node);
            if let Err(e) = r1 {
                return Err(e);
            }
            proof {
                assert(variants@.skip(0) =~= variants@);
            }
            let r2 = process_variants_from(variants, 0, node);
            match r2 {
                Ok(_) => {
                    proof {
                        assert(node.vars() =~= old(node).vars().union(
                            expression_facts(*expression).vars,
                        ));
                        assert(node.deps() =~= old(node).deps().union(
                            expression_facts(*expression).deps,
                        ));
                    }
                    Ok(())
                },
                Err(e) => Err(e),
            }
        },
        Expression::Inline { expression: inner } => process_inline_expression(inner, node),
    }
}

/// Scans one element of an entry value; fixed text contributes
/// nothing, a placeable is scanned.
pub fn process_element(element: &PatternElement, node: &mut Node) -> (r: Result<(), BuildError>)
    requires
        old(node).wf(),
    ensures
        match r {
            Ok(_) => scan_ok(*old(node), *final(node), element_facts(*element)) && !element_facts(
                *element,
            ).has_function,
            Err(e) => scan_err(*old(node), *final(node)) && element_facts(*element).has_function
                && e == BuildError::UnsupportedFunctionReference,
        },
    decreases *element, 0int,
{
    match element {
        PatternElement::TextElement { value: _ } => {
            proof {
                assert(node.vars() =~= old(node).vars().union(element_facts(*element).vars));
                assert(node.deps() =~= old(node).deps().union(element_facts(*element).deps));
            }
            Ok(())
        },
        PatternElement::Placeable { expression } => process_expression(expression, node),
    }
}

/// Scans a whole entry value.
pub fn process_pattern(pattern: &Pattern, node: &mut Node) -> (r: Result<(), BuildError>)
    requires
        old(node).wf(),
    ensures
        match r {
            Ok(_) => scan_ok(*old(node), *final(node), pattern_facts(*pattern)) && !pattern_facts(
                *pattern,
            ).has_function,
            Err(e) => scan_err(*old(node), *final(node)) && pattern_facts(*pattern).has_function
                && e == BuildError::UnsupportedFunctionReference,
        },
    decreases *pattern, 0int,
{
    process_pattern_elements(&pattern.elements, node)
}

/// Scans the variant patterns of a selector, from `start` on.
pub fn process_variants_from(variants: &Vec<Pattern>, start: usize, node: &mut Node) -> (r: Result<
    (),
    BuildError,
>)
    requires
        start <= variants@.len(),
        old(node).wf(),
    ensures
        match r {
            Ok(_) => scan_ok(*old(node), *final(node), patterns_facts(variants@.skip(start as int)))
                && !patterns_facts(variants@.skip(start as int)).has_function,
            Err(e) => scan_err(*old(node), *final(node)) && patterns_facts(
                variants@.skip(start as int),
            ).has_function && e == BuildError::UnsupportedFunctionReference,
        },
    decreases variants@.skip(start as int), 0int,
{
    let ghost rest = variants@.skip(start as int);
    if start == variants.len() {
        proof {
            assert(node.vars() =~= old(node).vars().union(patterns_facts(rest).vars));
            assert(node.deps() =~= old(node).deps().union(patterns_facts(rest).deps));
        }
        Ok(())
    } else {
        proof {
            assert(rest[0] == variants@[start as int]);
            assert(rest.drop_first() =~= variants@.skip(start as int + 1));
        }
        let r1 = process_pattern(&variants[start], node);
        if let Err(e) = r1 {
            return Err(e);
        }
        let r2 = process_variants_from(variants, start + 1, node);
        match r2 {
            Ok(_) => {
                proof {
                    assert(node.vars() =~= old(node).vars().union(patterns_facts(rest).vars));
                    assert(node.deps() =~= old(node).deps().union(patterns_facts(rest).deps));
                }
                Ok(())
            },
            Err(e) => Err(e),
        }
    }
}

/// Scans every element of an entry value.
pub fn process_pattern_elements(elements: &Vec<PatternElement>, node: &mut Node) -> (r: Result<
    (),
    BuildError,
>)
    requires
        old(node).wf(),
    ensures
        match r {
            Ok(_) => scan_ok(*old(node), *final(node), elements_facts(elements@))
                && !elements_facts(elements@).has_function,
            Err(e) => scan_err(*old(node), *final(node)) && elements_facts(elements@).has_function
                && e == BuildError::UnsupportedFunctionReference,
        },
    decreases elements@, 1int,
{
    proof {
        assert(elements@.skip(0) =~= elements@);
    }
    process_elements_from(elements, 0, node)
}

/// Scans the elements of an entry value, from `start` on.
pub fn process_elements_from(elements: &Vec<PatternElement>, start: usize, node: &mut Node) -> (r:
    Result<(), BuildError>)
    requires
        start <= elements@.len(),
        old(node).wf(),
    ensures
        match r {
            Ok(_) => scan_ok(*old(node), *final(node), elements_facts(elements@.skip(start as int)))
                && !elements_facts(elements@.skip(start as int)).has_function,
            Err(e) => scan_err(*old(node), *final(node)) && elements_facts(
                elements@.skip(start as int),
            ).has_function && e == BuildError::UnsupportedFunctionReference,
        },
    decreases elements@.skip(start as int), 0int,
{
    let ghost rest = elements@.skip(start as int);
    if start == elements.len() {
        proof {
            assert(node.vars() =~= old(node).vars().union(elements_facts(rest).vars));
            assert(node.deps() =~= old(node).deps().union(elements_facts(rest).deps));
        }
        Ok(())
    } else {
        proof {
            assert(rest[0] == elements@[start as int]);
            assert(rest.drop_first() =~= elements@.skip(start as int + 1));
        }
        let r1 = process_element(&elements[start], node);
        if let Err(e) = r1 {
            return Err(e);
        }
        let r2 = process_elements_from(elements, start + 1, node);
        match r2 {
            Ok(_) => {
                proof {
                    assert(node.vars() =~= old(node).vars().union(elements_facts(rest).vars));
                    assert(node.deps() =~= old(node).deps().union(elements_facts(rest).deps));
                }
                Ok(())
            },
            Err(e) => Err(e),
        }
    }
}


/// The mathematical content of one node.
#[verifier::ext_equal]
pub ghost struct NodeFacts {
    pub category: Seq<char>,
    pub name: Seq<char>,
    pub term: bool,
    pub vars: Set<Seq<char>>,
    pub deps: Set<Seq<char>>,
}

pub open spec fn node_facts(n: Node) -> NodeFacts {
    NodeFacts { category: n.category@, name: n.name@, term: n.term, vars: n.vars(), deps: n.deps() }
}

pub open spec fn nodes_facts(ns: Seq<Node>) -> Seq<NodeFacts> {
    ns.map_values(|n: Node| node_facts(n))
}

/// The node an entry gives rise to: none for a message without a
/// value, otherwise one holding the directly scanned sets.
pub open spec fn entry_node(category: Seq<char>, e: Entry) -> Option<NodeFacts> {
    match e {
        Entry::Message { id, value } => match value {
            Some(p) => Some(
                NodeFacts {
                    category,
                    name: id@,
                    term: false,
                    vars: pattern_facts(p).vars,
                    deps: pattern_facts(p).deps,
                },
            ),
            None => None,
        },
        Entry::Term { id, value } => Some(
            NodeFacts {
                category,
                name: id@,
                term: true,
                vars: pattern_facts(value).vars,
                deps: pattern_facts(value).deps,
            },
        ),
    }
}

pub open spec fn entry_has_function(e: Entry) -> bool {
    match e {
        Entry::Message { id, value } => match value {
            Some(p) => pattern_facts(p).has_function,
            None => false,
        },
        Entry::Term { id, value } => pattern_facts(value).has_function,
    }
}

pub open spec fn opt_facts(o: Option<NodeFacts>) -> Seq<NodeFacts> {
    match o {
        Some(nf) => seq![nf],
        None => Seq::empty(),
    }
}

/// The nodes that scanning a catalog's entries in order produces.
pub open spec fn entries_nodes(category: Seq<char>, es: Seq<Entry>) -> Seq<NodeFacts>
    decreases es,
{
    if es.len() == 0 {
        Seq::empty()
    } else {
        opt_facts(entry_node(category, es[0])) + entries_nodes(category, es.drop_first())
    }
}

pub open spec fn entries_have_function(es: Seq<Entry>) -> bool {
    exists|i: int| 0 <= i < es.len() && entry_has_function(es[i])
}

pub proof fn lemma_entries_nodes_snoc(category: Seq<char>, es: Seq<Entry>, i: int)
    requires
        0 <= i < es.len(),
    ensures
        entries_nodes(category, es.take(i + 1)) == entries_nodes(category, es.take(i)) + opt_facts(
            entry_node(category, es[i]),
        ),
    decreases i,
{
    let a = es.take(i + 1);
    if i == 0 {
        assert(a.drop_first() =~= Seq::empty());
        assert(a[0] == es[0]);
        assert(es.take(0) =~= Seq::<Entry>::empty());
        assert(entries_nodes(category, a) =~= entries_nodes(category, es.take(0)) + opt_facts(
            entry_node(category, es[0]),
        ));
    } else {
        lemma_entries_nodes_snoc(category, es.drop_first(), i - 1);
        assert(a.drop_first() =~= es.drop_first().take(i));
        assert(es.take(i).drop_first() =~= es.drop_first().take(i - 1));
        assert(a[0] == es[0]);
        assert(es.take(i)[0] == es[0]);
        assert(es.drop_first()[i - 1] == es[i]);
        assert(entries_nodes(category, a) =~= entries_nodes(category, es.take(i)) + opt_facts(
            entry_node(category, es[i]),
        ));
    }
}

/// Scans every entry of one catalog into a node: the node records
/// exactly the variables and references the entry's value mentions.
/// Messages without a value give no node. A function reference in any
/// entry is a fatal error.
pub fn generate_nodes_for(category: &String, entries: &Vec<Entry>) -> (r: Result<
    Vec<Node>,
    BuildError,
>)
    ensures
        match r {
            Ok(nodes) => {
                &&& nodes_facts(nodes@) == entries_nodes(category@, entries@)
                &&& !entries_have_function(entries@)
                &&& forall|i: int| 0 <= i < nodes@.len() ==> nodes@[i].wf()
            },
            Err(e) => e == BuildError::UnsupportedFunctionReference && entries_have_function(
                entries@,
            ),
        },
{
    let mut out: Vec<Node> = Vec::new();
    let mut i: usize = 0;
    while i < entries.len()
        invariant
            i <= entries@.len(),
            nodes_facts(out@) == entries_nodes(category@, entries@.take(i as int)),
            forall|j: int| 0 <= j < i ==> !entry_has_function(entries@[j]),
            forall|j: int| 0 <= j < out@.len() ==> out@[j].wf(),
        decreases entries@.len() - i,
    {
        let ghost pre = out@;
        match &entries[i] {
            Entry::Message { id, value } => {
                match value {
                    Some(pattern) => {
                        let mut node = Node::new(category.clone(), id.clone(), false);
                        match process_pattern(pattern, &mut node) {
                            Ok(_) => {
                                proof {
                                    assert(node.vars() =~= pattern_facts(*pattern).vars);
                                    assert(node.deps() =~= pattern_facts(*pattern).deps);
                                    assert(entry_node(category@, entries@[i as int])
                                        == Some(node_facts(node)));
                                }
                                out.push(node);
                            },
                            Err(e) => {
                                proof {
                                    assert(entry_has_function(entries@[i as int]));
                                }
                                return Err(e);
                            },
                        }
                    },
                    None => {
                        proof {
                            assert(entry_node(category@, entries@[i as int]) is None);
                        }
                    },
                }
            },
            Entry::Term { id, value } => {
                let mut node = Node::new(category.clone(), id.clone(), true);
                match process_pattern(value, &mut node) {
                    Ok(_) => {
                        proof {
                            assert(node.vars() =~= pattern_facts(*value).vars);
                            assert(node.deps() =~= pattern_facts(*value).deps);
                            assert(entry_node(category@, entries@[i as int]) == Some(
                                node_facts(node),
                            ));
                        }
                        out.push(node);
                    },
                    Err(e) => {
                        proof {
                            assert(entry_has_function(entries@[i as int]));
                        }
                        return Err(e);
                    },
                }
            },
        }
        proof {
            lemma_entries_nodes_snoc(category@, entries@, i as int);
            assert(nodes_facts(out@) =~= entries_nodes(category@, entries@.take(i + 1)));
        }
        i = i + 1;
    }
    proof {
        assert(entries@.take(entries@.len() as int) =~= entries@);
        assert forall|k: int| 0 <= k < entries@.len() implies !entry_has_function(
            entries@[k],
        ) by {}
    }
    Ok(out)
}

/// The names of the nodes, in graph order.
pub open spec fn node_names(ns: Seq<Node>) -> Seq<Seq<char>> {
    ns.map_values(|n: Node| n.name@)
}

pub open spec fn distinct_seqs(s: Seq<Seq<char>>) -> bool {
    forall|i: int, j: int| 0 <= i < j < s.len() ==> s[i] != s[j]
}

/// A well-formed graph: every node well-formed, all names distinct.
pub open spec fn graph_wf(ns: Seq<Node>) -> bool {
    (forall|i: int| 0 <= i < ns.len() ==> ns[i].wf()) && distinct_seqs(node_names(ns))
}

/// The position of the node carrying `name`, if any.
pub fn find_node(nodes: &Vec<Node>, name: &String) -> (r: Option<usize>)
    ensures
        match r {
            Some(i) => i < nodes@.len() && nodes@[i as int].name@ == name@,
            None => forall|i: int| 0 <= i < nodes@.len() ==> nodes@[i].name@ != name@,
        },
{
    let mut i: usize = 0;
    while i < nodes.len()
        invariant
            i <= nodes@.len(),
            forall|j: int| 0 <= j < i ==> nodes@[j].name@ != name@,
        decreases nodes@.len() - i,
    {
        if nodes[i].name.eq(name) {
            return Some(i);
        }
        i = i + 1;
    }
    None
}

/// The nodes of all catalogs, in catalog order.
pub open spec fn catalogs_nodes(cs: Seq<Catalog>) -> Seq<NodeFacts>
    decreases cs,
{
    if cs.len() == 0 {
        Seq::empty()
    } else {
        entries_nodes(cs[0].name@, cs[0].entries@) + catalogs_nodes(cs.drop_first())
    }
}

pub open spec fn catalogs_have_function(cs: Seq<Catalog>) -> bool {
    exists|i: int| 0 <= i < cs.len() && entries_have_function(cs[i].entries@)
}

pub proof fn lemma_catalogs_nodes_snoc(cs: Seq<Catalog>, i: int)
    requires
        0 <= i < cs.len(),
    ensures
        catalogs_nodes(cs.take(i + 1)) == catalogs_nodes(cs.take(i)) + entries_nodes(
            cs[i].name@,
            cs[i].entries@,
        ),
    decreases i,
{
    let a = cs.take(i + 1);
    if i == 0 {
        assert(a.drop_first() =~= Seq::empty());
        assert(a[0] == cs[0]);
        assert(cs.take(0) =~= Seq::<Catalog>::empty());
        assert(catalogs_nodes(a) =~= catalogs_nodes(cs.take(0)) + entries_nodes(
            cs[0].name@,
            cs[0].entries@,
        ));
    } else {
        lemma_catalogs_nodes_snoc(cs.drop_first(), i - 1);
        assert(a.drop_first() =~= cs.drop_first().take(i));
        assert(cs.take(i).drop_first() =~= cs.drop_first().take(i - 1));
        assert(a[0] == cs[0]);
        assert(cs.take(i)[0] == cs[0]);
        assert(cs.drop_first()[i - 1] == cs[i]);
        assert(catalogs_nodes(a) =~= catalogs_nodes(cs.take(i)) + entries_nodes(
            cs[i].name@,
            cs[i].entries@,
        ));
    }
}

/// The scanned nodes carry the name `n` at two positions.
pub open spec fn facts_have_dup(fs: Seq<NodeFacts>, n: Seq<char>) -> bool {
    exists|i: int, j: int|
        0 <= i < j < fs.len() && (#[trigger] fs[i]).name == n && (#[trigger] fs[j]).name == n
}

/// A prefix of the catalogs contributes a prefix of the nodes.
pub proof fn lemma_catalogs_nodes_prefix(cs: Seq<Catalog>, m: int)
    requires
        0 <= m <= cs.len(),
    ensures
        catalogs_nodes(cs.take(m)).len() <= catalogs_nodes(cs).len(),
        forall|k: int|
            0 <= k < catalogs_nodes(cs.take(m)).len() ==> #[trigger] catalogs_nodes(cs)[k]
                == catalogs_nodes(cs.take(m))[k],
    decreases cs.len() - m,
{
    if m == cs.len() {
        assert(cs.take(m) =~= cs);
    } else {
        lemma_catalogs_nodes_snoc(cs, m);
        lemma_catalogs_nodes_prefix(cs, m + 1);
    }
}

/// What a failed graph build may report: a function reference, which
/// the catalogs then really contain, or a name their entries really
/// carry twice.
pub open spec fn build_graph_err(e: BuildError, cs: Seq<Catalog>) -> bool {
    match e {
        BuildError::UnsupportedFunctionReference => catalogs_have_function(cs),
        BuildError::DuplicateName(n) => facts_have_dup(catalogs_nodes(cs), n@),
        _ => false,
    }
}

/// A successful graph build: the nodes are exactly those of the
/// catalogs in order, well-formed, with distinct names, and no entry
/// called a function.
pub open spec fn build_graph_ok(g: Seq<Node>, cs: Seq<Catalog>) -> bool {
    &&& nodes_facts(g) == catalogs_nodes(cs)
    &&& graph_wf(g)
    &&& !catalogs_have_function(cs)
}

/// Builds the symbol graph over every entry of the given catalogs, in
/// order, rejecting function references and entry names that occur
/// twice.
pub fn build_graph(catalogs: &Vec<Catalog>) -> (r: Result<
    Vec<Node>,
    BuildError,
>)
    ensures
        match r {
            Ok(g) => build_graph_ok(g@, catalogs@),
            Err(e) => build_graph_err(e, catalogs@),
        },
{
    let mut out: Vec<Node> = Vec::new();
    let mut i: usize = 0;
    while i < catalogs.len()
        invariant
            i <= catalogs@.len(),
            nodes_facts(out@) == catalogs_nodes(catalogs@.take(i as int)),
            forall|j: int| 0 <= j < i ==> !entries_have_function(catalogs@[j].entries@),
            graph_wf(out@),
        decreases catalogs@.len() - i,
    {
        let chunk = match generate_nodes_for(&catalogs[i].name, &catalogs[i].entries) {
            Ok(c) => c,
            Err(e) => {
                return Err(e);
            },
        };
        let ghost chunk_snapshot = chunk@;
        let mut chunk_mut = chunk;
        let mut j: usize = 0;
        let chunk_len = chunk_mut.len();
        assert(chunk_snapshot.len() <= usize::MAX);
        while 0 < chunk_mut.len()
            invariant
                i < catalogs@.len(),
                j + chunk_mut@.len() == chunk_snapshot.len(),
                chunk_snapshot.len() <= usize::MAX,
                chunk_mut@ == chunk_snapshot.skip(j as int),
                nodes_facts(chunk_snapshot) == entries_nodes(
                    catalogs@[i as int].name@,
                    catalogs@[i as int].entries@,
                ),
                nodes_facts(out@) == catalogs_nodes(catalogs@.take(i as int))
                    + nodes_facts(chunk_snapshot.take(j as int)),
                forall|k: int| 0 <= k < chunk_snapshot.len() ==> chunk_snapshot[k].wf(),
                graph_wf(out@),
            decreases chunk_mut@.len(),
        {
            let ghost out_pre = out@;
            let node = chunk_mut.remove(0);
            proof {
                assert(node == chunk_snapshot[j as int]);
                assert(chunk_mut@ =~= chunk_snapshot.skip(j as int + 1));
            }
            if let Some(stored) = find_node(&out, &node.name) {
                proof {
                    lemma_catalogs_nodes_snoc(catalogs@, i as int);
                    let upto = catalogs_nodes(catalogs@.take(i as int + 1));
                    let prefix_len = catalogs_nodes(catalogs@.take(i as int)).len() as int;
                    assert(upto == catalogs_nodes(catalogs@.take(i as int)) + nodes_facts(
                        chunk_snapshot,
                    ));
                    assert(nodes_facts(chunk_snapshot.take(j as int)) =~= nodes_facts(
                        chunk_snapshot,
                    ).take(j as int));
                    assert(nodes_facts(out@).len() == out@.len());
                    assert(nodes_facts(chunk_snapshot.take(j as int)).len() == j);
                    assert(out@.len() == prefix_len + j);
                    let p2 = prefix_len + j;
                    assert(upto[p2] == nodes_facts(chunk_snapshot)[j as int]);
                    assert(nodes_facts(chunk_snapshot)[j as int] == node_facts(
                        chunk_snapshot[j as int],
                    ));
                    assert(upto[p2].name == node.name@);
                    let k = stored as int;
                    assert(nodes_facts(out@)[k] == node_facts(out@[k]));
                    if k < prefix_len {
                        assert(upto[k] == catalogs_nodes(catalogs@.take(i as int))[k]);
                        assert(nodes_facts(out@)[k] == catalogs_nodes(
                            catalogs@.take(i as int),
                        )[k]);
                    } else {
                        assert(upto[k] == nodes_facts(chunk_snapshot)[k - prefix_len]);
                        assert(nodes_facts(out@)[k] == nodes_facts(chunk_snapshot).take(
                            j as int,
                        )[k - prefix_len]);
                    }
                    assert(upto[k] == nodes_facts(out@)[k]);
                    assert(upto[k].name == out@[k].name@);
                    assert(upto[k].name == node.name@);
                    lemma_catalogs_nodes_prefix(catalogs@, i as int + 1);
                    assert(catalogs_nodes(catalogs@)[k] == upto[k]);
                    assert(catalogs_nodes(catalogs@)[p2] == upto[p2]);
                    assert(facts_have_dup(catalogs_nodes(catalogs@), node.name@));
                }
                return Err(BuildError::DuplicateName(node.name));
            }
            let ghost new_facts = node_facts(node);
            out.push(node);
            proof {
                assert(nodes_facts(out@) =~= nodes_facts(out_pre).push(new_facts));
                assert(nodes_facts(chunk_snapshot.take(j as int + 1)) =~= nodes_facts(
                    chunk_snapshot.take(j as int),
                ).push(new_facts));
                assert(nodes_facts(out@) =~= catalogs_nodes(catalogs@.take(i as int))
                    + nodes_facts(chunk_snapshot.take(j as int + 1)));
                assert(node_names(out@) =~= node_names(out_pre).push(
                    chunk_snapshot[j as int].name@,
                ));
                assert forall|a: int, b: int| 0 <= a < b < out@.len() implies node_names(
                    out@,
                )[a] != node_names(out@)[b] by {
                    if b < out@.len() - 1 {
                        assert(node_names(out_pre)[a] != node_names(out_pre)[b]);
                    } else {
                        assert(out_pre[a].name@ != out@[b].name@);
                    }
                }
            }
            j = j + 1;
        }
        proof {
            assert(chunk_snapshot.take(j as int) =~= chunk_snapshot);
            lemma_catalogs_nodes_snoc(catalogs@, i as int);
            assert(nodes_facts(out@) =~= catalogs_nodes(catalogs@.take(i as int + 1)));
        }
        i = i + 1;
    }
    proof {
        assert(catalogs@.take(catalogs@.len() as int) =~= catalogs@);
    }
    Ok(out)
}

} // verus!
