//! The entry-level template model: literal text, variable references,
//! message and term references, and selector constructs. The spec
//! functions here say which variables and cross-references a pattern
//! mentions, and whether it contains a (not supported) function call.
use vstd::prelude::*;

verus! {

/// An embedded dynamic expression inside literal text.
pub enum InlineExpression {
    FunctionReference { id: String },
    MessageReference { id: String },
    TermReference { id: String },
    VariableReference { id: String },
    Placeable { expression: Box<Expression> },
    StringLiteral { value: String },
    NumberLiteral { value: String },
}

/// A placeable: either a selector with variants or a single inline
/// expression.
pub enum Expression {
    Select { selector: InlineExpression, variants: Vec<Pattern> },
    Inline { expression: InlineExpression },
}

/// One element of an entry value: fixed text or a placeable.
pub enum PatternElement {
    TextElement { value: String },
    Placeable { expression: Expression },
}

/// The value of a message or term: a sequence of pattern elements.
pub struct Pattern {
    pub elements: Vec<PatternElement>,
}

/// A message (optional value) or term (value required) of a catalog.
pub enum Entry {
    Message { id: String, value: Option<Pattern> },
    Term { id: String, value: Pattern },
}

/// A named catalog: the entries parsed from one file.
pub struct Catalog {
    pub name: String,
    pub entries: Vec<Entry>,
}

/// What a scan of a template fragment finds: the variable names and
/// entry names it references directly, and whether a function
/// reference occurs in it.
#[verifier::ext_equal]
pub ghost struct ScanFacts {
    pub vars: Set<Seq<char>>,
    pub deps: Set<Seq<char>>,
    pub has_function: bool,
}

pub open spec fn empty_facts() -> ScanFacts {
    ScanFacts { vars: Set::empty(), deps: Set::empty(), has_function: false }
}

pub open spec fn facts_union(a: ScanFacts, b: ScanFacts) -> ScanFacts {
    ScanFacts {
        vars: a.vars.union(b.vars),
        deps: a.deps.union(b.deps),
        has_function: a.has_function || b.has_function,
    }
}

pub open spec fn inline_facts(e: InlineExpression) -> ScanFacts
    decreases e,
{
    match e {
        InlineExpression::FunctionReference { id } => ScanFacts {
            vars: Set::empty(),
            deps: Set::empty(),
            has_function: true,
        },
        InlineExpression::MessageReference { id } => ScanFacts {
            vars: Set::empty(),
            deps: Set::empty().insert(id@),
            has_function: false,
        },
        InlineExpression::TermReference { id } => ScanFacts {
            vars: Set::empty(),
            deps: Set::empty().insert(id@),
            has_function: false,
        },
        InlineExpression::VariableReference { id } => ScanFacts {
            vars: Set::empty().insert(id@),
            deps: Set::empty(),
            has_function: false,
        },
        InlineExpression::Placeable { expression } => expression_facts(*expression),
        InlineExpression::StringLiteral { value } => empty_facts(),
        InlineExpression::NumberLiteral { value } => empty_facts(),
    }
}

pub open spec fn expression_facts(e: Expression) -> ScanFacts
    decreases e,
{
    match e {
        Expression::Select { selector, variants } => facts_union(
            inline_facts(selector),
            patterns_facts(variants@),
        ),
        Expression::Inline { expression } => inline_facts(expression),
    }
}

pub open spec fn patterns_facts(ps: Seq<Pattern>) -> ScanFacts
    decreases ps,
{
    if ps.len() == 0 {
        empty_facts()
    } else {
        facts_union(pattern_facts(ps[0]), patterns_facts(ps.drop_first()))
    }
}

pub open spec fn pattern_facts(p: Pattern) -> ScanFacts
    decreases p,
{
    elements_facts(p.elements@)
}

pub open spec fn elements_facts(es: Seq<PatternElement>) -> ScanFacts
    decreases es,
{
    if es.len() == 0 {
        empty_facts()
    } else {
        facts_union(element_facts(es[0]), elements_facts(es.drop_first()))
    }
}

pub open spec fn element_facts(e: PatternElement) -> ScanFacts
    decreases e,
{
    match e {
        PatternElement::TextElement { value } => empty_facts(),
        PatternElement::Placeable { expression } => expression_facts(expression),
    }
}

} // verus!
