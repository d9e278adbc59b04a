//! Source text, and what it imports.
//!
//! The parser is an outside one. What it makes of a source is taken over as a
//! list of those nodes that can import something, in the order in which they
//! stand in the source; which of them do, and how, is decided here.

use vstd::prelude::*;
use oxc_ast::ast::{
    Argument, CallExpression, Expression, ImportExpression, TSImportEqualsDeclaration,
    TSModuleReference,
};
use oxc_ast::AstKind;
use crate::graph::DependencyKind;
use crate::{sorted, text};

verus! {

// ---------------------------------------------------------------------------
// The parser.

/// A node of a syntax tree that can import something.
#[derive(PartialEq, Eq, Debug)]
pub enum Node {
    /// `import … from "source"`, and whether it imports values.
    Import(String, bool),
    /// `export { … } from "source"`, and whether it exports values.
    ExportFrom(String, bool),
    /// `export * from "source"`, and whether it exports values.
    ExportAll(String, bool),
    /// `import(…)`, with the argument where it is a string literal.
    ImportCall(Option<String>),
    /// A call: the callee where it is an identifier, and the first argument where
    /// it is a string literal.
    Call(Option<String>, Option<String>),
    /// `import … = …`, with the source where it is a module, and whether it
    /// imports a value.
    ImportEquals(Option<String>, bool),
}

/// What a `Node` stands for.
#[verifier::ext_equal]
pub enum NodeModel {
    Import(Seq<char>, bool),
    ExportFrom(Seq<char>, bool),
    ExportAll(Seq<char>, bool),
    ImportCall(Option<Seq<char>>),
    Call(Option<Seq<char>>, Option<Seq<char>>),
    ImportEquals(Option<Seq<char>>, bool),
}

impl View for Node {
    type V = NodeModel;

    open spec fn view(&self) -> NodeModel {
        match self {
            Node::Import(source, value) => NodeModel::Import(source@, *value),
            Node::ExportFrom(source, value) => NodeModel::ExportFrom(source@, *value),
            Node::ExportAll(source, value) => NodeModel::ExportAll(source@, *value),
            Node::ImportCall(source) => NodeModel::ImportCall(text::view_of(*source)),
            Node::Call(callee, source) => NodeModel::Call(
                text::view_of(*callee),
                text::view_of(*source),
            ),
            Node::ImportEquals(source, value) => NodeModel::ImportEquals(
                text::view_of(*source),
                *value,
            ),
        }
    }
}

/// What the parser made of a source text.
#[derive(PartialEq, Eq, Debug)]
pub struct Syntax {
    /// Whether it gave up.
    pub panicked: bool,
    /// How many errors it reported.
    pub errors: usize,
    /// The nodes that can import something, in source order.
    pub nodes: Vec<Node>,
}

/// What a `Syntax` stands for.
#[verifier::ext_equal]
pub struct SyntaxModel {
    pub panicked: bool,
    pub errors: usize,
    pub nodes: Seq<NodeModel>,
}

impl View for Syntax {
    type V = SyntaxModel;

    open spec fn view(&self) -> SyntaxModel {
        SyntaxModel {
            panicked: self.panicked,
            errors: self.errors,
            nodes: sorted::list_views(self.nodes@),
        }
    }
}

/// A node of a syntax tree of the `oxc_ast` crate.
#[verifier::external_type_specification]
#[verifier::external_body]
pub struct ExAstKind<'a>(AstKind<'a>);

/// A call in a syntax tree of the `oxc_ast` crate.
#[verifier::external_type_specification]
#[verifier::external_body]
pub struct ExCallExpression<'a>(CallExpression<'a>);

/// An `import(…)` in a syntax tree of the `oxc_ast` crate.
#[verifier::external_type_specification]
#[verifier::external_body]
pub struct ExImportExpression<'a>(ImportExpression<'a>);

/// A TypeScript `import … = …` in a syntax tree of the `oxc_ast` crate.
#[verifier::external_type_specification]
#[verifier::external_body]
pub struct ExTSImportEqualsDeclaration<'a>(TSImportEqualsDeclaration<'a>);

/// Collects nodes while a syntax tree is visited.
struct Collector {
    nodes: Vec<Node>,
}

/// The parts of an `oxc_ast::ast::CallExpression`, taken over one for one: the name
/// of an identifier that is called, and the text of a string literal that comes
/// first. Nothing is claimed of it but through `read_syntax`.
#[verifier::external_body]
fn call_node(it: &CallExpression<'_>) -> Node {
    let callee = match &it.callee {
        Expression::Identifier(name) => Some(name.name.to_string()),
        _ => None,
    };
    let source = match it.arguments.first() {
        Some(Argument::StringLiteral(text)) => Some(text.value.to_string()),
        _ => None,
    };
    Node::Call(callee, source)
}

/// The part of an `oxc_ast::ast::ImportExpression` that names what is imported: the
/// text of a string literal. Nothing is claimed of it but through `read_syntax`.
#[verifier::external_body]
fn import_node(it: &ImportExpression<'_>) -> Node {
    let source = match &it.source {
        Expression::StringLiteral(text) => Some(text.value.to_string()),
        _ => None,
    };
    Node::ImportCall(source)
}

/// The parts of an `oxc_ast::ast::TSImportEqualsDeclaration`, taken over one for
/// one: the text of the module where it refers to one, and what is imported.
/// Nothing is claimed of it but through `read_syntax`.
#[verifier::external_body]
fn equals_node(it: &TSImportEqualsDeclaration<'_>) -> Node {
    let source = match &it.module_reference {
        TSModuleReference::ExternalModuleReference(module) => {
            Some(module.expression.value.to_string())
        },
        _ => None,
    };
    Node::ImportEquals(source, it.import_kind.is_value())
}

impl<'a> oxc_ast_visit::Visit<'a> for Collector {
    /// Takes over the nodes that can import something, one for one. The walks of
    /// `oxc_ast_visit` call it for each node, before they go on to those in it.
    #[verifier::external_body]
    fn enter_node(&mut self, kind: AstKind<'a>) {
        let node = match kind {
            AstKind::ImportDeclaration(it) => Node::Import(it.source.value.to_string(), it.import_kind.is_value()),
            AstKind::ExportFromDeclaration(it) => Node::ExportFrom(it.source.value.to_string(), it.export_kind.is_value()),
            AstKind::ExportAllDeclaration(it) => Node::ExportAll(it.source.value.to_string(), it.export_kind.is_value()),
            AstKind::ImportExpression(it) => import_node(it),
            AstKind::CallExpression(it) => call_node(it),
            AstKind::TSImportEqualsDeclaration(it) => equals_node(it),
            _ => return,
        };
        self.nodes.push(node);
    }
}

/// What the parser of the `oxc_parser` crate makes of a source whose path tells
/// its language.
pub uninterp spec fn syntax_in(path: Seq<char>, source: Seq<char>) -> SyntaxModel;

/// `oxc_parser::Parser::parse` on a source, in the language that
/// `SourceType::from_path` sees in its path, and the tree visited by
/// `Visit::visit_program`: whether the parser gave up, how many diagnostics it
/// has, and the nodes that can import something. All of it depends on the path
/// and the text alone. What the grammars say is theirs.
#[verifier::external_body]
pub(crate) fn read_syntax(path: &str, source: &str) -> (r: Syntax)
    ensures
        r@ == syntax_in(path@, source@),
{
    let language = oxc_span::SourceType::from_path(path).unwrap_or_default();
    let allocator = oxc_allocator::Allocator::default();
    let parsed = oxc_parser::Parser::new(&allocator, source, language).parse();
    let mut collector = Collector { nodes: Vec::new() };
    oxc_ast_visit::Visit::visit_program(&mut collector, &parsed.program);
    let errors = parsed.diagnostics.len();
    Syntax { panicked: parsed.panicked, errors, nodes: collector.nodes }
}

// ---------------------------------------------------------------------------
// Imports.

/// An import.
#[derive(Debug, PartialEq, Eq)]
pub struct Import {
    pub specifier: String,
    pub kind: DependencyKind,
    /// Whether it erases at compile time.
    pub type_only: bool,
}

/// What an `Import` stands for.
#[verifier::ext_equal]
pub struct ImportModel {
    pub specifier: Seq<char>,
    pub kind: DependencyKind,
    pub type_only: bool,
}

impl View for Import {
    type V = ImportModel;

    open spec fn view(&self) -> ImportModel {
        ImportModel {
            specifier: self.specifier@,
            kind: self.kind,
            type_only: self.type_only,
        }
    }
}

/// What a node imports. Only literal specifiers count: guessing at
/// `import(someVariable)` would put modules in the graph that nobody named. Of
/// calls, those of `require` count.
pub open spec fn import_of(node: NodeModel) -> Option<ImportModel> {
    match node {
        NodeModel::Import(specifier, value) => Some(
            ImportModel { specifier, kind: DependencyKind::StaticImport, type_only: !value },
        ),
        NodeModel::ExportFrom(specifier, value) | NodeModel::ExportAll(specifier, value) => Some(
            ImportModel { specifier, kind: DependencyKind::ExportFrom, type_only: !value },
        ),
        NodeModel::ImportCall(Some(specifier)) => Some(
            ImportModel { specifier, kind: DependencyKind::DynamicImport, type_only: false },
        ),
        NodeModel::Call(Some(callee), Some(specifier)) => if callee == "require"@ {
            Some(ImportModel { specifier, kind: DependencyKind::Require, type_only: false })
        } else {
            None
        },
        NodeModel::ImportEquals(Some(specifier), value) => Some(
            ImportModel { specifier, kind: DependencyKind::TsImportEquals, type_only: !value },
        ),
        _ => None,
    }
}

/// What nodes import, in their order.
pub open spec fn imports_in(nodes: Seq<NodeModel>) -> Seq<ImportModel>
    decreases nodes.len(),
{
    if nodes.len() == 0 {
        Seq::empty()
    } else {
        let front = imports_in(nodes.drop_last());
        match import_of(nodes.last()) {
            Some(import) => front.push(import),
            None => front,
        }
    }
}

fn read_node(node: &Node) -> (r: Option<Import>)
    ensures
        text::view_of(r) == import_of(node@),
{
    match node {
        Node::Import(source, value) => Some(
            Import {
                specifier: source.clone(),
                kind: DependencyKind::StaticImport,
                type_only: !*value,
            },
        ),
        Node::ExportFrom(source, value) | Node::ExportAll(source, value) => Some(
            Import {
                specifier: source.clone(),
                kind: DependencyKind::ExportFrom,
                type_only: !*value,
            },
        ),
        Node::ImportCall(Some(source)) => Some(
            Import {
                specifier: source.clone(),
                kind: DependencyKind::DynamicImport,
                type_only: false,
            },
        ),
        Node::Call(Some(callee), Some(source)) => {
            if text::same_text(callee.as_str(), "require") {
                Some(
                    Import {
                        specifier: source.clone(),
                        kind: DependencyKind::Require,
                        type_only: false,
                    },
                )
            } else {
                None
            }
        },
        Node::ImportEquals(Some(source), value) => Some(
            Import {
                specifier: source.clone(),
                kind: DependencyKind::TsImportEquals,
                type_only: !*value,
            },
        ),
        _ => None,
    }
}

/// What nodes import, in their order.
pub fn imports_of(nodes: &Vec<Node>) -> (r: Vec<Import>)
    ensures
        sorted::list_views(r@) == imports_in(sorted::list_views(nodes@)),
{
    let ghost all = sorted::list_views(nodes@);
    let mut out: Vec<Import> = Vec::new();
    let mut i: usize = 0;
    assert(sorted::list_views(out@) =~= Seq::empty());
    while i < nodes.len()
        invariant
            i <= nodes@.len(),
            all == sorted::list_views(nodes@),
            sorted::list_views(out@) == imports_in(all.take(i as int)),
        decreases nodes@.len() - i,
    {
        let ghost before = sorted::list_views(out@);
        proof {
            assert(all.take(i + 1).drop_last() =~= all.take(i as int));
            assert(all.take(i + 1).last() == nodes@[i as int]@);
        }
        if let Some(import) = read_node(&nodes[i]) {
            out.push(import);
            assert(sorted::list_views(out@) =~= before.push(import@));
        }
        i += 1;
    }
    assert(all.take(i as int) =~= all);
    out
}

/// What there is to say of a source that the parser had trouble with.
pub open spec fn trouble_of(syntax: SyntaxModel) -> Option<Seq<char>> {
    if syntax.panicked {
        Some("parser could not recover; imports may be missing"@)
    } else if syntax.errors > 0 {
        Some(
            text::decimal(syntax.errors as nat)
                + " syntax error(s); parsed on a best-effort basis"@,
        )
    } else {
        None
    }
}

impl Syntax {
    /// What there is to say of a source that the parser had trouble with.
    pub fn trouble(&self) -> (r: Option<String>)
        ensures
            text::view_of(r) == trouble_of(self@),
    {
        if self.panicked {
            Some("parser could not recover; imports may be missing".to_string())
        } else if self.errors > 0 {
            let mut out = text::render_decimal(self.errors as u64);
            text::append_str(&mut out, " syntax error(s); parsed on a best-effort basis");
            Some(text::string_of(&out))
        } else {
            None
        }
    }
}

} // verus!
