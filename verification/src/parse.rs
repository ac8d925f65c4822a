//! Syntactic block extraction: a source file is parsed with a tree-sitter
//! grammar chosen by file extension, each matched line is mapped to the
//! smallest covering node and then up to the nearest acceptable parent, and
//! one block is emitted per distinct byte range.

use vstd::prelude::*;
use std::collections::HashSet;

use crate::models::{BlockModel, CodeBlock, models_of};
use crate::text::str_eq;

verus! {

/// The languages with a compiled-in grammar.
#[derive(Clone, Copy, PartialEq, Eq, Structural, Debug)]
pub enum Lang {
    Rust,
    JavaScript,
    TypeScript,
    Python,
    Go,
    C,
    Cpp,
    Java,
    Ruby,
    Php,
}

/// How extraction can fail; both cases are recovered by callers, which fall
/// back to emitting the raw matched lines.
#[derive(Clone, Copy, PartialEq, Eq, Structural, Debug)]
pub enum BlockError {
    UnsupportedLanguage,
    ParseError,
}

/// The grammar for a file extension, if any.
pub open spec fn spec_get_language(ext: Seq<char>) -> Option<Lang> {
    if ext == "rs"@ {
        Some(Lang::Rust)
    } else if ext == "js"@ || ext == "jsx"@ || ext == "mjs"@ || ext == "cjs"@ {
        Some(Lang::JavaScript)
    } else if ext == "ts"@ || ext == "tsx"@ {
        Some(Lang::TypeScript)
    } else if ext == "py"@ {
        Some(Lang::Python)
    } else if ext == "go"@ {
        Some(Lang::Go)
    } else if ext == "c"@ || ext == "h"@ {
        Some(Lang::C)
    } else if ext == "cpp"@ || ext == "cc"@ || ext == "cxx"@ || ext == "hpp"@ || ext == "hxx"@ {
        Some(Lang::Cpp)
    } else if ext == "java"@ {
        Some(Lang::Java)
    } else if ext == "rb"@ {
        Some(Lang::Ruby)
    } else if ext == "php"@ {
        Some(Lang::Php)
    } else {
        None
    }
}

/// Selects the grammar for a file extension.
pub fn get_language(extension: &str) -> (r: Option<Lang>)
    ensures
        r == spec_get_language(extension@),
{
    if str_eq(extension, "rs") {
        Some(Lang::Rust)
    } else if str_eq(extension, "js") || str_eq(extension, "jsx") || str_eq(extension, "mjs")
        || str_eq(extension, "cjs") {
        Some(Lang::JavaScript)
    } else if str_eq(extension, "ts") || str_eq(extension, "tsx") {
        Some(Lang::TypeScript)
    } else if str_eq(extension, "py") {
        Some(Lang::Python)
    } else if str_eq(extension, "go") {
        Some(Lang::Go)
    } else if str_eq(extension, "c") || str_eq(extension, "h") {
        Some(Lang::C)
    } else if str_eq(extension, "cpp") || str_eq(extension, "cc") || str_eq(extension, "cxx")
        || str_eq(extension, "hpp") || str_eq(extension, "hxx") {
        Some(Lang::Cpp)
    } else if str_eq(extension, "java") {
        Some(Lang::Java)
    } else if str_eq(extension, "rb") {
        Some(Lang::Ruby)
    } else if str_eq(extension, "php") {
        Some(Lang::Php)
    } else {
        None
    }
}

/// Node kinds that count as meaningful enclosing constructs, per grammar.
pub open spec fn spec_acceptable_parent(lang: Lang, kind: Seq<char>) -> bool {
    match lang {
        Lang::Rust => kind == "function_item"@ || kind == "impl_item"@ || kind
            == "struct_item"@ || kind == "enum_item"@ || kind == "trait_item"@ || kind
            == "mod_item"@ || kind == "macro_definition"@ || kind == "type_item"@ || kind
            == "const_item"@ || kind == "static_item"@,
        Lang::JavaScript => kind == "function_declaration"@ || kind
            == "generator_function_declaration"@ || kind == "method_definition"@ || kind
            == "class_declaration"@ || kind == "lexical_declaration"@ || kind
            == "variable_declaration"@ || kind == "export_statement"@,
        Lang::TypeScript => kind == "function_declaration"@ || kind
            == "generator_function_declaration"@ || kind == "method_definition"@ || kind
            == "class_declaration"@ || kind == "abstract_class_declaration"@ || kind
            == "lexical_declaration"@ || kind == "variable_declaration"@ || kind
            == "export_statement"@ || kind == "interface_declaration"@ || kind
            == "enum_declaration"@ || kind == "type_alias_declaration"@ || kind == "module"@,
        Lang::Python => kind == "function_definition"@ || kind == "class_definition"@ || kind
            == "decorated_definition"@,
        Lang::Go => kind == "function_declaration"@ || kind == "method_declaration"@ || kind
            == "type_declaration"@ || kind == "const_declaration"@ || kind == "var_declaration"@,
        Lang::C => kind == "function_definition"@ || kind == "struct_specifier"@ || kind
            == "enum_specifier"@ || kind == "union_specifier"@ || kind == "type_definition"@
            || kind == "declaration"@,
        Lang::Cpp => kind == "function_definition"@ || kind == "struct_specifier"@ || kind
            == "enum_specifier"@ || kind == "union_specifier"@ || kind == "type_definition"@
            || kind == "declaration"@ || kind == "class_specifier"@ || kind
            == "namespace_definition"@ || kind == "template_declaration"@,
        Lang::Java => kind == "method_declaration"@ || kind == "class_declaration"@ || kind
            == "interface_declaration"@ || kind == "enum_declaration"@ || kind
            == "constructor_declaration"@ || kind == "field_declaration"@,
        Lang::Ruby => kind == "method"@ || kind == "singleton_method"@ || kind == "class"@
            || kind == "module"@,
        Lang::Php => kind == "function_definition"@ || kind == "method_declaration"@ || kind
            == "class_declaration"@ || kind == "interface_declaration"@ || kind
            == "trait_declaration"@ || kind == "namespace_definition"@,
    }
}

/// Whether a node kind is a meaningful enclosing construct for the language.
pub fn is_acceptable_parent(lang: Lang, kind: &str) -> (r: bool)
    ensures
        r == spec_acceptable_parent(lang, kind@),
{
    match lang {
        Lang::Rust => str_eq(kind, "function_item") || str_eq(kind, "impl_item") || str_eq(
            kind,
            "struct_item",
        ) || str_eq(kind, "enum_item") || str_eq(kind, "trait_item") || str_eq(kind, "mod_item")
            || str_eq(kind, "macro_definition") || str_eq(kind, "type_item") || str_eq(
            kind,
            "const_item",
        ) || str_eq(kind, "static_item"),
        Lang::JavaScript => str_eq(kind, "function_declaration") || str_eq(
            kind,
            "generator_function_declaration",
        ) || str_eq(kind, "method_definition") || str_eq(kind, "class_declaration") || str_eq(
            kind,
            "lexical_declaration",
        ) || str_eq(kind, "variable_declaration") || str_eq(kind, "export_statement"),
        Lang::TypeScript => str_eq(kind, "function_declaration") || str_eq(
            kind,
            "generator_function_declaration",
        ) || str_eq(kind, "method_definition") || str_eq(kind, "class_declaration") || str_eq(
            kind,
            "abstract_class_declaration",
        ) || str_eq(kind, "lexical_declaration") || str_eq(kind, "variable_declaration") || str_eq(
            kind,
            "export_statement",
        ) || str_eq(kind, "interface_declaration") || str_eq(kind, "enum_declaration") || str_eq(
            kind,
            "type_alias_declaration",
        ) || str_eq(kind, "module"),
        Lang::Python => str_eq(kind, "function_definition") || str_eq(kind, "class_definition")
            || str_eq(kind, "decorated_definition"),
        Lang::Go => str_eq(kind, "function_declaration") || str_eq(kind, "method_declaration")
            || str_eq(kind, "type_declaration") || str_eq(kind, "const_declaration") || str_eq(
            kind,
            "var_declaration",
        ),
        Lang::C => str_eq(kind, "function_definition") || str_eq(kind, "struct_specifier")
            || str_eq(kind, "enum_specifier") || str_eq(kind, "union_specifier") || str_eq(
            kind,
            "type_definition",
        ) || str_eq(kind, "declaration"),
        Lang::Cpp => str_eq(kind, "function_definition") || str_eq(kind, "struct_specifier")
            || str_eq(kind, "enum_specifier") || str_eq(kind, "union_specifier") || str_eq(
            kind,
            "type_definition",
        ) || str_eq(kind, "declaration") || str_eq(kind, "class_specifier") || str_eq(
            kind,
            "namespace_definition",
        ) || str_eq(kind, "template_declaration"),
        Lang::Java => str_eq(kind, "method_declaration") || str_eq(kind, "class_declaration")
            || str_eq(kind, "interface_declaration") || str_eq(kind, "enum_declaration") || str_eq(
            kind,
            "constructor_declaration",
        ) || str_eq(kind, "field_declaration"),
        Lang::Ruby => str_eq(kind, "method") || str_eq(kind, "singleton_method") || str_eq(
            kind,
            "class",
        ) || str_eq(kind, "module"),
        Lang::Php => str_eq(kind, "function_definition") || str_eq(kind, "method_declaration")
            || str_eq(kind, "class_declaration") || str_eq(kind, "interface_declaration")
            || str_eq(kind, "trait_declaration") || str_eq(kind, "namespace_definition"),
    }
}

/// One node of a parsed tree, flattened: its kind, extents, and the index of
/// its parent (the root points at itself, index 0).
pub struct RawNode {
    pub kind: String,
    pub start_byte: usize,
    pub end_byte: usize,
    pub start_row: usize,
    pub end_row: usize,
    pub parent: usize,
}

/// Structural soundness of a flattened tree: a root at index 0 spanning every
/// node, parents before children, children inside their parents, ordered
/// extents, named kinds, and row numbers small enough to step past.
pub open spec fn nodes_wf(ns: Seq<RawNode>) -> bool {
    &&& ns.len() >= 1
    &&& ns[0].parent == 0
    &&& ns[0].end_row < usize::MAX
    &&& forall|i: int| 1 <= i < ns.len() ==> (#[trigger] ns[i]).parent < i
    &&& forall|i: int|
        0 <= i < ns.len() ==> (#[trigger] ns[i]).start_byte <= ns[i].end_byte
            && ns[i].start_row <= ns[i].end_row && ns[i].kind@.len() > 0
    &&& forall|i: int|
        1 <= i < ns.len() ==> ns[(#[trigger] ns[i]).parent as int].start_byte <= ns[i].start_byte
            && ns[i].end_byte <= ns[ns[i].parent as int].end_byte && ns[ns[i].parent as int].start_row
            <= ns[i].start_row && ns[i].end_row <= ns[ns[i].parent as int].end_row
}

/// Declares tree-sitter's `Language` handle so grammars can be passed to the
/// parsing wrapper; the library never looks inside one.
#[verifier::external_type_specification]
#[verifier::external_body]
pub struct ExTsLanguage(tree_sitter::Language);

/// The compiled-in grammar handle of a language: each grammar crate exposes
/// one constant, so the handle depends on the language alone.
pub uninterp spec fn grammar_of_lang(lang: Lang) -> tree_sitter::Language;

/// What parsing a source with a grammar yields: the flattened node list, or
/// nothing when the parser rejects the source or grammar. Without a timeout
/// or cancellation, tree-sitter parsing depends on the source and grammar
/// alone.
pub uninterp spec fn parsed_with(source: Seq<char>, grammar: tree_sitter::Language) -> Option<
    Seq<RawNode>,
>;

/// What block extraction parses for a source under a language's grammar.
pub open spec fn parsed_nodes_of(source: Seq<char>, lang: Lang) -> Option<Seq<RawNode>> {
    parsed_with(source, grammar_of_lang(lang))
}

/// Relies on each grammar crate's `LANGUAGE` constant and tree-sitter's
/// `Language::from`: selects the compiled-in grammar for a language.
#[verifier::external_body]
fn grammar_of(lang: Lang) -> (r: tree_sitter::Language)
    ensures
        r == grammar_of_lang(lang),
{
    match lang {
        Lang::Rust => tree_sitter_rust::LANGUAGE.into(),
        Lang::JavaScript => tree_sitter_javascript::LANGUAGE.into(),
        Lang::TypeScript => tree_sitter_typescript::LANGUAGE_TYPESCRIPT.into(),
        Lang::Python => tree_sitter_python::LANGUAGE.into(),
        Lang::Go => tree_sitter_go::LANGUAGE.into(),
        Lang::C => tree_sitter_c::LANGUAGE.into(),
        Lang::Cpp => tree_sitter_cpp::LANGUAGE.into(),
        Lang::Java => tree_sitter_java::LANGUAGE.into(),
        Lang::Ruby => tree_sitter_ruby::LANGUAGE.into(),
        Lang::Php => tree_sitter_php::LANGUAGE_PHP.into(),
    }
}

/// Relies on tree-sitter's `Parser::parse` and the node accessors `kind`,
/// `start_byte`, `end_byte`, `start_position`, `end_position`, `children`:
/// the walk flattens the concrete syntax tree, whose root covers the parsed
/// text and whose child nodes lie within their parents' extents. Rows count
/// newlines of an in-memory source, so the root's end row is far below
/// `usize::MAX`.
#[verifier::external_body]
fn parse_nodes(source: &str, grammar: &tree_sitter::Language) -> (r: Option<Vec<RawNode>>)
    ensures
        r matches Some(ns) ==> parsed_with(source@, *grammar) == Some(ns@) && nodes_wf(ns@),
        r is None ==> parsed_with(source@, *grammar) is None,
{
    let mut parser = tree_sitter::Parser::new();
    parser.set_language(grammar).ok()?;
    let tree = parser.parse(source, None)?;
    let mut out: Vec<RawNode> = Vec::new();
    let mut stack = vec![(tree.root_node(), 0usize)];
    while let Some((n, parent)) = stack.pop() {
        let idx = out.len();
        out.push(RawNode { kind: n.kind().to_string(), start_byte: n.start_byte(), end_byte: n.end_byte(), start_row: n.start_position().row, end_row: n.end_position().row, parent });
        let mut c = n.walk();
        for ch in n.children(&mut c) { stack.push((ch, idx)); }
    }
    Some(out)
}

/// The descent to the smallest covering node: indices are scanned upward;
/// whenever a child of the current node covers the row, the walk moves there.
pub open spec fn spec_descend_from(ns: Seq<RawNode>, cur: int, row: int, j: int) -> int
    decreases ns.len() - j,
{
    if j < 0 || j >= ns.len() {
        cur
    } else if ns[j].parent == cur && j > cur && ns[j].start_row <= row && row <= ns[j].end_row {
        spec_descend_from(ns, j, row, j + 1)
    } else {
        spec_descend_from(ns, cur, row, j + 1)
    }
}

pub open spec fn spec_descend(ns: Seq<RawNode>, row: int) -> int {
    spec_descend_from(ns, 0, row, 1)
}

/// The walk from a node up to the nearest acceptable parent; the root stands
/// for the whole file and is always accepted.
pub open spec fn spec_ascend(ns: Seq<RawNode>, lang: Lang, i: int) -> int
    decreases i,
{
    if i <= 0 {
        0
    } else if spec_acceptable_parent(lang, ns[i].kind@) {
        i
    } else if 0 <= ns[i].parent < i {
        spec_ascend(ns, lang, ns[i].parent as int)
    } else {
        i
    }
}

pub open spec fn block_of_node(n: RawNode) -> BlockModel {
    BlockModel {
        start_row: n.start_row as int,
        end_row: n.end_row as int,
        start_byte: n.start_byte as int,
        end_byte: n.end_byte as int,
        node_type: n.kind@,
    }
}

/// Whether a block with this byte range was already emitted.
pub open spec fn has_byte_range(acc: Seq<BlockModel>, sb: int, eb: int) -> bool {
    exists|k: int| 0 <= k < acc.len() && (#[trigger] acc[k]).start_byte == sb && acc[k].end_byte == eb
}

/// The blocks collected for rows `row` onward: a row holding a requested
/// line (1-based) contributes the block of its acceptable parent, once per
/// byte range.
pub open spec fn spec_collect(
    ns: Seq<RawNode>,
    lang: Lang,
    lines: Set<usize>,
    row: int,
    acc: Seq<BlockModel>,
) -> Seq<BlockModel>
    decreases ns[0].end_row + 1 - row,
{
    if row < 0 || row > ns[0].end_row {
        acc
    } else {
        let acc2 = if row + 1 <= usize::MAX && lines.contains((row + 1) as usize) {
            let b = block_of_node(ns[spec_ascend(ns, lang, spec_descend(ns, row))]);
            if has_byte_range(acc, b.start_byte, b.end_byte) {
                acc
            } else {
                acc.push(b)
            }
        } else {
            acc
        };
        spec_collect(ns, lang, lines, row + 1, acc2)
    }
}

/// The blocks for a set of matched lines of a parsed file.
pub open spec fn spec_parse_blocks(ns: Seq<RawNode>, lang: Lang, lines: Set<usize>) -> Seq<
    BlockModel,
> {
    spec_collect(ns, lang, lines, 0, Seq::<BlockModel>::empty())
}

fn descend(nodes: &Vec<RawNode>, row: usize) -> (r: usize)
    requires
        nodes_wf(nodes@),
    ensures
        r as int == spec_descend(nodes@, row as int),
        r < nodes@.len(),
{
    let mut cur: usize = 0;
    let mut j: usize = 1;
    while j < nodes.len()
        invariant
            nodes_wf(nodes@),
            cur < j,
            1 <= j,
            cur < nodes@.len(),
            spec_descend(nodes@, row as int) == spec_descend_from(
                nodes@,
                cur as int,
                row as int,
                j as int,
            ),
        decreases nodes@.len() - j,
    {
        let n = &nodes[j];
        if n.parent == cur && n.start_row <= row && row <= n.end_row {
            cur = j;
        }
        j += 1;
    }
    cur
}

fn ascend(nodes: &Vec<RawNode>, lang: Lang, start: usize) -> (r: usize)
    requires
        nodes_wf(nodes@),
        start < nodes@.len(),
    ensures
        r as int == spec_ascend(nodes@, lang, start as int),
        r < nodes@.len(),
{
    let mut cur: usize = start;
    while cur > 0
        invariant
            nodes_wf(nodes@),
            cur < nodes@.len(),
            spec_ascend(nodes@, lang, start as int) == spec_ascend(nodes@, lang, cur as int),
        decreases cur,
    {
        if is_acceptable_parent(lang, nodes[cur].kind.as_str()) {
            return cur;
        }
        cur = nodes[cur].parent;
    }
    0
}

fn has_byte_range_exec(acc: &Vec<CodeBlock>, sb: usize, eb: usize) -> (r: bool)
    ensures
        r == has_byte_range(models_of(acc@), sb as int, eb as int),
{
    let mut k: usize = 0;
    while k < acc.len()
        invariant
            0 <= k <= acc@.len(),
            forall|w: int|
                0 <= w < k ==> !((#[trigger] models_of(acc@)[w]).start_byte == sb as int
                    && models_of(acc@)[w].end_byte == eb as int),
        decreases acc@.len() - k,
    {
        if acc[k].start_byte == sb && acc[k].end_byte == eb {
            proof {
                assert(models_of(acc@)[k as int].start_byte == sb as int);
            }
            return true;
        }
        proof {
            assert(models_of(acc@)[k as int] == acc@[k as int].model());
        }
        k += 1;
    }
    proof {
        if has_byte_range(models_of(acc@), sb as int, eb as int) {
            let w = choose|w: int|
                0 <= w < models_of(acc@).len() && (#[trigger] models_of(acc@)[w]).start_byte
                    == sb as int && models_of(acc@)[w].end_byte == eb as int;
        }
    }
    false
}

/// Maps each requested (1-based) line of a flattened tree to the block of
/// its acceptable parent construct; each distinct byte range is emitted once,
/// in row order.
pub fn blocks_for_lines(nodes: &Vec<RawNode>, lang: Lang, line_numbers: &HashSet<usize>) -> (r:
    Vec<CodeBlock>)
    requires
        nodes_wf(nodes@),
    ensures
        models_of(r@) == spec_parse_blocks(nodes@, lang, line_numbers@),
{
    broadcast use vstd::std_specs::hash::group_hash_axioms;

    let end = nodes[0].end_row;
    let mut out: Vec<CodeBlock> = Vec::new();
    let mut row: usize = 0;
    proof {
        assert(models_of(out@) =~= Seq::<BlockModel>::empty());
    }
    while row <= end
        invariant
            nodes_wf(nodes@),
            end == nodes@[0].end_row,
            0 <= row <= end + 1,
            spec_parse_blocks(nodes@, lang, line_numbers@) == spec_collect(
                nodes@,
                lang,
                line_numbers@,
                row as int,
                models_of(out@),
            ),
        decreases end + 1 - row,
    {
        let line = row + 1;
        if line_numbers.contains(&line) {
            let ni = descend(nodes, row);
            let ai = ascend(nodes, lang, ni);
            let n = &nodes[ai];
            if !has_byte_range_exec(&out, n.start_byte, n.end_byte) {
                let ghost gout = out@;
                let b = CodeBlock {
                    start_row: n.start_row,
                    end_row: n.end_row,
                    start_byte: n.start_byte,
                    end_byte: n.end_byte,
                    node_type: n.kind.clone(),
                };
                proof {
                    assert(b.model() == block_of_node(nodes@[ai as int]));
                }
                out.push(b);
                proof {
                    assert(models_of(out@) =~= models_of(gout).push(
                        block_of_node(nodes@[ai as int]),
                    ));
                }
            }
        }
        row += 1;
    }
    out
}

/// Parses a source file with the grammar of its extension and returns the
/// enclosing code block of every requested (1-based) line, deduplicated by
/// byte range. Fails with `UnsupportedLanguage` exactly when no grammar
/// matches the extension, with `ParseError` exactly when the parser yields
/// no tree, and otherwise returns exactly the blocks extracted from the
/// source's parsed node list.
pub fn parse_file_for_code_blocks(
    source: &str,
    extension: &str,
    line_numbers: &HashSet<usize>,
) -> (r: Result<Vec<CodeBlock>, BlockError>)
    ensures
        match spec_get_language(extension@) {
            None => r == Err::<Vec<CodeBlock>, BlockError>(BlockError::UnsupportedLanguage),
            Some(lang) => match parsed_nodes_of(source@, lang) {
                None => r == Err::<Vec<CodeBlock>, BlockError>(BlockError::ParseError),
                Some(ns) => r matches Ok(blocks) && nodes_wf(ns) && models_of(blocks@)
                    == spec_parse_blocks(ns, lang, line_numbers@),
            },
        },
{
    let lang = match get_language(extension) {
        Some(l) => l,
        None => {
            return Err(BlockError::UnsupportedLanguage);
        },
    };
    let grammar = grammar_of(lang);
    let nodes = match parse_nodes(source, &grammar) {
        Some(ns) => ns,
        None => {
            proof {
                assert(parsed_nodes_of(source@, lang) is None);
            }
            return Err(BlockError::ParseError);
        },
    };
    let blocks = blocks_for_lines(&nodes, lang, line_numbers);
    proof {
        assert(parsed_nodes_of(source@, lang) == Some(nodes@));
        assert(models_of(blocks@) == spec_parse_blocks(nodes@, lang, line_numbers@));
    }
    Ok(blocks)
}

} // verus!
