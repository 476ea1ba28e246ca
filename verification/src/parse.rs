//! Parsing source files with tree-sitter: the grammars, the queries, and the
//! step that turns one file's bytes into chunks and imports.
use vstd::prelude::*;

use crate::ingest::{
    captures_fit, collect_chunks, collect_imports, file_chunks, file_uid, imports_of,
    pending_chunks, Capture, ExistingFile, ParsedFile,
};
use crate::text::{append_chars, chars_of, is_literal, lines, string_of};
use streaming_iterator::StreamingIterator;
use tree_sitter::{Language, Parser, Query, Tree};

verus! {

#[verifier::external_type_specification]
#[verifier::external_body]
pub struct ExLanguage(tree_sitter::Language);

#[verifier::external_type_specification]
#[verifier::external_body]
pub struct ExTree(tree_sitter::Tree);

#[verifier::external_type_specification]
#[verifier::external_body]
pub struct ExQuery(tree_sitter::Query);

/// The grammar `tree_sitter_rust::LANGUAGE`.
#[verifier::external_body]
fn grammar_rust() -> (l: Language) {
    tree_sitter_rust::LANGUAGE.into()
}

/// The grammar `tree_sitter_typescript::LANGUAGE_TYPESCRIPT`.
#[verifier::external_body]
fn grammar_typescript() -> (l: Language) {
    tree_sitter_typescript::LANGUAGE_TYPESCRIPT.into()
}

/// The grammar `tree_sitter_javascript::LANGUAGE`.
#[verifier::external_body]
fn grammar_javascript() -> (l: Language) {
    tree_sitter_javascript::LANGUAGE.into()
}

/// The grammar `tree_sitter_python::LANGUAGE`.
#[verifier::external_body]
fn grammar_python() -> (l: Language) {
    tree_sitter_python::LANGUAGE.into()
}

/// The grammar `tree_sitter_go::LANGUAGE`.
#[verifier::external_body]
fn grammar_go() -> (l: Language) {
    tree_sitter_go::LANGUAGE.into()
}

/// The grammar `tree_sitter_swift::LANGUAGE`.
#[verifier::external_body]
fn grammar_swift() -> (l: Language) {
    tree_sitter_swift::LANGUAGE.into()
}

/// The grammar `tree_sitter_php::LANGUAGE_PHP`.
#[verifier::external_body]
fn grammar_php() -> (l: Language) {
    tree_sitter_php::LANGUAGE_PHP.into()
}

/// The grammar `tree_sitter_ruby::LANGUAGE`.
#[verifier::external_body]
fn grammar_ruby() -> (l: Language) {
    tree_sitter_ruby::LANGUAGE.into()
}

/// The grammar `tree_sitter_java::LANGUAGE`.
#[verifier::external_body]
fn grammar_java() -> (l: Language) {
    tree_sitter_java::LANGUAGE.into()
}

/// The grammar `tree_sitter_c::LANGUAGE`.
#[verifier::external_body]
fn grammar_c() -> (l: Language) {
    tree_sitter_c::LANGUAGE.into()
}

/// The grammar `tree_sitter_cpp::LANGUAGE`.
#[verifier::external_body]
fn grammar_cpp() -> (l: Language) {
    tree_sitter_cpp::LANGUAGE.into()
}

/// The grammar `tree_sitter_c_sharp::LANGUAGE`.
#[verifier::external_body]
fn grammar_csharp() -> (l: Language) {
    tree_sitter_c_sharp::LANGUAGE.into()
}

/// The grammar `tree_sitter_bash::LANGUAGE`.
#[verifier::external_body]
fn grammar_bash() -> (l: Language) {
    tree_sitter_bash::LANGUAGE.into()
}

/// The grammar `tree_sitter_html::LANGUAGE`.
#[verifier::external_body]
fn grammar_html() -> (l: Language) {
    tree_sitter_html::LANGUAGE.into()
}

/// The grammar `tree_sitter_css::LANGUAGE`.
#[verifier::external_body]
fn grammar_css() -> (l: Language) {
    tree_sitter_css::LANGUAGE.into()
}

/// The languages the ingest has a grammar for.
pub open spec fn has_grammar(lang: Seq<char>) -> bool {
    lang == "rust"@ || lang == "typescript"@ || lang == "javascript"@ || lang == "python"@ || lang == "go"@ || lang == "swift"@ || lang == "php"@ || lang == "ruby"@ || lang == "java"@ || lang == "c"@ || lang == "cpp"@ || lang == "csharp"@ || lang == "bash"@ || lang == "html"@ || lang == "css"@
}

/// The grammar of a language; an unknown language is refused with
/// `unsupported lang ` and its name.
pub fn language_for(lang: &str) -> (r: Result<Language, String>)
    ensures
        r is Ok <==> has_grammar(lang@),
        r matches Err(m) ==> m@ == "unsupported lang "@ + lang@,
{
    let l = chars_of(lang);
    if is_literal(l.as_slice(), "rust") {
        Ok(grammar_rust())
    } else if is_literal(l.as_slice(), "typescript") {
        Ok(grammar_typescript())
    } else if is_literal(l.as_slice(), "javascript") {
        Ok(grammar_javascript())
    } else if is_literal(l.as_slice(), "python") {
        Ok(grammar_python())
    } else if is_literal(l.as_slice(), "go") {
        Ok(grammar_go())
    } else if is_literal(l.as_slice(), "swift") {
        Ok(grammar_swift())
    } else if is_literal(l.as_slice(), "php") {
        Ok(grammar_php())
    } else if is_literal(l.as_slice(), "ruby") {
        Ok(grammar_ruby())
    } else if is_literal(l.as_slice(), "java") {
        Ok(grammar_java())
    } else if is_literal(l.as_slice(), "c") {
        Ok(grammar_c())
    } else if is_literal(l.as_slice(), "cpp") {
        Ok(grammar_cpp())
    } else if is_literal(l.as_slice(), "csharp") {
        Ok(grammar_csharp())
    } else if is_literal(l.as_slice(), "bash") {
        Ok(grammar_bash())
    } else if is_literal(l.as_slice(), "html") {
        Ok(grammar_html())
    } else if is_literal(l.as_slice(), "css") {
        Ok(grammar_css())
    } else {
        Err(crate::error::concat_message("unsupported lang ", lang))
    }
}

/// The languages whose definitions the ingest cuts into chunks.
pub open spec fn has_chunk_query(lang: Seq<char>) -> bool {
    lang == "rust"@ || lang == "javascript"@ || lang == "typescript"@ || lang == "python"@ || lang == "go"@ || lang == "swift"@ || lang == "php"@ || lang == "ruby"@ || lang == "java"@ || lang == "c"@ || lang == "cpp"@ || lang == "csharp"@ || lang == "bash"@ || lang == "css"@
}

/// The chunk query of rust.
pub const CHUNK_QUERY_RUST: &'static str = r#"
            (function_item name: (identifier) @name) @def
            (struct_item name: (type_identifier) @name) @def
            (enum_item name: (type_identifier) @name) @def
            (trait_item name: (type_identifier) @name) @def
            (impl_item type: (type_identifier) @name) @def
        "#;
/// The chunk query of javascript.
pub const CHUNK_QUERY_JAVASCRIPT: &'static str = r#"
            (function_declaration name: (identifier) @name) @def
            (class_declaration name: (identifier) @name) @def
            (method_definition name: (property_identifier) @name) @def
            (export_statement declaration: (function_declaration name: (identifier) @name)) @def
        "#;
/// The chunk query of typescript.
pub const CHUNK_QUERY_TYPESCRIPT: &'static str = r#"
            (function_declaration name: (identifier) @name) @def
            (class_declaration name: (type_identifier) @name) @def
            (method_definition name: (property_identifier) @name) @def
            (interface_declaration name: (type_identifier) @name) @def
            (type_alias_declaration name: (type_identifier) @name) @def
            (export_statement declaration: (function_declaration name: (identifier) @name)) @def
        "#;
/// The chunk query of python.
pub const CHUNK_QUERY_PYTHON: &'static str = r#"
            (function_definition name: (identifier) @name) @def
            (class_definition name: (identifier) @name) @def
        "#;
/// The chunk query of go.
pub const CHUNK_QUERY_GO: &'static str = r#"
            (function_declaration name: (identifier) @name) @def
            (method_declaration name: (field_identifier) @name) @def
            (type_declaration (type_spec name: (type_identifier) @name)) @def
        "#;
/// The chunk query of swift.
pub const CHUNK_QUERY_SWIFT: &'static str = r#"
            (function_declaration) @def
            (class_declaration) @def
            (protocol_declaration) @def
        "#;
/// The chunk query of php.
pub const CHUNK_QUERY_PHP: &'static str = r#"
            (function_definition) @def
            (class_declaration) @def
            (interface_declaration) @def
            (trait_declaration) @def
            (method_declaration) @def
        "#;
/// The chunk query of ruby.
pub const CHUNK_QUERY_RUBY: &'static str = r#"
            (method) @def
            (class) @def
            (module) @def
        "#;
/// The chunk query of java.
pub const CHUNK_QUERY_JAVA: &'static str = r#"
            (method_declaration) @def
            (class_declaration) @def
            (interface_declaration) @def
            (enum_declaration) @def
        "#;
/// The chunk query of c.
pub const CHUNK_QUERY_C: &'static str = r#"
            (function_definition) @def
            (struct_specifier) @def
            (union_specifier) @def
            (enum_specifier) @def
        "#;
/// The chunk query of cpp.
pub const CHUNK_QUERY_CPP: &'static str = r#"
            (function_definition) @def
            (class_specifier) @def
            (struct_specifier) @def
            (namespace_definition) @def
        "#;
/// The chunk query of csharp.
pub const CHUNK_QUERY_CSHARP: &'static str = r#"
            (method_declaration) @def
            (class_declaration) @def
            (interface_declaration) @def
            (struct_declaration) @def
        "#;
/// The chunk query of bash.
pub const CHUNK_QUERY_BASH: &'static str = r#"
            (function_definition) @def
        "#;
/// The chunk query of css.
pub const CHUNK_QUERY_CSS: &'static str = r#"
            (rule_set) @def
        "#;

/// The text of the chunk query of a language, when it has one.
pub open spec fn chunk_query_of(lang: Seq<char>) -> Option<Seq<char>> {
    if lang == "rust"@ {
        Some(CHUNK_QUERY_RUST@)
    } else if lang == "javascript"@ {
        Some(CHUNK_QUERY_JAVASCRIPT@)
    } else if lang == "typescript"@ {
        Some(CHUNK_QUERY_TYPESCRIPT@)
    } else if lang == "python"@ {
        Some(CHUNK_QUERY_PYTHON@)
    } else if lang == "go"@ {
        Some(CHUNK_QUERY_GO@)
    } else if lang == "swift"@ {
        Some(CHUNK_QUERY_SWIFT@)
    } else if lang == "php"@ {
        Some(CHUNK_QUERY_PHP@)
    } else if lang == "ruby"@ {
        Some(CHUNK_QUERY_RUBY@)
    } else if lang == "java"@ {
        Some(CHUNK_QUERY_JAVA@)
    } else if lang == "c"@ {
        Some(CHUNK_QUERY_C@)
    } else if lang == "cpp"@ {
        Some(CHUNK_QUERY_CPP@)
    } else if lang == "csharp"@ {
        Some(CHUNK_QUERY_CSHARP@)
    } else if lang == "bash"@ {
        Some(CHUNK_QUERY_BASH@)
    } else if lang == "css"@ {
        Some(CHUNK_QUERY_CSS@)
    } else {
        None
    }
}

/// The query that finds a language's definitions, when it has one.
pub fn chunk_query_src(lang: &str) -> (q: Option<&'static str>)
    ensures
        q is Some <==> has_chunk_query(lang@),
        match chunk_query_of(lang@) {
            Some(t) => q matches Some(x) && x@ == t,
            None => q is None,
        },
{
    let l = chars_of(lang);
    if is_literal(l.as_slice(), "rust") {
        Some(CHUNK_QUERY_RUST)
    } else if is_literal(l.as_slice(), "javascript") {
        Some(CHUNK_QUERY_JAVASCRIPT)
    } else if is_literal(l.as_slice(), "typescript") {
        Some(CHUNK_QUERY_TYPESCRIPT)
    } else if is_literal(l.as_slice(), "python") {
        Some(CHUNK_QUERY_PYTHON)
    } else if is_literal(l.as_slice(), "go") {
        Some(CHUNK_QUERY_GO)
    } else if is_literal(l.as_slice(), "swift") {
        Some(CHUNK_QUERY_SWIFT)
    } else if is_literal(l.as_slice(), "php") {
        Some(CHUNK_QUERY_PHP)
    } else if is_literal(l.as_slice(), "ruby") {
        Some(CHUNK_QUERY_RUBY)
    } else if is_literal(l.as_slice(), "java") {
        Some(CHUNK_QUERY_JAVA)
    } else if is_literal(l.as_slice(), "c") {
        Some(CHUNK_QUERY_C)
    } else if is_literal(l.as_slice(), "cpp") {
        Some(CHUNK_QUERY_CPP)
    } else if is_literal(l.as_slice(), "csharp") {
        Some(CHUNK_QUERY_CSHARP)
    } else if is_literal(l.as_slice(), "bash") {
        Some(CHUNK_QUERY_BASH)
    } else if is_literal(l.as_slice(), "css") {
        Some(CHUNK_QUERY_CSS)
    } else {
        None
    }
}

/// The languages whose imports the ingest reads.
pub open spec fn has_import_query(lang: Seq<char>) -> bool {
    lang == "rust"@ || lang == "javascript"@ || lang == "typescript"@ || lang == "python"@ || lang == "go"@ || lang == "swift"@ || lang == "php"@ || lang == "java"@ || lang == "c"@ || lang == "cpp"@ || lang == "csharp"@ || lang == "css"@
}

/// The import query of rust.
pub const IMPORT_QUERY_RUST: &'static str = r#"
            (use_declaration argument: (_) @imp)
            (mod_item name: (identifier) @imp)
            (extern_crate_declaration name: (identifier) @imp)
        "#;
/// The import query of javascript, typescript.
pub const IMPORT_QUERY_JAVASCRIPT: &'static str = r#"
            (import_statement source: (string) @imp)
            (export_statement source: (string) @imp)
            (call_expression function: (identifier) @fn arguments: (arguments (string) @imp))
        "#;
/// The import query of python.
pub const IMPORT_QUERY_PYTHON: &'static str = r#"
            (import_statement name: (dotted_name) @imp)
            (import_from_statement module_name: (dotted_name) @imp)
        "#;
/// The import query of go.
pub const IMPORT_QUERY_GO: &'static str = r#"
            (import_spec path: (interpreted_string_literal) @imp)
        "#;
/// The import query of swift.
pub const IMPORT_QUERY_SWIFT: &'static str = r#"
            (import_declaration) @imp
        "#;
/// The import query of php.
pub const IMPORT_QUERY_PHP: &'static str = r#"
            (namespace_use_declaration) @imp
        "#;
/// The import query of java.
pub const IMPORT_QUERY_JAVA: &'static str = r#"
            (import_declaration) @imp
        "#;
/// The import query of c, cpp.
pub const IMPORT_QUERY_C: &'static str = r#"
            (preproc_include) @imp
        "#;
/// The import query of csharp.
pub const IMPORT_QUERY_CSHARP: &'static str = r#"
            (using_directive) @imp
        "#;
/// The import query of css.
pub const IMPORT_QUERY_CSS: &'static str = r#"
            (import_statement) @imp
        "#;

/// The text of the import query of a language, when it has one.
pub open spec fn import_query_of(lang: Seq<char>) -> Option<Seq<char>> {
    if lang == "rust"@ {
        Some(IMPORT_QUERY_RUST@)
    } else if lang == "javascript"@ || lang == "typescript"@ {
        Some(IMPORT_QUERY_JAVASCRIPT@)
    } else if lang == "python"@ {
        Some(IMPORT_QUERY_PYTHON@)
    } else if lang == "go"@ {
        Some(IMPORT_QUERY_GO@)
    } else if lang == "swift"@ {
        Some(IMPORT_QUERY_SWIFT@)
    } else if lang == "php"@ {
        Some(IMPORT_QUERY_PHP@)
    } else if lang == "java"@ {
        Some(IMPORT_QUERY_JAVA@)
    } else if lang == "c"@ || lang == "cpp"@ {
        Some(IMPORT_QUERY_C@)
    } else if lang == "csharp"@ {
        Some(IMPORT_QUERY_CSHARP@)
    } else if lang == "css"@ {
        Some(IMPORT_QUERY_CSS@)
    } else {
        None
    }
}

/// The query that finds a language's imports, when it has one.
pub fn import_query_src(lang: &str) -> (q: Option<&'static str>)
    ensures
        q is Some <==> has_import_query(lang@),
        match import_query_of(lang@) {
            Some(t) => q matches Some(x) && x@ == t,
            None => q is None,
        },
{
    let l = chars_of(lang);
    if is_literal(l.as_slice(), "rust") {
        Some(IMPORT_QUERY_RUST)
    } else if is_literal(l.as_slice(), "javascript") || is_literal(l.as_slice(), "typescript") {
        Some(IMPORT_QUERY_JAVASCRIPT)
    } else if is_literal(l.as_slice(), "python") {
        Some(IMPORT_QUERY_PYTHON)
    } else if is_literal(l.as_slice(), "go") {
        Some(IMPORT_QUERY_GO)
    } else if is_literal(l.as_slice(), "swift") {
        Some(IMPORT_QUERY_SWIFT)
    } else if is_literal(l.as_slice(), "php") {
        Some(IMPORT_QUERY_PHP)
    } else if is_literal(l.as_slice(), "java") {
        Some(IMPORT_QUERY_JAVA)
    } else if is_literal(l.as_slice(), "c") || is_literal(l.as_slice(), "cpp") {
        Some(IMPORT_QUERY_C)
    } else if is_literal(l.as_slice(), "csharp") {
        Some(IMPORT_QUERY_CSHARP)
    } else if is_literal(l.as_slice(), "css") {
        Some(IMPORT_QUERY_CSS)
    } else {
        None
    }
}


/// A language's grammar, as the ingest ships it.
pub struct Grammar {
    lang: String,
    language: Language,
}

impl Grammar {
    /// The language the grammar is for.
    pub closed spec fn name(&self) -> Seq<char> {
        self.lang@
    }
}

/// The grammar of a language the ingest knows.
fn grammar_for(lang: &str) -> (g: Option<Grammar>)
    ensures
        g is Some <==> has_grammar(lang@),
        g matches Some(x) ==> x.name() == lang@,
{
    match language_for(lang) {
        Ok(language) => Some(Grammar { lang: lang.to_owned(), language }),
        Err(_) => None,
    }
}

/// A query compiled for a grammar, with the text it was compiled from.
pub struct CompiledQuery {
    lang: String,
    text: String,
    query: Query,
}

impl CompiledQuery {
    /// The language of the grammar the query was compiled for.
    pub closed spec fn name(&self) -> Seq<char> {
        self.lang@
    }

    /// The query's text.
    pub closed spec fn text(&self) -> Seq<char> {
        self.text@
    }
}

/// A syntax tree, with the language and the source it was parsed from.
pub struct SyntaxTree {
    lang: String,
    source: String,
    tree: Tree,
}

impl SyntaxTree {
    pub closed spec fn name(&self) -> Seq<char> {
        self.lang@
    }

    pub closed spec fn source(&self) -> Seq<char> {
        self.source@
    }
}

/// Whether `text` compiles as a query for the grammar of `lang` (what
/// `tree_sitter::Query::new` decides for that grammar and text).
pub uninterp spec fn spec_query_compiles(lang: Seq<char>, text: Seq<char>) -> bool;

/// `tree_sitter::Query::new` over the grammar: the compiled query exactly
/// when the grammar accepts the text.
#[verifier::external_body]
fn new_query(grammar: &Grammar, text: &str) -> (q: Option<CompiledQuery>)
    ensures
        q is Some <==> spec_query_compiles(grammar.name(), text@),
        q matches Some(c) ==> c.name() == grammar.name() && c.text() == text@,
{
    let query = Query::new(&grammar.language, text).ok()?;
    Some(CompiledQuery { lang: grammar.lang.clone(), text: text.to_string(), query })
}

/// A parser set to the grammar (`tree_sitter::Parser::new` and
/// `Parser::set_language`) parsing the source (`Parser::parse`, without a
/// previous tree). `set_language` refuses only a grammar whose ABI version
/// lies outside the range this tree-sitter reads (13 to 15); every grammar
/// the ingest ships has version 14 or 15. `parse` returns no tree only when
/// no language is set or a timeout or cancellation flag was set, and neither
/// is. So a tree always comes back; the tree itself is not stated.
#[verifier::external_body]
fn parse_tree(grammar: &Grammar, source: &str) -> (t: Option<SyntaxTree>)
    ensures
        t is Some,
        t.unwrap().name() == grammar.name(),
        t.unwrap().source() == source@,
{
    let mut parser = Parser::new();
    parser.set_language(&grammar.language).ok()?;
    let tree = parser.parse(source, None)?;
    Some(SyntaxTree { lang: grammar.lang.clone(), source: source.to_string(), tree })
}

/// A capture as plain values: the node's kind, its first and last row, and
/// its text.
pub open spec fn capture_view(c: Capture) -> (Seq<char>, usize, usize, Seq<char>) {
    (c.kind@, c.start_row, c.end_row, c.text@)
}

pub open spec fn capture_views(cs: Seq<Capture>) -> Seq<(Seq<char>, usize, usize, Seq<char>)> {
    cs.map_values(|c: Capture| capture_view(c))
}

/// The captures that the query `query` for the grammar of `lang` yields on
/// `source`, in the order a `tree_sitter::QueryCursor` yields them: for each
/// match, each of its captures' node kind, first and last row, and text.
pub uninterp spec fn spec_captures(lang: Seq<char>, query: Seq<char>, source: Seq<char>) -> Seq<(Seq<char>, usize, usize, Seq<char>)>;

/// Runs the query over the tree with a `tree_sitter::QueryCursor` and lists
/// every capture of every match, in the order the cursor yields them, with
/// each node's text, cut from the source the tree was parsed from by the
/// node's byte range (`slice::get`, so a range outside the source gives an
/// empty text rather than a panic; text that is not UTF-8 is empty too).
#[verifier::external_body]
fn run_query(query: &CompiledQuery, tree: &SyntaxTree) -> (caps: Vec<Capture>)
    requires
        query.name() == tree.name(),
    ensures
        capture_views(caps@) == spec_captures(tree.name(), query.text(), tree.source()),
{
    let bytes = tree.source.as_bytes();
    let mut cursor = tree_sitter::QueryCursor::new();
    let mut matches = cursor.matches(&query.query, tree.tree.root_node(), bytes);
    let mut out = Vec::new();
    while let Some(m) = matches.next() {
        for c in m.captures {
            let cut = bytes.get(c.node.start_byte()..c.node.end_byte()).unwrap_or(&[]);
            let text = std::str::from_utf8(cut).unwrap_or("").to_string();
            let (start_row, end_row) = (c.node.start_position().row, c.node.end_position().row);
            out.push(Capture { kind: c.node.kind().to_string(), start_row, end_row, text });
        }
    }
    out
}

/// A language's grammar and its compiled queries; a query that does not
/// compile is absent.
pub struct LangBundle {
    grammar: Grammar,
    chunk_query: Option<CompiledQuery>,
    import_query: Option<CompiledQuery>,
}

impl LangBundle {
    /// Both queries were compiled for the bundle's grammar.
    #[verifier::type_invariant]
    spec fn queries_match(self) -> bool {
        &&& self.chunk_query matches Some(q) ==> q.name() == self.grammar.name()
        &&& self.import_query matches Some(q) ==> q.name() == self.grammar.name()
    }

    /// The language of the bundle's grammar.
    pub closed spec fn name(&self) -> Seq<char> {
        self.grammar.name()
    }

    /// The text of the chunk query, when it compiled.
    pub closed spec fn chunk_text(&self) -> Option<Seq<char>> {
        match self.chunk_query {
            Some(q) => Some(q.text()),
            None => None,
        }
    }

    /// The text of the import query, when it compiled.
    pub closed spec fn import_text(&self) -> Option<Seq<char>> {
        match self.import_query {
            Some(q) => Some(q.text()),
            None => None,
        }
    }

    /// Whether the chunk query compiled.
    pub fn has_chunk_query(&self) -> (b: bool)
        ensures
            b == self.chunk_text() is Some,
    {
        self.chunk_query.is_some()
    }

    /// Whether the import query compiled.
    pub fn has_import_query(&self) -> (b: bool)
        ensures
            b == self.import_text() is Some,
    {
        self.import_query.is_some()
    }
}

/// The text of a query that is kept: the language's query, when it has one
/// and it compiles for the grammar.
pub open spec fn kept_query(lang: Seq<char>, text: Option<Seq<char>>) -> Option<Seq<char>> {
    match text {
        Some(t) => if spec_query_compiles(lang, t) {
            Some(t)
        } else {
            None
        },
        None => None,
    }
}

fn compile(grammar: &Grammar, text: Option<&'static str>) -> (q: Option<CompiledQuery>)
    ensures
        match q {
            Some(c) => c.name() == grammar.name() && kept_query(grammar.name(), match text {
                Some(t) => Some(t@),
                None => None,
            }) == Some(c.text()),
            None => kept_query(grammar.name(), match text {
                Some(t) => Some(t@),
                None => None,
            }) is None,
        },
{
    match text {
        Some(t) => new_query(grammar, t),
        None => None,
    }
}

/// The grammar and queries of a language the ingest knows.
pub fn lang_bundle(lang: &str) -> (b: Option<LangBundle>)
    ensures
        b is Some <==> has_grammar(lang@),
        b matches Some(x) ==> {
            &&& x.name() == lang@
            &&& x.chunk_text() == kept_query(lang@, chunk_query_of(lang@))
            &&& x.import_text() == kept_query(lang@, import_query_of(lang@))
        },
{
    let grammar = match grammar_for(lang) {
        Some(g) => g,
        None => return None,
    };
    let chunk_query = compile(&grammar, chunk_query_src(lang));
    let import_query = compile(&grammar, import_query_src(lang));
    Some(LangBundle { grammar, chunk_query, import_query })
}

/// `String::from_utf8`: the text the bytes encode, when they are valid UTF-8.
#[verifier::external_body]
fn decode_utf8(bytes: Vec<u8>) -> (r: Option<String>)
    ensures
        r is Some <==> vstd::utf8::valid_utf8(bytes@),
        r matches Some(s) ==> s@ == vstd::utf8::decode_utf8(bytes@),
{
    String::from_utf8(bytes).ok()
}

fn captures_fit_exec(caps: &Vec<Capture>, n_lines: usize) -> (b: bool)
    ensures
        b == forall|i: int|
            0 <= i < caps@.len() && crate::ingest::is_chunk_kind(#[trigger] caps@[i].kind@)
                ==> caps@[i].start_row < n_lines && caps@[i].start_row <= caps@[i].end_row,
{
    let mut i: usize = 0;
    while i < caps.len()
        invariant
            i <= caps@.len(),
            forall|j: int|
                0 <= j < i && crate::ingest::is_chunk_kind(#[trigger] caps@[j].kind@)
                    ==> caps@[j].start_row < n_lines && caps@[j].start_row <= caps@[j].end_row,
        decreases caps@.len() - i,
    {
        let c = &caps[i];
        if crate::ingest::chunk_kind_exec(chars_of(c.kind.as_str()).as_slice()) && !(c.start_row
            < n_lines && c.start_row <= c.end_row) {
            return false;
        }
        i += 1;
    }
    true
}

/// The message of a file that could not be parsed: its path, a colon, and
/// the reason.
pub open spec fn file_error(path: Seq<char>, reason: Seq<char>) -> Seq<char> {
    path + ": "@ + reason
}

fn file_error_text(path: &str, reason: &str) -> (s: String)
    ensures
        s@ == file_error(path@, reason@),
{
    let mut out: Vec<char> = chars_of(path);
    append_chars(&mut out, chars_of(": ").as_slice());
    append_chars(&mut out, chars_of(reason).as_slice());
    string_of(out.as_slice())
}

/// The captures a bundle's query yields on `source`: none when the query is
/// absent.
pub open spec fn query_views(grammar: Seq<char>, text: Option<Seq<char>>, source: Seq<char>) -> Seq<(Seq<char>, usize, usize, Seq<char>)> {
    match text {
        Some(t) => spec_captures(grammar, t, source),
        None => Seq::empty(),
    }
}

/// The file's pending chunks are the chunks cut from `source` by `caps`,
/// each under its id, path, language and file node.
pub open spec fn chunks_match(
    project_id: Seq<char>,
    rel: Seq<char>,
    file_path: Seq<char>,
    lang: Seq<char>,
    source: Seq<char>,
    caps: Seq<Capture>,
    pf: ParsedFile,
) -> bool {
    &&& file_chunks(source, caps).len() == pf.chunks@.len()
    &&& forall|i: int|
        0 <= i < pf.chunks@.len() ==> {
            let c = #[trigger] pf.chunks@[i];
            &&& c.code@ == file_chunks(source, caps)[i].0
            &&& c.start_line == file_chunks(source, caps)[i].1
            &&& c.end_line == file_chunks(source, caps)[i].2
            &&& c.uid@ == crate::ingest::chunk_uid_of(project_id, rel, c.start_line as nat)
            &&& c.file_path@ == file_path
            &&& c.language@ == lang
            &&& c.file_uid@ == crate::ingest::file_uid_of(project_id, rel)
        }
}

/// What the parse step made of one file's bytes, as the ingest plans with
/// it. `bundle` is the grammar's language and the texts of the chunk and
/// import queries that compiled. A file whose hash is the recorded one keeps
/// its recorded imports and is not parsed; otherwise it must be UTF-8 and
/// have a grammar; then its chunks are those cut by the chunk query's
/// captures (no chunk query or no captures gives the head of the file as one
/// chunk) and its imports those of the import query's captures, unless a
/// definition's capture lies outside the source.
pub open spec fn parse_outcome(
    project_id: Seq<char>,
    rel: Seq<char>,
    file_path: Seq<char>,
    lang: Seq<char>,
    bundle: Option<(Seq<char>, Option<Seq<char>>, Option<Seq<char>>)>,
    bytes: Seq<u8>,
    existing: Option<ExistingFile>,
    pf: ParsedFile,
) -> bool {
    let hash = crate::hashing::spec_sha256_hex(bytes);
    &&& pf.rel@ == rel
    &&& pf.file_uid@ == crate::ingest::file_uid_of(project_id, rel)
    &&& pf.lang@ == lang
    &&& pf.bytes == bytes.len()
    &&& pf.file_hash@ == hash
    &&& if existing is Some && existing.unwrap().file_hash@ == hash {
        &&& pf.error is None
        &&& pf.chunks@.len() == 0
        &&& crate::ingest::views_of(pf.imports@) == crate::ingest::views_of(existing.unwrap().imports@)
    } else if !vstd::utf8::valid_utf8(bytes) {
        pf.error matches Some(m) && m@ == file_error(file_path, "not utf-8"@)
    } else if bundle is None {
        pf.error matches Some(m) && m@ == file_error(file_path, "no grammar for "@ + lang)
    } else {
        let source = vstd::utf8::decode_utf8(bytes);
        let g = bundle.unwrap().0;
        exists|caps: Seq<Capture>|
            #[trigger] capture_views(caps) == query_views(g, bundle.unwrap().1, source) && if captures_fit(source, caps) {
                &&& pf.error is None
                &&& chunks_match(project_id, rel, file_path, lang, source, caps, pf)
                &&& exists|icaps: Seq<Capture>|
                    #[trigger] capture_views(icaps) == query_views(g, bundle.unwrap().2, source)
                        && crate::ingest::views_of(pf.imports@) == imports_of(icaps)
            } else {
                pf.error matches Some(m) && m@ == file_error(file_path, "capture outside the source"@)
            }
    }
}

fn hashes_equal(a: &String, b: &String) -> (r: bool)
    ensures
        r == (a@ == b@),
{
    crate::text::chars_eq(chars_of(a.as_str()).as_slice(), chars_of(b.as_str()).as_slice())
}

fn strings_copy(v: &Vec<String>) -> (r: Vec<String>)
    ensures
        crate::ingest::views_of(r@) == crate::ingest::views_of(v@),
{
    let mut r: Vec<String> = Vec::new();
    let mut i: usize = 0;
    while i < v.len()
        invariant
            i <= v@.len(),
            crate::ingest::views_of(r@) == crate::ingest::views_of(v@).take(i as int),
        decreases v@.len() - i,
    {
        let ghost before = r@;
        r.push(string_of(chars_of(v[i].as_str()).as_slice()));
        assert(crate::ingest::views_of(r@) =~= crate::ingest::views_of(before).push(v@[i as int]@));
        assert(crate::ingest::views_of(v@).take(i + 1) =~= crate::ingest::views_of(v@).take(i as int).push(v@[i as int]@));
        i += 1;
    }
    assert(crate::ingest::views_of(v@).take(v@.len() as int) == crate::ingest::views_of(v@));
    r
}

/// Hashes, parses and chunks one source file read from disk (see
/// `parse_outcome`). `rel` is its path below the project root, `file_path`
/// the path it was read from, `lang` its language and `bundle` that
/// language's grammar and queries, when the ingest has them.
pub fn parse_file(
    project_id: &str,
    rel: &str,
    file_path: &str,
    lang: &str,
    bundle: Option<&LangBundle>,
    bytes: Vec<u8>,
    existing: Option<&ExistingFile>,
) -> (pf: ParsedFile)
    ensures
        parse_outcome(project_id@, rel@, file_path@, lang@, match bundle {
            Some(b) => Some((b.name(), b.chunk_text(), b.import_text())),
            None => None,
        }, bytes@, match existing {
            Some(e) => Some(*e),
            None => None,
        }, pf),
{
    let ghost bv = bytes@;
    let file_hash = crate::hashing::sha256_hex(bytes.as_slice());
    let mut pf = ParsedFile {
        rel: rel.to_owned(),
        file_uid: file_uid(project_id, rel),
        lang: lang.to_owned(),
        bytes: bytes.len() as u64,
        file_hash,
        chunks: Vec::new(),
        imports: Vec::new(),
        error: None,
    };
    if let Some(e) = existing {
        if hashes_equal(&e.file_hash, &pf.file_hash) {
            pf.imports = strings_copy(&e.imports);
            return pf;
        }
    }
    let source = match decode_utf8(bytes) {
        Some(s) => s,
        None => {
            pf.error = Some(file_error_text(file_path, "not utf-8"));
            return pf;
        },
    };
    let bundle = match bundle {
        Some(b) => b,
        None => {
            let mut reason: Vec<char> = chars_of("no grammar for ");
            append_chars(&mut reason, chars_of(lang).as_slice());
            pf.error = Some(file_error_text(file_path, string_of(reason.as_slice()).as_str()));
            return pf;
        },
    };
    proof {
        use_type_invariant(bundle);
    }
    let tree = match parse_tree(&bundle.grammar, source.as_str()) {
        Some(t) => t,
        None => {
            pf.error = Some(file_error_text(file_path, "parse failed"));
            return pf;
        },
    };
    let caps: Vec<Capture> = match &bundle.chunk_query {
        Some(q) => run_query(q, &tree),
        None => Vec::new(),
    };
    assert(capture_views(caps@) == query_views(bundle.name(), bundle.chunk_text(), source@));
    let n_lines = crate::text::split_lines(chars_of(source.as_str()).as_slice()).len();
    if !captures_fit_exec(&caps, n_lines) {
        pf.error = Some(file_error_text(file_path, "capture outside the source"));
        return pf;
    }
    let icaps: Vec<Capture> = match &bundle.import_query {
        Some(q) => run_query(q, &tree),
        None => Vec::new(),
    };
    assert(capture_views(icaps@) == query_views(bundle.name(), bundle.import_text(), source@));
    let chunks = collect_chunks(&caps, source.as_str());
    pf.chunks = pending_chunks(project_id, rel, file_path, lang, chunks);
    pf.imports = collect_imports(&icaps);
    assert(crate::ingest::views_of(pf.imports@) =~= imports_of(icaps@));
    assert(chunks_match(project_id@, rel@, file_path@, lang@, source@, caps@, pf));
    pf
}

} // verus!
