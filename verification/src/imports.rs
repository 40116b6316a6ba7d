//! Import extraction: from the text of one file to the dotted module names
//! its import statements refer to.

use crate::text::{append_chars, from_chars, starts_with, to_chars, views};
use ruff_python_ast::visitor::Visitor;
use vstd::prelude::*;
use vstd::utf8::{decode_utf8, encode_utf8, encode_utf8_decode_utf8, valid_utf8};

verus! {

/// One import statement of a source file, reduced to what extraction reads.
#[derive(Debug)]
pub enum ImportStatement {
    /// `import a.b, c`: the dotted names as written, aliases ignored.
    Import { names: Vec<String> },
    /// `from <dots><module> import x, y`: the number of leading dots, the
    /// module if one is written, and the imported symbols (`*` for a wildcard).
    ImportFrom { module: Option<String>, names: Vec<String>, level: u32 },
}

/// Mathematical form of an [`ImportStatement`].
pub enum ImportStatementView {
    Import { names: Seq<Seq<char>> },
    ImportFrom { module: Option<Seq<char>>, names: Seq<Seq<char>>, level: u32 },
}

impl View for ImportStatement {
    type V = ImportStatementView;

    open spec fn view(&self) -> ImportStatementView {
        match self {
            ImportStatement::Import { names } => ImportStatementView::Import {
                names: views(names@),
            },
            ImportStatement::ImportFrom { module, names, level } => ImportStatementView::ImportFrom {
                module: match module {
                    Some(m) => Some(m@),
                    None => None,
                },
                names: views(names@),
                level: *level,
            },
        }
    }
}

/// The views of a sequence of statements, in order.
pub open spec fn statement_views(statements: Seq<ImportStatement>) -> Seq<ImportStatementView> {
    statements.map_values(|s: ImportStatement| s@)
}

/// The symbol that stands for a wildcard import.
pub open spec fn wildcard() -> Seq<char> {
    seq!['*']
}

/// `base.symbol`: the name a symbol would have if it were a submodule of `base`.
pub open spec fn member_name(base: Seq<char>, symbol: Seq<char>) -> Seq<char> {
    base + seq!['.'] + symbol
}

/// `base.symbol` for every symbol but the wildcard, in order.
pub open spec fn member_names(base: Seq<char>, symbols: Seq<Seq<char>>) -> Seq<Seq<char>>
    decreases symbols.len(),
{
    if symbols.len() == 0 {
        Seq::empty()
    } else {
        let earlier = member_names(base, symbols.drop_last());
        if symbols.last() == wildcard() {
            earlier
        } else {
            earlier.push(member_name(base, symbols.last()))
        }
    }
}

/// The module names one statement refers to. A plain import gives its names
/// verbatim. An absolute from-import gives its module, then `module.symbol`
/// for each symbol that is not a wildcard. A relative one gives nothing.
pub open spec fn statement_names(statement: ImportStatementView) -> Seq<Seq<char>> {
    match statement {
        ImportStatementView::Import { names } => names,
        ImportStatementView::ImportFrom { module, names, level } => match module {
            Some(base) if level == 0 => seq![base] + member_names(base, names),
            _ => Seq::empty(),
        },
    }
}

/// The module names a sequence of statements refers to, statement by statement.
pub open spec fn import_names(statements: Seq<ImportStatementView>) -> Seq<Seq<char>>
    decreases statements.len(),
{
    if statements.len() == 0 {
        Seq::empty()
    } else {
        import_names(statements.drop_last()) + statement_names(statements.last())
    }
}

/// The import statements of a Python source text in the order a walk of its
/// syntax tree meets them, or `None` when the text does not parse.
pub uninterp spec fn parsed_import_statements(source: Seq<char>) -> Option<Seq<ImportStatementView>>;

/// The longest text the parser takes, in bytes of its UTF-8 encoding.
pub const MAX_SOURCE_BYTES: usize = 0xffff_ffff;

/// Whether `source` is short enough to be handed to the parser.
pub open spec fn fits_the_parser(source: Seq<char>) -> bool {
    encode_utf8(source).len() <= MAX_SOURCE_BYTES
}

/// The module names the import statements of `source` refer to; none when
/// the text is too long for the parser or does not parse.
pub open spec fn source_import_names(source: Seq<char>) -> Seq<Seq<char>> {
    if !fits_the_parser(source) {
        Seq::empty()
    } else {
        match parsed_import_statements(source) {
            Some(statements) => import_names(statements),
            None => Seq::empty(),
        }
    }
}

/// The text of a file, if its bytes are valid UTF-8.
pub open spec fn file_text(bytes: Seq<u8>) -> Option<Seq<char>> {
    if valid_utf8(bytes) {
        Some(decode_utf8(bytes))
    } else {
        None
    }
}

/// Whether `name` starts with at least one of `prefixes`. The test is on
/// characters only: a prefix need not end where a dotted segment ends.
pub open spec fn matches_filter(name: Seq<char>, prefixes: Seq<Seq<char>>) -> bool {
    exists|i: int| 0 <= i < prefixes.len() && (#[trigger] prefixes[i]).is_prefix_of(name)
}

/// The names that pass the filter, in the order they came in.
pub open spec fn selected_names(names: Seq<Seq<char>>, prefixes: Seq<Seq<char>>) -> Seq<Seq<char>>
    decreases names.len(),
{
    if names.len() == 0 {
        Seq::empty()
    } else {
        let earlier = selected_names(names.drop_last(), prefixes);
        if matches_filter(names.last(), prefixes) {
            earlier.push(names.last())
        } else {
            earlier
        }
    }
}

/// The module names a file with these bytes contributes under a filter:
/// those its text imports that pass the filter, or none when the bytes are
/// not text.
pub open spec fn file_modules(bytes: Seq<u8>, prefixes: Seq<Seq<char>>) -> Seq<Seq<char>> {
    match file_text(bytes) {
        Some(text) => selected_names(source_import_names(text), prefixes),
        None => Seq::empty(),
    }
}

/// The names of two runs of statements, one after the other, are the names
/// of the first run followed by those of the second.
pub proof fn lemma_import_names_concat(
    first: Seq<ImportStatementView>,
    second: Seq<ImportStatementView>,
)
    ensures
        import_names(first + second) == import_names(first) + import_names(second),
    decreases second.len(),
{
    if second.len() == 0 {
        assert(first + second =~= first);
        assert(import_names(first) + import_names(second) =~= import_names(first));
    } else {
        lemma_import_names_concat(first, second.drop_last());
        assert((first + second).drop_last() =~= first + second.drop_last());
        assert((first + second).last() == second.last());
        assert(import_names(first + second) =~= import_names(first) + import_names(second));
    }
}

/// A relative from-import contributes no name, whatever it names and
/// wherever it stands among the other statements.
pub proof fn lemma_relative_import_contributes_nothing(
    before: Seq<ImportStatementView>,
    module: Option<Seq<char>>,
    names: Seq<Seq<char>>,
    level: u32,
    after: Seq<ImportStatementView>,
)
    requires
        level != 0,
    ensures
        statement_names(ImportStatementView::ImportFrom { module, names, level }) == Seq::<
            Seq<char>,
        >::empty(),
        import_names(before + seq![ImportStatementView::ImportFrom { module, names, level }] + after)
            == import_names(before + after),
{
    let relative = seq![ImportStatementView::ImportFrom { module, names, level }];
    lemma_import_names_concat(before + relative, after);
    lemma_import_names_concat(before, relative);
    lemma_import_names_concat(before, after);
    assert(relative.drop_last() =~= Seq::<ImportStatementView>::empty());
    assert(import_names(relative.drop_last()) =~= Seq::<Seq<char>>::empty());
    assert(statement_names(relative.last()) =~= Seq::<Seq<char>>::empty());
    assert(import_names(relative) =~= Seq::<Seq<char>>::empty());
    assert(import_names(before) + import_names(relative) =~= import_names(before));
}

/// The filter lets through exactly the names that start with one of the
/// prefixes: a name that starts with none of them is never selected.
pub proof fn lemma_selected_names(
    names: Seq<Seq<char>>,
    prefixes: Seq<Seq<char>>,
    name: Seq<char>,
)
    ensures
        selected_names(names, prefixes).contains(name) <==> names.contains(name) && matches_filter(
            name,
            prefixes,
        ),
    decreases names.len(),
{
    if names.len() > 0 {
        let earlier = names.drop_last();
        lemma_selected_names(earlier, prefixes, name);
        let kept = selected_names(earlier, prefixes);
        if names.contains(name) {
            let i = choose|i: int| 0 <= i < names.len() && names[i] == name;
            if i < earlier.len() {
                assert(earlier[i] == name);
            }
        }
        if earlier.contains(name) {
            let i = choose|i: int| 0 <= i < earlier.len() && earlier[i] == name;
            assert(names[i] == name);
        }
        assert(names[names.len() - 1] == names.last());
        if matches_filter(names.last(), prefixes) {
            let all = kept.push(names.last());
            assert(all[kept.len() as int] == names.last());
            if kept.contains(name) {
                let i = choose|i: int| 0 <= i < kept.len() && kept[i] == name;
                assert(all[i] == name);
            }
            if all.contains(name) {
                let i = choose|i: int| 0 <= i < all.len() && all[i] == name;
                if i < kept.len() {
                    assert(kept[i] == name);
                }
            }
        }
    }
}

/// Makes `ruff_python_ast::Stmt`, a statement of a parsed syntax tree,
/// known as a type. Nothing is said of what a statement holds.
#[verifier::external_type_specification]
#[verifier::external_body]
pub struct ExStmt(ruff_python_ast::Stmt);

/// Gathers the import statements met while a syntax tree is walked.
struct StatementCollector {
    statements: Vec<ImportStatement>,
}

impl<'a> Visitor<'a> for StatementCollector {
    /// Called by `ruff_python_ast::visitor::walk_body` and `walk_stmt` for
    /// each statement of the tree. Copies the fields of an import statement
    /// into an [`ImportStatement`], then lets `walk_stmt` descend into the
    /// statement. Trusted; nothing is claimed of it on its own.
    #[verifier::external_body]
    fn visit_stmt(&mut self, stmt: &'a ruff_python_ast::Stmt) {
        match stmt {
            ruff_python_ast::Stmt::Import(i) => self.statements.push(
                ImportStatement::Import { names: i.names.iter().map(|a| a.name.to_string()).collect() },
            ),
            ruff_python_ast::Stmt::ImportFrom(i) => self.statements.push(
                ImportStatement::ImportFrom {
                    module: i.module.as_ref().map(|m| m.to_string()),
                    names: i.names.iter().map(|a| a.name.to_string()).collect(),
                    level: i.level,
                },
            ),
            _ => {},
        }
        ruff_python_ast::visitor::walk_stmt(self, stmt);
    }
}

/// Parses `source` with `ruff_python_parser::parse_module` and walks the
/// module body with `ruff_python_ast::visitor::Visitor::visit_body`.
///
/// Trusted: the result is the parser's reading of the text, which depends on
/// the text alone: the import statements in walking order, or `None` when
/// the parser reports an error. The parser's lexer refuses, by panicking, a
/// text whose encoding is longer than `u32::MAX` bytes; such a text is ruled
/// out here.
#[verifier::external_body]
fn parse_import_statements(source: &str) -> (parsed: Option<Vec<ImportStatement>>)
    requires
        fits_the_parser(source@),
    ensures
        match parsed {
            Some(statements) => parsed_import_statements(source@) == Some(
                statement_views(statements@),
            ),
            None => parsed_import_statements(source@) is None,
        },
{
    match ruff_python_parser::parse_module(source) {
        Ok(module) => {
            let mut collector = StatementCollector { statements: Vec::new() };
            collector.visit_body(&module.into_syntax().body);
            Some(collector.statements)
        },
        Err(_) => None,
    }
}

fn is_wildcard(symbol: &str) -> (yes: bool)
    ensures
        yes == (symbol@ == wildcard()),
{
    let chars = to_chars(symbol);
    let yes = chars.len() == 1 && chars[0] == '*';
    if yes {
        assert(symbol@ =~= wildcard());
    }
    yes
}

fn member(base: &str, symbol: &str) -> (name: String)
    ensures
        name@ == member_name(base@, symbol@),
{
    let mut chars = to_chars(base);
    chars.push('.');
    append_chars(&mut chars, &to_chars(symbol));
    assert(chars@ =~= member_name(base@, symbol@));
    from_chars(&chars)
}

fn push_statement_names(statement: &ImportStatement, out: &mut Vec<String>)
    ensures
        views(final(out)@) == views(old(out)@) + statement_names(statement@),
{
    match statement {
        ImportStatement::Import { names } => {
            let mut i: usize = 0;
            while i < names.len()
                invariant
                    i <= names.len(),
                    views(out@) == views(old(out)@) + views(names@).take(i as int),
                decreases names.len() - i,
            {
                let ghost before = views(out@);
                out.push(names[i].clone());
                assert(views(out@) =~= before.push(names@[i as int]@));
                i += 1;
                assert(views(names@).take(i as int) =~= views(names@).take(i - 1).push(
                    names@[i - 1]@,
                ));
            }
            assert(views(names@).take(names.len() as int) =~= views(names@));
        },
        ImportStatement::ImportFrom { module, names, level } => {
            if *level == 0 {
                if let Some(base) = module {
                    out.push(base.clone());
                    let mut i: usize = 0;
                    assert(views(names@).take(0) =~= Seq::<Seq<char>>::empty());
                    assert(views(out@) =~= views(old(out)@) + seq![base@]);
                    while i < names.len()
                        invariant
                            i <= names.len(),
                            views(out@) == views(old(out)@) + seq![base@] + member_names(
                                base@,
                                views(names@).take(i as int),
                            ),
                        decreases names.len() - i,
                    {
                        let ghost before = views(out@);
                        assert(views(names@).take(i + 1).drop_last() =~= views(names@).take(
                            i as int,
                        ));
                        if !is_wildcard(names[i].as_str()) {
                            let name = member(base.as_str(), names[i].as_str());
                            out.push(name);
                            assert(views(out@) =~= before.push(name@));
                        }
                        i += 1;
                        assert(views(out@) =~= views(old(out)@) + seq![base@] + member_names(
                            base@,
                            views(names@).take(i as int),
                        ));
                    }
                    assert(views(names@).take(names.len() as int) =~= views(names@));
                    assert(views(out@) =~= views(old(out)@) + (seq![base@] + member_names(
                        base@,
                        views(names@),
                    )));
                } else {
                    assert(views(out@) =~= views(old(out)@) + Seq::<Seq<char>>::empty());
                }
            } else {
                assert(views(out@) =~= views(old(out)@) + Seq::<Seq<char>>::empty());
            }
        },
    }
}

/// The module names that `statements` refer to, statement by statement.
pub fn names_of_statements(statements: &Vec<ImportStatement>) -> (names: Vec<String>)
    ensures
        views(names@) == import_names(statement_views(statements@)),
{
    let mut names: Vec<String> = Vec::new();
    let mut i: usize = 0;
    assert(views(names@) =~= Seq::<Seq<char>>::empty());
    assert(statement_views(statements@).take(0) =~= Seq::<ImportStatementView>::empty());
    while i < statements.len()
        invariant
            i <= statements.len(),
            views(names@) == import_names(statement_views(statements@).take(i as int)),
        decreases statements.len() - i,
    {
        assert(statement_views(statements@).take(i + 1).drop_last() =~= statement_views(
            statements@,
        ).take(i as int));
        push_statement_names(&statements[i], &mut names);
        i += 1;
    }
    assert(statement_views(statements@).take(statements.len() as int) =~= statement_views(
        statements@,
    ));
    names
}

/// Extracts the dotted module names that the import statements of `source`
/// refer to. A text that does not parse has none, and neither has one that
/// is too long to be parsed.
pub fn imports_from_source(source: &str) -> (names: Vec<String>)
    ensures
        views(names@) == source_import_names(source@),
{
    if source.as_bytes().len() > MAX_SOURCE_BYTES {
        let names: Vec<String> = Vec::new();
        assert(views(names@) =~= Seq::<Seq<char>>::empty());
        return names;
    }
    match parse_import_statements(source) {
        Some(statements) => names_of_statements(&statements),
        None => {
            let names: Vec<String> = Vec::new();
            assert(views(names@) =~= Seq::<Seq<char>>::empty());
            names
        },
    }
}

/// Whether `name` starts with at least one of `prefixes`.
pub fn matches_any_prefix(name: &str, prefixes: &Vec<String>) -> (yes: bool)
    ensures
        yes == matches_filter(name@, views(prefixes@)),
{
    let mut i: usize = 0;
    while i < prefixes.len()
        invariant
            i <= prefixes.len(),
            forall|j: int| 0 <= j < i ==> !(#[trigger] views(prefixes@)[j]).is_prefix_of(name@),
        decreases prefixes.len() - i,
    {
        if starts_with(name, prefixes[i].as_str()) {
            assert(views(prefixes@)[i as int].is_prefix_of(name@));
            return true;
        }
        i += 1;
    }
    false
}

/// Keeps the names that start with at least one of `prefixes`, in order.
pub fn select_names(names: &Vec<String>, prefixes: &Vec<String>) -> (selected: Vec<String>)
    ensures
        views(selected@) == selected_names(views(names@), views(prefixes@)),
{
    let mut selected: Vec<String> = Vec::new();
    let mut i: usize = 0;
    assert(views(selected@) =~= Seq::<Seq<char>>::empty());
    assert(views(names@).take(0) =~= Seq::<Seq<char>>::empty());
    while i < names.len()
        invariant
            i <= names.len(),
            views(selected@) == selected_names(views(names@).take(i as int), views(prefixes@)),
        decreases names.len() - i,
    {
        assert(views(names@).take(i + 1).drop_last() =~= views(names@).take(i as int));
        if matches_any_prefix(names[i].as_str(), prefixes) {
            let ghost before = views(selected@);
            selected.push(names[i].clone());
            assert(views(selected@) =~= before.push(names@[i as int]@));
        }
        i += 1;
    }
    assert(views(names@).take(names.len() as int) =~= views(names@));
    selected
}

/// Decodes with `std::str::from_utf8`.
///
/// Trusted: decoding succeeds exactly on valid UTF-8, and the text it gives
/// encodes back to the same bytes.
#[verifier::external_body]
fn decode_text(bytes: &[u8]) -> (text: Option<&str>)
    ensures
        text is Some <==> valid_utf8(bytes@),
        text matches Some(t) ==> encode_utf8(t@) == bytes@,
{
    std::str::from_utf8(bytes).ok()
}

/// The module names that a file with these bytes imports and that pass the
/// filter. Bytes that are not valid UTF-8 give none.
pub fn modules_of_file(bytes: &[u8], prefixes: &Vec<String>) -> (modules: Vec<String>)
    ensures
        views(modules@) == file_modules(bytes@, views(prefixes@)),
{
    match decode_text(bytes) {
        Some(text) => {
            proof {
                encode_utf8_decode_utf8(text@);
            }
            let names = imports_from_source(text);
            select_names(&names, prefixes)
        },
        None => {
            let modules: Vec<String> = Vec::new();
            assert(views(modules@) =~= Seq::<Seq<char>>::empty());
            modules
        },
    }
}

} // verus!
