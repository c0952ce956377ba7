//! What is kept of documents and of headers, and which positions they have.
use vstd::prelude::*;

use crate::answers;
use crate::bindings;
use crate::bindings::{CppBindingHeader, OpenBindings};
use crate::diagnostic::Diagnostic;
use crate::joined;
use crate::lexical;
use crate::lsp;
use crate::mojomast;
use crate::mojomast::{ImportResolution, MojomAst};
use crate::places;
use crate::syntax::{Import, LineCol, Range};
use crate::text;
use crate::workspace::{ParsedMojom, ParsedSymbols, Workspace};

verus! {

/// The line and the column of a place are the number of line feeds in front of it and the number
/// of characters behind the last of those.
pub proof fn line_and_column_count_what_is_before(p: LineCol, a: Seq<char>, b: Seq<char>)
    requires
        p.is_at(a + b, text::utf8(a).len() as int),
    ensures
        p.line == text::line_feeds(a),
        p.col == text::last_line_len(a),
{
    let none = Seq::<char>::empty();
    assert(none + a + b =~= a + b);
    places::part_is_what_stands_there(none, a, b);
    vstd::utf8::encode_utf8_decode_utf8(none);
    assert(text::utf8(none) =~= Seq::<u8>::empty());
}

/// A field is the text that it stands around, and is shown by the places where that text starts
/// and ends.
pub proof fn field_is_what_stands_there(
    ast: MojomAst,
    a: Seq<char>,
    b: Seq<char>,
    c: Seq<char>,
    field: Range,
)
    requires
        ast.text@ == a + b + c,
        field.start == text::utf8(a).len(),
        field.end == text::utf8(a + b).len(),
    ensures
        ast.text_at(field) == b,
        ast.lsp_range_at(field).start.line == text::line_feeds(a) as u32,
        ast.lsp_range_at(field).start.character == text::last_line_len(a) as u32,
        ast.lsp_range_at(field).end.line == text::line_feeds(a + b) as u32,
        ast.lsp_range_at(field).end.character == text::last_line_len(a + b) as u32,
{
    joined::lemma_utf8_append(a, b);
    places::part_is_what_stands_there(a, b, c);
    places::range_is_shown_by_its_ends(a, b, c);
}

/// Whether `b` is a letter, a digit, `_` or a dot.
pub open spec fn is_word_byte(b: u8) -> bool {
    lexical::among(b, lexical::letters()) || lexical::among(b, lexical::digits()) || b == '_' as u32
        || b == '.' as u32
}

/// Whether the letters, digits, `_` and dots around the place `at` are those from `start` up to
/// `end`.
pub open spec fn is_word_around(s: Seq<u8>, at: int, start: int, end: int) -> bool {
    &&& 0 <= start <= at <= end <= s.len()
    &&& forall|i: int| start <= i < end ==> is_word_byte(#[trigger] s[i])
    &&& start > 0 ==> !is_word_byte(s[start - 1])
    &&& end < s.len() ==> !is_word_byte(s[end])
}

/// The identifier at a position is all letters, digits, `_` and dots around it.
pub proof fn identifier_is_all_around(ast: MojomAst, pos: lsp::Position, start: int, end: int)
    requires
        is_word_around(
            text::utf8(ast.text@),
            mojomast::offset_of(ast.text@, pos) as int,
            start,
            end,
        ),
    ensures
        ast.identifier(pos) == text::part(ast.text@, start, end),
{
    let s = text::utf8(ast.text@);
    let at = mojomast::offset_of(ast.text@, pos) as int;
    let x = mojomast::identifier_start(s, at);
    let y = mojomast::identifier_end(s, at);
    mojomast::identifier_is_longest(s, at);
    assert forall|b: u8| #[trigger] is_word_byte(b) == mojomast::is_identifier_byte(b) by {
        places::bytes_of_identifiers(b);
    }
    if x < start {
        assert(mojomast::is_identifier_byte(s[start - 1]));
        assert(is_word_byte(s[start - 1]));
    }
    if start < x {
        assert(is_word_byte(s[x - 1]));
    }
    if end < y {
        assert(mojomast::is_identifier_byte(s[end]));
        assert(is_word_byte(s[end]));
    }
    if y < end {
        assert(is_word_byte(s[y]));
    }
}

/// A position is on a text exactly if it stands between a first and a second part of the text.
pub proof fn position_is_between_two_parts(ast: MojomAst, pos: lsp::Position)
    ensures
        ast.on_text(pos) <==> exists|a: Seq<char>, b: Seq<char>|
            #![trigger a + b]
            a + b == ast.text@ && text::utf8(a).len() == mojomast::offset_of(ast.text@, pos),
{
    let chars = ast.text@;
    let s = text::utf8(chars);
    let n = mojomast::offset_of(chars, pos) as int;
    vstd::utf8::encode_utf8_valid_utf8(chars);
    vstd::utf8::is_char_boundary_start_end_of_seq(s);
    text::lemma_boundary(s, 0);
    if ast.on_text(pos) {
        let a = text::part(chars, 0, n);
        let b = text::part(chars, n, s.len() as int);
        text::lemma_part(chars, 0, n);
        text::lemma_part(chars, n, s.len() as int);
        joined::lemma_utf8_append(a, b);
        assert(text::utf8(a + b) =~= s);
        text::lemma_utf8_injective(a + b, chars);
        assert(a + b == chars && text::utf8(a).len() == n);
    }
    if exists|a: Seq<char>, b: Seq<char>|
        #![trigger a + b]
        a + b == chars && text::utf8(a).len() == n {
        let (a, b) = choose|a: Seq<char>, b: Seq<char>|
            #![trigger a + b]
            a + b == chars && text::utf8(a).len() == n;
        joined::lemma_utf8_append(a, b);
        let w = text::utf8(a);
        vstd::utf8::encode_utf8_valid_utf8(a);
        assert(s.subrange(0, n) =~= w);
        text::lemma_prefix_boundary(w, s);
        text::lemma_boundary(s, n);
    }
}

/// A position is refused only in a document that is open, and there only if it is not on the
/// text or too far for the machine to count.
pub proof fn positions_of_open_documents(ws: Workspace, uri: Seq<char>, pos: lsp::Position)
    ensures
        ws.parsed_files.at(uri) is None ==> ws.on_text(uri, pos) && ws.countable(uri, pos),
        ws.parsed_files.at(uri) matches Some(parsed) ==> {
            &&& ws.on_text(uri, pos) <==> parsed.ast.on_text(pos)
            &&& ws.countable(uri, pos) <==> mojomast::offset_of(parsed.ast.text@, pos)
                <= usize::MAX
        },
{
}

/// The same holds of the current document, which is the only one at its URI.
pub proof fn positions_of_the_current_document(d: Diagnostic, pos: lsp::Position)
    ensures
        d.ast is None ==> d.on_text(pos) && d.countable(pos) && forall|uri: Seq<char>|
            !#[trigger] d.is_at(uri),
        d.ast matches Some(current) ==> {
            &&& d.on_text(pos) <==> current.ast.on_text(pos)
            &&& d.countable(pos) <==> mojomast::offset_of(current.ast.text@, pos) <= usize::MAX
            &&& forall|uri: Seq<char>| #[trigger] d.is_at(uri) <==> uri == current.uri@
        },
{
}

/// The symbols that are kept of a document are those that it shows, in their order, and each of
/// them is found by its name.
pub proof fn shown_symbols_are_found(parsed: ParsedSymbols, ast: MojomAst)
    requires
        parsed.are_of(ast),
    ensures
        parsed.symbols@.len() == ast.document_symbols().len(),
        ast.is_module_name(parsed.module_name),
        forall|i: int|
            0 <= i < parsed.symbols@.len() ==> {
                &&& (#[trigger] parsed.symbols@[i])@ == ast.document_symbols()[i]
                &&& parsed.definition(ast.document_symbols()[i].name) is Some
            },
{
    let ss = parsed.symbols@;
    assert forall|i: int| 0 <= i < ss.len() implies {
        &&& (#[trigger] ss[i])@ == ast.document_symbols()[i]
        &&& parsed.definition(ast.document_symbols()[i].name) is Some
    } by {
        assert(parsed.symbol_views()[i] == ss[i]@);
        let name = ss[i]@.name;
        answers::every_symbol_is_found_by_its_name(parsed, name);
        assert(answers::is_called(lsp::option_view(parsed.module_name), ss[i]@, name));
    }
}

/// What is kept of an open document is its syntax tree, its version, the name of its module and
/// the URI of every import that was found.
pub proof fn open_document_is_kept(
    parsed: ParsedMojom,
    ast: MojomAst,
    rs: Seq<ImportResolution>,
    version: Option<i32>,
)
    requires
        parsed.is_of(ast, rs, version),
    ensures
        parsed.ast.text@ == ast.text@,
        parsed.ast.mojom == ast.mojom,
        parsed.version == version,
        ast.is_module_name(parsed.module_name),
        forall|i: int|
            0 <= i < rs.len() ==> ((#[trigger] rs[i]) matches ImportResolution::Found(uri)
                ==> exists|j: int|
                0 <= j < parsed.import_uris@.len() && (#[trigger] parsed.import_uris@[j])@ == uri@),
{
    let kept = parsed.import_uris@;
    answers::found_imports_stay_in_their_order(rs);
    assert forall|i: int| 0 <= i < rs.len() implies ((#[trigger] rs[i]) matches
        ImportResolution::Found(uri) ==> exists|j: int|
        0 <= j < kept.len() && (#[trigger] kept[j])@ == uri@) by {
        if rs[i] is Found {
            let j = answers::found_before(rs, i) as int;
            assert(text::strings(kept).len() == kept.len());
            assert(text::strings(kept)[j] == kept[j]@);
        }
    }
}

/// The imports are asked for one by one, each by its path.
pub proof fn imports_are_asked_for_by_their_paths(ast: MojomAst, a: Seq<Import>, b: Seq<Import>)
    ensures
        ast.paths_at(a + b) == ast.paths_at(a) + ast.paths_at(b),
        a.len() == 1 ==> ast.paths_at(a) == seq![ast.path_at(a[0])],
        a.len() == 0 ==> ast.paths_at(a).len() == 0,
{
    assert(ast.paths_at(a + b) =~= ast.paths_at(a) + ast.paths_at(b));
    if a.len() == 1 {
        assert(ast.paths_at(a) =~= seq![ast.path_at(a[0])]);
    }
}

/// The headers of one Mojom file at most are open.
pub proof fn headers_of_one_file_are_open(o: OpenBindings, a: Seq<char>, b: Seq<char>)
    ensures
        o.bindings is None ==> !o.is_open(a),
        o.bindings is Some ==> o.is_open(o.bindings->0.mojom_uri@),
        o.is_open(a) && o.is_open(b) ==> a == b,
{
}

/// All headers are closed, each by its URI, in their order.
pub proof fn headers_are_closed_one_by_one(a: Seq<CppBindingHeader>, b: Seq<CppBindingHeader>)
    ensures
        bindings::header_uris(a + b) == bindings::header_uris(a) + bindings::header_uris(b),
        a.len() == 1 ==> bindings::header_uris(a) == seq![a[0].uri@],
        a.len() == 0 ==> bindings::header_uris(a).len() == 0,
{
    assert(bindings::header_uris(a + b) =~= bindings::header_uris(a) + bindings::header_uris(b));
    if a.len() == 1 {
        assert(bindings::header_uris(a) =~= seq![a[0].uri@]);
    }
}

/// A header that could be opened is kept, and nothing stands for one that could not.
pub proof fn opened_headers_are_kept(h: Option<CppBindingHeader>)
    ensures
        match h {
            Some(header) => {
                &&& bindings::optional_header(h).len() == 1
                &&& bindings::optional_header(h)[0] == header
            },
            None => bindings::optional_header(h).len() == 0,
        },
{
}

} // verus!
