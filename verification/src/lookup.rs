//! What is found in the headers of the C++ bindings, and where they are.
use vstd::prelude::*;

use crate::bindings;
use crate::bindings::CppBindingHeader;
use crate::document_symbol;
use crate::document_symbol::{Class, SymbolView};
use crate::lsp;
use crate::lsp::{SymbolInformationView, SymbolKind};
use crate::text;

verus! {

proof fn lemma_first_class(ss: Seq<SymbolInformationView>, name: Seq<char>, from: int)
    requires
        0 <= from,
    ensures
        match bindings::first_class(ss, name, from) {
            Some(i) => {
                &&& from <= i < ss.len()
                &&& ss[i].kind == SymbolKind::Class
                &&& ss[i].name == name
                &&& forall|k: int|
                    from <= k < i ==> (#[trigger] ss[k]).kind != SymbolKind::Class || ss[k].name
                        != name
            },
            None => forall|k: int|
                from <= k < ss.len() ==> (#[trigger] ss[k]).kind != SymbolKind::Class || ss[k].name
                    != name,
        },
    decreases ss.len() - from,
{
    if from < ss.len() {
        lemma_first_class(ss, name, from + 1);
    }
}

/// The symbol that is found for an interface is a class with exactly the name of the interface,
/// and no symbol before it is one. Where none is found no symbol is one.
pub proof fn class_has_the_name_of_the_interface(ss: Seq<SymbolInformationView>, name: Seq<char>)
    ensures
        match bindings::first_class(ss, name, 0) {
            Some(i) => {
                &&& 0 <= i < ss.len()
                &&& ss[i].kind == SymbolKind::Class
                &&& ss[i].name == name
                &&& forall|k: int|
                    0 <= k < i ==> (#[trigger] ss[k]).kind != SymbolKind::Class || ss[k].name
                        != name
            },
            None => forall|k: int|
                0 <= k < ss.len() ==> (#[trigger] ss[k]).kind != SymbolKind::Class || ss[k].name
                    != name,
        },
{
    lemma_first_class(ss, name, 0);
}

/// Whether a symbol after number `c` and not after number `i` starts behind the end of the
/// symbol with the number `c`.
pub open spec fn ends_before(ss: Seq<SymbolInformationView>, c: int, i: int) -> bool {
    exists|j: int|
        c < j <= i && !bindings::position_le(
            (#[trigger] ss[j]).location.range.start,
            ss[c].location.range.end,
        )
}

proof fn lemma_ended(ss: Seq<SymbolInformationView>, i: int)
    requires
        i < ss.len(),
    ensures
        forall|c: int|
            0 <= c < i && (#[trigger] ss[c]).kind == SymbolKind::Class && !bindings::open_at(
                ss,
                i,
            ).contains(c) ==> ends_before(ss, c, i),
        forall|c: int|
            0 <= c <= i && (#[trigger] ss[c]).kind == SymbolKind::Class && !bindings::open_after(
                ss,
                i,
            ).contains(c) ==> ends_before(ss, c, i),
        forall|k: int, l: int|
            0 <= k < l < bindings::open_at(ss, i).len() ==> #[trigger] bindings::open_at(ss, i)[k]
                < #[trigger] bindings::open_at(ss, i)[l],
        forall|k: int, l: int|
            0 <= k < l < bindings::open_after(ss, i).len() ==> #[trigger] bindings::open_after(
                ss,
                i,
            )[k] < #[trigger] bindings::open_after(ss, i)[l],
    decreases i,
{
    let at = bindings::open_at(ss, i);
    let after = bindings::open_after(ss, i);
    if i >= 0 {
        let start = ss[i].location.range.start;
        bindings::lemma_open(ss, i);
        if i > 0 {
            let before = bindings::open_after(ss, i - 1);
            lemma_ended(ss, i - 1);
            lemma_closed(ss, before, start);
            bindings::lemma_still_open(ss, before, start);
            assert forall|c: int|
                0 <= c < i && (#[trigger] ss[c]).kind == SymbolKind::Class && !at.contains(
                    c,
                ) implies ends_before(ss, c, i) by {
                if before.contains(c) {
                    let k = before.index_of(c);
                    assert(before[k] == c);
                    if k < at.len() {
                        assert(at[k] == c);
                    }
                    assert(!bindings::position_le(
                        ss[i].location.range.start,
                        ss[c].location.range.end,
                    ));
                } else {
                    assert(ends_before(ss, c, i - 1));
                }
            }
        }
        if ss[i].kind == SymbolKind::Class {
            assert(after[after.len() - 1] == i);
            assert forall|c: int|
                0 <= c <= i && (#[trigger] ss[c]).kind == SymbolKind::Class && !after.contains(
                    c,
                ) implies ends_before(ss, c, i) by {
                if at.contains(c) {
                    let k = at.index_of(c);
                    assert(after[k] == c);
                }
            }
        }
    }
}

/// The classes that are closed end before `start`.
proof fn lemma_closed(ss: Seq<SymbolInformationView>, open: Seq<int>, start: lsp::Position)
    ensures
        forall|k: int|
            bindings::still_open(ss, open, start).len() <= k < open.len()
                ==> !bindings::position_le(start, ss[#[trigger] open[k]].location.range.end),
    decreases open.len(),
{
    if open.len() > 0 && !bindings::position_le(start, ss[open.last()].location.range.end) {
        lemma_closed(ss, open.drop_last(), start);
        assert forall|k: int|
            bindings::still_open(ss, open, start).len() <= k
                < open.len() implies !bindings::position_le(
            start,
            ss[#[trigger] open[k]].location.range.end,
        ) by {
            if k < open.len() - 1 {
                assert(open.drop_last()[k] == open[k]);
            }
        }
    }
}

/// Whether the symbol with the number `i` is a method called `name` and stands in a class
/// called `class`, such that every other class between the two has ended before it.
pub open spec fn is_method_in(
    ss: Seq<SymbolInformationView>,
    c: int,
    i: int,
    class: Seq<char>,
    name: Seq<char>,
) -> bool {
    &&& 0 <= c < i < ss.len()
    &&& ss[i].kind == SymbolKind::Method
    &&& ss[i].name == name
    &&& ss[c].kind == SymbolKind::Class
    &&& ss[c].name == class
    &&& bindings::position_le(ss[i].location.range.start, ss[c].location.range.end)
    &&& forall|d: int|
        c < d < i && (#[trigger] ss[d]).kind == SymbolKind::Class ==> ends_before(ss, d, i)
}

/// The symbol that is found for a method is a method with exactly its name, in a class with
/// exactly the name of its interface, and no other class stands around it inside that one.
pub proof fn method_stands_in_its_class(
    ss: Seq<SymbolInformationView>,
    class: Seq<char>,
    name: Seq<char>,
)
    ensures
        bindings::first_method(ss, class, name, 0) matches Some(i) ==> is_method_in(
            ss,
            bindings::open_at(ss, i).last(),
            i,
            class,
            name,
        ),
{
    bindings::found_class_is_open(ss, class, name);
    bindings::lemma_first_method(ss, class, name, 0);
    if let Some(i) = bindings::first_method(ss, class, name, 0) {
        let open = bindings::open_at(ss, i);
        let c = open.last();
        lemma_ended(ss, i);
        assert forall|d: int|
            c < d < i && (#[trigger] ss[d]).kind == SymbolKind::Class implies ends_before(
            ss,
            d,
            i,
        ) by {
            if open.contains(d) {
                let k = open.index_of(d);
                assert(open[k] == d && open[open.len() - 1] == c);
            }
        }
    }
}

/// Whether the symbols are listed by their starts, and a class that starts in another one ends
/// in it.
pub open spec fn are_nested(ss: Seq<SymbolInformationView>) -> bool {
    &&& forall|i: int, j: int|
        0 <= i <= j < ss.len() ==> bindings::position_le(
            (#[trigger] ss[i]).location.range.start,
            (#[trigger] ss[j]).location.range.start,
        )
    &&& forall|c: int, d: int|
        0 <= c < d < ss.len() && (#[trigger] ss[c]).kind == SymbolKind::Class && (
        #[trigger] ss[d]).kind == SymbolKind::Class && bindings::position_le(
            ss[d].location.range.start,
            ss[c].location.range.end,
        ) ==> bindings::position_le(ss[d].location.range.end, ss[c].location.range.end)
}

/// Whether the symbol with the number `c` is a class that stands around the one with the number
/// `i`.
pub open spec fn is_around(ss: Seq<SymbolInformationView>, c: int, i: int) -> bool {
    &&& 0 <= c < i
    &&& ss[c].kind == SymbolKind::Class
    &&& bindings::position_le(ss[i].location.range.start, ss[c].location.range.end)
}

/// What is open stands around the symbol.
proof fn lemma_open_is_around(ss: Seq<SymbolInformationView>, i: int, k: int)
    requires
        are_nested(ss),
        0 <= i < ss.len(),
        0 <= k < bindings::open_at(ss, i).len(),
    ensures
        is_around(ss, bindings::open_at(ss, i)[k], i),
    decreases i,
{
    bindings::lemma_open(ss, i);
    let start = ss[i].location.range.start;
    let open = bindings::open_at(ss, i);
    let before = bindings::open_after(ss, i - 1);
    let at = bindings::open_at(ss, i - 1);
    bindings::lemma_still_open(ss, before, start);
    let c = open[k];
    let last = open[open.len() - 1];
    assert(before[k] == c && before[open.len() - 1] == last);
    if k < open.len() - 1 {
        lemma_ascending(ss, i, k, open.len() - 1);
        assert(at[k] == c);
        lemma_open_is_around(ss, i - 1, k);
        assert(bindings::position_le(
            ss[last].location.range.start,
            ss[i - 1].location.range.start,
        ));
    }
}

/// What is open is listed in its order.
proof fn lemma_ascending(ss: Seq<SymbolInformationView>, i: int, k: int, l: int)
    requires
        i < ss.len(),
        0 <= k < l < bindings::open_at(ss, i).len(),
    ensures
        bindings::open_at(ss, i)[k] < bindings::open_at(ss, i)[l],
{
    lemma_ended(ss, i);
}

/// What stands around the symbol is open.
proof fn lemma_around_is_open(ss: Seq<SymbolInformationView>, i: int, c: int) -> (k: int)
    requires
        are_nested(ss),
        0 <= i < ss.len(),
        is_around(ss, c, i),
    ensures
        0 <= k < bindings::open_at(ss, i).len(),
        bindings::open_at(ss, i)[k] == c,
    decreases i,
{
    let start = ss[i].location.range.start;
    let open = bindings::open_at(ss, i);
    let before = bindings::open_after(ss, i - 1);
    let at = bindings::open_at(ss, i - 1);
    bindings::lemma_still_open(ss, before, start);
    lemma_closed(ss, before, start);
    let k = if c == i - 1 {
        before.len() - 1
    } else {
        assert(bindings::position_le(ss[i - 1].location.range.start, ss[i].location.range.start));
        lemma_around_is_open(ss, i - 1, c)
    };
    assert(before[k] == c);
    k
}

/// Where the symbols are listed by their starts and the classes are nested, the method that is
/// found is the first one with that name whose innermost class has the name of the interface:
/// of the classes around the method none stands inside that class. Where none is found there is
/// no such method.
pub proof fn innermost_class_counts(
    ss: Seq<SymbolInformationView>,
    class: Seq<char>,
    name: Seq<char>,
)
    requires
        are_nested(ss),
    ensures
        match bindings::first_method(ss, class, name, 0) {
            Some(i) => {
                &&& 0 <= i < ss.len()
                &&& has_innermost(ss, i, class, name)
                &&& forall|k: int| 0 <= k < i ==> !#[trigger] has_innermost(ss, k, class, name)
            },
            None => forall|k: int|
                0 <= k < ss.len() ==> !#[trigger] has_innermost(ss, k, class, name),
        },
{
    lemma_first_of_methods(ss, class, name, 0);
}

/// Whether the symbol with the number `i` is a method called `name` and the innermost class
/// around it is called `class`.
pub open spec fn has_innermost(
    ss: Seq<SymbolInformationView>,
    i: int,
    class: Seq<char>,
    name: Seq<char>,
) -> bool {
    &&& ss[i].kind == SymbolKind::Method
    &&& ss[i].name == name
    &&& exists|c: int|
        #[trigger] is_around(ss, c, i) && ss[c].name == class && forall|d: int|
            #[trigger] is_around(ss, d, i) ==> d <= c
}

proof fn lemma_innermost(
    ss: Seq<SymbolInformationView>,
    i: int,
    class: Seq<char>,
    name: Seq<char>,
)
    requires
        are_nested(ss),
        0 <= i < ss.len(),
    ensures
        has_innermost(ss, i, class, name) == bindings::is_method_of(ss, i, class, name),
{
    let open = bindings::open_at(ss, i);
    let last = open.last();
    if open.len() > 0 {
        lemma_open_is_around(ss, i, open.len() - 1);
        assert forall|d: int| #[trigger] is_around(ss, d, i) implies d <= last by {
            let k = lemma_around_is_open(ss, i, d);
            if k < open.len() - 1 {
                lemma_ascending(ss, i, k, open.len() - 1);
            }
        }
    }
    if has_innermost(ss, i, class, name) {
        let c = choose|c: int|
            #[trigger] is_around(ss, c, i) && ss[c].name == class && forall|d: int|
                #[trigger] is_around(ss, d, i) ==> d <= c;
        let k = lemma_around_is_open(ss, i, c);
        assert(is_around(ss, last, i));
        assert(c == last);
    }
}

proof fn lemma_first_of_methods(
    ss: Seq<SymbolInformationView>,
    class: Seq<char>,
    name: Seq<char>,
    from: int,
)
    requires
        are_nested(ss),
        0 <= from,
    ensures
        match bindings::first_method(ss, class, name, from) {
            Some(i) => {
                &&& from <= i < ss.len()
                &&& has_innermost(ss, i, class, name)
                &&& forall|k: int| from <= k < i ==> !#[trigger] has_innermost(ss, k, class, name)
            },
            None => forall|k: int|
                from <= k < ss.len() ==> !#[trigger] has_innermost(ss, k, class, name),
        },
    decreases ss.len() - from,
{
    if from < ss.len() {
        lemma_innermost(ss, from, class, name);
        lemma_first_of_methods(ss, class, name, from + 1);
    }
}

/// An interface is found where its class stands. A method is found in the file of its symbol and
/// up to the end of it, but from five columns behind its start on, where its name stands.
/// Nothing else is found.
pub proof fn location_is_that_of_the_symbol(header: CppBindingHeader, target: SymbolView)
    requires
        header.column_fits(target),
    ensures
        ({
            let ss = header.symbol_views();
            let r = header.symbol_location(target);
            match target.class {
                Class::Interface => match bindings::first_class(ss, target.name, 0) {
                    Some(i) => {
                        &&& r matches Some(l)
                        &&& l.uri == ss[i].location.uri
                        &&& l.range.start == ss[i].location.range.start
                        &&& l.range.end == ss[i].location.range.end
                    },
                    None => r is None,
                },
                Class::Method(class) => match bindings::first_method(ss, class, target.name, 0) {
                    Some(i) => {
                        &&& r matches Some(l)
                        &&& l.uri == ss[i].location.uri
                        &&& l.range.start.line == ss[i].location.range.start.line
                        &&& l.range.start.character == ss[i].location.range.start.character + 5
                        &&& l.range.end == ss[i].location.range.end
                    },
                    None => r is None,
                },
                _ => r is None,
            }
        }),
{
}

/// The proxy of an interface is called like it, with `Proxy` behind the name. The proxy of a
/// method is a method with the same name, in the proxy of its interface. Every other symbol is
/// its own.
pub proof fn proxy_has_its_name(s: SymbolView)
    ensures
        ({
            let p = document_symbol::proxy_of(s);
            let word = seq!['P', 'r', 'o', 'x', 'y'];
            &&& p.range == s.range
            &&& p.name_range == s.name_range
            &&& match s.class {
                Class::Interface => p.class is Interface && p.name == s.name + word,
                Class::Method(class) => p.class == Class::Method(class + word) && p.name == s.name,
                _ => p.class == s.class && p.name == s.name,
            }
        }),
{
    reveal_strlit("Proxy");
    assert("Proxy"@ =~= seq!['P', 'r', 'o', 'x', 'y']);
}

/// Whether `chars` is something, then `word`, and then something again.
pub open spec fn has_between(chars: Seq<char>, word: Seq<char>) -> bool {
    exists|a: Seq<char>, b: Seq<char>| chars == #[trigger] (a + word + b)
}

/// A word stands in a text exactly where the text is something, the word and something again.
pub proof fn word_stands_between(word: Seq<char>, chars: Seq<char>)
    ensures
        text::occurs_in(word, chars) <==> has_between(chars, word),
{
    if text::occurs_in(word, chars) {
        let i = choose|i: int| #[trigger] text::found_at(chars, word, i);
        let a = chars.take(i);
        let b = chars.skip(i + word.len());
        assert(chars =~= a + word + b);
    }
    if has_between(chars, word) {
        let (a, b) = choose|a: Seq<char>, b: Seq<char>| chars == #[trigger] (a + word + b);
        let i = a.len() as int;
        assert(chars.subrange(i, i + word.len()) =~= word);
        assert(text::found_at(chars, word, i));
    }
}

/// A file was generated from a Mojom file exactly if both `/gen/` and `mojom` stand in its path.
pub proof fn generated_files_are_below_gen(path: Seq<char>)
    ensures
        bindings::generated_path(path) <==> has_between(path, seq!['/', 'g', 'e', 'n', '/'])
            && has_between(path, seq!['m', 'o', 'j', 'o', 'm']),
{
    reveal_strlit("/gen/");
    reveal_strlit("mojom");
    assert("/gen/"@ =~= seq!['/', 'g', 'e', 'n', '/']);
    assert("mojom"@ =~= seq!['m', 'o', 'j', 'o', 'm']);
    word_stands_between("/gen/"@, path);
    word_stands_between("mojom"@, path);
}

/// Positions are ordered by their lines, and on the same line by their columns.
pub proof fn positions_are_in_reading_order(a: lsp::Position, b: lsp::Position)
    ensures
        a.line < b.line ==> bindings::position_le(a, b) && !bindings::position_le(b, a),
        a.line == b.line && a.character < b.character ==> bindings::position_le(a, b)
            && !bindings::position_le(b, a),
        a.line == b.line && a.character == b.character ==> bindings::position_le(a, b),
{
}

/// A file is generated from a Mojom file by what its path says, and a URI without a path is not
/// the URI of one.
pub proof fn uri_is_generated_by_its_path(uri: Seq<char>)
    ensures
        bindings::mojom_generated(uri) <==> exists|path: Seq<char>|
            #![trigger bindings::generated_path(path)]
            bindings::uri_path(uri) == Some(path) && bindings::generated_path(path),
{
    if let Some(path) = bindings::uri_path(uri) {
        assert(bindings::generated_path(path) || !bindings::generated_path(path));
    }
}

/// What is kept of two lists, one behind the other, is what is kept of the first and then what
/// is kept of the second. A single location is kept unless its file was generated.
pub proof fn kept_locations_stay_in_their_order(
    a: Seq<lsp::LocationView>,
    b: Seq<lsp::LocationView>,
    l: lsp::LocationView,
)
    ensures
        bindings::not_generated(a + b) == bindings::not_generated(a) + bindings::not_generated(b),
        bindings::mojom_generated(l.uri) ==> bindings::not_generated(seq![l]).len() == 0,
        !bindings::mojom_generated(l.uri) ==> bindings::not_generated(seq![l]) == seq![l],
    decreases b.len(),
{
    let one = seq![l];
    assert(one.drop_last() =~= Seq::<lsp::LocationView>::empty());
    assert(bindings::not_generated(one.drop_last()) =~= Seq::<lsp::LocationView>::empty());
    if !bindings::mojom_generated(l.uri) {
        assert(bindings::not_generated(one) =~= one);
    }
    if b.len() == 0 {
        assert(a + b =~= a);
        assert(bindings::not_generated(a) + bindings::not_generated(b) =~= bindings::not_generated(
            a,
        ));
    } else {
        assert((a + b).drop_last() =~= a + b.drop_last());
        kept_locations_stay_in_their_order(a, b.drop_last(), l);
        assert(bindings::not_generated(a + b) =~= bindings::not_generated(a)
            + bindings::not_generated(b));
    }
}

/// A text in which `from` does not stand stays as it is.
pub proof fn nothing_to_replace(chars: Seq<char>, from: Seq<char>, to: Seq<char>)
    requires
        from.len() > 0,
        !text::occurs_in(from, chars),
    ensures
        text::replaced(chars, from, to) == chars,
    decreases chars.len(),
{
    if chars.len() > 0 {
        let rest = chars.skip(1);
        assert(!text::found_at(chars, from, 0));
        assert(!text::occurs_in(from, rest)) by {
            if text::occurs_in(from, rest) {
                let i = choose|i: int| #[trigger] text::found_at(rest, from, i);
                assert(rest.subrange(i, i + from.len()) =~= chars.subrange(
                    i + 1,
                    i + 1 + from.len(),
                ));
                assert(text::found_at(chars, from, i + 1));
            }
        }
        nothing_to_replace(rest, from, to);
        assert(seq![chars[0]] + rest =~= chars);
    }
}

/// The first `from` in a text is replaced by `to`. What is before it stays, and what is behind
/// it is replaced in turn.
pub proof fn first_is_replaced(a: Seq<char>, b: Seq<char>, from: Seq<char>, to: Seq<char>)
    requires
        from.len() > 0,
        forall|i: int| 0 <= i < a.len() ==> !#[trigger] text::found_at(a + from + b, from, i),
    ensures
        text::replaced(a + from + b, from, to) == a + to + text::replaced(b, from, to),
    decreases a.len(),
{
    let all = a + from + b;
    if a.len() == 0 {
        assert(all.subrange(0, from.len() as int) =~= from);
        assert(text::found_at(all, from, 0));
        assert(all.skip(from.len() as int) =~= b);
        assert(a + to + text::replaced(b, from, to) =~= to + text::replaced(b, from, to));
    } else {
        let rest = a.skip(1);
        assert(!text::found_at(all, from, 0));
        assert(all.skip(1) =~= rest + from + b);
        assert forall|i: int| 0 <= i < rest.len() implies !#[trigger] text::found_at(
            rest + from + b,
            from,
            i,
        ) by {
            assert((rest + from + b).subrange(i, i + from.len()) =~= all.subrange(
                i + 1,
                i + 1 + from.len(),
            ));
            assert(!text::found_at(all, from, i + 1));
        }
        first_is_replaced(rest, b, from, to);
        assert(text::replaced(all, from, to) =~= a + to + text::replaced(b, from, to));
    }
}

/// Where nothing is replaced, `to` is put before every character and at the end.
pub proof fn nothing_is_everywhere(chars: Seq<char>, c: char, to: Seq<char>)
    ensures
        text::replaced(Seq::<char>::empty(), Seq::<char>::empty(), to) == to,
        text::replaced(seq![c] + chars, Seq::<char>::empty(), to) == to + seq![c] + text::replaced(
            chars,
            Seq::<char>::empty(),
            to,
        ),
{
    assert((seq![c] + chars).skip(1) =~= chars);
}

/// A file below the root directory, in whose path the root does not stand again, has its
/// headers at the same place below the directory for generated files.
pub proof fn headers_are_below_the_generated_files(
    root: Seq<char>,
    path: Seq<char>,
    generated: Seq<char>,
)
    requires
        root.len() > 0,
        !text::occurs_in(root, path),
    ensures
        text::replaced(root + path, root, generated) == generated + path,
{
    let none = Seq::<char>::empty();
    assert(none + root + path =~= root + path);
    first_is_replaced(none, path, root, generated);
    nothing_to_replace(path, root, generated);
    assert(none + generated + path =~= generated + path);
}

} // verus!
