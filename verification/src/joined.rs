//! Two files, one behind the other, are a file with the statements of both.
use vstd::prelude::*;

use crate::grammar::{many, rank, rule, rule_body, seq2, Expr, Rule, TOP_RANK};
use crate::locality;
use crate::moved;
use crate::parser;
use crate::peg;
use crate::peg::{Hit, Node, Trace};
use crate::ranks;
use crate::shifted;
use crate::syntax;
use crate::syntax::MojomFile;
use crate::text;
use crate::tree;

verus! {

/// What a statement matches at `pos`.
#[verifier::opaque]
pub open spec fn statement_hit(s: Seq<u8>, pos: nat) -> Option<Hit> {
    peg::run(rule(Rule::statement), s, pos, peg::empty_trace(), false, TOP_RANK as nat).hit
}

/// The statements from `pos` on, one after the other, and the place behind the last of them
/// and the blanks after it.
pub open spec fn file_nodes(s: Seq<u8>, pos: nat) -> (Seq<Node>, nat)
    decreases peg::left(s, pos),
{
    match statement_hit(s, pos) {
        Some(h) => if h.len > 0 && pos < s.len() {
            let end = pos + h.len;
            let rest = file_nodes(s, end + peg::blanks(s, end as int));
            (h.nodes + rest.0, rest.1)
        } else {
            (Seq::empty(), pos)
        },
        None => (Seq::empty(), pos),
    }
}

/// A statement matches the same whatever was tried before it.
proof fn lemma_any_trace(s: Seq<u8>, pos: nat, trace: Trace, bound: nat)
    requires
        pos <= s.len(),
        bound > rank(Rule::statement),
    ensures
        peg::run(rule(Rule::statement), s, pos, trace, false, bound).hit == statement_hit(s, pos),
        statement_hit(s, pos) matches Some(h) ==> h.len > 0 && pos + h.len <= s.len()
            && h.nodes.len() == 1 && h.nodes[0].rule == Rule::statement,
{
    reveal(statement_hit);
    let e = rule(Rule::statement);
    let top = TOP_RANK as nat;
    let first = peg::empty_trace();
    assert(peg::run(e, s, pos, trace, false, bound) == peg::run(e, s, pos, trace, false, top));
    moved::lemma_moved(e, s, s, 0, pos, (trace, first), false, top);
    ranks::lemma_run_fits(e, s, pos, first, false, top);
    ranks::lemma_consumes(e, s, pos, first, false, top);
    let a = peg::run(e, s, pos, trace, false, top).hit;
    let b = statement_hit(s, pos);
    if let (Some(x), Some(y)) = (a, b) {
        assert forall|i: int| 0 <= i < x.nodes.len() implies x.nodes[i] == y.nodes[i] by {
            moved::lemma_not_moved(x.nodes[i], y.nodes[i]);
        }
        assert(x.nodes =~= y.nodes);
    }
}

/// Behind blanks there are no blanks.
pub(crate) proof fn lemma_no_blanks(s: Seq<u8>, pos: int)
    requires
        0 <= pos <= s.len(),
    ensures
        peg::blanks(s, pos + peg::blanks(s, pos)) == 0,
    decreases s.len() - pos,
{
    peg::lemma_blank_fits(s, pos);
    if pos < s.len() && peg::blank(s, pos) > 0 {
        lemma_no_blanks(s, pos + peg::blank(s, pos));
    }
}

/// A repetition of statements.
proof fn lemma_more_statements(s: Seq<u8>, pos: nat, trace: Trace)
    requires
        pos <= s.len(),
    ensures
        ({
            let f = file_nodes(s, pos + peg::blanks(s, pos as int));
            let o = peg::more(rule(Rule::statement), s, pos, trace, false, TOP_RANK as nat);
            &&& o.hit matches Some(h)
            &&& pos + h.len <= s.len()
            &&& h.nodes == f.0
            &&& pos + h.len + peg::blanks(s, (pos + h.len) as int) == f.1
        }),
    decreases peg::left(s, pos),
{
    let e = rule(Rule::statement);
    let top = TOP_RANK as nat;
    peg::lemma_blanks_fit(s, pos as int);
    let g = peg::blanks(s, pos as int);
    let o1 = peg::run(e, s, pos + g, trace, false, peg::bound_after(s, pos, g, top));
    lemma_any_trace(s, pos + g, trace, top);
    if let Some(h1) = o1.hit {
        lemma_more_statements(s, pos + g + h1.len, o1.trace);
    }
}

/// The statements of a file from its first blanks on.
proof fn lemma_many_statements(s: Seq<u8>, pos: nat, trace: Trace, bound: nat)
    requires
        pos <= s.len(),
        peg::blanks(s, pos as int) == 0,
        bound > rank(Rule::statement),
    ensures
        ({
            let f = file_nodes(s, pos);
            let o = peg::run(many(rule(Rule::statement)), s, pos, trace, false, bound);
            &&& o.hit matches Some(h)
            &&& pos + h.len <= s.len()
            &&& h.nodes == f.0
            &&& pos + h.len + peg::blanks(s, (pos + h.len) as int) == f.1
        }),
{
    lemma_any_trace(s, pos, trace, bound);
    let o1 = peg::run(rule(Rule::statement), s, pos, trace, false, bound);
    if let Some(h1) = o1.hit {
        lemma_more_statements(s, pos + h1.len, o1.trace);
    }
}

/// The statements of a file.
pub open spec fn statements(s: Seq<u8>) -> (Seq<Node>, nat) {
    file_nodes(s, peg::blanks(s, 0))
}

/// The node of a file with these statements.
pub open spec fn file_node(s: Seq<u8>) -> Node {
    let f = statements(s);
    let end = Node { rule: Rule::EOI, start: f.1, end: f.1, inner: Seq::empty() };
    Node { rule: Rule::mojom_file, start: 0, end: f.1, inner: f.0.push(end) }
}

/// A text is a file exactly if its statements reach up to its end.
proof fn lemma_file(input: Seq<char>)
    ensures
        ({
            let s = text::utf8(input);
            let hit = parser::parsed(Rule::mojom_file, input).hit;
            &&& hit is Some <==> statements(s).1 >= s.len()
            &&& hit matches Some(h) ==> h.nodes == seq![file_node(s)]
        }),
{
    let s = text::utf8(input);
    let trace = peg::empty_trace();
    let bound = rank(Rule::mojom_file) as nat;
    let tail = seq2(many(rule(Rule::statement)), rule(Rule::EOI));
    let g = peg::blanks(s, 0);
    peg::lemma_blanks_fit(s, 0);
    lemma_no_blanks(s, 0);
    assert(rule_body(Rule::mojom_file) == seq2(Expr::Start, tail));
    let o = peg::run(rule_body(Rule::mojom_file), s, 0, trace, false, bound);
    let first = peg::run(Expr::Start, s, 0, trace, false, bound);
    assert(first == peg::plain(trace, Some(0)));
    let b2 = peg::bound_after(s, 0, g, bound);
    lemma_many_statements(s, g, trace, b2);
    let list = peg::run(many(rule(Rule::statement)), s, g, trace, false, b2);
    let m = list.hit->0.len;
    let n = m + peg::blanks(s, (g + m) as int);
    let f = statements(s);
    assert(g + n == f.1);
    let b3 = peg::bound_after(s, g, n, b2);
    let last = peg::run(rule(Rule::EOI), s, g + n, list.trace, false, b3);
    let end = peg::run(Expr::End, s, g + n, list.trace, false, rank(Rule::EOI) as nat);
    assert(end == peg::plain(
        list.trace,
        if g + n >= s.len() {
            Some(0)
        } else {
            None
        },
    ));
    let rest = peg::run(tail, s, g, trace, false, b2);
    assert(rest.hit is Some <==> f.1 >= s.len());
    if f.1 >= s.len() {
        let eoi = Node { rule: Rule::EOI, start: f.1, end: f.1, inner: Seq::empty() };
        assert(last.hit->0.nodes =~= seq![eoi]);
        assert(rest.hit->0.nodes =~= f.0.push(eoi));
        assert(o.hit->0.nodes =~= f.0.push(eoi));
        assert(o.hit->0.len == f.1);
        assert(parser::parsed(Rule::mojom_file, input).hit->0.nodes =~= seq![file_node(s)]);
    }
}

/// The UTF-8 form of two texts, one behind the other.
pub(crate) proof fn lemma_utf8_append(a: Seq<char>, b: Seq<char>)
    ensures
        text::utf8(a + b) == text::utf8(a) + text::utf8(b),
    decreases a.len(),
{
    if a.len() == 0 {
        assert(a + b =~= b);
        assert(text::utf8(a) + text::utf8(b) =~= text::utf8(b));
    } else {
        lemma_utf8_append(a.drop_first(), b);
        assert((a + b).drop_first() =~= a.drop_first() + b);
        assert((a + b)[0] == a[0]);
        let e = vstd::utf8::encode_scalar(a[0] as u32);
        assert(e + (text::utf8(a.drop_first()) + text::utf8(b)) =~= text::utf8(a) + text::utf8(b));
    }
}

/// Two texts with a line feed between them.
pub open spec fn with_line_feed(a: Seq<u8>, b: Seq<u8>) -> Seq<u8> {
    a + seq![0x0au8] + b
}

/// A line that may reach up to the end of the first text ends at the line feed behind it.
proof fn lemma_line_joined(a: Seq<u8>, b: Seq<u8>, pos: int)
    requires
        0 <= pos <= a.len(),
    ensures
        peg::line_rest(with_line_feed(a, b), pos) == peg::line_rest(a, pos),
    decreases a.len() - pos,
{
    if pos < a.len() {
        lemma_line_joined(a, b, pos + 1);
    }
}

/// A blank of the first text stays one.
proof fn lemma_blank_joined(a: Seq<u8>, b: Seq<u8>, pos: int)
    requires
        0 <= pos < a.len(),
        peg::blank(a, pos) > 0,
    ensures
        peg::blank(with_line_feed(a, b), pos) == peg::blank(a, pos),
{
    let t = with_line_feed(a, b);
    peg::lemma_blank_fits(a, pos);
    assert(t[pos] == a[pos]);
    if a[pos] == 0x2f {
        assert(t[pos + 1] == a[pos + 1]);
        if a[pos + 1] == 0x2f {
            lemma_line_joined(a, b, pos + 2);
        } else {
            locality::lemma_comment_local(a, t, pos + 2, a.len() as int);
        }
    }
}

/// Blanks up to the end of the first text go on up to the first thing in the second one.
proof fn lemma_blanks_joined(a: Seq<u8>, b: Seq<u8>, pos: int)
    requires
        0 <= pos <= a.len(),
        pos + peg::blanks(a, pos) == a.len(),
    ensures
        pos + peg::blanks(with_line_feed(a, b), pos) == a.len() + 1 + peg::blanks(b, 0),
    decreases a.len() - pos,
{
    let t = with_line_feed(a, b);
    if pos == a.len() {
        assert(t[pos] == 0x0a);
        assert(moved::is_behind(b, t, a.len() + 1));
        moved::lemma_blanks(b, t, a.len() + 1, 0);
    } else {
        lemma_blank_joined(a, b, pos);
        peg::lemma_blank_fits(a, pos);
        lemma_blanks_joined(a, b, pos + peg::blank(a, pos));
    }
}

/// The statements of the first text come first, and then those of the second.
proof fn lemma_first_statements(a: Seq<u8>, b: Seq<u8>, pos: nat)
    requires
        pos <= a.len(),
        file_nodes(a, pos + peg::blanks(a, pos as int)).1 >= a.len(),
    ensures
        ({
            let t = with_line_feed(a, b);
            let all = file_nodes(t, pos + peg::blanks(t, pos as int));
            let second = file_nodes(t, a.len() + 1 + peg::blanks(b, 0));
            &&& all.0 == file_nodes(a, pos + peg::blanks(a, pos as int)).0 + second.0
            &&& all.1 == second.1
        }),
    decreases a.len() - pos,
{
    let t = with_line_feed(a, b);
    let p = pos as int;
    peg::lemma_blanks_fit(a, p);
    let q = pos + peg::blanks(a, p);
    let second = file_nodes(t, a.len() + 1 + peg::blanks(b, 0));
    if q == a.len() {
        lemma_blanks_joined(a, b, p);
        lemma_any_trace(a, q, peg::empty_trace(), TOP_RANK as nat);
        assert(file_nodes(a, q).0 + second.0 =~= second.0);
    } else {
        let e = rule(Rule::statement);
        let top = TOP_RANK as nat;
        let first = peg::empty_trace();
        lemma_any_trace(a, q, first, top);
        let h = statement_hit(a, q)->0;
        let end = (q + h.len) as int;
        assert(locality::closes(e, 0));
        locality::lemma_reaches_end(e, a, q, first, false, top, 0);
        locality::lemma_over_blanks(a, p, 0);
        assert(locality::agree(a, t, end));
        locality::lemma_blanks_local(a, t, p, end, 0);
        locality::lemma_statement_local(e, a, t, q, end, (first, first), false, top, 0);
        lemma_any_trace(t, q, first, top);
        lemma_first_statements(a, b, q + h.len);
        let rest = file_nodes(a, end as nat + peg::blanks(a, end));
        assert(h.nodes + (rest.0 + second.0) =~= (h.nodes + rest.0) + second.0);
    }
}

/// The statements of the second text come out as on their own, further on.
proof fn lemma_second_statements(b: Seq<u8>, t: Seq<u8>, k: nat, pos: nat)
    requires
        moved::is_behind(b, t, k),
        pos <= b.len(),
    ensures
        moved::nodes_moved(file_nodes(b, pos).0, file_nodes(t, pos + k).0, k),
        file_nodes(t, pos + k).1 == file_nodes(b, pos).1 + k,
    decreases peg::left(b, pos),
{
    let e = rule(Rule::statement);
    let top = TOP_RANK as nat;
    let first = peg::empty_trace();
    lemma_any_trace(b, pos, first, top);
    lemma_any_trace(t, pos + k, first, top);
    moved::lemma_moved(e, b, t, k, pos, (first, first), false, top);
    if let Some(h) = statement_hit(b, pos) {
        let end = pos + h.len;
        let next = end + peg::blanks(b, end as int);
        peg::lemma_blanks_fit(b, end as int);
        moved::lemma_blanks(b, t, k, end as int);
        lemma_second_statements(b, t, k, next);
        let h2 = statement_hit(t, pos + k)->0;
        assert(pos + k + h2.len == end + k);
        assert(end + k + peg::blanks(t, (end + k) as int) == next + k);
        moved::lemma_append(
            h.nodes,
            file_nodes(b, next).0,
            h2.nodes,
            file_nodes(t, next + k).0,
            k,
        );
    }
}

/// The bytes of two texts with a line feed between them.
proof fn lemma_joined_bytes(a: Seq<char>, b: Seq<char>)
    ensures
        text::utf8(a + "\n"@ + b) == with_line_feed(text::utf8(a), text::utf8(b)),
{
    reveal_strlit("\n");
    lemma_utf8_append(a, "\n"@);
    lemma_utf8_append(a + "\n"@, b);
    vstd::utf8::is_ascii_chars_encode_utf8("\n"@);
    assert(text::utf8("\n"@) =~= seq![0x0au8]);
}

/// The statements of two texts with a line feed between them.
proof fn lemma_joined_statements(a: Seq<u8>, b: Seq<u8>)
    requires
        statements(a).1 >= a.len(),
        statements(b).1 >= b.len(),
    ensures
        ({
            let x = statements(a).0;
            let z = statements(with_line_feed(a, b));
            &&& z.1 >= with_line_feed(a, b).len()
            &&& z.0.len() == x.len() + statements(b).0.len()
            &&& z.0.take(x.len() as int) == x
            &&& moved::nodes_moved(statements(b).0, z.0.skip(x.len() as int), a.len() + 1)
        }),
{
    let t = with_line_feed(a, b);
    let k = a.len() + 1;
    lemma_first_statements(a, b, 0);
    assert(moved::is_behind(b, t, k));
    peg::lemma_blanks_fit(b, 0);
    lemma_second_statements(b, t, k, peg::blanks(b, 0));
    let x = statements(a).0;
    let second = file_nodes(t, k + peg::blanks(b, 0)).0;
    assert(statements(t).0 == x + second);
    assert((x + second).take(x.len() as int) =~= x);
    assert((x + second).skip(x.len() as int) =~= second);
}

/// The statements of the tree of a file are what its nodes say, one by one.
proof fn lemma_tree(m: MojomFile, input: Seq<char>)
    requires
        syntax::is_tree_of(m, input),
    ensures
        syntax::are_statements(m.stmts@, statements(text::utf8(input)).0),
        tree::all_well_formed(statements(text::utf8(input)).0),
        forall|i: int|
            0 <= i < m.stmts@.len() ==> (#[trigger] statements(text::utf8(input)).0[i]).rule
                == Rule::statement,
{
    let s = text::utf8(input);
    let f = statements(s).0;
    let n = file_node(s);
    lemma_file(input);
    parser::lemma_parsed(Rule::mojom_file, input);
    assert(parser::parsed(Rule::mojom_file, input).hit->0.nodes[0] == n);
    syntax::lemma_mojom_file(n);
    assert(n.inner.subrange(0, n.inner.len() - 1) =~= f);
    assert forall|i: int| 0 <= i < f.len() implies tree::well_formed(#[trigger] f[i]) && f[i].rule
        == Rule::statement by {
        assert(n.inner[i] == f[i]);
    }
}

/// Two Mojom files with a line feed between them are a Mojom file.
pub proof fn joined_files_are_a_file(a: Seq<char>, b: Seq<char>)
    requires
        syntax::is_mojom(a),
        syntax::is_mojom(b),
    ensures
        syntax::is_mojom(a + "\n"@ + b),
{
    lemma_file(a);
    lemma_file(b);
    lemma_joined_bytes(a, b);
    lemma_joined_statements(text::utf8(a), text::utf8(b));
    lemma_file(a + "\n"@ + b);
}

/// Two Mojom files with a line feed between them have the statements of both: first those of
/// the first file, where they were, and then those of the second file, where every range, the
/// nested ones too, starts and ends as many bytes further on as the first file and the line
/// feed are long.
pub proof fn joined_files_have_the_statements_of_both(
    a: Seq<char>,
    b: Seq<char>,
    fa: MojomFile,
    fb: MojomFile,
    f: MojomFile,
)
    requires
        syntax::is_tree_of(fa, a),
        syntax::is_tree_of(fb, b),
        syntax::is_tree_of(f, a + "\n"@ + b),
    ensures
        f.stmts@.len() == fa.stmts@.len() + fb.stmts@.len(),
        forall|i: int|
            0 <= i < fa.stmts@.len() ==> shifted::statement_moved(
                #[trigger] fa.stmts@[i],
                f.stmts@[i],
                0,
            ),
        forall|i: int|
            0 <= i < fb.stmts@.len() ==> shifted::statement_moved(
                #[trigger] fb.stmts@[i],
                f.stmts@[fa.stmts@.len() + i],
                text::utf8(a).len() + 1,
            ),
{
    let sa = text::utf8(a);
    let sb = text::utf8(b);
    lemma_tree(fa, a);
    lemma_tree(fb, b);
    lemma_tree(f, a + "\n"@ + b);
    lemma_file(a);
    lemma_file(b);
    lemma_joined_bytes(a, b);
    lemma_joined_statements(sa, sb);
    let x = statements(sa).0;
    let y = statements(sb).0;
    let z = statements(with_line_feed(sa, sb)).0;
    let k = sa.len() + 1;
    assert forall|i: int| 0 <= i < fa.stmts@.len() implies shifted::statement_moved(
        #[trigger] fa.stmts@[i],
        f.stmts@[i],
        0,
    ) by {
        assert(x[i] == z.take(x.len() as int)[i]);
        moved::lemma_not_moved(x[i], z[i]);
        assert(syntax::is_statement(fa.stmts@[i], x[i]));
        assert(syntax::is_statement(f.stmts@[i], z[i]));
        shifted::lemma_statement(fa.stmts@[i], f.stmts@[i], x[i], z[i], 0);
    }
    assert forall|i: int| 0 <= i < fb.stmts@.len() implies shifted::statement_moved(
        #[trigger] fb.stmts@[i],
        f.stmts@[fa.stmts@.len() + i],
        k,
    ) by {
        let j = x.len() + i;
        assert(moved::node_moved(y[i], z.skip(x.len() as int)[i], k));
        assert(syntax::is_statement(fb.stmts@[i], y[i]));
        assert(syntax::is_statement(f.stmts@[j], z[j]));
        shifted::lemma_statement(fb.stmts@[i], f.stmts@[j], y[i], z[j], k);
    }
}

} // verus!
