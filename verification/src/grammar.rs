//! The grammar of Mojom files, as a table of parsing expressions.
//!
//! Every rule of the grammar is one variant of [`Rule`] and has one
//! parsing expression, its body. What a body matches is defined in `peg`.
use vstd::prelude::*;

verus! {

/// The rules of the grammar. `EOI` is the end of the input.
#[derive(Debug, Clone, Copy, PartialEq, Eq, PartialOrd, Ord, Hash, Structural)]
pub enum Rule {
    EOI,
    mojom_file,
    statement,
    module_stmt,
    import_stmt,
    interface,
    interface_body,
    method_stmt,
    parameter_list,
    parameter,
    response,
    struct_stmt,
    struct_body,
    struct_item,
    struct_field,
    default,
    union_stmt,
    union_field,
    enum_stmt,
    enum_block,
    enum_value,
    const_stmt,
    constant,
    literal,
    number,
    float,
    integer,
    string_literal,
    attribute_section,
    attribute,
    type_spec,
    typename,
    array,
    map,
    interface_request,
    basic_typename,
    handle_type,
    specific_handle_type,
    pending_type,
    associated_type,
    numeric_type,
    ordinal_value,
    identifier,
    name,
    t_array,
    t_associated,
    t_const,
    t_handle,
    t_import,
    t_interface,
    t_map,
    t_module,
    t_struct,
    t_union,
    t_amp,
    t_arrow,
    t_comma,
    t_equal,
    t_langlebracket,
    t_lbrace,
    t_lbracket,
    t_lparen,
    t_nullable,
    t_ranglebracket,
    t_rbrace,
    t_rbracket,
    t_rparen,
    t_semicolon,
}

/// A set of characters, told apart by the first byte of their UTF-8 form.
#[derive(Debug, Clone, Copy, PartialEq, Eq, Structural)]
pub enum CharSet {
    /// `0` to `9`.
    Digit,
    /// `0` to `9`, `a` to `f` and `A` to `F`.
    HexDigit,
    /// An ASCII letter or `_`.
    NameStart,
    /// An ASCII letter, an ASCII digit or `_`.
    NamePart,
    /// Everything but `"`, `\` and the line feed.
    StringChar,
    /// Everything.
    Any,
}

/// A parsing expression.
pub enum Expr {
    /// The start of the input.
    Start,
    /// The end of the input.
    End,
    /// This text.
    Word(&'static str),
    /// This text, not followed by a character that could go on a name.
    Keyword(&'static str),
    /// One character of the set.
    Char(CharSet),
    /// What the body of the rule matches.
    Rule(Rule),
    /// The first expression, then the second.
    Cat(Box<Expr>, Box<Expr>),
    /// The first expression or, where it does not match, the second.
    Or(Box<Expr>, Box<Expr>),
    /// The expression, or nothing where it does not match.
    Opt(Box<Expr>),
    /// The expression as many times as it matches.
    Many(Box<Expr>),
}

/// `text`, wherever it stands.
#[verifier::allow_in_spec]
pub fn word(text: &'static str) -> Expr
    returns
        Expr::Word(text),
{
    Expr::Word(text)
}

/// `text` as a whole word.
#[verifier::allow_in_spec]
pub fn keyword(text: &'static str) -> Expr
    returns
        Expr::Keyword(text),
{
    Expr::Keyword(text)
}

/// One character of `set`.
#[verifier::allow_in_spec]
pub fn chr(set: CharSet) -> Expr
    returns
        Expr::Char(set),
{
    Expr::Char(set)
}

/// The rule `r`.
#[verifier::allow_in_spec]
pub fn rule(r: Rule) -> Expr
    returns
        Expr::Rule(r),
{
    Expr::Rule(r)
}

/// `a`, then `b`.
#[verifier::allow_in_spec]
pub fn seq2(a: Expr, b: Expr) -> Expr
    returns
        Expr::Cat(Box::new(a), Box::new(b)),
{
    Expr::Cat(Box::new(a), Box::new(b))
}

/// `a`, `b` and `c` in this order.
#[verifier::allow_in_spec]
pub fn seq3(a: Expr, b: Expr, c: Expr) -> Expr
    returns
        seq2(a, seq2(b, c)),
{
    seq2(a, seq2(b, c))
}

/// `a`, `b`, `c` and `d` in this order.
#[verifier::allow_in_spec]
pub fn seq4(a: Expr, b: Expr, c: Expr, d: Expr) -> Expr
    returns
        seq2(a, seq3(b, c, d)),
{
    seq2(a, seq3(b, c, d))
}

/// `a`, `b`, `c`, `d` and `e` in this order.
#[verifier::allow_in_spec]
pub fn seq5(a: Expr, b: Expr, c: Expr, d: Expr, e: Expr) -> Expr
    returns
        seq2(a, seq4(b, c, d, e)),
{
    seq2(a, seq4(b, c, d, e))
}

/// `a`, or else `b`.
#[verifier::allow_in_spec]
pub fn or2(a: Expr, b: Expr) -> Expr
    returns
        Expr::Or(Box::new(a), Box::new(b)),
{
    Expr::Or(Box::new(a), Box::new(b))
}

/// `a`, or else `b`, or else `c`.
#[verifier::allow_in_spec]
pub fn or3(a: Expr, b: Expr, c: Expr) -> Expr
    returns
        or2(a, or2(b, c)),
{
    or2(a, or2(b, c))
}

/// `a`, or else `b`, or else `c`, or else `d`.
#[verifier::allow_in_spec]
pub fn or4(a: Expr, b: Expr, c: Expr, d: Expr) -> Expr
    returns
        or2(a, or3(b, c, d)),
{
    or2(a, or3(b, c, d))
}

/// `a` or nothing.
#[verifier::allow_in_spec]
pub fn opt(a: Expr) -> Expr
    returns
        Expr::Opt(Box::new(a)),
{
    Expr::Opt(Box::new(a))
}

/// `a`, any number of times.
#[verifier::allow_in_spec]
pub fn many(a: Expr) -> Expr
    returns
        Expr::Many(Box::new(a)),
{
    Expr::Many(Box::new(a))
}

/// The body of a rule: the grammar.
#[verifier::allow_in_spec]
pub fn rule_body(r: Rule) -> Expr
    returns
        (match r {
            Rule::EOI => Expr::End,
            Rule::mojom_file => seq3(Expr::Start, many(rule(Rule::statement)), rule(Rule::EOI)),
            Rule::statement => or4(
                    rule(Rule::module_stmt),
                    rule(Rule::import_stmt),
                    rule(Rule::interface),
                    or4(
                        rule(Rule::struct_stmt),
                        rule(Rule::union_stmt),
                        rule(Rule::enum_stmt),
                        rule(Rule::const_stmt),
                    ),
                ),
            Rule::module_stmt => seq4(
                    opt(rule(Rule::attribute_section)),
                    rule(Rule::t_module),
                    rule(Rule::identifier),
                    rule(Rule::t_semicolon),
                ),
            Rule::import_stmt => seq4(
                    opt(rule(Rule::attribute_section)),
                    rule(Rule::t_import),
                    rule(Rule::string_literal),
                    rule(Rule::t_semicolon),
                ),
            Rule::interface => seq5(
                    opt(rule(Rule::attribute_section)),
                    rule(Rule::t_interface),
                    rule(Rule::name),
                    rule(Rule::t_lbrace),
                    seq3(
                        many(rule(Rule::interface_body)),
                        rule(Rule::t_rbrace),
                        rule(Rule::t_semicolon),
                    ),
                ),
            Rule::interface_body => or3(rule(Rule::const_stmt), rule(Rule::enum_stmt), rule(Rule::method_stmt)),
            Rule::method_stmt => seq5(
                    opt(rule(Rule::attribute_section)),
                    rule(Rule::name),
                    opt(rule(Rule::ordinal_value)),
                    rule(Rule::parameter_list),
                    seq2(opt(rule(Rule::response)), rule(Rule::t_semicolon)),
                ),
            Rule::parameter_list => seq3(
                    rule(Rule::t_lparen),
                    opt(
                        seq2(
                            rule(Rule::parameter),
                            many(seq2(rule(Rule::t_comma), rule(Rule::parameter))),
                        ),
                    ),
                    rule(Rule::t_rparen),
                ),
            Rule::parameter => seq3(
                    rule(Rule::type_spec),
                    rule(Rule::name),
                    opt(rule(Rule::ordinal_value)),
                ),
            Rule::response => seq2(rule(Rule::t_arrow), rule(Rule::parameter_list)),
            Rule::struct_stmt => seq5(
                    opt(rule(Rule::attribute_section)),
                    rule(Rule::t_struct),
                    rule(Rule::name),
                    opt(rule(Rule::struct_body)),
                    rule(Rule::t_semicolon),
                ),
            Rule::struct_body => seq3(
                    rule(Rule::t_lbrace),
                    many(rule(Rule::struct_item)),
                    rule(Rule::t_rbrace),
                ),
            Rule::struct_item => or3(rule(Rule::const_stmt), rule(Rule::enum_stmt), rule(Rule::struct_field)),
            Rule::struct_field => seq5(
                    opt(rule(Rule::attribute_section)),
                    rule(Rule::type_spec),
                    rule(Rule::name),
                    opt(rule(Rule::ordinal_value)),
                    seq2(opt(rule(Rule::default)), rule(Rule::t_semicolon)),
                ),
            Rule::default => seq2(rule(Rule::t_equal), rule(Rule::constant)),
            Rule::union_stmt => seq5(
                    opt(rule(Rule::attribute_section)),
                    rule(Rule::t_union),
                    rule(Rule::name),
                    rule(Rule::t_lbrace),
                    seq3(
                        many(rule(Rule::union_field)),
                        rule(Rule::t_rbrace),
                        rule(Rule::t_semicolon),
                    ),
                ),
            Rule::union_field => seq5(
                    opt(rule(Rule::attribute_section)),
                    rule(Rule::type_spec),
                    rule(Rule::name),
                    opt(rule(Rule::ordinal_value)),
                    rule(Rule::t_semicolon),
                ),
            Rule::enum_stmt => seq5(
                    opt(rule(Rule::attribute_section)),
                    keyword("enum"),
                    rule(Rule::name),
                    opt(rule(Rule::enum_block)),
                    rule(Rule::t_semicolon),
                ),
            Rule::enum_block => seq3(
                    rule(Rule::t_lbrace),
                    opt(
                        seq3(
                            rule(Rule::enum_value),
                            many(seq2(rule(Rule::t_comma), rule(Rule::enum_value))),
                            opt(rule(Rule::t_comma)),
                        ),
                    ),
                    rule(Rule::t_rbrace),
                ),
            Rule::enum_value => seq3(
                    opt(rule(Rule::attribute_section)),
                    rule(Rule::name),
                    opt(
                        seq2(
                            rule(Rule::t_equal),
                            or2(rule(Rule::integer), rule(Rule::identifier)),
                        ),
                    ),
                ),
            Rule::const_stmt => seq5(
                    opt(rule(Rule::attribute_section)),
                    rule(Rule::t_const),
                    rule(Rule::type_spec),
                    rule(Rule::name),
                    seq3(rule(Rule::t_equal), rule(Rule::constant), rule(Rule::t_semicolon)),
                ),
            Rule::constant => or2(rule(Rule::literal), rule(Rule::identifier)),
            Rule::literal => or4(
                    keyword("true"),
                    keyword("false"),
                    keyword("default"),
                    or2(rule(Rule::number), rule(Rule::string_literal)),
                ),
            Rule::number => or2(rule(Rule::float), rule(Rule::integer)),
            Rule::float => seq3(
                    opt(or2(word("+"), word("-"))),
                    seq2(chr(CharSet::Digit), many(chr(CharSet::Digit))),
                    or2(
                        seq3(
                            word("."),
                            seq2(chr(CharSet::Digit), many(chr(CharSet::Digit))),
                            opt(
                                seq3(
                                    or2(word("e"), word("E")),
                                    opt(or2(word("+"), word("-"))),
                                    seq2(chr(CharSet::Digit), many(chr(CharSet::Digit))),
                                ),
                            ),
                        ),
                        seq3(
                            or2(word("e"), word("E")),
                            opt(or2(word("+"), word("-"))),
                            seq2(chr(CharSet::Digit), many(chr(CharSet::Digit))),
                        ),
                    ),
                ),
            Rule::integer => seq2(
                    opt(or2(word("+"), word("-"))),
                    or2(
                        seq2(
                            or2(word("0x"), word("0X")),
                            seq2(chr(CharSet::HexDigit), many(chr(CharSet::HexDigit))),
                        ),
                        seq2(chr(CharSet::Digit), many(chr(CharSet::Digit))),
                    ),
                ),
            Rule::string_literal => seq3(
                    word("\""),
                    many(or2(seq2(word("\\"), chr(CharSet::Any)), chr(CharSet::StringChar))),
                    word("\""),
                ),
            Rule::attribute_section => seq3(
                    rule(Rule::t_lbracket),
                    opt(
                        seq2(
                            rule(Rule::attribute),
                            many(seq2(rule(Rule::t_comma), rule(Rule::attribute))),
                        ),
                    ),
                    rule(Rule::t_rbracket),
                ),
            Rule::attribute => seq2(
                    rule(Rule::name),
                    opt(
                        seq2(
                            rule(Rule::t_equal),
                            or2(rule(Rule::literal), rule(Rule::identifier)),
                        ),
                    ),
                ),
            Rule::type_spec => seq2(rule(Rule::typename), opt(rule(Rule::t_nullable))),
            Rule::typename => or4(
                    rule(Rule::array),
                    rule(Rule::map),
                    rule(Rule::interface_request),
                    rule(Rule::basic_typename),
                ),
            Rule::array => seq5(
                    rule(Rule::t_array),
                    rule(Rule::t_langlebracket),
                    rule(Rule::type_spec),
                    opt(seq2(rule(Rule::t_comma), rule(Rule::integer))),
                    rule(Rule::t_ranglebracket),
                ),
            Rule::map => seq5(
                    rule(Rule::t_map),
                    rule(Rule::t_langlebracket),
                    rule(Rule::identifier),
                    rule(Rule::t_comma),
                    seq2(rule(Rule::type_spec), rule(Rule::t_ranglebracket)),
                ),
            Rule::interface_request => seq2(rule(Rule::basic_typename), rule(Rule::t_amp)),
            Rule::basic_typename => or4(
                    rule(Rule::handle_type),
                    rule(Rule::pending_type),
                    rule(Rule::associated_type),
                    or2(rule(Rule::numeric_type), rule(Rule::identifier)),
                ),
            Rule::handle_type => or2(
                    seq4(
                        rule(Rule::t_handle),
                        rule(Rule::t_langlebracket),
                        rule(Rule::specific_handle_type),
                        rule(Rule::t_ranglebracket),
                    ),
                    rule(Rule::t_handle),
                ),
            Rule::specific_handle_type => or4(
                    keyword("message_pipe"),
                    keyword("shared_buffer"),
                    keyword("data_pipe_consumer"),
                    or2(keyword("data_pipe_producer"), keyword("platform")),
                ),
            Rule::pending_type => seq4(
                    or4(
                        keyword("pending_remote"),
                        keyword("pending_receiver"),
                        keyword("pending_associated_remote"),
                        keyword("pending_associated_receiver"),
                    ),
                    rule(Rule::t_langlebracket),
                    rule(Rule::identifier),
                    rule(Rule::t_ranglebracket),
                ),
            Rule::associated_type => seq2(rule(Rule::t_associated), rule(Rule::identifier)),
            Rule::numeric_type => or4(
                    keyword("bool"),
                    keyword("int8"),
                    keyword("uint8"),
                    or4(
                        keyword("int16"),
                        keyword("uint16"),
                        keyword("int32"),
                        or4(
                            keyword("uint32"),
                            keyword("int64"),
                            keyword("uint64"),
                            or2(keyword("float"), keyword("double")),
                        ),
                    ),
                ),
            Rule::ordinal_value => seq2(word("@"), seq2(chr(CharSet::Digit), many(chr(CharSet::Digit)))),
            Rule::identifier => seq2(rule(Rule::name), many(seq2(word("."), rule(Rule::name)))),
            Rule::name => seq2(chr(CharSet::NameStart), many(chr(CharSet::NamePart))),
            Rule::t_array => keyword("array"),
            Rule::t_associated => keyword("associated"),
            Rule::t_const => keyword("const"),
            Rule::t_handle => keyword("handle"),
            Rule::t_import => keyword("import"),
            Rule::t_interface => keyword("interface"),
            Rule::t_map => keyword("map"),
            Rule::t_module => keyword("module"),
            Rule::t_struct => keyword("struct"),
            Rule::t_union => keyword("union"),
            Rule::t_amp => word("&"),
            Rule::t_arrow => word("=>"),
            Rule::t_comma => word(","),
            Rule::t_equal => word("="),
            Rule::t_langlebracket => word("<"),
            Rule::t_lbrace => word("{"),
            Rule::t_lbracket => word("["),
            Rule::t_lparen => word("("),
            Rule::t_nullable => word("?"),
            Rule::t_ranglebracket => word(">"),
            Rule::t_rbrace => word("}"),
            Rule::t_rbracket => word("]"),
            Rule::t_rparen => word(")"),
            Rule::t_semicolon => word(";"),
        }),
{
    match r {
        Rule::EOI => Expr::End,
        Rule::mojom_file => seq3(Expr::Start, many(rule(Rule::statement)), rule(Rule::EOI)),
        Rule::statement => or4(
                rule(Rule::module_stmt),
                rule(Rule::import_stmt),
                rule(Rule::interface),
                or4(
                    rule(Rule::struct_stmt),
                    rule(Rule::union_stmt),
                    rule(Rule::enum_stmt),
                    rule(Rule::const_stmt),
                ),
            ),
        Rule::module_stmt => seq4(
                opt(rule(Rule::attribute_section)),
                rule(Rule::t_module),
                rule(Rule::identifier),
                rule(Rule::t_semicolon),
            ),
        Rule::import_stmt => seq4(
                opt(rule(Rule::attribute_section)),
                rule(Rule::t_import),
                rule(Rule::string_literal),
                rule(Rule::t_semicolon),
            ),
        Rule::interface => seq5(
                opt(rule(Rule::attribute_section)),
                rule(Rule::t_interface),
                rule(Rule::name),
                rule(Rule::t_lbrace),
                seq3(
                    many(rule(Rule::interface_body)),
                    rule(Rule::t_rbrace),
                    rule(Rule::t_semicolon),
                ),
            ),
        Rule::interface_body => or3(rule(Rule::const_stmt), rule(Rule::enum_stmt), rule(Rule::method_stmt)),
        Rule::method_stmt => seq5(
                opt(rule(Rule::attribute_section)),
                rule(Rule::name),
                opt(rule(Rule::ordinal_value)),
                rule(Rule::parameter_list),
                seq2(opt(rule(Rule::response)), rule(Rule::t_semicolon)),
            ),
        Rule::parameter_list => seq3(
                rule(Rule::t_lparen),
                opt(
                    seq2(
                        rule(Rule::parameter),
                        many(seq2(rule(Rule::t_comma), rule(Rule::parameter))),
                    ),
                ),
                rule(Rule::t_rparen),
            ),
        Rule::parameter => seq3(rule(Rule::type_spec), rule(Rule::name), opt(rule(Rule::ordinal_value))),
        Rule::response => seq2(rule(Rule::t_arrow), rule(Rule::parameter_list)),
        Rule::struct_stmt => seq5(
                opt(rule(Rule::attribute_section)),
                rule(Rule::t_struct),
                rule(Rule::name),
                opt(rule(Rule::struct_body)),
                rule(Rule::t_semicolon),
            ),
        Rule::struct_body => seq3(rule(Rule::t_lbrace), many(rule(Rule::struct_item)), rule(Rule::t_rbrace)),
        Rule::struct_item => or3(rule(Rule::const_stmt), rule(Rule::enum_stmt), rule(Rule::struct_field)),
        Rule::struct_field => seq5(
                opt(rule(Rule::attribute_section)),
                rule(Rule::type_spec),
                rule(Rule::name),
                opt(rule(Rule::ordinal_value)),
                seq2(opt(rule(Rule::default)), rule(Rule::t_semicolon)),
            ),
        Rule::default => seq2(rule(Rule::t_equal), rule(Rule::constant)),
        Rule::union_stmt => seq5(
                opt(rule(Rule::attribute_section)),
                rule(Rule::t_union),
                rule(Rule::name),
                rule(Rule::t_lbrace),
                seq3(
                    many(rule(Rule::union_field)),
                    rule(Rule::t_rbrace),
                    rule(Rule::t_semicolon),
                ),
            ),
        Rule::union_field => seq5(
                opt(rule(Rule::attribute_section)),
                rule(Rule::type_spec),
                rule(Rule::name),
                opt(rule(Rule::ordinal_value)),
                rule(Rule::t_semicolon),
            ),
        Rule::enum_stmt => seq5(
                opt(rule(Rule::attribute_section)),
                keyword("enum"),
                rule(Rule::name),
                opt(rule(Rule::enum_block)),
                rule(Rule::t_semicolon),
            ),
        Rule::enum_block => seq3(
                rule(Rule::t_lbrace),
                opt(
                    seq3(
                        rule(Rule::enum_value),
                        many(seq2(rule(Rule::t_comma), rule(Rule::enum_value))),
                        opt(rule(Rule::t_comma)),
                    ),
                ),
                rule(Rule::t_rbrace),
            ),
        Rule::enum_value => seq3(
                opt(rule(Rule::attribute_section)),
                rule(Rule::name),
                opt(
                    seq2(
                        rule(Rule::t_equal),
                        or2(rule(Rule::integer), rule(Rule::identifier)),
                    ),
                ),
            ),
        Rule::const_stmt => seq5(
                opt(rule(Rule::attribute_section)),
                rule(Rule::t_const),
                rule(Rule::type_spec),
                rule(Rule::name),
                seq3(rule(Rule::t_equal), rule(Rule::constant), rule(Rule::t_semicolon)),
            ),
        Rule::constant => or2(rule(Rule::literal), rule(Rule::identifier)),
        Rule::literal => or4(
                keyword("true"),
                keyword("false"),
                keyword("default"),
                or2(rule(Rule::number), rule(Rule::string_literal)),
            ),
        Rule::number => or2(rule(Rule::float), rule(Rule::integer)),
        Rule::float => seq3(
                opt(or2(word("+"), word("-"))),
                seq2(chr(CharSet::Digit), many(chr(CharSet::Digit))),
                or2(
                    seq3(
                        word("."),
                        seq2(chr(CharSet::Digit), many(chr(CharSet::Digit))),
                        opt(
                            seq3(
                                or2(word("e"), word("E")),
                                opt(or2(word("+"), word("-"))),
                                seq2(chr(CharSet::Digit), many(chr(CharSet::Digit))),
                            ),
                        ),
                    ),
                    seq3(
                        or2(word("e"), word("E")),
                        opt(or2(word("+"), word("-"))),
                        seq2(chr(CharSet::Digit), many(chr(CharSet::Digit))),
                    ),
                ),
            ),
        Rule::integer => seq2(
                opt(or2(word("+"), word("-"))),
                or2(
                    seq2(
                        or2(word("0x"), word("0X")),
                        seq2(chr(CharSet::HexDigit), many(chr(CharSet::HexDigit))),
                    ),
                    seq2(chr(CharSet::Digit), many(chr(CharSet::Digit))),
                ),
            ),
        Rule::string_literal => seq3(
                word("\""),
                many(or2(seq2(word("\\"), chr(CharSet::Any)), chr(CharSet::StringChar))),
                word("\""),
            ),
        Rule::attribute_section => seq3(
                rule(Rule::t_lbracket),
                opt(
                    seq2(
                        rule(Rule::attribute),
                        many(seq2(rule(Rule::t_comma), rule(Rule::attribute))),
                    ),
                ),
                rule(Rule::t_rbracket),
            ),
        Rule::attribute => seq2(
                rule(Rule::name),
                opt(
                    seq2(
                        rule(Rule::t_equal),
                        or2(rule(Rule::literal), rule(Rule::identifier)),
                    ),
                ),
            ),
        Rule::type_spec => seq2(rule(Rule::typename), opt(rule(Rule::t_nullable))),
        Rule::typename => or4(
                rule(Rule::array),
                rule(Rule::map),
                rule(Rule::interface_request),
                rule(Rule::basic_typename),
            ),
        Rule::array => seq5(
                rule(Rule::t_array),
                rule(Rule::t_langlebracket),
                rule(Rule::type_spec),
                opt(seq2(rule(Rule::t_comma), rule(Rule::integer))),
                rule(Rule::t_ranglebracket),
            ),
        Rule::map => seq5(
                rule(Rule::t_map),
                rule(Rule::t_langlebracket),
                rule(Rule::identifier),
                rule(Rule::t_comma),
                seq2(rule(Rule::type_spec), rule(Rule::t_ranglebracket)),
            ),
        Rule::interface_request => seq2(rule(Rule::basic_typename), rule(Rule::t_amp)),
        Rule::basic_typename => or4(
                rule(Rule::handle_type),
                rule(Rule::pending_type),
                rule(Rule::associated_type),
                or2(rule(Rule::numeric_type), rule(Rule::identifier)),
            ),
        Rule::handle_type => or2(
                seq4(
                    rule(Rule::t_handle),
                    rule(Rule::t_langlebracket),
                    rule(Rule::specific_handle_type),
                    rule(Rule::t_ranglebracket),
                ),
                rule(Rule::t_handle),
            ),
        Rule::specific_handle_type => or4(
                keyword("message_pipe"),
                keyword("shared_buffer"),
                keyword("data_pipe_consumer"),
                or2(keyword("data_pipe_producer"), keyword("platform")),
            ),
        Rule::pending_type => seq4(
                or4(
                    keyword("pending_remote"),
                    keyword("pending_receiver"),
                    keyword("pending_associated_remote"),
                    keyword("pending_associated_receiver"),
                ),
                rule(Rule::t_langlebracket),
                rule(Rule::identifier),
                rule(Rule::t_ranglebracket),
            ),
        Rule::associated_type => seq2(rule(Rule::t_associated), rule(Rule::identifier)),
        Rule::numeric_type => or4(
                keyword("bool"),
                keyword("int8"),
                keyword("uint8"),
                or4(
                    keyword("int16"),
                    keyword("uint16"),
                    keyword("int32"),
                    or4(
                        keyword("uint32"),
                        keyword("int64"),
                        keyword("uint64"),
                        or2(keyword("float"), keyword("double")),
                    ),
                ),
            ),
        Rule::ordinal_value => seq2(word("@"), seq2(chr(CharSet::Digit), many(chr(CharSet::Digit)))),
        Rule::identifier => seq2(rule(Rule::name), many(seq2(word("."), rule(Rule::name)))),
        Rule::name => seq2(chr(CharSet::NameStart), many(chr(CharSet::NamePart))),
        Rule::t_array => keyword("array"),
        Rule::t_associated => keyword("associated"),
        Rule::t_const => keyword("const"),
        Rule::t_handle => keyword("handle"),
        Rule::t_import => keyword("import"),
        Rule::t_interface => keyword("interface"),
        Rule::t_map => keyword("map"),
        Rule::t_module => keyword("module"),
        Rule::t_struct => keyword("struct"),
        Rule::t_union => keyword("union"),
        Rule::t_amp => word("&"),
        Rule::t_arrow => word("=>"),
        Rule::t_comma => word(","),
        Rule::t_equal => word("="),
        Rule::t_langlebracket => word("<"),
        Rule::t_lbrace => word("{"),
        Rule::t_lbracket => word("["),
        Rule::t_lparen => word("("),
        Rule::t_nullable => word("?"),
        Rule::t_ranglebracket => word(">"),
        Rule::t_rbrace => word("}"),
        Rule::t_rbracket => word("]"),
        Rule::t_rparen => word(")"),
        Rule::t_semicolon => word(";"),
    }
}

/// A bound above the rank of every rule.
pub const TOP_RANK: usize = 8;

/// The rank of a rule.
///
/// A rule that the body of another can reach before it consumes any input has a
/// lower rank than that other rule, so that no rule can come back to itself
/// without having consumed something.
#[verifier::allow_in_spec]
pub fn rank(r: Rule) -> usize
    returns
        (match r {
            Rule::struct_item => 7usize,
            Rule::parameter | Rule::struct_field | Rule::union_field => 6usize,
            Rule::type_spec => 5usize,
            Rule::mojom_file | Rule::typename => 4usize,
            Rule::statement | Rule::interface_body | Rule::constant | Rule::interface_request => 3usize,
            Rule::module_stmt | Rule::import_stmt | Rule::interface | Rule::method_stmt
            | Rule::struct_stmt | Rule::union_stmt | Rule::enum_stmt | Rule::enum_value
            | Rule::const_stmt | Rule::literal | Rule::basic_typename => 2usize,
            Rule::parameter_list | Rule::response | Rule::struct_body | Rule::default
            | Rule::enum_block | Rule::number | Rule::attribute_section | Rule::attribute
            | Rule::array | Rule::map | Rule::handle_type | Rule::associated_type
            | Rule::identifier => 1usize,
            _ => 0usize,
        }),
{
    match r {
        Rule::struct_item => 7usize,
        Rule::parameter | Rule::struct_field | Rule::union_field => 6usize,
        Rule::type_spec => 5usize,
        Rule::mojom_file | Rule::typename => 4usize,
        Rule::statement | Rule::interface_body | Rule::constant | Rule::interface_request => 3usize,
        Rule::module_stmt | Rule::import_stmt | Rule::interface | Rule::method_stmt
        | Rule::struct_stmt | Rule::union_stmt | Rule::enum_stmt | Rule::enum_value
        | Rule::const_stmt | Rule::literal | Rule::basic_typename => 2usize,
        Rule::parameter_list | Rule::response | Rule::struct_body | Rule::default
        | Rule::enum_block | Rule::number | Rule::attribute_section | Rule::attribute
        | Rule::array | Rule::map | Rule::handle_type | Rule::associated_type
        | Rule::identifier => 1usize,
        _ => 0usize,
    }
}

/// Whether a rule is atomic: no white space and no comment may stand between the
/// parts of its match, and the rules inside it leave no trace in the result.
#[verifier::allow_in_spec]
pub fn is_atomic(r: Rule) -> bool
    returns
        (match r {
            Rule::specific_handle_type | Rule::numeric_type | Rule::ordinal_value
            | Rule::identifier | Rule::name | Rule::float | Rule::integer
            | Rule::string_literal | Rule::t_array | Rule::t_associated | Rule::t_const
            | Rule::t_handle | Rule::t_import | Rule::t_interface | Rule::t_map
            | Rule::t_module | Rule::t_struct | Rule::t_union | Rule::t_amp | Rule::t_arrow
            | Rule::t_comma | Rule::t_equal | Rule::t_langlebracket | Rule::t_lbrace
            | Rule::t_lbracket | Rule::t_lparen | Rule::t_nullable | Rule::t_ranglebracket
            | Rule::t_rbrace | Rule::t_rbracket | Rule::t_rparen | Rule::t_semicolon => true,
            _ => false,
        }),
{
    match r {
        Rule::specific_handle_type | Rule::numeric_type | Rule::ordinal_value
        | Rule::identifier | Rule::name | Rule::float | Rule::integer | Rule::string_literal
        | Rule::t_array | Rule::t_associated | Rule::t_const | Rule::t_handle | Rule::t_import
        | Rule::t_interface | Rule::t_map | Rule::t_module | Rule::t_struct | Rule::t_union
        | Rule::t_amp | Rule::t_arrow | Rule::t_comma | Rule::t_equal | Rule::t_langlebracket
        | Rule::t_lbrace | Rule::t_lbracket | Rule::t_lparen | Rule::t_nullable
        | Rule::t_ranglebracket | Rule::t_rbrace | Rule::t_rbracket | Rule::t_rparen
        | Rule::t_semicolon => true,
        _ => false,
    }
}

/// How a rule is called in the message of a syntax error.
#[verifier::allow_in_spec]
pub fn label(r: Rule) -> &'static str
    returns
        (match r {
            Rule::EOI => "'End of File'",
            Rule::mojom_file => "statement",
            Rule::statement => "statement",
            Rule::module_stmt => "module_stmt",
            Rule::import_stmt => "import_stmt",
            Rule::interface => "interface",
            Rule::interface_body => "interface_body",
            Rule::method_stmt => "method_stmt",
            Rule::parameter_list => "parameter_list",
            Rule::parameter => "parameter",
            Rule::response => "response",
            Rule::struct_stmt => "struct_stmt",
            Rule::struct_body => "struct_body",
            Rule::struct_item => "struct_item",
            Rule::struct_field => "struct_field",
            Rule::default => "default",
            Rule::union_stmt => "union_stmt",
            Rule::union_field => "union_field",
            Rule::enum_stmt => "enum_stmt",
            Rule::enum_block => "enum_block",
            Rule::enum_value => "enum_value",
            Rule::const_stmt => "const_stmt",
            Rule::constant => "constant",
            Rule::literal => "literal",
            Rule::number => "number",
            Rule::float => "float",
            Rule::integer => "integer",
            Rule::string_literal => "string_literal",
            Rule::attribute_section => "attribute_section",
            Rule::attribute => "attribute",
            Rule::type_spec => "type_spec",
            Rule::typename => "typename",
            Rule::array => "array",
            Rule::map => "map",
            Rule::interface_request => "interface_request",
            Rule::basic_typename => "basic_typename",
            Rule::handle_type => "handle_type",
            Rule::specific_handle_type => "specific_handle_type",
            Rule::pending_type => "pending_type",
            Rule::associated_type => "associated_type",
            Rule::numeric_type => "numeric_type",
            Rule::ordinal_value => "ordinal_value",
            Rule::identifier => "identifier",
            Rule::name => "name",
            Rule::t_array => "array",
            Rule::t_associated => "associated",
            Rule::t_const => "const",
            Rule::t_handle => "handle",
            Rule::t_import => "import",
            Rule::t_interface => "interface",
            Rule::t_map => "map",
            Rule::t_module => "module",
            Rule::t_struct => "struct",
            Rule::t_union => "union",
            Rule::t_amp => "'&'",
            Rule::t_arrow => "'=>'",
            Rule::t_comma => "','",
            Rule::t_equal => "'='",
            Rule::t_langlebracket => "'<'",
            Rule::t_lbrace => "'{'",
            Rule::t_lbracket => "'['",
            Rule::t_lparen => "'('",
            Rule::t_nullable => "'?'",
            Rule::t_ranglebracket => "'>'",
            Rule::t_rbrace => "'}'",
            Rule::t_rbracket => "']'",
            Rule::t_rparen => "')'",
            Rule::t_semicolon => "';'",
        }),
{
    match r {
        Rule::EOI => "'End of File'",
        Rule::mojom_file => "statement",
        Rule::statement => "statement",
        Rule::module_stmt => "module_stmt",
        Rule::import_stmt => "import_stmt",
        Rule::interface => "interface",
        Rule::interface_body => "interface_body",
        Rule::method_stmt => "method_stmt",
        Rule::parameter_list => "parameter_list",
        Rule::parameter => "parameter",
        Rule::response => "response",
        Rule::struct_stmt => "struct_stmt",
        Rule::struct_body => "struct_body",
        Rule::struct_item => "struct_item",
        Rule::struct_field => "struct_field",
        Rule::default => "default",
        Rule::union_stmt => "union_stmt",
        Rule::union_field => "union_field",
        Rule::enum_stmt => "enum_stmt",
        Rule::enum_block => "enum_block",
        Rule::enum_value => "enum_value",
        Rule::const_stmt => "const_stmt",
        Rule::constant => "constant",
        Rule::literal => "literal",
        Rule::number => "number",
        Rule::float => "float",
        Rule::integer => "integer",
        Rule::string_literal => "string_literal",
        Rule::attribute_section => "attribute_section",
        Rule::attribute => "attribute",
        Rule::type_spec => "type_spec",
        Rule::typename => "typename",
        Rule::array => "array",
        Rule::map => "map",
        Rule::interface_request => "interface_request",
        Rule::basic_typename => "basic_typename",
        Rule::handle_type => "handle_type",
        Rule::specific_handle_type => "specific_handle_type",
        Rule::pending_type => "pending_type",
        Rule::associated_type => "associated_type",
        Rule::numeric_type => "numeric_type",
        Rule::ordinal_value => "ordinal_value",
        Rule::identifier => "identifier",
        Rule::name => "name",
        Rule::t_array => "array",
        Rule::t_associated => "associated",
        Rule::t_const => "const",
        Rule::t_handle => "handle",
        Rule::t_import => "import",
        Rule::t_interface => "interface",
        Rule::t_map => "map",
        Rule::t_module => "module",
        Rule::t_struct => "struct",
        Rule::t_union => "union",
        Rule::t_amp => "'&'",
        Rule::t_arrow => "'=>'",
        Rule::t_comma => "','",
        Rule::t_equal => "'='",
        Rule::t_langlebracket => "'<'",
        Rule::t_lbrace => "'{'",
        Rule::t_lbracket => "'['",
        Rule::t_lparen => "'('",
        Rule::t_nullable => "'?'",
        Rule::t_ranglebracket => "'>'",
        Rule::t_rbrace => "'}'",
        Rule::t_rbracket => "']'",
        Rule::t_rparen => "')'",
        Rule::t_semicolon => "';'",
    }
}

/// The place of a rule in the order in which [`Rule`] lists them.
#[verifier::allow_in_spec]
pub fn rule_index(r: Rule) -> usize
    returns
        (match r {
            Rule::EOI => 0usize,
            Rule::mojom_file => 1usize,
            Rule::statement => 2usize,
            Rule::module_stmt => 3usize,
            Rule::import_stmt => 4usize,
            Rule::interface => 5usize,
            Rule::interface_body => 6usize,
            Rule::method_stmt => 7usize,
            Rule::parameter_list => 8usize,
            Rule::parameter => 9usize,
            Rule::response => 10usize,
            Rule::struct_stmt => 11usize,
            Rule::struct_body => 12usize,
            Rule::struct_item => 13usize,
            Rule::struct_field => 14usize,
            Rule::default => 15usize,
            Rule::union_stmt => 16usize,
            Rule::union_field => 17usize,
            Rule::enum_stmt => 18usize,
            Rule::enum_block => 19usize,
            Rule::enum_value => 20usize,
            Rule::const_stmt => 21usize,
            Rule::constant => 22usize,
            Rule::literal => 23usize,
            Rule::number => 24usize,
            Rule::float => 25usize,
            Rule::integer => 26usize,
            Rule::string_literal => 27usize,
            Rule::attribute_section => 28usize,
            Rule::attribute => 29usize,
            Rule::type_spec => 30usize,
            Rule::typename => 31usize,
            Rule::array => 32usize,
            Rule::map => 33usize,
            Rule::interface_request => 34usize,
            Rule::basic_typename => 35usize,
            Rule::handle_type => 36usize,
            Rule::specific_handle_type => 37usize,
            Rule::pending_type => 38usize,
            Rule::associated_type => 39usize,
            Rule::numeric_type => 40usize,
            Rule::ordinal_value => 41usize,
            Rule::identifier => 42usize,
            Rule::name => 43usize,
            Rule::t_array => 44usize,
            Rule::t_associated => 45usize,
            Rule::t_const => 46usize,
            Rule::t_handle => 47usize,
            Rule::t_import => 48usize,
            Rule::t_interface => 49usize,
            Rule::t_map => 50usize,
            Rule::t_module => 51usize,
            Rule::t_struct => 52usize,
            Rule::t_union => 53usize,
            Rule::t_amp => 54usize,
            Rule::t_arrow => 55usize,
            Rule::t_comma => 56usize,
            Rule::t_equal => 57usize,
            Rule::t_langlebracket => 58usize,
            Rule::t_lbrace => 59usize,
            Rule::t_lbracket => 60usize,
            Rule::t_lparen => 61usize,
            Rule::t_nullable => 62usize,
            Rule::t_ranglebracket => 63usize,
            Rule::t_rbrace => 64usize,
            Rule::t_rbracket => 65usize,
            Rule::t_rparen => 66usize,
            Rule::t_semicolon => 67usize,
        }),
{
    match r {
        Rule::EOI => 0usize,
        Rule::mojom_file => 1usize,
        Rule::statement => 2usize,
        Rule::module_stmt => 3usize,
        Rule::import_stmt => 4usize,
        Rule::interface => 5usize,
        Rule::interface_body => 6usize,
        Rule::method_stmt => 7usize,
        Rule::parameter_list => 8usize,
        Rule::parameter => 9usize,
        Rule::response => 10usize,
        Rule::struct_stmt => 11usize,
        Rule::struct_body => 12usize,
        Rule::struct_item => 13usize,
        Rule::struct_field => 14usize,
        Rule::default => 15usize,
        Rule::union_stmt => 16usize,
        Rule::union_field => 17usize,
        Rule::enum_stmt => 18usize,
        Rule::enum_block => 19usize,
        Rule::enum_value => 20usize,
        Rule::const_stmt => 21usize,
        Rule::constant => 22usize,
        Rule::literal => 23usize,
        Rule::number => 24usize,
        Rule::float => 25usize,
        Rule::integer => 26usize,
        Rule::string_literal => 27usize,
        Rule::attribute_section => 28usize,
        Rule::attribute => 29usize,
        Rule::type_spec => 30usize,
        Rule::typename => 31usize,
        Rule::array => 32usize,
        Rule::map => 33usize,
        Rule::interface_request => 34usize,
        Rule::basic_typename => 35usize,
        Rule::handle_type => 36usize,
        Rule::specific_handle_type => 37usize,
        Rule::pending_type => 38usize,
        Rule::associated_type => 39usize,
        Rule::numeric_type => 40usize,
        Rule::ordinal_value => 41usize,
        Rule::identifier => 42usize,
        Rule::name => 43usize,
        Rule::t_array => 44usize,
        Rule::t_associated => 45usize,
        Rule::t_const => 46usize,
        Rule::t_handle => 47usize,
        Rule::t_import => 48usize,
        Rule::t_interface => 49usize,
        Rule::t_map => 50usize,
        Rule::t_module => 51usize,
        Rule::t_struct => 52usize,
        Rule::t_union => 53usize,
        Rule::t_amp => 54usize,
        Rule::t_arrow => 55usize,
        Rule::t_comma => 56usize,
        Rule::t_equal => 57usize,
        Rule::t_langlebracket => 58usize,
        Rule::t_lbrace => 59usize,
        Rule::t_lbracket => 60usize,
        Rule::t_lparen => 61usize,
        Rule::t_nullable => 62usize,
        Rule::t_ranglebracket => 63usize,
        Rule::t_rbrace => 64usize,
        Rule::t_rbracket => 65usize,
        Rule::t_rparen => 66usize,
        Rule::t_semicolon => 67usize,
    }
}

} // verus!
