use mojom_lsp::grammar::Rule;
use mojom_lsp::parser::MojomParser;
use mojom_lsp::syntax::{
    into_const, into_enum, into_import, into_interface, into_method, into_module, into_struct,
    into_union, parse, InterfaceMember, Range, Statement, StructBody,
};

fn partial_text<'t>(text: &'t str, range: &Range) -> &'t str {
    &text[range.start..range.end]
}

#[test]
fn test_comment() {
    let input = "/* block comment */";
    let parsed = MojomParser::parse(Rule::mojom_file, &input);
    assert!(parsed.is_ok());

    let input = "// line comment";
    let parsed = MojomParser::parse(Rule::mojom_file, &input);
    assert!(parsed.is_ok());
}

fn parse_part(r: Rule, i: &str) -> &str {
    MojomParser::parse(r, i).unwrap().as_str(i)
}

#[test]
fn test_integer() {
    assert_eq!("0", parse_part(Rule::integer, "0"));
    assert_eq!("123", parse_part(Rule::integer, "123"));
    assert_eq!("-42", parse_part(Rule::integer, "-42"));
    assert_eq!("0xdeadbeef", parse_part(Rule::integer, "0xdeadbeef"));
    assert_eq!("+0X1AB4", parse_part(Rule::integer, "+0X1AB4"));
}

#[test]
fn test_float() {
    assert_eq!("0.0", parse_part(Rule::float, "0.0"));
    assert_eq!("1.0", parse_part(Rule::float, "1.0"));
    assert_eq!("3.141", parse_part(Rule::float, "3.141"));
    assert_eq!("+0.123", parse_part(Rule::float, "+0.123"));
    assert_eq!("-5.67", parse_part(Rule::float, "-5.67"));
    assert_eq!("4e5", parse_part(Rule::float, "4e5"));
    assert_eq!("-7e+15", parse_part(Rule::float, "-7e+15"));
    assert_eq!("+9e-2", parse_part(Rule::float, "+9e-2"));
}

#[test]
fn test_number() {
    assert_eq!("0", parse_part(Rule::number, "0"));
    assert_eq!("123", parse_part(Rule::number, "123"));
    assert_eq!("-42", parse_part(Rule::number, "-42"));
    assert_eq!("0xdeadbeef", parse_part(Rule::number, "0xdeadbeef"));
    assert_eq!("+0X1AB4", parse_part(Rule::number, "+0X1AB4"));

    assert_eq!("0.0", parse_part(Rule::number, "0.0"));
    assert_eq!("1.0", parse_part(Rule::number, "1.0"));
    assert_eq!("3.141", parse_part(Rule::number, "3.141"));
    assert_eq!("+0.123", parse_part(Rule::number, "+0.123"));
    assert_eq!("-5.67", parse_part(Rule::number, "-5.67"));
    assert_eq!("4e5", parse_part(Rule::number, "4e5"));
    assert_eq!("-7e+15", parse_part(Rule::number, "-7e+15"));
    assert_eq!("+9e-2", parse_part(Rule::number, "+9e-2"));
}

#[test]
fn test_string_literal() {
    assert_eq!(r#""hello""#, parse_part(Rule::string_literal, r#""hello""#));
    assert_eq!(
        r#""hell\"o""#,
        parse_part(Rule::string_literal, r#""hell\"o""#)
    );
}

#[test]
fn test_literal() {
    assert_eq!("true", parse_part(Rule::literal, "true"));
    assert_eq!("false", parse_part(Rule::literal, "false"));
    assert_eq!("default", parse_part(Rule::literal, "default"));
    assert_eq!("0x12ab", parse_part(Rule::literal, "0x12ab"));
    assert_eq!(
        r#""string literal \"with\" quote""#,
        parse_part(Rule::literal, r#""string literal \"with\" quote""#)
    );
}

#[test]
fn test_attribute() {
    assert_eq!("[]", parse_part(Rule::attribute_section, "[]"));
    assert_eq!(
        "[Attr1, Attr2=NameVal, Attr3=123]",
        parse_part(Rule::attribute_section, "[Attr1, Attr2=NameVal, Attr3=123]")
    );
    assert_eq!(
        "[Attr=foo.bar.baz]",
        parse_part(Rule::attribute_section, "[Attr=foo.bar.baz]")
    );
}

#[test]
fn test_types() {
    fn parse_type(tok: &str) {
        assert_eq!(tok, parse_part(Rule::type_spec, tok));
    }

    parse_type("bool");
    parse_type("int8");
    parse_type("uint8");
    parse_type("int16");
    parse_type("uint16");
    parse_type("int32");
    parse_type("uint32");
    parse_type("int64");
    parse_type("uint64");
    parse_type("float");
    parse_type("double");
    parse_type("handle");
    parse_type("handle<message_pipe>");
    parse_type("pending_receiver<MyInterface>");
    parse_type("pending_remote<mymodule.MyInterface>");
    parse_type("pending_associated_remote<FooInterface>?");
    parse_type("pending_associated_receiver<FooInterface>");
    parse_type("handle<message_pipe>");
    parse_type("string");
    parse_type("array<uint8>");
    parse_type("array<uint8, 16>");
    parse_type("map<int32, MyInterface>");
    parse_type("MyInterface");
    parse_type("MyInerface&");
    parse_type("associated MyInterface");
    parse_type("associated MyInterface&");
    parse_type("bool?");
}

#[test]
fn test_module_stmt() {
    let input = "module my.mod;";
    let parsed = MojomParser::parse(Rule::module_stmt, &input)
        .ok()
        .unwrap()
        .next()
        .unwrap();
    let stmt = into_module(parsed);
    assert_eq!(stmt.range, Range { start: 0, end: 14 });
    assert_eq!("my.mod", partial_text(&input, &stmt.name));
}

#[test]
fn test_import_stmt() {
    let input = r#"import "my.mod";"#;
    let parsed = MojomParser::parse(Rule::import_stmt, &input)
        .ok()
        .unwrap()
        .next()
        .unwrap();
    let stmt = into_import(parsed);
    assert_eq!(stmt.range, Range { start: 0, end: 16 });
    assert_eq!(r#""my.mod""#, partial_text(&input, &stmt.path));

    let input = r#"[Attr] import "my.mod";"#;
    let parsed = MojomParser::parse(Rule::import_stmt, &input)
        .ok()
        .unwrap()
        .next()
        .unwrap();
    let stmt = into_import(parsed);
    assert_eq!(stmt.range, Range { start: 0, end: 23 });
    assert_eq!(r#""my.mod""#, partial_text(&input, &stmt.path));
}

#[test]
fn test_const_stmt() {
    let input = "const uint32 kTheAnswer = 42;";
    let parsed = MojomParser::parse(Rule::const_stmt, &input)
        .ok()
        .unwrap()
        .next()
        .unwrap();
    let stmt = into_const(parsed);
    assert_eq!(stmt.range, Range { start: 0, end: 29 });
    assert_eq!("uint32", partial_text(&input, &stmt.typ));
    assert_eq!("kTheAnswer", partial_text(&input, &stmt.name));
    assert_eq!("42", partial_text(&input, &stmt.value));
}

#[test]
fn test_enum_stmt() {
    let input = "enum MyEnum { kOne, kTwo=2, kThree=IdentValue, };";
    let parsed = MojomParser::parse(Rule::enum_stmt, &input)
        .ok()
        .unwrap()
        .next()
        .unwrap();
    let stmt = into_enum(parsed);
    assert_eq!(stmt.range, Range { start: 0, end: 49 });
    assert_eq!("MyEnum", partial_text(&input, &stmt.name));
    let values = &stmt.values;
    assert_eq!(3, values.len());
    assert_eq!("kOne", partial_text(&input, &values[0].name));
    assert_eq!("kTwo", partial_text(&input, &values[1].name));
    assert_eq!("2", partial_text(&input, values[1].value.as_ref().unwrap()));
    assert_eq!("kThree", partial_text(&input, &values[2].name));
    assert_eq!(
        "IdentValue",
        partial_text(&input, values[2].value.as_ref().unwrap())
    );

    let input = "enum MyEnum {};";
    let parsed = MojomParser::parse(Rule::enum_stmt, &input)
        .ok()
        .unwrap()
        .next()
        .unwrap();
    let stmt = into_enum(parsed);
    assert_eq!(stmt.range, Range { start: 0, end: 15 });
    assert_eq!("MyEnum", partial_text(&input, &stmt.name));
    assert_eq!(0, stmt.values.len());

    let input = "[Native] enum MyEnum;";
    let parsed = MojomParser::parse(Rule::enum_stmt, &input)
        .ok()
        .unwrap()
        .next()
        .unwrap();
    let stmt = into_enum(parsed);
    assert_eq!(stmt.range, Range { start: 0, end: 21 });
    assert_eq!("MyEnum", partial_text(&input, &stmt.name));
    assert_eq!(0, stmt.values.len());
}

#[test]
fn test_method_stmt() {
    let input = "MyMethod(string str_arg, int8 int8_arg) => (uint32 result);";
    let parsed = MojomParser::parse(Rule::method_stmt, &input)
        .ok()
        .unwrap()
        .next()
        .unwrap();
    let stmt = into_method(parsed);
    assert_eq!(stmt.range, Range { start: 0, end: 59 });
    assert_eq!("MyMethod", partial_text(&input, &stmt.name));
    let params = &stmt.params;
    assert_eq!(2, params.len());
    assert_eq!("string", partial_text(&input, &params[0].typ));
    assert_eq!("str_arg", partial_text(&input, &params[0].name));
    assert_eq!("int8", partial_text(&input, &params[1].typ));
    assert_eq!("int8_arg", partial_text(&input, &params[1].name));
    let response = stmt.response.as_ref().unwrap();
    assert_eq!(1, response.params.len());
    assert_eq!("uint32", partial_text(&input, &response.params[0].typ));
    assert_eq!("result", partial_text(&input, &response.params[0].name));

    let input = "MyMethod2();";
    let parsed = MojomParser::parse(Rule::method_stmt, &input)
        .ok()
        .unwrap()
        .next()
        .unwrap();
    let stmt = into_method(parsed);
    assert_eq!(stmt.range, Range { start: 0, end: 12 });
    assert_eq!("MyMethod2", partial_text(&input, &stmt.name));
    assert_eq!(0, stmt.params.len());
    assert!(stmt.response.is_none());

    let input = "MyMethod3(int8 default_int8_arg) => ();";
    let parsed = MojomParser::parse(Rule::method_stmt, &input)
        .ok()
        .unwrap()
        .next()
        .unwrap();
    let stmt = into_method(parsed);
    assert_eq!(stmt.range, Range { start: 0, end: 39 });
    assert_eq!("MyMethod3", partial_text(&input, &stmt.name));
    assert_eq!(1, stmt.params.len());
    let params = &stmt.params;
    assert_eq!("int8", partial_text(&input, &params[0].typ));
    assert_eq!("default_int8_arg", partial_text(&input, &params[0].name));
    let response = stmt.response.as_ref().unwrap();
    assert_eq!(0, response.params.len());
}

#[test]
fn test_struct_stmt() {
    let input = "struct MyStruct {
            const int64 kInvalidId = -1;
            int64 my_id;
            MyInterface? my_interface;
            float my_float_value = 0.1;
        };";
    let parsed = MojomParser::parse(Rule::struct_stmt, &input)
        .ok()
        .unwrap()
        .next()
        .unwrap();
    let stmt = into_struct(parsed);
    assert_eq!(stmt.range, Range { start: 0, end: 173 });
    assert_eq!("MyStruct", partial_text(&input, &stmt.name));
    let members = &stmt.members;
    assert_eq!(4, members.len());

    let item = match &members[0] {
        StructBody::Const(item) => item,
        _ => unreachable!(),
    };
    assert_eq!("kInvalidId", partial_text(&input, &item.name));

    let item = match &members[1] {
        StructBody::Field(item) => item,
        _ => unreachable!(),
    };
    assert_eq!("my_id", partial_text(&input, &item.name));

    let item = match &members[2] {
        StructBody::Field(item) => item,
        _ => unreachable!(),
    };
    assert_eq!("my_interface", partial_text(&input, &item.name));

    let item = match &members[3] {
        StructBody::Field(item) => item,
        _ => unreachable!(),
    };
    assert_eq!("my_float_value", partial_text(&input, &item.name));

    let input = "[Native] struct MyStruct;";
    let parsed = MojomParser::parse(Rule::struct_stmt, &input)
        .ok()
        .unwrap()
        .next()
        .unwrap();
    let stmt = into_struct(parsed);
    assert_eq!(stmt.range, Range { start: 0, end: 25 });
    assert_eq!("MyStruct", partial_text(&input, &stmt.name));
    assert_eq!(0, stmt.members.len());
}

#[test]
fn test_interface() {
    let input = "interface MyInterface {
            MyMethod();
            enum MyEnum { kMyEnumVal1, kMyEnumVal2 };
        };";
    let parsed = MojomParser::parse(Rule::interface, &input)
        .ok()
        .unwrap()
        .next()
        .unwrap();
    let intr = into_interface(parsed);
    assert_eq!(intr.range, Range { start: 0, end: 112 });
    assert_eq!("MyInterface", partial_text(&input, &intr.name));
    let members = &intr.members;
    assert_eq!(2, members.len());

    let member = match &members[0] {
        InterfaceMember::Method(member) => member,
        _ => unreachable!(),
    };
    assert_eq!("MyMethod", partial_text(&input, &member.name));

    let member = match &members[1] {
        InterfaceMember::Enum(member) => member,
        _ => unreachable!(),
    };
    assert_eq!("MyEnum", partial_text(&input, &member.name));
}

#[test]
fn test_union_stmt() {
    let input = "union MyUnion {
            string str_field;
            StringPair pair_field;
            int64 int64_field;
        };";
    let parsed = MojomParser::parse(Rule::union_stmt, &input)
        .ok()
        .unwrap()
        .next()
        .unwrap();
    let stmt = into_union(parsed);
    assert_eq!(stmt.range, Range { start: 0, end: 122 });
    assert_eq!("MyUnion", partial_text(&input, &stmt.name));
    let fields = &stmt.fields;
    assert_eq!(3, fields.len());
    assert_eq!("str_field", partial_text(&input, &fields[0].name));
    assert_eq!("pair_field", partial_text(&input, &fields[1].name));
    assert_eq!("int64_field", partial_text(&input, &fields[2].name));
}

#[test]
fn test_parse() {
    let input = r#"
        module test.mod;
        import "a.b.c";
        import "a.c.d";

        enum MyEnum;
        enum MyEnum2 { kFoo, kBar, kBaz };

        const string kMyConst = "const_value";
        const int32 kMyConst2 = -1;

        struct MyStruct {};
        struct MyStruct2 {
            uint8 my_uint8_value;
            float my_float_value = 0.1;
        };

        union MyUnion {
            string str_field;
            uint8 uint8_field;
        };
        union MyUnion2 {
            MyInterface myinterface_field;
            uint32 uint32_field;
        };

        // This is MyInterface
        interface MyInterface {
            MyMethod() => (/* empty */);
        };

        interface InterfaceA {};

        // This is comment.
        interface InterfaceB {};

        [Attr]
        interface InterfaceC {};

        interface InterfaceD {
            const string kMessage = "message";
            enum SomeEnum { Foo, Bar, Baz, };
            MethodA(string message, string? optional_message) => ();
            MethodB() => (int32 result, MyStruct? optional_result);
            [Attr2] MethodC(associated InterfaceA assoc) => (map<string, int8> result);
        };
        "#;
    let res = parse(input).unwrap();
    assert_eq!(16, res.stmts.len());
}

fn moved(range: &Range, k: usize) -> Range {
    Range {
        start: range.start + k,
        end: range.end + k,
    }
}

#[test]
fn joined_files_have_the_statements_of_both() {
    // The first file ends in a comment without a line feed.
    let a = "module a.b;\nconst int32 kOne = 1; // \u{65e5} the end";
    let b = "/* next */ interface I {\n  enum E { A, B = 2 };\n  M@3(int8 x) => (string? y);\n};";
    let joined = format!("{}\n{}", a, b);
    let k = a.len() + 1;
    assert_eq!(49, k);

    let fa = parse(a).unwrap();
    let fb = parse(b).unwrap();
    let f = parse(&joined).unwrap();
    assert_eq!(2, fa.stmts.len());
    assert_eq!(1, fb.stmts.len());
    assert_eq!(3, f.stmts.len());
    assert_eq!(fa.stmts[0], f.stmts[0]);
    assert_eq!(fa.stmts[1], f.stmts[1]);

    let (x, y) = match (&fb.stmts[0], &f.stmts[2]) {
        (Statement::Interface(x), Statement::Interface(y)) => (x, y),
        _ => unreachable!(),
    };
    assert_eq!(moved(&x.range, k), y.range);
    assert_eq!(moved(&x.name, k), y.name);
    assert_eq!(Range { start: 70, end: 71 }, y.name);
    assert_eq!(x.members.len(), y.members.len());
    match (&x.members[0], &y.members[0]) {
        (InterfaceMember::Enum(p), InterfaceMember::Enum(q)) => {
            assert_eq!(moved(&p.range, k), q.range);
            assert_eq!(moved(&p.values[1].name, k), q.values[1].name);
            assert_eq!(
                moved(p.values[1].value.as_ref().unwrap(), k),
                *q.values[1].value.as_ref().unwrap()
            );
        }
        _ => unreachable!(),
    }
    match (&x.members[1], &y.members[1]) {
        (InterfaceMember::Method(p), InterfaceMember::Method(q)) => {
            assert_eq!(moved(&p.range, k), q.range);
            assert_eq!(moved(p.ordinal.as_ref().unwrap(), k), *q.ordinal.as_ref().unwrap());
            assert_eq!(moved(&p.params[0].typ, k), q.params[0].typ);
            let (p, q) = (p.response.as_ref().unwrap(), q.response.as_ref().unwrap());
            assert_eq!(moved(&p.range, k), q.range);
            assert_eq!(moved(&p.params[0].typ, k), q.params[0].typ);
            assert_eq!("string", partial_text(&joined, &q.params[0].typ));
        }
        _ => unreachable!(),
    }
}

#[test]
fn empty_file_joins_with_any_other() {
    let b = "enum E;";
    let f = parse(&format!("\n{}", b)).unwrap();
    assert_eq!(1, f.stmts.len());
    match &f.stmts[0] {
        Statement::Enum(e) => assert_eq!(Range { start: 1, end: 8 }, e.range),
        _ => unreachable!(),
    }
    assert_eq!(parse(b).unwrap().stmts, parse(&format!("{}\n", b)).unwrap().stmts);
}

#[test]
fn parts_of_a_statement_stand_one_behind_the_other() {
    let input = "struct S { const int8 kA = 1; enum E { X, Y }; int8 f; }; union U { int8 g; S h; };";
    let file = parse(input).unwrap();
    let s = match &file.stmts[0] {
        Statement::Struct(s) => s,
        _ => unreachable!(),
    };
    let u = match &file.stmts[1] {
        Statement::Union(u) => u,
        _ => unreachable!(),
    };
    assert!(s.range.end <= u.range.start);
    let ranges: Vec<Range> = s
        .members
        .iter()
        .map(|m| match m {
            StructBody::Const(c) => c.range,
            StructBody::Enum(e) => e.range,
            StructBody::Field(f) => f.range,
        })
        .collect();
    assert_eq!(
        vec![
            Range { start: 11, end: 29 },
            Range { start: 30, end: 46 },
            Range { start: 47, end: 54 },
        ],
        ranges
    );
    assert!(s.name.end <= ranges[0].start);
    match &s.members[1] {
        StructBody::Enum(e) => {
            assert!(e.name.end <= e.values[0].range.start);
            assert!(e.values[0].range.end <= e.values[1].range.start);
            assert!(e.values[1].name.start < e.values[1].name.end);
        }
        _ => unreachable!(),
    }
    assert!(u.name.end <= u.fields[0].range.start);
    assert!(u.fields[0].range.end <= u.fields[1].range.start);
    assert_eq!("h", partial_text(input, &u.fields[1].name));
}
