use ts_schema::TypescriptSchemaParser;

#[test]
fn greeter_end_to_end() {
    let doc = "export class Greeter {\n  greeting: string;\n}\n";
    let out = TypescriptSchemaParser::parse_single(doc).unwrap();
    assert_eq!(out, "{\"class_name\":\"Greeter\",\"properties\":{\"greeting\":\"string\"}}");
}

#[test]
fn no_class_keyword_yields_empty_record() {
    let doc = "let x = 1\nfoo bar baz\n";
    let out = TypescriptSchemaParser::parse_single(doc).unwrap();
    assert_eq!(out, "{\"class_name\":\"\",\"properties\":{}}");
}

#[test]
fn empty_document_yields_empty_record() {
    let out = TypescriptSchemaParser::parse_single("").unwrap();
    assert_eq!(out, "{\"class_name\":\"\",\"properties\":{}}");
}

#[test]
fn only_first_class_line_recognized() {
    let doc = "class A {\nclass B {\n  x: number;\n}\n";
    let out = TypescriptSchemaParser::parse_single(doc).unwrap();
    assert_eq!(out, "{\"class_name\":\"A\",\"properties\":{\"x\":\"number\"}}");
}

#[test]
fn readonly_count_is_matched() {
    let doc = "class Counter {\n  readonly count: number;\n}\n";
    let out = TypescriptSchemaParser::parse_single(doc).unwrap();
    assert_eq!(out, "{\"class_name\":\"Counter\",\"properties\":{\"count\":\"number\"}}");
}

#[test]
fn duplicate_property_last_wins() {
    let doc = "class C {\n  a: number;\n  a: string;\n}\n";
    let out = TypescriptSchemaParser::parse_single(doc).unwrap();
    assert_eq!(out, "{\"class_name\":\"C\",\"properties\":{\"a\":\"string\"}}");
}

#[test]
fn keys_alphabetized_regardless_of_discovery_order() {
    let doc = "class C {\n  b: B;\n  a: A;\n  c: Z;\n}\n";
    let out = TypescriptSchemaParser::parse_single(doc).unwrap();
    assert_eq!(out, "{\"class_name\":\"C\",\"properties\":{\"a\":\"A\",\"b\":\"B\",\"c\":\"Z\"}}");
}

#[test]
fn constructor_line_is_captured_greedily() {
    let doc = "class Greeter {\n  constructor(message: string) { this.greeting = message; }\n}\n";
    let out = TypescriptSchemaParser::parse_single(doc).unwrap();
    assert_eq!(
        out,
        "{\"class_name\":\"Greeter\",\"properties\":{\"message\":\"string) { this.greeting = message\"}}"
    );
}

#[test]
fn type_expression_extends_to_last_semicolon() {
    let doc = "class X {\n  a: A; b: B;\n}\n";
    let out = TypescriptSchemaParser::parse_single(doc).unwrap();
    assert_eq!(out, "{\"class_name\":\"X\",\"properties\":{\"a\":\"A; b: B\"}}");
}

#[test]
fn carriage_return_line_endings_tolerated() {
    let doc = "class D {\r\n  x: T;\r\n}\r\n";
    let out = TypescriptSchemaParser::parse_single(doc).unwrap();
    assert_eq!(out, "{\"class_name\":\"D\",\"properties\":{\"x\":\"T\"}}");
}

#[test]
fn quotes_and_backslashes_escaped_in_output() {
    let doc = "class E {\n  a: \"x\\y\";\n}\n";
    let out = TypescriptSchemaParser::parse_single(doc).unwrap();
    assert_eq!(out, "{\"class_name\":\"E\",\"properties\":{\"a\":\"\\\"x\\\\y\\\"\"}}");
}

#[test]
fn tab_escaped_in_output() {
    let doc = "class F {\n  a: u\tv;\n}\n";
    let out = TypescriptSchemaParser::parse_single(doc).unwrap();
    assert_eq!(out, "{\"class_name\":\"F\",\"properties\":{\"a\":\"u\\tv\"}}");
}

#[test]
fn class_keyword_matched_inside_longer_word() {
    let doc = "subclass Foo {\n  a: A;\n}\n";
    let out = TypescriptSchemaParser::parse_single(doc).unwrap();
    assert_eq!(out, "{\"class_name\":\"Foo\",\"properties\":{\"a\":\"A\"}}");
}

#[test]
fn class_needs_single_space_before_identifier() {
    let doc = "class  Two\n  a: A;\n";
    let out = TypescriptSchemaParser::parse_single(doc).unwrap();
    assert_eq!(out, "{\"class_name\":\"\",\"properties\":{}}");
}

#[test]
fn properties_before_class_line_ignored() {
    let doc = "  early: E;\nclass C {\n  late: L;\n}\n";
    let out = TypescriptSchemaParser::parse_single(doc).unwrap();
    assert_eq!(out, "{\"class_name\":\"C\",\"properties\":{\"late\":\"L\"}}");
}

#[test]
fn line_without_semicolon_not_matched() {
    let doc = "class C {\n  a: A\n}\n";
    let out = TypescriptSchemaParser::parse_single(doc).unwrap();
    assert_eq!(out, "{\"class_name\":\"C\",\"properties\":{}}");
}

#[test]
fn empty_type_expression_kept() {
    let doc = "class C {\n  x: ;\n}\n";
    let out = TypescriptSchemaParser::parse_single(doc).unwrap();
    assert_eq!(out, "{\"class_name\":\"C\",\"properties\":{\"x\":\"\"}}");
}

#[test]
fn class_on_last_line_yields_no_properties() {
    let doc = "foo\nclass Z {";
    let out = TypescriptSchemaParser::parse_single(doc).unwrap();
    assert_eq!(out, "{\"class_name\":\"Z\",\"properties\":{}}");
}

#[test]
fn control_character_gets_unicode_escape() {
    let doc = "class G {\n  a: x\u{1}y;\n}\n";
    let out = TypescriptSchemaParser::parse_single(doc).unwrap();
    assert_eq!(out, "{\"class_name\":\"G\",\"properties\":{\"a\":\"x\\u0001y\"}}");
}

#[test]
fn high_control_character_gets_two_hex_digits() {
    let doc = "class H {\n  a: x\u{1f}y;\n}\n";
    let out = TypescriptSchemaParser::parse_single(doc).unwrap();
    assert_eq!(out, "{\"class_name\":\"H\",\"properties\":{\"a\":\"x\\u001fy\"}}");
}

#[test]
fn bare_carriage_return_kept_and_escaped() {
    let doc = "class I {\n  a: x\ry;\n}\n";
    let out = TypescriptSchemaParser::parse_single(doc).unwrap();
    assert_eq!(out, "{\"class_name\":\"I\",\"properties\":{\"a\":\"x\\ry\"}}");
}

#[test]
fn non_ascii_text_passes_through_unescaped() {
    let doc = "class J {\n  gr\u{fc}n: Farbe\u{e9};\n}\n";
    let out = TypescriptSchemaParser::parse_single(doc).unwrap();
    assert_eq!(out, "{\"class_name\":\"J\",\"properties\":{\"n\":\"Farbe\u{e9}\"}}");
}
