use ts_schema::TypescriptSchemaParser;

#[test]
fn batch_filters_documents_without_class() {
    let docs = vec![
        String::from("class A {\n  x: X;\n}\n"),
        String::from("no declaration here\n"),
        String::from("class B {\n}\n"),
    ];
    let out = TypescriptSchemaParser::parse(docs).unwrap();
    assert_eq!(
        out,
        "[{\"class_name\":\"A\",\"properties\":{\"x\":\"X\"}},{\"class_name\":\"B\",\"properties\":{}}]"
    );
}

#[test]
fn batch_preserves_document_order() {
    let docs = vec![
        String::from("nothing\n"),
        String::from("class First {\n}\n"),
        String::from("also nothing\n"),
        String::from("class Second {\n}\n"),
    ];
    let out = TypescriptSchemaParser::parse(docs).unwrap();
    assert_eq!(
        out,
        "[{\"class_name\":\"First\",\"properties\":{}},{\"class_name\":\"Second\",\"properties\":{}}]"
    );
}

#[test]
fn batch_of_no_documents_is_empty_array() {
    let out = TypescriptSchemaParser::parse(Vec::new()).unwrap();
    assert_eq!(out, "[]");
}

#[test]
fn batch_where_no_document_survives_is_empty_array() {
    let docs = vec![String::from("a\n"), String::from("b\n")];
    let out = TypescriptSchemaParser::parse(docs).unwrap();
    assert_eq!(out, "[]");
}

#[test]
fn machine_takes_two_steps_when_class_found() {
    let mut parser = TypescriptSchemaParser::new("class A {\n  x: X;\n}\n");
    assert!(parser.process());
    assert!(parser.process());
    assert!(!parser.process());
    assert!(!parser.process());
}

#[test]
fn machine_takes_one_step_when_no_class_found() {
    let mut parser = TypescriptSchemaParser::new("nothing to see\n");
    assert!(parser.process());
    assert!(!parser.process());
}
