use volumen::go::parser::ParserGo;
use volumen::java::parser::ParserJava;
use volumen::parser_core::VolumenParser;
use volumen::php::parser::ParserPhp;
use volumen::python::parser::ParserPy;
use volumen::ruby::parser::ParserRb;
use volumen::types::ParseResult;

fn prompt_count<P: VolumenParser>(source: &str) -> usize {
    match P::parse(source, "file") {
        ParseResult::ParseResultSuccess { prompts } => prompts.len(),
        ParseResult::ParseResultError { error } => panic!("Parsing failed: {}", error),
    }
}

#[test]
fn every_parser_through_the_trait() {
    assert_eq!(prompt_count::<ParserPy>("user_prompt = \"Hi\"\n"), 1);
    assert_eq!(prompt_count::<ParserGo>("package main\n\nfunc main() {\n\tuserPrompt := \"Hi\"\n}\n"), 1);
    assert_eq!(prompt_count::<ParserJava>("class A {\n  void f() {\n    String userPrompt = \"Hi\";\n  }\n}\n"), 1);
    assert_eq!(prompt_count::<ParserPhp>("<?php\n$userPrompt = 'Hi';\n"), 1);
    assert_eq!(prompt_count::<ParserRb>("user_prompt = \"Hi\"\n"), 1);
}
