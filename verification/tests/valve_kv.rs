use radiosity::valve_kv::block::{parse, Block};
use radiosity::valve_kv::parser::{Pair, ParseError, Rule, ValveKvParser};

fn entries(block: &Block) -> Vec<(String, String)> {
    block.properties.iter().map(|(k, v)| (k.to_string(), v.to_string())).collect()
}

fn pairs(list: &[(&str, &str)]) -> Vec<(String, String)> {
    list.iter().map(|(k, v)| (k.to_string(), v.to_string())).collect()
}

fn error(text: &str) -> String {
    match parse(text) {
        Ok(_) => panic!("parsed"),
        Err(e) => e.message(),
    }
}

#[test]
fn an_entity_list_is_parsed() {
    let text = "{\n\"classname\" \"worldspawn\"\n\"skyname\" \"sky_day01_01\"\n}\n{\n\"classname\" \"light_environment\"\n\"_ambient\" \"10 20 30 400\"\n}\n\0";
    let blocks = parse(text).unwrap();
    assert_eq!(blocks.len(), 2);
    assert_eq!(
        entries(&blocks[0]),
        pairs(&[("classname", "worldspawn"), ("skyname", "sky_day01_01")])
    );
    assert_eq!(
        entries(&blocks[1]),
        pairs(&[("classname", "light_environment"), ("_ambient", "10 20 30 400")])
    );
    assert_eq!(blocks[1].get("_ambient"), Some("10 20 30 400"));
    assert_eq!(blocks[1].get("missing"), None);
}

#[test]
fn nothing_is_parsed_as_no_blocks() {
    assert!(parse("").unwrap().is_empty());
    assert!(parse(" \t\r\n\0").unwrap().is_empty());
}

#[test]
fn an_empty_block() {
    let blocks = parse("{}").unwrap();
    assert_eq!(blocks.len(), 1);
    assert!(blocks[0].properties.is_empty());
    assert!(Block::default().properties.is_empty());
}

#[test]
fn the_last_value_of_a_key_keeps_its_place() {
    let blocks = parse("{\"a\" \"1\" \"b\" \"2\" \"a\" \"3\"}").unwrap();
    assert_eq!(entries(&blocks[0]), pairs(&[("a", "3"), ("b", "2")]));
}

#[test]
fn strings_without_quotes() {
    let blocks = parse("{ key value \"other\"next }").unwrap();
    assert_eq!(entries(&blocks[0]), pairs(&[("key", "value"), ("other", "next")]));
}

#[test]
fn strings_hold_anything_but_quotes() {
    let blocks = parse("{\"ü {}\" \"line\nbreak\" \"\" \"\"}").unwrap();
    assert_eq!(entries(&blocks[0]), pairs(&[("ü {}", "line\nbreak"), ("", "")]));
}

#[test]
fn written_entities_are_read_back() {
    let entities = [
        pairs(&[("classname", "light"), ("origin", "0 -128 64"), ("name", "größe")]),
        pairs(&[]),
        pairs(&[("x", "{y}")]),
    ];
    let mut text = String::new();
    for entity in &entities {
        text.push_str("{\n");
        for (k, v) in entity {
            text.push_str(&format!("\"{k}\" \"{v}\"\n"));
        }
        text.push_str("}\n");
    }
    let blocks = parse(&text).unwrap();
    assert_eq!(blocks.len(), entities.len());
    for (block, entity) in blocks.iter().zip(&entities) {
        assert_eq!(&entries(block), entity);
    }
}

#[test]
fn faults_are_reported() {
    assert_eq!(error("x"), "Parse Error: expected a block at byte 0");
    assert_eq!(
        error("{\"a\" \"b\" {"),
        "Parse Error: expected a property or the end of the block at byte 9"
    );
    assert_eq!(error("{"), "Parse Error: expected a property or the end of the block at byte 1");
    assert_eq!(error("{\"a\" }"), "Parse Error: expected a value at byte 5");
    assert_eq!(error("{} {\"a\" \"b}"), "Parse Error: unclosed string at byte 8");
}

#[test]
fn pieces_of_the_text() {
    let pieces = match ValveKvParser::parse("{ a \"b\" }") {
        Ok(pieces) => pieces,
        Err(_) => panic!("not parsed"),
    };
    assert_eq!(pieces.len(), 2);
    assert_eq!(pieces[0].rule, Rule::Block);
    assert_eq!(pieces[0].text, "{ a \"b\" }");
    assert_eq!(pieces[0].inner[0].rule, Rule::Property);
    assert_eq!(pieces[0].inner[0].text, "a \"b\"");
    assert_eq!(pieces[0].inner[0].inner[1].text, "\"b\"");
    assert_eq!(pieces[1].rule, Rule::EndOfInput);
}

fn text_piece(text: &str) -> Pair<'_> {
    Pair { rule: Rule::Text, text, inner: Vec::new() }
}

#[test]
fn quotes_are_stripped_in_pairs() {
    assert_eq!(Block::extract_string(&text_piece("\"a\"")), "a");
    assert_eq!(Block::extract_string(&text_piece("a")), "a");
    assert_eq!(Block::extract_string(&text_piece("\"a")), "\"a");
    assert_eq!(Block::extract_string(&text_piece("a\"")), "a\"");
    assert_eq!(Block::extract_string(&text_piece("\"")), "\"");
    assert_eq!(Block::extract_string(&text_piece("\"\"")), "");
    assert_eq!(Block::extract_string(&text_piece("\"\"\"")), "\"");
}

#[test]
fn properties_need_a_key_and_a_value() {
    let none = Pair { rule: Rule::Property, text: "", inner: Vec::new() };
    assert_eq!(
        Block::parse_property(&none).unwrap_err().message(),
        "Parse Error: Missing key in property"
    );
    let one = Pair { rule: Rule::Property, text: "a", inner: vec![text_piece("a")] };
    assert_eq!(
        Block::parse_property(&one).unwrap_err().message(),
        "Parse Error: Missing value in property"
    );
    let two = Pair {
        rule: Rule::Property,
        text: "a \"b\"",
        inner: vec![text_piece("a"), text_piece("\"b\"")],
    };
    assert_eq!(Block::parse_property(&two).unwrap(), ("a", "b"));
    let block = Pair { rule: Rule::Block, text: "", inner: vec![text_piece("skipped"), two, one] };
    match Block::parse_from_pair(block) {
        Ok(_) => panic!("accepted"),
        Err(ParseError(text)) => assert_eq!(text, "Missing value in property"),
    }
}

#[test]
fn blocks_are_compared_by_their_properties() {
    let blocks = parse("{ a 1 b 2 } { \"a\" \"1\" \"b\" \"2\" } { a 1 b 3 } { }").unwrap();
    assert_eq!(blocks[0], blocks[1]);
    assert_ne!(blocks[0], blocks[2]);
    assert_eq!(blocks[3], Block::default());
}
