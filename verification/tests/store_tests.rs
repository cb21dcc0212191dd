use kvwal::errors::ParserError;
use kvwal::in_memory::InMemoryLayer;
use kvwal::io_handler::IOHandler;
use kvwal::kvstore::{regenerate, wal_bytes_for};
use kvwal::lru_cache::LruCacheLayer;
use kvwal::operation::Op;
use kvwal::parser::{Lexer, Parser, StateMachine, Token};

#[test]
fn test_in_memory_layer() {
    let mut layer = InMemoryLayer::new();
    let op = Op::new_set(0, "key".to_string(), "value".to_string());
    assert_eq!(layer.eval(op), Some("key".to_string()));

    let op = Op::new_get(0, "key".to_string());
    assert_eq!(layer.eval(op), Some("value".to_string()));

    let op = Op::new_del(0, "key".to_string());
    assert_eq!(layer.eval(op), Some("value".to_string()));

    let op = Op::new_get(0, "key".to_string());
    assert_eq!(layer.eval(op), None);
}

#[test]
fn test_lexer() {
    let lexer = Lexer::new();
    let buffer = r#"SET key1 TO value1 AND GET key1 AND DEL key1 AND SET key2 TO value2 AND GET key2 AND DEL key2"#;
    let tokens = lexer.tokenize(buffer);
    let expected = vec![
        Token::SET,
        Token::LITERAL("key1".to_string()),
        Token::TO,
        Token::LITERAL("value1".to_string()),
        Token::AND,
        Token::GET,
        Token::LITERAL("key1".to_string()),
        Token::AND,
        Token::DEL,
        Token::LITERAL("key1".to_string()),
        Token::AND,
        Token::SET,
        Token::LITERAL("key2".to_string()),
        Token::TO,
        Token::LITERAL("value2".to_string()),
        Token::AND,
        Token::GET,
        Token::LITERAL("key2".to_string()),
        Token::AND,
        Token::DEL,
        Token::LITERAL("key2".to_string()),
    ];
    assert_eq!(tokens, expected);
}

#[test]
fn test_parser() {
    let mut parser = Parser::new();
    let buffer = r#"SET key1 TO value1 AND GET key1 AND DEL key1 AND SET key2 TO value2 AND GET key2 AND DEL key2"#;
    let operations = parser.parse(buffer).unwrap();
    let expected = vec![
        Op::new_set(0, "key1".to_string(), "value1".to_string()),
        Op::new_get(0, "key1".to_string()),
        Op::new_del(0, "key1".to_string()),
        Op::new_set(0, "key2".to_string(), "value2".to_string()),
        Op::new_get(0, "key2".to_string()),
        Op::new_del(0, "key2".to_string()),
    ];
    assert_eq!(operations, expected);
}

#[test]
fn test_parser_error() {
    let mut parser = Parser::new();
    let buffer = r#"SET key1 DEL key2 "#;
    let result = parser.parse(buffer);
    assert!(matches!(result, Err(ParserError::CommandParseError(_))));
}

#[test]
fn empty_request_is_no_operations() {
    let mut parser = Parser::new();
    assert_eq!(parser.parse("\n"), Err(ParserError::NoOperations));
    assert_eq!(parser.parse(""), Err(ParserError::NoOperations));
}

#[test]
fn parser_via_io_handler() {
    let mut handler = IOHandler::new();
    let ops = handler.parse_input("GET a\n").unwrap();
    assert_eq!(ops, vec![Op::new_get(0, "a".to_string())]);
}

#[test]
fn state_machine_emits_on_statement_end() {
    let mut sm = StateMachine::new();
    sm.process(Token::GET).unwrap();
    assert_eq!(sm.get_operation(), None);
    sm.process(Token::LITERAL("k".to_string())).unwrap();
    assert_eq!(sm.get_operation(), None);
    sm.process(Token::EOF).unwrap();
    assert_eq!(sm.get_operation(), Some(Op::new_get(0, "k".to_string())));
    assert_eq!(sm.get_operation(), None);
}

#[test]
fn state_machine_rejects_bad_transition() {
    let mut sm = StateMachine::new();
    sm.process(Token::SET).unwrap();
    assert!(sm.process(Token::TO).is_err());
}

#[test]
fn mutation_and_replay() {
    // process one request line against a fresh store, logging mutations
    let mut parser = Parser::new();
    let ops = parser.parse("SET a TO 1 AND SET b TO 2 AND DEL a").unwrap();
    let mut store = InMemoryLayer::new();
    let mut wal: Vec<u8> = Vec::new();
    for op in ops {
        if let Some(frame) = wal_bytes_for(&op) {
            wal.extend_from_slice(&frame);
        }
        store.eval(op);
    }
    assert_eq!(store.eval(Op::new_get(0, "a".to_string())), None);
    assert_eq!(store.eval(Op::new_get(0, "b".to_string())), Some("2".to_string()));

    // a restarted store replays the log to the same state
    let mut replayed = InMemoryLayer::new();
    regenerate(&mut replayed, &wal).unwrap();
    assert_eq!(replayed.eval(Op::new_get(0, "a".to_string())), None);
    assert_eq!(replayed.eval(Op::new_get(0, "b".to_string())), Some("2".to_string()));
}

#[test]
fn gets_are_not_logged() {
    assert!(wal_bytes_for(&Op::new_get(0, "k".to_string())).is_none());
    assert!(wal_bytes_for(&Op::new_set(0, "k".to_string(), "v".to_string())).is_some());
    assert!(wal_bytes_for(&Op::new_del(0, "k".to_string())).is_some());
}

#[test]
fn lru_contract() {
    let mut cache = LruCacheLayer::new(2);
    cache.put("x", "1");
    cache.put("y", "2");
    assert_eq!(cache.get("x"), Some("1".to_string()));
    cache.put("z", "3");
    assert_eq!(cache.get("y"), None);
    assert_eq!(cache.get("x"), Some("1".to_string()));
    assert_eq!(cache.get("z"), Some("3".to_string()));
}

#[test]
fn lru_del_removes() {
    let mut cache = LruCacheLayer::new(4);
    cache.put("a", "1");
    cache.del("a");
    assert_eq!(cache.get("a"), None);
    assert_eq!(cache.len(), 0);
}
