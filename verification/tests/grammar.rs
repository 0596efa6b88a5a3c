use backtick::comparator::{decode, Comparator};
use backtick::parser::{parse, serialize, ParseError, Token};

fn roundtrip(src: &[u8]) {
    let first = parse(src).expect("source should parse");
    let canon = serialize(&first);
    let second = parse(&canon).expect("canonical form should parse");
    assert_eq!(first, second);
}

#[test]
fn roundtrip_operators_and_output() {
    roundtrip(b"+++.");
}

#[test]
fn roundtrip_function_and_executes() {
    roundtrip(b"^x!`+`!x!x!x");
}

#[test]
fn roundtrip_address_and_assign() {
    roundtrip(b"@5=42");
}

#[test]
fn roundtrip_numeric_array() {
    roundtrip(b"={1,2,3}");
}

#[test]
fn roundtrip_raw_array() {
    roundtrip(b"=`ab`");
}

#[test]
fn roundtrip_condition_with_branches() {
    roundtrip(b"?=0`+`:`-`");
}

#[test]
fn roundtrip_condition_chain() {
    roundtrip(b"?\\10|/=200`+`:`-`&'7");
}

#[test]
fn roundtrip_loop_with_multipliers() {
    roundtrip(b"[->+2<3]");
}

#[test]
fn roundtrip_delimited_comment() {
    roundtrip(b"``a note`` +");
}

#[test]
fn roundtrip_line_comment() {
    roundtrip(b"```note\n+");
}

#[test]
fn roundtrip_bare_label() {
    roundtrip(b"^loop @7 !loop");
}

#[test]
fn roundtrip_function_with_window() {
    roundtrip(b"^copy@0:1!`[->+>+<2]@9.~`@3!copy");
}

#[test]
fn roundtrip_nested_bodies() {
    roundtrip(b"^f!`?=0`+`:`-` [>] ` !f");
}

#[test]
fn parse_simple_program() {
    let ts = parse(b"+++.").unwrap();
    assert_eq!(
        ts,
        vec![
            Token::Operator(b'+'),
            Token::Operator(b'+'),
            Token::Operator(b'+'),
            Token::Operator(b'.'),
        ]
    );
}

#[test]
fn parse_address_label_execute_assign() {
    let ts = parse(b"@12 ^spot !spot =300").unwrap();
    assert_eq!(
        ts,
        vec![
            Token::Address(12),
            Token::Label(b"spot".to_vec()),
            Token::Execute(b"spot".to_vec()),
            Token::Assign(300),
        ]
    );
}

#[test]
fn parse_multiplier_and_operator() {
    let ts = parse(b">3 > ~").unwrap();
    assert_eq!(
        ts,
        vec![
            Token::Multiplier(b'>', 3),
            Token::Operator(b'>'),
            Token::Operator(b'~'),
        ]
    );
}

#[test]
fn tilde_takes_no_count() {
    // `~` is an operator only; digits after it do not form a multiplier
    assert_eq!(parse(b"~3"), Err(ParseError { offset: 1 }));
}

#[test]
fn parse_numeric_array_with_spaces() {
    let ts = parse(b"={ 1, 2 , 3 }").unwrap();
    assert_eq!(ts, vec![Token::Array(vec![1, 2, 3])]);
}

#[test]
fn parse_empty_numeric_array() {
    let ts = parse(b"={}").unwrap();
    assert_eq!(ts, vec![Token::Array(vec![])]);
}

#[test]
fn parse_raw_array_is_verbatim_bytes() {
    let ts = parse(b"=`hi!`").unwrap();
    assert_eq!(ts, vec![Token::Array(b"hi!".to_vec())]);
}

#[test]
fn parse_function_declaration() {
    let ts = parse(b"^copy@0:1!`+`").unwrap();
    assert_eq!(
        ts,
        vec![Token::Function(
            b"copy".to_vec(),
            Some(0),
            Some(1),
            vec![Token::Operator(b'+')],
        )]
    );
}

#[test]
fn parse_condition_decodes_flags() {
    let ts = parse(b"?\\=7").unwrap();
    match &ts[..] {
        [Token::Condition(chain)] => match &chain[..] {
            [Token::Comparator(flags, operand, None, None)] => {
                assert_eq!(*flags, 8 | 1); // LT and EQ: less-or-equal
                assert_eq!(*operand, 7);
            }
            other => panic!("unexpected chain {:?}", other),
        },
        other => panic!("unexpected tokens {:?}", other),
    }
}

#[test]
fn parse_indirect_comparator_sets_indirection_bit() {
    let ts = parse(b"|'@3").unwrap();
    match &ts[..] {
        [Token::Condition(chain)] => match &chain[..] {
            [Token::Comparator(flags, operand, None, None)] => {
                assert_eq!(*flags, 32 | 4 | 2); // indirect, OR link, NEQ
                assert_eq!(*operand, 3);
            }
            other => panic!("unexpected chain {:?}", other),
        },
        other => panic!("unexpected tokens {:?}", other),
    }
}

#[test]
fn whole_buffer_must_be_consumed() {
    assert_eq!(parse(b"+++ }garbage"), Err(ParseError { offset: 4 }));
    assert_eq!(parse(b"[+"), Err(ParseError { offset: 0 }));
    assert_eq!(parse(b"="), Err(ParseError { offset: 0 }));
}

#[test]
fn empty_source_parses_to_nothing() {
    assert_eq!(parse(b"   \n\t "), Ok(vec![]));
    assert_eq!(parse(b""), Ok(vec![]));
}

#[test]
fn number_overflow_is_rejected() {
    // an address must fit 16 bits
    assert_eq!(parse(b"@70000"), Err(ParseError { offset: 0 }));
}

#[test]
fn and_chain_start_canonicalizes_to_question_mark() {
    let first = parse(b"&=5").unwrap();
    let canon = serialize(&first);
    assert_eq!(canon, b"?=5 ".to_vec());
    assert_eq!(parse(&canon).unwrap(), first);
}

#[test]
fn decode_truth_table() {
    assert_eq!(decode(b"?="), 1);
    assert_eq!(decode(b"?'"), 2);
    assert_eq!(decode(b"?\\"), 8);
    assert_eq!(decode(b"?/"), 16);
    assert_eq!(decode(b"&="), 1);
    assert_eq!(decode(b"&'"), 2);
    assert_eq!(decode(b"&\\"), 8);
    assert_eq!(decode(b"&/"), 16);
    assert_eq!(decode(b"|="), 4 | 1);
    assert_eq!(decode(b"|'"), 4 | 2);
    assert_eq!(decode(b"|\\"), 4 | 8);
    assert_eq!(decode(b"|/"), 4 | 16);
    assert_eq!(decode(b"?\\="), 8 | 1);
    assert_eq!(decode(b"?/="), 16 | 1);
    assert_eq!(decode(b"|\\="), 4 | 8 | 1);
    assert_eq!(decode(b"|/="), 4 | 16 | 1);
}

#[test]
fn flag_predicates_match_bits() {
    let lte = decode(b"?\\=");
    assert!(Comparator::is_lt(lte));
    assert!(Comparator::is_eq(lte));
    assert!(!Comparator::is_gt(lte));
    assert!(!Comparator::is_neq(lte));
    assert!(!Comparator::is_or(lte));
    assert!(Comparator::is_and(lte));

    let or_gt = decode(b"|/");
    assert!(Comparator::is_or(or_gt));
    assert!(!Comparator::is_and(or_gt));
    assert!(Comparator::is_gt(or_gt));
}

#[test]
fn compound_flags_behave_as_orderings() {
    let lte = decode(b"?\\=");
    let gte = decode(b"?/=");
    for (cell, operand) in [(0u8, 0u8), (1, 2), (2, 1), (255, 255), (200, 10)] {
        assert_eq!(Comparator::evaluate(lte, cell, operand), cell <= operand);
        assert_eq!(Comparator::evaluate(gte, cell, operand), cell >= operand);
    }
}

#[test]
fn comparator_new_reads_token_flags() {
    let t = Token::Comparator(9, 4, None, None);
    assert_eq!(Comparator::new(&t), 9);
    assert_eq!(Comparator::new(&Token::Operator(b'+')), 0);
}
