use jpl_runtime::descriptor::TypeStr;
use jpl_runtime::error::{ErrorKind, Expected};
use jpl_runtime::shape::Type;

fn parse_all(text: &str) -> (Result<Type, ErrorKind>, usize) {
    let mut reader = TypeStr::new(text.as_bytes());
    let parsed = reader.parse();
    (parsed, reader.position())
}

fn token_error(offset: usize) -> ErrorKind {
    ErrorKind::MalformedDescriptor { offset, expected: Expected::Token }
}

fn integer_error(offset: usize) -> ErrorKind {
    ErrorKind::MalformedDescriptor { offset, expected: Expected::Integer }
}

#[test]
fn parses_each_scalar_keyword() {
    assert_eq!(parse_all("(IntType)"), (Ok(Type::Int), 9));
    assert_eq!(parse_all("(FloatType)"), (Ok(Type::Float), 11));
    assert_eq!(parse_all("(BoolType)"), (Ok(Type::Bool), 10));
    assert_eq!(parse_all("(VoidType)"), (Ok(Type::Void), 10));
}

#[test]
fn whitespace_between_tokens_is_skipped() {
    assert_eq!(parse_all("( IntType )"), (Ok(Type::Int), 11));
    assert_eq!(parse_all("(\t\nIntType\r\x0c )"), (Ok(Type::Int), 14));
}

#[test]
fn vertical_tab_is_no_whitespace() {
    assert_eq!(parse_all("(\x0bIntType)"), (Err(token_error(1)), 1));
}

#[test]
fn leading_whitespace_is_not_skipped() {
    assert_eq!(parse_all(" (IntType)"), (Err(token_error(0)), 0));
}

#[test]
fn parses_tuple_with_fields_in_order() {
    let expected = Type::Tuple(vec![Type::Int, Type::Bool, Type::Float]);
    assert_eq!(
        parse_all("(TupleType (IntType) (BoolType) (FloatType))"),
        (Ok(expected), 44)
    );
}

#[test]
fn parses_tuple_without_spaces() {
    let expected = Type::Tuple(vec![Type::Int, Type::Int]);
    assert_eq!(parse_all("(TupleType(IntType)(IntType))"), (Ok(expected), 29));
}

#[test]
fn parses_empty_tuple() {
    assert_eq!(parse_all("(TupleType)"), (Ok(Type::Tuple(vec![])), 11));
    assert_eq!(parse_all("(TupleType  )"), (Ok(Type::Tuple(vec![])), 13));
}

#[test]
fn parses_array_with_rank() {
    let expected = Type::Array(Box::new(Type::Int), 2);
    assert_eq!(parse_all("(ArrayType (IntType) 2)"), (Ok(expected), 23));
}

#[test]
fn parses_array_without_spaces() {
    let expected = Type::Array(Box::new(Type::Float), 3);
    assert_eq!(parse_all("(ArrayType(FloatType)3)"), (Ok(expected), 23));
}

#[test]
fn rank_may_be_zero_and_may_have_leading_zeros() {
    assert_eq!(
        parse_all("(ArrayType (IntType) 0)"),
        (Ok(Type::Array(Box::new(Type::Int), 0)), 23)
    );
    assert_eq!(
        parse_all("(ArrayType (IntType) 007)"),
        (Ok(Type::Array(Box::new(Type::Int), 7)), 25)
    );
}

#[test]
fn rank_up_to_255_is_accepted() {
    assert_eq!(
        parse_all("(ArrayType (IntType) 255)"),
        (Ok(Type::Array(Box::new(Type::Int), 255)), 25)
    );
}

#[test]
fn rank_over_255_is_rejected() {
    assert_eq!(parse_all("(ArrayType (IntType) 256)"), (Err(integer_error(21)), 21));
    assert_eq!(
        parse_all("(ArrayType (IntType) 99999999999999999999999999)"),
        (Err(integer_error(21)), 21)
    );
}

#[test]
fn missing_rank_is_rejected() {
    assert_eq!(parse_all("(ArrayType (IntType) )"), (Err(integer_error(21)), 21));
    assert_eq!(parse_all("(ArrayType (IntType) x)"), (Err(integer_error(21)), 21));
    assert_eq!(parse_all("(ArrayType (IntType) -1)"), (Err(integer_error(21)), 21));
}

#[test]
fn parses_nested_shapes() {
    let inner = Type::Tuple(vec![Type::Int, Type::Array(Box::new(Type::Bool), 1)]);
    let expected = Type::Tuple(vec![Type::Array(Box::new(inner), 2), Type::Void]);
    let text = "(TupleType (ArrayType (TupleType (IntType) (ArrayType (BoolType) 1)) 2) (VoidType))";
    assert_eq!(parse_all(text), (Ok(expected), text.len()));
}

#[test]
fn truncated_keyword_is_malformed() {
    assert_eq!(parse_all("(TupleTyp"), (Err(token_error(1)), 1));
}

#[test]
fn empty_descriptor_is_malformed() {
    assert_eq!(parse_all(""), (Err(token_error(0)), 0));
}

#[test]
fn unknown_keyword_is_malformed() {
    assert_eq!(parse_all("(Foo)"), (Err(token_error(1)), 1));
    assert_eq!(parse_all("(inttype)"), (Err(token_error(1)), 1));
    assert_eq!(parse_all("()"), (Err(token_error(1)), 1));
    assert_eq!(parse_all("("), (Err(token_error(1)), 1));
}

#[test]
fn missing_closing_parenthesis_is_malformed() {
    assert_eq!(parse_all("(IntType"), (Err(token_error(8)), 8));
    assert_eq!(parse_all("(IntType  "), (Err(token_error(10)), 10));
    assert_eq!(parse_all("(IntTypes)"), (Err(token_error(8)), 8));
}

#[test]
fn unterminated_tuple_is_malformed() {
    assert_eq!(parse_all("(TupleType (IntType)"), (Err(token_error(20)), 20));
    assert_eq!(parse_all("(TupleType (IntType) "), (Err(token_error(21)), 21));
}

#[test]
fn error_inside_a_field_is_reported_where_it_stands() {
    assert_eq!(
        parse_all("(TupleType (IntType) (Bool))"),
        (Err(token_error(22)), 22)
    );
    assert_eq!(
        parse_all("(TupleType (IntType) IntType)"),
        (Err(token_error(21)), 21)
    );
}

#[test]
fn error_inside_an_element_is_reported_where_it_stands() {
    assert_eq!(
        parse_all("(ArrayType (ArrayType (IntType) 300) 1)"),
        (Err(integer_error(32)), 32)
    );
}

#[test]
fn text_behind_the_expression_is_left_unread() {
    assert_eq!(parse_all("(IntType) trailing"), (Ok(Type::Int), 9));
    assert_eq!(parse_all("(IntType)(BoolType)"), (Ok(Type::Int), 9));
}

#[test]
fn two_expressions_are_read_one_after_the_other() {
    let mut reader = TypeStr::new(b"(IntType) (BoolType)");
    assert_eq!(reader.parse(), Ok(Type::Int));
    reader.skip_spaces();
    assert_eq!(reader.position(), 10);
    assert_eq!(reader.parse(), Ok(Type::Bool));
    assert_eq!(reader.position(), 20);
}

#[test]
fn skip_spaces_stops_at_the_first_other_byte() {
    let mut reader = TypeStr::new(b" \t\n\r\x0cx y");
    reader.skip_spaces();
    assert_eq!(reader.position(), 5);
    reader.skip_spaces();
    assert_eq!(reader.position(), 5);
}

#[test]
fn skip_spaces_stops_at_the_end() {
    let mut reader = TypeStr::new(b"   ");
    reader.skip_spaces();
    assert_eq!(reader.position(), 3);
    let mut empty = TypeStr::new(b"");
    empty.skip_spaces();
    assert_eq!(empty.position(), 0);
}

#[test]
fn skip_bytes_moves_past_a_match_only() {
    let mut reader = TypeStr::new(b"IntType)");
    assert_eq!(reader.skip_bytes(b"Int"), Ok(()));
    assert_eq!(reader.position(), 3);
    assert_eq!(reader.skip_bytes(b"Typo"), Err(token_error(3)));
    assert_eq!(reader.position(), 3);
    assert_eq!(reader.skip_bytes(b"Type)x"), Err(token_error(3)));
    assert_eq!(reader.position(), 3);
    assert_eq!(reader.skip_bytes(b"Type)"), Ok(()));
    assert_eq!(reader.position(), 8);
    assert_eq!(reader.skip_bytes(b""), Ok(()));
    assert_eq!(reader.skip_bytes(b")"), Err(token_error(8)));
}

#[test]
fn parse_integer_reads_all_digits() {
    let mut reader = TypeStr::new(b"42)");
    assert_eq!(reader.parse_integer(), Ok(42));
    assert_eq!(reader.position(), 2);
    assert_eq!(reader.parse_integer(), Err(integer_error(2)));
    assert_eq!(reader.position(), 2);
}

#[test]
fn parse_integer_limits() {
    assert_eq!(TypeStr::new(b"0").parse_integer(), Ok(0));
    assert_eq!(TypeStr::new(b"255").parse_integer(), Ok(255));
    assert_eq!(TypeStr::new(b"0000255").parse_integer(), Ok(255));
    assert_eq!(TypeStr::new(b"256").parse_integer(), Err(integer_error(0)));
    assert_eq!(TypeStr::new(b"1000").parse_integer(), Err(integer_error(0)));
    assert_eq!(TypeStr::new(b"").parse_integer(), Err(integer_error(0)));
    assert_eq!(TypeStr::new(b"+1").parse_integer(), Err(integer_error(0)));
}

#[test]
fn parse_integer_agrees_with_the_standard_parser() {
    for value in 0u32..400 {
        let text = value.to_string();
        let expected = text.parse::<u8>().ok();
        assert_eq!(TypeStr::new(text.as_bytes()).parse_integer().ok(), expected);
    }
}
