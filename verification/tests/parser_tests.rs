use bfvm::parser::parse_code;
use bfvm::parser::ParserError;
use bfvm::vm::Node;

#[test]
fn it_should_parse_instructions() {
    let code = "<>+-.,";
    let result = parse_code(&code.as_bytes().to_vec());

    assert_eq!(
        result,
        Ok(vec!(
            Node::Shift(-1),
            Node::Shift(1),
            Node::Inc(1, 0, false),
            Node::Dec(1, 0, false),
            Node::Out(0, false),
            Node::In(0, false)
        ))
    );
}

#[test]
fn it_should_parse_an_empty_conditional() {
    let code = "[]";
    let result = parse_code(&code.as_bytes().to_vec());

    assert_eq!(result, Ok(vec!(Node::Conditional(vec!()))));
}

#[test]
fn it_should_parse_an_conditional_with_instructions() {
    let code = "[<>]";
    let result = parse_code(&code.as_bytes().to_vec());

    assert_eq!(
        result,
        Ok(vec!(Node::Conditional(vec!(
            Node::Shift(-1),
            Node::Shift(1)
        ))))
    );
}

#[test]
fn it_should_parse_nested_conditionals() {
    let code = "[<[>]]";
    let result = parse_code(&code.as_bytes().to_vec());

    assert_eq!(
        result,
        Ok(vec!(Node::Conditional(vec!(
            Node::Shift(-1),
            Node::Conditional(vec!(Node::Shift(1)))
        ))))
    );
}

#[test]
fn it_should_return_a_unmatched_delimiter_error() {
    let code = "[]]";
    let result = parse_code(&code.as_bytes().to_vec());

    assert_eq!(result, Err(ParserError::UnmatchedDelimiter));
}

#[test]
fn it_should_return_a_missing_delimiter_error() {
    let code = "[[]";
    let result = parse_code(&code.as_bytes().to_vec());

    assert_eq!(result, Err(ParserError::MissingDelimiter));
}

#[test]
fn it_should_keep_other_characters_as_comments() {
    let code = "a+";
    let result = parse_code(&code.as_bytes().to_vec());

    assert_eq!(
        result,
        Ok(vec!(Node::Comment('a'), Node::Inc(1, 0, false)))
    );
}
