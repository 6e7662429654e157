use lenses::{
    array_idx_parser, cast_parser, cast_type_parser, obj_key_parser, setter_parser, token_parser,
    tokens_parser, tokens_parser_2, Cast, ErrorKind, ParseError, RawExpression, Token,
};
use nom::branch::alt;
use nom::bytes::complete::{tag, take_while1};
use nom::character::complete::space0;
use nom::combinator::eof;
use nom::multi::{many1, many_till};
use nom::sequence::{pair, preceded, terminated};
use nom::Parser;

// Reference parsers written with nom combinators, to hold the library's
// parsers against on many inputs.

#[derive(Debug, PartialEq)]
enum RefExpr {
    Getter(Vec<Token>),
    Setter(Vec<Token>, String),
}

fn is_key_char(c: char) -> bool {
    c.is_ascii_alphanumeric() || c == '_' || c == '-'
}

fn key_chars(input: &str) -> nom::IResult<&str, &str> {
    take_while1(is_key_char)(input).map_err(|e: nom::Err<nom::error::Error<&str>>| {
        e.map(|e| nom::error::Error::new(e.input, nom::error::ErrorKind::AlphaNumeric))
    })
}

fn ref_obj_key(input: &str) -> nom::IResult<&str, String> {
    let (x, s) = preceded(tag("."), key_chars)(input)?;
    Ok((x, s.to_string()))
}

fn ref_array_idx(input: &str) -> nom::IResult<&str, usize> {
    let (x, i) =
        terminated(preceded(tag("["), nom::character::complete::u32), tag("]"))(input)?;
    Ok((x, i as usize))
}

fn ref_token(input: &str) -> nom::IResult<&str, Token> {
    alt((ref_array_idx.map(Token::Idx), ref_obj_key.map(Token::Key)))(input)
}

fn ref_setter(input: &str) -> nom::IResult<&str, String> {
    let (x, s) = preceded(tag("="), preceded(space0, take_while1(|_| true)))(input)?;
    Ok((x, s.to_owned()))
}

fn ref_tokens(input: &str) -> nom::IResult<&str, RefExpr> {
    let (x, (ts, opt_s)) =
        many_till(ref_token, alt((ref_setter.map(Some), eof.map(|_| None))))(input)?;
    Ok((
        x,
        match opt_s {
            Some(s) => RefExpr::Setter(ts, s),
            None => RefExpr::Getter(ts),
        },
    ))
}

fn ref_tokens_2(input: &str) -> nom::IResult<&str, RefExpr> {
    alt((
        pair(many1(ref_token), preceded(space0, ref_setter))
            .map(|(t, s)| RefExpr::Setter(t, s)),
        many1(ref_token).map(RefExpr::Getter),
    ))(input)
}

fn ref_cast_type(input: &str) -> nom::IResult<&str, Cast> {
    alt((
        tag("bool").map(|_| Cast::Bool),
        tag("object").map(|_| Cast::Object),
        tag("array").map(|_| Cast::Array),
        tag("number").map(|_| Cast::Number),
        tag("string").map(|_| Cast::String),
    ))(input)
}

fn ref_cast(input: &str) -> nom::IResult<&str, Cast> {
    preceded(tag("as "), ref_cast_type)(input)
}

type Outcome<'a, T> = Result<(&'a str, T), (&'a str, nom::error::ErrorKind)>;

fn from_nom<T>(r: nom::IResult<&str, T>) -> Outcome<'_, T> {
    match r {
        Ok(ok) => Ok(ok),
        Err(nom::Err::Error(e)) | Err(nom::Err::Failure(e)) => Err((e.input, e.code)),
        Err(nom::Err::Incomplete(_)) => panic!("complete parsers do not ask for more input"),
    }
}

fn kind(k: ErrorKind) -> nom::error::ErrorKind {
    match k {
        ErrorKind::Tag => nom::error::ErrorKind::Tag,
        ErrorKind::KeyChar => nom::error::ErrorKind::AlphaNumeric,
        ErrorKind::Digit => nom::error::ErrorKind::Digit,
        ErrorKind::TakeWhile1 => nom::error::ErrorKind::TakeWhile1,
    }
}

fn from_lib<'a, T>(r: Result<(&'a str, T), ParseError<'a>>) -> Outcome<'a, T> {
    match r {
        Ok(ok) => Ok(ok),
        Err(e) => Err((e.input, kind(e.code))),
    }
}

fn raw(e: RawExpression) -> RefExpr {
    match e {
        RawExpression::Getter(ts) => RefExpr::Getter(ts),
        RawExpression::Setter(ts, s) => RefExpr::Setter(ts, s.possible_js_value().clone()),
    }
}

fn inputs() -> Vec<&'static str> {
    vec![
    "",
    ".",
    ".a",
    ".abc.def",
    ".a_b",
    ".my_key-1",
    "._",
    ".-a.b",
    ".a+b",
    ".é",
    ".Ab9",
    "..",
    "[",
    "[]",
    "[0]",
    "[007]",
    "[12][3]",
    "[4294967295]",
    "[4294967296]",
    "[99999999999]",
    "[12",
    "[12x",
    "[-1]",
    "[ 1]",
    "x",
    "=",
    "= ",
    "=\t",
    "=1",
    "=  {\"a\": 1}",
    "= é",
    " = 1",
    ".a = 1",
    ".a=1",
    ".a \t= x",
    ".a =",
    ".a = \t",
    ".a[0].b = [1,2]",
    ".a .b",
    ".a[0]",
    ".a[0",
    "[0].",
    "[0].b.c",
    ".a.b.c=null",
    "as bool",
    "as object",
    "as array",
    "as number",
    "as string",
    "as strin",
    "as",
    "as  bool",
    "bool",
    "booleans",
    "object",
    "array",
    "stringy",
    "number1",
    "objec",
    ]
}

#[test]
fn obj_key_parser_agrees_with_reference() {
    for input in inputs() {
        assert_eq!(from_lib(obj_key_parser(input)), from_nom(ref_obj_key(input)), "{input:?}");
    }
}

#[test]
fn array_idx_parser_agrees_with_reference() {
    for input in inputs() {
        assert_eq!(
            from_lib(array_idx_parser(input)),
            from_nom(ref_array_idx(input)),
            "{input:?}"
        );
    }
}

#[test]
fn token_parser_agrees_with_reference() {
    for input in inputs() {
        assert_eq!(from_lib(token_parser(input)), from_nom(ref_token(input)), "{input:?}");
    }
}

#[test]
fn setter_parser_agrees_with_reference() {
    for input in inputs() {
        let mine = from_lib(setter_parser(input)).map(|(x, s)| (x, s.possible_js_value().clone()));
        assert_eq!(mine, from_nom(ref_setter(input)), "{input:?}");
    }
}

#[test]
fn tokens_parser_agrees_with_reference() {
    for input in inputs() {
        let mine = from_lib(tokens_parser(input)).map(|(x, e)| (x, raw(e)));
        assert_eq!(mine, from_nom(ref_tokens(input)), "{input:?}");
    }
}

#[test]
fn tokens_parser_2_agrees_with_reference() {
    for input in inputs() {
        let mine = from_lib(tokens_parser_2(input)).map(|(x, e)| (x, raw(e)));
        assert_eq!(mine, from_nom(ref_tokens_2(input)), "{input:?}");
    }
}

#[test]
fn cast_parsers_agree_with_reference() {
    for input in inputs() {
        assert_eq!(
            from_lib(cast_type_parser(input)),
            from_nom(ref_cast_type(input)),
            "{input:?}"
        );
        assert_eq!(from_lib(cast_parser(input)), from_nom(ref_cast(input)), "{input:?}");
    }
}

#[test]
fn obj_key_parser_reads_underscores_and_hyphens() {
    assert_eq!(obj_key_parser(".my_key-1"), Ok(("", "my_key-1".to_string())));
    assert!(obj_key_parser("key").is_err());
}

#[test]
fn obj_key_parser_reads_a_key() {
    assert_eq!(obj_key_parser(".abc.def"), Ok((".def", "abc".to_string())));
}

#[test]
fn obj_key_parser_errors() {
    assert_eq!(obj_key_parser("abc"), Err(ParseError { input: "abc", code: ErrorKind::Tag }));
    assert_eq!(
        obj_key_parser(".+x"),
        Err(ParseError { input: "+x", code: ErrorKind::KeyChar })
    );
}

#[test]
fn array_idx_parser_reads_a_position() {
    assert_eq!(array_idx_parser("[12][3]"), Ok(("[3]", 12)));
    assert_eq!(array_idx_parser("[4294967295]"), Ok(("", 4294967295)));
}

#[test]
fn array_idx_parser_errors() {
    assert_eq!(array_idx_parser("12]"), Err(ParseError { input: "12]", code: ErrorKind::Tag }));
    assert_eq!(array_idx_parser("[]"), Err(ParseError { input: "]", code: ErrorKind::Digit }));
    assert_eq!(
        array_idx_parser("[4294967296]"),
        Err(ParseError { input: "4294967296]", code: ErrorKind::Digit })
    );
    assert_eq!(array_idx_parser("[1x"), Err(ParseError { input: "x", code: ErrorKind::Tag }));
}

#[test]
fn token_parser_prefers_positions_then_keys() {
    assert_eq!(token_parser("[2].a"), Ok((".a", Token::Idx(2))));
    assert_eq!(token_parser(".a[2]"), Ok(("[2]", Token::Key("a".to_string()))));
    assert_eq!(token_parser("?"), Err(ParseError { input: "?", code: ErrorKind::Tag }));
}

#[test]
fn setter_parser_takes_the_rest_after_spaces() {
    let (rest, s) = setter_parser("=  {\"a\": 1}").unwrap();
    assert_eq!(rest, "");
    assert_eq!(s.possible_js_value(), "{\"a\": 1}");
    assert_eq!(setter_parser("= "), Err(ParseError { input: "", code: ErrorKind::TakeWhile1 }));
    assert_eq!(setter_parser("1"), Err(ParseError { input: "1", code: ErrorKind::Tag }));
}

#[test]
fn tokens_parser_reads_getters_and_setters() {
    let (rest, e) = tokens_parser(".a[0].b").unwrap();
    assert_eq!(rest, "");
    assert_eq!(
        e,
        RawExpression::Getter(vec![
            Token::Key("a".to_string()),
            Token::Idx(0),
            Token::Key("b".to_string())
        ])
    );
    let (rest, e) = tokens_parser(".a=[1, 2]").unwrap();
    assert_eq!(rest, "");
    assert_eq!(raw(e), RefExpr::Setter(vec![Token::Key("a".to_string())], "[1, 2]".to_string()));
    let (_, e) = tokens_parser("").unwrap();
    assert_eq!(e, RawExpression::Getter(vec![]));
}

#[test]
fn tokens_parser_rejects_a_space_before_the_setter() {
    assert_eq!(tokens_parser(".a = 1"), Err(ParseError { input: " = 1", code: ErrorKind::Tag }));
}

#[test]
fn tokens_parser_2_allows_spaces_and_leaves_the_rest() {
    let (rest, e) = tokens_parser_2(".a \t= 1").unwrap();
    assert_eq!(rest, "");
    assert_eq!(raw(e), RefExpr::Setter(vec![Token::Key("a".to_string())], "1".to_string()));
    let (rest, e) = tokens_parser_2(".a .b").unwrap();
    assert_eq!(rest, " .b");
    assert_eq!(e, RawExpression::Getter(vec![Token::Key("a".to_string())]));
    assert_eq!(tokens_parser_2(""), Err(ParseError { input: "", code: ErrorKind::Tag }));
}

#[test]
fn cast_parsers_read_type_names() {
    assert_eq!(cast_type_parser("booleans"), Ok(("eans", Cast::Bool)));
    assert_eq!(cast_parser("as number!"), Ok(("!", Cast::Number)));
    assert_eq!(cast_parser("as numbr"), Err(ParseError { input: "numbr", code: ErrorKind::Tag }));
    assert_eq!(cast_parser("is bool"), Err(ParseError { input: "is bool", code: ErrorKind::Tag }));
}
