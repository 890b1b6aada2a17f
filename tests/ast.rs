use obbidl::ast::{IntSize, IntType, Message, Payload, PayloadItem, Role, Struct, Type};
use obbidl::parser::parse;

fn role(name: &str) -> Role {
    Role(name.to_string())
}

#[test]
fn ast_test_parse_msg() {
    let msg = parse::<Message>("X from Y to Z;").unwrap();
    assert_eq!(
        msg,
        Message {
            label: "X".to_string(),
            payload: Payload::empty(),
            from: role("Y"),
            to: role("Z"),
        }
    )
}

#[test]
fn ast_test_parse_msg_payload() {
    let msg = parse::<Message>("X(x: u32) from Y to Z;").unwrap();
    assert_eq!(
        msg,
        Message {
            label: "X".to_string(),
            payload: Payload {
                items: vec![PayloadItem {
                    name: Some("x".to_string()),
                    ty: Type::Int(IntType {
                        signed: false,
                        size: IntSize::B32
                    })
                }]
            },
            from: role("Y"),
            to: role("Z"),
        }
    )
}

#[test]
fn test_parse_struct() {
    let struct_ = parse::<Struct>("struct Point { x: u32, y: u32 }").unwrap();
    let u32_ty = IntType { signed: false, size: IntSize::B32 };
    assert_eq!(
        struct_,
        Struct {
            name: "Point".to_string(),
            fields: vec![
                ("x".to_string(), Type::Int(u32_ty)),
                ("y".to_string(), Type::Int(u32_ty))
            ]
        }
    )
}

#[test]
fn parse_array_types_stack_outermost_last() {
    let ty = parse::<Type>("u8[4][]").unwrap();
    let u8_ty = Type::Int(IntType { signed: false, size: IntSize::B8 });
    assert_eq!(ty, Type::Array(Box::new(Type::Array(Box::new(u8_ty), Some(4))), None));
}

#[test]
fn parse_unnamed_item_and_trailing_comma() {
    let msg = parse::<Message>("M(bool, struct P,) from A to B;").unwrap();
    assert_eq!(msg.payload.items.len(), 2);
    assert_eq!(msg.payload.items[0].name, None);
    assert_eq!(msg.payload.items[1].ty, Type::Struct("P".to_string()));
}

#[test]
fn parse_error_reports_token_and_expected() {
    let err = parse::<Message>("X from Y Z;").unwrap_err();
    assert_eq!(err.token.contents, "Z");
    assert_eq!(err.expected_tokens, vec![obbidl::token::TokenType::Keyword(obbidl::token::Keyword::To)]);
    assert_eq!((err.pos.line, err.pos.column), (1, 10));
}

#[test]
fn parse_too_large_array_size_is_an_error() {
    assert!(parse::<Type>("u8[18446744073709551616]").is_err());
    assert!(parse::<Type>("u8[18446744073709551615]").is_ok());
}
