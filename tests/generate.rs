use obbidl::ast::{File, Message};
use obbidl::compile::compile_protocol_file;
use obbidl::format::binary::Binary;
use obbidl::generate::GenerateRust;
use obbidl::parser::parse;
use obbidl::validate::{self, validate_protocol_file};

fn validated(source: &str) -> validate::File {
    let file = parse::<File>(source).unwrap();
    let fsm = compile_protocol_file(&file).unwrap();
    match validate_protocol_file(&fsm, &file.structs) {
        Ok(f) => f,
        Err(_) => panic!("validation failed"),
    }
}

fn generated(source: &str) -> String {
    let f = validated(source);
    GenerateRust::<Binary>::new(&f).to_string()
}

#[test]
fn generates_both_roles_of_single_message() {
    let code = generated("protocol P { X from C to S; }");
    assert!(code.starts_with("pub mod P {\npub mod C {\nuse std::mem::size_of;\n"));
    assert!(code.contains("pub fn send_X(mut self, ) -> Result<S1<C>, E> {\nreturn Ok(S1(self.0));\n}\n"));
    assert!(code.contains("pub trait S0Receiver<C: Channel<Error = E>, E> {\ntype Type;\nfn recv_X(self, state: S1<C>, ) -> Result<Self::Type, E>;\n}\n"));
    assert!(code.contains("impl<C: Channel<Error = E>, E> S1<C> {\npub fn finish(self) {}\n}\n"));
    assert!(code.contains("pub mod S {\n"));
    assert!(!code.contains("send_u8(0)"));
}

#[test]
fn tag_is_written_only_where_a_state_has_several_messages() {
    let code = generated("protocol P { choice { X from C to S; } or { Y(b: bool) from C to S; } }");
    assert!(code.contains("pub fn send_X(mut self, ) -> Result<S1<C>, E> {\nself.0.send_u8(0)?;\nreturn Ok(S1(self.0));\n}\n"));
    assert!(code.contains("self.0.send_u8(1)?;\nself.0.send_u8(if b { 1 } else { 0 })?;\n"));
    assert!(code.contains("let id = self.0.recv_u8()?;\nif id == 0 {\n"));
    assert!(code.contains("panic!(\"invalid message!\")\n"));
}

#[test]
fn variable_array_is_sent_with_a_length_prefix() {
    let code = generated("protocol P { Data(data: u8[]) from C to S; }");
    assert!(code.contains(
        "self.0.send(&u32::to_be_bytes(data.len() as u32))?;\nfor i in 0..data.len() {\nself.0.send(&u8::to_be_bytes(data[i]))?;\n}\n"
    ));
    assert!(code.contains("let mut data = vec![u8::default(); self.0.recv_u32()? as usize];\n"));
    assert!(code.contains("pub fn send_Data(mut self, data: &[u8], )"));
}

#[test]
fn structs_are_sent_field_by_field() {
    let code = generated("struct Point { x: i32, y: i32 } protocol P { At(p: struct Point) from C to S; }");
    assert!(code.starts_with("pub struct Point {\nx: i32,\ny: i32,\n}\n"));
    assert!(code.contains("self.0.send(&i32::to_be_bytes(p.x))?;\nself.0.send(&i32::to_be_bytes(p.y))?;\n"));
    assert!(code.contains("let p = super::super::Point {x,y,};\n"));
}

#[test]
fn graphviz_lists_edges_per_protocol() {
    let file = parse::<File>("protocol P { X from C to S; }").unwrap();
    let fsm = compile_protocol_file(&file).unwrap();
    assert_eq!(fsm.graph_viz().to_string(), "digraph {\n  label=\"P\"\n  0 -> 1[label=\"X\"];\n}\n");
}

#[test]
fn message_prints_as_source_and_parses_back() {
    let m = parse::<Message>("X(x: u32, bool[][4], struct P) from Y to Z;").unwrap();
    let text = m.to_source();
    assert_eq!(text, "X(x: u32, bool[][4], struct P) from Y to Z;");
    assert_eq!(parse::<Message>(&text).unwrap(), m);
    let plain = parse::<Message>("X from Y to Z;").unwrap();
    assert_eq!(plain.to_source(), "X from Y to Z;");
}

#[test]
fn parse_error_is_rendered() {
    let err = parse::<Message>("X from Y Z;").unwrap_err();
    let text = err.pretty();
    assert!(text.contains("SYNTAX ERROR"));
    assert!(text.contains(": line 1, column 10\n  Found the identifier 'Z'\n  Expected one of the following:\n    - the keyword 'to'"));
}

#[test]
fn validation_error_is_rendered_under_a_gutter() {
    let source = "protocol P {\n  choice { X from C to S; }\n  or { X from C to S; }\n}";
    let file = parse::<File>(source).unwrap();
    let fsm = compile_protocol_file(&file).unwrap();
    let errs = match validate_protocol_file(&fsm, &file.structs) {
        Ok(_) => panic!(),
        Err(e) => e,
    };
    let text = errs[0].pretty_print(source);
    assert!(text.contains("validation error"));
    assert!(text.contains(": error in protocol 'P'\n  1 | protocol P {\n  2 |   choice { X from C to S; }\n"));
    assert!(text.contains("have the same label:\n  2 |            X from C to S;\n  3 |        X from C to S;\n"));
    let file2 = parse::<File>("protocol Q { A from C to C; }").unwrap();
    let fsm2 = compile_protocol_file(&file2).unwrap();
    let errs2 = match validate_protocol_file(&fsm2, &file2.structs) {
        Ok(_) => panic!(),
        Err(e) => e,
    };
    let text2 = errs2[0].pretty_print("protocol Q { A from C to C; }");
    assert!(text2.contains("info: the following message is to 'C' and from 'C'\n  1 |              A from C to C;\n"));
}

#[test]
fn printing_then_parsing_gives_the_message_back() {
    let m = parse::<Message>("Hello(n: u64, flags: bool[8][], struct Point, i8) from Client to Server;").unwrap();
    let again = obbidl::roundtrip::print_then_parse(&m).unwrap();
    assert_eq!(again, m);
    assert_eq!(again.payload.items.len(), 4);
}

#[test]
fn json_format_names_each_item() {
    let f = validated("protocol P { choice { A(n: u16, ok: bool) from C to S; } or { B(xs: i8[2]) from C to S; } }");
    let code = GenerateRust::<obbidl::format::json::Json>::new(&f).to_string();
    assert!(code.contains(
        "let mut object = HashMap::new()\nobject.insert(\"label\", \"A\".into());\nlet value = n.into()\nobject.insert(\"n\", value);\n"
    ));
    assert!(code.contains("let value = \nlet label = value[\"label\"].as_str().unwrap();\nif label == \"A\" {\n"));
    assert!(code.contains("let n = value.as_u16().unwrap()\n"));
    assert!(code.contains("let mut xs = [i8::default(); 2];\nfor (i, value) in value.members().enumerate() {\n"));
}
