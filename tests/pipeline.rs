use obbidl::ast::File;
use obbidl::compile::{compile_protocol_file, ProtocolFileStateMachines};
use obbidl::parser::parse;
use obbidl::state_machine::{State, StateName};
use obbidl::validate::{self, validate_protocol_file, Direction, Error, ProtocolError, StructError};

fn front(source: &str) -> (File, ProtocolFileStateMachines) {
    let file = parse::<File>(source).unwrap();
    let fsm = compile_protocol_file(&file).unwrap();
    (file, fsm)
}

fn validated(source: &str) -> validate::File {
    let (file, fsm) = front(source);
    match validate_protocol_file(&fsm, &file.structs) {
        Ok(f) => f,
        Err(_) => panic!("validation failed"),
    }
}

fn errors(source: &str) -> Vec<Error> {
    let (file, fsm) = front(source);
    match validate_protocol_file(&fsm, &file.structs) {
        Ok(_) => panic!("validation passed"),
        Err(e) => e,
    }
}

#[test]
fn single_message_protocol() {
    let f = validated("protocol P { X from C to S; }");
    let p = &f.protocols[0];
    assert_eq!(p.role_a.0, "C");
    assert_eq!(p.role_b.0, "S");
    assert_eq!(p.states.len(), 2);
    let t = p.states[0].trans.as_ref().unwrap();
    assert_eq!(t.dir, Direction::AToB);
    assert_eq!(t.messages.len(), 1);
    assert_eq!(t.messages[0].label, "X");
    assert_eq!(t.messages[0].id, 0);
    assert!(t.messages[0].payload.items.is_empty());
    assert_eq!(t.messages[0].dest_state_name, StateName(State(1)));
    assert!(p.states[1].trans.is_none());
}

#[test]
fn choice_collapses_to_same_residual() {
    let f = validated("protocol P { choice { X from C to S; } or { } Y from C to S; }");
    let p = &f.protocols[0];
    assert_eq!(p.states.len(), 3);
    let t0 = p.states[0].trans.as_ref().unwrap();
    assert_eq!(t0.messages.len(), 2);
    assert_eq!(t0.messages[0].label, "X");
    assert_eq!(t0.messages[0].dest_state_name, StateName(State(1)));
    assert_eq!(t0.messages[1].label, "Y");
    assert_eq!(t0.messages[1].dest_state_name, StateName(State(2)));
    let t1 = p.states[1].trans.as_ref().unwrap();
    assert_eq!(t1.messages.len(), 1);
    assert_eq!(t1.messages[0].label, "Y");
    assert_eq!(t1.messages[0].dest_state_name, StateName(State(2)));
    assert!(p.states[2].trans.is_none());
}

#[test]
fn parallel_symmetry_repeats_a_label() {
    let errs = errors("protocol P { par { X from C to S; } and { X from C to S; } }");
    assert_eq!(errs.len(), 1);
    match &errs[0] {
        Error::ProtocolError { name, err: ProtocolError::RepeatedLabel(msgs), .. } => {
            assert_eq!(name, "P");
            assert_eq!(msgs.len(), 2);
        },
        _ => panic!(),
    }
}

#[test]
fn mixed_direction_at_decision() {
    let errs = errors("protocol P { choice { X from C to S; } or { Y from S to C; } }");
    assert!(matches!(&errs[0], Error::ProtocolError { err: ProtocolError::MixedDirections(m), .. } if m.len() == 2));
}

#[test]
fn infinite_loop_returns_to_its_own_residual() {
    let f = validated("protocol P { inf { Tick(n: u16) from C to S; } }");
    let p = &f.protocols[0];
    assert_eq!(p.states.len(), 1);
    let t = p.states[0].trans.as_ref().unwrap();
    assert_eq!(t.dir, Direction::AToB);
    assert_eq!(t.messages[0].label, "Tick");
    assert_eq!(t.messages[0].id, 0);
    assert_eq!(t.messages[0].payload.items[0].0, "n");
    assert_eq!(t.messages[0].dest_state_name, StateName(State(0)));
}

#[test]
fn loop_after_prefix_has_two_states() {
    let f = validated("protocol P { Start from C to S; inf { Tick(n: u16) from C to S; } }");
    let p = &f.protocols[0];
    assert_eq!(p.states.len(), 2);
    let t1 = p.states[1].trans.as_ref().unwrap();
    assert_eq!(t1.messages[0].dest_state_name, StateName(State(1)));
}

#[test]
fn struct_cycle_is_reported() {
    let errs = errors("struct A { b: struct B } struct B { a: struct A } protocol P { M(x: struct A) from C to S; }");
    match &errs[0] {
        Error::StructError { name, err: StructError::RecursiveStruct(n), .. } => {
            assert_eq!(name, "A");
            assert_eq!(n, "A");
        },
        _ => panic!(),
    }
    match &errs[1] {
        Error::StructError { err: StructError::RecursiveStruct(n), .. } => assert_eq!(n, "B"),
        _ => panic!(),
    }
}

#[test]
fn undefined_struct_in_struct_and_payload() {
    let errs = errors("struct A { b: struct Nope } protocol P { M(struct Gone) from C to S; }");
    assert!(matches!(&errs[0], Error::StructError { err: StructError::UndefinedStruct(n), .. } if n == "Nope"));
    assert!(matches!(&errs[1], Error::ProtocolError { err: ProtocolError::UndefinedStruct(n), .. } if n == "Gone"));
}

#[test]
fn wrong_number_of_roles() {
    let errs = errors("protocol P(role A) { X from A to A; }");
    assert!(matches!(&errs[0], Error::ProtocolError { role_count: 1, err: ProtocolError::IncorrectNumberOfRoles, .. }));
}

#[test]
fn message_between_unknown_roles() {
    let errs = errors("protocol P(role A, role B,) { X from A to Q; }");
    assert!(matches!(&errs[0], Error::ProtocolError { err: ProtocolError::InvalidDirection(m), .. } if m.inner.label == "X"));
}

#[test]
fn structs_come_leaves_first_without_repeats() {
    let f = validated(
        "struct Outer { a: struct Inner, b: struct Inner[2] } struct Inner { x: bool } \
         protocol P { M(o: struct Outer, i32) from C to S; }",
    );
    let names: Vec<&str> = f.structs.iter().map(|s| s.name.as_str()).collect();
    assert_eq!(names, vec!["Inner", "Outer"]);
    let items = &f.protocols[0].states[0].trans.as_ref().unwrap().messages[0].payload.items;
    assert_eq!(items[0].0, "o");
    assert_eq!(items[1].0, "param1");
    assert!(matches!(items[0].1, validate::Type::Struct(1)));
}

#[test]
fn tags_follow_transition_order_and_directions_follow_roles() {
    let f = validated("protocol P(role A, role B) { Hello from A to B; choice { L from B to A; } or { R from B to A; } }");
    let p = &f.protocols[0];
    let t1 = p.states[1].trans.as_ref().unwrap();
    assert_eq!(t1.dir, Direction::BToA);
    assert_eq!((t1.messages[0].id, t1.messages[1].id), (0, 1));
    assert_eq!((t1.messages[0].label.as_str(), t1.messages[1].label.as_str()), ("L", "R"));
}

#[test]
fn symmetric_par_gives_same_state_count() {
    let a = validated("protocol P { par { X from C to S; } and { Y from C to S; } }");
    let b = validated("protocol P { par { Y from C to S; } and { X from C to S; } }");
    assert_eq!(a.protocols[0].states.len(), b.protocols[0].states.len());
    assert_eq!(a.protocols[0].states.len(), 4);
}

#[test]
fn compile_twice_gives_identical_machines() {
    let source = "protocol P { fin { A from C to S; par { B from S to C; } and { D from S to C; } } E from C to S; }";
    let (_, m1) = front(source);
    let (_, m2) = front(source);
    let t1 = m1.protocols[0].inner.state_machine.iter_transitions();
    let t2 = m2.protocols[0].inner.state_machine.iter_transitions();
    assert_eq!(t1.len(), t2.len());
    for (x, y) in t1.iter().zip(t2.iter()) {
        assert_eq!((x.start, x.end, &x.msg.inner.label), (y.start, y.end, &y.msg.inner.label));
    }
}

#[test]
fn too_many_branches_at_one_state() {
    let mut source = String::from("protocol P { choice { M0 from C to S; }");
    for i in 1..257 {
        source.push_str(&format!(" or {{ M{} from C to S; }}", i));
    }
    source.push_str(" }");
    let errs = errors(&source);
    assert!(matches!(&errs[0], Error::ProtocolError { err: ProtocolError::TooManyBranches(m), .. } if m.len() == 257));
    let mut ok = String::from("protocol P { choice { M0 from C to S; }");
    for i in 1..256 {
        ok.push_str(&format!(" or {{ M{} from C to S; }}", i));
    }
    ok.push_str(" }");
    let f = validated(&ok);
    assert_eq!(f.protocols[0].states[0].trans.as_ref().unwrap().messages[255].id, 255);
}

#[test]
fn file_with_garbage_is_a_parse_error() {
    let err = match parse::<File>("protocol P { X from C to S; } banana") {
        Ok(_) => panic!(),
        Err(e) => e,
    };
    assert_eq!(err.token.contents, "banana");
    assert_eq!(
        err.expected_tokens,
        vec![
            obbidl::token::TokenType::End,
            obbidl::token::TokenType::Keyword(obbidl::token::Keyword::Protocol),
            obbidl::token::TokenType::Keyword(obbidl::token::Keyword::Struct),
        ]
    );
}

#[test]
fn fin_loop_may_be_skipped() {
    let f = validated("protocol P { fin { A from C to S; } B from C to S; }");
    let p = &f.protocols[0];
    assert_eq!(p.states.len(), 2);
    let t0 = p.states[0].trans.as_ref().unwrap();
    let labels: Vec<&str> = t0.messages.iter().map(|m| m.label.as_str()).collect();
    assert_eq!(labels, vec!["A", "B"]);
    assert_eq!(t0.messages[0].dest_state_name, StateName(State(0)));
}
