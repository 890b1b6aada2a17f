use obbidl::ast::{Sequence, Stmt};
use obbidl::compile::generate_transitions;
use obbidl::parser::{parse, Span};
use obbidl::ast::Message;

fn msg(source: &str) -> Span<Message> {
    parse::<Span<Message>>(source).unwrap()
}

fn seq(source: &str) -> Sequence {
    parse::<Sequence>(source).unwrap()
}

#[test]
fn test_empty_choice() {
    let s = seq("{ choice { X from C to S; } or { } Y from C to S; }");
    let trans = generate_transitions(&s);

    assert_eq!(trans.len(), 2);

    let (m, rem_seq) = &trans[0];
    assert_eq!(m, &msg("X from C to S;"));
    assert_eq!(rem_seq, &seq("{ Y from C to S; }"));

    let (m, rem_seq) = &trans[1];
    assert_eq!(m, &msg("Y from C to S;"));
    assert_eq!(rem_seq, &seq("{ }"));
}

#[test]
fn compile_test_msg_trans() {
    let s = seq("{ X from C to S; Y from S to C; }");
    let trans = generate_transitions(&s);

    assert_eq!(trans.len(), 1);

    let (m, rem_seq) = &trans[0];
    assert_eq!(m, &msg("X from C to S;"));
    assert_eq!(rem_seq, &seq("{ Y from S to C; }"));
}

#[test]
fn compile_test_choice_trans() {
    let s = seq("{ choice { X from C to S; } or { Y from C to S; Z from S to C; } }");
    let trans = generate_transitions(&s);

    assert_eq!(trans.len(), 2);

    let (m, rem_seq) = &trans[0];
    assert_eq!(m, &msg("X from C to S;"));
    assert_eq!(rem_seq, &seq("{ }"));

    let (m, rem_seq) = &trans[1];
    assert_eq!(m, &msg("Y from C to S;"));
    assert_eq!(rem_seq, &seq("{ Z from S to C; }"));
}

#[test]
fn compile_test_par_trans() {
    let s = seq("{ par { X from C to S; } and { Y from C to S; } and { Z from C to S; W from S to C; } }");
    let trans = generate_transitions(&s);

    assert_eq!(trans.len(), 3);

    let (m, rem_seq) = &trans[0];
    assert_eq!(m, &msg("X from C to S;"));
    assert_eq!(
        rem_seq,
        &seq("{ par {} and { Y from C to S; } and { Z from C to S; W from S to C; } }")
    );

    let (m, rem_seq) = &trans[1];
    assert_eq!(m, &msg("Y from C to S;"));
    assert_eq!(
        rem_seq,
        &seq("{ par { X from C to S; } and {} and { Z from C to S; W from S to C; } }")
    );

    let (m, rem_seq) = &trans[2];
    assert_eq!(m, &msg("Z from C to S;"));
    assert_eq!(
        rem_seq,
        &seq("{ par { X from C to S; } and { Y from C to S; } and { W from S to C; } }")
    );
}

#[test]
fn compile_test_inf_trans() {
    let s = seq("{ inf { X from C to S; Y from S to C; } }");
    let trans = generate_transitions(&s);

    let (m, rem_seq) = &trans[0];
    assert_eq!(m, &msg("X from C to S;"));
    assert_eq!(rem_seq, &seq("{ Y from S to C; inf { X from C to S; Y from S to C; } }"));
}

#[test]
fn compile_test_fin_trans() {
    let s = seq("{ fin { X from C to S; Y from C to S; } Z from C to S; }");
    let trans = generate_transitions(&s);

    let (m, rem_seq) = &trans[0];
    assert_eq!(m, &msg("X from C to S;"));
    assert_eq!(
        rem_seq,
        &seq("{ Y from C to S; fin { X from C to S; Y from C to S; } Z from C to S; }")
    );

    let (m, rem_seq) = &trans[1];
    assert_eq!(m, &msg("Z from C to S;"));
    assert_eq!(rem_seq, &seq("{ }"));
}

#[test]
fn to_fsm_test_msg_trans() {
    let s = seq("{ X from C to S; Y from S to C; }");
    let trans = generate_transitions(&s);

    assert_eq!(trans.len(), 1);

    let (m, rem_seq) = &trans[0];
    assert_eq!(m, &msg("X from C to S;"));
    assert_eq!(rem_seq, &seq("{ Y from S to C; }"));
}

#[test]
fn to_fsm_test_choice_trans() {
    let s = seq("{ choice { X from C to S; } or { Y from C to S; Z from S to C; } }");
    let trans = generate_transitions(&s);

    assert_eq!(trans.len(), 2);

    let (m, rem_seq) = &trans[0];
    assert_eq!(m, &msg("X from C to S;"));
    assert_eq!(rem_seq, &seq("{ }"));

    let (m, rem_seq) = &trans[1];
    assert_eq!(m, &msg("Y from C to S;"));
    assert_eq!(rem_seq, &seq("{ Z from S to C; }"));
}

#[test]
fn to_fsm_test_par_trans() {
    let s = seq("{ par { X from C to S; } and { Y from C to S; } and { Z from C to S; W from S to C; } }");
    let trans = generate_transitions(&s);

    assert_eq!(trans.len(), 3);

    let (m, rem_seq) = &trans[0];
    assert_eq!(m, &msg("X from C to S;"));
    assert_eq!(
        rem_seq,
        &seq("{ par {} and { Y from C to S; } and { Z from C to S; W from S to C; } }")
    );

    let (m, rem_seq) = &trans[1];
    assert_eq!(m, &msg("Y from C to S;"));
    assert_eq!(
        rem_seq,
        &seq("{ par { X from C to S; } and {} and { Z from C to S; W from S to C; } }")
    );

    let (m, rem_seq) = &trans[2];
    assert_eq!(m, &msg("Z from C to S;"));
    assert_eq!(
        rem_seq,
        &seq("{ par { X from C to S; } and { Y from C to S; } and { W from S to C; } }")
    );
}

#[test]
fn to_fsm_test_inf_trans() {
    let s = seq("{ inf { X from C to S; Y from S to C; } }");
    let trans = generate_transitions(&s);

    let (m, rem_seq) = &trans[0];
    assert_eq!(m, &msg("X from C to S;"));
    assert_eq!(rem_seq, &seq("{ Y from S to C; inf { X from C to S; Y from S to C; } }"));
}

#[test]
fn to_fsm_test_fin_trans() {
    let s = seq("{ fin { X from C to S; Y from C to S; } Z from C to S; }");
    let trans = generate_transitions(&s);

    let (m, rem_seq) = &trans[0];
    assert_eq!(m, &msg("X from C to S;"));
    assert_eq!(
        rem_seq,
        &seq("{ Y from C to S; fin { X from C to S; Y from C to S; } Z from C to S; }")
    );

    let (m, rem_seq) = &trans[1];
    assert_eq!(m, &msg("Z from C to S;"));
    assert_eq!(rem_seq, &seq("{ }"));
}

#[test]
fn par_branch_order_is_irrelevant_to_equality() {
    assert_eq!(
        seq("{ par { X from C to S; } and { Y from C to S; } }"),
        seq("{ par { Y from C to S; } and { X from C to S; } }")
    );
    assert_ne!(seq("{ X from C to S; }"), seq("{ X from S to C; }"));
    assert_eq!(seq("{ X(a: u8) from C to S; }"), seq("{ X from C to S; }"));
}

#[test]
fn empty_par_branch_is_kept() {
    let s = seq("{ par { X from C to S; } and { Y from C to S; } }");
    let trans = generate_transitions(&s);
    match &trans[0].1 .0[0] {
        Stmt::Par(bs) => assert_eq!(bs.0.len(), 2),
        _ => panic!(),
    }
}
