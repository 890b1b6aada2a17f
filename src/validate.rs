//! Well-formedness checks on compiled protocols, and the validated form that
//! code generation works from.
use vstd::prelude::*;
use vstd::string::*;

use crate::ast::{self, IntType, MessageModel, TypeModel, type_view, opt_str_view};
use crate::compile::{roles_view, ProtocolFileStateMachines, ProtocolStateMachine};
use crate::parser::{RawSpan, Span};
use crate::state_machine::{self, outs_view, trans_from, StateName, TransitionModel};
use crate::text::{decimal, push_decimal};

verus! {

/// The direction of the messages of a decision state, relative to the two
/// roles of the protocol in declaration order.
#[derive(Debug, Clone, Copy, PartialEq, Eq, Structural)]
pub enum Direction {
    BToA,
    AToB,
}

/// One of the two roles of a protocol.
#[derive(Debug, Clone, Copy, PartialEq, Eq, Structural)]
pub enum SimpleRole {
    A,
    B,
}

/// A resolved type: struct references are indices into the file's structs.
#[derive(Debug)]
pub enum Type {
    Bool,
    Int(IntType),
    Array(Box<Type>, Option<u64>),
    Struct(usize),
}

/// Model of a resolved type.
pub enum VTypeModel {
    Bool,
    Int(IntType),
    Array(Box<VTypeModel>, Option<u64>),
    Struct(nat),
}

pub open spec fn vtype_view(t: Type) -> VTypeModel
    decreases t,
{
    match t {
        Type::Bool => VTypeModel::Bool,
        Type::Int(i) => VTypeModel::Int(i),
        Type::Array(b, n) => VTypeModel::Array(Box::new(vtype_view(*b)), n),
        Type::Struct(i) => VTypeModel::Struct(i as nat),
    }
}

/// A resolved struct.
#[derive(Debug)]
pub struct Struct {
    pub name: String,
    pub fields: Vec<(String, Type)>,
}

/// A resolved payload: every item named.
#[derive(Debug)]
pub struct Payload {
    pub items: Vec<(String, Type)>,
}

/// A transition of a validated state.
#[derive(Debug)]
pub struct Message {
    pub label: String,
    pub id: u8,
    pub payload: Payload,
    pub dest_state_name: StateName,
}

/// The transitions that leave a decision state, all in one direction.
#[derive(Debug)]
pub struct Transitions {
    pub dir: Direction,
    pub messages: Vec<Message>,
}

/// A validated state: terminal when it has no transitions.
#[derive(Debug)]
pub struct State {
    pub name: StateName,
    pub trans: Option<Transitions>,
}

/// A validated protocol.
#[derive(Debug)]
pub struct Protocol {
    pub name: String,
    pub role_a: ast::Role,
    pub role_b: ast::Role,
    pub states: Vec<State>,
}

/// A validated file: structs leaves first.
#[derive(Debug)]
pub struct File {
    pub protocols: Vec<Protocol>,
    pub structs: Vec<Struct>,
}

/// What is wrong with a protocol.
#[derive(Debug)]
pub enum ProtocolError {
    IncorrectNumberOfRoles,
    InvalidDirection(Span<ast::Message>),
    MixedDirections(Vec<Span<ast::Message>>),
    RepeatedLabel(Vec<Span<ast::Message>>),
    UndefinedStruct(String),
    TooManyBranches(Vec<Span<ast::Message>>),
}

/// What is wrong with a struct definition.
#[derive(Debug)]
pub enum StructError {
    UndefinedStruct(String),
    RecursiveStruct(String),
}

/// A validation error, with the name and span of the definition it is in.
#[derive(Debug)]
#[allow(inconsistent_fields)]
pub enum Error {
    ProtocolError { name: String, span: RawSpan, role_count: usize, err: ProtocolError },
    StructError { name: String, span: RawSpan, err: StructError },
}

/// Model of a message with its span.
pub type SpannedModel = (RawSpan, MessageModel);

pub open spec fn spanned_view(m: Span<ast::Message>) -> SpannedModel {
    (m.span, m.inner@)
}

pub open spec fn spanned_seq_view(v: Seq<Span<ast::Message>>) -> Seq<SpannedModel> {
    v.map_values(|m: Span<ast::Message>| spanned_view(m))
}

/// Model of a protocol error.
pub enum ProtocolErrorModel {
    IncorrectNumberOfRoles,
    InvalidDirection(SpannedModel),
    MixedDirections(Seq<SpannedModel>),
    RepeatedLabel(Seq<SpannedModel>),
    UndefinedStruct(Seq<char>),
    TooManyBranches(Seq<SpannedModel>),
}

pub open spec fn protocol_error_view(e: ProtocolError) -> ProtocolErrorModel {
    match e {
        ProtocolError::IncorrectNumberOfRoles => ProtocolErrorModel::IncorrectNumberOfRoles,
        ProtocolError::InvalidDirection(m) => ProtocolErrorModel::InvalidDirection(spanned_view(m)),
        ProtocolError::MixedDirections(v) => ProtocolErrorModel::MixedDirections(spanned_seq_view(v@)),
        ProtocolError::RepeatedLabel(v) => ProtocolErrorModel::RepeatedLabel(spanned_seq_view(v@)),
        ProtocolError::UndefinedStruct(n) => ProtocolErrorModel::UndefinedStruct(n@),
        ProtocolError::TooManyBranches(v) => ProtocolErrorModel::TooManyBranches(spanned_seq_view(v@)),
    }
}

/// Most transitions that one state may have: each needs a one-byte tag.
pub const MAX_BRANCHES: usize = 256;

/// Direction of a message between roles `a` and `b`, if it goes between them.
pub open spec fn direction(m: MessageModel, a: Seq<char>, b: Seq<char>) -> Option<Direction> {
    if m.from == a && m.to == b {
        Some(Direction::AToB)
    } else if m.from == b && m.to == a {
        Some(Direction::BToA)
    } else {
        None
    }
}

/// The transitions of `trans` that leave state `s`, in order.
pub open spec fn outgoing(trans: Seq<TransitionModel>, s: nat) -> Seq<TransitionModel> {
    trans_from(trans, s)
}

pub open spec fn out_messages(outs: Seq<TransitionModel>) -> Seq<SpannedModel> {
    outs.map_values(|t: TransitionModel| (t.2, t.3))
}

/// The first struct name in `t` that is not among `names`.
pub open spec fn undefined_in(t: TypeModel, names: Seq<Seq<char>>) -> Option<Seq<char>>
    decreases t,
{
    match t {
        TypeModel::Array(inner, _) => undefined_in(*inner, names),
        TypeModel::Struct(n) => if names.contains(n) {
            None
        } else {
            Some(n)
        },
        _ => None,
    }
}

/// The first undefined struct name in the payload items from `i` on.
pub open spec fn payload_undefined(items: Seq<ast::ItemModel>, names: Seq<Seq<char>>, i: nat) -> Option<Seq<char>>
    decreases items.len() - i,
{
    if i >= items.len() {
        None
    } else {
        match undefined_in(items[i as int].ty, names) {
            Some(n) => Some(n),
            None => payload_undefined(items, names, i + 1),
        }
    }
}

/// The transitions of `outs` labelled `l`.
pub open spec fn with_label(outs: Seq<TransitionModel>, l: Seq<char>) -> Seq<TransitionModel>
    decreases outs.len(),
{
    if outs.len() == 0 {
        Seq::empty()
    } else {
        let r = with_label(outs.drop_last(), l);
        if outs.last().3.label == l {
            r.push(outs.last())
        } else {
            r
        }
    }
}

/// Some transition of `outs` before index `i` has the label of transition `i`.
pub open spec fn label_repeated(outs: Seq<TransitionModel>, i: int) -> bool {
    exists|j: int| 0 <= j < i && #[trigger] outs[j].3.label == outs[i].3.label
}

/// The first error among the transitions `outs` of one state, checking them
/// in order from `i`: too many, a message not between the two roles, a
/// direction unlike the first, a repeated label, an undefined struct.
pub open spec fn state_error(
    outs: Seq<TransitionModel>,
    a: Seq<char>,
    b: Seq<char>,
    names: Seq<Seq<char>>,
    i: nat,
) -> Option<ProtocolErrorModel>
    decreases outs.len() - i,
{
    if i >= outs.len() {
        None
    } else if i >= MAX_BRANCHES {
        Some(ProtocolErrorModel::TooManyBranches(out_messages(outs)))
    } else {
        let t = outs[i as int];
        match direction(t.3, a, b) {
            None => Some(ProtocolErrorModel::InvalidDirection((t.2, t.3))),
            Some(d) => if i > 0 && direction(outs[0].3, a, b) != Some(d) {
                Some(ProtocolErrorModel::MixedDirections(out_messages(outs)))
            } else if label_repeated(outs, i as int) {
                Some(ProtocolErrorModel::RepeatedLabel(out_messages(with_label(outs, t.3.label))))
            } else {
                match payload_undefined(t.3.payload, names, 0) {
                    Some(n) => Some(ProtocolErrorModel::UndefinedStruct(n)),
                    None => state_error(outs, a, b, names, i + 1),
                }
            },
        }
    }
}

/// The first error among the states from `s` on.
pub open spec fn states_error(
    trans: Seq<TransitionModel>,
    count: nat,
    a: Seq<char>,
    b: Seq<char>,
    names: Seq<Seq<char>>,
    s: nat,
) -> Option<ProtocolErrorModel>
    decreases count - s,
{
    if s >= count {
        None
    } else {
        match state_error(outgoing(trans, s), a, b, names, 0) {
            Some(e) => Some(e),
            None => states_error(trans, count, a, b, names, s + 1),
        }
    }
}

/// The first error of a compiled protocol, checked against structs named
/// `names`.
pub open spec fn protocol_error(p: ProtocolStateMachine, names: Seq<Seq<char>>) -> Option<ProtocolErrorModel> {
    let roles = roles_view(p.roles@);
    if roles.len() != 2 {
        Some(ProtocolErrorModel::IncorrectNumberOfRoles)
    } else {
        states_error(p.state_machine.trans(), p.state_machine.count(), roles[0], roles[1], names, 0)
    }
}

/// The index of the first struct named `n`.
pub open spec fn first_index(names: Seq<Seq<char>>, n: Seq<char>, i: nat) -> nat
    decreases names.len() - i,
{
    if i >= names.len() || names[i as int] == n {
        i
    } else {
        first_index(names, n, i + 1)
    }
}

/// `t` with each struct name replaced by the index of the first struct of
/// that name.
pub open spec fn resolve(t: TypeModel, names: Seq<Seq<char>>) -> VTypeModel
    decreases t,
{
    match t {
        TypeModel::Bool => VTypeModel::Bool,
        TypeModel::Int(i) => VTypeModel::Int(i),
        TypeModel::Array(inner, n) => VTypeModel::Array(Box::new(resolve(*inner, names)), n),
        TypeModel::Struct(n) => VTypeModel::Struct(first_index(names, n, 0)),
    }
}

/// Name of payload item `i`: its own, or `param{i}`.
pub open spec fn item_name(it: ast::ItemModel, i: nat) -> Seq<char> {
    match it.name {
        Some(n) => n,
        None => seq!['p', 'a', 'r', 'a', 'm'] + decimal(i),
    }
}

pub open spec fn vpayload_view(p: Payload) -> Seq<(Seq<char>, VTypeModel)> {
    p.items@.map_values(|it: (String, Type)| (it.0@, vtype_view(it.1)))
}

/// `p` is payload `items` resolved against structs named `names`.
pub open spec fn resolves_payload(p: Payload, items: Seq<ast::ItemModel>, names: Seq<Seq<char>>) -> bool {
    &&& p.items@.len() == items.len()
    &&& forall|i: int|
        0 <= i < items.len() ==> (#[trigger] p.items@[i]).0@ == item_name(items[i], i as nat)
            && vtype_view(p.items@[i].1) == resolve(items[i].ty, names)
}

/// `m` is transition `i` of a decision state, validated.
pub open spec fn validated_message(m: Message, t: TransitionModel, i: nat, names: Seq<Seq<char>>) -> bool {
    &&& m.label@ == t.3.label
    &&& m.id == i
    &&& resolves_payload(m.payload, t.3.payload, names)
    &&& m.dest_state_name == StateName(state_machine::State(t.1 as u32))
}

/// `st` is state `s` validated, its transitions being `outs`.
pub open spec fn validated_state(st: State, s: nat, outs: Seq<TransitionModel>, a: Seq<char>, b: Seq<char>, names: Seq<Seq<char>>) -> bool {
    &&& st.name == StateName(state_machine::State(s as u32))
    &&& if outs.len() == 0 {
        st.trans is None
    } else {
        &&& st.trans is Some
        &&& Some(st.trans->0.dir) == direction(outs[0].3, a, b)
        &&& st.trans->0.messages@.len() == outs.len()
        &&& forall|i: int|
            0 <= i < outs.len() ==> validated_message(#[trigger] st.trans->0.messages@[i], outs[i], i as nat, names)
    }
}

/// `r` is the compiled protocol `p` validated against structs named `names`.
pub open spec fn validated_protocol(r: Protocol, p: ProtocolStateMachine, names: Seq<Seq<char>>) -> bool {
    let roles = roles_view(p.roles@);
    &&& r.name@ == p.name@
    &&& roles.len() == 2
    &&& r.role_a.0@ == roles[0]
    &&& r.role_b.0@ == roles[1]
    &&& r.states@.len() == p.state_machine.count()
    &&& forall|s: int|
        0 <= s < r.states@.len() ==> validated_state(
            #[trigger] r.states@[s],
            s as nat,
            outgoing(p.state_machine.trans(), s as nat),
            roles[0],
            roles[1],
            names,
        )
}

pub open spec fn struct_names(v: Seq<Struct>) -> Seq<Seq<char>> {
    v.map_values(|s: Struct| s.name@)
}

/// Index of the first of `structs` named `name`, if any.
fn find_struct(structs: &Vec<Struct>, name: &String) -> (r: Option<usize>)
    ensures
        r matches Some(i) ==> i == first_index(struct_names(structs@), name@, 0) && i < structs@.len()
            && struct_names(structs@)[i as int] == name@,
        r is None <==> !struct_names(structs@).contains(name@),
{
    let ghost names = struct_names(structs@);
    let mut i: usize = 0;
    while i < structs.len()
        invariant
            i <= structs@.len(),
            names == struct_names(structs@),
            first_index(names, name@, 0) == first_index(names, name@, i as nat),
            forall|k: int| 0 <= k < i ==> names[k] != name@,
        decreases structs@.len() - i,
    {
        if structs[i].name == *name {
            return Some(i);
        }
        i = i + 1;
    }
    assert(!names.contains(name@)) by {
        if names.contains(name@) {
            let k = choose|k: int| 0 <= k < names.len() && names[k] == name@;
            assert(names[k] != name@);
        }
    }
    None
}

/// Resolves the struct names of `t`; the first undefined one is the error.
pub fn validate_type_ref(t: &ast::Type, structs: &Vec<Struct>) -> (r: Result<Type, String>)
    ensures
        r matches Ok(v) ==> undefined_in(type_view(*t), struct_names(structs@)) is None && vtype_view(v)
            == resolve(type_view(*t), struct_names(structs@)),
        r matches Err(n) ==> undefined_in(type_view(*t), struct_names(structs@)) == Some(n@),
    decreases t,
{
    match t {
        ast::Type::Bool => Ok(Type::Bool),
        ast::Type::Int(i) => Ok(Type::Int(*i)),
        ast::Type::Array(inner, n) => match validate_type_ref(inner, structs) {
            Ok(v) => Ok(Type::Array(Box::new(v), *n)),
            Err(e) => Err(e),
        },
        ast::Type::Struct(name) => match find_struct(structs, name) {
            Some(i) => Ok(Type::Struct(i)),
            None => Err(name.clone()),
        },
    }
}

/// The name of payload item `i`: its own, or `param{i}`.
fn payload_item_name(name: &Option<String>, i: usize) -> (r: String)
    ensures
        r@ == match opt_str_view(*name) {
            Some(n) => n,
            None => seq!['p', 'a', 'r', 'a', 'm'] + decimal(i as nat),
        },
{
    match name {
        Some(n) => n.clone(),
        None => {
            let mut s = String::from_str("param");
            proof {
                reveal_strlit("param");
            }
            push_decimal(&mut s, i as u64);
            s
        },
    }
}

/// Resolves a payload: names every item and resolves its type.
fn validate_payload(p: &ast::Payload, structs: &Vec<Struct>) -> (r: Result<Payload, String>)
    ensures
        ({
            let items = p.items@.map_values(|it: ast::PayloadItem| ast::item_view(it));
            let names = struct_names(structs@);
            &&& r matches Ok(v) ==> payload_undefined(items, names, 0) is None && resolves_payload(v, items, names)
            &&& r matches Err(n) ==> payload_undefined(items, names, 0) == Some(n@)
        }),
{
    let ghost items = p.items@.map_values(|it: ast::PayloadItem| ast::item_view(it));
    let ghost names = struct_names(structs@);
    let mut out: Vec<(String, Type)> = Vec::new();
    let mut i: usize = 0;
    while i < p.items.len()
        invariant
            i <= p.items@.len(),
            items == p.items@.map_values(|it: ast::PayloadItem| ast::item_view(it)),
            names == struct_names(structs@),
            payload_undefined(items, names, 0) == payload_undefined(items, names, i as nat),
            out@.len() == i,
            forall|k: int|
                0 <= k < i ==> (#[trigger] out@[k]).0@ == item_name(items[k], k as nat) && vtype_view(out@[k].1)
                    == resolve(items[k].ty, names),
        decreases p.items@.len() - i,
    {
        let item = &p.items[i];
        match validate_type_ref(&item.ty, structs) {
            Ok(t) => {
                let n = payload_item_name(&item.name, i);
                out.push((n, t));
            },
            Err(e) => {
                return Err(e);
            },
        }
        i = i + 1;
    }
    Ok(Payload { items: out })
}

/// Direction of `m` between roles `a` and `b`, if it goes between them.
fn message_direction(m: &ast::Message, a: &ast::Role, b: &ast::Role) -> (r: Option<Direction>)
    ensures
        r == direction(m@, a.0@, b.0@),
{
    if m.from.0 == a.0 && m.to.0 == b.0 {
        Some(Direction::AToB)
    } else if m.from.0 == b.0 && m.to.0 == a.0 {
        Some(Direction::BToA)
    } else {
        None
    }
}

/// Copies of all the messages of `outs`.
fn collect_messages(outs: &Vec<(Span<ast::Message>, state_machine::State)>, src: Ghost<nat>) -> (r: Vec<
    Span<ast::Message>,
>)
    ensures
        spanned_seq_view(r@) == out_messages(outs_view(outs@, src@)),
{
    let mut r: Vec<Span<ast::Message>> = Vec::new();
    let mut i: usize = 0;
    while i < outs.len()
        invariant
            i <= outs@.len(),
            r@.len() == i,
            forall|k: int| 0 <= k < i ==> spanned_view(#[trigger] r@[k]) == spanned_view(outs@[k].0),
        decreases outs@.len() - i,
    {
        r.push(outs[i].0.clone());
        i = i + 1;
    }
    assert(spanned_seq_view(r@) =~= out_messages(outs_view(outs@, src@)));
    r
}

/// Copies of the messages of `outs` whose label is `label`.
#[verifier::rlimit(80)]
fn collect_labelled(
    outs: &Vec<(Span<ast::Message>, state_machine::State)>,
    label: &String,
    src: Ghost<nat>,
) -> (r: Vec<Span<ast::Message>>)
    ensures
        spanned_seq_view(r@) == out_messages(with_label(outs_view(outs@, src@), label@)),
{
    let ghost ov = outs_view(outs@, src@);
    let mut r: Vec<Span<ast::Message>> = Vec::new();
    let mut i: usize = 0;
    while i < outs.len()
        invariant
            i <= outs@.len(),
            ov == outs_view(outs@, src@),
            spanned_seq_view(r@) == out_messages(with_label(ov.take(i as int), label@)),
        decreases outs@.len() - i,
    {
        let ghost before = r@;
        assert(ov.take(i + 1).drop_last() =~= ov.take(i as int));
        if outs[i].0.inner.label == *label {
            let m = outs[i].0.clone();
            r.push(m);
            assert(spanned_seq_view(r@) =~= spanned_seq_view(before).push(spanned_view(m)));
            assert(out_messages(with_label(ov.take(i + 1), label@)) =~= out_messages(with_label(ov.take(i as int), label@)).push(
                spanned_view(m)));
        }
        i = i + 1;
    }
    assert(ov.take(outs@.len() as int) =~= ov);
    r
}

/// Validates the transitions `outs` that leave state `src`.
#[verifier::rlimit(80)]
fn validate_state(
    outs: &Vec<(Span<ast::Message>, state_machine::State)>,
    src: u32,
    a: &ast::Role,
    b: &ast::Role,
    structs: &Vec<Struct>,
) -> (r: Result<State, ProtocolError>)
    ensures
        ({
            let ov = outs_view(outs@, src as nat);
            let names = struct_names(structs@);
            &&& r matches Ok(st) ==> state_error(ov, a.0@, b.0@, names, 0) is None && validated_state(
                st,
                src as nat,
                ov,
                a.0@,
                b.0@,
                names,
            )
            &&& r matches Err(e) ==> state_error(ov, a.0@, b.0@, names, 0) == Some(protocol_error_view(e))
        }),
{
    let ghost ov = outs_view(outs@, src as nat);
    let ghost names = struct_names(structs@);
    let mut messages: Vec<Message> = Vec::new();
    let mut first: Option<Direction> = None;
    let mut i: usize = 0;
    while i < outs.len()
        invariant
            i <= outs@.len(),
            ov == outs_view(outs@, src as nat),
            names == struct_names(structs@),
            i <= MAX_BRANCHES,
            state_error(ov, a.0@, b.0@, names, 0) == state_error(ov, a.0@, b.0@, names, i as nat),
            i == 0 <==> first is None,
            i > 0 ==> first == direction(ov[0].3, a.0@, b.0@),
            messages@.len() == i,
            forall|k: int|
                0 <= k < i ==> validated_message(#[trigger] messages@[k], ov[k], k as nat, names),
        decreases outs@.len() - i,
    {
        if i >= MAX_BRANCHES {
            return Err(ProtocolError::TooManyBranches(collect_messages(outs, Ghost(src as nat))));
        }
        let m = &outs[i].0;
        let dir = match message_direction(&m.inner, a, b) {
            Some(d) => d,
            None => {
                return Err(ProtocolError::InvalidDirection(m.clone()));
            },
        };
        match first {
            Some(f) => {
                if f != dir {
                    return Err(ProtocolError::MixedDirections(collect_messages(outs, Ghost(src as nat))));
                }
            },
            None => {
                first = Some(dir);
            },
        }
        let mut j: usize = 0;
        let mut dup = false;
        while j < i && !dup
            invariant
                j <= i < outs@.len(),
                ov == outs_view(outs@, src as nat),
                dup ==> j < i && ov[j as int].3.label == ov[i as int].3.label,
                forall|k: int| 0 <= k < j ==> (#[trigger] ov[k]).3.label != ov[i as int].3.label,
            decreases i - j + (if dup { 0int } else { 1int }),
        {
            if outs[j].0.inner.label == outs[i].0.inner.label {
                dup = true;
            } else {
                j = j + 1;
            }
        }
        if dup {
            assert(label_repeated(ov, i as int));
            let msgs = collect_labelled(outs, &outs[i].0.inner.label, Ghost(src as nat));
            assert(outs[i as int].0.inner.label@ == ov[i as int].3.label);
            return Err(ProtocolError::RepeatedLabel(msgs));
        }
        assert(!label_repeated(ov, i as int));
        let payload = match validate_payload(&m.inner.payload, structs) {
            Ok(p) => p,
            Err(n) => {
                return Err(ProtocolError::UndefinedStruct(n));
            },
        };
        messages.push(
            Message {
                label: m.inner.label.clone(),
                id: i as u8,
                payload,
                dest_state_name: outs[i].1.name(),
            },
        );
        i = i + 1;
    }
    let trans = match first {
        Some(d) => Some(Transitions { dir: d, messages }),
        None => None,
    };
    Ok(State { name: state_machine::State(src).name(), trans })
}

/// Validates a compiled protocol against the resolved structs: it must have
/// two roles, and each state's transitions must go one way between them,
/// carry distinct labels and name defined structs.
#[verifier::rlimit(80)]
pub fn validate_protocol(protocol: &ProtocolStateMachine, structs: &Vec<Struct>) -> (r: Result<Protocol, ProtocolError>)
    requires
        protocol.state_machine.wf(),
    ensures
        r matches Ok(p) ==> protocol_error(*protocol, struct_names(structs@)) is None && validated_protocol(
            p,
            *protocol,
            struct_names(structs@),
        ),
        r matches Err(e) ==> protocol_error(*protocol, struct_names(structs@)) == Some(protocol_error_view(e)),
{
    let ghost names = struct_names(structs@);
    if protocol.roles.len() != 2 {
        return Err(ProtocolError::IncorrectNumberOfRoles);
    }
    let a = protocol.roles[0].clone();
    let b = protocol.roles[1].clone();
    let ghost roles = roles_view(protocol.roles@);
    assert(roles[0] == a.0@ && roles[1] == b.0@);
    let all = protocol.state_machine.iter_states();
    let mut states: Vec<State> = Vec::new();
    let mut s: usize = 0;
    while s < all.len()
        invariant
            s <= all@.len(),
            all@.len() == protocol.state_machine.count(),
            forall|i: int| 0 <= i < all@.len() ==> (#[trigger] all@[i]).0 == i,
            names == struct_names(structs@),
            roles.len() == 2,
            roles == roles_view(protocol.roles@),
            roles[0] == a.0@ && roles[1] == b.0@,
            states_error(protocol.state_machine.trans(), protocol.state_machine.count(), a.0@, b.0@, names, 0) == states_error(
                protocol.state_machine.trans(),
                protocol.state_machine.count(),
                a.0@,
                b.0@,
                names,
                s as nat,
            ),
            states@.len() == s,
            forall|k: int|
                0 <= k < s ==> validated_state(
                    #[trigger] states@[k],
                    k as nat,
                    outgoing(protocol.state_machine.trans(), k as nat),
                    a.0@,
                    b.0@,
                    names,
                ),
        decreases all@.len() - s,
    {
        let src = all[s];
        let outs = protocol.state_machine.iter_trans_from(src);
        assert(outs_view(outs@, src.0 as nat) == outgoing(protocol.state_machine.trans(), s as nat));
        match validate_state(&outs, src.0, &a, &b, structs) {
            Ok(st) => states.push(st),
            Err(e) => {
                assert(state_error(outgoing(protocol.state_machine.trans(), s as nat), a.0@, b.0@, names, 0) == Some(protocol_error_view(e)));
                assert(states_error(protocol.state_machine.trans(), protocol.state_machine.count(), a.0@, b.0@, names, s as nat) == Some(
                    protocol_error_view(e),
                ));
                assert(roles_view(protocol.roles@).len() == 2);

                assert(protocol_error(*protocol, names) == states_error(protocol.state_machine.trans(), protocol.state_machine.count(), roles[0], roles[1], names, 0));
                return Err(e);
            },
        }
        s = s + 1;
    }
    Ok(Protocol { name: protocol.name.clone(), role_a: a, role_b: b, states })
}

/// Model of a struct definition: its name and its fields.
pub type StructDefModel = (Seq<char>, Seq<(Seq<char>, TypeModel)>);

pub open spec fn fields_view(v: Seq<(String, ast::Type)>) -> Seq<(Seq<char>, TypeModel)> {
    v.map_values(|f: (String, ast::Type)| (f.0@, type_view(f.1)))
}

pub open spec fn defs_view(v: Seq<Span<ast::Struct>>) -> Seq<StructDefModel> {
    v.map_values(|d: Span<ast::Struct>| (d.inner.name@, fields_view(d.inner.fields@)))
}

/// Index of the first definition from `i` on named `n`.
pub open spec fn find_def(defs: Seq<StructDefModel>, n: Seq<char>, i: nat) -> Option<nat>
    decreases defs.len() - i,
{
    if i >= defs.len() {
        None
    } else if defs[i as int].0 == n {
        Some(i)
    } else {
        find_def(defs, n, i + 1)
    }
}

/// Model of a struct error.
pub enum StructErrorModel {
    UndefinedStruct(Seq<char>),
    RecursiveStruct(Seq<char>),
}

pub open spec fn struct_error_view(e: StructError) -> StructErrorModel {
    match e {
        StructError::UndefinedStruct(n) => StructErrorModel::UndefinedStruct(n@),
        StructError::RecursiveStruct(n) => StructErrorModel::RecursiveStruct(n@),
    }
}

/// The first error met by a depth-first walk from the struct named `n`,
/// whose ancestors on the walk are `anc`: a struct that is its own ancestor
/// is recursive, a name with no definition is undefined. The last branch
/// cannot be taken when `anc` holds distinct defined names.
pub open spec fn name_error(defs: Seq<StructDefModel>, n: Seq<char>, anc: Seq<Seq<char>>) -> Option<StructErrorModel>
    decreases defs.len() - anc.len(), 0nat, 0nat, TypeModel::Bool,
{
    if anc.contains(n) {
        Some(StructErrorModel::RecursiveStruct(n))
    } else {
        match find_def(defs, n, 0) {
            None => Some(StructErrorModel::UndefinedStruct(n)),
            Some(d) => if anc.len() < defs.len() && d < defs.len() {
                fields_error(defs, defs[d as int].1, anc.push(n), 0)
            } else {
                Some(StructErrorModel::RecursiveStruct(n))
            },
        }
    }
}

/// The first error among the fields from `i` on.
pub open spec fn fields_error(
    defs: Seq<StructDefModel>,
    fields: Seq<(Seq<char>, TypeModel)>,
    anc: Seq<Seq<char>>,
    i: nat,
) -> Option<StructErrorModel>
    decreases defs.len() - anc.len(), 2nat, fields.len() - i, TypeModel::Bool,
{
    if i >= fields.len() || anc.len() > defs.len() {
        None
    } else {
        match type_error(defs, fields[i as int].1, anc) {
            Some(e) => Some(e),
            None => fields_error(defs, fields, anc, i + 1),
        }
    }
}

/// The first error among the structs that `t` names.
pub open spec fn type_error(defs: Seq<StructDefModel>, t: TypeModel, anc: Seq<Seq<char>>) -> Option<StructErrorModel>
    decreases defs.len() - anc.len(), 1nat, 0int, t,
{
    if anc.len() > defs.len() {
        None
    } else {
        match t {
            TypeModel::Array(inner, _) => type_error(defs, *inner, anc),
            TypeModel::Struct(n) => name_error(defs, n, anc),
            _ => None,
        }
    }
}

/// Each resolved struct is defined, its fields are those of its definition
/// with their types resolved against the structs before it, and no name
/// comes twice.
pub open spec fn output_ok(out: Seq<Struct>, defs: Seq<StructDefModel>) -> bool {
    let names = struct_names(out);
    &&& names.no_duplicates()
    &&& forall|j: int| #![trigger out[j]] 0 <= j < out.len() ==> match find_def(defs, out[j].name@, 0) {
        Some(d) => d < defs.len() && fields_resolve(out[j].fields@, defs[d as int].1, names.take(j)),
        None => false,
    }
}

/// `fs` are the fields `dfs` resolved against structs named `names`.
pub open spec fn fields_resolve(fs: Seq<(String, Type)>, dfs: Seq<(Seq<char>, TypeModel)>, names: Seq<Seq<char>>) -> bool {
    &&& fs.len() == dfs.len()
    &&& forall|k: int|
        #![trigger fs[k]]
        0 <= k < fs.len() ==> fs[k].0@ == dfs[k].0 && undefined_in(dfs[k].1, names) is None && vtype_view(fs[k].1)
            == resolve(dfs[k].1, names)
}

/// The ancestors of a walk: distinct names, each defined.
pub open spec fn ancestors_ok(anc: Seq<Seq<char>>, defs: Seq<StructDefModel>) -> bool {
    &&& anc.no_duplicates()
    &&& forall|k: int| 0 <= k < anc.len() ==> find_def(defs, #[trigger] anc[k], 0) is Some
}

proof fn lemma_find_def(defs: Seq<StructDefModel>, n: Seq<char>, i: nat)
    ensures
        find_def(defs, n, i) matches Some(d) ==> i <= d < defs.len() && defs[d as int].0 == n,
        find_def(defs, n, i) is None ==> forall|k: int| i <= k < defs.len() ==> defs[k].0 != n,
    decreases defs.len() - i,
{
    if i < defs.len() && defs[i as int].0 != n {
        lemma_find_def(defs, n, i + 1);
    }
}

proof fn lemma_first_index(names: Seq<Seq<char>>, n: Seq<char>, i: nat, more: Seq<Seq<char>>)
    requires
        exists|k: int| i <= k < names.len() && names[k] == n,
    ensures
        first_index(names, n, i) < names.len(),
        names[first_index(names, n, i) as int] == n,
        first_index(names + more, n, i) == first_index(names, n, i),
    decreases names.len() - i,
{
    assert((names + more)[i as int] == names[i as int]);
    if names[i as int] != n {
        lemma_first_index(names, n, i + 1, more);
    }
}

proof fn lemma_first_index_unique(names: Seq<Seq<char>>, j: int)
    requires
        names.no_duplicates(),
        0 <= j < names.len(),
    ensures
        first_index(names, names[j], 0) == j,
{
    lemma_first_index(names, names[j], 0, Seq::empty());
}

proof fn lemma_resolve_extend(t: TypeModel, names: Seq<Seq<char>>, more: Seq<Seq<char>>)
    requires
        undefined_in(t, names) is None,
    ensures
        undefined_in(t, names + more) is None,
        resolve(t, names + more) == resolve(t, names),
    decreases t,
{
    match t {
        TypeModel::Array(inner, _) => lemma_resolve_extend(*inner, names, more),
        TypeModel::Struct(n) => {
            let k = choose|k: int| 0 <= k < names.len() && names[k] == n;
            lemma_first_index(names, n, 0, more);
            assert((names + more)[k] == n);
        },
        _ => {},
    }
}

proof fn lemma_ancestors_len(anc: Seq<Seq<char>>, defs: Seq<StructDefModel>)
    requires
        ancestors_ok(anc, defs),
    ensures
        anc.len() <= defs.len(),
{
    let dn = defs.map_values(|d: StructDefModel| d.0);
    assert(anc.to_set().subset_of(dn.to_set())) by {
        assert forall|x: Seq<char>| anc.to_set().contains(x) implies dn.to_set().contains(x) by {
            let k = choose|k: int| 0 <= k < anc.len() && anc[k] == x;
            lemma_find_def(defs, anc[k], 0);
            let d = find_def(defs, anc[k], 0)->0;
            assert(dn[d as int] == x);
        }
    }
    anc.unique_seq_to_set();
    dn.lemma_cardinality_of_set();
    vstd::set_lib::lemma_len_subset(anc.to_set(), dn.to_set());
}

proof fn lemma_ancestors_push(anc: Seq<Seq<char>>, defs: Seq<StructDefModel>, n: Seq<char>)
    requires
        ancestors_ok(anc, defs),
        !anc.contains(n),
        find_def(defs, n, 0) is Some,
    ensures
        anc.len() < defs.len(),
        ancestors_ok(anc.push(n), defs),
{
    let a2 = anc.push(n);
    assert forall|i: int, j: int| 0 <= i < a2.len() && 0 <= j < a2.len() && i != j implies a2[i] != a2[j] by {
        if i < anc.len() && j < anc.len() {
        } else if i == anc.len() {
            assert(a2[j] == anc[j]);
        } else {
            assert(a2[i] == anc[i]);
        }
    }
    assert forall|k: int| 0 <= k < a2.len() implies find_def(defs, #[trigger] a2[k], 0) is Some by {
        if k < anc.len() {
            assert(a2[k] == anc[k]);
        }
    }
    lemma_ancestors_len(a2, defs);
}

pub open spec fn names_view(v: Seq<String>) -> Seq<Seq<char>> {
    v.map_values(|s: String| s@)
}

/// Whether `v` holds `name`.
fn contains_name(v: &Vec<String>, name: &String) -> (r: bool)
    ensures
        r == names_view(v@).contains(name@),
{
    let mut k: usize = 0;
    while k < v.len()
        invariant
            k <= v@.len(),
            forall|j: int| 0 <= j < k ==> names_view(v@)[j] != name@,
        decreases v@.len() - k,
    {
        if v[k] == *name {
            assert(names_view(v@)[k as int] == name@);
            return true;
        }
        k = k + 1;
    }
    false
}

/// Index of the first definition named `name`.
fn find_definition(structs: &Vec<Span<ast::Struct>>, name: &String) -> (r: Option<usize>)
    ensures
        r matches Some(d) ==> find_def(defs_view(structs@), name@, 0) == Some(d as nat),
        r is None ==> find_def(defs_view(structs@), name@, 0) is None,
{
    let ghost defs = defs_view(structs@);
    let mut i: usize = 0;
    while i < structs.len()
        invariant
            i <= structs@.len(),
            defs == defs_view(structs@),
            find_def(defs, name@, 0) == find_def(defs, name@, i as nat),
        decreases structs@.len() - i,
    {
        if structs[i].inner.name == *name {
            return Some(i);
        }
        i = i + 1;
    }
    None
}

/// Validates the struct named `name` and those it uses, depth first, with
/// `ancestors` the structs whose walk is in progress. Each struct is added
/// to `output` once, after the structs it uses; the result is its index.
#[verifier::rlimit(80)]
pub fn validate_struct(
    name: &String,
    structs: &Vec<Span<ast::Struct>>,
    ancestors: &mut Vec<String>,
    output: &mut Vec<Struct>,
) -> (r: Result<usize, StructError>)
    requires
        ancestors_ok(names_view(old(ancestors)@), defs_view(structs@)),
        output_ok(old(output)@, defs_view(structs@)),
    ensures
        names_view(final(ancestors)@) == names_view(old(ancestors)@),
        output_ok(final(output)@, defs_view(structs@)),
        final(output)@.len() >= old(output)@.len(),
        final(output)@.subrange(0, old(output)@.len() as int) == old(output)@,
        r matches Err(e) ==> name_error(defs_view(structs@), name@, names_view(old(ancestors)@)) == Some(
            struct_error_view(e),
        ),
        r matches Ok(i) ==> name_error(defs_view(structs@), name@, names_view(old(ancestors)@)) is None && i
            < final(output)@.len() && struct_names(final(output)@)[i as int] == name@,
    decreases structs@.len() - ancestors@.len(), 0nat, 0nat, TypeModel::Bool,
{
    let ghost defs = defs_view(structs@);
    let ghost anc = names_view(ancestors@);
    let ghost out0 = output@;
    proof {
        lemma_ancestors_len(anc, defs);
    }
    if contains_name(ancestors, name) {
        return Err(StructError::RecursiveStruct(name.clone()));
    }
    let d = match find_definition(structs, name) {
        Some(d) => d,
        None => {
            return Err(StructError::UndefinedStruct(name.clone()));
        },
    };
    proof {
        lemma_find_def(defs, name@, 0);
        lemma_ancestors_push(anc, defs, name@);
    }
    ancestors.push(name.clone());
    let ghost anc2 = names_view(ancestors@);
    assert(anc2 =~= anc.push(name@));
    let ghost dfs = defs[d as int].1;
    let def_fields = &structs[d].inner.fields;
    assert(dfs == fields_view(def_fields@));
    let mut fields: Vec<(String, Type)> = Vec::new();
    let mut i: usize = 0;
    while i < def_fields.len()
        invariant
            defs == defs_view(structs@),
            dfs == fields_view(def_fields@),
            anc2 == names_view(ancestors@),
            anc2 == anc.push(name@),
            anc == names_view(old(ancestors)@),
            ancestors@.len() == old(ancestors)@.len() + 1,
            out0 == old(output)@,
            !anc.contains(name@),
            find_def(defs, name@, 0) == Some(d as nat),
            d < defs.len(),
            anc.len() < defs.len(),
            dfs == defs[d as int].1,
            ancestors_ok(anc2, defs),
            anc2.len() <= defs.len(),
            i <= def_fields@.len(),
            fields_error(defs, dfs, anc2, 0) == fields_error(defs, dfs, anc2, i as nat),
            output_ok(output@, defs),
            output@.len() >= out0.len(),
            output@.subrange(0, out0.len() as int) == out0,
            fields@.len() == i,
            forall|j: int|
                #![trigger fields@[j]]
                0 <= j < i ==> fields@[j].0@ == dfs[j].0 && undefined_in(dfs[j].1, struct_names(output@)) is None
                    && vtype_view(fields@[j].1) == resolve(dfs[j].1, struct_names(output@)),
        decreases def_fields@.len() - i,
    {
        let ghost before = output@;
        match validate_type(&def_fields[i].1, structs, ancestors, output) {
            Ok(t) => {
                proof {
                    let more = output@.subrange(before.len() as int, output@.len() as int);
                    assert(struct_names(output@) =~= struct_names(before) + struct_names(more));
                    assert forall|j: int| #![trigger fields@[j]] 0 <= j < i implies undefined_in(dfs[j].1, struct_names(output@)) is None
                        && vtype_view(fields@[j].1) == resolve(dfs[j].1, struct_names(output@)) by {
                        lemma_resolve_extend(dfs[j].1, struct_names(before), struct_names(more));
                    }
                    assert(output@.subrange(0, out0.len() as int) =~= before.subrange(0, out0.len() as int));
                }
                fields.push((def_fields[i].0.clone(), t));
            },
            Err(e) => {
                let ghost bp = ancestors@;
                ancestors.pop();
                assert(ancestors@ =~= bp.drop_last());
                assert(names_view(ancestors@) =~= names_view(bp).drop_last());
                assert(anc2.drop_last() =~= anc);
                return Err(e);
            },
        }
        i = i + 1;
    }
    let ghost bp = ancestors@;
    ancestors.pop();
    assert(ancestors@ =~= bp.drop_last());
    assert(names_view(ancestors@) =~= names_view(bp).drop_last());
    assert(anc2.drop_last() =~= anc);
    assert(fields_error(defs, dfs, anc2, i as nat) is None);
    assert(name_error(defs, name@, anc) == fields_error(defs, dfs, anc2, 0));
    match find_struct(output, name) {
        Some(j) => Ok(j),
        None => {
            let ghost before = output@;
            let j = output.len();
            output.push(Struct { name: name.clone(), fields });
            proof {
                let names = struct_names(output@);
                assert(names =~= struct_names(before).push(name@));
                assert(names.take(j as int) =~= struct_names(before));
                assert(output@.subrange(0, out0.len() as int) =~= before.subrange(0, out0.len() as int));
                assert forall|x: int, y: int| 0 <= x < names.len() && 0 <= y < names.len() && x != y implies names[x] != names[y] by {
                    if x == j as int {
                        assert(names[y] == struct_names(before)[y]);
                        assert(!struct_names(before).contains(name@));
                    } else if y == j as int {
                        assert(names[x] == struct_names(before)[x]);
                        assert(!struct_names(before).contains(name@));
                    }
                }
                assert forall|x: int| #![trigger output@[x]] 0 <= x < output@.len() implies match find_def(defs, output@[x].name@, 0) {
                    Some(dd) => dd < defs.len() && fields_resolve(output@[x].fields@, defs[dd as int].1, names.take(x)),
                    None => false,
                } by {
                    if x < j {
                        assert(output@[x] == before[x]);
                        assert(names.take(x) =~= struct_names(before).take(x));
                    }
                }
            }
            Ok(j)
        },
    }
}

/// Validates the structs that a type uses and resolves it.
pub fn validate_type(
    ty: &ast::Type,
    structs: &Vec<Span<ast::Struct>>,
    ancestors: &mut Vec<String>,
    output: &mut Vec<Struct>,
) -> (r: Result<Type, StructError>)
    requires
        ancestors_ok(names_view(old(ancestors)@), defs_view(structs@)),
        output_ok(old(output)@, defs_view(structs@)),
    ensures
        names_view(final(ancestors)@) == names_view(old(ancestors)@),
        output_ok(final(output)@, defs_view(structs@)),
        final(output)@.len() >= old(output)@.len(),
        final(output)@.subrange(0, old(output)@.len() as int) == old(output)@,
        r matches Err(e) ==> type_error(defs_view(structs@), type_view(*ty), names_view(old(ancestors)@)) == Some(
            struct_error_view(e),
        ),
        r matches Ok(v) ==> type_error(defs_view(structs@), type_view(*ty), names_view(old(ancestors)@)) is None
            && undefined_in(type_view(*ty), struct_names(final(output)@)) is None && vtype_view(v) == resolve(
            type_view(*ty),
            struct_names(final(output)@),
        ),
    decreases structs@.len() - ancestors@.len(), 1nat, 0int, type_view(*ty),
{
    proof {
        lemma_ancestors_len(names_view(ancestors@), defs_view(structs@));
    }
    match ty {
        ast::Type::Bool => Ok(Type::Bool),
        ast::Type::Int(i) => Ok(Type::Int(*i)),
        ast::Type::Array(inner, n) => match validate_type(inner, structs, ancestors, output) {
            Ok(v) => Ok(Type::Array(Box::new(v), *n)),
            Err(e) => Err(e),
        },
        ast::Type::Struct(name) => match validate_struct(name, structs, ancestors, output) {
            Ok(i) => {
                proof {
                    lemma_first_index_unique(struct_names(output@), i as int);
                }
                Ok(Type::Struct(i))
            },
            Err(e) => Err(e),
        },
    }
}

/// Model of a validation error.
pub enum ErrorModel {
    Protocol(RawSpan, Seq<char>, nat, ProtocolErrorModel),
    Struct(RawSpan, Seq<char>, StructErrorModel),
}

pub open spec fn error_view(e: Error) -> ErrorModel {
    match e {
        Error::ProtocolError { name, span, role_count, err } => ErrorModel::Protocol(
            span,
            name@,
            role_count as nat,
            protocol_error_view(err),
        ),
        Error::StructError { name, span, err } => ErrorModel::Struct(span, name@, struct_error_view(err)),
    }
}

pub open spec fn errors_view(v: Seq<Error>) -> Seq<ErrorModel> {
    v.map_values(|e: Error| error_view(e))
}

/// The error of each failing struct definition, in order.
pub open spec fn struct_errors(defs: Seq<StructDefModel>, ss: Seq<Span<ast::Struct>>) -> Seq<ErrorModel>
    decreases ss.len(),
{
    if ss.len() == 0 {
        Seq::empty()
    } else {
        struct_errors(defs, ss.drop_last()) + match name_error(defs, ss.last().inner.name@, seq![]) {
            Some(e) => seq![ErrorModel::Struct(ss.last().span, ss.last().inner.name@, e)],
            None => Seq::empty(),
        }
    }
}

/// The error of each failing protocol, in order, against structs named
/// `names`.
pub open spec fn protocol_errors(ps: Seq<Span<ProtocolStateMachine>>, names: Seq<Seq<char>>) -> Seq<ErrorModel>
    decreases ps.len(),
{
    if ps.len() == 0 {
        Seq::empty()
    } else {
        protocol_errors(ps.drop_last(), names) + match protocol_error(ps.last().inner, names) {
            Some(e) => seq![ErrorModel::Protocol(ps.last().span, ps.last().inner.name@, ps.last().inner.roles@.len(), e)],
            None => Seq::empty(),
        }
    }
}

proof fn lemma_no_struct_errors(defs: Seq<StructDefModel>, ss: Seq<Span<ast::Struct>>)
    requires
        forall|i: int| 0 <= i < ss.len() ==> name_error(defs, (#[trigger] ss[i]).inner.name@, seq![]) is None,
    ensures
        struct_errors(defs, ss).len() == 0,
    decreases ss.len(),
{
    if ss.len() > 0 {
        assert forall|i: int| 0 <= i < ss.drop_last().len() implies name_error(defs, (#[trigger] ss.drop_last()[i]).inner.name@, seq![]) is None by {
            assert(ss.drop_last()[i] == ss[i]);
        }
        lemma_no_struct_errors(defs, ss.drop_last());
        assert(name_error(defs, ss[ss.len() - 1].inner.name@, seq![]) is None);
    }
}

/// Validates the structs and the compiled protocols of a file. Every
/// error is collected, each with the name and span of the definition it
/// belongs to.
#[verifier::rlimit(80)]
pub fn validate_protocol_file(file: &ProtocolFileStateMachines, structs: &Vec<Span<ast::Struct>>) -> (r: Result<
    File,
    Vec<Error>,
>)
    requires
        forall|i: int| 0 <= i < file.protocols@.len() ==> (#[trigger] file.protocols@[i]).inner.state_machine.wf(),
    ensures
        ({
            let defs = defs_view(structs@);
            &&& r matches Ok(f) ==> {
                &&& forall|i: int| 0 <= i < structs@.len() ==> name_error(defs, (#[trigger] structs@[i]).inner.name@, seq![]) is None
                &&& output_ok(f.structs@, defs)
                &&& forall|i: int| 0 <= i < structs@.len() ==> struct_names(f.structs@).contains((#[trigger] structs@[i]).inner.name@)
                &&& f.protocols@.len() == file.protocols@.len()
                &&& forall|i: int| #![trigger f.protocols@[i]] 0 <= i < f.protocols@.len() ==> {
                    &&& protocol_error(file.protocols@[i].inner, struct_names(f.structs@)) is None
                    &&& validated_protocol(f.protocols@[i], file.protocols@[i].inner, struct_names(f.structs@))
                }
            }
            &&& r matches Err(errs) ==> errs@.len() > 0 && forall|k: int| 0 <= k < errs@.len() ==> error_attributed(#[trigger] errs@[k], *file, structs@)
            &&& (forall|i: int| 0 <= i < structs@.len() ==> name_error(defs, (#[trigger] structs@[i]).inner.name@, seq![]) is None)
                && (forall|i: int| 0 <= i < file.protocols@.len() ==> protocol_error((#[trigger] file.protocols@[i]).inner, def_names(structs@)) is None)
                ==> r is Ok
            &&& r matches Err(errs) ==> exists|names: Seq<Seq<char>>|
                #![trigger protocol_errors(file.protocols@, names)]
                errors_view(errs@) == struct_errors(defs, structs@) + protocol_errors(file.protocols@, names)
                    && (struct_errors(defs, structs@).len() == 0 ==> same_names(names, def_names(structs@)))
        }),
{
    let ghost defs = defs_view(structs@);
    let mut errors: Vec<Error> = Vec::new();
    let mut output: Vec<Struct> = Vec::new();
    let mut i: usize = 0;
    while i < structs.len()
        invariant
            i <= structs@.len(),
            defs == defs_view(structs@),
            output_ok(output@, defs),
            forall|k: int| 0 <= k < errors@.len() ==> error_attributed(#[trigger] errors@[k], *file, structs@),
            errors@.len() == 0 ==> forall|k: int| 0 <= k < i ==> name_error(defs, (#[trigger] structs@[k]).inner.name@, seq![]) is None
                && struct_names(output@).contains(structs@[k].inner.name@),
            errors@.len() > 0 ==> exists|k: int| 0 <= k < i && name_error(defs, (#[trigger] structs@[k]).inner.name@, seq![]) is Some,
            errors_view(errors@) == struct_errors(defs, structs@.take(i as int)),
        decreases structs@.len() - i,
    {
        let mut ancestors: Vec<String> = Vec::new();
        let ghost before = output@;
        let ghost errs0 = errors@;
        proof {
            assert(structs@.take(i + 1).drop_last() =~= structs@.take(i as int));
            assert(structs@.take(i + 1).last() == structs@[i as int]);
        }
        proof {
            assert(names_view(ancestors@) =~= Seq::<Seq<char>>::empty());
        }
        match validate_struct(&structs[i].inner.name, structs, &mut ancestors, &mut output) {
            Ok(j) => {
                proof {
                    assert(names_view(ancestors@) =~= seq![]);
                    assert forall|k: int| 0 <= k < i && errors@.len() == 0 implies struct_names(output@).contains((#[trigger] structs@[k]).inner.name@) by {
                        let x = choose|x: int| 0 <= x < struct_names(before).len() && struct_names(before)[x] == structs@[k].inner.name@;
                        assert(output@.subrange(0, before.len() as int)[x] == before[x]);
                        assert(struct_names(output@)[x] == structs@[k].inner.name@);
                    }
                    assert(struct_names(output@)[j as int] == structs@[i as int].inner.name@);
                    assert(struct_errors(defs, structs@.take(i + 1)) =~= struct_errors(defs, structs@.take(i as int)));
                }
            },
            Err(err) => {
                let e = Error::StructError { name: structs[i].inner.name.clone(), span: structs[i].span, err };
                assert(error_attributed(e, *file, structs@)) by {
                    assert(names_view(Seq::<String>::empty()) =~= seq![]);
                };
                assert(name_error(defs, structs@[i as int].inner.name@, seq![]) is Some) by {
                    assert(names_view(Seq::<String>::empty()) =~= seq![]);
                };
                errors.push(e);
                proof {
                    assert(names_view(Seq::<String>::empty()) =~= seq![]);
                    assert(errors_view(errors@) =~= errors_view(errs0).push(error_view(e)));
                    assert(struct_errors(defs, structs@.take(i + 1)) =~= struct_errors(defs, structs@.take(i as int)).push(error_view(e)));
                }
            },
        }
        i = i + 1;
    }
    proof {
        assert(structs@.take(structs@.len() as int) =~= structs@);
        assert(errors_view(errors@) == struct_errors(defs, structs@));
        if errors@.len() == 0 {
            let on = struct_names(output@);
            let dn = def_names(structs@);
            assert forall|x: Seq<char>| on.contains(x) <==> dn.contains(x) by {
                if dn.contains(x) {
                    let k = choose|k: int| 0 <= k < dn.len() && dn[k] == x;
                    assert(structs@[k].inner.name@ == x);
                }
                if on.contains(x) {
                    let j = choose|j: int| 0 <= j < on.len() && on[j] == x;
                    assert(output@[j].name@ == x);
                    lemma_find_def(defs, x, 0);
                    let d = find_def(defs, x, 0)->0;
                    assert(dn[d as int] == x);
                }
            }
        }
    }
    let mut protocols: Vec<Protocol> = Vec::new();
    let mut i: usize = 0;
    while i < file.protocols.len()
        invariant
            i <= file.protocols@.len(),
            defs == defs_view(structs@),
            output_ok(output@, defs),
            forall|k: int| 0 <= k < file.protocols@.len() ==> (#[trigger] file.protocols@[k]).inner.state_machine.wf(),
            forall|k: int| 0 <= k < errors@.len() ==> error_attributed(#[trigger] errors@[k], *file, structs@),
            errors@.len() == 0 ==> forall|k: int| 0 <= k < structs@.len() ==> name_error(defs, (#[trigger] structs@[k]).inner.name@, seq![]) is None
                && struct_names(output@).contains(structs@[k].inner.name@),
            errors@.len() == 0 ==> protocols@.len() == i,
            errors@.len() == 0 ==> same_names(struct_names(output@), def_names(structs@)),
            errors@.len() > 0 ==> (exists|k: int| 0 <= k < structs@.len() && name_error(defs, (#[trigger] structs@[k]).inner.name@, seq![]) is Some)
                || (exists|k: int| 0 <= k < i && protocol_error((#[trigger] file.protocols@[k]).inner, def_names(structs@)) is Some),
            errors@.len() == 0 ==> forall|k: int| 0 <= k < i ==> protocol_error((#[trigger] file.protocols@[k]).inner, struct_names(output@)) is None,
            errors@.len() == 0 ==> forall|k: int| 0 <= k < i ==> validated_protocol(#[trigger] protocols@[k], file.protocols@[k].inner, struct_names(output@)),
            errors_view(errors@) == struct_errors(defs, structs@) + protocol_errors(file.protocols@.take(i as int), struct_names(output@)),
            struct_errors(defs, structs@).len() == 0 ==> same_names(struct_names(output@), def_names(structs@)),
        decreases file.protocols@.len() - i,
    {
        let p = &file.protocols[i];
        let ghost errs0 = errors@;
        proof {
            assert(file.protocols@.take(i + 1).drop_last() =~= file.protocols@.take(i as int));
            assert(file.protocols@.take(i + 1).last() == file.protocols@[i as int]);
        }
        match validate_protocol(&p.inner, &output) {
            Ok(v) => {
                let ghost before = protocols@;
                protocols.push(v);
                assert(forall|k: int| 0 <= k < before.len() ==> protocols@[k] == before[k]);
                assert(protocol_error(file.protocols@[i as int].inner, struct_names(output@)) is None);
                assert(errors@.len() == 0 ==> protocols@.len() == i + 1);
                assert(validated_protocol(protocols@[before.len() as int], file.protocols@[i as int].inner, struct_names(output@)));
                assert(protocol_errors(file.protocols@.take(i + 1), struct_names(output@)) =~= protocol_errors(file.protocols@.take(i as int), struct_names(output@)));
            },
            Err(err) => {
                proof {
                    if errors@.len() == 0 {
                        lemma_protocol_error_same(p.inner, struct_names(output@), def_names(structs@));
                    }
                }
                let e = Error::ProtocolError {
                    name: p.inner.name.clone(),
                    span: p.span,
                    role_count: p.inner.roles.len(),
                    err,
                };
                assert(error_attributed(e, *file, structs@));
                errors.push(e);
                proof {
                    assert(errors_view(errors@) =~= errors_view(errs0).push(error_view(e)));
                    assert(protocol_errors(file.protocols@.take(i + 1), struct_names(output@)) =~= protocol_errors(
                        file.protocols@.take(i as int),
                        struct_names(output@),
                    ).push(error_view(e)));
                }
            },
        }
        i = i + 1;
    }
    proof {
        assert(file.protocols@.take(file.protocols@.len() as int) =~= file.protocols@);
        if forall|k: int| 0 <= k < structs@.len() ==> name_error(defs, (#[trigger] structs@[k]).inner.name@, seq![]) is None {
            lemma_no_struct_errors(defs, structs@);
        }
    }
    if errors.len() > 0 {
        proof {
            let names = struct_names(output@);
            assert(errors_view(errors@) == struct_errors(defs, structs@) + protocol_errors(file.protocols@, names));
            assert(struct_errors(defs, structs@).len() == 0 ==> same_names(names, def_names(structs@)));
            assert(exists|nn: Seq<Seq<char>>|
                #![trigger protocol_errors(file.protocols@, nn)]
                errors_view(errors@) == struct_errors(defs, structs@) + protocol_errors(file.protocols@, nn)
                    && (struct_errors(defs, structs@).len() == 0 ==> same_names(nn, def_names(structs@))));
            assert(forall|k: int| 0 <= k < errors@.len() ==> error_attributed(#[trigger] errors@[k], *file, structs@));
        }
        return Err(errors);
    }
    let f = File { protocols, structs: output };
    assert(f.protocols@.len() == file.protocols@.len());
    assert(output_ok(f.structs@, defs));
    Ok(f)
}

/// `e` belongs to a definition of the file: a protocol or a struct, whose
/// name and span it carries and whose own error it is.
pub open spec fn error_attributed(e: Error, file: ProtocolFileStateMachines, structs: Seq<Span<ast::Struct>>) -> bool {
    match e {
        Error::ProtocolError { name, span, role_count, err } => exists|i: int|
            0 <= i < file.protocols@.len() && #[trigger] file.protocols@[i].span == span && file.protocols@[i].inner.name@
                == name@ && role_count == file.protocols@[i].inner.roles@.len() && exists|names: Seq<Seq<char>>|
                #[trigger] protocol_error(file.protocols@[i].inner, names) == Some(protocol_error_view(err)),
        Error::StructError { name, span, err } => exists|i: int|
            0 <= i < structs.len() && #[trigger] structs[i].span == span && structs[i].inner.name@ == name@
                && name_error(defs_view(structs), name@, seq![]) == Some(struct_error_view(err)),
    }
}

proof fn lemma_state_error_none(
    outs: Seq<TransitionModel>,
    a: Seq<char>,
    b: Seq<char>,
    names: Seq<Seq<char>>,
    i: nat,
    j: nat,
)
    requires
        state_error(outs, a, b, names, i) is None,
        i <= j < outs.len(),
    ensures
        j < MAX_BRANCHES,
        !label_repeated(outs, j as int),
    decreases j - i,
{
    if i < j {
        lemma_state_error_none(outs, a, b, names, i + 1, j);
    }
}

proof fn lemma_states_error_none(
    trans: Seq<TransitionModel>,
    count: nat,
    a: Seq<char>,
    b: Seq<char>,
    names: Seq<Seq<char>>,
    s: nat,
)
    requires
        states_error(trans, count, a, b, names, s) is None,
    ensures
        forall|x: nat| s <= x < count ==> (#[trigger] state_error(outgoing(trans, x), a, b, names, 0)) is None,
    decreases count - s,
{
    if s < count {
        lemma_states_error_none(trans, count, a, b, names, s + 1);
    }
}

/// In every state of a validated protocol, the transitions have distinct
/// labels and distinct tags.
pub proof fn tags_unique(r: Protocol, p: ProtocolStateMachine, names: Seq<Seq<char>>)
    requires
        protocol_error(p, names) is None,
        validated_protocol(r, p, names),
    ensures
        forall|s: int, i: int, j: int|
            #![trigger r.states@[s].trans->0.messages@[i], r.states@[s].trans->0.messages@[j]]
            0 <= s < r.states@.len() && r.states@[s].trans is Some && 0 <= i < j
                < r.states@[s].trans->0.messages@.len() ==> r.states@[s].trans->0.messages@[i].label@
                != r.states@[s].trans->0.messages@[j].label@ && r.states@[s].trans->0.messages@[i].id
                != r.states@[s].trans->0.messages@[j].id,
{
    let roles = roles_view(p.roles@);
    lemma_states_error_none(p.state_machine.trans(), p.state_machine.count(), roles[0], roles[1], names, 0);
    assert forall|s: int, i: int, j: int|
        0 <= s < r.states@.len() && r.states@[s].trans is Some && 0 <= i < j < r.states@[s].trans->0.messages@.len()
        implies #[trigger] r.states@[s].trans->0.messages@[i].label@ != #[trigger] r.states@[s].trans->0.messages@[j].label@
        && r.states@[s].trans->0.messages@[i].id != r.states@[s].trans->0.messages@[j].id by {
        let outs = outgoing(p.state_machine.trans(), s as nat);
        assert(state_error(outs, roles[0], roles[1], names, 0) is None);
        lemma_state_error_none(outs, roles[0], roles[1], names, 0, j as nat);
        lemma_state_error_none(outs, roles[0], roles[1], names, 0, i as nat);
        assert(validated_state(r.states@[s], s as nat, outs, roles[0], roles[1], names));
        let ms = r.states@[s].trans->0.messages@;
        assert(validated_message(ms[i], outs[i], i as nat, names));
        assert(validated_message(ms[j], outs[j], j as nat, names));
        assert(!label_repeated(outs, j));
    }
}

/// Two lists hold the same names.
pub open spec fn same_names(n1: Seq<Seq<char>>, n2: Seq<Seq<char>>) -> bool {
    forall|x: Seq<char>| n1.contains(x) <==> n2.contains(x)
}

proof fn lemma_undefined_same(t: TypeModel, n1: Seq<Seq<char>>, n2: Seq<Seq<char>>)
    requires
        same_names(n1, n2),
    ensures
        undefined_in(t, n1) == undefined_in(t, n2),
    decreases t,
{
    match t {
        TypeModel::Array(inner, _) => lemma_undefined_same(*inner, n1, n2),
        TypeModel::Struct(n) => {
            assert(n1.contains(n) <==> n2.contains(n));
        },
        _ => {},
    }
}

proof fn lemma_payload_same(items: Seq<ast::ItemModel>, n1: Seq<Seq<char>>, n2: Seq<Seq<char>>, i: nat)
    requires
        same_names(n1, n2),
    ensures
        payload_undefined(items, n1, i) == payload_undefined(items, n2, i),
    decreases items.len() - i,
{
    if i < items.len() {
        lemma_undefined_same(items[i as int].ty, n1, n2);
        lemma_payload_same(items, n1, n2, i + 1);
    }
}

proof fn lemma_state_error_same(
    outs: Seq<TransitionModel>,
    a: Seq<char>,
    b: Seq<char>,
    n1: Seq<Seq<char>>,
    n2: Seq<Seq<char>>,
    i: nat,
)
    requires
        same_names(n1, n2),
    ensures
        state_error(outs, a, b, n1, i) == state_error(outs, a, b, n2, i),
    decreases outs.len() - i,
{
    if i < outs.len() {
        lemma_payload_same(outs[i as int].3.payload, n1, n2, 0);
        lemma_state_error_same(outs, a, b, n1, n2, i + 1);
    }
}

proof fn lemma_states_error_same(
    trans: Seq<TransitionModel>,
    count: nat,
    a: Seq<char>,
    b: Seq<char>,
    n1: Seq<Seq<char>>,
    n2: Seq<Seq<char>>,
    s: nat,
)
    requires
        same_names(n1, n2),
    ensures
        states_error(trans, count, a, b, n1, s) == states_error(trans, count, a, b, n2, s),
    decreases count - s,
{
    if s < count {
        lemma_state_error_same(outgoing(trans, s), a, b, n1, n2, 0);
        lemma_states_error_same(trans, count, a, b, n1, n2, s + 1);
    }
}

/// A protocol's errors depend on which struct names exist, not on their
/// order or repetition.
pub proof fn lemma_protocol_error_same(p: ProtocolStateMachine, n1: Seq<Seq<char>>, n2: Seq<Seq<char>>)
    requires
        same_names(n1, n2),
    ensures
        protocol_error(p, n1) == protocol_error(p, n2),
{
    let roles = roles_view(p.roles@);
    if roles.len() == 2 {
        lemma_states_error_same(p.state_machine.trans(), p.state_machine.count(), roles[0], roles[1], n1, n2, 0);
    }
}

/// The names of the struct definitions.
pub open spec fn def_names(structs: Seq<Span<ast::Struct>>) -> Seq<Seq<char>> {
    structs.map_values(|d: Span<ast::Struct>| d.inner.name@)
}

} // verus!
