//! Code generation: typed state handles for both roles of each protocol.
use vstd::prelude::*;

use crate::ast::{IntSize, IntType};
use crate::state_machine::StateName;
use crate::text::{decimal, push_decimal, push_str, push_string};
use crate::format::Format;
use crate::validate::{struct_names, vtype_view, Direction, File, Message, Protocol, SimpleRole, State, Struct, Type, VTypeModel};

verus! {

/// Rust spelling of an integer type.
pub open spec fn int_text(t: IntType) -> Seq<char> {
    (if t.signed {
        "i"@
    } else {
        "u"@
    }) + match t.size {
        IntSize::B64 => "64"@,
        IntSize::B32 => "32"@,
        IntSize::B16 => "16"@,
        IntSize::B8 => "8"@,
    }
}

/// Name of struct `i`, empty when there is none.
pub open spec fn struct_name_at(names: Seq<Seq<char>>, i: nat) -> Seq<char> {
    if i < names.len() {
        names[i as int]
    } else {
        Seq::empty()
    }
}

/// Rust spelling of an owned value of type `t`.
pub open spec fn type_text(names: Seq<Seq<char>>, t: VTypeModel) -> Seq<char>
    decreases t,
{
    match t {
        VTypeModel::Bool => "bool"@,
        VTypeModel::Int(i) => int_text(i),
        VTypeModel::Array(b, Some(n)) => "["@ + type_text(names, *b) + "; "@ + decimal(n as nat) + "]"@,
        VTypeModel::Array(b, None) => "Vec<"@ + type_text(names, *b) + ">"@,
        VTypeModel::Struct(i) => "super::super::"@ + struct_name_at(names, i),
    }
}

/// Rust spelling of a borrowed value of type `t`.
pub open spec fn borrowed_type_text(names: Seq<Seq<char>>, t: VTypeModel) -> Seq<char> {
    match t {
        VTypeModel::Array(b, Some(n)) => "&["@ + type_text(names, *b) + "; "@ + decimal(n as nat) + "]"@,
        VTypeModel::Array(b, None) => "&["@ + type_text(names, *b) + "]"@,
        VTypeModel::Struct(i) => "&super::super::"@ + struct_name_at(names, i),
        _ => type_text(names, t),
    }
}

/// `name: type, ` for each item, owned.
pub open spec fn payload_text(names: Seq<Seq<char>>, items: Seq<(String, Type)>) -> Seq<char>
    decreases items.len(),
{
    if items.len() == 0 {
        Seq::empty()
    } else {
        payload_text(names, items.drop_last()) + items.last().0@ + ": "@ + type_text(names, vtype_view(items.last().1))
            + ", "@
    }
}

/// `name: type, ` for each item, borrowed.
pub open spec fn borrowed_payload_text(names: Seq<Seq<char>>, items: Seq<(String, Type)>) -> Seq<char>
    decreases items.len(),
{
    if items.len() == 0 {
        Seq::empty()
    } else {
        borrowed_payload_text(names, items.drop_last()) + items.last().0@ + ": "@ + borrowed_type_text(
            names,
            vtype_view(items.last().1),
        ) + ", "@
    }
}

/// `S{n}`.
pub open spec fn state_name_text(n: StateName) -> Seq<char> {
    "S"@ + decimal(n.0.0 as nat)
}

pub fn push_int_type(out: &mut String, t: IntType)
    ensures
        final(out)@ == old(out)@ + int_text(t),
{
    let ghost start = out@;
    if t.signed {
        push_str(out, "i");
    } else {
        push_str(out, "u");
    }
    match t.size {
        IntSize::B64 => push_str(out, "64"),
        IntSize::B32 => push_str(out, "32"),
        IntSize::B16 => push_str(out, "16"),
        IntSize::B8 => push_str(out, "8"),
    }
    assert(out@ =~= start + int_text(t));
}

fn push_struct_name(out: &mut String, structs: &Vec<Struct>, i: usize)
    ensures
        final(out)@ == old(out)@ + struct_name_at(struct_names(structs@), i as nat),
{
    if i < structs.len() {
        push_string(out, &structs[i].name);
    } else {
        assert(out@ =~= out@ + Seq::<char>::empty());
    }
}

/// Appends the owned spelling of `t`.
pub fn push_type(out: &mut String, structs: &Vec<Struct>, t: &Type)
    ensures
        final(out)@ == old(out)@ + type_text(struct_names(structs@), vtype_view(*t)),
    decreases t,
{
    let ghost start = out@;
    let ghost names = struct_names(structs@);
    match t {
        Type::Bool => push_str(out, "bool"),
        Type::Int(i) => push_int_type(out, *i),
        Type::Array(b, Some(n)) => {
            push_str(out, "[");
            push_type(out, structs, b);
            push_str(out, "; ");
            push_decimal(out, *n);
            push_str(out, "]");
            assert(out@ =~= start + type_text(names, vtype_view(*t)));
        },
        Type::Array(b, None) => {
            push_str(out, "Vec<");
            push_type(out, structs, b);
            push_str(out, ">");
            assert(out@ =~= start + type_text(names, vtype_view(*t)));
        },
        Type::Struct(i) => {
            push_str(out, "super::super::");
            push_struct_name(out, structs, *i);
            assert(out@ =~= start + type_text(names, vtype_view(*t)));
        },
    }
}

/// Appends the borrowed spelling of `t`.
pub fn push_borrowed_type(out: &mut String, structs: &Vec<Struct>, t: &Type)
    ensures
        final(out)@ == old(out)@ + borrowed_type_text(struct_names(structs@), vtype_view(*t)),
{
    let ghost start = out@;
    let ghost names = struct_names(structs@);
    match t {
        Type::Array(b, Some(n)) => {
            push_str(out, "&[");
            push_type(out, structs, b);
            push_str(out, "; ");
            push_decimal(out, *n);
            push_str(out, "]");
            assert(out@ =~= start + borrowed_type_text(names, vtype_view(*t)));
        },
        Type::Array(b, None) => {
            push_str(out, "&[");
            push_type(out, structs, b);
            push_str(out, "]");
            assert(out@ =~= start + borrowed_type_text(names, vtype_view(*t)));
        },
        Type::Struct(i) => {
            push_str(out, "&super::super::");
            push_struct_name(out, structs, *i);
            assert(out@ =~= start + borrowed_type_text(names, vtype_view(*t)));
        },
        _ => push_type(out, structs, t),
    }
}

/// Appends `name: type, ` for each item, owned or borrowed.
#[verifier::rlimit(80)]
pub fn push_payload(out: &mut String, structs: &Vec<Struct>, items: &Vec<(String, Type)>, borrowed: bool)
    ensures
        final(out)@ == old(out)@ + if borrowed {
            borrowed_payload_text(struct_names(structs@), items@)
        } else {
            payload_text(struct_names(structs@), items@)
        },
{
    let ghost start = out@;
    let ghost names = struct_names(structs@);
    let mut i: usize = 0;
    while i < items.len()
        invariant
            i <= items@.len(),
            names == struct_names(structs@),
            out@ == start + if borrowed {
                borrowed_payload_text(names, items@.take(i as int))
            } else {
                payload_text(names, items@.take(i as int))
            },
        decreases items@.len() - i,
    {
        push_string(out, &items[i].0);
        push_str(out, ": ");
        if borrowed {
            push_borrowed_type(out, structs, &items[i].1);
        } else {
            push_type(out, structs, &items[i].1);
        }
        push_str(out, ", ");
        assert(items@.take(i + 1).drop_last() =~= items@.take(i as int));
        assert(out@ =~= start + if borrowed {
            borrowed_payload_text(names, items@.take(i + 1))
        } else {
            payload_text(names, items@.take(i + 1))
        });
        i = i + 1;
    }
    assert(items@.take(items@.len() as int) =~= items@);
}

/// Appends `S{n}`.
pub fn push_state_name(out: &mut String, n: StateName)
    ensures
        final(out)@ == old(out)@ + state_name_text(n),
{
    let ghost start = out@;
    push_str(out, "S");
    push_decimal(out, n.0.0 as u64);
    assert(out@ =~= start + state_name_text(n));
}

/// `fn recv_{label}(self, state: {dest}<C>, {payload}) -> Result<Self::Type, E>`
pub open spec fn recv_fn_head(names: Seq<Seq<char>>, m: Message) -> Seq<char> {
    "fn recv_"@ + m.label@ + "(self, state: "@ + state_name_text(m.dest_state_name) + "<C>, "@ + payload_text(
        names,
        m.payload.items@,
    ) + ") -> Result<Self::Type, E>"@
}

/// `name, ` for each item.
pub open spec fn names_list_text(items: Seq<(String, Type)>) -> Seq<char>
    decreases items.len(),
{
    if items.len() == 0 {
        Seq::empty()
    } else {
        names_list_text(items.drop_last()) + items.last().0@ + ", "@
    }
}

/// A method of the receiver trait, per message.
pub open spec fn trait_methods_text(names: Seq<Seq<char>>, ms: Seq<Message>) -> Seq<char>
    decreases ms.len(),
{
    if ms.len() == 0 {
        Seq::empty()
    } else {
        trait_methods_text(names, ms.drop_last()) + recv_fn_head(names, ms.last()) + ";\n"@
    }
}

/// A variant of the response enum, per message.
pub open spec fn response_variants_text(names: Seq<Seq<char>>, ms: Seq<Message>) -> Seq<char>
    decreases ms.len(),
{
    if ms.len() == 0 {
        Seq::empty()
    } else {
        response_variants_text(names, ms.drop_last()) + "#[allow(non_camel_case_types)]\n"@ + ms.last().label@
            + " {\n"@ + "state: "@ + state_name_text(ms.last().dest_state_name) + "<C>, "@ + payload_text(
            names,
            ms.last().payload.items@,
        ) + "\n"@ + "},\n"@
    }
}

/// A method of the default receiver, per message.
pub open spec fn default_methods_text(names: Seq<Seq<char>>, st: Seq<char>, ms: Seq<Message>) -> Seq<char>
    decreases ms.len(),
{
    if ms.len() == 0 {
        Seq::empty()
    } else {
        default_methods_text(names, st, ms.drop_last()) + recv_fn_head(names, ms.last()) + " {\n"@ + "Ok("@ + st
            + "Response::"@ + ms.last().label@ + " { state, "@ + names_list_text(ms.last().payload.items@) + "})\n"@
            + "}\n"@
    }
}

/// The receiver trait of a decision state named `st`.
pub open spec fn receiver_trait_text(names: Seq<Seq<char>>, st: Seq<char>, ms: Seq<Message>) -> Seq<char> {
    "pub trait "@ + st + "Receiver<C: Channel<Error = E>, E> {\n"@ + "type Type;\n"@ + trait_methods_text(names, ms)
        + "}\n"@
}

/// The response enum of a decision state named `st`.
pub open spec fn response_enum_text(names: Seq<Seq<char>>, st: Seq<char>, ms: Seq<Message>) -> Seq<char> {
    "pub enum "@ + st + "Response<C: Channel> {\n"@ + response_variants_text(names, ms) + "}\n"@
}

/// The default receiver of a decision state named `st`.
pub open spec fn default_receiver_text(names: Seq<Seq<char>>, st: Seq<char>, ms: Seq<Message>) -> Seq<char> {
    "struct "@ + st + "DefaultReceiver;\n"@ + "impl<C: Channel<Error = E>, E> "@ + st + "Receiver<C, E> for "@ + st
        + "DefaultReceiver {\n"@ + "type Type = "@ + st + "Response<C>;\n"@ + default_methods_text(names, st, ms)
        + "}\n"@
}

/// The receive methods of a decision state named `st`; the block stays open.
pub open spec fn recv_impl_text<F: Format>(structs: Seq<Struct>, st: Seq<char>, ms: Seq<Message>) -> Seq<char> {
    "impl<C: Channel<Error = E>, E> "@ + st + "<C> {\n"@ + "pub fn recv<T>(mut self, receiver: impl "@ + st
        + "Receiver<C, E, Type = T>) -> Result<T, E> {\n"@ + F::recv_text(structs, ms) + "}\n"@
        + "pub fn recv_default(self) -> Result<"@ + st + "Response<C>, E> {\n"@ + "self.recv("@ + st
        + "DefaultReceiver)\n"@ + "}\n"@
}

/// The receiving side of a decision state named `st`.
pub open spec fn receiver_text<F: Format>(structs: Seq<Struct>, st: Seq<char>, ms: Seq<Message>) -> Seq<char> {
    let names = struct_names(structs);
    receiver_trait_text(names, st, ms) + response_enum_text(names, st, ms) + default_receiver_text(names, st, ms)
        + recv_impl_text::<F>(structs, st, ms)
}

/// A send method per message; each sends a tag when there are several.
pub open spec fn send_methods_text<F: Format>(structs: Seq<Struct>, ms: Seq<Message>, n: nat) -> Seq<char>
    decreases n,
{
    if n == 0 || n > ms.len() {
        Seq::empty()
    } else {
        let m = ms[n - 1];
        send_methods_text::<F>(structs, ms, (n - 1) as nat) + "pub fn send_"@ + m.label@ + "(mut self, "@
            + borrowed_payload_text(struct_names(structs), m.payload.items@) + ") -> Result<"@ + state_name_text(
            m.dest_state_name,
        ) + "<C>, E> {\n"@ + F::send_text(structs, m, ms.len() > 1) + "}\n"@
    }
}

/// The sending side of a decision state named `st`.
pub open spec fn sender_text<F: Format>(structs: Seq<Struct>, st: Seq<char>, ms: Seq<Message>) -> Seq<char> {
    "impl<C: Channel<Error = E>, E> "@ + st + "<C> {\n"@ + send_methods_text::<F>(structs, ms, ms.len())
}

/// Whether the role `role` receives in a state of direction `dir`.
pub open spec fn receives(dir: Direction, role: SimpleRole) -> bool {
    (dir == Direction::AToB && role == SimpleRole::B) || (dir == Direction::BToA && role == SimpleRole::A)
}

/// Whether the role `role` sends in a state of direction `dir`.
pub open spec fn sends(dir: Direction, role: SimpleRole) -> bool {
    (dir == Direction::AToB && role == SimpleRole::A) || (dir == Direction::BToA && role == SimpleRole::B)
}

/// The code of one state, seen by `role`: its handle, then the receiving or
/// sending surface of a decision state, or `finish` for a terminal one.
pub open spec fn state_text<F: Format>(structs: Seq<Struct>, s: State, role: SimpleRole) -> Seq<char> {
    let st = state_name_text(s.name);
    "#[must_use]\n"@ + "pub struct "@ + st + "<C: Channel>(C);\n"@ + match s.trans {
        Some(t) => (if receives(t.dir, role) {
            receiver_text::<F>(structs, st, t.messages@)
        } else {
            Seq::empty()
        }) + (if sends(t.dir, role) {
            sender_text::<F>(structs, st, t.messages@)
        } else {
            Seq::empty()
        }) + "}\n"@,
        None => "impl<C: Channel<Error = E>, E> "@ + st + "<C> {\n"@ + "pub fn finish(self) {}\n"@ + "}\n"@,
    }
}

pub open spec fn states_text<F: Format>(structs: Seq<Struct>, states: Seq<State>, role: SimpleRole) -> Seq<char>
    decreases states.len(),
{
    if states.len() == 0 {
        Seq::empty()
    } else {
        states_text::<F>(structs, states.drop_last(), role) + state_text::<F>(structs, states.last(), role)
    }
}

/// The code of a protocol seen by `role`.
pub open spec fn protocol_text<F: Format>(structs: Seq<Struct>, p: Protocol, role: SimpleRole) -> Seq<char> {
    "use std::mem::size_of;\n"@ + "use obbidl_lib::channel::Channel;\n"@ + states_text::<F>(structs, p.states@, role)
        + "impl<C: Channel> S0<C> {\n"@ + "pub fn new(channel: C) -> S0<C> {\n"@ + "S0(channel)\n"@ + "}\n"@
        + "}\n"@
}

fn push_recv_fn_head(out: &mut String, structs: &Vec<Struct>, m: &Message)
    ensures
        final(out)@ == old(out)@ + recv_fn_head(struct_names(structs@), *m),
{
    let ghost start = out@;
    push_str(out, "fn recv_");
    push_string(out, &m.label);
    push_str(out, "(self, state: ");
    push_state_name(out, m.dest_state_name);
    push_str(out, "<C>, ");
    push_payload(out, structs, &m.payload.items, false);
    push_str(out, ") -> Result<Self::Type, E>");
    assert(out@ =~= start + recv_fn_head(struct_names(structs@), *m));
}

fn push_names_list(out: &mut String, items: &Vec<(String, Type)>)
    ensures
        final(out)@ == old(out)@ + names_list_text(items@),
{
    let ghost start = out@;
    let mut i: usize = 0;
    while i < items.len()
        invariant
            i <= items@.len(),
            out@ == start + names_list_text(items@.take(i as int)),
        decreases items@.len() - i,
    {
        push_string(out, &items[i].0);
        push_str(out, ", ");
        assert(items@.take(i + 1).drop_last() =~= items@.take(i as int));
        i = i + 1;
    }
    assert(items@.take(items@.len() as int) =~= items@);
}

#[verifier::rlimit(80)]
fn push_receiver_trait(out: &mut String, structs: &Vec<Struct>, st: &String, ms: &Vec<Message>)
    ensures
        final(out)@ == old(out)@ + receiver_trait_text(struct_names(structs@), st@, ms@),
{
    let ghost start = out@;
    let ghost names = struct_names(structs@);
    push_str(out, "pub trait ");
    push_string(out, st);
    push_str(out, "Receiver<C: Channel<Error = E>, E> {\n");
    push_str(out, "type Type;\n");
    let ghost p1 = out@;
    let mut i: usize = 0;
    while i < ms.len()
        invariant
            i <= ms@.len(),
            names == struct_names(structs@),
            out@ == p1 + trait_methods_text(names, ms@.take(i as int)),
        decreases ms@.len() - i,
    {
        push_recv_fn_head(out, structs, &ms[i]);
        push_str(out, ";\n");
        assert(ms@.take(i + 1).drop_last() =~= ms@.take(i as int));
        i = i + 1;
    }
    assert(ms@.take(ms@.len() as int) =~= ms@);
    push_str(out, "}\n");
    assert(out@ =~= start + receiver_trait_text(names, st@, ms@));
}

#[verifier::rlimit(80)]
fn push_response_enum(out: &mut String, structs: &Vec<Struct>, st: &String, ms: &Vec<Message>)
    ensures
        final(out)@ == old(out)@ + response_enum_text(struct_names(structs@), st@, ms@),
{
    let ghost start = out@;
    let ghost names = struct_names(structs@);
    push_str(out, "pub enum ");
    push_string(out, st);
    push_str(out, "Response<C: Channel> {\n");
    let ghost p2 = out@;
    let mut i: usize = 0;
    while i < ms.len()
        invariant
            i <= ms@.len(),
            names == struct_names(structs@),
            out@ == p2 + response_variants_text(names, ms@.take(i as int)),
        decreases ms@.len() - i,
    {
        push_str(out, "#[allow(non_camel_case_types)]\n");
        push_string(out, &ms[i].label);
        push_str(out, " {\n");
        push_str(out, "state: ");
        push_state_name(out, ms[i].dest_state_name);
        push_str(out, "<C>, ");
        push_payload(out, structs, &ms[i].payload.items, false);
        push_str(out, "\n");
        push_str(out, "},\n");
        assert(ms@.take(i + 1).drop_last() =~= ms@.take(i as int));
        assert(out@ =~= p2 + response_variants_text(names, ms@.take(i + 1)));
        i = i + 1;
    }
    assert(ms@.take(ms@.len() as int) =~= ms@);
    push_str(out, "}\n");
    assert(out@ =~= start + response_enum_text(names, st@, ms@));
}

#[verifier::rlimit(80)]
fn push_default_receiver(out: &mut String, structs: &Vec<Struct>, st: &String, ms: &Vec<Message>)
    ensures
        final(out)@ == old(out)@ + default_receiver_text(struct_names(structs@), st@, ms@),
{
    let ghost start = out@;
    let ghost names = struct_names(structs@);
    push_str(out, "struct ");
    push_string(out, st);
    push_str(out, "DefaultReceiver;\n");
    push_str(out, "impl<C: Channel<Error = E>, E> ");
    push_string(out, st);
    push_str(out, "Receiver<C, E> for ");
    push_string(out, st);
    push_str(out, "DefaultReceiver {\n");
    push_str(out, "type Type = ");
    push_string(out, st);
    push_str(out, "Response<C>;\n");
    let ghost p3 = out@;
    let mut i: usize = 0;
    while i < ms.len()
        invariant
            i <= ms@.len(),
            names == struct_names(structs@),
            out@ == p3 + default_methods_text(names, st@, ms@.take(i as int)),
        decreases ms@.len() - i,
    {
        push_recv_fn_head(out, structs, &ms[i]);
        push_str(out, " {\n");
        push_str(out, "Ok(");
        push_string(out, st);
        push_str(out, "Response::");
        push_string(out, &ms[i].label);
        push_str(out, " { state, ");
        push_names_list(out, &ms[i].payload.items);
        push_str(out, "})\n");
        push_str(out, "}\n");
        assert(ms@.take(i + 1).drop_last() =~= ms@.take(i as int));
        assert(out@ =~= p3 + default_methods_text(names, st@, ms@.take(i + 1)));
        i = i + 1;
    }
    assert(ms@.take(ms@.len() as int) =~= ms@);
    push_str(out, "}\n");
    assert(out@ =~= start + default_receiver_text(names, st@, ms@));
}

#[verifier::rlimit(80)]
fn push_recv_impl<F: Format>(out: &mut String, structs: &Vec<Struct>, st: &String, ms: &Vec<Message>)
    ensures
        final(out)@ == old(out)@ + recv_impl_text::<F>(structs@, st@, ms@),
{
    let ghost start = out@;
    push_str(out, "impl<C: Channel<Error = E>, E> ");
    push_string(out, st);
    push_str(out, "<C> {\n");
    push_str(out, "pub fn recv<T>(mut self, receiver: impl ");
    push_string(out, st);
    push_str(out, "Receiver<C, E, Type = T>) -> Result<T, E> {\n");
    F::recv_messages(out, structs, ms);
    push_str(out, "}\n");
    push_str(out, "pub fn recv_default(self) -> Result<");
    push_string(out, st);
    push_str(out, "Response<C>, E> {\n");
    push_str(out, "self.recv(");
    push_string(out, st);
    push_str(out, "DefaultReceiver)\n");
    push_str(out, "}\n");
    assert(out@ =~= start + recv_impl_text::<F>(structs@, st@, ms@));
}

fn push_receiver<F: Format>(out: &mut String, structs: &Vec<Struct>, st: &String, ms: &Vec<Message>)
    ensures
        final(out)@ == old(out)@ + receiver_text::<F>(structs@, st@, ms@),
{
    let ghost start = out@;
    push_receiver_trait(out, structs, st, ms);
    push_response_enum(out, structs, st, ms);
    push_default_receiver(out, structs, st, ms);
    push_recv_impl::<F>(out, structs, st, ms);
    assert(out@ =~= start + receiver_text::<F>(structs@, st@, ms@));
}

#[verifier::rlimit(80)]
fn push_sender<F: Format>(out: &mut String, structs: &Vec<Struct>, st: &String, ms: &Vec<Message>)
    ensures
        final(out)@ == old(out)@ + sender_text::<F>(structs@, st@, ms@),
{
    let ghost start = out@;
    push_str(out, "impl<C: Channel<Error = E>, E> ");
    push_string(out, st);
    push_str(out, "<C> {\n");
    let ghost p1 = out@;
    let mut i: usize = 0;
    while i < ms.len()
        invariant
            i <= ms@.len(),
            out@ == p1 + send_methods_text::<F>(structs@, ms@, i as nat),
        decreases ms@.len() - i,
    {
        push_str(out, "pub fn send_");
        push_string(out, &ms[i].label);
        push_str(out, "(mut self, ");
        push_payload(out, structs, &ms[i].payload.items, true);
        push_str(out, ") -> Result<");
        push_state_name(out, ms[i].dest_state_name);
        push_str(out, "<C>, E> {\n");
        F::send_message(out, structs, &ms[i], ms.len() > 1);
        push_str(out, "}\n");
        i = i + 1;
    }
    assert(out@ =~= start + sender_text::<F>(structs@, st@, ms@));
}

#[verifier::rlimit(40)]
fn push_state<F: Format>(out: &mut String, structs: &Vec<Struct>, s: &State, role: SimpleRole)
    ensures
        final(out)@ == old(out)@ + state_text::<F>(structs@, *s, role),
{
    let ghost start = out@;
    let mut st = String::new();
    push_state_name(&mut st, s.name);
    push_str(out, "#[must_use]\n");
    push_str(out, "pub struct ");
    push_string(out, &st);
    push_str(out, "<C: Channel>(C);\n");
    let ghost p1 = out@;
    match &s.trans {
        Some(t) => {
            if (t.dir == Direction::AToB && role == SimpleRole::B) || (t.dir == Direction::BToA && role
                == SimpleRole::A) {
                push_receiver::<F>(out, structs, &st, &t.messages);
            }
            let ghost p2 = out@;
            assert(p2 == p1 + if receives(t.dir, role) {
                receiver_text::<F>(structs@, st@, t.messages@)
            } else {
                Seq::empty()
            });
            if (t.dir == Direction::AToB && role == SimpleRole::A) || (t.dir == Direction::BToA && role
                == SimpleRole::B) {
                push_sender::<F>(out, structs, &st, &t.messages);
            }
            let ghost p3 = out@;
            assert(p3 == p2 + if sends(t.dir, role) {
                sender_text::<F>(structs@, st@, t.messages@)
            } else {
                Seq::empty()
            });
            push_str(out, "}\n");
            assert(out@ =~= start + state_text::<F>(structs@, *s, role));
        },
        None => {
            push_str(out, "impl<C: Channel<Error = E>, E> ");
            push_string(out, &st);
            push_str(out, "<C> {\n");
            push_str(out, "pub fn finish(self) {}\n");
            push_str(out, "}\n");
            assert(out@ =~= start + state_text::<F>(structs@, *s, role));
        },
    }
}

/// Appends the code of a protocol as seen by `role`.
#[verifier::rlimit(80)]
pub fn generate_protocol<F: Format>(out: &mut String, structs: &Vec<Struct>, protocol: &Protocol, role: SimpleRole)
    ensures
        final(out)@ == old(out)@ + protocol_text::<F>(structs@, *protocol, role),
{
    let ghost start = out@;
    push_str(out, "use std::mem::size_of;\n");
    push_str(out, "use obbidl_lib::channel::Channel;\n");
    let ghost p1 = out@;
    let mut i: usize = 0;
    while i < protocol.states.len()
        invariant
            i <= protocol.states@.len(),
            out@ == p1 + states_text::<F>(structs@, protocol.states@.take(i as int), role),
        decreases protocol.states@.len() - i,
    {
        push_state::<F>(out, structs, &protocol.states[i], role);
        assert(protocol.states@.take(i + 1).drop_last() =~= protocol.states@.take(i as int));
        i = i + 1;
    }
    assert(protocol.states@.take(protocol.states@.len() as int) =~= protocol.states@);
    push_str(out, "impl<C: Channel> S0<C> {\n");
    push_str(out, "pub fn new(channel: C) -> S0<C> {\n");
    push_str(out, "S0(channel)\n");
    push_str(out, "}\n");
    push_str(out, "}\n");
    assert(out@ =~= start + protocol_text::<F>(structs@, *protocol, role));
}

/// `name: type,` per field.
pub open spec fn fields_text(names: Seq<Seq<char>>, fields: Seq<(String, Type)>) -> Seq<char>
    decreases fields.len(),
{
    if fields.len() == 0 {
        Seq::empty()
    } else {
        fields_text(names, fields.drop_last()) + fields.last().0@ + ": "@ + type_text(names, vtype_view(fields.last().1))
            + ",\n"@
    }
}

/// A struct definition per resolved struct.
pub open spec fn structs_text(names: Seq<Seq<char>>, structs: Seq<Struct>) -> Seq<char>
    decreases structs.len(),
{
    if structs.len() == 0 {
        Seq::empty()
    } else {
        structs_text(names, structs.drop_last()) + "pub struct "@ + structs.last().name@ + " {\n"@ + fields_text(
            names,
            structs.last().fields@,
        ) + "}\n"@
    }
}

/// The module of a protocol, with a module per role inside.
pub open spec fn protocol_module_text<F: Format>(structs: Seq<Struct>, p: Protocol) -> Seq<char> {
    "pub mod "@ + p.name@ + " {\n"@ + "pub mod "@ + p.role_a.0@ + " {\n"@ + protocol_text::<F>(structs, p, SimpleRole::A)
        + "}\n"@ + "pub mod "@ + p.role_b.0@ + " {\n"@ + protocol_text::<F>(structs, p, SimpleRole::B) + "}\n"@
        + "}\n"@
}

#[verifier::rlimit(80)]
fn push_protocol_module<F: Format>(out: &mut String, structs: &Vec<Struct>, p: &Protocol)
    ensures
        final(out)@ == old(out)@ + protocol_module_text::<F>(structs@, *p),
{
    let ghost start = out@;
    push_str(out, "pub mod ");
    push_string(out, &p.name);
    push_str(out, " {\n");
    push_str(out, "pub mod ");
    push_string(out, &p.role_a.0);
    push_str(out, " {\n");
    generate_protocol::<F>(out, structs, p, SimpleRole::A);
    push_str(out, "}\n");
    push_str(out, "pub mod ");
    push_string(out, &p.role_b.0);
    push_str(out, " {\n");
    generate_protocol::<F>(out, structs, p, SimpleRole::B);
    push_str(out, "}\n");
    push_str(out, "}\n");
    assert(out@ =~= start + protocol_module_text::<F>(structs@, *p));
}

/// A module per protocol, with a module per role inside.
pub open spec fn protocols_text<F: Format>(structs: Seq<Struct>, ps: Seq<Protocol>) -> Seq<char>
    decreases ps.len(),
{
    if ps.len() == 0 {
        Seq::empty()
    } else {
        protocols_text::<F>(structs, ps.drop_last()) + protocol_module_text::<F>(structs, ps.last())
    }
}

/// The code generated for a validated file.
pub open spec fn file_text<F: Format>(file: File) -> Seq<char> {
    structs_text(struct_names(file.structs@), file.structs@) + protocols_text::<F>(file.structs@, file.protocols@)
}

/// Appends the code generated for a validated file: its structs, then both
/// roles of each protocol.
#[verifier::rlimit(80)]
pub fn generate_protocol_file<F: Format>(out: &mut String, file: &File)
    ensures
        final(out)@ == old(out)@ + file_text::<F>(*file),
{
    let ghost start = out@;
    let ghost names = struct_names(file.structs@);
    let mut i: usize = 0;
    while i < file.structs.len()
        invariant
            i <= file.structs@.len(),
            names == struct_names(file.structs@),
            out@ == start + structs_text(names, file.structs@.take(i as int)),
        decreases file.structs@.len() - i,
    {
        let st = &file.structs[i];
        push_str(out, "pub struct ");
        push_string(out, &st.name);
        push_str(out, " {\n");
        let ghost p1 = out@;
        let mut j: usize = 0;
        while j < st.fields.len()
            invariant
                j <= st.fields@.len(),
                names == struct_names(file.structs@),
                out@ == p1 + fields_text(names, st.fields@.take(j as int)),
            decreases st.fields@.len() - j,
        {
            push_string(out, &st.fields[j].0);
            push_str(out, ": ");
            push_type(out, &file.structs, &st.fields[j].1);
            push_str(out, ",\n");
            assert(st.fields@.take(j + 1).drop_last() =~= st.fields@.take(j as int));
            j = j + 1;
        }
        assert(st.fields@.take(st.fields@.len() as int) =~= st.fields@);
        push_str(out, "}\n");
        assert(file.structs@.take(i + 1).drop_last() =~= file.structs@.take(i as int));
        assert(out@ =~= start + structs_text(names, file.structs@.take(i + 1)));
        i = i + 1;
    }
    assert(file.structs@.take(file.structs@.len() as int) =~= file.structs@);
    let ghost p2 = out@;
    let mut i: usize = 0;
    while i < file.protocols.len()
        invariant
            i <= file.protocols@.len(),
            out@ == p2 + protocols_text::<F>(file.structs@, file.protocols@.take(i as int)),
        decreases file.protocols@.len() - i,
    {
        push_protocol_module::<F>(out, &file.structs, &file.protocols[i]);
        assert(file.protocols@.take(i + 1).drop_last() =~= file.protocols@.take(i as int));
        i = i + 1;
    }
    assert(file.protocols@.take(file.protocols@.len() as int) =~= file.protocols@);
    assert(out@ =~= start + file_text::<F>(*file));
}

/// Rust code generation for a validated file, in the wire format `F`.
pub struct GenerateRust<'a, F: Format>(pub &'a File, pub std::marker::PhantomData<F>);

impl<'a, F: Format> GenerateRust<'a, F> {
    pub fn new(file: &'a File) -> (r: GenerateRust<'a, F>)
        ensures
            r.0 == file,
    {
        GenerateRust(file, std::marker::PhantomData)
    }

    /// The generated code.
    pub fn to_string(&self) -> (r: String)
        ensures
            r@ == file_text::<F>(*self.0),
    {
        let mut out = String::new();
        generate_protocol_file::<F>(&mut out, self.0);
        assert(out@ =~= Seq::<char>::empty() + file_text::<F>(*self.0));
        out
    }
}

} // verus!
