//! The binary wire format.
use vstd::prelude::*;

use crate::format::Format;
use crate::generate::{int_text, push_int_type, push_state_name, push_type, state_name_text, type_text};
use crate::text::{decimal, push_decimal, push_str, push_string};
use crate::validate::{struct_names, vtype_view, Message, Struct, Type, VTypeModel};

verus! {

/// Integers big-endian, `bool` as one byte, arrays element by element
/// (variable ones after a 32-bit length), structs field by field, and a
/// one-byte tag before the message where a state has several.
pub struct Binary;

/// Code that sends the value `name` of type `t`; struct references must
/// lie below `bound`.
pub open spec fn send_type_text(structs: Seq<Struct>, name: Seq<char>, t: VTypeModel, bound: nat) -> Seq<char>
    decreases bound, 1nat, 0int, t,
{
    match t {
        VTypeModel::Bool => "self.0.send_u8(if "@ + name + " { 1 } else { 0 })?;\n"@,
        VTypeModel::Int(i) => "self.0.send(&"@ + int_text(i) + "::to_be_bytes("@ + name + "))?;\n"@,
        VTypeModel::Array(b, size) => (if size is None {
            "self.0.send(&u32::to_be_bytes("@ + name + ".len() as u32))?;\n"@
        } else {
            Seq::empty()
        }) + "for i in 0.."@ + name + ".len() {\n"@ + send_type_text(structs, name + "[i]"@, *b, bound)
            + "}\n"@,
        VTypeModel::Struct(k) => if k < bound && k < structs.len() {
            send_fields_text(structs, name, structs[k as int].fields@, k, structs[k as int].fields@.len())
        } else {
            Seq::empty()
        },
    }
}

/// Code that sends the first `n` fields of the struct value `name`.
pub open spec fn send_fields_text(
    structs: Seq<Struct>,
    name: Seq<char>,
    fields: Seq<(String, Type)>,
    bound: nat,
    n: nat,
) -> Seq<char>
    decreases bound, 2nat, n, VTypeModel::Bool,
{
    if n == 0 || n > fields.len() {
        Seq::empty()
    } else {
        send_fields_text(structs, name, fields, bound, (n - 1) as nat) + send_type_text(
            structs,
            name + "."@ + fields[n - 1].0@,
            vtype_view(fields[n - 1].1),
            bound,
        )
    }
}

/// Code that receives a value of type `t` into `name`.
pub open spec fn recv_type_text(structs: Seq<Struct>, name: Seq<char>, t: VTypeModel, bound: nat) -> Seq<char>
    decreases bound, 1nat, 0int, t,
{
    match t {
        VTypeModel::Bool => "let "@ + name + " = self.0.recv_u8()? != 0;\n"@,
        VTypeModel::Int(i) => "let mut bytes = [0; size_of::<"@ + int_text(i) + ">()];\n"@
            + "self.0.recv(&mut bytes)?;\n"@ + "let "@ + name + " = "@ + int_text(i) + "::from_be_bytes(bytes);\n"@,
        VTypeModel::Array(b, size) => (match size {
            Some(n) => "let mut "@ + name + " = ["@ + type_text(struct_names(structs), *b) + "::default(); "@
                + decimal(n as nat) + "];\n"@,
            None => "let mut "@ + name + " = vec!["@ + type_text(struct_names(structs), *b)
                + "::default(); self.0.recv_u32()? as usize];\n"@,
        }) + "for i in 0.."@ + name + ".len() {\n"@ + recv_type_text(structs, "x"@, *b, bound) + name
            + "[i] = x;\n"@ + "}\n"@,
        VTypeModel::Struct(k) => if k < bound && k < structs.len() {
            recv_fields_text(structs, structs[k as int].fields@, k, structs[k as int].fields@.len()) + "let "@
                + name + " = super::super::"@ + structs[k as int].name@ + " {"@ + field_list_text(
                structs[k as int].fields@,
            ) + "};\n"@
        } else {
            Seq::empty()
        },
    }
}

/// Code that receives the first `n` fields of a struct, each into a
/// variable of the field's name.
pub open spec fn recv_fields_text(structs: Seq<Struct>, fields: Seq<(String, Type)>, bound: nat, n: nat) -> Seq<char>
    decreases bound, 2nat, n, VTypeModel::Bool,
{
    if n == 0 || n > fields.len() {
        Seq::empty()
    } else {
        recv_fields_text(structs, fields, bound, (n - 1) as nat) + recv_type_text(
            structs,
            fields[n - 1].0@,
            vtype_view(fields[n - 1].1),
            bound,
        )
    }
}

/// `name,` for each field.
pub open spec fn field_list_text(fields: Seq<(String, Type)>) -> Seq<char>
    decreases fields.len(),
{
    if fields.len() == 0 {
        Seq::empty()
    } else {
        field_list_text(fields.drop_last()) + fields.last().0@ + ","@
    }
}

/// `name, ` for each item.
pub open spec fn item_list_text(items: Seq<(String, Type)>) -> Seq<char>
    decreases items.len(),
{
    if items.len() == 0 {
        Seq::empty()
    } else {
        item_list_text(items.drop_last()) + items.last().0@ + ", "@
    }
}

/// Code that sends each of `items`.
pub open spec fn items_send_text(structs: Seq<Struct>, items: Seq<(String, Type)>) -> Seq<char>
    decreases items.len(),
{
    if items.len() == 0 {
        Seq::empty()
    } else {
        items_send_text(structs, items.drop_last()) + send_type_text(
            structs,
            items.last().0@,
            vtype_view(items.last().1),
            structs.len(),
        )
    }
}

/// Code that receives each of `items`.
pub open spec fn items_recv_text(structs: Seq<Struct>, items: Seq<(String, Type)>) -> Seq<char>
    decreases items.len(),
{
    if items.len() == 0 {
        Seq::empty()
    } else {
        items_recv_text(structs, items.drop_last()) + recv_type_text(
            structs,
            items.last().0@,
            vtype_view(items.last().1),
            structs.len(),
        )
    }
}

/// Code that receives message `m` and hands it to the receiver.
pub open spec fn recv_msg_text(structs: Seq<Struct>, m: Message) -> Seq<char> {
    items_recv_text(structs, m.payload.items@) + "return Ok(receiver.recv_"@ + m.label@ + "("@ + state_name_text(
        m.dest_state_name,
    ) + "(self.0), "@ + item_list_text(m.payload.items@) + ")?);\n"@
}

/// For each message, code that receives it when its tag is read.
pub open spec fn dispatch_text(structs: Seq<Struct>, ms: Seq<Message>) -> Seq<char>
    decreases ms.len(),
{
    if ms.len() == 0 {
        Seq::empty()
    } else {
        dispatch_text(structs, ms.drop_last()) + "if id == "@ + decimal(ms.last().id as nat) + " {\n"@
            + recv_msg_text(structs, ms.last()) + "}\n"@
    }
}

/// Appends the code that sends the value `name` of type `t`.
#[verifier::rlimit(60)]
fn send_type(out: &mut String, structs: &Vec<Struct>, name: &String, t: &Type, bound: usize)
    ensures
        final(out)@ == old(out)@ + send_type_text(structs@, name@, vtype_view(*t), bound as nat),
    decreases bound, t,
{
    let ghost start = out@;
    match t {
        Type::Bool => {
            push_str(out, "self.0.send_u8(if ");
            push_string(out, name);
            push_str(out, " { 1 } else { 0 })?;\n");
        },
        Type::Int(i) => {
            push_str(out, "self.0.send(&");
            push_int_type(out, *i);
            push_str(out, "::to_be_bytes(");
            push_string(out, name);
            push_str(out, "))?;\n");
        },
        Type::Array(b, size) => {
            if size.is_none() {
                push_str(out, "self.0.send(&u32::to_be_bytes(");
                push_string(out, name);
                push_str(out, ".len() as u32))?;\n");
            }
            push_str(out, "for i in 0..");
            push_string(out, name);
            push_str(out, ".len() {\n");
            let mut element = name.clone();
            push_str(&mut element, "[i]");
            send_type(out, structs, &element, b, bound);
            push_str(out, "}\n");
            assert(out@ =~= start + send_type_text(structs@, name@, vtype_view(*t), bound as nat));
        },
        Type::Struct(k) => {
            if *k < structs.len() && *k < bound {
                let fields = &structs[*k].fields;
                let mut i: usize = 0;
                while i < fields.len()
                    invariant
                        *k < structs@.len(),
                        *k < bound,
                        fields == structs@[*k as int].fields,
                        i <= fields@.len(),
                        out@ == start + send_fields_text(structs@, name@, fields@, *k as nat, i as nat),
                    decreases fields@.len() - i,
                {
                    let mut member = name.clone();
                    push_str(&mut member, ".");
                    push_string(&mut member, &fields[i].0);
                    send_type(out, structs, &member, &fields[i].1, *k);
                    i = i + 1;
                }
            } else {
                assert(out@ =~= start + Seq::<char>::empty());
            }
        },
    }
    assert(out@ =~= start + send_type_text(structs@, name@, vtype_view(*t), bound as nat));
}

/// Appends the code that receives a value of type `t` into `name`.
#[verifier::rlimit(60)]
fn recv_type(out: &mut String, structs: &Vec<Struct>, name: &String, t: &Type, bound: usize)
    ensures
        final(out)@ == old(out)@ + recv_type_text(structs@, name@, vtype_view(*t), bound as nat),
    decreases bound, 1nat, t,
{
    let ghost start = out@;
    match t {
        Type::Bool => {
            push_str(out, "let ");
            push_string(out, name);
            push_str(out, " = self.0.recv_u8()? != 0;\n");
        },
        Type::Int(i) => {
            push_str(out, "let mut bytes = [0; size_of::<");
            push_int_type(out, *i);
            push_str(out, ">()];\n");
            push_str(out, "self.0.recv(&mut bytes)?;\n");
            push_str(out, "let ");
            push_string(out, name);
            push_str(out, " = ");
            push_int_type(out, *i);
            push_str(out, "::from_be_bytes(bytes);\n");
        },
        Type::Array(b, size) => {
            match size {
                Some(n) => {
                    push_str(out, "let mut ");
                    push_string(out, name);
                    push_str(out, " = [");
                    push_type(out, structs, b);
                    push_str(out, "::default(); ");
                    push_decimal(out, *n);
                    push_str(out, "];\n");
                },
                None => {
                    push_str(out, "let mut ");
                    push_string(out, name);
                    push_str(out, " = vec![");
                    push_type(out, structs, b);
                    push_str(out, "::default(); self.0.recv_u32()? as usize];\n");
                },
            }
            push_str(out, "for i in 0..");
            push_string(out, name);
            push_str(out, ".len() {\n");
            let x = String::from_str("x");
            recv_type(out, structs, &x, b, bound);
            push_string(out, name);
            push_str(out, "[i] = x;\n");
            push_str(out, "}\n");
            proof {
                reveal_strlit("x");
            }
        },
        Type::Struct(k) => {
            if *k < structs.len() && *k < bound {
                recv_struct(out, structs, name, *k);
            } else {
                assert(out@ =~= start + Seq::<char>::empty());
            }
        },
    }
    assert(out@ =~= start + recv_type_text(structs@, name@, vtype_view(*t), bound as nat));
}

/// Appends the code that receives a value of struct `k` into `name`.
#[verifier::rlimit(80)]
fn recv_struct(out: &mut String, structs: &Vec<Struct>, name: &String, k: usize)
    requires
        k < structs@.len(),
    ensures
        final(out)@ == old(out)@ + recv_fields_text(structs@, structs@[k as int].fields@, k as nat, structs@[k as int].fields@.len())
            + "let "@ + name@ + " = super::super::"@ + structs@[k as int].name@ + " {"@ + field_list_text(
            structs@[k as int].fields@,
        ) + "};\n"@,
    decreases k + 1, 0nat, Type::Bool,
{
    let ghost start = out@;
    let st = &structs[k];
    let mut i: usize = 0;
    while i < st.fields.len()
        invariant
            k < structs@.len(),
            *st == structs@[k as int],
            i <= st.fields@.len(),
            out@ == start + recv_fields_text(structs@, st.fields@, k as nat, i as nat),
        decreases st.fields@.len() - i,
    {
        recv_type(out, structs, &st.fields[i].0, &st.fields[i].1, k);
        i = i + 1;
    }
    push_str(out, "let ");
    push_string(out, name);
    push_str(out, " = super::super::");
    push_string(out, &st.name);
    push_str(out, " {");
    let ghost before_list = out@;
    let mut j: usize = 0;
    while j < st.fields.len()
        invariant
            j <= st.fields@.len(),
            out@ == before_list + field_list_text(st.fields@.take(j as int)),
        decreases st.fields@.len() - j,
    {
        push_string(out, &st.fields[j].0);
        push_str(out, ",");
        assert(st.fields@.take(j + 1).drop_last() =~= st.fields@.take(j as int));
        j = j + 1;
    }
    assert(st.fields@.take(st.fields@.len() as int) =~= st.fields@);
    push_str(out, "};\n");
    assert(out@ =~= start + recv_fields_text(structs@, st.fields@, k as nat, st.fields@.len()) + "let "@
        + name@ + " = super::super::"@ + st.name@ + " {"@ + field_list_text(st.fields@) + "};\n"@);
}

/// Appends the code that receives message `m` and hands it on.
#[verifier::rlimit(80)]
fn recv_msg(out: &mut String, structs: &Vec<Struct>, m: &Message)
    ensures
        final(out)@ == old(out)@ + recv_msg_text(structs@, *m),
{
    let ghost start = out@;
    let items = &m.payload.items;
    let mut i: usize = 0;
    while i < items.len()
        invariant
            i <= items@.len(),
            out@ == start + items_recv_text(structs@, items@.take(i as int)),
        decreases items@.len() - i,
    {
        recv_type(out, structs, &items[i].0, &items[i].1, structs.len());
        assert(items@.take(i + 1).drop_last() =~= items@.take(i as int));
        i = i + 1;
    }
    assert(items@.take(items@.len() as int) =~= items@);
    push_str(out, "return Ok(receiver.recv_");
    push_string(out, &m.label);
    push_str(out, "(");
    push_state_name(out, m.dest_state_name);
    push_str(out, "(self.0), ");
    let ghost before_list = out@;
    let mut j: usize = 0;
    while j < items.len()
        invariant
            j <= items@.len(),
            out@ == before_list + item_list_text(items@.take(j as int)),
        decreases items@.len() - j,
    {
        push_string(out, &items[j].0);
        push_str(out, ", ");
        assert(items@.take(j + 1).drop_last() =~= items@.take(j as int));
        j = j + 1;
    }
    assert(items@.take(items@.len() as int) =~= items@);
    push_str(out, ")?);\n");
    assert(out@ =~= start + recv_msg_text(structs@, *m));
}

impl Format for Binary {
    open spec fn send_text(structs: Seq<Struct>, message: Message, insert_tag: bool) -> Seq<char> {
        (if insert_tag {
            "self.0.send_u8("@ + decimal(message.id as nat) + ")?;\n"@
        } else {
            Seq::empty()
        }) + items_send_text(structs, message.payload.items@) + "return Ok("@ + state_name_text(
            message.dest_state_name,
        ) + "(self.0));\n"@
    }

    open spec fn recv_text(structs: Seq<Struct>, messages: Seq<Message>) -> Seq<char> {
        if messages.len() == 1 {
            recv_msg_text(structs, messages[0])
        } else {
            "let id = self.0.recv_u8()?;\n"@ + dispatch_text(structs, messages) + "panic!(\"invalid message!\")\n"@
        }
    }

    #[verifier::rlimit(80)]
    fn send_message(out: &mut String, structs: &Vec<Struct>, message: &Message, insert_tag: bool) {
        let ghost start = out@;
        if insert_tag {
            push_str(out, "self.0.send_u8(");
            push_decimal(out, message.id as u64);
            push_str(out, ")?;\n");
        }
        let ghost mid = out@;
        let items = &message.payload.items;
        let mut i: usize = 0;
        while i < items.len()
            invariant
                i <= items@.len(),
                out@ == mid + items_send_text(structs@, items@.take(i as int)),
            decreases items@.len() - i,
        {
            send_type(out, structs, &items[i].0, &items[i].1, structs.len());
            assert(items@.take(i + 1).drop_last() =~= items@.take(i as int));
            i = i + 1;
        }
        assert(items@.take(items@.len() as int) =~= items@);
        push_str(out, "return Ok(");
        push_state_name(out, message.dest_state_name);
        push_str(out, "(self.0));\n");
        assert(out@ =~= start + Self::send_text(structs@, *message, insert_tag));
    }

    #[verifier::rlimit(80)]
    fn recv_messages(out: &mut String, structs: &Vec<Struct>, messages: &Vec<Message>) {
        let ghost start = out@;
        if messages.len() == 1 {
            recv_msg(out, structs, &messages[0]);
        } else {
            push_str(out, "let id = self.0.recv_u8()?;\n");
            let ghost mid = out@;
            let mut i: usize = 0;
            while i < messages.len()
                invariant
                    i <= messages@.len(),
                    out@ == mid + dispatch_text(structs@, messages@.take(i as int)),
                decreases messages@.len() - i,
            {
                push_str(out, "if id == ");
                push_decimal(out, messages[i].id as u64);
                push_str(out, " {\n");
                recv_msg(out, structs, &messages[i]);
                push_str(out, "}\n");
                assert(messages@.take(i + 1).drop_last() =~= messages@.take(i as int));
                i = i + 1;
            }
            assert(messages@.take(messages@.len() as int) =~= messages@);
            push_str(out, "panic!(\"invalid message!\")\n");
        }
        assert(out@ =~= start + Self::recv_text(structs@, messages@));
    }
}

} // verus!
