//! A JSON wire format: each message is one JSON object.
use vstd::prelude::*;

use crate::format::binary::item_list_text;
use crate::format::Format;
use crate::generate::{int_text, push_int_type, push_state_name, push_type, state_name_text, type_text};
use crate::text::{decimal, push_decimal, push_str, push_string};
use crate::validate::{struct_names, vtype_view, Message, Struct, Type, VTypeModel};

verus! {

/// Each message an object: its items under their names, and its label under
/// `label` where a state has several messages.
pub struct Json;

/// Code that turns the value `name` of type `t` into a JSON `value`.
pub open spec fn to_json_text(structs: Seq<Struct>, name: Seq<char>, t: VTypeModel, bound: nat) -> Seq<char>
    decreases bound, 1nat, 0int, t,
{
    match t {
        VTypeModel::Array(b, _) => "let mut array = vec![]\n"@ + "for i in 0.."@ + name + ".len() {\n"@ + to_json_text(
            structs,
            name + "[i]"@,
            *b,
            bound,
        ) + "array.push(value)\n"@ + "}\n"@ + "let value = JsonValue::from(array);\n"@,
        VTypeModel::Struct(k) => if k < bound && k < structs.len() {
            "let mut object = HashMap::new();\n"@ + to_json_fields_text(
                structs,
                name,
                structs[k as int].fields@,
                k,
                structs[k as int].fields@.len(),
            ) + "let value = JsonValue::from(object);\n"@
        } else {
            Seq::empty()
        },
        _ => "let value = "@ + name + ".into()\n"@,
    }
}

/// Code that puts the first `n` fields of the struct value `name` into
/// `object`.
pub open spec fn to_json_fields_text(
    structs: Seq<Struct>,
    name: Seq<char>,
    fields: Seq<(String, Type)>,
    bound: nat,
    n: nat,
) -> Seq<char>
    decreases bound, 2nat, n, VTypeModel::Bool,
{
    if n == 0 || n > fields.len() {
        Seq::empty()
    } else {
        to_json_fields_text(structs, name, fields, bound, (n - 1) as nat) + to_json_text(
            structs,
            name + "."@ + fields[n - 1].0@,
            vtype_view(fields[n - 1].1),
            bound,
        ) + "object.insert("@ + fields[n - 1].0@ + ", value);\n"@
    }
}

/// Code that reads the value `name` of type `t` out of the JSON `value`.
pub open spec fn from_json_text(structs: Seq<Struct>, name: Seq<char>, t: VTypeModel, bound: nat) -> Seq<char>
    decreases bound, 1nat, 0int, t,
{
    match t {
        VTypeModel::Bool => "let "@ + name + " = value.as_bool().unwrap();\n"@,
        VTypeModel::Int(i) => "let "@ + name + " = value.as_"@ + int_text(i) + "().unwrap()\n"@,
        VTypeModel::Array(b, size) => (match size {
            Some(n) => "let mut "@ + name + " = ["@ + type_text(struct_names(structs), *b) + "::default(); "@
                + decimal(n as nat) + "];\n"@,
            None => "let mut "@ + name + " = vec!["@ + type_text(struct_names(structs), *b)
                + "::default(); self.0.recv_u32()? as usize];\n"@,
        }) + "for (i, value) in value.members().enumerate() {\n"@ + from_json_text(structs, "x"@, *b, bound) + name
            + "[i] = x;\n"@ + "}\n"@,
        VTypeModel::Struct(k) => if k < bound && k < structs.len() {
            from_json_fields_text(structs, structs[k as int].fields@, k, structs[k as int].fields@.len()) + "let "@
                + name + " = super::super::"@ + structs[k as int].name@ + " {"@
                + crate::format::binary::field_list_text(structs[k as int].fields@) + "};\n"@
        } else {
            Seq::empty()
        },
    }
}

/// Code that reads the first `n` fields of a struct, each from its member.
pub open spec fn from_json_fields_text(structs: Seq<Struct>, fields: Seq<(String, Type)>, bound: nat, n: nat) -> Seq<char>
    decreases bound, 2nat, n, VTypeModel::Bool,
{
    if n == 0 || n > fields.len() {
        Seq::empty()
    } else {
        from_json_fields_text(structs, fields, bound, (n - 1) as nat) + "{\n"@ + "let value = value[\""@
            + fields[n - 1].0@ + "\"].unwrap()\n"@ + from_json_text(
            structs,
            fields[n - 1].0@,
            vtype_view(fields[n - 1].1),
            bound,
        ) + "}\n"@
    }
}

/// Code that puts each of `items` into `object`.
pub open spec fn items_to_json_text(structs: Seq<Struct>, items: Seq<(String, Type)>) -> Seq<char>
    decreases items.len(),
{
    if items.len() == 0 {
        Seq::empty()
    } else {
        items_to_json_text(structs, items.drop_last()) + to_json_text(
            structs,
            items.last().0@,
            vtype_view(items.last().1),
            structs.len(),
        ) + "object.insert(\""@ + items.last().0@ + "\", value);\n"@
    }
}

/// Code that reads each of `items`.
pub open spec fn items_from_json_text(structs: Seq<Struct>, items: Seq<(String, Type)>) -> Seq<char>
    decreases items.len(),
{
    if items.len() == 0 {
        Seq::empty()
    } else {
        items_from_json_text(structs, items.drop_last()) + from_json_text(
            structs,
            items.last().0@,
            vtype_view(items.last().1),
            structs.len(),
        )
    }
}

/// Code that reads message `m` and hands it to the receiver.
pub open spec fn msg_from_json_text(structs: Seq<Struct>, m: Message) -> Seq<char> {
    items_from_json_text(structs, m.payload.items@) + "return Ok(receiver.recv_"@ + m.label@ + "("@
        + state_name_text(m.dest_state_name) + "(self.0), "@ + item_list_text(m.payload.items@) + ")?);\n"@
}

/// For each message, code that reads it when its label is found.
pub open spec fn label_dispatch_text(structs: Seq<Struct>, ms: Seq<Message>) -> Seq<char>
    decreases ms.len(),
{
    if ms.len() == 0 {
        Seq::empty()
    } else {
        label_dispatch_text(structs, ms.drop_last()) + "if label == \""@ + ms.last().label@ + "\" {\n"@
            + msg_from_json_text(structs, ms.last()) + "}\n"@
    }
}

#[verifier::rlimit(60)]
fn to_json(out: &mut String, structs: &Vec<Struct>, name: &String, t: &Type, bound: usize)
    ensures
        final(out)@ == old(out)@ + to_json_text(structs@, name@, vtype_view(*t), bound as nat),
    decreases bound, 1nat, t,
{
    let ghost start = out@;
    match t {
        Type::Array(b, _) => {
            push_str(out, "let mut array = vec![]\n");
            push_str(out, "for i in 0..");
            push_string(out, name);
            push_str(out, ".len() {\n");
            let mut element = name.clone();
            push_str(&mut element, "[i]");
            to_json(out, structs, &element, b, bound);
            push_str(out, "array.push(value)\n");
            push_str(out, "}\n");
            push_str(out, "let value = JsonValue::from(array);\n");
        },
        Type::Struct(k) => {
            if *k < structs.len() && *k < bound {
                to_json_struct(out, structs, name, *k);
            } else {
                assert(out@ =~= start + Seq::<char>::empty());
            }
        },
        _ => {
            push_str(out, "let value = ");
            push_string(out, name);
            push_str(out, ".into()\n");
        },
    }
    assert(out@ =~= start + to_json_text(structs@, name@, vtype_view(*t), bound as nat));
}

#[verifier::rlimit(80)]
fn to_json_struct(out: &mut String, structs: &Vec<Struct>, name: &String, k: usize)
    requires
        k < structs@.len(),
    ensures
        final(out)@ == old(out)@ + "let mut object = HashMap::new();\n"@ + to_json_fields_text(
            structs@,
            name@,
            structs@[k as int].fields@,
            k as nat,
            structs@[k as int].fields@.len(),
        ) + "let value = JsonValue::from(object);\n"@,
    decreases k + 1, 0nat, Type::Bool,
{
    let ghost start = out@;
    push_str(out, "let mut object = HashMap::new();\n");
    let ghost p1 = out@;
    let fields = &structs[k].fields;
    let mut i: usize = 0;
    while i < fields.len()
        invariant
            k < structs@.len(),
            fields == structs@[k as int].fields,
            i <= fields@.len(),
            out@ == p1 + to_json_fields_text(structs@, name@, fields@, k as nat, i as nat),
        decreases fields@.len() - i,
    {
        let mut member = name.clone();
        push_str(&mut member, ".");
        push_string(&mut member, &fields[i].0);
        to_json(out, structs, &member, &fields[i].1, k);
        push_str(out, "object.insert(");
        push_string(out, &fields[i].0);
        push_str(out, ", value);\n");
        i = i + 1;
    }
    push_str(out, "let value = JsonValue::from(object);\n");
    assert(out@ =~= start + "let mut object = HashMap::new();\n"@ + to_json_fields_text(
        structs@,
        name@,
        fields@,
        k as nat,
        fields@.len(),
    ) + "let value = JsonValue::from(object);\n"@);
}

#[verifier::rlimit(60)]
fn from_json(out: &mut String, structs: &Vec<Struct>, name: &String, t: &Type, bound: usize)
    ensures
        final(out)@ == old(out)@ + from_json_text(structs@, name@, vtype_view(*t), bound as nat),
    decreases bound, 1nat, t,
{
    let ghost start = out@;
    match t {
        Type::Bool => {
            push_str(out, "let ");
            push_string(out, name);
            push_str(out, " = value.as_bool().unwrap();\n");
        },
        Type::Int(i) => {
            push_str(out, "let ");
            push_string(out, name);
            push_str(out, " = value.as_");
            push_int_type(out, *i);
            push_str(out, "().unwrap()\n");
        },
        Type::Array(b, size) => {
            match size {
                Some(n) => {
                    push_str(out, "let mut ");
                    push_string(out, name);
                    push_str(out, " = [");
                    push_type(out, structs, b);
                    push_str(out, "::default(); ");
                    push_decimal(out, *n);
                    push_str(out, "];\n");
                },
                None => {
                    push_str(out, "let mut ");
                    push_string(out, name);
                    push_str(out, " = vec![");
                    push_type(out, structs, b);
                    push_str(out, "::default(); self.0.recv_u32()? as usize];\n");
                },
            }
            push_str(out, "for (i, value) in value.members().enumerate() {\n");
            let x = String::from_str("x");
            from_json(out, structs, &x, b, bound);
            push_string(out, name);
            push_str(out, "[i] = x;\n");
            push_str(out, "}\n");
            proof {
                reveal_strlit("x");
            }
        },
        Type::Struct(k) => {
            if *k < structs.len() && *k < bound {
                from_json_struct(out, structs, name, *k);
            } else {
                assert(out@ =~= start + Seq::<char>::empty());
            }
        },
    }
    assert(out@ =~= start + from_json_text(structs@, name@, vtype_view(*t), bound as nat));
}

#[verifier::rlimit(80)]
fn from_json_struct(out: &mut String, structs: &Vec<Struct>, name: &String, k: usize)
    requires
        k < structs@.len(),
    ensures
        final(out)@ == old(out)@ + from_json_fields_text(
            structs@,
            structs@[k as int].fields@,
            k as nat,
            structs@[k as int].fields@.len(),
        ) + "let "@ + name@ + " = super::super::"@ + structs@[k as int].name@ + " {"@
            + crate::format::binary::field_list_text(structs@[k as int].fields@) + "};\n"@,
    decreases k + 1, 0nat, Type::Bool,
{
    let ghost start = out@;
    let st = &structs[k];
    let mut i: usize = 0;
    while i < st.fields.len()
        invariant
            k < structs@.len(),
            *st == structs@[k as int],
            i <= st.fields@.len(),
            out@ == start + from_json_fields_text(structs@, st.fields@, k as nat, i as nat),
        decreases st.fields@.len() - i,
    {
        push_str(out, "{\n");
        push_str(out, "let value = value[\"");
        push_string(out, &st.fields[i].0);
        push_str(out, "\"].unwrap()\n");
        from_json(out, structs, &st.fields[i].0, &st.fields[i].1, k);
        push_str(out, "}\n");
        i = i + 1;
    }
    push_str(out, "let ");
    push_string(out, name);
    push_str(out, " = super::super::");
    push_string(out, &st.name);
    push_str(out, " {");
    let ghost before_list = out@;
    let mut j: usize = 0;
    while j < st.fields.len()
        invariant
            j <= st.fields@.len(),
            out@ == before_list + crate::format::binary::field_list_text(st.fields@.take(j as int)),
        decreases st.fields@.len() - j,
    {
        push_string(out, &st.fields[j].0);
        push_str(out, ",");
        assert(st.fields@.take(j + 1).drop_last() =~= st.fields@.take(j as int));
        j = j + 1;
    }
    assert(st.fields@.take(st.fields@.len() as int) =~= st.fields@);
    push_str(out, "};\n");
    assert(out@ =~= start + from_json_fields_text(structs@, st.fields@, k as nat, st.fields@.len()) + "let "@
        + name@ + " = super::super::"@ + st.name@ + " {"@ + crate::format::binary::field_list_text(st.fields@)
        + "};\n"@);
}

#[verifier::rlimit(80)]
fn msg_from_json(out: &mut String, structs: &Vec<Struct>, m: &Message)
    ensures
        final(out)@ == old(out)@ + msg_from_json_text(structs@, *m),
{
    let ghost start = out@;
    let items = &m.payload.items;
    let mut i: usize = 0;
    while i < items.len()
        invariant
            i <= items@.len(),
            out@ == start + items_from_json_text(structs@, items@.take(i as int)),
        decreases items@.len() - i,
    {
        from_json(out, structs, &items[i].0, &items[i].1, structs.len());
        assert(items@.take(i + 1).drop_last() =~= items@.take(i as int));
        i = i + 1;
    }
    assert(items@.take(items@.len() as int) =~= items@);
    push_str(out, "return Ok(receiver.recv_");
    push_string(out, &m.label);
    push_str(out, "(");
    push_state_name(out, m.dest_state_name);
    push_str(out, "(self.0), ");
    let ghost before_list = out@;
    let mut j: usize = 0;
    while j < items.len()
        invariant
            j <= items@.len(),
            out@ == before_list + item_list_text(items@.take(j as int)),
        decreases items@.len() - j,
    {
        push_string(out, &items[j].0);
        push_str(out, ", ");
        assert(items@.take(j + 1).drop_last() =~= items@.take(j as int));
        j = j + 1;
    }
    assert(items@.take(items@.len() as int) =~= items@);
    push_str(out, ")?);\n");
    assert(out@ =~= start + msg_from_json_text(structs@, *m));
}

impl Format for Json {
    open spec fn send_text(structs: Seq<Struct>, message: Message, insert_tag: bool) -> Seq<char> {
        "let mut object = HashMap::new()\n"@ + (if insert_tag {
            "object.insert(\"label\", \""@ + message.label@ + "\".into());\n"@
        } else {
            Seq::empty()
        }) + items_to_json_text(structs, message.payload.items@)
    }

    open spec fn recv_text(structs: Seq<Struct>, messages: Seq<Message>) -> Seq<char> {
        "let value = \n"@ + if messages.len() == 1 {
            msg_from_json_text(structs, messages[0])
        } else {
            "let label = value[\"label\"].as_str().unwrap();\n"@ + label_dispatch_text(structs, messages)
                + "panic!(\"invalid message!\")\n"@
        }
    }

    #[verifier::rlimit(80)]
    fn send_message(out: &mut String, structs: &Vec<Struct>, message: &Message, insert_tag: bool) {
        let ghost start = out@;
        push_str(out, "let mut object = HashMap::new()\n");
        if insert_tag {
            push_str(out, "object.insert(\"label\", \"");
            push_string(out, &message.label);
            push_str(out, "\".into());\n");
        }
        let ghost mid = out@;
        let items = &message.payload.items;
        let mut i: usize = 0;
        while i < items.len()
            invariant
                i <= items@.len(),
                out@ == mid + items_to_json_text(structs@, items@.take(i as int)),
            decreases items@.len() - i,
        {
            to_json(out, structs, &items[i].0, &items[i].1, structs.len());
            push_str(out, "object.insert(\"");
            push_string(out, &items[i].0);
            push_str(out, "\", value);\n");
            assert(items@.take(i + 1).drop_last() =~= items@.take(i as int));
            i = i + 1;
        }
        assert(items@.take(items@.len() as int) =~= items@);
        assert(out@ =~= start + Self::send_text(structs@, *message, insert_tag));
    }

    #[verifier::rlimit(80)]
    fn recv_messages(out: &mut String, structs: &Vec<Struct>, messages: &Vec<Message>) {
        let ghost start = out@;
        push_str(out, "let value = \n");
        if messages.len() == 1 {
            msg_from_json(out, structs, &messages[0]);
        } else {
            push_str(out, "let label = value[\"label\"].as_str().unwrap();\n");
            let ghost mid = out@;
            let mut i: usize = 0;
            while i < messages.len()
                invariant
                    i <= messages@.len(),
                    out@ == mid + label_dispatch_text(structs@, messages@.take(i as int)),
                decreases messages@.len() - i,
            {
                push_str(out, "if label == \"");
                push_string(out, &messages[i].label);
                push_str(out, "\" {\n");
                msg_from_json(out, structs, &messages[i]);
                push_str(out, "}\n");
                assert(messages@.take(i + 1).drop_last() =~= messages@.take(i as int));
                i = i + 1;
            }
            assert(messages@.take(messages@.len() as int) =~= messages@);
            push_str(out, "panic!(\"invalid message!\")\n");
        }
        assert(out@ =~= start + Self::recv_text(structs@, messages@));
    }
}

} // verus!
