//! Wire formats: how the generated code lays a message down on the wire.
use vstd::prelude::*;

use crate::validate::{Message, Struct};

pub mod binary;
pub mod json;

verus! {

/// A wire format: the code that sends one message and the code that
/// receives one of the messages of a state.
pub trait Format {
    /// The code that sends `message`, with a leading tag when `insert_tag`.
    spec fn send_text(structs: Seq<Struct>, message: Message, insert_tag: bool) -> Seq<char>;

    /// The code that receives one of `messages` and hands it to the
    /// receiver.
    spec fn recv_text(structs: Seq<Struct>, messages: Seq<Message>) -> Seq<char>;

    /// Appends the code that sends `message`.
    fn send_message(out: &mut String, structs: &Vec<Struct>, message: &Message, insert_tag: bool)
        ensures
            final(out)@ == old(out)@ + Self::send_text(structs@, *message, insert_tag),
    ;

    /// Appends the code that receives one of `messages`.
    fn recv_messages(out: &mut String, structs: &Vec<Struct>, messages: &Vec<Message>)
        ensures
            final(out)@ == old(out)@ + Self::recv_text(structs@, messages@),
    ;
}

} // verus!
