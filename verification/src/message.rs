//! The envelope that carries every payload between nodes.

use vstd::prelude::*;

verus! {

/// What an envelope holds around its payload.
#[derive(Debug)]
struct MessageBody<D> {
    msg_id: Option<u64>,
    in_reply_to: Option<u64>,
    data: D,
}

/// One unit of traffic: who sent it, who receives it, the correlation ids and
/// the payload.
#[derive(Debug)]
pub struct Message<D> {
    src: String,
    dst: String,
    body: MessageBody<D>,
}

/// An envelope as it arrives.
pub type InMessage<In> = Message<In>;

/// An envelope as it leaves.
pub type OutMessage<Out> = Message<Out>;

/// The mathematical content of a [`Message`].
pub ghost struct MessageView<D> {
    pub src: Seq<char>,
    pub dst: Seq<char>,
    pub msg_id: Option<u64>,
    pub in_reply_to: Option<u64>,
    pub data: D,
}

impl<D> View for Message<D> {
    type V = MessageView<D>;

    closed spec fn view(&self) -> MessageView<D> {
        MessageView {
            src: self.src@,
            dst: self.dst@,
            msg_id: self.body.msg_id,
            in_reply_to: self.body.in_reply_to,
            data: self.body.data,
        }
    }
}

impl<D> Message<D> {
    /// A fresh envelope that answers nothing.
    pub fn new(src: String, dst: String, msg_id: Option<u64>, data: D) -> (m: Message<D>)
        ensures
            m@ == (MessageView { src: src@, dst: dst@, msg_id, in_reply_to: None, data }),
    {
        Message { src, dst, body: MessageBody { msg_id, in_reply_to: None, data } }
    }

    /// An envelope with every field given, as it is read off the wire.
    pub fn from_parts(
        src: String,
        dst: String,
        msg_id: Option<u64>,
        in_reply_to: Option<u64>,
        data: D,
    ) -> (m: Message<D>)
        ensures
            m@ == (MessageView { src: src@, dst: dst@, msg_id, in_reply_to, data }),
    {
        Message { src, dst, body: MessageBody { msg_id, in_reply_to, data } }
    }

    /// The answer to this envelope: sender and receiver change places, and the
    /// answer names the id of what it answers.
    pub fn into_reply<Out>(self, msg_id: Option<u64>, data: Out) -> (m: Message<Out>)
        ensures
            m@ == (MessageView {
                src: self@.dst,
                dst: self@.src,
                msg_id,
                in_reply_to: self@.msg_id,
                data,
            }),
    {
        Message {
            src: self.dst,
            dst: self.src,
            body: MessageBody { msg_id, in_reply_to: self.body.msg_id, data },
        }
    }

    /// As [`Message::into_reply`], with the answer's payload computed from the
    /// payload answered.
    pub fn into_reply_with<Out, F: FnOnce(D) -> Out>(self, msg_id: Option<u64>, data_fn: F) -> (m:
        Message<Out>)
        requires
            data_fn.requires((self@.data,)),
        ensures
            m@.src == self@.dst,
            m@.dst == self@.src,
            m@.msg_id == msg_id,
            m@.in_reply_to == self@.msg_id,
            data_fn.ensures((self@.data,), m@.data),
    {
        Message {
            src: self.dst,
            dst: self.src,
            body: MessageBody {
                msg_id,
                in_reply_to: self.body.msg_id,
                data: data_fn(self.body.data),
            },
        }
    }

    /// The envelope taken apart: sender, receiver, id, the id answered, and
    /// the payload.
    pub fn into_parts(self) -> (parts: (String, String, Option<u64>, Option<u64>, D))
        ensures
            parts.0@ == self@.src,
            parts.1@ == self@.dst,
            parts.2 == self@.msg_id,
            parts.3 == self@.in_reply_to,
            parts.4 == self@.data,
    {
        (self.src, self.dst, self.body.msg_id, self.body.in_reply_to, self.body.data)
    }

    /// The payload.
    pub fn data(&self) -> (d: &D)
        ensures
            *d == self@.data,
    {
        &self.body.data
    }

    /// The sender.
    pub fn src(&self) -> (s: &String)
        ensures
            s@ == self@.src,
    {
        &self.src
    }

    /// The receiver.
    pub fn dst(&self) -> (s: &String)
        ensures
            s@ == self@.dst,
    {
        &self.dst
    }

    /// The id under which the sender expects an answer, if it gave one.
    pub fn msg_id(&self) -> (id: Option<u64>)
        ensures
            id == self@.msg_id,
    {
        self.body.msg_id
    }

    /// The id of the request that this envelope answers, if it answers one.
    pub fn in_reply_to(&self) -> (id: Option<u64>)
        ensures
            id == self@.in_reply_to,
    {
        self.body.in_reply_to
    }
}

} // verus!
