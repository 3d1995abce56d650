//! Requests and their replies.

use vstd::prelude::*;

use crate::cluster::codec::CodecError;
use crate::ids::ActorId;
use crate::mailbox::SendError;
use std::marker::PhantomData;

verus! {

/// How an ask fails.
#[derive(Debug, Clone, PartialEq, Eq)]
pub enum AskError {
    /// The request was not sent: the actor's bounded mailbox was full.
    MailboxFull,
    /// The request was not sent: the actor has terminated.
    ActorTerminated,
    /// The request was not sent: it could not be encoded.
    NotEncodable(CodecError),
    /// The request was not sent: encoded it exceeds the maximum frame size.
    TooLarge { len: usize, max: usize },
    /// The request was not sent: the remoting endpoint has not been started.
    EndpointNotStarted,
    /// The request was sent, but no reply will ever arrive.
    NoReply,
    /// The request was sent, but no reply arrived within so many nanoseconds.
    Timeout(u128),
}

impl AskError {
    pub open spec fn of(error: SendError) -> AskError {
        match error {
            SendError::MailboxFull => AskError::MailboxFull,
            SendError::ActorTerminated => AskError::ActorTerminated,
        }
    }

    /// How an ask fails whose request the mailbox did not take.
    pub fn from_send(error: SendError) -> (r: AskError)
        ensures
            r == AskError::of(error),
    {
        match error {
            SendError::MailboxFull => AskError::MailboxFull,
            SendError::ActorTerminated => AskError::ActorTerminated,
        }
    }
}

/// How the wait for a reply ended.
#[derive(Debug, Clone, PartialEq, Eq)]
pub enum Waited<R> {
    Replied(R),
    /// The destination was dropped, so no reply will ever arrive.
    Dropped,
    /// The time was up.
    Elapsed,
}

/// What an ask resolves to, given how its wait for at most `within` ended.
pub fn ask_outcome<R>(waited: Waited<R>, within: u128) -> (r: Result<R, AskError>)
    ensures
        r == match waited {
            Waited::Replied(reply) => Ok::<R, AskError>(reply),
            Waited::Dropped => Err::<R, AskError>(AskError::NoReply),
            Waited::Elapsed => Err::<R, AskError>(AskError::Timeout(within)),
        },
{
    match waited {
        Waited::Replied(reply) => Ok(reply),
        Waited::Dropped => Err(AskError::NoReply),
        Waited::Elapsed => Err(AskError::Timeout(within)),
    }
}

/// A single-shot destination for the reply to a request, carried inside the request message and
/// consumed by replying, hence at most one reply can be sent. Once serialized it sends nothing
/// anymore here.
pub struct ReplyTo<R, F> {
    send_reply: Option<F>,
    recipient: Option<ActorId>,
    reply: PhantomData<R>,
}

impl<R, F: FnOnce(R)> ReplyTo<R, F> {
    pub closed spec fn sink(self) -> Option<F> {
        self.send_reply
    }

    pub closed spec fn spec_recipient(self) -> Option<ActorId> {
        self.recipient
    }

    /// A destination which hands the reply to the given function.
    pub fn new(send_reply: F) -> (reply_to: Self)
        ensures
            reply_to.sink() == Some(send_reply),
            reply_to.spec_recipient() is None,
    {
        ReplyTo { send_reply: Some(send_reply), recipient: None, reply: PhantomData }
    }

    /// Names the actor the reply is delivered to, which orders the reply behind that actor's
    /// messages.
    pub fn with_recipient(self, recipient: Option<ActorId>) -> (reply_to: Self)
        ensures
            reply_to.sink() == self.sink(),
            reply_to.spec_recipient() == recipient,
    {
        ReplyTo { recipient, ..self }
    }

    /// Sends the reply; whether there was a destination left to send it to. Without one it is a dead
    /// letter.
    pub fn reply(self, reply: R) -> (sent: bool)
        requires
            self.sink() matches Some(send_reply) ==> call_requires(send_reply, (reply,)),
        ensures
            sent == (self.sink() is Some),
            self.sink() matches Some(send_reply) ==> call_ensures(send_reply, (reply,), ()),
    {
        match self.send_reply {
            Some(send_reply) => {
                send_reply(reply);
                true
            },
            None => false,
        }
    }

    /// Takes the destination out, which serializing it does; none the second time.
    pub fn take_send_reply(&mut self) -> (taken: Option<F>)
        ensures
            taken == old(self).sink(),
            final(self).sink() is None,
            final(self).spec_recipient() == old(self).spec_recipient(),
    {
        self.send_reply.take()
    }

    /// The destination in words, with nothing of the function behind it.
    pub fn to_text(&self) -> (text: String)
        ensures
            text@ == if self.spec_recipient() is Some {
                "ReplyTo { recipient: Some(_), .. }"@
            } else {
                "ReplyTo { recipient: None, .. }"@
            },
    {
        match self.recipient {
            Some(_) => "ReplyTo { recipient: Some(_), .. }".to_owned(),
            None => "ReplyTo { recipient: None, .. }".to_owned(),
        }
    }

    /// The actor the reply is delivered to, if it is one.
    pub fn recipient(&self) -> (recipient: Option<ActorId>)
        ensures
            recipient == self.spec_recipient(),
    {
        self.recipient
    }
}

/// An ask which the mailbox did not take fails as the send did.
pub proof fn a_refused_ask_fails_as_its_send(error: SendError)
    ensures
        AskError::of(error) is MailboxFull <==> error is MailboxFull,
        AskError::of(error) is ActorTerminated <==> error is ActorTerminated,
{
}

/// An ask gives its reply if one came, and fails otherwise: with the time it waited if that was up,
/// and as unanswered if nobody will reply anymore.
pub proof fn an_ask_resolves_as_its_wait_ended<R>(
    waited: Waited<R>,
    within: u128,
    r: Result<R, AskError>,
)
    requires
        call_ensures(ask_outcome::<R>, (waited, within), r),
    ensures
        r is Ok <==> waited is Replied,
        waited matches Waited::Replied(reply) ==> r->Ok_0 == reply,
        waited is Elapsed ==> r == Err::<R, AskError>(AskError::Timeout(within)),
        waited is Dropped ==> r == Err::<R, AskError>(AskError::NoReply),
{
}

} // verus!
