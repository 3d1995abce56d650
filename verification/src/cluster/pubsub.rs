//! Publish-subscribe over the receptionist: a topic is a key under another name, subscribing
//! registers a local actor under it and publishing tells every subscriber the receptionist resolves.

use vstd::prelude::*;

use crate::cluster::discovery::{Key, LocalRefError, RegisterError, WireKeyModel};
use crate::cluster::receptionist::{is_answer, lookup, Entry, Receptionist, ReceptionistError,
    WireRegistrationModel};
use crate::cluster::registrations::spec_framed_len;
use crate::cluster::registry::{is_registered, register, Registry};
use crate::ids::{ActorId, NodeId};

verus! {

/// A topic. Topic names and the names actors are registered under share one namespace.
#[derive(Debug)]
pub struct Topic<M> {
    pub key: Key<M>,
}

impl<M> Topic<M> {
    /// A topic under the given name.
    pub fn new(name: &str) -> (topic: Self)
        ensures
            topic.key.name@ == name@,
    {
        Topic { key: Key::new(name) }
    }

    /// The key the topic's subscribers are registered under.
    pub fn key(&self) -> (key: &Key<M>)
        ensures
            *key == self.key,
    {
        &self.key
    }
}

impl<M> Clone for Topic<M> {
    fn clone(&self) -> (topic: Self)
        ensures
            topic.key.name@ == self.key.name@,
    {
        Topic { key: self.key.clone() }
    }
}

/// Subscribes an actor of this node to a topic by registering it under the topic's key.
pub fn subscribe<M>(
    registry: Option<&mut Registry>,
    topic: &Topic<M>,
    type_tag: &str,
    id: ActorId,
    local: bool,
    max_frame_size: usize,
) -> (r: Result<(), RegisterError>)
    ensures
        registry is None ==> r == Err::<(), RegisterError>(RegisterError::EndpointNotStarted),
        registry matches Some(registry) ==> {
            let registration = WireRegistrationModel {
                key: WireKeyModel { name: topic.key.name@, type_tag: type_tag@ },
                id,
            };
            let len = spec_framed_len(registration);
            if !local {
                r == Err::<(), RegisterError>(RegisterError::NotLocal) && *final(registry)
                    == *registry
            } else if len > max_frame_size {
                r == Err::<(), RegisterError>(
                    RegisterError::TooLarge { len: len as usize, max: max_frame_size },
                ) && *final(registry) == *registry
            } else {
                r == Ok::<(), RegisterError>(()) && is_registered(
                    *registry,
                    *final(registry),
                    registration,
                )
            }
        },
{
    register(registry, topic.key.wire(type_tag), id, local, max_frame_size)
}

/// The subscribers of a topic to be told, this node's own included: every one the receptionist
/// currently resolves on an Up member. Publishing answers how many there are.
pub fn publish<M, R, F: Fn(Entry) -> Result<R, LocalRefError>>(
    receptionist: Option<&Receptionist>,
    up: &[NodeId],
    topic: &Topic<M>,
    type_tag: &str,
    resolve_ref: F,
) -> (r: Result<Vec<R>, ReceptionistError>)
    requires
        receptionist matches Some(receptionist) ==> receptionist.wf(),
        forall|e: Entry| #[trigger] call_requires(resolve_ref, (e,)),
    ensures
        receptionist is None ==> r == Err::<Vec<R>, ReceptionistError>(
            ReceptionistError::EndpointNotStarted,
        ),
        receptionist matches Some(receptionist) ==> is_answer(
            r,
            receptionist@.replicas,
            up@,
            WireKeyModel { name: topic.key.name@, type_tag: type_tag@ },
            resolve_ref,
        ),
{
    lookup(receptionist, up, &topic.key.wire(type_tag), resolve_ref)
}

} // verus!
