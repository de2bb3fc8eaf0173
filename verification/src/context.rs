//! The conversation an incoming message belongs to, and where replies and
//! reactions go.
use vstd::prelude::*;

verus! {

/// Where a message is sent: one recipient (phone number or uuid) or a group.
pub enum MessageTarget {
    Recipient(String),
    Group(String),
}

/// The view of an optional string.
pub open spec fn opt_view(o: Option<String>) -> Option<Seq<char>> {
    match o {
        Some(s) => Some(s@),
        None => None,
    }
}

/// The view of a target: whether it is a group, and its id.
pub open spec fn target_view(t: MessageTarget) -> (bool, Seq<char>) {
    match t {
        MessageTarget::Recipient(r) => (false, r@),
        MessageTarget::Group(g) => (true, g@),
    }
}

/// Where a reply goes: the group of a group message (nowhere when the group
/// id is missing), else the sender.
pub open spec fn reply_target_spec(
    is_group: bool,
    group_id: Option<Seq<char>>,
    sender_uuid: Seq<char>,
) -> Option<(bool, Seq<char>)> {
    if is_group {
        match group_id {
            Some(g) => Some((true, g)),
            None => None,
        }
    } else {
        Some((false, sender_uuid))
    }
}

/// Executable `reply_target_spec`.
pub fn reply_target(is_group: bool, group_id: &Option<String>, sender_uuid: &str) -> (t: Option<
    MessageTarget,
>)
    ensures
        match t {
            Some(x) => reply_target_spec(is_group, opt_view(*group_id), sender_uuid@) == Some(
                target_view(x),
            ),
            None => reply_target_spec(is_group, opt_view(*group_id), sender_uuid@) is None,
        },
        !is_group ==> (t matches Some(MessageTarget::Recipient(r)) && r@ == sender_uuid@),
        is_group ==> match group_id {
            Some(g) => t matches Some(MessageTarget::Group(x)) && x@ == g@,
            None => t is None,
        },
{
    if is_group {
        match group_id {
            Some(g) => Some(MessageTarget::Group(g.clone())),
            None => None,
        }
    } else {
        Some(MessageTarget::Recipient(String::from_str(sender_uuid)))
    }
}

/// The recipient of a reaction: the group id of a group message (empty when
/// missing), else the sender.
pub open spec fn reaction_recipient_spec(
    is_group: bool,
    group_id: Option<Seq<char>>,
    sender_uuid: Seq<char>,
) -> Seq<char> {
    if is_group {
        match group_id {
            Some(g) => g,
            None => Seq::empty(),
        }
    } else {
        sender_uuid
    }
}

/// Executable `reaction_recipient_spec`.
pub fn reaction_recipient(is_group: bool, group_id: &Option<String>, sender_uuid: &str) -> (r:
    String)
    ensures
        r@ == reaction_recipient_spec(is_group, opt_view(*group_id), sender_uuid@),
{
    if is_group {
        match group_id {
            Some(g) => g.clone(),
            None => String::new(),
        }
    } else {
        String::from_str(sender_uuid)
    }
}

/// Context for an incoming message. `C` is the client that sends replies.
pub struct MessageContext<C> {
    /// The signal-cli RPC client
    pub client: C,
    /// Sender's UUID
    pub sender_uuid: String,
    /// Sender's phone number (if available)
    pub sender_number: Option<String>,
    /// Sender's profile name (if available)
    pub sender_name: Option<String>,
    /// Group ID (None for direct messages)
    pub group_id: Option<String>,
    /// The message text
    pub text: String,
    /// Message timestamp
    pub timestamp: u64,
    /// Whether this is a group message
    pub is_group: bool,
}

impl<C> MessageContext<C> {
    /// Where a reply to this message goes (`reply`).
    pub fn reply_target(&self) -> (t: Option<MessageTarget>)
        ensures
            match t {
                Some(x) => reply_target_spec(self.is_group, opt_view(self.group_id), self.sender_uuid@)
                    == Some(target_view(x)),
                None => reply_target_spec(
                    self.is_group,
                    opt_view(self.group_id),
                    self.sender_uuid@,
                ) is None,
            },
            !self.is_group ==> (t matches Some(MessageTarget::Recipient(r)) && r@
                == self.sender_uuid@),
            self.is_group ==> match self.group_id {
                Some(g) => t matches Some(MessageTarget::Group(x)) && x@ == g@,
                None => t is None,
            },
    {
        reply_target(self.is_group, &self.group_id, self.sender_uuid.as_str())
    }

    /// The recipient of a reaction to this message (`react`); the reaction
    /// names the sender as the author of the message reacted to.
    pub fn reaction_recipient(&self) -> (r: String)
        ensures
            r@ == reaction_recipient_spec(self.is_group, opt_view(self.group_id), self.sender_uuid@),
    {
        reaction_recipient(self.is_group, &self.group_id, self.sender_uuid.as_str())
    }
}

/// A reply to a direct message goes to its sender, whatever group id the
/// message carries; a reply to a group message goes to its group.
pub proof fn law_replies_stay_in_the_conversation(
    is_group: bool,
    group_id: Option<Seq<char>>,
    sender_uuid: Seq<char>,
)
    ensures
        !is_group ==> reply_target_spec(is_group, group_id, sender_uuid) == Some(
            (false, sender_uuid),
        ),
        is_group && group_id is Some ==> reply_target_spec(is_group, group_id, sender_uuid)
            == Some((true, group_id->0)),
        is_group ==> reaction_recipient_spec(is_group, group_id, sender_uuid) == match group_id {
            Some(g) => g,
            None => Seq::<char>::empty(),
        },
        !is_group ==> reaction_recipient_spec(is_group, group_id, sender_uuid) == sender_uuid,
{
}

} // verus!
