use vstd::prelude::*;

verus! {

use vstd::string::StringExecFns;
use crate::directory::Directory;

/// Where a chat line comes from.
pub enum MessageKind {
    ServerMessage,
    UserMessage,
}

/// One chat line to fan out to every connected peer.
pub struct Message {
    pub kind: MessageKind,
    pub text: String,
}

/// One chat line addressed to the peer holding `to`.
pub struct TextDelivery {
    pub to: String,
    pub text: String,
}

/// Fan one message's text out to every peer in the directory, one
/// delivery per record, in record order.
pub fn broadcast(dir: &Directory, msg: &Message) -> (r: Vec<TextDelivery>)
    ensures
        r@.len() == dir.users@.len(),
        forall|p: int|
            #![trigger r@[p]]
            0 <= p < r@.len() ==> r@[p].to@ == dir.users@[p].id@ && r@[p].text@ == msg.text@,
{
    let mut r: Vec<TextDelivery> = Vec::new();
    let mut k: usize = 0;
    while k < dir.users.len()
        invariant
            k <= dir.users@.len(),
            r@.len() == k,
            forall|p: int|
                #![trigger r@[p]]
                0 <= p < k ==> r@[p].to@ == dir.users@[p].id@ && r@[p].text@ == msg.text@,
        decreases dir.users@.len() - k,
    {
        let u = &dir.users[k];
        r.push(TextDelivery { to: u.id.clone(), text: msg.text.clone() });
        k += 1;
    }
    r
}

/// The chat line a peer's text becomes: the peer's display name, a colon
/// separator, then the text; nothing when the peer is not present.
pub fn post_user_message(dir: &Directory, id: &String, text: &str) -> (r: Option<Message>)
    requires
        dir.wf(),
    ensures
        r is Some <==> dir@.contains_key(id@),
        r is Some ==> r.unwrap().text@ == dir@[id@].name + ": "@ + text@,
{
    let user = match dir.get(id) {
        Some(u) => u,
        None => {
            return None;
        },
    };
    let mut line = user.name.clone();
    line.append(": ");
    line.append(text);
    Some(Message { kind: MessageKind::ServerMessage, text: line })
}

} // verus!
