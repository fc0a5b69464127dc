use vstd::prelude::*;

verus! {

use vstd::utf8::valid_utf8;
use vstd::utf8::decode_utf8;
use crate::directory::Directory;
use crate::directory::User;
use crate::directory::UserView;
use crate::directory::ids_unique;
use crate::frame::decoded;
use crate::frame::get_text;

/// One protocol message: the tagged union the peers exchange.
pub enum Payload {
    /// Client to server: forward `payload` to `recipient`.
    SendMessage { recipient: String, payload: String, group_id: Option<String> },
    /// Server to client: `sender` sent `payload`.
    RelayMessage { sender: String, payload: String, group_id: Option<String> },
    /// Client to server: the peer identifies itself.
    First { public_key: String, name: String },
    /// Server to client: a peer is present.
    NewUser { user: User },
    /// Server to client: a peer left.
    UserLeft { user_id: String },
}

/// One outbound message addressed to the peer holding `to`.
pub struct Delivery {
    pub to: String,
    pub message: Payload,
}

/// The abstract value of an optional string.
pub open spec fn opt_view(g: Option<String>) -> Option<Seq<char>> {
    match g {
        Some(s) => Some(s@),
        None => None,
    }
}

/// The message announces the peer `id` with record `u`.
pub open spec fn is_new_user(m: Payload, id: Seq<char>, u: UserView) -> bool {
    match m {
        Payload::NewUser { user } => user.id@ == id && user@ == u,
        _ => false,
    }
}

/// The message announces that the peer `id` left.
pub open spec fn is_user_left(m: Payload, id: Seq<char>) -> bool {
    match m {
        Payload::UserLeft { user_id } => user_id@ == id,
        _ => false,
    }
}

/// The message forwards `payload` from `sender`.
pub open spec fn is_relay(
    m: Payload,
    sender: Seq<char>,
    payload: Seq<char>,
    group: Option<Seq<char>>,
) -> bool {
    match m {
        Payload::RelayMessage { sender: s, payload: p, group_id: g } => s@ == sender && p@
            == payload && opt_view(g) == group,
        _ => false,
    }
}

/// The records of `s` other than the one holding `new_id`, in order.
pub open spec fn others_of(s: Seq<User>, new_id: Seq<char>) -> Seq<User>
    decreases s.len(),
{
    if s.len() == 0 {
        Seq::empty()
    } else if s.last().id@ != new_id {
        others_of(s.drop_last(), new_id).push(s.last())
    } else {
        others_of(s.drop_last(), new_id)
    }
}

/// The roster exchange: for the `p`-th other peer, the delivery at `2p`
/// announces the new peer to it and the delivery at `2p + 1` announces it
/// to the new peer.
pub open spec fn roster_ok(
    r: Seq<Delivery>,
    users: Seq<User>,
    new_id: Seq<char>,
    new_rec: UserView,
) -> bool {
    let others = others_of(users, new_id);
    &&& r.len() == 2 * others.len()
    &&& forall|p: int|
        0 <= p < others.len() ==> r[2 * p].to@ == others[p].id@ && is_new_user(
            #[trigger] r[2 * p].message,
            new_id,
            new_rec,
        ) && r[2 * p + 1].to@ == new_id && is_new_user(r[2 * p + 1].message, others[p].id@, others[p]@)
}

/// One departure notice to each remaining peer, in record order.
pub open spec fn user_left_broadcast_ok(
    r: Seq<Delivery>,
    remaining: Seq<User>,
    id: Seq<char>,
) -> bool {
    &&& r.len() == remaining.len()
    &&& forall|p: int|
        0 <= p < r.len() ==> r[p].to@ == remaining[p].id@ && is_user_left(
            #[trigger] r[p].message,
            id,
        )
}

/// Roster sync for a peer that just identified itself: announce it to
/// every other peer and every other peer to it, one notice each way. A
/// peer absent from the directory yields no deliveries.
pub fn dispatch_roster(dir: &Directory, new_id: &String) -> (r: Vec<Delivery>)
    requires
        dir.wf(),
    ensures
        dir@.contains_key(new_id@) ==> roster_ok(r@, dir.users@, new_id@, dir@[new_id@]),
        !dir@.contains_key(new_id@) ==> r@.len() == 0,
{
    let new_user = match dir.get(new_id) {
        Some(u) => u,
        None => {
            return Vec::new();
        },
    };
    let mut r: Vec<Delivery> = Vec::new();
    let mut k: usize = 0;
    proof {
        assert(others_of(dir.users@.take(0), new_id@) =~= Seq::<User>::empty());
    }
    while k < dir.users.len()
        invariant
            dir.wf(),
            k <= dir.users@.len(),
            new_user@ == dir@[new_id@],
            new_user.id@ == new_id@,
            dir@.contains_key(new_id@),
            roster_ok(r@, dir.users@.take(k as int), new_id@, dir@[new_id@]),
        decreases dir.users@.len() - k,
    {
        let u = &dir.users[k];
        let ghost r0 = r@;
        let ghost others0 = others_of(dir.users@.take(k as int), new_id@);
        proof {
            assert(dir.users@.take(k as int + 1).drop_last() =~= dir.users@.take(k as int));
            assert(dir.users@.take(k as int + 1).last() == dir.users@[k as int]);
        }
        if !u.id.eq(new_id) {
            r.push(
                Delivery { to: u.id.clone(), message: Payload::NewUser { user: new_user.duplicate() } },
            );
            r.push(
                Delivery { to: new_id.clone(), message: Payload::NewUser { user: u.duplicate() } },
            );
            proof {
                let others1 = others_of(dir.users@.take(k as int + 1), new_id@);
                assert(others1 == others0.push(dir.users@[k as int]));
                assert forall|p: int| 0 <= p < others1.len() implies r@[2 * p].to@
                    == others1[p].id@ && is_new_user(#[trigger] r@[2 * p].message, new_id@, dir@[new_id@])
                    && r@[2 * p + 1].to@ == new_id@ && is_new_user(
                    r@[2 * p + 1].message,
                    others1[p].id@,
                    others1[p]@,
                ) by {
                    if p < others0.len() {
                        assert(r@[2 * p] == r0[2 * p]);
                        assert(r@[2 * p + 1] == r0[2 * p + 1]);
                        assert(others1[p] == others0[p]);
                    } else {
                        assert(p == others0.len());
                        assert(others1[p] == dir.users@[k as int]);
                    }
                }
            }
        }
        k += 1;
    }
    proof {
        assert(dir.users@.take(dir.users@.len() as int) =~= dir.users@);
    }
    r
}

/// Point-to-point relay: look the recipient up; when absent, drop the
/// message silently; when present, address it one `relay_message`
/// envelope carrying the sender and the untouched ciphertext.
pub fn relay(
    dir: &Directory,
    sender: &String,
    recipient: &String,
    ciphertext: &String,
    group_id: Option<String>,
) -> (r: Option<Delivery>)
    requires
        dir.wf(),
    ensures
        r is Some <==> dir@.contains_key(recipient@),
        r is Some ==> r.unwrap().to@ == recipient@ && is_relay(
            r.unwrap().message,
            sender@,
            ciphertext@,
            opt_view(group_id),
        ),
{
    match dir.get(recipient) {
        Some(u) => Some(
            Delivery {
                to: u.id.clone(),
                message: Payload::RelayMessage {
                    sender: sender.clone(),
                    payload: ciphertext.clone(),
                    group_id,
                },
            },
        ),
        None => None,
    }
}

/// A peer departs: remove its record, then address one `user_left`
/// notice to every remaining peer.
pub fn depart(dir: &mut Directory, id: &String) -> (r: Vec<Delivery>)
    requires
        old(dir).wf(),
    ensures
        final(dir)@ == old(dir)@.remove(id@),
        final(dir).wf(),
        user_left_broadcast_ok(r@, final(dir).users@, id@),
{
    dir.leave(id);
    let mut r: Vec<Delivery> = Vec::new();
    let mut k: usize = 0;
    while k < dir.users.len()
        invariant
            k <= dir.users@.len(),
            r@.len() == k,
            forall|p: int|
                0 <= p < k ==> r@[p].to@ == dir.users@[p].id@ && is_user_left(
                    #[trigger] r@[p].message,
                    id@,
                ),
        decreases dir.users@.len() - k,
    {
        let u = &dir.users[k];
        r.push(Delivery { to: u.id.clone(), message: Payload::UserLeft { user_id: id.clone() } });
        k += 1;
    }
    r
}

/// Dispatch one parsed command from the peer holding `self_id`. A
/// `first` command promotes the record and triggers the roster exchange;
/// a `send_message` command relays; a message of a server-to-client kind
/// is ignored.
pub fn handle_command(dir: &mut Directory, self_id: &String, cmd: Payload) -> (r: Vec<Delivery>)
    requires
        old(dir).wf(),
    ensures
        final(dir).wf(),
        (match cmd {
            Payload::First { public_key, name } => {
                &&& (old(dir)@.contains_key(self_id@) ==> final(dir)@ == old(dir)@.insert(
                    self_id@,
                    UserView {
                        name: name@,
                        public_key: Some(public_key@),
                        conn: old(dir)@[self_id@].conn,
                    },
                ) && roster_ok(r@, final(dir).users@, self_id@, final(dir)@[self_id@]))
                &&& (!old(dir)@.contains_key(self_id@) ==> final(dir)@ == old(dir)@ && r@.len()
                    == 0)
            },
            Payload::SendMessage { recipient, payload, group_id } => {
                &&& final(dir)@ == old(dir)@
                &&& old(dir)@.contains_key(recipient@) ==> r@.len() == 1 && r@[0].to@
                    == recipient@ && is_relay(r@[0].message, self_id@, payload@, opt_view(group_id))
                &&& !old(dir)@.contains_key(recipient@) ==> r@.len() == 0
            },
            _ => final(dir)@ == old(dir)@ && r@.len() == 0,
        }),
{
    match cmd {
        Payload::First { public_key, name } => {
            dir.set_identity(self_id, &name, &public_key);
            dispatch_roster(dir, self_id)
        },
        Payload::SendMessage { recipient, payload, group_id } => {
            let mut r: Vec<Delivery> = Vec::new();
            match relay(dir, self_id, &recipient, &payload, group_id) {
                Some(d) => {
                    r.push(d);
                },
                None => {},
            }
            r
        },
        _ => Vec::new(),
    }
}

/// Number of deliveries addressed to the peer holding `id`.
pub open spec fn count_to(r: Seq<Delivery>, id: Seq<char>) -> nat
    decreases r.len(),
{
    if r.len() == 0 {
        0
    } else {
        count_to(r.drop_last(), id) + (if r.last().to@ == id {
            1nat
        } else {
            0nat
        })
    }
}

/// Number of records holding `id`.
pub open spec fn count_ids(s: Seq<User>, id: Seq<char>) -> nat
    decreases s.len(),
{
    if s.len() == 0 {
        0
    } else {
        count_ids(s.drop_last(), id) + (if s.last().id@ == id {
            1nat
        } else {
            0nat
        })
    }
}

proof fn lemma_roster_count_prefix(
    r: Seq<Delivery>,
    users: Seq<User>,
    new_id: Seq<char>,
    new_rec: UserView,
    id: Seq<char>,
    m: int,
)
    requires
        roster_ok(r, users, new_id, new_rec),
        0 <= m <= others_of(users, new_id).len(),
    ensures
        count_to(r.take(2 * m), id) == count_ids(others_of(users, new_id).take(m), id) + (if id
            == new_id {
            m as nat
        } else {
            0nat
        }),
    decreases m,
{
    let others = others_of(users, new_id);
    if m == 0 {
        assert(r.take(0) =~= Seq::<Delivery>::empty());
        assert(others.take(0) =~= Seq::<User>::empty());
    } else {
        lemma_roster_count_prefix(r, users, new_id, new_rec, id, m - 1);
        assert(is_new_user(r[2 * (m - 1)].message, new_id, new_rec));
        assert(r[2 * (m - 1)].to@ == others[m - 1].id@);
        assert(r[2 * (m - 1) + 1].to@ == new_id);
        assert(r.take(2 * m).drop_last() =~= r.take(2 * m - 1));
        assert(r.take(2 * m - 1).drop_last() =~= r.take(2 * (m - 1)));
        assert(r.take(2 * m).last() == r[2 * (m - 1) + 1]);
        assert(r.take(2 * m - 1).last() == r[2 * (m - 1)]);
        assert(others.take(m).drop_last() =~= others.take(m - 1));
        assert(others.take(m).last() == others[m - 1]);
        assert(count_to(r.take(2 * m), id) == count_to(r.take(2 * m - 1), id) + (if r[2 * (m - 1)
            + 1].to@ == id {
            1nat
        } else {
            0nat
        }));
        assert(count_to(r.take(2 * m - 1), id) == count_to(r.take(2 * (m - 1)), id) + (if r[2 * (m
            - 1)].to@ == id {
            1nat
        } else {
            0nat
        }));
        assert(count_ids(others.take(m), id) == count_ids(others.take(m - 1), id) + (if others[m
            - 1].id@ == id {
            1nat
        } else {
            0nat
        }));
    }
}

proof fn lemma_others_no_new(s: Seq<User>, new_id: Seq<char>)
    ensures
        count_ids(others_of(s, new_id), new_id) == 0,
    decreases s.len(),
{
    if s.len() > 0 {
        lemma_others_no_new(s.drop_last(), new_id);
        if s.last().id@ != new_id {
            assert(others_of(s, new_id).drop_last() =~= others_of(s.drop_last(), new_id));
        }
    }
}

proof fn lemma_count_ids_others(s: Seq<User>, new_id: Seq<char>, id: Seq<char>)
    requires
        id != new_id,
    ensures
        count_ids(others_of(s, new_id), id) == count_ids(s, id),
    decreases s.len(),
{
    if s.len() > 0 {
        lemma_count_ids_others(s.drop_last(), new_id, id);
        if s.last().id@ != new_id {
            assert(others_of(s, new_id).drop_last() =~= others_of(s.drop_last(), new_id));
            assert(others_of(s, new_id).last() == s.last());
        }
    }
}

proof fn lemma_count_ids_absent(s: Seq<User>, id: Seq<char>)
    requires
        forall|k: int| 0 <= k < s.len() ==> s[k].id@ != id,
    ensures
        count_ids(s, id) == 0,
    decreases s.len(),
{
    if s.len() > 0 {
        lemma_count_ids_absent(s.drop_last(), id);
    }
}

proof fn lemma_count_ids_unique(s: Seq<User>, j: int)
    requires
        ids_unique(s),
        0 <= j < s.len(),
    ensures
        count_ids(s, s[j].id@) == 1,
    decreases s.len(),
{
    if j == s.len() - 1 {
        assert(forall|k: int| 0 <= k < s.drop_last().len() ==> s.drop_last()[k].id@ != s[j].id@);
        lemma_count_ids_absent(s.drop_last(), s[j].id@);
    } else {
        assert(ids_unique(s.drop_last()));
        assert(s.drop_last()[j] == s[j]);
        lemma_count_ids_unique(s.drop_last(), j);
    }
}

proof fn lemma_others_len(s: Seq<User>, new_id: Seq<char>)
    requires
        ids_unique(s),
    ensures
        (exists|i: int| 0 <= i < s.len() && s[i].id@ == new_id) ==> others_of(s, new_id).len()
            == s.len() - 1,
        !(exists|i: int| 0 <= i < s.len() && s[i].id@ == new_id) ==> others_of(s, new_id).len()
            == s.len(),
    decreases s.len(),
{
    if s.len() > 0 {
        assert(ids_unique(s.drop_last()));
        lemma_others_len(s.drop_last(), new_id);
        if exists|i: int| 0 <= i < s.len() && s[i].id@ == new_id {
            let i = choose|i: int| 0 <= i < s.len() && s[i].id@ == new_id;
            if i < s.len() - 1 {
                assert(s.drop_last()[i].id@ == new_id);
            }
        }
        assert forall|i: int|
            0 <= i < s.drop_last().len() && s.drop_last()[i].id@ == new_id implies exists|k: int|
            0 <= k < s.len() && s[k].id@ == new_id by {
            assert(s[i].id@ == new_id);
        }
    }
}

/// Law: when the directory holds N peers and the new peer is among them,
/// the roster exchange addresses exactly N - 1 notices to the new peer
/// and exactly one notice to each of the other N - 1 peers.
pub proof fn lemma_roster_counts(
    r: Seq<Delivery>,
    users: Seq<User>,
    new_id: Seq<char>,
    new_rec: UserView,
)
    requires
        roster_ok(r, users, new_id, new_rec),
        ids_unique(users),
        exists|i: int| 0 <= i < users.len() && users[i].id@ == new_id,
    ensures
        count_to(r, new_id) == users.len() - 1,
        forall|j: int|
            0 <= j < users.len() && users[j].id@ != new_id ==> count_to(r, #[trigger] users[j].id@)
                == 1,
{
    let others = others_of(users, new_id);
    lemma_others_len(users, new_id);
    lemma_roster_count_prefix(r, users, new_id, new_rec, new_id, others.len() as int);
    assert(r.take(2 * (others.len() as int)) =~= r);
    assert(others.take(others.len() as int) =~= others);
    lemma_others_no_new(users, new_id);
    assert(count_to(r, new_id) == users.len() - 1);
    assert forall|j: int|
        0 <= j < users.len() && users[j].id@ != new_id implies count_to(r, #[trigger] users[j].id@)
        == 1 by {
        lemma_roster_count_prefix(r, users, new_id, new_rec, users[j].id@, others.len() as int);
        lemma_count_ids_others(users, new_id, users[j].id@);
        lemma_count_ids_unique(users, j);
    }
}

proof fn lemma_broadcast_count_prefix(r: Seq<Delivery>, remaining: Seq<User>, id: Seq<char>, q: Seq<char>, m: int)
    requires
        user_left_broadcast_ok(r, remaining, id),
        0 <= m <= r.len(),
    ensures
        count_to(r.take(m), q) == count_ids(remaining.take(m), q),
    decreases m,
{
    if m == 0 {
        assert(r.take(0) =~= Seq::<Delivery>::empty());
        assert(remaining.take(0) =~= Seq::<User>::empty());
    } else {
        lemma_broadcast_count_prefix(r, remaining, id, q, m - 1);
        assert(is_user_left(r[m - 1].message, id));
        assert(r.take(m).drop_last() =~= r.take(m - 1));
        assert(r.take(m).last() == r[m - 1]);
        assert(remaining.take(m).drop_last() =~= remaining.take(m - 1));
        assert(remaining.take(m).last() == remaining[m - 1]);
    }
}

/// Law: the departure broadcast reaches every remaining peer exactly
/// once.
pub proof fn lemma_departure_counts(r: Seq<Delivery>, remaining: Seq<User>, id: Seq<char>)
    requires
        user_left_broadcast_ok(r, remaining, id),
        ids_unique(remaining),
    ensures
        forall|j: int|
            0 <= j < remaining.len() ==> count_to(r, #[trigger] remaining[j].id@) == 1,
{
    assert forall|j: int|
        0 <= j < remaining.len() implies count_to(r, #[trigger] remaining[j].id@) == 1 by {
        lemma_broadcast_count_prefix(r, remaining, id, remaining[j].id@, r.len() as int);
        assert(r.take(r.len() as int) =~= r);
        assert(remaining.take(r.len() as int) =~= remaining);
        lemma_count_ids_unique(remaining, j);
    }
}

/// The life of one connection, from the socket opening to its close.
#[derive(Clone, Copy, Debug, PartialEq, Eq, Structural)]
pub enum SessionState {
    /// The socket is open; no upgrade has been negotiated yet.
    Connecting,
    /// The 101 response has been written.
    Negotiated,
    /// The peer holds a directory record without a public key.
    Anonymous,
    /// The peer has supplied its public key and is addressable.
    Identified,
    /// The socket closed and the record is gone.
    Closed,
}

/// What moves a connection through its life.
#[derive(Clone, Copy, Debug, PartialEq, Eq, Structural)]
pub enum SessionEvent {
    /// The upgrade handshake succeeded.
    Upgraded,
    /// The peer was entered into the directory.
    Joined,
    /// The peer sent its `first` command.
    FirstCommand,
    /// A read returned zero bytes.
    ConnectionClosed,
}

/// The connection's next state: it advances one step at a time through
/// `Connecting`, `Negotiated`, `Anonymous` and `Identified`, a close ends
/// it from any state, and an out-of-order event leaves it in place.
pub open spec fn session_next(s: SessionState, e: SessionEvent) -> SessionState {
    match (s, e) {
        (_, SessionEvent::ConnectionClosed) => SessionState::Closed,
        (SessionState::Connecting, SessionEvent::Upgraded) => SessionState::Negotiated,
        (SessionState::Negotiated, SessionEvent::Joined) => SessionState::Anonymous,
        (SessionState::Anonymous, SessionEvent::FirstCommand) => SessionState::Identified,
        (s, _) => s,
    }
}

/// Advance a connection's state by one observed event.
pub fn session_step(state: SessionState, event: SessionEvent) -> (r: SessionState)
    ensures
        r == session_next(state, event),
{
    match (state, event) {
        (_, SessionEvent::ConnectionClosed) => SessionState::Closed,
        (SessionState::Connecting, SessionEvent::Upgraded) => SessionState::Negotiated,
        (SessionState::Negotiated, SessionEvent::Joined) => SessionState::Anonymous,
        (SessionState::Anonymous, SessionEvent::FirstCommand) => SessionState::Identified,
        (s, _) => s,
    }
}

/// One observation made by a connection's reader.
pub enum ReadEvent {
    /// The socket did not become readable within the bounded wait.
    NotReady,
    /// A read returned zero bytes: an orderly close.
    Closed,
    /// One read's worth of bytes.
    Data(Vec<u8>),
}

/// What the reader loop does next.
pub enum ReadStep {
    /// Yield, then poll again.
    Poll,
    /// The peer left: deliver these notices, then stop.
    Stop(Vec<Delivery>),
    /// A well-formed text frame arrived: parse this text as a command.
    Command(String),
    /// The bytes were not a well-formed, non-empty text frame: log and
    /// poll again.
    Ignore,
}

/// One turn of the reader loop for the peer holding `id`: a timeout
/// yields, a zero-length read departs the peer and broadcasts the
/// departure, and read bytes are decoded as one text frame whose
/// non-empty text is handed back for command dispatch; a malformed or
/// empty frame is skipped.
pub fn reader_step(dir: &mut Directory, id: &String, ev: ReadEvent) -> (r: ReadStep)
    requires
        old(dir).wf(),
    ensures
        final(dir).wf(),
        (match ev {
            ReadEvent::NotReady => r is Poll && final(dir)@ == old(dir)@,
            ReadEvent::Closed => final(dir)@ == old(dir)@.remove(id@) && (r matches ReadStep::Stop(
                ds,
            ) && user_left_broadcast_ok(ds@, final(dir).users@, id@)),
            ReadEvent::Data(buf) => final(dir)@ == old(dir)@ && (match decoded(buf@) {
                Some(payload) => {
                    if valid_utf8(payload) && decode_utf8(payload).len() > 0 {
                        r matches ReadStep::Command(s) && s@ == decode_utf8(payload)
                    } else {
                        r is Ignore
                    }
                },
                None => r is Ignore,
            }),
        }),
{
    match ev {
        ReadEvent::NotReady => ReadStep::Poll,
        ReadEvent::Closed => ReadStep::Stop(depart(dir, id)),
        ReadEvent::Data(buf) => {
            match get_text(buf.as_slice()) {
                Ok(text) => {
                    if !text.as_str().is_empty() {
                        ReadStep::Command(text)
                    } else {
                        ReadStep::Ignore
                    }
                },
                Err(_) => ReadStep::Ignore,
            }
        },
    }
}

} // verus!
