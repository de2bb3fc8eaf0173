//! The decisions of the signal-cli JSON-RPC client: request framing, the
//! table of calls awaiting a response, the reading of responses, and the
//! classification of incoming lines.
use vstd::prelude::*;
use crate::context::{target_view, MessageTarget};
use crate::error::RpcError;
use crate::text::{chars_of, trim, trim_exec};
use crate::types::{JsonRpcRequest, JsonRpcResponse};
use std::collections::HashMap;
use vstd::std_specs::iter::IteratorSpec;

verus! {

/// Transport method for connecting to the signal-cli daemon.
pub enum Transport {
    /// Connect via a Unix domain socket at this path.
    Unix(String),
    /// Connect via TCP (e.g. "localhost:7583").
    Tcp(String),
}

/// The transport that a configured socket names: `tcp://host:port` is a TCP
/// address, anything else a Unix socket path.
pub fn transport_for_socket(socket: &str) -> (t: Transport)
    ensures
        match t {
            Transport::Tcp(addr) => crate::text::has_prefix(socket@, "tcp://"@) && addr@
                == socket@.skip(6),
            Transport::Unix(path) => !crate::text::has_prefix(socket@, "tcp://"@) && path@
                == socket@,
        },
{
    let sc = chars_of(socket);
    let tcp = chars_of("tcp://");
    proof {
        reveal_strlit("tcp://");
    }
    if crate::text::has_prefix_exec(&sc, &tcp) {
        let rest = crate::text::skip_chars(&sc, 6);
        Transport::Tcp(crate::text::string_from(&rest))
    } else {
        Transport::Unix(String::from_str(socket))
    }
}

/// The request that a call of `method` with `params` sends under `id`.
pub fn request_for(id: u64, method: &str, params: serde_json::Value) -> (r: JsonRpcRequest)
    ensures
        r.jsonrpc@ == "2.0"@,
        r.id == Some(id),
        r.method@ == method@,
        r.params == Some(params),
{
    JsonRpcRequest {
        jsonrpc: String::from_str("2.0"),
        id: Some(id),
        method: String::from_str(method),
        params: Some(params),
    }
}

/// What a call returns, given the daemon's response: the error it reports,
/// else its result, else an invalid-response error.
pub fn interpret_response(resp: JsonRpcResponse) -> (r: Result<serde_json::Value, RpcError>)
    ensures
        match resp.error {
            Some(e) => r matches Err(RpcError::RpcError { code, message }) && code == e.code
                && message == e.message,
            None => match resp.result {
                Some(v) => r == Ok::<serde_json::Value, RpcError>(v),
                None => r matches Err(RpcError::InvalidResponse(m)) && m@
                    == "Missing result in response"@,
            },
        },
{
    if let Some(err) = resp.error {
        return Err(RpcError::RpcError { code: err.code, message: err.message });
    }
    match resp.result {
        Some(v) => Ok(v),
        None => Err(RpcError::InvalidResponse(String::from_str("Missing result in response"))),
    }
}

/// What an incoming line from the daemon is.
pub enum LineKind {
    /// Blank: ignored.
    Blank,
    /// The response to the call with this id.
    Response(u64),
    /// A `receive` notification whose envelope is to be read.
    Notification,
    /// Anything else: ignored.
    Unhandled,
}

/// What reading an incoming line as JSON found: the id of a response (when
/// the line reads as a JSON-RPC response that has one), the `method` string
/// and the `params.envelope` value of a notification.
pub struct IncomingLine {
    pub response_id: Option<u64>,
    pub method: Option<String>,
    pub envelope: Option<serde_json::Value>,
}

/// Classifies an incoming line, given what reading it as JSON found (none
/// when it is not JSON): a blank line is ignored; a response with an id goes
/// to the call with that id; a `receive` notification that carries an
/// envelope is read; anything else is ignored.
pub fn classify_incoming(line: &str, parsed: &Option<IncomingLine>) -> (k: LineKind)
    ensures
        trim(line@).len() == 0 ==> k is Blank,
        trim(line@).len() != 0 ==> match parsed {
            Some(p) => match p.response_id {
                Some(id) => k == LineKind::Response(id),
                None => if p.envelope is Some && (p.method matches Some(m) && m@ == "receive"@) {
                    k is Notification
                } else {
                    k is Unhandled
                },
            },
            None => k is Unhandled,
        },
{
    let lc = chars_of(line);
    let t = trim_exec(&lc);
    if t.len() == 0 {
        return LineKind::Blank;
    }
    match parsed {
        None => LineKind::Unhandled,
        Some(p) => match p.response_id {
            Some(id) => LineKind::Response(id),
            None => {
                let receive = chars_of("receive");
                proof {
                    reveal_strlit("receive");
                }
                let is_receive = match &p.method {
                    Some(m) => crate::commands::chars_eq(&chars_of(m.as_str()), &receive),
                    None => false,
                };
                if is_receive && p.envelope.is_some() {
                    LineKind::Notification
                } else {
                    LineKind::Unhandled
                }
            },
        },
    }
}

/// The result of a call is `Err(ConnectionLost)` when the connection is down.
pub fn precheck_call(connected: bool) -> (r: Result<(), RpcError>)
    ensures
        connected <==> r is Ok,
        !connected ==> r matches Err(RpcError::ConnectionLost),
{
    if connected {
        Ok(())
    } else {
        Err(RpcError::ConnectionLost)
    }
}

/// Where a message edit goes: the recipient when one is given, else the
/// group; an error when neither is.
pub fn edit_target(recipient: Option<&str>, group_id: Option<&str>) -> (r: Result<
    MessageTarget,
    RpcError,
>)
    ensures
        match recipient {
            Some(x) => r matches Ok(t) && target_view(t) == (false, x@),
            None => match group_id {
                Some(g) => r matches Ok(t) && target_view(t) == (true, g@),
                None => r matches Err(RpcError::InvalidResponse(m)) && m@
                    == "Missing recipient or group_id for edit_message"@,
            },
        },
{
    match recipient {
        Some(x) => Ok(MessageTarget::Recipient(String::from_str(x))),
        None => match group_id {
            Some(g) => Ok(MessageTarget::Group(String::from_str(g))),
            None => Err(
                RpcError::InvalidResponse(
                    String::from_str("Missing recipient or group_id for edit_message"),
                ),
            ),
        },
    }
}

/// Who the account is, from the `number` and `uuid` string fields of the
/// daemon's `getUser` answer: the number when present, else the uuid.
pub fn whoami_from(number: Option<String>, uuid: Option<String>) -> (r: Result<String, RpcError>)
    ensures
        match number {
            Some(n) => r == Ok::<String, RpcError>(n),
            None => match uuid {
                Some(u) => r == Ok::<String, RpcError>(u),
                None => r matches Err(RpcError::InvalidResponse(m)) && m@
                    == "getUser didn't return a valid string"@,
            },
        },
{
    if let Some(n) = number {
        return Ok(n);
    }
    if let Some(u) = uuid {
        return Ok(u);
    }
    Err(RpcError::InvalidResponse(String::from_str("getUser didn't return a valid string")))
}

/// The ids of a table's pending calls, in some order, each once.
fn pending_ids<S>(m: &HashMap<u64, S>) -> (ks: Vec<u64>)
    ensures
        ks@.no_duplicates(),
        ks@.to_set() == m@.dom(),
{
    broadcast use vstd::std_specs::hash::group_hash_axioms;

    let ghost all = vstd::std_specs::hash::spec_keys_iter(m).remaining();
    let mut ks: Vec<u64> = Vec::new();
    for k in it: m.keys()
        invariant
            it.seq() == all,
            ks@ == all.take(it.index() as int).unref(),
    {
        ks.push(*k);
        proof {
            assert(all.take(it.index() + 1) =~= all.take(it.index() as int).push(all[it.index() as int]));
            assert(all.take(it.index() + 1).unref() =~= all.take(it.index() as int).unref().push(
                *all[it.index() as int],
            ));
        }
    }
    assert(all.take(all.len() as int) =~= all);
    ks
}

/// The calls awaiting a response, each with the means `S` of delivering it,
/// and the id the next call gets.
pub struct RequestTracker<S> {
    next_id: u64,
    pending: HashMap<u64, S>,
}

impl<S> RequestTracker<S> {
    /// The id that the next call gets.
    pub closed spec fn next_id_spec(&self) -> u64 {
        self.next_id
    }

    /// The pending calls by id.
    pub closed spec fn pending_view(&self) -> Map<u64, S> {
        self.pending@
    }

    /// A table with no pending call; the first call gets id 1.
    pub fn new() -> (t: Self)
        ensures
            t.next_id_spec() == 1,
            t.pending_view() == Map::<u64, S>::empty(),
    {
        RequestTracker { next_id: 1, pending: HashMap::new() }
    }

    /// Starts a call: hands out the next id (ids wrap around like an atomic
    /// counter) and records `sender` under it, replacing any call still
    /// pending under the same id.
    pub fn begin(&mut self, sender: S) -> (id: u64)
        ensures
            id == old(self).next_id_spec(),
            final(self).next_id_spec() == following_id(id),
            final(self).pending_view() == old(self).pending_view().insert(id, sender),
    {
        broadcast use vstd::std_specs::hash::group_hash_axioms;

        let id = self.next_id;
        self.next_id = self.next_id.wrapping_add(1);
        self.pending.insert(id, sender);
        id
    }

    /// Ends the call `id` (its response came, or it timed out): removes it
    /// and hands back its delivery means, if it was pending.
    pub fn complete(&mut self, id: u64) -> (s: Option<S>)
        ensures
            final(self).next_id_spec() == old(self).next_id_spec(),
            s == (if old(self).pending_view().contains_key(id) {
                Some(old(self).pending_view()[id])
            } else {
                None
            }),
            final(self).pending_view() == old(self).pending_view().remove(id),
    {
        broadcast use vstd::std_specs::hash::group_hash_axioms;

        self.pending.remove(&id)
    }

    /// Empties the table (the connection is lost) and hands back the
    /// delivery means of every pending call, each once, in some order, so
    /// that each waiting call can be failed.
    pub fn drain(&mut self) -> (all: Vec<S>)
        ensures
            final(self).next_id_spec() == old(self).next_id_spec(),
            final(self).pending_view() == Map::<u64, S>::empty(),
            exists|ids: Seq<u64>|
                #![trigger ids.to_set()]
                ids.no_duplicates() && ids.to_set() == old(self).pending_view().dom() && all@
                    == ids.map_values(|i: u64| old(self).pending_view()[i]),
    {
        broadcast use vstd::std_specs::hash::group_hash_axioms;

        let ghost before = self.pending@;
        let ks = pending_ids(&self.pending);
        let mut out: Vec<S> = Vec::new();
        let mut i: usize = 0;
        while i < ks.len()
            invariant
                i <= ks.len(),
                ks@.no_duplicates(),
                ks@.to_set() == before.dom(),
                self.next_id == old(self).next_id,
                self.pending@ == before.remove_keys(ks@.take(i as int).to_set()),
                out@ == ks@.take(i as int).map_values(|k: u64| before[k]),
            decreases ks.len() - i,
        {
            let k = ks[i];
            assert(ks@.to_set().contains(k));
            assert(!ks@.take(i as int).contains(k)) by {
                if ks@.take(i as int).contains(k) {
                    let j = choose|j: int| 0 <= j < i && ks@.take(i as int)[j] == k;
                    assert(ks@[j] == ks@[i as int]);
                }
            }
            assert(self.pending@.contains_key(k));
            let r = self.pending.remove(&k);
            match r {
                Some(s) => {
                    out.push(s);
                },
                None => {
                    assert(false);
                },
            }
            assert(ks@.take(i + 1) =~= ks@.take(i as int).push(k));
            proof {
                ks@.take(i as int).lemma_push_to_set_commute(k);
            }
            assert(ks@.take(i + 1).to_set() =~= ks@.take(i as int).to_set().insert(k));
            assert(self.pending@ =~= before.remove_keys(ks@.take(i + 1).to_set()));
            assert(out@ =~= ks@.take(i + 1).map_values(|k: u64| before[k]));
            i = i + 1;
        }
        assert(ks@.take(ks.len() as int) =~= ks@);
        assert(self.pending@ =~= Map::<u64, S>::empty());
        out
    }
}

/// A response reaches the call that was started under its id: starting a
/// call and then completing its id hands back that call's delivery means and
/// leaves the other pending calls as they were.
pub proof fn law_response_reaches_its_call<S>(pending: Map<u64, S>, id: u64, sender: S)
    ensures
        pending.insert(id, sender).contains_key(id),
        pending.insert(id, sender)[id] == sender,
        pending.insert(id, sender).remove(id) == pending.remove(id),
{
    assert(pending.insert(id, sender).remove(id) =~= pending.remove(id));
}

/// The id that follows `id` (the counter wraps around).
pub open spec fn following_id(id: u64) -> u64 {
    if id == u64::MAX {
        0
    } else {
        (id + 1) as u64
    }
}

/// Two calls started one after the other get different ids, and both stay
/// pending with their own delivery means.
pub proof fn law_successive_calls_stay_apart<S>(pending: Map<u64, S>, id: u64, first: S, second: S)
    ensures
        following_id(id) != id,
        pending.insert(id, first).insert(following_id(id), second)[id] == first,
        pending.insert(id, first).insert(following_id(id), second)[following_id(id)] == second,
{
}

/// The id that the `i`-th call from now gets, when the next id is `start`:
/// ids count up and wrap around after `u64::MAX`.
pub open spec fn nth_id(start: u64, i: nat) -> u64 {
    ((start as int + i) % 0x1_0000_0000_0000_0000int) as u64
}

/// Every call hands out the id after the previous one's.
pub proof fn lemma_nth_id_step(start: u64, i: nat)
    ensures
        nth_id(start, 0) == start,
        following_id(nth_id(start, i)) == nth_id(start, i + 1),
{
    let m = 0x1_0000_0000_0000_0000int;
    let a = start as int + i;
    assert(0 <= a % m < m);
    if a % m == m - 1 {
        assert((a + 1) % m == 0) by (nonlinear_arith)
            requires
                a % m == m - 1,
                m > 0,
                a >= 0,
        ;
    } else {
        assert((a + 1) % m == a % m + 1) by (nonlinear_arith)
            requires
                a % m < m - 1,
                m > 0,
                a >= 0,
        ;
    }
}

/// All request ids differ: of the calls started from one state of the
/// table, any two fewer than 2^64 calls apart get different ids (a new
/// table starts at id 1, so its first 2^64 calls all differ).
pub proof fn law_request_ids_differ(start: u64, i: nat, j: nat)
    requires
        i < j,
        j - i < 0x1_0000_0000_0000_0000int,
    ensures
        nth_id(start, i) != nth_id(start, j),
{
    let m = 0x1_0000_0000_0000_0000int;
    let a = start as int + i;
    let b = start as int + j;
    assert(a % m != b % m) by (nonlinear_arith)
        requires
            0 <= a < b,
            b - a < m,
            m > 0,
    ;
}

} // verus!
