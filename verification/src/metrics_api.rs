//! What the HTTP API takes and answers. Being asked as a follower is a normal
//! state of affairs: the answer then says so and names the leader.
use vstd::prelude::*;
use vstd::string::StrSliceExecFns;

use crate::cluster::{Answer, ClientCommandResult, Outcome, QueryResult};
use crate::kv_store::{self, Command, Op};
use crate::state::NodeId;

verus! {

/// The answer to a read.
#[derive(Debug)]
pub struct GetResponse {
    pub is_leader: bool,
    pub value: Option<String>,
    pub leader_hint: Option<NodeId>,
}

/// The answer to a write or a delete.
#[derive(Debug, Clone, Copy, PartialEq, Eq)]
pub struct WriteResponse {
    pub is_leader: bool,
    pub applied: bool,
    pub leader_hint: Option<NodeId>,
}

/// The body of a write.
#[derive(Debug)]
pub struct PutBody {
    pub value: String,
}

/// What `String::from_utf8_lossy` makes of some bytes.
pub uninterp spec fn lossy_text(bytes: Seq<u8>) -> Seq<char>;

/// `String::from_utf8_lossy`: valid UTF-8 comes back as the text it encodes.
/// What becomes of other bytes depends on them alone and is left open.
#[verifier::external_body]
fn lossy(bytes: &[u8]) -> (r: String)
    ensures
        r@ == lossy_text(bytes@),
        vstd::utf8::valid_utf8(bytes@) ==> r@ == vstd::utf8::decode_utf8(bytes@),
{
    String::from_utf8_lossy(bytes).to_string()
}

/// The text of an optional value.
pub open spec fn text(value: Option<String>) -> Option<Seq<char>> {
    match value {
        Some(text) => Some(text@),
        None => None,
    }
}

/// The answer that the result of a read becomes: whether it comes from the
/// leader, what is shown, and whom it points at.
pub open spec fn read_reply(result: Answer) -> (bool, Option<Seq<char>>, Option<NodeId>) {
    match result {
        Answer::Value(Some(bytes)) => (true, Some(lossy_text(bytes)), None),
        Answer::Value(None) => (true, None, None),
        Answer::NotLeader { leader_hint } => (false, None, leader_hint),
    }
}

/// The command that a write becomes.
pub open spec fn put_op(key: Seq<char>, value: Seq<char>) -> Op {
    Op::Put { key, value: vstd::utf8::encode_utf8(value) }
}

/// The command that a delete becomes.
pub open spec fn delete_op(key: Seq<char>) -> Op {
    Op::Delete { key }
}

/// Turns the result of a read into an answer. Values are bytes; the API shows
/// them as text.
pub fn get_response(result: QueryResult) -> (r: GetResponse)
    ensures
        (r.is_leader, text(r.value), r.leader_hint) == read_reply(result@),
        match result@ {
            Answer::Value(value) => {
                &&& r.is_leader
                &&& r.leader_hint is None
                &&& text(r.value) == (match value {
                    Some(bytes) => Some(lossy_text(bytes)),
                    None => None,
                })
                &&& value matches Some(bytes) ==> vstd::utf8::valid_utf8(bytes) ==> text(r.value)
                    == Some(vstd::utf8::decode_utf8(bytes))
            },
            Answer::NotLeader { leader_hint } => {
                &&& !r.is_leader
                &&& r.leader_hint == leader_hint
                &&& r.value is None
            },
        },
{
    match result {
        QueryResult::Value(value) => {
            let value = match value {
                Some(bytes) => Some(lossy(bytes.as_slice())),
                None => None,
            };
            GetResponse { is_leader: true, value, leader_hint: None }
        },
        QueryResult::NotLeader { leader_hint } => {
            GetResponse { is_leader: false, value: None, leader_hint }
        },
    }
}

/// The answer that a result becomes.
pub open spec fn write_reply(result: Outcome) -> WriteResponse {
    match result {
        Outcome::Applied(_) => WriteResponse { is_leader: true, applied: true, leader_hint: None },
        Outcome::NotLeader { leader_hint } => WriteResponse {
            is_leader: false,
            applied: false,
            leader_hint,
        },
    }
}

/// Turns the result of a command into an answer.
pub fn write_response(result: &ClientCommandResult) -> (r: WriteResponse)
    ensures
        r == write_reply(result@),
        r == (match result@ {
            Outcome::Applied(_) => WriteResponse {
                is_leader: true,
                applied: true,
                leader_hint: None,
            },
            Outcome::NotLeader { leader_hint } => WriteResponse {
                is_leader: false,
                applied: false,
                leader_hint,
            },
        }),
{
    match result {
        ClientCommandResult::Applied(_) => WriteResponse {
            is_leader: true,
            applied: true,
            leader_hint: None,
        },
        ClientCommandResult::NotLeader { leader_hint } => WriteResponse {
            is_leader: false,
            applied: false,
            leader_hint: *leader_hint,
        },
    }
}

/// The command for a write: the value is stored as its UTF-8 bytes.
pub fn put_command(key: String, body: PutBody) -> (r: Command)
    ensures
        r@ == put_op(key@, body.value@),
        r@ == (Op::Put { key: key@, value: vstd::utf8::encode_utf8(body.value@) }),
{
    let value = body.value.as_str().as_bytes_vec();
    Command::Put { key, value }
}

/// The command for a delete.
pub fn delete_command(key: String) -> (r: Command)
    ensures
        r@ == delete_op(key@),
        r@ == (Op::Delete { key: key@ }),
{
    Command::Delete { key }
}

/// The text of a write is the text of a read: the bytes it is stored as are
/// valid and stand for it.
pub proof fn stored_text_is_shown(value: Seq<char>)
    ensures
        vstd::utf8::valid_utf8(vstd::utf8::encode_utf8(value)),
        vstd::utf8::decode_utf8(vstd::utf8::encode_utf8(value)) == value,
{
    vstd::utf8::encode_utf8_valid_utf8(value);
    vstd::utf8::encode_utf8_decode_utf8(value);
}

/// A value that is shown is shown in full.
pub proof fn shown_values_are_whole(value: String)
    ensures
        text(Some(value)) == Some(value@),
        text(None) is None,
{
}

/// A client is told that its write was applied exactly if it was, and is sent on
/// to the leader that the node knows if it was not.
pub proof fn write_replies_are_honest(result: Outcome)
    ensures
        write_reply(result).applied == (result is Applied),
        write_reply(result).is_leader == (result is Applied),
        result matches Outcome::NotLeader { leader_hint } ==> write_reply(result).leader_hint
            == leader_hint,
{
}

/// A read is answered with the value that was found, or with none if there is
/// none, by the leader; any other node says that it does not lead and points at
/// the leader that it knows.
pub proof fn read_replies_are_honest(bytes: Seq<u8>, hint: Option<NodeId>)
    ensures
        read_reply(Answer::Value(Some(bytes))).0,
        read_reply(Answer::Value(Some(bytes))).1 == Some(lossy_text(bytes)),
        read_reply(Answer::Value(Some(bytes))).2 is None,
        read_reply(Answer::Value(None)) == (true, None::<Seq<char>>, None::<NodeId>),
        read_reply(Answer::NotLeader { leader_hint: hint }) == (false, None::<Seq<char>>, hint),
{
}

/// What a client writes under a key is what the store has there afterwards, as
/// the bytes of the text; after a delete the store has nothing there. Other keys
/// are not touched.
pub proof fn requests_reach_their_key(
    store: Map<Seq<char>, Seq<u8>>,
    key: Seq<char>,
    value: Seq<char>,
    other: Seq<char>,
)
    ensures
        ({
            let put = kv_store::applied(store, put_op(key, value));
            let deleted = kv_store::applied(store, delete_op(key));
            &&& kv_store::lookup(put, key) matches Some(bytes) && {
                &&& vstd::utf8::valid_utf8(bytes)
                &&& vstd::utf8::decode_utf8(bytes) == value
            }
            &&& kv_store::lookup(deleted, key) is None
            &&& other != key ==> {
                &&& kv_store::lookup(put, other) == kv_store::lookup(store, other)
                &&& kv_store::lookup(deleted, other) == kv_store::lookup(store, other)
            }
        }),
{
    stored_text_is_shown(value);
}

} // verus!
