//! What the server does with a request: apply it to the storage, and the
//! text it answers with.
use crate::kvmap::KvMap;
use crate::bits::bits_of;
use crate::protocol::{
    carries_value, decodable, decoded_key, decoded_op, decoded_value, lossy_utf8,
    try_decode_msg, Action, BitCursor, OP,
};
use crate::store::text_values;
use vstd::prelude::*;
use vstd::utf8::{decode_utf8, valid_utf8};

verus! {

/// The outcome of applying a request to the storage.
pub enum StorageResult {
    Success,
    UpdateKeyDoesNotExist,
    InsertedKeyAlreadyExists,
    ToBeRemovedKeyDoesNotExist,
    Value(Option<String>),
}

/// The storage after a request for `op` on `key` with `value`.
pub open spec fn apply_request(
    m: Map<Seq<char>, Seq<char>>,
    op: OP,
    key: Seq<char>,
    value: Seq<char>,
) -> Map<Seq<char>, Seq<char>> {
    match op {
        OP::Get => m,
        OP::Add => if m.contains_key(key) {
            m
        } else {
            m.insert(key, value)
        },
        OP::Update => if m.contains_key(key) {
            m.insert(key, value)
        } else {
            m
        },
        OP::Remove => m.remove(key),
    }
}

/// Whether `r` is the outcome of a request for `op` on `key` against `m`.
pub open spec fn outcome_of(r: StorageResult, m: Map<Seq<char>, Seq<char>>, op: OP, key: Seq<char>) -> bool {
    match op {
        OP::Get => match r {
            StorageResult::Value(Some(v)) => m.contains_key(key) && v@ == m[key],
            StorageResult::Value(None) => !m.contains_key(key),
            _ => false,
        },
        OP::Add => if m.contains_key(key) {
            r is InsertedKeyAlreadyExists
        } else {
            r is Success
        },
        OP::Update => if m.contains_key(key) {
            r is Success
        } else {
            r is UpdateKeyDoesNotExist
        },
        OP::Remove => if m.contains_key(key) {
            r is Success
        } else {
            r is ToBeRemovedKeyDoesNotExist
        },
    }
}

/// Applies a request to the storage: `Get` reads, `Add` inserts a key that
/// is not there, `Update` replaces the value of a key that is there, and
/// `Remove` deletes a key; each reports what happened.
pub fn handle_storage(action: &Action, storage: &mut KvMap<String>) -> (r: StorageResult)
    ensures
        text_values(final(storage)@) == apply_request(
            text_values(old(storage)@),
            action.op,
            action.key@,
            action.value@,
        ),
        outcome_of(r, text_values(old(storage)@), action.op, action.key@),
        action.op == OP::Add ==> (r is Success <==> !old(storage)@.contains_key(action.key@)),
        action.op == OP::Update ==> (r is Success <==> old(storage)@.contains_key(action.key@)),
        action.op == OP::Remove ==> (r is Success <==> old(storage)@.contains_key(action.key@)),
        action.op != OP::Get ==> !(r is Value),
        r is Success ==> {
            &&& action.op != OP::Get
            &&& action.op == OP::Remove ==> !final(storage)@.contains_key(action.key@)
            &&& action.op != OP::Remove ==> final(storage)@.contains_key(action.key@)
                && final(storage)@[action.key@]@ == action.value@
        },
        !(r is Success) ==> final(storage)@ == old(storage)@,
{
    let key = &action.key;
    let value = &action.value;
    let ghost m = text_values(storage@);
    match action.op {
        OP::Get => {
            let found = match storage.get(key.as_str()) {
                Some(v) => Some(v.clone()),
                None => None,
            };
            StorageResult::Value(found)
        },
        OP::Add => {
            if storage.get(key.as_str()).is_some() {
                return StorageResult::InsertedKeyAlreadyExists;
            }
            storage.insert(key.clone(), value.clone());
            proof {
                assert(text_values(storage@) =~= m.insert(key@, value@));
            }
            StorageResult::Success
        },
        OP::Update => {
            if storage.contains_key(key.as_str()) {
                storage.insert(key.clone(), value.clone());
                proof {
                    assert(text_values(storage@) =~= m.insert(key@, value@));
                }
                StorageResult::Success
            } else {
                StorageResult::UpdateKeyDoesNotExist
            }
        },
        OP::Remove => {
            match storage.remove(key.as_str()) {
                Some(_) => {
                    proof {
                        assert(text_values(storage@) =~= m.remove(key@));
                    }
                    StorageResult::Success
                },
                None => {
                    proof {
                        assert(text_values(storage@) =~= m.remove(key@));
                    }
                    StorageResult::ToBeRemovedKeyDoesNotExist
                },
            }
        },
    }
}

/// The name of an operation, as the server prints it.
pub open spec fn op_name(op: OP) -> Seq<char> {
    match op {
        OP::Get => "Get"@,
        OP::Add => "Add"@,
        OP::Update => "Update"@,
        OP::Remove => "Remove"@,
    }
}

/// The text the server answers a request for `op` on `key` with, given its
/// outcome.
pub open spec fn reply_text(op: OP, key: Seq<char>, r: StorageResult) -> Seq<char> {
    match r {
        StorageResult::Success => op_name(op) + " went successfully\n"@,
        StorageResult::UpdateKeyDoesNotExist => "Update failed: key '"@ + key
            + "' does not exist\n"@,
        StorageResult::InsertedKeyAlreadyExists => "Add failed: key '"@ + key
            + "' already exists\n"@,
        StorageResult::ToBeRemovedKeyDoesNotExist => "Remove failed: key '"@ + key
            + "' does not exist\n"@,
        StorageResult::Value(Some(v)) => "{"@ + key + ": "@ + v@ + "}\n"@,
        StorageResult::Value(None) => "Value for '"@ + key + "' does not exist\n"@,
    }
}

/// Calls `std::format!` to join three strings. Trusted: the result is `a`,
/// then `b`, then `c`.
#[verifier::external_body]
fn concat3(a: &str, b: &str, c: &str) -> (r: String)
    ensures
        r@ == a@ + b@ + c@,
{
    format!("{}{}{}", a, b, c)
}

/// The text the server answers a request with.
pub fn reply_message(action: &Action, res: &StorageResult) -> (r: String)
    ensures
        r@ == reply_text(action.op, action.key@, *res),
{
    let key = action.key.as_str();
    match res {
        StorageResult::Success => {
            let name = match action.op {
                OP::Get => "Get",
                OP::Add => "Add",
                OP::Update => "Update",
                OP::Remove => "Remove",
            };
            proof {
                reveal_strlit("");
                assert(name@ + " went successfully\n"@ + ""@ =~= name@ + " went successfully\n"@);
            }
            concat3(name, " went successfully\n", "")
        },
        StorageResult::UpdateKeyDoesNotExist => concat3(
            "Update failed: key '",
            key,
            "' does not exist\n",
        ),
        StorageResult::InsertedKeyAlreadyExists => concat3(
            "Add failed: key '",
            key,
            "' already exists\n",
        ),
        StorageResult::ToBeRemovedKeyDoesNotExist => concat3(
            "Remove failed: key '",
            key,
            "' does not exist\n",
        ),
        StorageResult::Value(Some(value)) => {
            let head = concat3("{", key, ": ");
            concat3(head.as_str(), value.as_str(), "}\n")
        },
        StorageResult::Value(None) => concat3("Value for '", key, "' does not exist\n"),
    }
}

/// The text the server answers a request for `op` on `key` with `value`
/// when the storage holds `m`.
pub open spec fn reply_for(m: Map<Seq<char>, Seq<char>>, op: OP, key: Seq<char>) -> Seq<char> {
    match op {
        OP::Get => if m.contains_key(key) {
            "{"@ + key + ": "@ + m[key] + "}\n"@
        } else {
            "Value for '"@ + key + "' does not exist\n"@
        },
        OP::Add => if m.contains_key(key) {
            "Add failed: key '"@ + key + "' already exists\n"@
        } else {
            op_name(op) + " went successfully\n"@
        },
        OP::Update => if m.contains_key(key) {
            op_name(op) + " went successfully\n"@
        } else {
            "Update failed: key '"@ + key + "' does not exist\n"@
        },
        OP::Remove => if m.contains_key(key) {
            op_name(op) + " went successfully\n"@
        } else {
            "Remove failed: key '"@ + key + "' does not exist\n"@
        },
    }
}

/// What the server does on one read from a client.
pub enum ServerStep {
    /// The client closed the connection.
    Close,
    /// The request was served; this text goes back.
    Reply(String),
    /// No whole request could be decoded.
    Malformed,
}

/// One turn of the server's loop for a client: `n` bytes were read into
/// `buf`. Nothing read means the client closed the connection. Otherwise the
/// request is decoded from the start of `buf`, applied to the storage, and
/// answered.
pub fn server_step(buf: &[u8], n: usize, storage: &mut KvMap<String>) -> (r: ServerStep)
    requires
        8 * buf@.len() <= usize::MAX,
    ensures
        n == 0 ==> r is Close && final(storage)@ == old(storage)@,
        n > 0 && !decodable(bits_of(buf@), 0) ==> r is Malformed && final(storage)@ == old(
            storage,
        )@,
        n > 0 && decodable(bits_of(buf@), 0) ==> {
            let bits = bits_of(buf@);
            let op = decoded_op(bits, 0);
            let key = lossy_utf8(decoded_key(bits, 0));
            let value = if carries_value(op) {
                lossy_utf8(decoded_value(bits, 0))
            } else {
                Seq::<char>::empty()
            };
            &&& valid_utf8(decoded_key(bits, 0)) ==> key == decode_utf8(decoded_key(bits, 0))
            &&& valid_utf8(decoded_value(bits, 0)) ==> value == decode_utf8(
                decoded_value(bits, 0),
            )
            &&& r matches ServerStep::Reply(text) && text@ == reply_for(
                text_values(old(storage)@),
                op,
                key,
            )
            &&& text_values(final(storage)@) == apply_request(
                text_values(old(storage)@),
                op,
                key,
                value,
            )
        },
{
    if n == 0 {
        return ServerStep::Close;
    }
    let mut cur = BitCursor::new(buf);
    let action = match try_decode_msg(&mut cur) {
        Some(a) => a,
        None => return ServerStep::Malformed,
    };
    let res = handle_storage(&action, storage);
    let text = reply_message(&action, &res);
    ServerStep::Reply(text)
}

/// A read gives back what an accepted `Add` wrote: after adding `value`
/// under a new `key`, a `Get` of `key` answers `{key: value}`.
pub proof fn lemma_get_after_add(m: Map<Seq<char>, Seq<char>>, key: Seq<char>, value: Seq<char>)
    requires
        !m.contains_key(key),
    ensures
        reply_for(apply_request(m, OP::Add, key, value), OP::Get, key) == "{"@ + key + ": "@
            + value + "}\n"@,
{
}

/// A read gives back what an accepted `Update` wrote.
pub proof fn lemma_get_after_update(m: Map<Seq<char>, Seq<char>>, key: Seq<char>, value: Seq<char>)
    requires
        m.contains_key(key),
    ensures
        reply_for(apply_request(m, OP::Update, key, value), OP::Get, key) == "{"@ + key
            + ": "@ + value + "}\n"@,
{
}

/// After a `Remove`, a `Get` of the key finds nothing.
pub proof fn lemma_get_after_remove(m: Map<Seq<char>, Seq<char>>, key: Seq<char>, value: Seq<char>)
    ensures
        reply_for(apply_request(m, OP::Remove, key, value), OP::Get, key) == "Value for '"@ + key
            + "' does not exist\n"@,
{
}

/// A refused request leaves the storage as it was: `Get` always, `Add` of a
/// stored key, and `Update` or `Remove` of a missing key.
pub proof fn lemma_refused_requests_change_nothing(
    m: Map<Seq<char>, Seq<char>>,
    op: OP,
    key: Seq<char>,
    value: Seq<char>,
)
    requires
        op == OP::Get || (op == OP::Add && m.contains_key(key)) || ((op == OP::Update || op
            == OP::Remove) && !m.contains_key(key)),
    ensures
        apply_request(m, op, key, value) == m,
{
    if op == OP::Remove {
        assert(m.remove(key) =~= m);
    }
}

/// A second `Add` of the same key is refused, and the first value stays.
pub proof fn lemma_add_twice(m: Map<Seq<char>, Seq<char>>, key: Seq<char>, v1: Seq<char>, v2: Seq<char>)
    requires
        !m.contains_key(key),
    ensures
        apply_request(apply_request(m, OP::Add, key, v1), OP::Add, key, v2) == m.insert(key, v1),
        reply_for(apply_request(m, OP::Add, key, v1), OP::Add, key) == "Add failed: key '"@ + key
            + "' already exists\n"@,
{
}

/// Requests on different keys do not affect each other.
pub proof fn lemma_other_keys_unchanged(
    m: Map<Seq<char>, Seq<char>>,
    op: OP,
    key: Seq<char>,
    value: Seq<char>,
    other: Seq<char>,
)
    requires
        other != key,
    ensures
        apply_request(m, op, key, value).contains_key(other) == m.contains_key(other),
        m.contains_key(other) ==> apply_request(m, op, key, value)[other] == m[other],
{
}

/// Success is reported exactly when the request could do what it asks:
/// `Add` of a key that is not stored, and `Update` or `Remove` of one that is.
/// `Get` never reports `Success`; it reports the value stored, if any.
pub proof fn lemma_success_exactly_when_applicable(
    r: StorageResult,
    m: Map<Seq<char>, Seq<char>>,
    op: OP,
    key: Seq<char>,
)
    requires
        outcome_of(r, m, op, key),
    ensures
        op == OP::Get ==> !(r is Success) && (r matches StorageResult::Value(v) && (v is Some
            <==> m.contains_key(key))),
        op == OP::Add ==> (r is Success <==> !m.contains_key(key)),
        op == OP::Update ==> (r is Success <==> m.contains_key(key)),
        op == OP::Remove ==> (r is Success <==> m.contains_key(key)),
{
}

/// The server says a request went through exactly when it could: for each
/// operation, a stored key and a missing key get the answers below, and a
/// request that fails names the key and says why.
pub proof fn lemma_reply_says_what_happened(m: Map<Seq<char>, Seq<char>>, key: Seq<char>)
    ensures
        m.contains_key(key) ==> reply_for(m, OP::Update, key) == "Update"@
            + " went successfully\n"@,
        !m.contains_key(key) ==> reply_for(m, OP::Update, key) == "Update failed: key '"@ + key
            + "' does not exist\n"@,
        m.contains_key(key) ==> reply_for(m, OP::Remove, key) == "Remove"@
            + " went successfully\n"@,
        !m.contains_key(key) ==> reply_for(m, OP::Remove, key) == "Remove failed: key '"@ + key
            + "' does not exist\n"@,
        !m.contains_key(key) ==> reply_for(m, OP::Add, key) == "Add"@ + " went successfully\n"@,
        m.contains_key(key) ==> reply_for(m, OP::Add, key) == "Add failed: key '"@ + key
            + "' already exists\n"@,
        m.contains_key(key) ==> reply_for(m, OP::Get, key) == "{"@ + key + ": "@ + m[key]
            + "}\n"@,
        !m.contains_key(key) ==> reply_for(m, OP::Get, key) == "Value for '"@ + key
            + "' does not exist\n"@,
{
}

} // verus!
