use vstd::prelude::*;
use vstd::string::{StringExecFns, StringSliceAdditionalSpecFns};
use vstd::utf8::{encode_utf8, encode_utf8_decode_utf8};
use crate::store::Store;
use crate::value::{command_of, encoding, models, CommandError, SpecValue, Value};

verus! {

/// A byte with ASCII lower case turned to upper case.
pub open spec fn upper(b: u8) -> u8 {
    if 97 <= b <= 122 {
        (b - 32) as u8
    } else {
        b
    }
}

/// `name` spells `word` (upper-case ASCII) with any mix of ASCII case.
pub open spec fn names(name: Seq<char>, word: Seq<char>) -> bool {
    let a = encode_utf8(name);
    let b = encode_utf8(word);
    &&& a.len() == b.len()
    &&& forall|i: int| 0 <= i < a.len() ==> upper(#[trigger] a[i]) == b[i]
}

/// The arguments are `n` bulk strings.
pub open spec fn bulk_args(args: Seq<SpecValue>, n: nat) -> bool {
    args.len() == n && forall|i: int| 0 <= i < n ==> (#[trigger] args[i]) is Bulk
}

/// The text of a bulk string.
pub open spec fn text(v: SpecValue) -> Seq<char> {
    v->Bulk_0
}

/// The reply to command `name` with `args` on a store holding `m`, and what
/// the store holds afterwards.
pub open spec fn respond(name: Seq<char>, args: Seq<SpecValue>, m: Map<Seq<char>, Seq<char>>) -> (
    SpecValue,
    Map<Seq<char>, Seq<char>>,
) {
    if names(name, "PING"@) {
        if args.len() == 0 {
            (SpecValue::Simple("PONG"@), m)
        } else {
            (SpecValue::Error("PING takes no arguments"@), m)
        }
    } else if names(name, "ECHO"@) {
        if bulk_args(args, 1) {
            (args[0], m)
        } else {
            (SpecValue::Error("ECHO takes one bulk string argument"@), m)
        }
    } else if names(name, "GET"@) {
        if bulk_args(args, 1) {
            if m.contains_key(text(args[0])) {
                (SpecValue::Simple(m[text(args[0])]), m)
            } else {
                (SpecValue::Null, m)
            }
        } else {
            (SpecValue::Error("GET takes one bulk string argument"@), m)
        }
    } else if names(name, "SET"@) {
        if bulk_args(args, 2) {
            (SpecValue::Simple("OK"@), m.insert(text(args[0]), text(args[1])))
        } else {
            (SpecValue::Error("SET takes two bulk string arguments"@), m)
        }
    } else if names(name, "DEL"@) {
        if bulk_args(args, 1) {
            if m.contains_key(text(args[0])) {
                (SpecValue::Simple("DELETED"@), m.remove(text(args[0])))
            } else {
                (SpecValue::Null, m)
            }
        } else {
            (SpecValue::Error("DEL takes one bulk string argument"@), m)
        }
    } else if names(name, "EXISTS"@) {
        if bulk_args(args, 1) {
            if m.contains_key(text(args[0])) {
                (SpecValue::Simple("1"@), m)
            } else {
                (SpecValue::Simple("0"@), m)
            }
        } else {
            (SpecValue::Error("EXISTS takes one bulk string argument"@), m)
        }
    } else {
        (SpecValue::Error("unknown command "@ + name), m)
    }
}

/// The reply to a decoded request, and what the store holds afterwards: a
/// value that is no command gets an error reply and leaves the store as it is.
pub open spec fn serve(request: SpecValue, m: Map<Seq<char>, Seq<char>>) -> (SpecValue, Map<Seq<char>, Seq<char>>) {
    match command_of(request) {
        Ok((name, args)) => respond(name, args, m),
        Err(CommandError::NotAnArray) => (SpecValue::Error("request is not an array"@), m),
        Err(CommandError::EmptyArray) => (SpecValue::Error("request is empty"@), m),
        Err(CommandError::NameNotBulk) => (SpecValue::Error("command name is not a bulk string"@), m),
    }
}

/// Whether `name` spells `word` (upper-case ASCII) ignoring ASCII case.
pub fn is_command(name: &str, word: &str) -> (r: bool)
    ensures
        r == names(name@, word@),
{
    let a = name.as_bytes();
    let b = word.as_bytes();
    if a.len() != b.len() {
        return false;
    }
    let mut i: usize = 0;
    while i < a.len()
        invariant
            a@ == encode_utf8(name@),
            b@ == encode_utf8(word@),
            a.len() == b.len(),
            i <= a.len(),
            forall|j: int| 0 <= j < i ==> upper(#[trigger] a@[j]) == b@[j],
        decreases a.len() - i,
    {
        let c = a[i];
        let u: u8 = if 97 <= c && c <= 122 { c - 32 } else { c };
        if u != b[i] {
            return false;
        }
        i = i + 1;
    }
    true
}

/// The arguments are `n` bulk strings.
fn has_bulk_args(args: &Vec<Value>, n: usize) -> (r: bool)
    ensures
        r == bulk_args(models(args@), n as nat),
        r ==> forall|i: int| 0 <= i < n ==> (#[trigger] args@[i]) is BulkString,
{
    if args.len() != n {
        return false;
    }
    let mut i: usize = 0;
    while i < n
        invariant
            args.len() == n,
            i <= n,
            forall|j: int| 0 <= j < i ==> (#[trigger] models(args@)[j]) is Bulk,
            forall|j: int| 0 <= j < i ==> (#[trigger] args@[j]) is BulkString,
        decreases n - i,
    {
        assert(models(args@)[i as int] == args@[i as int]@);
        if !matches!(args[i], Value::BulkString(_)) {
            return false;
        }
        i = i + 1;
    }
    true
}

fn error_reply(msg: &str) -> (r: Value)
    ensures
        r@ == SpecValue::Error(msg@),
{
    Value::Error(msg.to_owned())
}

fn status_reply(msg: &str) -> (r: Value)
    ensures
        r@ == SpecValue::Simple(msg@),
{
    Value::SimpleString(msg.to_owned())
}

/// Runs command `name` with `args` against the store and gives the reply.
pub fn execute(name: &str, args: &Vec<Value>, store: &mut Store) -> (r: Value)
    requires
        old(store).wf(),
    ensures
        final(store).wf(),
        (r@, final(store)@) == respond(name@, models(args@), old(store)@),
{
    if is_command(name, "PING") {
        if args.len() == 0 {
            status_reply("PONG")
        } else {
            error_reply("PING takes no arguments")
        }
    } else if is_command(name, "ECHO") {
        if has_bulk_args(args, 1) {
            args[0].clone()
        } else {
            error_reply("ECHO takes one bulk string argument")
        }
    } else if is_command(name, "GET") {
        if has_bulk_args(args, 1) {
            let key = args[0].unwrap_bulk();
            match store.get(key) {
                Some(v) => Value::SimpleString(v),
                None => Value::Null,
            }
        } else {
            error_reply("GET takes one bulk string argument")
        }
    } else if is_command(name, "SET") {
        if has_bulk_args(args, 2) {
            let key = args[0].unwrap_bulk();
            let value = args[1].unwrap_bulk();
            store.set(key, value);
            status_reply("OK")
        } else {
            error_reply("SET takes two bulk string arguments")
        }
    } else if is_command(name, "DEL") {
        if has_bulk_args(args, 1) {
            let key = args[0].unwrap_bulk();
            let found = store.get(key.clone());
            match found {
                Some(_) => {
                    store.del(key);
                    status_reply("DELETED")
                },
                None => Value::Null,
            }
        } else {
            error_reply("DEL takes one bulk string argument")
        }
    } else if is_command(name, "EXISTS") {
        if has_bulk_args(args, 1) {
            let key = args[0].unwrap_bulk();
            match store.get(key) {
                Some(_) => status_reply("1"),
                None => status_reply("0"),
            }
        } else {
            error_reply("EXISTS takes one bulk string argument")
        }
    } else {
        let mut msg = "unknown command ".to_owned();
        msg.append(name);
        Value::Error(msg)
    }
}

/// Serves one decoded request: reads it as a command and runs it. A request
/// that is no command gets an error reply; the connection goes on.
pub fn handle_request(request: &Value, store: &mut Store) -> (r: Value)
    requires
        old(store).wf(),
    ensures
        final(store).wf(),
        (r@, final(store)@) == serve(request@, old(store)@),
        !(r@ is Array),
{
    match request.to_command() {
        Ok((name, args)) => execute(name.as_str(), &args, store),
        Err(CommandError::NotAnArray) => error_reply("request is not an array"),
        Err(CommandError::EmptyArray) => error_reply("request is empty"),
        Err(CommandError::NameNotBulk) => error_reply("command name is not a bulk string"),
    }
}

/// Serves one decoded request and gives the wire form of the reply.
pub fn reply_to(request: &Value, store: &mut Store) -> (r: Vec<u8>)
    requires
        old(store).wf(),
    ensures
        final(store).wf(),
        final(store)@ == serve(request@, old(store)@).1,
        r@ == encoding(serve(request@, old(store)@).0),
{
    let reply = handle_request(request, store);
    reply.encode()
}

/// A command name spells at most one word.
proof fn lemma_one_word(name: Seq<char>, w1: Seq<char>, w2: Seq<char>)
    requires
        names(name, w1),
        names(name, w2),
    ensures
        w1 == w2,
{
    let a = encode_utf8(name);
    assert forall|i: int| 0 <= i < a.len() implies encode_utf8(w1)[i] == encode_utf8(w2)[i] by {
        assert(upper(a[i]) == encode_utf8(w1)[i]);
        assert(upper(a[i]) == encode_utf8(w2)[i]);
    }
    assert(encode_utf8(w1) =~= encode_utf8(w2));
    encode_utf8_decode_utf8(w1);
    encode_utf8_decode_utf8(w2);
}

/// Deleting a key twice: the first delete reports whether the key was there
/// and removes it, the second finds nothing, and the store ends without the key.
pub proof fn lemma_delete_twice(name: Seq<char>, key: Seq<char>, m: Map<Seq<char>, Seq<char>>)
    requires
        names(name, "DEL"@),
    ensures
        ({
            let args = seq![SpecValue::Bulk(key)];
            let first = respond(name, args, m);
            let second = respond(name, args, first.1);
            &&& first.0 == (if m.contains_key(key) { SpecValue::Simple("DELETED"@) } else { SpecValue::Null })
            &&& second.0 == SpecValue::Null
            &&& second.1 == m.remove(key)
        }),
{
    reveal_strlit("DEL");
    reveal_strlit("PING");
    reveal_strlit("ECHO");
    reveal_strlit("GET");
    reveal_strlit("SET");
    if names(name, "PING"@) {
        lemma_one_word(name, "DEL"@, "PING"@);
    }
    if names(name, "ECHO"@) {
        lemma_one_word(name, "DEL"@, "ECHO"@);
    }
    if names(name, "GET"@) {
        lemma_one_word(name, "DEL"@, "GET"@);
        assert("DEL"@[0] != "GET"@[0]);
    }
    if names(name, "SET"@) {
        lemma_one_word(name, "DEL"@, "SET"@);
        assert("DEL"@[0] != "SET"@[0]);
    }
    let args = seq![SpecValue::Bulk(key)];
    assert(bulk_args(args, 1));
    if !m.contains_key(key) {
        assert(m.remove(key) =~= m);
    }
}

} // verus!
