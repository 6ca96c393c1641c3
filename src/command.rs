use vstd::prelude::*;
use vstd::utf8::encode_utf8;

use crate::data::{lemma_view_all_push, view_all, Data, DataView};
use crate::error::Error;
use crate::model::pubsub::{pubsub_of, Response, ResponseView};
use crate::ser::{decimal, write_nat};

verus! {

/// The command frame for a list of arguments: an array of bulk strings.
pub open spec fn command_of(args: Seq<Seq<u8>>) -> DataView {
    DataView::Arr(Seq::new(args.len(), |i: int| DataView::Bulk(args[i])))
}

/// The bytes of an ASCII word.
pub open spec fn word(t: Seq<char>) -> Seq<u8> {
    encode_utf8(t)
}

/// The arguments of the handshake: `HELLO 2`, followed by `AUTH` with the user name (or
/// `default`) and the password where a password is given.
pub open spec fn hello_args(user: Option<Seq<u8>>, pass: Option<Seq<u8>>) -> Seq<Seq<u8>> {
    match pass {
        Some(p) => seq![
            word(seq!['h', 'e', 'l', 'l', 'o']),
            word(seq!['2']),
            word(seq!['a', 'u', 't', 'h']),
            match user {
                Some(u) => u,
                None => word(seq!['d', 'e', 'f', 'a', 'u', 'l', 't']),
            },
            p,
        ],
        None => seq![word(seq!['h', 'e', 'l', 'l', 'o']), word(seq!['2'])],
    }
}

/// The arguments of the `AUTH` that follows a refused handshake.
pub open spec fn auth_args(user: Option<Seq<u8>>, pass: Seq<u8>) -> Seq<Seq<u8>> {
    match user {
        Some(u) => seq![word(seq!['a', 'u', 't', 'h']), u, pass],
        None => seq![word(seq!['a', 'u', 't', 'h']), pass],
    }
}

/// The error text of a server that does not know `HELLO`.
pub open spec fn unknown_hello() -> Seq<char> {
    seq![
        'E', 'R', 'R', ' ', 'u', 'n', 'k', 'n', 'o', 'w', 'n', ' ', 'c', 'o', 'm', 'm', 'a', 'n',
        'd', ' ', '\'', 'H', 'E', 'L', 'L', 'O', '\'',
    ]
}

/// What to do once the reply to the handshake has come.
#[derive(Debug)]
pub enum HelloStep {
    /// The connection is ready.
    Finished,
    /// Send this `AUTH` command, then the connection is ready.
    Authenticate(Data),
    /// The handshake failed with the error it received.
    Failed,
}

fn push_args(out: &mut Vec<Data>, args: &[&[u8]])
    ensures
        view_all(final(out)@) == view_all(old(out)@) + Seq::new(
            args@.len(),
            |i: int| DataView::Bulk(args@[i]@),
        ),
{
    let mut i: usize = 0;
    while i < args.len()
        invariant
            i <= args@.len(),
            view_all(out@) == view_all(old(out)@) + Seq::new(
                i as nat,
                |j: int| DataView::Bulk(args@[j]@),
            ),
        decreases args@.len() - i,
    {
        let d = Data::bulk_string(args[i]);
        proof {
            lemma_view_all_push(out@, d);
        }
        out.push(d);
        i = i + 1;
        assert(view_all(out@) =~= view_all(old(out)@) + Seq::new(
            i as nat,
            |j: int| DataView::Bulk(args@[j]@),
        ));
    }
}

fn frame_of(args: &[&[u8]]) -> (r: Data)
    ensures
        r@ == command_of(Seq::new(args@.len(), |i: int| args@[i]@)),
{
    let mut out: Vec<Data> = Vec::new();
    push_args(&mut out, args);
    assert(view_all(Seq::<Data>::empty()) =~= Seq::<DataView>::empty());
    assert(view_all(out@) =~= command_of(Seq::new(args@.len(), |i: int| args@[i]@))->Arr_0);
    Data::Array(out)
}

/// The handshake command of a connection.
pub fn hello_command(username: Option<&[u8]>, password: Option<&[u8]>) -> (r: Data)
    ensures
        r@ == command_of(
            hello_args(
                match username {
                    Some(u) => Some(u@),
                    None => None,
                },
                match password {
                    Some(p) => Some(p@),
                    None => None,
                },
            ),
        ),
{
    proof {
        reveal_strlit("hello");
        reveal_strlit("2");
        reveal_strlit("auth");
        reveal_strlit("default");
        assert("hello"@ =~= seq!['h', 'e', 'l', 'l', 'o']);
        assert("2"@ =~= seq!['2']);
        assert("auth"@ =~= seq!['a', 'u', 't', 'h']);
        assert("default"@ =~= seq!['d', 'e', 'f', 'a', 'u', 'l', 't']);
    }
    let hello = "hello".as_bytes();
    let two = "2".as_bytes();
    match password {
        Some(p) => {
            let user = match username {
                Some(u) => u,
                None => "default".as_bytes(),
            };
            let args = [hello, two, "auth".as_bytes(), user, p];
            let r = frame_of(&args);
            assert(Seq::new(args@.len(), |i: int| args@[i]@) =~= hello_args(
                match username {
                    Some(u) => Some(u@),
                    None => None,
                },
                Some(p@),
            ));
            r
        },
        None => {
            let args = [hello, two];
            let r = frame_of(&args);
            assert(Seq::new(args@.len(), |i: int| args@[i]@) =~= hello_args(
                match username {
                    Some(u) => Some(u@),
                    None => None,
                },
                None,
            ));
            r
        },
    }
}

/// What the handshake does with its reply: a success finishes it. A server that does not
/// know `HELLO` gets an `AUTH` where a password is given, and is otherwise accepted as it
/// is. Any other error fails the handshake.
pub fn hello_fallback(reply: &Result<Data, Error>, username: Option<&[u8]>, password: Option<&[u8]>) -> (r: HelloStep)
    ensures
        match reply {
            Ok(_) => r is Finished,
            Err(Error::Redis(m)) => if m@ == unknown_hello() {
                match password {
                    Some(p) => r matches HelloStep::Authenticate(d) && d@ == command_of(
                        auth_args(
                            match username {
                                Some(u) => Some(u@),
                                None => None,
                            },
                            p@,
                        ),
                    ),
                    None => r is Finished,
                }
            } else {
                r is Failed
            },
            Err(_) => r is Failed,
        },
{
    match reply {
        Ok(_) => HelloStep::Finished,
        Err(Error::Redis(m)) => {
            let expected = "ERR unknown command 'HELLO'".to_owned();
            proof {
                reveal_strlit("ERR unknown command 'HELLO'");
                assert(expected@ =~= unknown_hello());
            }
            if *m == expected {
                match password {
                    Some(p) => {
                        proof {
                            reveal_strlit("auth");
                            assert("auth"@ =~= seq!['a', 'u', 't', 'h']);
                        }
                        let auth = "auth".as_bytes();
                        match username {
                            Some(u) => {
                                let args = [auth, u, p];
                                let d = frame_of(&args);
                                assert(Seq::new(args@.len(), |i: int| args@[i]@) =~= auth_args(Some(u@), p@));
                                HelloStep::Authenticate(d)
                            },
                            None => {
                                let args = [auth, p];
                                let d = frame_of(&args);
                                assert(Seq::new(args@.len(), |i: int| args@[i]@) =~= auth_args(None, p@));
                                HelloStep::Authenticate(d)
                            },
                        }
                    },
                    None => HelloStep::Finished,
                }
            } else {
                HelloStep::Failed
            }
        },
        Err(_) => HelloStep::Failed,
    }
}

/// Whether to keep reading after leaving pubsub mode: true while the reply is an
/// unsubscription that leaves subscriptions open; an error where the reply is no pubsub
/// message.
pub fn still_unsubscribing(reply: Data) -> (r: Result<bool, Error>)
    ensures
        match pubsub_of(reply@) {
            Some(ResponseView::Unsubscribe(_, count)) => r == Ok::<bool, Error>(count > 0),
            Some(_) => r == Ok::<bool, Error>(false),
            None => r is Err,
        },
{
    match Response::try_from_data(reply) {
        Some(Response::Unsubscribe(s)) => Ok(s.is_in_pubsub_mode()),
        Some(_) => Ok(false),
        None => Err(Error::Message("expected a pubsub message".to_owned())),
    }
}

/// The command that runs a loaded script: `EVALSHA`, the hash, the number of keys, the keys,
/// then the arguments.
pub fn evalsha_command(hash: &[u8], keys: &[&[u8]], args: &[&[u8]]) -> (r: Data)
    ensures
        r@ == command_of(
            seq![word(seq!['e', 'v', 'a', 'l', 's', 'h', 'a']), hash@, decimal(keys@.len() as int)]
                + Seq::new(keys@.len(), |i: int| keys@[i]@) + Seq::new(args@.len(), |i: int| args@[i]@),
        ),
{
    proof {
        reveal_strlit("evalsha");
        assert("evalsha"@ =~= seq!['e', 'v', 'a', 'l', 's', 'h', 'a']);
    }
    let mut count: Vec<u8> = Vec::new();
    write_nat(&mut count, keys.len() as u64);
    assert(count@ =~= decimal(keys@.len() as int));
    let head = [Data::bulk_string("evalsha".as_bytes()), Data::bulk_string(hash), Data::BulkString(count)];
    let mut out: Vec<Data> = Vec::new();
    let mut i: usize = 0;
    while i < 3
        invariant
            i <= 3,
            view_all(out@) == Seq::new(i as nat, |j: int| head@[j]@),
        decreases 3 - i,
    {
        let d = head[i].clone();
        proof {
            lemma_view_all_push(out@, d);
        }
        out.push(d);
        i = i + 1;
        assert(view_all(out@) =~= Seq::new(i as nat, |j: int| head@[j]@));
    }
    push_args(&mut out, keys);
    push_args(&mut out, args);
    let ghost all = seq![word(seq!['e', 'v', 'a', 'l', 's', 'h', 'a']), hash@, decimal(keys@.len() as int)]
        + Seq::new(keys@.len(), |i: int| keys@[i]@) + Seq::new(args@.len(), |i: int| args@[i]@);
    assert(view_all(out@) =~= command_of(all)->Arr_0);
    Data::Array(out)
}

/// The command that loads a script.
pub fn script_load_command(contents: &[u8]) -> (r: Data)
    ensures
        r@ == command_of(
            seq![word(seq!['s', 'c', 'r', 'i', 'p', 't']), word(seq!['l', 'o', 'a', 'd']), contents@],
        ),
{
    proof {
        reveal_strlit("script");
        reveal_strlit("load");
        assert("script"@ =~= seq!['s', 'c', 'r', 'i', 'p', 't']);
        assert("load"@ =~= seq!['l', 'o', 'a', 'd']);
    }
    let args = ["script".as_bytes(), "load".as_bytes(), contents];
    let r = frame_of(&args);
    assert(Seq::new(args@.len(), |i: int| args@[i]@) =~= seq![
        word(seq!['s', 'c', 'r', 'i', 'p', 't']),
        word(seq!['l', 'o', 'a', 'd']),
        contents@,
    ]);
    r
}

} // verus!
