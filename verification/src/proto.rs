//! Agent protocol values, as the multiplexer sees them.
use ssh_agent_lib::proto::extension::QueryResponse;
use ssh_agent_lib::proto::Extension as ExtensionMessage;
use ssh_agent_lib::ssh_encoding::Decode;
use ssh_agent_lib::ssh_key::public::KeyData;
use ssh_agent_lib::ssh_key::HashAlg;
use vstd::prelude::*;
use vstd::string::StringExecFns;
use vstd::utf8::encode_utf8;
use crate::text::{copy_bytes, lossy_string, utf8_lossy};

verus! {

/// How long an upstream agent may take to sign, in seconds.
pub const SIGN_TIMEOUT: u64 = 60;

/// How long an upstream agent may take to answer a session-bind, in seconds.
pub const SESSION_BIND_TIMEOUT: u64 = 30;

/// How long an upstream agent may take to list its identities, in seconds.
pub const UPSTREAM_TIMEOUT: u64 = 10;

/// How long connecting to an upstream agent may take, in seconds.
pub const CONNECT_TIMEOUT: u64 = 2;

/// The path of an upstream agent's socket, in the bytes of the file system.
pub type SocketPath = Vec<u8>;

/// A public key in its wire encoding. Two keys are the same key when their
/// encodings are the same.
pub type PubKey = Vec<u8>;

/// A key that an upstream agent offers.
#[derive(Debug)]
pub struct Identity {
    pub pubkey: PubKey,
    pub comment: String,
}

/// An [`Identity`] as mathematical values.
pub struct IdentityView {
    pub pubkey: Seq<u8>,
    pub comment: Seq<char>,
}

impl View for Identity {
    type V = IdentityView;

    open spec fn view(&self) -> IdentityView {
        IdentityView { pubkey: self.pubkey@, comment: self.comment@ }
    }
}

/// The identities of a list, in order.
pub open spec fn identity_views(ids: Seq<Identity>) -> Seq<IdentityView> {
    ids.map_values(|id: Identity| id@)
}

/// An extension request or response: a name and bytes that the name gives a
/// meaning to.
#[derive(Debug)]
pub struct Extension {
    pub name: String,
    pub details: Vec<u8>,
}

/// A request that goes to all upstream agents, with how long the answer may
/// take, in seconds. `B` is a byte string.
#[derive(Debug)]
pub enum Request<B> {
    /// The agent is to list its identities.
    Identities { limit: u64 },
    /// The agent is to bind the connection: the extension
    /// `session-bind@openssh.com` with these details.
    SessionBind { details: B, limit: u64 },
}

impl View for Request<Vec<u8>> {
    type V = Request<Seq<u8>>;

    open spec fn view(&self) -> Request<Seq<u8>> {
        match *self {
            Request::Identities { limit } => Request::Identities { limit },
            Request::SessionBind { details, limit } => Request::SessionBind {
                details: details@,
                limit,
            },
        }
    }
}

impl<B> Request<B> {
    /// How long the answer may take, in seconds.
    pub open spec fn time_limit(&self) -> u64 {
        match *self {
            Request::Identities { limit } => limit,
            Request::SessionBind { limit, .. } => limit,
        }
    }

    /// How long the answer may take, in seconds.
    pub fn limit(&self) -> (seconds: u64)
        ensures
            seconds == self.time_limit(),
    {
        match self {
            Request::Identities { limit } => *limit,
            Request::SessionBind { limit, .. } => *limit,
        }
    }
}

impl Request<Vec<u8>> {
    /// A copy of the request.
    pub fn copy(&self) -> (copy: Request<Vec<u8>>)
        ensures
            copy@ == self@,
    {
        match self {
            Request::Identities { limit } => Request::Identities { limit: *limit },
            Request::SessionBind { details, limit } => Request::SessionBind {
                details: copy_bytes(details.as_slice()),
                limit: *limit,
            },
        }
    }
}

/// The session-bind request with these details, as a message.
pub fn session_bind_message(details: Vec<u8>) -> (message: Extension)
    ensures
        message.name@ == "session-bind@openssh.com"@,
        message.details == details,
{
    Extension { name: "session-bind@openssh.com".to_string(), details }
}

/// A request to sign. `B` is a byte string.
#[derive(Debug)]
pub struct SignRequest<B> {
    /// The key that is to sign, in its wire encoding.
    pub pubkey: B,
    /// The data to be signed.
    pub data: B,
    /// The signature flags.
    pub flags: u32,
}

impl View for SignRequest<Vec<u8>> {
    type V = SignRequest<Seq<u8>>;

    open spec fn view(&self) -> SignRequest<Seq<u8>> {
        SignRequest { pubkey: self.pubkey@, data: self.data@, flags: self.flags }
    }
}

impl SignRequest<Vec<u8>> {
    /// A copy of the request.
    pub fn copy(&self) -> (copy: SignRequest<Vec<u8>>)
        ensures
            copy@ == self@,
    {
        SignRequest {
            pubkey: copy_bytes(self.pubkey.as_slice()),
            data: copy_bytes(self.data.as_slice()),
            flags: self.flags,
        }
    }
}

/// Why a request failed. `E` is the error of an upstream agent or of a socket,
/// which is passed on unread; `T` is the text type.
#[derive(Debug)]
pub enum MuxError<E, T> {
    /// The plain failure of the protocol, which carries no reason.
    Failure,
    /// A failure with a reason of the multiplexer's own.
    Other(T),
    /// Any other error that an upstream agent or its connection gave.
    Upstream(E),
}

impl<E> View for MuxError<E, String> {
    type V = MuxError<E, Seq<char>>;

    open spec fn view(&self) -> MuxError<E, Seq<char>> {
        match *self {
            MuxError::Failure => MuxError::Failure,
            MuxError::Other(text) => MuxError::Other(text@),
            MuxError::Upstream(e) => MuxError::Upstream(e),
        }
    }
}

/// A result with its error seen as a mathematical value.
pub open spec fn result_view<T, E>(r: Result<T, MuxError<E, String>>) -> Result<
    T,
    MuxError<E, Seq<char>>,
> {
    match r {
        Ok(v) => Ok(v),
        Err(e) => Err(e@),
    }
}

// ---------------------------------------------------------------------------
// Replies and connections that may not come in time
// ---------------------------------------------------------------------------
/// The reply of an upstream agent, or `timeout` as the reason when it did not
/// come in time (`None`).
pub fn reply_in_time<T, E>(reply: Option<Result<T, MuxError<E, String>>>) -> (r: Result<
    T,
    MuxError<E, String>,
>)
    ensures
        reply matches Some(given) ==> r == given,
        reply is None ==> result_view(r) == Err::<T, MuxError<E, Seq<char>>>(
            MuxError::Other("timeout"@),
        ),
{
    match reply {
        Some(given) => given,
        None => Err(MuxError::Other("timeout".to_string())),
    }
}

/// How an attempt to connect to a socket ended.
#[derive(Debug)]
pub enum ConnectOutcome<C, E> {
    Connected(C),
    Refused(E),
    TimedOut,
}

/// The connection, or why there is none.
pub open spec fn connected<C, E>(path: Seq<u8>, outcome: ConnectOutcome<C, E>) -> Result<
    C,
    MuxError<E, Seq<char>>,
> {
    match outcome {
        ConnectOutcome::Connected(client) => Ok(client),
        ConnectOutcome::Refused(e) => Err(MuxError::Upstream(e)),
        ConnectOutcome::TimedOut => Err(
            MuxError::Other("Timeout connecting to agent at "@ + utf8_lossy(path)),
        ),
    }
}

/// Turns the outcome of connecting to `path` into a connection or an error.
pub fn connect<C, E>(path: &[u8], outcome: ConnectOutcome<C, E>) -> (r: Result<
    C,
    MuxError<E, String>,
>)
    ensures
        result_view(r) == connected(path@, outcome),
{
    match outcome {
        ConnectOutcome::Connected(client) => Ok(client),
        ConnectOutcome::Refused(e) => Err(MuxError::Upstream(e)),
        ConnectOutcome::TimedOut => {
            let mut text = "Timeout connecting to agent at ".to_string();
            let shown = lossy_string(path);
            text.append(shown.as_str());
            Err(MuxError::Other(text))
        },
    }
}

// ---------------------------------------------------------------------------
// Key fingerprints
// ---------------------------------------------------------------------------
/// The fingerprint of the public key encoded in `pubkey`; `None` when the
/// bytes do not begin with the encoding of a public key.
pub uninterp spec fn key_fingerprint(pubkey: Seq<u8>) -> Option<Seq<char>>;

/// Calls `ssh_key::public::KeyData::fingerprint` with the default hash, on the
/// key that `KeyData::decode` finds in `pubkey`. The result is a function of
/// the bytes alone, named [`key_fingerprint`]. Which bytes encode a key, and
/// what the fingerprint is, are left unsaid.
#[verifier::external_body]
pub(crate) fn fingerprint(pubkey: &[u8]) -> (shown: Option<String>)
    ensures
        shown is Some == key_fingerprint(pubkey@) is Some,
        shown matches Some(text) ==> key_fingerprint(pubkey@) == Some(text@),
{
    let mut reader: &[u8] = pubkey;
    match KeyData::decode(&mut reader) {
        Ok(key) => Some(key.fingerprint(HashAlg::default()).to_string()),
        Err(_) => None,
    }
}

// ---------------------------------------------------------------------------
// The answer to a query
// ---------------------------------------------------------------------------
/// A number below 2^32 as four bytes, most significant first.
pub open spec fn four_bytes(n: int) -> Seq<u8> {
    seq![
        (n / 0x100_0000 % 0x100) as u8,
        (n / 0x1_0000 % 0x100) as u8,
        (n / 0x100 % 0x100) as u8,
        (n % 0x100) as u8,
    ]
}

/// The characters of each string.
pub open spec fn texts(strings: Seq<String>) -> Seq<Seq<char>> {
    strings.map_values(|s: String| s@)
}

/// Each name in UTF-8, after its length in four bytes.
pub open spec fn name_entries(names: Seq<Seq<char>>) -> Seq<u8>
    decreases names.len(),
{
    if names.len() == 0 {
        Seq::empty()
    } else {
        name_entries(names.drop_last()) + four_bytes(encode_utf8(names.last()).len() as int)
            + encode_utf8(names.last())
    }
}

/// A list of names on the wire: the length of the entries, then the entries.
pub open spec fn name_list(names: Seq<Seq<char>>) -> Seq<u8> {
    four_bytes(name_entries(names).len() as int) + name_entries(names)
}

/// Calls `ssh_agent_lib::proto::Extension::new_message` on a `QueryResponse`
/// with these names. The message is named `query` and carries the encoding of
/// the list; there is a message when the list is short enough for a length in
/// four bytes, and none when it is not. For a list within four bytes of that
/// limit it is left unsaid whether there is one.
#[verifier::external_body]
fn query_message(names: Vec<String>) -> (message: Option<Extension>)
    ensures
        message is None ==> name_entries(texts(names@)).len() + 4 > u32::MAX,
        message is Some ==> name_entries(texts(names@)).len() <= u32::MAX,
        message matches Some(m) ==> m.name@ == "query"@,
        message matches Some(m) ==> m.details@ == name_list(texts(names@)),
{
    match ExtensionMessage::new_message(QueryResponse { extensions: names }) {
        Ok(m) => Some(Extension { name: m.name, details: m.details.into_bytes() }),
        Err(_) => None,
    }
}

/// The answer to a `query`: the one extension that the multiplexer supports.
pub fn query_answer() -> (answer: Extension)
    ensures
        answer.name@ == "query"@,
        answer.details@ == name_list(seq!["session-bind@openssh.com"@]),
{
    let mut names: Vec<String> = Vec::new();
    names.push("session-bind@openssh.com".to_string());
    proof {
        let list = texts(names@);
        assert(list == seq!["session-bind@openssh.com"@]);
        reveal_strlit("session-bind@openssh.com");
        assert(list.drop_last() == Seq::<Seq<char>>::empty());
        let name = "session-bind@openssh.com"@;
        assert(vstd::utf8::is_ascii_chars(name));
        vstd::utf8::is_ascii_chars_encode_utf8(name);
        assert(name_entries(list.drop_last()).len() == 0);
        assert(name_entries(list).len() == 28);
    }
    query_message(names).unwrap()
}

} // verus!
