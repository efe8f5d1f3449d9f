//! Desktop notifications: what they say and how they are sent.
//!
//! Each sign request is announced with the connecting peer chain and a
//! 7-hex-char id derived from the SHA-256 digest of the data to be signed. A
//! hardware token helper can compute the same id for its own prompt, so the
//! user can confirm that both belong to the same request.
//!
//! Sending is fire-and-forget and left to the caller; nothing here can make a
//! sign request fail.
use sha2::{Digest, Sha256};
use vstd::prelude::*;
use vstd::string::StringExecFns;
use vstd::utf8::encode_utf8;
use crate::step::Step;
use crate::text::{lossy_string, utf8_lossy};

verus! {

/// Length of a request id, in characters.
pub const ID_LEN: usize = 7;

// ---------------------------------------------------------------------------
// Request ids
// ---------------------------------------------------------------------------
/// The SHA-256 digest of `data`.
pub uninterp spec fn sha256(data: Seq<u8>) -> Seq<u8>;

/// Calls `sha2::Sha256::digest`. Its result is a function of the data alone,
/// named [`sha256`], and 32 bytes long. How the digest is computed is left
/// unsaid.
#[verifier::external_body]
fn sha256_digest(data: &[u8]) -> (digest: Vec<u8>)
    ensures
        digest@ == sha256(data@),
        digest@.len() == 32,
{
    Sha256::digest(data).to_vec()
}

/// The lower-case hexadecimal digit of a number below sixteen.
pub open spec fn hex_digit(d: int) -> char {
    if d < 10 {
        (('0' as int) + d) as char
    } else {
        (('a' as int) + d - 10) as char
    }
}

/// Two hexadecimal digits for each byte.
pub open spec fn hex(bytes: Seq<u8>) -> Seq<char>
    decreases bytes.len(),
{
    if bytes.len() == 0 {
        Seq::empty()
    } else {
        hex(bytes.drop_last()).push(hex_digit(bytes.last() as int / 16)).push(
            hex_digit(bytes.last() as int % 16),
        )
    }
}

/// Whether `c` is a lower-case hexadecimal digit.
pub open spec fn is_hex_digit(c: char) -> bool {
    '0' <= c <= '9' || 'a' <= c <= 'f'
}

fn hex_digit_char(d: u8) -> (c: char)
    requires
        d < 16,
    ensures
        c == hex_digit(d as int),
{
    if d < 10 {
        (48 + d) as char
    } else {
        (87 + d) as char
    }
}

/// The digest in hexadecimal.
pub fn hash_of_digest(digest: &[u8]) -> (out: String)
    ensures
        out@ == hex(digest@),
{
    let mut out = String::new();
    let mut i: usize = 0;
    proof {
        assert(digest@.take(0) == Seq::<u8>::empty());
    }
    while i < digest.len()
        invariant
            i <= digest@.len(),
            out@ == hex(digest@.take(i as int)),
        decreases digest@.len() - i,
    {
        let byte = digest[i];
        out.push(hex_digit_char(byte / 16));
        out.push(hex_digit_char(byte % 16));
        i += 1;
        proof {
            assert(digest@.take(i as int).drop_last() == digest@.take(i - 1));
            assert(digest@.take(i as int).last() == byte);
        }
    }
    proof {
        assert(digest@.take(digest@.len() as int) == digest@);
    }
    out
}

/// The first [`ID_LEN`] hexadecimal digits of a digest, or all of them when
/// there are fewer.
pub fn id_of_digest(digest: &[u8]) -> (out: String)
    ensures
        out@ == (if hex(digest@).len() < ID_LEN {
            hex(digest@)
        } else {
            hex(digest@).take(ID_LEN as int)
        }),
{
    let mut out = String::new();
    let mut count: usize = 0;
    let mut i: usize = 0;
    let ghost full = hex(digest@);
    proof {
        assert(digest@.take(0) == Seq::<u8>::empty());
        lemma_hex_len(digest@);
    }
    while i < digest.len() && count < ID_LEN
        invariant
            i <= digest@.len(),
            full == hex(digest@),
            full.len() == 2 * digest@.len(),
            count == out@.len() <= ID_LEN,
            count == (if 2 * i < ID_LEN {
                2 * i
            } else {
                ID_LEN as int
            }),
            out@ == full.take(count as int),
        decreases digest@.len() - i,
    {
        let byte = digest[i];
        proof {
            lemma_hex_at(digest@, i as int);
        }
        out.push(hex_digit_char(byte / 16));
        count += 1;
        proof {
            assert(full.take(count as int) == full.take(count - 1).push(full[count - 1]));
        }
        if count < ID_LEN {
            out.push(hex_digit_char(byte % 16));
            count += 1;
            proof {
                assert(full.take(count as int) == full.take(count - 1).push(full[count - 1]));
            }
        }
        i += 1;
    }
    proof {
        if full.len() < ID_LEN {
            assert(full.take(count as int) == full);
        }
    }
    out
}

/// The SHA-256 digest of arbitrary bytes, in hexadecimal.
pub fn hash(data: &[u8]) -> (out: String)
    ensures
        out@ == hex(sha256(data@)),
        out@.len() == 64,
        forall|i: int| 0 <= i < out@.len() ==> is_hex_digit(#[trigger] out@[i]),
{
    let digest = sha256_digest(data);
    let out = hash_of_digest(digest.as_slice());
    proof {
        hex_is_hex(digest@);
    }
    out
}

/// 7-hex-char id from arbitrary bytes (matching git's short-hash convention).
pub fn short_id(data: &[u8]) -> (id: String)
    ensures
        id@ == hex(sha256(data@)).take(ID_LEN as int),
        id@.len() == ID_LEN,
        forall|i: int| 0 <= i < id@.len() ==> is_hex_digit(#[trigger] id@[i]),
{
    let digest = sha256_digest(data);
    let id = id_of_digest(digest.as_slice());
    proof {
        hex_is_hex(digest@);
    }
    id
}

proof fn lemma_hex_len(bytes: Seq<u8>)
    ensures
        hex(bytes).len() == 2 * bytes.len(),
    decreases bytes.len(),
{
    if bytes.len() > 0 {
        lemma_hex_len(bytes.drop_last());
    }
}

proof fn lemma_hex_at(bytes: Seq<u8>, i: int)
    requires
        0 <= i < bytes.len(),
    ensures
        hex(bytes).len() == 2 * bytes.len(),
        hex(bytes)[2 * i] == hex_digit(bytes[i] as int / 16),
        hex(bytes)[2 * i + 1] == hex_digit(bytes[i] as int % 16),
    decreases bytes.len(),
{
    lemma_hex_len(bytes);
    lemma_hex_len(bytes.drop_last());
    if i < bytes.len() - 1 {
        lemma_hex_at(bytes.drop_last(), i);
    }
}

/// Hexadecimal text is two hexadecimal digits for each byte.
pub proof fn hex_is_hex(bytes: Seq<u8>)
    ensures
        hex(bytes).len() == 2 * bytes.len(),
        forall|i: int| 0 <= i < hex(bytes).len() ==> is_hex_digit(#[trigger] hex(bytes)[i]),
{
    lemma_hex_len(bytes);
    assert forall|i: int| 0 <= i < hex(bytes).len() implies is_hex_digit(
        #[trigger] hex(bytes)[i],
    ) by {
        let k = i / 2;
        lemma_hex_at(bytes, k);
        assert(i == 2 * k || i == 2 * k + 1);
    }
}

/// Two digests with the same hexadecimal text are the same digest.
pub proof fn hex_tells_digests_apart(a: Seq<u8>, b: Seq<u8>)
    requires
        hex(a) == hex(b),
    ensures
        a == b,
{
    lemma_hex_len(a);
    lemma_hex_len(b);
    assert forall|i: int| 0 <= i < a.len() implies a[i] == b[i] by {
        lemma_hex_at(a, i);
        lemma_hex_at(b, i);
        let x = a[i] as int;
        let y = b[i] as int;
        assert(x / 16 == y / 16);
        assert(x % 16 == y % 16);
    }
    assert(a =~= b);
}

// ---------------------------------------------------------------------------
// Notification text
// ---------------------------------------------------------------------------
/// Headline of the notification that announces a sign request.
pub fn sign_title(id: &str) -> (title: String)
    ensures
        title@ == "ssh-agent-mux: sign [id "@ + id@ + "]"@,
{
    let mut title = String::new();
    title.append("ssh-agent-mux: sign [id ");
    title.append(id);
    title.append("]");
    proof {
        assert(title@ =~= "ssh-agent-mux: sign [id "@ + id@ + "]"@);
    }
    title
}

/// Text of the notification that announces a sign request.
pub fn sign_body(fingerprint: &str, peer: &str) -> (body: String)
    ensures
        body@ == "key "@ + fingerprint@ + "\npeer "@ + peer@,
{
    let mut body = String::new();
    body.append("key ");
    body.append(fingerprint);
    body.append("\npeer ");
    body.append(peer);
    proof {
        assert(body@ =~= "key "@ + fingerprint@ + "\npeer "@ + peer@);
    }
    body
}

/// The arguments that `notify-send` is started with.
pub fn notify_args(title: &str, body: &str) -> (args: Vec<String>)
    ensures
        args@.len() == 6,
        args@[0]@ == "--app-name=ssh-agent-mux"@,
        args@[1]@ == "--category=device"@,
        args@[2]@ == "--urgency=normal"@,
        args@[3]@ == "--expire-time=15000"@,
        args@[4]@ == title@,
        args@[5]@ == body@,
{
    let mut args: Vec<String> = Vec::new();
    args.push("--app-name=ssh-agent-mux".to_string());
    args.push("--category=device".to_string());
    args.push("--urgency=normal".to_string());
    args.push("--expire-time=15000".to_string());
    args.push(title.to_string());
    args.push(body.to_string());
    args
}

// ---------------------------------------------------------------------------
// Finding notify-send
// ---------------------------------------------------------------------------
/// The path of a file in a directory: a slash goes between the two, unless the
/// directory's name is empty or ends with one.
pub open spec fn path_in(dir: Seq<u8>, file: Seq<u8>) -> Seq<u8> {
    if dir.len() == 0 || dir.last() == 47u8 {
        dir + file
    } else {
        dir.push(47u8) + file
    }
}

/// Where `notify-send` would be in the directory `dir`.
pub fn notify_send_in(dir: &[u8]) -> (path: Vec<u8>)
    ensures
        path@ == candidate(dir@),
{
    let mut path = crate::text::copy_bytes(dir);
    if dir.len() > 0 && dir[dir.len() - 1] != 47 {
        path.push(47);
    }
    let mut name = crate::text::copy_bytes("notify-send".as_bytes());
    path.append(&mut name);
    path
}

/// What the search for `notify-send` asks for. `P` is a path.
#[derive(Debug)]
pub enum LocateAction<P> {
    /// Read the directories of the search path.
    ReadSearchPath,
    /// Find out whether `path` is a file.
    Probe { path: P },
}

/// What the search is told. `D` is a list of directories.
#[derive(Debug)]
pub enum LocateEvent<D> {
    /// The program is asked for.
    Asked,
    /// The search path was read; `None` when there is none.
    SearchPath { dirs: Option<D> },
    /// The path was probed.
    Probed { is_file: bool },
}

/// The program to send notifications with, which is looked for once.
#[derive(Debug)]
pub struct NotifyBin {
    dirs: Vec<Vec<u8>>,
    next: usize,
    found: Option<Option<String>>,
}

/// A [`NotifyBin`] as mathematical values.
pub struct BinState {
    /// The directories that are left; the first one is being probed.
    pub left: Seq<Seq<u8>>,
    /// What the search has come to, once it is over.
    pub found: Option<Option<Seq<char>>>,
}

/// Where `notify-send` would be in the directory `dir`.
pub open spec fn candidate(dir: Seq<u8>) -> Seq<u8> {
    path_in(dir, encode_utf8("notify-send"@))
}

/// Ends the search.
pub open spec fn settle(s: BinState, found: Option<Seq<char>>) -> (
    BinState,
    Step<LocateAction<Seq<u8>>, Option<Seq<char>>>,
) {
    (BinState { found: Some(found), ..s }, Step::Return(found))
}

/// Probes the first of the directories that are left.
pub open spec fn probe(left: Seq<Seq<u8>>) -> (
    BinState,
    Step<LocateAction<Seq<u8>>, Option<Seq<char>>>,
) {
    let s = BinState { left, found: None };
    if left.len() == 0 {
        settle(s, None)
    } else {
        (s, Step::Perform(LocateAction::Probe { path: candidate(left[0]) }))
    }
}

/// One step of the search. Once it is over, its result is the answer to
/// everything.
pub open spec fn locate_next(s: BinState, event: LocateEvent<Seq<Seq<u8>>>) -> (
    BinState,
    Step<LocateAction<Seq<u8>>, Option<Seq<char>>>,
) {
    match s.found {
        Some(found) => (s, Step::Return(found)),
        None => match event {
            LocateEvent::Asked => (s, Step::Perform(LocateAction::ReadSearchPath)),
            LocateEvent::SearchPath { dirs: None } => probe(Seq::empty()),
            LocateEvent::SearchPath { dirs: Some(dirs) } => probe(dirs),
            LocateEvent::Probed { is_file } => if s.left.len() == 0 {
                settle(s, None)
            } else if is_file {
                settle(s, Some(utf8_lossy(candidate(s.left[0]))))
            } else {
                probe(s.left.drop_first())
            },
        },
    }
}

/// An event of the search as mathematical values.
pub open spec fn locate_event(event: LocateEvent<Vec<Vec<u8>>>) -> LocateEvent<Seq<Seq<u8>>> {
    match event {
        LocateEvent::Asked => LocateEvent::Asked,
        LocateEvent::SearchPath { dirs: None } => LocateEvent::SearchPath { dirs: None },
        LocateEvent::SearchPath { dirs: Some(dirs) } => LocateEvent::SearchPath {
            dirs: Some(dirs@.map_values(|d: Vec<u8>| d@)),
        },
        LocateEvent::Probed { is_file } => LocateEvent::Probed { is_file },
    }
}

/// A step of the search as mathematical values.
pub open spec fn locate_step(step: Step<LocateAction<Vec<u8>>, Option<String>>) -> Step<
    LocateAction<Seq<u8>>,
    Option<Seq<char>>,
> {
    match step {
        Step::Perform(LocateAction::ReadSearchPath) => Step::Perform(LocateAction::ReadSearchPath),
        Step::Perform(LocateAction::Probe { path }) => Step::Perform(
            LocateAction::Probe { path: path@ },
        ),
        Step::Return(Some(program)) => Step::Return(Some(program@)),
        Step::Return(None) => Step::Return(None),
    }
}

impl View for NotifyBin {
    type V = BinState;

    closed spec fn view(&self) -> BinState {
        BinState {
            left: self.dirs@.skip(self.next as int).map_values(|d: Vec<u8>| d@),
            found: match self.found {
                Some(Some(program)) => Some(Some(program@)),
                Some(None) => Some(None),
                None => None,
            },
        }
    }
}

impl NotifyBin {
    /// The directories that are left are some of those that were read.
    pub closed spec fn well_formed(&self) -> bool {
        self.next <= self.dirs@.len()
    }

    /// A program that has not been looked for.
    pub fn new() -> (bin: NotifyBin)
        ensures
            bin.well_formed(),
            bin@ == (BinState { left: Seq::empty(), found: None }),
    {
        let bin = NotifyBin { dirs: Vec::new(), next: 0, found: None };
        proof {
            assert(bin@.left =~= Seq::<Seq<u8>>::empty());
        }
        bin
    }

    /// One step of the search for the program.
    pub fn locate(&mut self, event: LocateEvent<Vec<Vec<u8>>>) -> (step: Step<
        LocateAction<Vec<u8>>,
        Option<String>,
    >)
        requires
            old(self).well_formed(),
        ensures
            final(self).well_formed(),
            (final(self)@, locate_step(step)) == locate_next(old(self)@, locate_event(event)),
    {
        match &self.found {
            Some(Some(program)) => {
                return Step::Return(Some(program.as_str().to_string()));
            },
            Some(None) => {
                return Step::Return(None);
            },
            None => {},
        }
        match event {
            LocateEvent::Asked => {
                return Step::Perform(LocateAction::ReadSearchPath);
            },
            LocateEvent::SearchPath { dirs } => {
                self.dirs = match dirs {
                    Some(dirs) => dirs,
                    None => Vec::new(),
                };
                self.next = 0;
                proof {
                    assert(self.dirs@.skip(0) =~= self.dirs@);
                    if dirs is None {
                        assert(self@.left =~= Seq::<Seq<u8>>::empty());
                    }
                }
            },
            LocateEvent::Probed { is_file } => {
                if self.next < self.dirs.len() {
                    proof {
                        assert(self@.left[0] == self.dirs@[self.next as int]@);
                    }
                    if is_file {
                        let path = notify_send_in(self.dirs[self.next].as_slice());
                        let program = lossy_string(path.as_slice());
                        self.found = Some(Some(program.as_str().to_string()));
                        return Step::Return(Some(program));
                    }
                    self.next = self.next + 1;
                    proof {
                        assert(self@.left =~= old(self)@.left.drop_first());
                    }
                }
            },
        }
        if self.next < self.dirs.len() {
            proof {
                assert(self@.left[0] == self.dirs@[self.next as int]@);
            }
            Step::Perform(
                LocateAction::Probe { path: notify_send_in(self.dirs[self.next].as_slice()) },
            )
        } else {
            self.found = Some(None);
            Step::Return(None)
        }
    }
}

/// The state in which the search ends that goes on from `s` with `step`, where
/// `is_file` says which paths are files.
pub open spec fn searched(
    s: BinState,
    step: Step<LocateAction<Seq<u8>>, Option<Seq<char>>>,
    is_file: spec_fn(Seq<u8>) -> bool,
) -> BinState
    decreases
            s.left.len(),
            (if step is Perform {
                1int
            } else {
                0int
            }),
    when s.left.len() > 0 || step is Return
{
    match step {
        Step::Perform(LocateAction::Probe { path }) => {
            let (after, next) = locate_next(s, LocateEvent::Probed { is_file: is_file(path) });
            searched(after, next, is_file)
        },
        _ => s,
    }
}

/// The search comes to the first directory of the search path that holds the
/// program, and to nothing exactly when none does.
pub proof fn search_finds_the_first_file(
    s: BinState,
    dirs: Seq<Seq<u8>>,
    is_file: spec_fn(Seq<u8>) -> bool,
    i: int,
)
    requires
        s.found is None,
        0 <= i <= dirs.len(),
        forall|j: int| 0 <= j < i ==> !is_file(candidate(#[trigger] dirs[j])),
        i < dirs.len() ==> is_file(candidate(dirs[i])),
    ensures
        ({
            let (begun, step) = locate_next(s, LocateEvent::SearchPath { dirs: Some(dirs) });
            searched(begun, step, is_file).found == Some(
                if i < dirs.len() {
                    Some(utf8_lossy(candidate(dirs[i])))
                } else {
                    None
                },
            )
        }),
    decreases dirs.len(),
{
    let (begun, step) = locate_next(s, LocateEvent::SearchPath { dirs: Some(dirs) });
    if dirs.len() > 0 {
        let found = is_file(candidate(dirs[0]));
        let (after, next) = locate_next(begun, LocateEvent::Probed { is_file: found });
        assert(searched(begun, step, is_file) == searched(after, next, is_file));
        if i > 0 {
            assert(!found);
            let rest = dirs.drop_first();
            assert forall|j: int| 0 <= j < i - 1 implies !is_file(
                candidate(#[trigger] rest[j]),
            ) by {
                assert(!is_file(candidate(dirs[j + 1])));
            }
            search_finds_the_first_file(s, rest, is_file, i - 1);
        }
    }
}

/// Without a search path there is no program.
pub proof fn no_search_path_no_program(s: BinState)
    requires
        s.found is None,
    ensures
        locate_next(s, LocateEvent::SearchPath { dirs: None }).0.found == Some(None::<Seq<char>>),
{
}

/// The state of the search after a run of events.
pub open spec fn locate_run(s: BinState, events: Seq<LocateEvent<Seq<Seq<u8>>>>) -> BinState
    decreases events.len(),
{
    if events.len() == 0 {
        s
    } else {
        locate_next(locate_run(s, events.drop_last()), events.last()).0
    }
}

/// The program is looked for once: every later request is answered with what
/// the search came to, whatever has become of the search path and the files.
pub proof fn program_is_looked_for_once(
    s: BinState,
    events: Seq<LocateEvent<Seq<Seq<u8>>>>,
    event: LocateEvent<Seq<Seq<u8>>>,
)
    requires
        s.found is Some,
    ensures
        locate_run(s, events) == s,
        locate_next(locate_run(s, events), event) == (
            s,
            Step::<LocateAction<Seq<u8>>, Option<Seq<char>>>::Return(s.found->0),
        ),
    decreases events.len(),
{
    if events.len() > 0 {
        program_is_looked_for_once(s, events.drop_last(), event);
    }
}

/// Hexadecimal text byte by byte: the text of one more byte adds the digits of
/// its two halves, each one of `0` to `9` and `a` to `f` in that order.
pub proof fn hex_byte_by_byte(bytes: Seq<u8>, byte: u8)
    ensures
        hex(Seq::<u8>::empty()) == Seq::<char>::empty(),
        hex(bytes.push(byte)).len() == hex(bytes).len() + 2,
        hex(bytes.push(byte)).take(hex(bytes).len() as int) == hex(bytes),
        ({
            let high = hex(bytes.push(byte))[hex(bytes).len() as int] as int;
            let low = hex(bytes.push(byte))[hex(bytes).len() as int + 1] as int;
            let value = |c: int|
                if c >= 97 {
                    c - 87
                } else {
                    c - 48
                };
            &&& 48 <= high <= 57 || 97 <= high <= 102
            &&& 48 <= low <= 57 || 97 <= low <= 102
            &&& value(high) * 16 + value(low) == byte
        }),
{
    let more = bytes.push(byte);
    assert(more.drop_last() =~= bytes);
    assert(hex(more).take(hex(bytes).len() as int) =~= hex(bytes));
}

/// The program is looked for under its own name, directly in the directory.
pub proof fn candidate_is_in_its_directory(dir: Seq<u8>)
    ensures
        ({
            let name = encode_utf8("notify-send"@);
            &&& candidate(Seq::empty()) == name
            &&& dir.len() > 0 && dir.last() == 47u8 ==> candidate(dir) == dir + name
            &&& dir.len() > 0 && dir.last() != 47u8 ==> candidate(dir) == dir + seq![47u8] + name
        }),
{
    let name = encode_utf8("notify-send"@);
    assert(Seq::<u8>::empty() + name =~= name);
    assert(dir.push(47u8) + name =~= dir + seq![47u8] + name);
}

/// What the search is told is what is read: every directory of the search
/// path, in order; and what it asks for and returns is what is handed out.
pub proof fn search_values_are_read_whole(
    dirs: Vec<Vec<u8>>,
    is_file: bool,
    path: Vec<u8>,
    program: String,
)
    ensures
        ({
            let read = locate_event(LocateEvent::SearchPath { dirs: Some(dirs) });
            &&& read is SearchPath && read->dirs is Some
            &&& read->dirs->0.len() == dirs@.len()
            &&& forall|i: int| 0 <= i < dirs@.len() ==> #[trigger] read->dirs->0[i] == dirs@[i]@
        }),
        locate_event(LocateEvent::Probed { is_file }) == (LocateEvent::<Seq<Seq<u8>>>::Probed {
            is_file,
        }),
        locate_step(Step::Perform(LocateAction::Probe { path })) == Step::<
            LocateAction<Seq<u8>>,
            Option<Seq<char>>,
        >::Perform(LocateAction::Probe { path: path@ }),
        locate_step(Step::Return(Some(program))) == Step::<
            LocateAction<Seq<u8>>,
            Option<Seq<char>>,
        >::Return(Some(program@)),
{
}

/// As long as the search has come to nothing yet, a request for the program
/// begins it.
pub proof fn asking_begins_the_search(s: BinState)
    requires
        s.found is None,
    ensures
        locate_next(s, LocateEvent::Asked) == (
            s,
            Step::<LocateAction<Seq<u8>>, Option<Seq<char>>>::Perform(
                LocateAction::ReadSearchPath,
            ),
        ),
{
}

} // verus!
