//! Peer attribution for accepted connections.
//!
//! A [`PeerInfo`] names the process at the other end of a client socket: its
//! credentials, its command line, and a chain of ancestor processes. The chain
//! lets log lines name the originating tool (e.g. `git`) instead of only the
//! direct caller (`ssh`). Everything that is read from `/proc` is parsed here;
//! the reading itself is the caller's.
use vstd::prelude::*;
use vstd::string::StringExecFns;
use vstd::utf8::{encode_scalar, encode_utf8, is_char_boundary};
use crate::step::Step;
use crate::text::{
    chars_of, decimal, decimal_string, joined, lossy_string, parse_i32, parsed_i32, split_bytes,
    split_lines, split_on, split_parts_hold_no_separator, string_of, trim, trimmed, utf8_lossy,
    white_space,
};

verus! {

/// Maximum number of ancestors that are recorded.
pub const MAX_ANCESTRY_DEPTH: usize = 5;

/// Per-command-line truncation in the displayed text, in bytes.
pub const CMDLINE_DISPLAY_MAX: usize = 80;

// ---------------------------------------------------------------------------
// Truncation
// ---------------------------------------------------------------------------
/// The number of bytes that `c` takes in UTF-8.
pub open spec fn utf8_width(c: char) -> nat {
    encode_scalar(c as u32).len()
}

/// How many of the leading characters of `s` fit together into `room` bytes.
pub open spec fn fitting(s: Seq<char>, room: int) -> nat
    decreases s.len(),
{
    if s.len() == 0 || utf8_width(s[0]) > room {
        0
    } else {
        1 + fitting(s.drop_first(), room - utf8_width(s[0]))
    }
}

/// `s` itself when it takes at most `max` bytes; otherwise as many of its
/// leading characters as fit into one byte less, and an ellipsis.
pub open spec fn truncated(s: Seq<char>, max: nat) -> Seq<char> {
    if encode_utf8(s).len() <= max {
        s
    } else {
        let room = if max == 0 {
            0
        } else {
            max - 1
        };
        s.take(fitting(s, room) as int).push('\u{2026}')
    }
}

/// Cuts `s` down to about `max` bytes, at a character boundary, and marks the
/// cut with an ellipsis.
pub fn truncate(s: &str, max: usize) -> (out: String)
    ensures
        out@ == truncated(s@, max as nat),
{
    let len = s.as_bytes().len();
    if len <= max {
        s.to_string()
    } else {
        let room: usize = if max == 0 {
            0
        } else {
            max - 1
        };
        let mut end: usize = room;
        let ghost bytes = encode_utf8(s@);
        proof {
            vstd::utf8::encode_utf8_valid_utf8(s@);
            vstd::utf8::is_char_boundary_start_end_of_seq(bytes);
        }
        while !s.is_char_boundary(end) && end > 0
            invariant
                end <= room < bytes.len(),
                bytes == encode_utf8(s@),
                is_char_boundary(bytes, 0),
                forall|j: int| end < j <= room ==> !is_char_boundary(bytes, j),
            decreases end,
        {
            end -= 1;
        }
        let head = s.split_at(end).0;
        let mut out = String::new();
        out.append(head);
        out.push('\u{2026}');
        proof {
            lemma_cut(s@, end as int, room as int);
            let kept = s@.take(fitting(s@, room as int) as int);
            assert(encode_utf8(head@) == encode_utf8(kept));
            vstd::utf8::encode_utf8_decode_utf8(head@);
            vstd::utf8::encode_utf8_decode_utf8(kept);
        }
        out
    }
}

proof fn lemma_encode_first(s: Seq<char>)
    requires
        s.len() > 0,
    ensures
        encode_utf8(s).len() == utf8_width(s[0]) + encode_utf8(s.drop_first()).len(),
        vstd::utf8::length_of_first_scalar(encode_utf8(s)) == utf8_width(s[0]),
        vstd::utf8::pop_first_scalar(encode_utf8(s)) == encode_utf8(s.drop_first()),
        vstd::utf8::valid_utf8(encode_utf8(s)),
        vstd::utf8::valid_utf8(encode_utf8(s.drop_first())),
        1 <= utf8_width(s[0]) <= 4,
{
    vstd::utf8::encode_utf8_first_scalar(s);
    vstd::utf8::encode_utf8_valid_utf8(s);
    vstd::utf8::encode_utf8_valid_utf8(s.drop_first());
    assert(vstd::utf8::pop_first_scalar(encode_utf8(s)) =~= encode_utf8(s.drop_first()));
}

proof fn lemma_cut(s: Seq<char>, end: int, room: int)
    requires
        0 <= end <= room < encode_utf8(s).len(),
        is_char_boundary(encode_utf8(s), end),
        forall|j: int| end < j <= room ==> !is_char_boundary(encode_utf8(s), j),
    ensures
        fitting(s, room) <= s.len(),
        encode_utf8(s).subrange(0, end) == encode_utf8(s.take(fitting(s, room) as int)),
    decreases s.len(),
{
    let bytes = encode_utf8(s);
    let rest = s.drop_first();
    lemma_encode_first(s);
    let w = utf8_width(s[0]) as int;
    let tail = encode_utf8(rest);
    if w > room {
        if end > 0 {
            assert(is_char_boundary(bytes, end) == is_char_boundary(tail, end - w));
            assert(end - w < 0);
            assert(!is_char_boundary(tail, end - w));
        }
        assert(bytes.subrange(0, 0) == encode_utf8(s.take(0)));
    } else {
        assert(is_char_boundary(tail, 0));
        assert(is_char_boundary(bytes, w) == is_char_boundary(tail, 0));
        assert(end >= w);
        assert(is_char_boundary(bytes, end) == is_char_boundary(tail, end - w));
        assert forall|j: int| end - w < j <= room - w implies !is_char_boundary(tail, j) by {
            assert(!is_char_boundary(bytes, j + w));
            assert(is_char_boundary(bytes, j + w) == is_char_boundary(tail, j));
        }
        lemma_cut(rest, end - w, room - w);
        let k = fitting(rest, room - w) as int;
        let kept = s.take(k + 1);
        assert(kept.drop_first() == rest.take(k));
        assert(encode_utf8(kept) == encode_scalar(s[0] as u32) + encode_utf8(rest.take(k)));
        assert(bytes.subrange(0, end) == encode_scalar(s[0] as u32) + tail.subrange(0, end - w));
    }
}

proof fn lemma_fitting(s: Seq<char>, room: int)
    requires
        room >= 0,
    ensures
        fitting(s, room) <= s.len(),
        fitting(s, room) <= room,
        encode_utf8(s.take(fitting(s, room) as int)).len() <= room,
    decreases s.len(),
{
    let k = fitting(s, room) as int;
    if s.len() == 0 || utf8_width(s[0]) > room {
        assert(s.take(k) == Seq::<char>::empty());
    } else {
        let rest = s.drop_first();
        lemma_encode_first(s);
        lemma_fitting(rest, room - utf8_width(s[0]));
        let kept = s.take(k);
        assert(kept.drop_first() == rest.take(k - 1));
        lemma_encode_first(kept);
    }
}

proof fn lemma_fitting_before(p: Seq<char>, c: char, room: int)
    requires
        encode_utf8(p).len() <= room < encode_utf8(p.push(c)).len(),
    ensures
        fitting(p.push(c), room) == p.len(),
    decreases p.len(),
{
    let s = p.push(c);
    lemma_encode_first(s);
    if p.len() == 0 {
        assert(s.drop_first() == Seq::<char>::empty());
    } else {
        lemma_encode_first(p);
        assert(s.drop_first() == p.drop_first().push(c));
        lemma_fitting_before(p.drop_first(), c, room - utf8_width(p[0]));
    }
}

/// Text that fits is left alone; text that does not becomes a prefix of itself
/// and an ellipsis, in no more than `max` characters.
pub proof fn truncated_is_a_marked_prefix(s: Seq<char>, max: nat)
    ensures
        encode_utf8(s).len() <= max ==> truncated(s, max) == s,
        encode_utf8(s).len() > max ==> {
            let out = truncated(s, max);
            &&& out.last() == '\u{2026}'
            &&& out.drop_last().is_prefix_of(s)
            &&& max > 0 ==> encode_utf8(out.drop_last()).len() < max
        },
        max > 0 ==> truncated(s, max).len() <= max,
{
    if encode_utf8(s).len() <= max {
        lemma_count_below_bytes(s);
    } else {
        let room = if max == 0 {
            0int
        } else {
            max - 1
        };
        lemma_fitting(s, room);
        let out = truncated(s, max);
        assert(out.drop_last() == s.take(fitting(s, room) as int));
    }
}

proof fn lemma_count_below_bytes(s: Seq<char>)
    ensures
        s.len() <= encode_utf8(s).len(),
    decreases s.len(),
{
    if s.len() > 0 {
        lemma_encode_first(s);
        lemma_count_below_bytes(s.drop_first());
    }
}

/// Truncating a second time changes nothing.
pub proof fn truncated_twice(s: Seq<char>, max: nat)
    ensures
        truncated(truncated(s, max), max) == truncated(s, max),
{
    if encode_utf8(s).len() > max {
        let room = if max == 0 {
            0int
        } else {
            max - 1
        };
        lemma_fitting(s, room);
        let kept = s.take(fitting(s, room) as int);
        let out = kept.push('\u{2026}');
        assert(out == truncated(s, max));
        if encode_utf8(out).len() > max {
            lemma_fitting_before(kept, '\u{2026}', room);
            assert(out.take(kept.len() as int) == kept);
        }
    }
}

/// What is kept is the longest prefix that fits: one more character would not.
pub proof fn truncated_keeps_all_that_fits(s: Seq<char>, max: nat, k: int)
    requires
        max > 0,
        encode_utf8(s).len() > max,
        0 <= k <= s.len(),
        encode_utf8(s.take(k)).len() < max,
    ensures
        k <= truncated(s, max).len() - 1,
{
    lemma_fitting(s, max - 1);
    lemma_fitting_longest(s, max - 1, k);
}

proof fn lemma_fitting_longest(s: Seq<char>, room: int, k: int)
    requires
        0 <= k <= s.len(),
        encode_utf8(s.take(k)).len() <= room,
    ensures
        k <= fitting(s, room),
    decreases s.len(),
{
    if k > 0 {
        let kept = s.take(k);
        lemma_encode_first(kept);
        assert(kept.drop_first() == s.drop_first().take(k - 1));
        lemma_fitting_longest(s.drop_first(), room - utf8_width(s[0]), k - 1);
    }
}

// ---------------------------------------------------------------------------
// The peer of a connection
// ---------------------------------------------------------------------------
/// The process at the other end of a client connection.
#[derive(Debug)]
pub struct PeerInfo {
    pub pid: i32,
    pub uid: u32,
    pub gid: u32,
    pub cmdline: String,
    /// (pid, cmdline) walking up from the client, excluding the client itself.
    pub ancestry: Vec<(i32, String)>,
}

/// A command line that could not be read is recorded as `<unreadable>`.
pub open spec fn cmdline_or_unreadable(cmdline: Option<Seq<char>>) -> Seq<char> {
    match cmdline {
        Some(text) => text,
        None => "<unreadable>"@,
    }
}

/// The characters of an optional string.
pub open spec fn opt_text(s: Option<String>) -> Option<Seq<char>> {
    match s {
        Some(t) => Some(t@),
        None => None,
    }
}

/// A recorded ancestor: its process id and its command line.
pub open spec fn ancestor_view(a: (i32, String)) -> (i32, Seq<char>) {
    (a.0, a.1@)
}

/// `9(command line)` for process 9, with a long command line cut short.
pub open spec fn process_text(pid: i32, cmdline: Seq<char>) -> Seq<char> {
    decimal(pid as int) + seq!['('] + truncated(cmdline, CMDLINE_DISPLAY_MAX as nat) + seq![')']
}

/// The displayed ancestors, each after a left arrow.
pub open spec fn ancestry_text(ancestry: Seq<(i32, Seq<char>)>) -> Seq<char>
    decreases ancestry.len(),
{
    if ancestry.len() == 0 {
        Seq::empty()
    } else {
        ancestry_text(ancestry.drop_last()) + seq![' ', '\u{2190}', ' '] + process_text(
            ancestry.last().0,
            ancestry.last().1,
        )
    }
}

impl PeerInfo {
    /// The recorded ancestors, nearest first.
    pub open spec fn ancestors(self) -> Seq<(i32, Seq<char>)> {
        self.ancestry@.map_values(|a: (i32, String)| ancestor_view(a))
    }

    /// The displayed text: the client process and its user, then the ancestors.
    pub open spec fn display_text(self) -> Seq<char> {
        "pid="@ + process_text(self.pid, self.cmdline@) + " uid="@ + decimal(self.uid as int)
            + ancestry_text(self.ancestors())
    }

    /// A peer of which no ancestor is recorded yet. `cmdline` is `None` when
    /// the command line could not be read.
    pub fn new(pid: i32, uid: u32, gid: u32, cmdline: Option<String>) -> (info: PeerInfo)
        ensures
            info.pid == pid,
            info.uid == uid,
            info.gid == gid,
            info.cmdline@ == cmdline_or_unreadable(opt_text(cmdline)),
            info.ancestors() == Seq::<(i32, Seq<char>)>::empty(),
    {
        let cmdline = match cmdline {
            Some(text) => text,
            None => "<unreadable>".to_string(),
        };
        let info = PeerInfo { pid, uid, gid, cmdline, ancestry: Vec::new() };
        proof {
            assert(info.ancestors() =~= Seq::<(i32, Seq<char>)>::empty());
        }
        info
    }

    /// One step of the walk up the process tree that records the ancestors.
    /// The first event is the parent of the client itself.
    pub fn walk(&mut self, event: WalkEvent<String>) -> (step: Step<WalkAction, ()>)
        ensures
            (final(self).ancestors(), step) == walk_next(old(self).ancestors(), walk_event(event)),
            final(self).pid == old(self).pid,
            final(self).uid == old(self).uid,
            final(self).gid == old(self).gid,
            final(self).cmdline == old(self).cmdline,
    {
        match event {
            WalkEvent::Parent { ppid } => match ppid {
                Some(p) => if p <= 1 || self.ancestry.len() >= MAX_ANCESTRY_DEPTH {
                    Step::Return(())
                } else {
                    Step::Perform(WalkAction::ReadCmdline { pid: p })
                },
                None => Step::Return(()),
            },
            WalkEvent::Cmdline { pid, cmdline } => {
                let text = match cmdline {
                    Some(text) => text,
                    None => "<unreadable>".to_string(),
                };
                self.ancestry.push((pid, text));
                proof {
                    assert(self.ancestors() =~= old(self).ancestors().push(
                        (pid, cmdline_or_unreadable(opt_text(cmdline))),
                    ));
                }
                Step::Perform(WalkAction::ReadParent { pid })
            },
        }
    }

    /// The peer as one line of text.
    pub fn to_string(&self) -> (out: String)
        ensures
            out@ == self.display_text(),
    {
        let mut out = String::new();
        out.append("pid=");
        push_process(&mut out, self.pid, &self.cmdline);
        out.append(" uid=");
        let uid = decimal_string(self.uid as i64);
        out.append(uid.as_str());
        let ghost head = out@;
        proof {
            assert(head == "pid="@ + process_text(self.pid, self.cmdline@) + " uid="@ + decimal(
                self.uid as int,
            ));
            assert(self.ancestors().take(0) == Seq::<(i32, Seq<char>)>::empty());
            assert(out@ == head + ancestry_text(self.ancestors().take(0)));
        }
        let mut i: usize = 0;
        while i < self.ancestry.len()
            invariant
                i <= self.ancestry@.len(),
                out@ == head + ancestry_text(self.ancestors().take(i as int)),
            decreases self.ancestry@.len() - i,
        {
            let ghost upto = self.ancestors().take(i as int);
            proof {
                assert(self.ancestors().take(i + 1).drop_last() == upto);
                assert(self.ancestors().take(i + 1).last() == ancestor_view(
                    self.ancestry@[i as int],
                ));
            }
            out.push(' ');
            out.push('\u{2190}');
            out.push(' ');
            push_process(&mut out, self.ancestry[i].0, &self.ancestry[i].1);
            i += 1;
            proof {
                assert(out@ =~= head + ancestry_text(self.ancestors().take(i as int)));
            }
        }
        proof {
            assert(self.ancestors().take(i as int) == self.ancestors());
        }
        out
    }
}

fn push_process(out: &mut String, pid: i32, cmdline: &String)
    ensures
        final(out)@ == old(out)@ + process_text(pid, cmdline@),
{
    let number = decimal_string(pid as i64);
    out.append(number.as_str());
    out.push('(');
    let shown = truncate(cmdline.as_str(), CMDLINE_DISPLAY_MAX);
    out.append(shown.as_str());
    out.push(')');
    proof {
        assert(out@ =~= old(out)@ + process_text(pid, cmdline@));
    }
}

// ---------------------------------------------------------------------------
// The walk up the process tree
// ---------------------------------------------------------------------------
/// What the walk asks for.
#[derive(Debug)]
pub enum WalkAction {
    /// Read the parent of `pid`.
    ReadParent { pid: i32 },
    /// Read the command line of `pid`.
    ReadCmdline { pid: i32 },
}

/// What the walk is told. `T` is text.
#[derive(Debug)]
pub enum WalkEvent<T> {
    /// The parent that was read; `None` when it could not be.
    Parent { ppid: Option<i32> },
    /// The command line that was read of `pid`; `None` when it could not be.
    Cmdline { pid: i32, cmdline: Option<T> },
}

/// An event of the walk as mathematical values.
pub open spec fn walk_event(event: WalkEvent<String>) -> WalkEvent<Seq<char>> {
    match event {
        WalkEvent::Parent { ppid } => WalkEvent::Parent { ppid },
        WalkEvent::Cmdline { pid, cmdline } => WalkEvent::Cmdline {
            pid,
            cmdline: opt_text(cmdline),
        },
    }
}

/// One step of the walk. A parent is recorded, with its command line, unless
/// it is unknown or `init`, or enough ancestors are recorded; its own parent is
/// read next.
pub open spec fn walk_next(
    recorded: Seq<(i32, Seq<char>)>,
    event: WalkEvent<Seq<char>>,
) -> (Seq<(i32, Seq<char>)>, Step<WalkAction, ()>) {
    match event {
        WalkEvent::Parent { ppid } => (
            recorded,
            if ppid is Some && ppid->0 > 1 && recorded.len() < MAX_ANCESTRY_DEPTH {
                Step::Perform(WalkAction::ReadCmdline { pid: ppid->0 })
            } else {
                Step::Return(())
            },
        ),
        WalkEvent::Cmdline { pid, cmdline } => (
            recorded.push((pid, cmdline_or_unreadable(cmdline))),
            Step::Perform(WalkAction::ReadParent { pid }),
        ),
    }
}

/// The ancestors that a walk has recorded in the end, on a process table in
/// which `parent` and `cmdline` say what is read of each process.
pub open spec fn walked(
    parent: spec_fn(i32) -> Option<i32>,
    cmdline: spec_fn(i32) -> Option<Seq<char>>,
    recorded: Seq<(i32, Seq<char>)>,
    event: WalkEvent<Seq<char>>,
) -> Seq<(i32, Seq<char>)>
    decreases
            MAX_ANCESTRY_DEPTH + 1 - recorded.len(),
            (if event is Parent {
                1int
            } else {
                0int
            }),
    when event is Parent || recorded.len() < MAX_ANCESTRY_DEPTH
{
    let (after, step) = walk_next(recorded, event);
    match step {
        Step::Perform(WalkAction::ReadParent { pid }) => walked(
            parent,
            cmdline,
            after,
            WalkEvent::Parent { ppid: parent(pid) },
        ),
        Step::Perform(WalkAction::ReadCmdline { pid }) => walked(
            parent,
            cmdline,
            after,
            WalkEvent::Cmdline { pid, cmdline: cmdline(pid) },
        ),
        Step::Return(_) => after,
    }
}

/// The parent of the process that stands before place `i` in the chain.
pub open spec fn parent_before(
    parent: spec_fn(i32) -> Option<i32>,
    pid: i32,
    chain: Seq<(i32, Seq<char>)>,
    i: int,
) -> Option<i32> {
    if i == 0 {
        parent(pid)
    } else {
        parent(chain[i - 1].0)
    }
}

/// Whether `chain` goes up from `pid`, from each process to its parent, with
/// the command line of each, and without `init`.
pub open spec fn is_parent_chain(
    parent: spec_fn(i32) -> Option<i32>,
    cmdline: spec_fn(i32) -> Option<Seq<char>>,
    pid: i32,
    chain: Seq<(i32, Seq<char>)>,
) -> bool {
    forall|i: int|
        0 <= i < chain.len() ==> {
            &&& (#[trigger] chain[i]).0 > 1
            &&& parent_before(parent, pid, chain, i) == Some(chain[i].0)
            &&& chain[i].1 == cmdline_or_unreadable(cmdline(chain[i].0))
        }
}

/// The ancestry of a client is its chain of parents, excluding the client
/// itself: at most [`MAX_ANCESTRY_DEPTH`] of them, and fewer only when the
/// chain ends at an unknown parent or at `init`.
pub proof fn ancestry_is_the_parent_chain(
    parent: spec_fn(i32) -> Option<i32>,
    cmdline: spec_fn(i32) -> Option<Seq<char>>,
    pid: i32,
)
    ensures
        ({
            let first = WalkEvent::Parent { ppid: parent(pid) };
            let chain = walked(parent, cmdline, Seq::empty(), first);
            let above = parent_before(parent, pid, chain, chain.len() as int);
            &&& chain.len() <= MAX_ANCESTRY_DEPTH
            &&& is_parent_chain(parent, cmdline, pid, chain)
            &&& chain.len() < MAX_ANCESTRY_DEPTH ==> above is None || above->0 <= 1
        }),
{
    lemma_walked(parent, cmdline, pid, Seq::empty());
}

proof fn lemma_walked(
    parent: spec_fn(i32) -> Option<i32>,
    cmdline: spec_fn(i32) -> Option<Seq<char>>,
    pid: i32,
    recorded: Seq<(i32, Seq<char>)>,
)
    requires
        recorded.len() <= MAX_ANCESTRY_DEPTH,
        is_parent_chain(parent, cmdline, pid, recorded),
    ensures
        ({
            let cursor = parent_before(parent, pid, recorded, recorded.len() as int);
            let chain = walked(parent, cmdline, recorded, WalkEvent::Parent { ppid: cursor });
            let above = parent_before(parent, pid, chain, chain.len() as int);
            &&& chain.len() <= MAX_ANCESTRY_DEPTH
            &&& is_parent_chain(parent, cmdline, pid, chain)
            &&& chain.len() < MAX_ANCESTRY_DEPTH ==> above is None || above->0 <= 1
        }),
    decreases MAX_ANCESTRY_DEPTH - recorded.len(),
{
    let cursor = parent_before(parent, pid, recorded, recorded.len() as int);
    if cursor is Some && cursor->0 > 1 && recorded.len() < MAX_ANCESTRY_DEPTH {
        let p = cursor->0;
        let more = recorded.push((p, cmdline_or_unreadable(cmdline(p))));
        assert forall|i: int| 0 <= i < more.len() implies {
            &&& (#[trigger] more[i]).0 > 1
            &&& parent_before(parent, pid, more, i) == Some(more[i].0)
            &&& more[i].1 == cmdline_or_unreadable(cmdline(more[i].0))
        } by {
            if i < recorded.len() {
                assert(more[i] == recorded[i]);
            }
            if i > 0 {
                assert(more[i - 1] == recorded[i - 1]);
            }
        }
        lemma_walked(parent, cmdline, pid, more);
        let read = WalkEvent::Cmdline { pid: p, cmdline: cmdline(p) };
        assert(walked(parent, cmdline, recorded, WalkEvent::Parent { ppid: cursor }) == walked(
            parent,
            cmdline,
            recorded,
            read,
        ));
        assert(walked(parent, cmdline, recorded, read) == walked(
            parent,
            cmdline,
            more,
            WalkEvent::Parent { ppid: parent(p) },
        ));
    }
}

// ---------------------------------------------------------------------------
// Files of /proc
// ---------------------------------------------------------------------------
/// The name of a file that `/proc` holds about a process.
pub fn proc_file(pid: i32, file: &str) -> (path: String)
    ensures
        path@ == "/proc/"@ + decimal(pid as int) + seq!['/'] + file@,
{
    let mut path = String::new();
    path.append("/proc/");
    let number = decimal_string(pid as i64);
    path.append(number.as_str());
    path.push('/');
    path.append(file);
    proof {
        assert(path@ =~= "/proc/"@ + decimal(pid as int) + seq!['/'] + file@);
    }
    path
}

/// The command line that `raw`, the contents of `/proc/<pid>/cmdline`, stands
/// for: the arguments between zero bytes, empty ones left out, with a space
/// between neighbours. `None` when the file is empty, as it is for kernel
/// threads and zombies.
pub open spec fn cmdline_text(raw: Seq<u8>) -> Option<Seq<char>> {
    if raw.len() == 0 {
        None
    } else {
        Some(joined(arguments(raw).map_values(|a: Seq<u8>| utf8_lossy(a)), ' '))
    }
}

/// The arguments in `raw`: the stretches between zero bytes that are not empty.
pub open spec fn arguments(raw: Seq<u8>) -> Seq<Seq<u8>> {
    split_on(raw, 0u8).filter(|a: Seq<u8>| a.len() > 0)
}

/// Makes a command line out of the contents of `/proc/<pid>/cmdline`. It holds
/// no zero character.
pub fn cmdline_from_raw(raw: &[u8]) -> (cmdline: Option<String>)
    ensures
        opt_text(cmdline) == cmdline_text(raw@),
        cmdline matches Some(text) ==> !text@.contains('\0'),
{
    if raw.len() == 0 {
        return None;
    }
    let parts = split_bytes(raw, 0);
    let ghost split = split_on(raw@, 0u8);
    let ghost nonempty = |a: Seq<u8>| a.len() > 0;
    let ghost lossy = |a: Seq<u8>| utf8_lossy(a);
    let mut out = String::new();
    let mut first = true;
    let mut i: usize = 0;
    proof {
        split_parts_hold_no_separator(raw@, 0u8);
        reveal(Seq::filter);
        assert(split.take(0).filter(nonempty) == Seq::<Seq<u8>>::empty());
        assert(Seq::<Seq<u8>>::empty().map_values(lossy) == Seq::<Seq<char>>::empty());
    }
    while i < parts.len()
        invariant
            i <= parts@.len(),
            split == parts@.map_values(|p: Vec<u8>| p@),
            forall|j: int| 0 <= j < split.len() ==> !(#[trigger] split[j]).contains(0u8),
            !out@.contains('\0'),
            nonempty == (|a: Seq<u8>| a.len() > 0),
            lossy == (|a: Seq<u8>| utf8_lossy(a)),
            out@ == joined(split.take(i as int).filter(nonempty).map_values(lossy), ' '),
            first == (split.take(i as int).filter(nonempty).len() == 0),
        decreases parts@.len() - i,
    {
        let ghost kept = split.take(i as int).filter(nonempty);
        let ghost before = kept.map_values(lossy);
        proof {
            reveal(Seq::filter);
            assert(split.take(i + 1).drop_last() == split.take(i as int));
            assert(split.take(i + 1).last() == parts@[i as int]@);
        }
        if parts[i].len() > 0 {
            let text = lossy_string(parts[i].as_slice());
            let ghost so_far = out@;
            proof {
                assert(!split[i as int].contains(0u8));
                let now = kept.push(parts@[i as int]@);
                assert(split.take(i + 1).filter(nonempty) == now);
                let after = now.map_values(lossy);
                assert(after == before.push(text@));
                assert(after.drop_last() == before);
                assert(after.last() == text@);
            }
            if first {
                first = false;
                out = text;
            } else {
                out.push(' ');
                out.append(text.as_str());
                proof {
                    lemma_no_nul(so_far, text@);
                    assert(out@ =~= so_far.push(' ') + text@);
                }
            }
        }
        i += 1;
    }
    proof {
        assert(split.take(split.len() as int) == split);
    }
    Some(out)
}

proof fn lemma_no_nul(a: Seq<char>, b: Seq<char>)
    requires
        !a.contains('\0'),
        !b.contains('\0'),
    ensures
        !(a.push(' ') + b).contains('\0'),
{
    let both = a.push(' ') + b;
    if both.contains('\0') {
        let i = choose|i: int| 0 <= i < both.len() && both[i] == '\0';
        if i < a.len() {
            assert(a[i] == '\0');
        } else if i > a.len() {
            assert(b[i - a.len() - 1] == '\0');
        }
    }
}

/// Reading `/proc/<pid>/comm` is asked for.
#[derive(Debug)]
pub struct ReadComm;

/// Decides what the command line of a process is, from the contents of
/// `/proc/<pid>/cmdline`, or `None` when that file could not be read: nothing
/// without the file; its text; or, when it is empty, whatever
/// [`comm_from_raw`] makes of `/proc/<pid>/comm`, if that can be read.
pub fn cmdline_step(raw: Option<Vec<u8>>) -> (step: Step<ReadComm, Option<String>>)
    ensures
        raw is None ==> step == Step::<ReadComm, Option<String>>::Return(None),
        raw matches Some(bytes) ==> bytes@.len() > 0 ==> (step matches Step::Return(Some(text))
            && cmdline_text(bytes@) == Some(text@) && !text@.contains('\0')),
        raw matches Some(bytes) ==> bytes@.len() == 0 ==> step is Perform,
{
    match raw {
        None => Step::Return(None),
        Some(bytes) => match cmdline_from_raw(bytes.as_slice()) {
            Some(text) => Step::Return(Some(text)),
            None => Step::Perform(ReadComm),
        },
    }
}

/// The name of a process from the contents of `/proc/<pid>/comm`, which stands
/// in for an empty command line.
pub fn comm_from_raw(comm: &str) -> (name: String)
    ensures
        name@ == trimmed(comm@),
{
    let chars = chars_of(comm);
    let inner = trim(&chars);
    let name = string_of(&inner, 0, inner.len());
    proof {
        assert(inner@.subrange(0, inner@.len() as int) == inner@);
    }
    name
}

/// Whether a line of `/proc/<pid>/status` is the one that names the parent.
pub open spec fn is_ppid_line(line: Seq<char>) -> bool {
    line.len() >= 5 && line.take(5) == seq!['P', 'P', 'i', 'd', ':']
}

/// The parent named by the first line that names one, when that line holds a
/// number.
pub open spec fn ppid_in(lines: Seq<Seq<char>>) -> Option<i32>
    decreases lines.len(),
{
    if lines.len() == 0 {
        None
    } else if is_ppid_line(lines[0]) {
        parsed_i32(trimmed(lines[0].skip(5)))
    } else {
        ppid_in(lines.drop_first())
    }
}

/// Finds the parent process in the contents of `/proc/<pid>/status`.
pub fn ppid_from_status(status: &str) -> (ppid: Option<i32>)
    ensures
        ppid == ppid_in(split_on(status@, '\n')),
{
    let chars = chars_of(status);
    let lines = split_lines(&chars);
    let ghost split = split_on(status@, '\n');
    let mut i: usize = 0;
    proof {
        assert(split.skip(0) == split);
    }
    while i < lines.len()
        invariant
            i <= lines@.len(),
            split == split_on(status@, '\n'),
            split == lines@.map_values(|l: Vec<char>| l@),
            ppid_in(split) == ppid_in(split.skip(i as int)),
        decreases lines@.len() - i,
    {
        let line = &lines[i];
        proof {
            assert(split.skip(i as int)[0] == line@);
            assert(split.skip(i as int).drop_first() == split.skip(i + 1));
        }
        if line.len() >= 5 && line[0] == 'P' && line[1] == 'P' && line[2] == 'i' && line[3] == 'd'
            && line[4] == ':' {
            proof {
                assert(line@.take(5) =~= seq!['P', 'P', 'i', 'd', ':']);
            }
            let mut rest: Vec<char> = Vec::new();
            let mut j: usize = 5;
            while j < line.len()
                invariant
                    5 <= j <= line@.len(),
                    rest@ == line@.subrange(5, j as int),
                decreases line@.len() - j,
            {
                rest.push(line[j]);
                j += 1;
                proof {
                    assert(line@.subrange(5, j as int) == line@.subrange(5, j - 1).push(
                        line@[j - 1],
                    ));
                }
            }
            proof {
                assert(rest@ == line@.skip(5));
            }
            let number = trim(&rest);
            return parse_i32(&number);
        }
        proof {
            if is_ppid_line(line@) {
                let five = line@.take(5);
                assert(five[0] == 'P' && five[1] == 'P' && five[2] == 'i' && five[3] == 'd'
                    && five[4] == ':');
            }
        }
        i += 1;
    }
    None
}

/// The arguments of a process, as the kernel lays them out with a zero byte
/// after each, are the arguments that are found again. The zero byte after the
/// last one may be missing.
pub proof fn arguments_found_again(args: Seq<Seq<u8>>)
    requires
        args.len() > 0,
        forall|i: int|
            0 <= i < args.len() ==> (#[trigger] args[i]).len() > 0 && !args[i].contains(0u8),
    ensures
        arguments(joined(args, 0u8)) == args,
        arguments(joined(args, 0u8).push(0u8)) == args,
{
    let raw = joined(args, 0u8);
    let nonempty = |a: Seq<u8>| a.len() > 0;
    crate::text::split_undoes_join(args, 0u8);
    lemma_filter_all(args, nonempty);
    assert(raw.push(0u8).drop_last() == raw);
    let more = args.push(Seq::<u8>::empty());
    assert(split_on(raw.push(0u8), 0u8) == more);
    reveal(Seq::filter);
    assert(more.drop_last() == args);
}

proof fn lemma_filter_all<T>(s: Seq<T>, keep: spec_fn(T) -> bool)
    requires
        forall|i: int| 0 <= i < s.len() ==> keep(#[trigger] s[i]),
    ensures
        s.filter(keep) == s,
    decreases s.len(),
{
    reveal(Seq::filter);
    if s.len() > 0 {
        let front = s.drop_last();
        assert forall|i: int| 0 <= i < front.len() implies keep(#[trigger] front[i]) by {
            assert(keep(s[i]));
        }
        lemma_filter_all(front, keep);
        assert(keep(s[s.len() - 1]));
        assert(front.push(s.last()) == s);
    }
}

/// The parent that a status file names is the parent that is found: the line
/// `PPid:` with a tab and the number, after any lines that name no parent.
pub proof fn ppid_found_again(lines: Seq<Seq<char>>, k: int, n: i32)
    requires
        0 <= k < lines.len(),
        forall|i: int| 0 <= i < lines.len() ==> !(#[trigger] lines[i]).contains('\n'),
        forall|i: int| 0 <= i < k ==> !is_ppid_line(#[trigger] lines[i]),
        lines[k] == seq!['P', 'P', 'i', 'd', ':', '\t'] + decimal(n as int),
    ensures
        ppid_in(split_on(joined(lines, '\n'), '\n')) == Some(n),
{
    crate::text::split_undoes_join(lines, '\n');
    let line = lines[k];
    assert(line.take(5) =~= seq!['P', 'P', 'i', 'd', ':']);
    lemma_ppid_at(lines, k);
    let rest = line.skip(5);
    let number = decimal(n as int);
    assert(rest =~= seq!['\t'] + number);
    assert(rest.drop_first() =~= number);
    crate::text::decimal_has_no_space(n as int);
    assert(!white_space(number[0]));
    assert(crate::text::trimmed_start(number) == number);
    assert(crate::text::trimmed_start(rest) == number);
    assert(!white_space(number.last()));
    assert(trimmed(rest) == number);
    crate::text::decimal_parses_back(n);
}

proof fn lemma_ppid_at(lines: Seq<Seq<char>>, k: int)
    requires
        0 <= k < lines.len(),
        forall|i: int| 0 <= i < k ==> !is_ppid_line(#[trigger] lines[i]),
        is_ppid_line(lines[k]),
    ensures
        ppid_in(lines) == parsed_i32(trimmed(lines[k].skip(5))),
    decreases k,
{
    if k > 0 {
        assert(!is_ppid_line(lines[0]));
        let rest = lines.drop_first();
        assert forall|i: int| 0 <= i < k - 1 implies !is_ppid_line(#[trigger] rest[i]) by {
            assert(!is_ppid_line(lines[i + 1]));
        }
        lemma_ppid_at(rest, k - 1);
    }
}

// ---------------------------------------------------------------------------
// What is shown and what is read
// ---------------------------------------------------------------------------
/// A process is shown as its number and, in brackets, its command line: the
/// whole of it when it takes at most 80 bytes.
pub proof fn process_is_shown_with_its_command_line(pid: i32, cmdline: Seq<char>)
    ensures
        process_text(pid, cmdline) == decimal(pid as int) + seq!['('] + truncated(cmdline, 80)
            + seq![')'],
        encode_utf8(cmdline).len() <= 80 ==> process_text(pid, cmdline) == decimal(pid as int)
            + seq!['('] + cmdline + seq![')'],
{
}

/// The displayed peer without ancestors: the process and its user.
pub proof fn peer_is_shown_with_its_user(peer: PeerInfo)
    requires
        peer.ancestry@.len() == 0,
    ensures
        peer.display_text() == "pid="@ + process_text(peer.pid, peer.cmdline@) + " uid="@ + decimal(
            peer.uid as int,
        ),
{
    assert(peer.ancestors() =~= Seq::<(i32, Seq<char>)>::empty());
    let head = "pid="@ + process_text(peer.pid, peer.cmdline@) + " uid="@ + decimal(
        peer.uid as int,
    );
    assert(head + Seq::<char>::empty() =~= head);
}

/// Every recorded ancestor is shown, in order: one more ancestor extends the
/// displayed text by a left arrow and that process, however many there are.
pub proof fn one_more_ancestor_is_shown(peer: PeerInfo, more: PeerInfo)
    requires
        more.pid == peer.pid,
        more.uid == peer.uid,
        more.cmdline@ == peer.cmdline@,
        more.ancestry@.len() == peer.ancestry@.len() + 1,
        forall|i: int|
            0 <= i < peer.ancestry@.len() ==> (#[trigger] more.ancestry@[i]).0
                == peer.ancestry@[i].0 && more.ancestry@[i].1@ == peer.ancestry@[i].1@,
    ensures
        more.display_text() == peer.display_text() + seq![' ', '\u{2190}', ' '] + process_text(
            more.ancestry@.last().0,
            more.ancestry@.last().1@,
        ),
{
    let last = more.ancestry@.last();
    assert(more.ancestors().drop_last() =~= peer.ancestors());
    assert(more.ancestors().last() == (last.0, last.1@));
    assert(more.display_text() =~= peer.display_text() + seq![' ', '\u{2190}', ' '] + process_text(
        last.0,
        last.1@,
    ));
}

/// The ancestors of a peer are the recorded ones, each with its number and its
/// command line.
pub proof fn ancestors_are_the_recorded_ones(peer: PeerInfo)
    ensures
        peer.ancestors().len() == peer.ancestry@.len(),
        forall|i: int|
            0 <= i < peer.ancestry@.len() ==> #[trigger] peer.ancestors()[i] == (
                peer.ancestry@[i].0,
                peer.ancestry@[i].1@,
            ),
{
}

/// A command line is recorded as it was read, and one that could not be read as
/// `<unreadable>`; so is every step of the walk.
pub proof fn walk_records_what_is_read(
    recorded: Seq<(i32, Seq<char>)>,
    pid: i32,
    cmdline: Option<String>,
    ppid: Option<i32>,
)
    ensures
        cmdline_or_unreadable(None) == "<unreadable>"@,
        opt_text(None) is None,
        cmdline matches Some(text) ==> opt_text(cmdline) == Some(text@) && cmdline_or_unreadable(
            opt_text(cmdline),
        ) == text@,
        walk_event(WalkEvent::Parent { ppid }) == (WalkEvent::<Seq<char>>::Parent { ppid }),
        walk_event(WalkEvent::Cmdline { pid, cmdline }) == (WalkEvent::Cmdline {
            pid,
            cmdline: opt_text(cmdline),
        }),
        ({
            let (after, step) = walk_next(recorded, walk_event(WalkEvent::Cmdline { pid, cmdline }));
            &&& after == recorded.push(
                (
                    pid,
                    match cmdline {
                        Some(text) => text@,
                        None => "<unreadable>"@,
                    },
                ),
            )
            &&& step == Step::<WalkAction, ()>::Perform(WalkAction::ReadParent { pid })
        }),
        ({
            let (after, step) = walk_next(recorded, walk_event(WalkEvent::Parent { ppid }));
            &&& after == recorded
            &&& ppid is Some && ppid->0 > 1 && recorded.len() < 5 ==> step == Step::<
                WalkAction,
                (),
            >::Perform(WalkAction::ReadCmdline { pid: ppid->0 })
            &&& ppid is None || ppid->0 <= 1 || recorded.len() >= 5 ==> step == Step::<
                WalkAction,
                (),
            >::Return(())
        }),
{
}

/// Text that does not fit into nothing becomes the ellipsis alone.
pub proof fn truncated_to_nothing(s: Seq<char>)
    requires
        s.len() > 0,
    ensures
        truncated(s, 0) == seq!['\u{2026}'],
{
    lemma_encode_first(s);
    assert(s.take(0).push('\u{2026}') =~= seq!['\u{2026}']);
}

/// The arguments on both sides of a zero byte are the arguments of both sides;
/// bytes without one are a single argument, unless there are none.
pub proof fn arguments_around_a_zero_byte(a: Seq<u8>, b: Seq<u8>)
    ensures
        arguments(a + seq![0u8] + b) == arguments(a) + arguments(b),
        !a.contains(0u8) ==> arguments(a) == (if a.len() == 0 {
            Seq::<Seq<u8>>::empty()
        } else {
            seq![a]
        }),
{
    let nonempty = |p: Seq<u8>| p.len() > 0;
    crate::text::split_around_a_separator(a, b, 0u8);
    lemma_filter_concat(split_on(a, 0u8), split_on(b, 0u8), nonempty);
    if !a.contains(0u8) {
        crate::text::joining_one_more(Seq::empty(), a, 0u8);
        crate::text::split_undoes_join(seq![a], 0u8);
        reveal(Seq::filter);
        assert(seq![a].drop_last() =~= Seq::<Seq<u8>>::empty());
        assert(Seq::<Seq<u8>>::empty().filter(nonempty) =~= Seq::<Seq<u8>>::empty());
        assert(seq![a].filter(nonempty) =~= (if a.len() == 0 {
            Seq::<Seq<u8>>::empty()
        } else {
            seq![a]
        }));
    }
}

proof fn lemma_filter_concat<T>(a: Seq<T>, b: Seq<T>, keep: spec_fn(T) -> bool)
    ensures
        (a + b).filter(keep) == a.filter(keep) + b.filter(keep),
    decreases b.len(),
{
    reveal(Seq::filter);
    if b.len() == 0 {
        assert(a + b =~= a);
        assert(a.filter(keep) + b.filter(keep) =~= a.filter(keep));
    } else {
        lemma_filter_concat(a, b.drop_last(), keep);
        assert((a + b).drop_last() =~= a + b.drop_last());
        assert((a + b).filter(keep) =~= a.filter(keep) + b.filter(keep));
    }
}

/// A command line shows every argument: none of an empty file; the decoded
/// argument where there is one; and otherwise the arguments on both sides of a
/// zero byte with a space between them.
pub proof fn command_line_shows_every_argument(a: Seq<u8>, b: Seq<u8>)
    ensures
        cmdline_text(Seq::<u8>::empty()) is None,
        a.len() > 0 && !a.contains(0u8) ==> cmdline_text(a) == Some(utf8_lossy(a)),
        a.len() > 0 && arguments(a).len() == 0 ==> cmdline_text(a) == Some(Seq::<char>::empty()),
        arguments(a).len() > 0 && b.len() > 0 && !b.contains(0u8) ==> cmdline_text(
            a + seq![0u8] + b,
        ) == Some(cmdline_text(a)->0 + seq![' '] + utf8_lossy(b)),
        a.len() > 0 ==> cmdline_text(a.push(0u8)) == cmdline_text(a),
{
    let lossy = |p: Seq<u8>| utf8_lossy(p);
    arguments_around_a_zero_byte(a, b);
    arguments_around_a_zero_byte(b, a);
    arguments_around_a_zero_byte(a, Seq::empty());
    arguments_around_a_zero_byte(Seq::empty(), a);
    let args = arguments(a);
    let texts = args.map_values(lossy);
    crate::text::joining_one_more(texts, utf8_lossy(b), ' ');
    crate::text::joining_one_more(Seq::empty(), utf8_lossy(a), ' ');
    assert(a + seq![0u8] + Seq::<u8>::empty() =~= a.push(0u8));
    assert(args + Seq::<Seq<u8>>::empty() =~= args);
    assert(seq![a].map_values(lossy) =~= seq![utf8_lossy(a)]);
    assert(Seq::<Seq<u8>>::empty().map_values(lossy) =~= Seq::<Seq<char>>::empty());
    if args.len() == 0 {
        assert(texts =~= Seq::<Seq<char>>::empty());
    }
    assert((args + seq![b]).map_values(lossy) =~= texts.push(utf8_lossy(b)));
    if args.len() > 0 && a.len() == 0 {
        assert(!a.contains(0u8));
    }
}

/// The first line that begins with `PPid:` decides, whatever it holds and
/// whatever follows; without such a line there is no parent.
pub proof fn first_ppid_line_decides(before: Seq<Seq<char>>, rest: Seq<char>, after: Seq<Seq<char>>)
    requires
        forall|i: int|
            0 <= i < before.len() ==> !seq!['P', 'P', 'i', 'd', ':'].is_prefix_of(
                #[trigger] before[i],
            ),
    ensures
        ppid_in(before) is None,
        ppid_in(before.push(seq!['P', 'P', 'i', 'd', ':'] + rest) + after) == parsed_i32(
            trimmed(rest),
        ),
{
    let mark = seq!['P', 'P', 'i', 'd', ':'];
    let lines = before.push(mark + rest) + after;
    let k = before.len() as int;
    assert forall|i: int| 0 <= i < before.len() implies !is_ppid_line(#[trigger] before[i]) by {
        assert(!mark.is_prefix_of(before[i]));
        if is_ppid_line(before[i]) {
            assert(mark =~= before[i].subrange(0, 5));
            assert(before[i].take(5) =~= before[i].subrange(0, 5));
        }
    }
    assert forall|i: int| 0 <= i < k implies !is_ppid_line(#[trigger] lines[i]) by {
        assert(lines[i] == before[i]);
    }
    assert(lines[k] == mark + rest);
    assert((mark + rest).take(5) =~= mark);
    assert((mark + rest).skip(5) =~= rest);
    lemma_ppid_at(lines, k);
    lemma_no_ppid(before);
}

proof fn lemma_no_ppid(lines: Seq<Seq<char>>)
    requires
        forall|i: int| 0 <= i < lines.len() ==> !is_ppid_line(#[trigger] lines[i]),
    ensures
        ppid_in(lines) is None,
    decreases lines.len(),
{
    if lines.len() > 0 {
        let rest = lines.drop_first();
        assert(!is_ppid_line(lines[0]));
        assert forall|i: int| 0 <= i < rest.len() implies !is_ppid_line(#[trigger] rest[i]) by {
            assert(!is_ppid_line(lines[i + 1]));
        }
        lemma_no_ppid(rest);
    }
}

} // verus!
