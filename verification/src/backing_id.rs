//! The privileged server: what it does with the messages that it receives.
//!
//! It opens files on behalf of the view, but only those on the whitelist, and registers
//! them as backing files. Reading and sending are up to the caller.

use vstd::prelude::*;
use vstd::slice::{slice_subrange, slice_to_vec};

use crate::filesystem::{answered_id, OpenAnswer};
use crate::filter::FileView;
use crate::ipc::{
    build_response, close_id, close_request, encodes, law_close_request_round_trip,
    law_ids_stand_in_four_bytes, law_paths_round_trip, law_response_round_trip, le_bytes,
    open_request, parse_close_request, response, serialized, tag_byte, Tag,
};
use crate::order::keys;
use crate::path::components;
use crate::tree::{file_keys, file_paths, is_tree_of, node_key, NodeView};
use crate::whitelist::Whitelist;

verus! {

/// The error number for a path that is not on the whitelist.
pub const EACCES: u8 = 13;

/// The error number for a failure that has no number of its own.
pub const EIO: u8 = 5;

/// What came of waiting for a message.
pub enum RecvEvent {
    /// A message.
    Message(Vec<u8>),
    /// No message in time.
    TimedOut,
    /// The wait failed.
    Failed,
}

/// What is known of the process of the view.
#[derive(Clone, Copy, Debug, PartialEq, Eq, Structural)]
pub enum ChildStatus {
    Exited,
    Signaled,
    Running,
    Unknown,
}

/// What the server does next.
pub enum ServerStep {
    /// End.
    Stop,
    /// See whether the process of the view is still there.
    CheckChild,
    /// Wait for the next message.
    Receive,
    /// Handle a request to open a file; the data is what follows the tag.
    Open(Vec<u8>),
    /// Handle a request to close a backing id; the data is what follows the tag.
    Close(Vec<u8>),
    /// Disregard a message with this tag.
    Unknown(u8),
}

/// What the server does when a wait for a message is over. An empty message means that the
/// view is gone.
pub fn run_event_loop(event: &RecvEvent) -> (r: ServerStep)
    ensures
        match *event {
            RecvEvent::Failed => r is Stop,
            RecvEvent::TimedOut => r is CheckChild,
            RecvEvent::Message(msg) => if msg@.len() == 0 {
                r is Stop
            } else if msg@[0] == tag_byte(Tag::Open) {
                r matches ServerStep::Open(data) && data@ == msg@.skip(1)
            } else if msg@[0] == tag_byte(Tag::Close) {
                r matches ServerStep::Close(data) && data@ == msg@.skip(1)
            } else {
                r == ServerStep::Unknown(msg@[0])
            },
        },
{
    match event {
        RecvEvent::Failed => ServerStep::Stop,
        RecvEvent::TimedOut => ServerStep::CheckChild,
        RecvEvent::Message(msg) => {
            if msg.len() == 0 {
                return ServerStep::Stop;
            }
            let data = slice_to_vec(slice_subrange(msg.as_slice(), 1, msg.len()));
            assert(data@ =~= msg@.skip(1));
            match Tag::try_from(msg[0]) {
                Ok(Tag::Open) => ServerStep::Open(data),
                Ok(Tag::Close) => ServerStep::Close(data),
                Err(tag) => ServerStep::Unknown(tag),
            }
        },
    }
}

/// What the server does when it has seen to the process of the view: it ends with it, and
/// where it cannot tell.
pub fn child_step(status: ChildStatus) -> (r: ServerStep)
    ensures
        status == ChildStatus::Running ==> r is Receive,
        status != ChildStatus::Running ==> r is Stop,
{
    match status {
        ChildStatus::Exited => ServerStep::Stop,
        ChildStatus::Signaled => ServerStep::Stop,
        ChildStatus::Running => ServerStep::Receive,
        ChildStatus::Unknown => ServerStep::Stop,
    }
}

/// What the server does about a request to open a file.
pub enum OpenAction {
    /// Send this answer.
    Respond([u8; 5]),
    /// Open the file at this path for reading, a link in its place not followed.
    OpenFile(Vec<u8>),
    /// Register the opened file as a backing file.
    CreateBackingId,
}

/// The answer to a request for a path that is not on the whitelist.
pub open spec fn refusal() -> Seq<u8> {
    response(EACCES, 0)
}

/// The answer where opening fails: the error number, its lowest byte, or `EIO` where there
/// is none.
pub open spec fn open_failure(errno: Option<i32>) -> Seq<u8> {
    response(
        match errno {
            Some(e) => e as u8,
            None => EIO,
        },
        0,
    )
}

/// The answer once the file is open: the backing id, or `EIO` where there is none.
pub open spec fn backing_answer(result: Option<u32>) -> Seq<u8> {
    match result {
        Some(id) => response(0, id),
        None => response(EIO, 0),
    }
}

/// Handles a request to open a file: only what is on the whitelist is opened.
pub fn handle_open(allowed: &Whitelist, data: &[u8]) -> (r: OpenAction)
    ensures
        match r {
            OpenAction::Respond(resp) => !allowed@.contains(components(data@)) && resp@ == refusal(),
            OpenAction::OpenFile(path) => allowed@.contains(components(data@)) && path@ == data@,
            OpenAction::CreateBackingId => false,
        },
{
    if !allowed.contains(data) {
        return OpenAction::Respond(build_response(EACCES, 0));
    }
    OpenAction::OpenFile(slice_to_vec(data))
}

/// Goes on when the file has been opened, or has not: then the error number is answered.
pub fn file_opened(result: Result<(), Option<i32>>) -> (r: OpenAction)
    ensures
        match result {
            Ok(_) => r is CreateBackingId,
            Err(errno) => r matches OpenAction::Respond(resp) && resp@ == open_failure(errno),
        },
{
    match result {
        Ok(_) => OpenAction::CreateBackingId,
        Err(Some(e)) => OpenAction::Respond(
            build_response(#[verifier::truncate] (e as u8), 0),
        ),
        Err(None) => OpenAction::Respond(build_response(EIO, 0)),
    }
}

/// Answers when the backing file has been registered, or has not.
pub fn backing_id_created(result: Option<u32>) -> (resp: [u8; 5])
    ensures
        resp@ == backing_answer(result),
{
    match result {
        Some(id) => build_response(0, id),
        None => build_response(EIO, 0),
    }
}

/// Handles a request to close: the backing id to close, or the length of a message that
/// holds none.
pub fn handle_close(data: &[u8]) -> (r: Result<u32, usize>)
    ensures
        r == match close_id(data@) {
            Some(id) => Ok(id),
            None => Err(data@.len() as usize),
        },
{
    match parse_close_request(data) {
        Some(id) => Ok(id),
        None => Err(data.len()),
    }
}

/// A request that the view builds for a path is taken as a request for that path.
pub proof fn law_open_request_is_understood(path: Seq<u8>)
    ensures
        open_request(path).len() > 0,
        open_request(path)[0] == tag_byte(Tag::Open),
        open_request(path).skip(1) == path,
{
    assert(open_request(path).skip(1) =~= path);
}

/// A request that the view builds to give up a backing id is taken as a request to close
/// that id.
pub proof fn law_close_request_is_understood(id: u32)
    ensures
        close_request(id).len() > 0,
        close_request(id)[0] == tag_byte(Tag::Close),
        close_request(id)[0] != tag_byte(Tag::Open),
        close_id(close_request(id).skip(1)) == Some(id),
{
    law_close_request_round_trip(id);
}

/// A path that is not on the whitelist is refused, and the view fails to open the file with
/// the number for that.
pub proof fn law_refusal_reaches_the_view(buf: [u8; 5])
    requires
        buf@ == refusal(),
    ensures
        answered_id(OpenAnswer::Received { len: 5, buf }) == Err::<u32, i32>(EACCES as i32),
{
    law_response_round_trip(EACCES, 0);
}

/// Where the server cannot open a file, the view fails with the same error number. This is
/// said of numbers that fit a byte, as those for opening files do.
pub proof fn law_open_error_reaches_the_view(buf: [u8; 5], errno: i32)
    requires
        buf@ == open_failure(Some(errno)),
        0 < errno < 256,
    ensures
        answered_id(OpenAnswer::Received { len: 5, buf }) == Err::<u32, i32>(errno),
{
    law_response_round_trip(errno as u8, 0);
}

/// Where the server fails without an error number, or cannot register the file, the view
/// fails with `EIO`.
pub proof fn law_failure_reaches_the_view(buf: [u8; 5])
    requires
        buf@ == open_failure(None) || buf@ == backing_answer(None),
    ensures
        answered_id(OpenAnswer::Received { len: 5, buf }) == Err::<u32, i32>(EIO as i32),
{
    law_response_round_trip(EIO, 0);
}

/// The view gets the backing id that the server has registered.
pub proof fn law_backing_id_reaches_the_view(buf: [u8; 5], id: u32)
    requires
        buf@ == backing_answer(Some(id)),
    ensures
        answered_id(OpenAnswer::Received { len: 5, buf }) == Ok::<u32, i32>(id),
{
    law_response_round_trip(0, id);
}

/// The server opens what the view shows of the files, and nothing else: with the paths of
/// the files sent as the whitelist, and whatever list is read from that message, the path
/// of a node is allowed just where it is the path of one of the files.
pub proof fn law_server_opens_the_files(
    t: Seq<NodeView>,
    files: Seq<FileView>,
    sent: Seq<Seq<u8>>,
    n: int,
)
    requires
        is_tree_of(t, files),
        files.len() <= 0xffff_ffff,
        forall|i: int| 0 <= i < files.len() ==> (#[trigger] files[i]).path.len() <= 0xffff_ffff,
        encodes(serialized(file_paths(files)), sent),
        0 <= n < t.len(),
    ensures
        keys(sent).to_set().contains(components(t[n].path)) <==> exists|i: int|
            0 <= i < files.len() && components((#[trigger] files[i]).path) == node_key(t, n),
{
    let paths = file_paths(files);
    assert forall|i: int| 0 <= i < paths.len() implies (#[trigger] paths[i]).len()
        <= 0xffff_ffff by {
        assert(paths[i] == files[i].path);
    }
    law_paths_round_trip(paths, Seq::empty());
    assert(serialized(paths) + Seq::<u8>::empty() =~= serialized(paths));
    assert(sent == paths);
    let k = file_keys(files);
    if k.contains(node_key(t, n)) {
        let i = choose|i: int| 0 <= i < k.len() && k[i] == node_key(t, n);
        assert(components(files[i].path) == node_key(t, n));
    }
    if exists|i: int|
        0 <= i < files.len() && components((#[trigger] files[i]).path) == node_key(t, n) {
        let i = choose|i: int|
            0 <= i < files.len() && components((#[trigger] files[i]).path) == node_key(t, n);
        assert(k[i] == node_key(t, n));
    }
}

/// The bytes of the answers: a refusal and a failure hold their error number and no id, and a
/// success holds a zero and the id, each byte of which counts by its place.
pub proof fn law_answers_hold_what_they_say(errno: i32, id: u32)
    ensures
        refusal() == seq![13u8, 0, 0, 0, 0],
        open_failure(None) == seq![5u8, 0, 0, 0, 0],
        backing_answer(None) == seq![5u8, 0, 0, 0, 0],
        open_failure(Some(errno)) == seq![errno as u8, 0, 0, 0, 0],
        backing_answer(Some(id)).len() == 5,
        backing_answer(Some(id))[0] == 0,
        id == backing_answer(Some(id))[1] + 256 * backing_answer(Some(id))[2] + 65536
            * backing_answer(Some(id))[3] + 16777216 * backing_answer(Some(id))[4],
{
    assert(le_bytes(0) =~= seq![0u8, 0, 0, 0]);
    assert(refusal() =~= seq![13u8, 0, 0, 0, 0]);
    assert(open_failure(None) =~= seq![5u8, 0, 0, 0, 0]);
    assert(backing_answer(None) =~= seq![5u8, 0, 0, 0, 0]);
    assert(open_failure(Some(errno)) =~= seq![errno as u8, 0, 0, 0, 0]);
    law_ids_stand_in_four_bytes(0, id);
}

} // verus!
