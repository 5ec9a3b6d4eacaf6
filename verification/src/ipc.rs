//! The messages between the unprivileged view and the privileged server.
//!
//! The view first sends the whitelist of paths. After that it asks for a backing file
//! (`Open`) or gives one up (`Close`); an `Open` is answered with an error number and
//! a backing id.

use vstd::prelude::*;
use vstd::slice::{slice_subrange, slice_to_vec};

use crate::order::keys;
use crate::whitelist::Whitelist;

verus! {

/// The four bytes of a number, the lowest first.
pub open spec fn le_bytes(v: u32) -> Seq<u8> {
    seq![
        (v % 256) as u8,
        (v / 256 % 256) as u8,
        (v / 65536 % 256) as u8,
        (v / 16777216) as u8,
    ]
}

/// The number whose four bytes these are.
pub open spec fn le_value(b: Seq<u8>) -> u32 {
    (b[0] + 256 * b[1] + 65536 * b[2] + 16777216 * b[3]) as u32
}

/// A number is read back from its bytes.
pub proof fn lemma_le_value_of_bytes(v: u32)
    ensures
        le_value(le_bytes(v)) == v,
        le_bytes(v).len() == 4,
{
}

/// Four bytes are written back from their number.
pub proof fn lemma_le_bytes_of_value(b: Seq<u8>)
    requires
        b.len() == 4,
    ensures
        le_bytes(le_value(b)) == b,
{
    let (b0, b1, b2, b3) = (b[0] as int, b[1] as int, b[2] as int, b[3] as int);
    let v = le_value(b) as int;
    assert(v == b0 + 256 * (b1 + 256 * (b2 + 256 * b3)));
    assert(v / 256 == b1 + 256 * (b2 + 256 * b3));
    assert(v / 65536 == b2 + 256 * b3);
    assert(v / 16777216 == b3);
    assert(le_bytes(le_value(b)) =~= b);
}

fn to_le_bytes(v: u32) -> (r: [u8; 4])
    ensures
        r@ == le_bytes(v),
{
    let r = [
        (v % 256) as u8,
        (v / 256 % 256) as u8,
        (v / 65536 % 256) as u8,
        (v / 16777216) as u8,
    ];
    assert(r@ =~= le_bytes(v));
    r
}

fn from_le_bytes(b: &[u8]) -> (v: u32)
    requires
        b@.len() == 4,
    ensures
        v == le_value(b@),
{
    b[0] as u32 + 256 * (b[1] as u32) + 65536 * (b[2] as u32) + 16777216 * (b[3] as u32)
}

/// What a request asks for; its first byte.
#[derive(Clone, Copy, Debug, PartialEq, Eq, Structural)]
pub enum Tag {
    Open,
    Close,
}

/// The byte that stands for a tag.
pub open spec fn tag_byte(tag: Tag) -> u8 {
    match tag {
        Tag::Open => 0,
        Tag::Close => 1,
    }
}

impl Tag {
    /// The byte that stands for the tag.
    pub fn byte(self) -> (r: u8)
        ensures
            r == tag_byte(self),
    {
        match self {
            Tag::Open => 0,
            Tag::Close => 1,
        }
    }
}

impl TryFrom<u8> for Tag {
    type Error = u8;

    fn try_from(v: u8) -> (r: Result<Self, u8>) {
        match v {
            0 => Ok(Tag::Open),
            1 => Ok(Tag::Close),
            _ => Err(v),
        }
    }
}

impl vstd::std_specs::convert::TryFromSpecImpl<u8> for Tag {
    open spec fn obeys_try_from_spec() -> bool {
        true
    }

    open spec fn try_from_spec(v: u8) -> Result<Self, u8> {
        if v == tag_byte(Tag::Open) {
            Ok(Tag::Open)
        } else if v == tag_byte(Tag::Close) {
            Ok(Tag::Close)
        } else {
            Err(v)
        }
    }
}

/// A request for a backing file: the tag, then the path.
pub open spec fn open_request(path: Seq<u8>) -> Seq<u8> {
    seq![tag_byte(Tag::Open)] + path
}

/// A request to give up a backing id: the tag, then the id.
pub open spec fn close_request(backing_id: u32) -> Seq<u8> {
    seq![tag_byte(Tag::Close)] + le_bytes(backing_id)
}

/// The answer to an open request: the error number, then the backing id.
pub open spec fn response(errno: u8, backing_id: u32) -> Seq<u8> {
    seq![errno] + le_bytes(backing_id)
}

/// What an answer says: the backing id, or the error number if that is not zero.
pub open spec fn open_response(buf: Seq<u8>) -> Result<u32, u8> {
    if buf[0] != 0 {
        Err(buf[0])
    } else {
        Ok(le_value(buf.subrange(1, 5)))
    }
}

/// The backing id in a close request, the tag taken off.
pub open spec fn close_id(data: Seq<u8>) -> Option<u32> {
    if data.len() == 4 {
        Some(le_value(data))
    } else {
        None
    }
}

/// The paths of a list, as byte strings.
pub open spec fn views(paths: Seq<Vec<u8>>) -> Seq<Seq<u8>> {
    Seq::new(paths.len(), |i: int| paths[i]@)
}

/// The paths one behind the other, each after its length.
pub open spec fn path_records(paths: Seq<Seq<u8>>) -> Seq<u8>
    decreases paths.len(),
{
    if paths.len() == 0 {
        Seq::empty()
    } else {
        path_records(paths.drop_last()) + le_bytes(paths.last().len() as u32) + paths.last()
    }
}

/// A list of paths as a message: how many there are, then each after its length.
pub open spec fn serialized(paths: Seq<Seq<u8>>) -> Seq<u8> {
    le_bytes(paths.len() as u32) + path_records(paths)
}

/// Every count and length in the message fits its four bytes.
pub open spec fn countable(paths: Seq<Seq<u8>>) -> bool {
    &&& paths.len() <= u32::MAX
    &&& forall|i: int| 0 <= i < paths.len() ==> (#[trigger] paths[i]).len() <= u32::MAX
}

/// The data starts with the message for this list of paths.
pub open spec fn encodes(data: Seq<u8>, paths: Seq<Seq<u8>>) -> bool {
    countable(paths) && serialized(paths).is_prefix_of(data)
}

proof fn lemma_path_records_prefix(paths: Seq<Seq<u8>>, k: int)
    requires
        0 <= k <= paths.len(),
    ensures
        path_records(paths.take(k)).is_prefix_of(path_records(paths)),
    decreases paths.len(),
{
    if k == paths.len() {
        assert(paths.take(k) =~= paths);
    } else {
        assert(paths.drop_last().take(k) =~= paths.take(k));
        lemma_path_records_prefix(paths.drop_last(), k);
    }
}

/// Where the `k`-th path lies in data that encodes a list.
proof fn lemma_path_record_at(data: Seq<u8>, paths: Seq<Seq<u8>>, k: int)
    requires
        encodes(data, paths),
        0 <= k < paths.len(),
    ensures
        ({
            let at = 4 + path_records(paths.take(k)).len() as int;
            let n = paths[k].len();
            &&& at + 4 + n <= data.len()
            &&& le_value(data.subrange(at, at + 4)) == n
            &&& data.subrange(at + 4, at + 4 + n) == paths[k]
        }),
{
    let head = paths.take(k);
    let at = 4 + path_records(head).len() as int;
    let n = paths[k].len();
    let upto = paths.take(k + 1);
    lemma_path_records_prefix(paths, k + 1);
    lemma_le_value_of_bytes(paths.len() as u32);
    lemma_le_value_of_bytes(n as u32);
    assert(upto.drop_last() =~= head);
    assert(upto.last() == paths[k]);
    let r = path_records(upto);
    assert(r == path_records(head) + le_bytes(n as u32) + paths[k]);
    let all = serialized(paths);
    assert forall|i: int| 0 <= i < r.len() implies #[trigger] r[i] == data[4 + i] by {
        assert(r[i] == path_records(paths)[i]);
        assert(all[4 + i] == path_records(paths)[i]);
    }
    let len_bytes = data.subrange(at, at + 4);
    let path = data.subrange(at + 4, at + 4 + n);
    let skipped = path_records(head).len() as int;
    assert forall|i: int| 0 <= i < 4 implies #[trigger] len_bytes[i] == le_bytes(n as u32)[i] by {
        assert(r[skipped + i] == le_bytes(n as u32)[i]);
    }
    assert(len_bytes =~= le_bytes(n as u32));
    assert forall|i: int| 0 <= i < n implies #[trigger] path[i] == paths[k][i] by {
        assert(r[skipped + 4 + i] == paths[k][i]);
    }
    assert(path =~= paths[k]);
}

/// How many paths data that encodes a list starts with.
proof fn lemma_path_count(data: Seq<u8>, paths: Seq<Seq<u8>>)
    requires
        encodes(data, paths),
    ensures
        data.len() >= 4,
        le_value(data.subrange(0, 4)) == paths.len(),
{
    let all = serialized(paths);
    lemma_le_value_of_bytes(paths.len() as u32);
    assert(data.subrange(0, 4) =~= le_bytes(paths.len() as u32)) by {
        assert forall|i: int| 0 <= i < 4 implies data[i] == le_bytes(paths.len() as u32)[i] by {
            assert(all[i] == data[i]);
        }
    }
}

/// No data encodes two lists of paths.
pub proof fn law_encoding_is_unique(data: Seq<u8>, p: Seq<Seq<u8>>, q: Seq<Seq<u8>>)
    requires
        encodes(data, p),
        encodes(data, q),
    ensures
        p == q,
{
    lemma_path_count(data, p);
    lemma_path_count(data, q);
    assert forall|k: int| 0 <= k <= p.len() implies p.take(k) == #[trigger] q.take(k) by {
        lemma_encoding_agrees(data, p, q, k);
    }
    assert(p.take(p.len() as int) =~= p);
    assert(q.take(p.len() as int) =~= q);
}

proof fn lemma_encoding_agrees(data: Seq<u8>, p: Seq<Seq<u8>>, q: Seq<Seq<u8>>, k: int)
    requires
        encodes(data, p),
        encodes(data, q),
        p.len() == q.len(),
        0 <= k <= p.len(),
    ensures
        p.take(k) == q.take(k),
    decreases k,
{
    if k == 0 {
        assert(p.take(0) =~= q.take(0));
    } else {
        lemma_encoding_agrees(data, p, q, k - 1);
        lemma_path_record_at(data, p, k - 1);
        lemma_path_record_at(data, q, k - 1);
        assert(p.take(k) =~= p.take(k - 1).push(p[k - 1]));
        assert(q.take(k) =~= q.take(k - 1).push(q[k - 1]));
    }
}

/// Writes a list of paths as a message.
pub fn serialize_paths(paths: &[Vec<u8>]) -> (buf: Vec<u8>)
    ensures
        buf@ == serialized(views(paths@)),
{
    let mut buf: Vec<u8> = Vec::new();
    let count = to_le_bytes(paths.len() as u32);
    buf.extend_from_slice(&count);
    let ghost all = views(paths@);
    assert(path_records(all.take(0)) =~= Seq::empty());
    assert(buf@ =~= le_bytes(all.len() as u32) + path_records(all.take(0)));
    let mut k: usize = 0;
    while k < paths.len()
        invariant
            k <= paths@.len(),
            all == views(paths@),
            buf@ == le_bytes(all.len() as u32) + path_records(all.take(k as int)),
        decreases paths@.len() - k,
    {
        let bytes = paths[k].as_slice();
        let len = to_le_bytes(bytes.len() as u32);
        let ghost before = buf@;
        buf.extend_from_slice(&len);
        buf.extend_from_slice(bytes);
        proof {
            let next = all.take(k + 1);
            assert(next.drop_last() =~= all.take(k as int));
            assert(next.last() == bytes@);
            assert(buf@ =~= before + le_bytes(bytes@.len() as u32) + bytes@);
            assert(buf@ =~= le_bytes(all.len() as u32) + path_records(next));
        }
        k = k + 1;
    }
    assert(all.take(k as int) =~= all);
    buf
}

/// Reads the list of paths that the data starts with; `None` where it starts with none.
pub fn deserialize_paths(data: &[u8]) -> (r: Option<Vec<Vec<u8>>>)
    ensures
        match r {
            Some(paths) => encodes(data@, views(paths@)),
            None => forall|p: Seq<Seq<u8>>| !encodes(data@, p),
        },
{
    if data.len() < 4 {
        proof {
            assert forall|p: Seq<Seq<u8>>| !encodes(data@, p) by {
                if encodes(data@, p) {
                    lemma_path_count(data@, p);
                }
            }
        }
        return None;
    }
    let count = from_le_bytes(slice_subrange(data, 0, 4));
    let mut paths: Vec<Vec<u8>> = Vec::new();
    let mut offset: usize = 4;
    let mut k: u32 = 0;
    proof {
        lemma_le_bytes_of_value(data@.subrange(0, 4));
        assert(path_records(views(paths@)) =~= Seq::empty());
        assert forall|p: Seq<Seq<u8>>| #[trigger] encodes(data@, p) implies p.len() == count && p.take(
            0,
        ) == views(paths@) by {
            lemma_path_count(data@, p);
            assert(p.take(0) =~= views(paths@));
        }
        assert(data@.take(4) =~= data@.subrange(0, 4));
        assert(data@.take(4) =~= le_bytes(count) + path_records(views(paths@)));
    }
    while k < count
        invariant
            k <= count,
            4 <= offset <= data@.len(),
            paths@.len() == k,
            countable(views(paths@)),
            data@.take(offset as int) == le_bytes(count) + path_records(views(paths@)),
            forall|p: Seq<Seq<u8>>|
                #[trigger] encodes(data@, p) ==> p.len() == count && p.take(k as int) == views(
                    paths@,
                ),
        decreases count - k,
    {
        let ghost so_far = views(paths@);
        assert(offset == 4 + path_records(so_far).len()) by {
            assert(data@.take(offset as int).len() == offset);
        }
        if data.len() - offset < 4 {
            proof {
                assert forall|p: Seq<Seq<u8>>| !encodes(data@, p) by {
                    if encodes(data@, p) {
                        assert(p.take(k as int) == so_far);
                        lemma_path_record_at(data@, p, k as int);
                    }
                }
            }
            return None;
        }
        let len_bytes = slice_subrange(data, offset, offset + 4);
        let len = from_le_bytes(len_bytes) as usize;
        proof {
            lemma_le_bytes_of_value(len_bytes@);
        }
        let start = offset + 4;
        if len > data.len() - start {
            proof {
                assert forall|p: Seq<Seq<u8>>| !encodes(data@, p) by {
                    if encodes(data@, p) {
                        assert(p.take(k as int) == so_far);
                        lemma_path_record_at(data@, p, k as int);
                    }
                }
            }
            return None;
        }
        let piece = slice_subrange(data, start, start + len);
        let path = slice_to_vec(piece);
        paths.push(path);
        proof {
            let now = views(paths@);
            assert(now =~= so_far.push(piece@));
            assert(now.drop_last() =~= so_far);
            assert forall|p: Seq<Seq<u8>>| #[trigger] encodes(data@, p) implies p.len() == count
                && p.take(k + 1) == now by {
                assert(p.take(k as int) == so_far);
                lemma_path_record_at(data@, p, k as int);
                assert(p.take(k + 1) =~= p.take(k as int).push(p[k as int]));
            }
            assert(data@.take(start + len) =~= data@.take(offset as int) + len_bytes@ + piece@);
            assert(data@.take(start + len) =~= le_bytes(count) + path_records(now));
        }
        offset = start + len;
        k = k + 1;
    }
    proof {
        let p = views(paths@);
        let all = serialized(p);
        assert(all == data@.take(offset as int));
        assert(all.is_prefix_of(data@));
    }
    Some(paths)
}

/// Builds the request for a backing file.
pub fn build_open_request(path: &[u8]) -> (msg: Vec<u8>)
    ensures
        msg@ == open_request(path@),
{
    let mut msg: Vec<u8> = Vec::new();
    msg.push(Tag::Open.byte());
    msg.extend_from_slice(path);
    assert(msg@ =~= open_request(path@));
    msg
}

/// Builds the request to give up a backing id.
pub fn build_close_request(backing_id: u32) -> (msg: [u8; 5])
    ensures
        msg@ == close_request(backing_id),
{
    let id = to_le_bytes(backing_id);
    let msg = [Tag::Close.byte(), id[0], id[1], id[2], id[3]];
    assert(msg@ =~= close_request(backing_id));
    msg
}

/// Builds the answer to an open request.
pub fn build_response(errno: u8, backing_id: u32) -> (resp: [u8; 5])
    ensures
        resp@ == response(errno, backing_id),
{
    let id = to_le_bytes(backing_id);
    let resp = [errno, id[0], id[1], id[2], id[3]];
    assert(resp@ =~= response(errno, backing_id));
    resp
}

/// Reads the answer to an open request.
pub fn parse_open_response(buf: [u8; 5]) -> (r: Result<u32, u8>)
    ensures
        r == open_response(buf@),
{
    if buf[0] != 0 {
        return Err(buf[0]);
    }
    let id = [buf[1], buf[2], buf[3], buf[4]];
    assert(id@ =~= buf@.subrange(1, 5));
    Ok(from_le_bytes(&id))
}

/// Reads the backing id of a close request, the tag taken off.
pub fn parse_close_request(data: &[u8]) -> (r: Option<u32>)
    ensures
        r == close_id(data@),
{
    if data.len() != 4 {
        return None;
    }
    Some(from_le_bytes(data))
}

/// The two messages that carry a whitelist: its length, then the whitelist itself.
pub struct WhitelistMessages {
    pub size: [u8; 4],
    pub data: Vec<u8>,
}

/// Why a whitelist is not accepted.
#[derive(Clone, Copy, Debug, PartialEq, Eq, Structural)]
pub enum WhitelistError {
    /// The first message does not hold a length.
    ShortLength,
    /// The second message is not of the length that was announced.
    SizeMismatch,
    /// The second message is no list of paths.
    Malformed,
}

/// Builds the messages that carry a whitelist.
pub fn send_whitelist(paths: &[Vec<u8>]) -> (r: WhitelistMessages)
    ensures
        r.data@ == serialized(views(paths@)),
        r.size@ == le_bytes(serialized(views(paths@)).len() as u32),
{
    let data = serialize_paths(paths);
    WhitelistMessages { size: to_le_bytes(data.len() as u32), data }
}

/// Reads the length that the first message of a whitelist announces; `received` is the
/// length of that message itself.
pub fn recv_whitelist_size(received: usize, buf: [u8; 4]) -> (r: Result<usize, WhitelistError>)
    ensures
        r == if received != 4 {
            Err(WhitelistError::ShortLength)
        } else {
            Ok(le_value(buf@) as usize)
        },
{
    if received != 4 {
        return Err(WhitelistError::ShortLength);
    }
    Ok(from_le_bytes(&buf) as usize)
}

/// Reads the whitelist from the second message, which was announced with the length of
/// `data` and arrived with `received` bytes.
pub fn recv_whitelist(data: &[u8], received: usize) -> (r: Result<Whitelist, WhitelistError>)
    ensures
        match r {
            Ok(w) => {
                &&& received == data@.len()
                &&& exists|p: Seq<Seq<u8>>| #[trigger] encodes(data@, p) && w@ == keys(p).to_set()
            },
            Err(e) => {
                &&& e == WhitelistError::SizeMismatch <==> received != data@.len()
                &&& e == WhitelistError::Malformed <==> received == data@.len() && forall|
                    p: Seq<Seq<u8>>,
                | !#[trigger] encodes(data@, p)
                &&& e != WhitelistError::ShortLength
            },
        },
{
    if received != data.len() {
        return Err(WhitelistError::SizeMismatch);
    }
    match deserialize_paths(data) {
        Some(paths) => {
            assert(encodes(data@, views(paths@)));
            Ok(Whitelist::new(paths))
        },
        None => Err(WhitelistError::Malformed),
    }
}

/// A control message that came with a datagram: file descriptors, or something else.
#[derive(Debug)]
pub enum ControlMessage {
    Rights(Vec<i32>),
    Other,
}

/// Why no file descriptor was received.
#[derive(Clone, Copy, Debug, PartialEq, Eq, Structural)]
pub enum FdError {
    /// The message with file descriptors holds none.
    Empty,
    /// No message holds file descriptors.
    Missing,
}

/// The file descriptor that the control messages hand over: the first of the first message
/// that is for file descriptors.
pub open spec fn handed_fd(messages: Seq<ControlMessage>) -> Result<i32, FdError>
    decreases messages.len(),
{
    if messages.len() == 0 {
        Err(FdError::Missing)
    } else {
        match messages[0] {
            ControlMessage::Rights(fds) => if fds@.len() > 0 {
                Ok(fds@[0])
            } else {
                Err(FdError::Empty)
            },
            ControlMessage::Other => handed_fd(messages.drop_first()),
        }
    }
}

/// Picks the file descriptor of the mounted device from the control messages.
pub fn recv_fuse_fd(messages: &[ControlMessage]) -> (r: Result<i32, FdError>)
    ensures
        r == handed_fd(messages@),
{
    let mut i: usize = 0;
    assert(messages@.skip(0) =~= messages@);
    while i < messages.len()
        invariant
            i <= messages@.len(),
            handed_fd(messages@) == handed_fd(messages@.skip(i as int)),
        decreases messages@.len() - i,
    {
        if let ControlMessage::Rights(fds) = &messages[i] {
            if fds.len() > 0 {
                return Ok(fds[0]);
            }
            return Err(FdError::Empty);
        }
        assert(messages@.skip(i as int).drop_first() =~= messages@.skip(i + 1));
        i = i + 1;
    }
    Err(FdError::Missing)
}

/// A list of paths is read back from its message, whatever follows it, and no other list
/// is.
pub proof fn law_paths_round_trip(paths: Seq<Seq<u8>>, tail: Seq<u8>)
    requires
        paths.len() <= 0xffff_ffff,
        forall|i: int| 0 <= i < paths.len() ==> (#[trigger] paths[i]).len() <= 0xffff_ffff,
    ensures
        encodes(serialized(paths) + tail, paths),
        forall|p: Seq<Seq<u8>>| #[trigger] encodes(serialized(paths) + tail, p) ==> p == paths,
{
    let data = serialized(paths) + tail;
    assert(encodes(data, paths));
    assert forall|p: Seq<Seq<u8>>| #[trigger] encodes(data, p) implies p == paths by {
        law_encoding_is_unique(data, p, paths);
    }
}

/// The length that is announced is read as the length of the whitelist.
pub proof fn law_whitelist_size_round_trip(paths: Seq<Seq<u8>>)
    requires
        serialized(paths).len() <= u32::MAX,
    ensures
        le_value(le_bytes(serialized(paths).len() as u32)) == serialized(paths).len(),
{
    lemma_le_value_of_bytes(serialized(paths).len() as u32);
}

/// An answer is read as what it was built from: the backing id where the error number
/// is zero, else the error number.
pub proof fn law_response_round_trip(errno: u8, backing_id: u32)
    ensures
        errno == 0 ==> open_response(response(errno, backing_id)) == Ok::<u32, u8>(backing_id),
        errno != 0 ==> open_response(response(errno, backing_id)) == Err::<u32, u8>(errno),
{
    assert(response(errno, backing_id).subrange(1, 5) =~= le_bytes(backing_id));
    lemma_le_value_of_bytes(backing_id);
}

/// A close request holds the backing id that it was built from.
pub proof fn law_close_request_round_trip(backing_id: u32)
    ensures
        close_id(close_request(backing_id).skip(1)) == Some(backing_id),
{
    assert(close_request(backing_id).skip(1) =~= le_bytes(backing_id));
    lemma_le_value_of_bytes(backing_id);
}

/// A number is the sum of its four bytes, each weighed by its place, the lowest first; and four
/// bytes are the number that they sum up to.
pub proof fn law_bytes_sum_up_to_the_number(v: u32, b: Seq<u8>)
    requires
        b.len() == 4,
    ensures
        le_bytes(v).len() == 4,
        v == le_bytes(v)[0] + 256 * le_bytes(v)[1] + 65536 * le_bytes(v)[2] + 16777216 * le_bytes(
            v,
        )[3],
        le_value(b) == b[0] + 256 * b[1] + 65536 * b[2] + 16777216 * b[3],
{
}

/// A request for a file is a zero and then the path, whole and as it is.
pub proof fn law_open_request_holds_the_path(path: Seq<u8>)
    ensures
        open_request(path).len() == path.len() + 1,
        open_request(path)[0] == 0,
        forall|i: int| 0 <= i < path.len() ==> open_request(path)[i + 1] == #[trigger] path[i],
{
}

/// A request to close is a one and then the four bytes of the id; an answer is the error number
/// and then the four bytes of the id. Each byte counts by its place, the lowest first.
pub proof fn law_ids_stand_in_four_bytes(errno: u8, id: u32)
    ensures
        close_request(id).len() == 5,
        close_request(id)[0] == 1,
        id == close_request(id)[1] + 256 * close_request(id)[2] + 65536 * close_request(id)[3]
            + 16777216 * close_request(id)[4],
        response(errno, id).len() == 5,
        response(errno, id)[0] == errno,
        id == response(errno, id)[1] + 256 * response(errno, id)[2] + 65536 * response(errno, id)[3]
            + 16777216 * response(errno, id)[4],
{
    law_bytes_sum_up_to_the_number(id, le_bytes(id));
}

/// A close request holds an id just if four bytes follow its tag, and the id is what they sum
/// up to. An answer is an error where its first byte is not zero, and else the id in the four
/// bytes behind it.
pub proof fn law_ids_are_read_by_their_bytes(data: Seq<u8>, buf: Seq<u8>)
    requires
        buf.len() == 5,
    ensures
        data.len() != 4 ==> close_id(data) is None,
        data.len() == 4 ==> (close_id(data) matches Some(id) && id == data[0] + 256 * data[1]
            + 65536 * data[2] + 16777216 * data[3]),
        buf[0] != 0 ==> open_response(buf) == Err::<u32, u8>(buf[0]),
        buf[0] == 0 ==> (open_response(buf) matches Ok(id) && id == buf[1] + 256 * buf[2] + 65536
            * buf[3] + 16777216 * buf[4]),
{
}

/// A list of paths starts with their number, and each path that is added comes at the end: its
/// length and then its bytes, whole and as they are.
pub proof fn law_paths_follow_one_another(paths: Seq<Seq<u8>>, path: Seq<u8>)
    ensures
        serialized(Seq::<Seq<u8>>::empty()) == le_bytes(0),
        serialized(paths).len() >= 4,
        serialized(paths).take(4) == le_bytes(paths.len() as u32),
        serialized(paths.push(path)).skip(4) == serialized(paths).skip(4) + le_bytes(
            path.len() as u32,
        ) + path,
{
    let none = Seq::<Seq<u8>>::empty();
    let longer = paths.push(path);
    assert(path_records(none) =~= Seq::empty());
    assert(serialized(none) =~= le_bytes(0));
    assert(serialized(paths).take(4) =~= le_bytes(paths.len() as u32));
    assert(serialized(paths).skip(4) =~= path_records(paths));
    assert(serialized(longer).skip(4) =~= path_records(longer));
    assert(longer.drop_last() =~= paths);
    assert(longer.last() == path);
}

/// Data is read as a list of paths just if it starts with the message for that list, and the
/// number of the paths and their lengths fit into four bytes.
pub proof fn law_data_starts_with_what_is_read(data: Seq<u8>, paths: Seq<Seq<u8>>)
    ensures
        encodes(data, paths) <==> {
            &&& serialized(paths).is_prefix_of(data)
            &&& paths.len() <= 0xffff_ffff
            &&& forall|i: int| 0 <= i < paths.len() ==> (#[trigger] paths[i]).len() <= 0xffff_ffff
        },
{
}

/// The descriptor is taken from the first control message that is for descriptors, wherever it
/// stands: its first one, and an error where it has none.
pub proof fn law_first_rights_hand_over(messages: Seq<ControlMessage>, k: int)
    requires
        0 <= k < messages.len(),
        messages[k] is Rights,
        forall|i: int| 0 <= i < k ==> (#[trigger] messages[i]) is Other,
    ensures
        messages[k]->Rights_0@.len() > 0 ==> handed_fd(messages) == Ok::<i32, FdError>(
            messages[k]->Rights_0@[0],
        ),
        messages[k]->Rights_0@.len() == 0 ==> handed_fd(messages) == Err::<i32, FdError>(
            FdError::Empty,
        ),
    decreases k,
{
    if k > 0 {
        assert(messages[0] is Other);
        let rest = messages.drop_first();
        assert forall|i: int| 0 <= i < k - 1 implies (#[trigger] rest[i]) is Other by {
            assert(rest[i] == messages[i + 1]);
        }
        law_first_rights_hand_over(rest, k - 1);
    }
}

/// Where no control message is for descriptors, none is handed over.
pub proof fn law_without_rights_nothing_is_handed_over(messages: Seq<ControlMessage>)
    requires
        forall|i: int| 0 <= i < messages.len() ==> (#[trigger] messages[i]) is Other,
    ensures
        handed_fd(messages) == Err::<i32, FdError>(FdError::Missing),
    decreases messages.len(),
{
    if messages.len() > 0 {
        assert(messages[0] is Other);
        let rest = messages.drop_first();
        assert forall|i: int| 0 <= i < rest.len() implies (#[trigger] rest[i]) is Other by {
            assert(rest[i] == messages[i + 1]);
        }
        law_without_rights_nothing_is_handed_over(rest);
    }
}

/// The paths of a list are their bytes, one by one and in order.
pub proof fn law_path_values(paths: Seq<Vec<u8>>, i: int)
    requires
        0 <= i < paths.len(),
    ensures
        views(paths).len() == paths.len(),
        views(paths)[i] == paths[i]@,
{
}

} // verus!
