//! The protocol between the launcher and the helper that works with the shell.

use crate::bytes;
use crate::shell;
use crate::wide;
use vstd::prelude::*;

verus! {

// ---------------------------------------------------------------------------
// Operations
// ---------------------------------------------------------------------------

/// The version of the protocol.
pub const PROTOCOL_VERSION: u8 = 1;

/// The length of the head of a frame.
pub const FRAME_HEADER_LEN: usize = 18;

/// The most bytes behind the head of a frame.
pub const MAX_PAYLOAD_BYTES: usize = 16_777_216;

/// The kind of the request to stop.
pub const REQUEST_SHUTDOWN: u8 = 255;

/// How many seconds an answer may take.
pub const RESPONSE_TIMEOUT: u64 = 5;

/// How many seconds an answer may take that waits for the user.
pub const SHELL_UI_RESPONSE_TIMEOUT: u64 = 600;

/// How many milliseconds the helper has to stop by itself.
pub const SHUTDOWN_WAIT: u64 = 250;

/// What the helper is asked to do with a path.
#[derive(Clone, Copy, Debug, PartialEq, Eq, Structural)]
pub enum ShellOperation {
    Launch,
    Open,
    OpenLinkedLocation,
    Properties,
    ContextMenu,
}

impl ShellOperation {
    /// The number that stands for an operation.
    pub open spec fn number(self) -> u8 {
        match self {
            ShellOperation::Launch => 0,
            ShellOperation::Open => 1,
            ShellOperation::OpenLinkedLocation => 2,
            ShellOperation::Properties => 3,
            ShellOperation::ContextMenu => 4,
        }
    }

    /// The number that stands for an operation.
    pub fn code(self) -> (r: u8)
        ensures
            r == self.number(),
    {
        match self {
            ShellOperation::Launch => 0,
            ShellOperation::Open => 1,
            ShellOperation::OpenLinkedLocation => 2,
            ShellOperation::Properties => 3,
            ShellOperation::ContextMenu => 4,
        }
    }

    /// The operation that a number stands for.
    pub fn from_code(code: u8) -> (r: Option<ShellOperation>)
        ensures
            match r {
                Some(operation) => operation.number() == code,
                None => forall|operation: ShellOperation| #[trigger] operation.number() != code,
            },
    {
        match code {
            0 => Some(ShellOperation::Launch),
            1 => Some(ShellOperation::Open),
            2 => Some(ShellOperation::OpenLinkedLocation),
            3 => Some(ShellOperation::Properties),
            4 => Some(ShellOperation::ContextMenu),
            _ => None,
        }
    }

    /// How many seconds an answer may take.
    pub fn response_timeout(self) -> (r: u64)
        ensures
            r == (if self == ShellOperation::Properties || self == ShellOperation::ContextMenu {
                SHELL_UI_RESPONSE_TIMEOUT
            } else {
                RESPONSE_TIMEOUT
            }),
    {
        match self {
            ShellOperation::Properties => SHELL_UI_RESPONSE_TIMEOUT,
            ShellOperation::ContextMenu => SHELL_UI_RESPONSE_TIMEOUT,
            _ => RESPONSE_TIMEOUT,
        }
    }
}

/// Different operations have different numbers.
pub proof fn lemma_operation_codes_differ(a: ShellOperation, b: ShellOperation)
    requires
        a.number() == b.number(),
    ensures
        a == b,
{
}

/// What came of an operation. Paths are in sixteen-bit units.
#[derive(Debug, PartialEq, Eq)]
pub enum ShellHelperResult {
    Success,
    MissingShortcutTarget(Vec<u16>),
    NoLinkedLocation,
    SelectedPath(Vec<u16>),
    Cancelled,
    Error(String),
}

// ---------------------------------------------------------------------------
// Frames
// ---------------------------------------------------------------------------

/// What is wrong with a frame.
#[derive(Debug, PartialEq, Eq)]
pub enum FrameError {
    /// It ends too early.
    UnexpectedEnd,
    /// It holds what it cannot hold.
    InvalidData(String),
    /// There is no helper any longer.
    Closed,
}

/// The error for what a frame cannot hold.
pub fn invalid_data(message: &str) -> (r: FrameError)
    ensures
        r matches FrameError::InvalidData(text) && text@ == message@,
{
    FrameError::InvalidData(message.to_owned())
}

/// An error is that for what a frame cannot hold, with a message.
pub open spec fn is_invalid(error: FrameError, message: Seq<char>) -> bool {
    error matches FrameError::InvalidData(text) && text@ == message
}

/// The first bytes of a request.
pub open spec fn request_mark() -> Seq<u8> {
    seq![0x46u8, 0x4Cu8, 0x53u8, 0x51u8]
}

/// The first bytes of an answer.
pub open spec fn response_mark() -> Seq<u8> {
    seq![0x46u8, 0x4Cu8, 0x53u8, 0x52u8]
}

/// The first bytes of a request.
pub fn request_magic() -> (r: [u8; 4])
    ensures
        r@ == request_mark(),
{
    let r: [u8; 4] = [0x46, 0x4C, 0x53, 0x51];
    proof {
        assert(r@ =~= request_mark());
    }
    r
}

/// The first bytes of an answer.
pub fn response_magic() -> (r: [u8; 4])
    ensures
        r@ == response_mark(),
{
    let r: [u8; 4] = [0x46, 0x4C, 0x53, 0x52];
    proof {
        assert(r@ =~= response_mark());
    }
    r
}

/// The head of a frame.
pub open spec fn head(magic: Seq<u8>, kind: u8, request_id: u64, len: nat) -> Seq<u8> {
    magic + seq![PROTOCOL_VERSION, kind] + bytes::le(request_id as nat, 8) + bytes::le(len, 4)
}

/// A frame.
pub open spec fn frame(magic: Seq<u8>, kind: u8, request_id: u64, payload: Seq<u8>) -> Seq<u8> {
    head(magic, kind, request_id, payload.len()) + payload
}

/// Makes a frame.
pub fn encode_frame(magic: &[u8; 4], kind: u8, request_id: u64, payload: &[u8]) -> (r: Result<
    Vec<u8>,
    FrameError,
>)
    ensures
        match r {
            Ok(bytes) => payload@.len() <= MAX_PAYLOAD_BYTES && bytes@ == frame(
                magic@,
                kind,
                request_id,
                payload@,
            ),
            Err(error) => payload@.len() > MAX_PAYLOAD_BYTES && is_invalid(
                error,
                "Shell helper payload is too large."@,
            ),
        },
{
    if payload.len() > MAX_PAYLOAD_BYTES {
        return Err(invalid_data("Shell helper payload is too large."));
    }
    let mut out: Vec<u8> = Vec::new();
    out.push(magic[0]);
    out.push(magic[1]);
    out.push(magic[2]);
    out.push(magic[3]);
    out.push(PROTOCOL_VERSION);
    out.push(kind);
    proof {
        assert(out@ =~= magic@ + seq![PROTOCOL_VERSION, kind]);
    }
    bytes::append_le(&mut out, request_id, 8);
    bytes::append_le(&mut out, payload.len() as u64, 4);
    bytes::append_bytes(&mut out, payload);
    Ok(out)
}

/// The head of a frame that was read.
#[derive(Clone, Copy, Debug, PartialEq, Eq, Structural)]
pub struct FrameHeader {
    pub kind: u8,
    pub request_id: u64,
    pub payload_len: usize,
}

/// What the head of a frame says, or what is wrong with it.
pub open spec fn head_reads(
    r: Result<FrameHeader, FrameError>,
    header: Seq<u8>,
    expected_magic: Seq<u8>,
) -> bool {
    let len = bytes::le_value(header.subrange(14, 18));
    match r {
        Ok(found) => {
            &&& header.take(4) == expected_magic
            &&& header[4] == PROTOCOL_VERSION
            &&& len <= MAX_PAYLOAD_BYTES
            &&& found.kind == header[5]
            &&& found.request_id == bytes::le_value(header.subrange(6, 14))
            &&& found.payload_len == len
        },
        Err(error) => if header.take(4) != expected_magic {
            is_invalid(error, "Shell helper frame magic is invalid."@)
        } else if header[4] != PROTOCOL_VERSION {
            is_invalid(error, "Shell helper protocol version is unsupported."@)
        } else {
            len > MAX_PAYLOAD_BYTES && is_invalid(
                error,
                "Shell helper frame payload is too large."@,
            )
        },
    }
}

/// Reads the head of a frame.
pub fn read_header(header: &[u8], expected_magic: &[u8; 4]) -> (r: Result<FrameHeader, FrameError>)
    requires
        header@.len() >= FRAME_HEADER_LEN,
    ensures
        head_reads(r, header@, expected_magic@),
{
    let same = header[0] == expected_magic[0] && header[1] == expected_magic[1] && header[2]
        == expected_magic[2] && header[3] == expected_magic[3];
    proof {
        if same {
            assert(header@.take(4) =~= expected_magic@);
        } else {
            assert(header@.take(4)[0] == header@[0] && header@.take(4)[1] == header@[1]
                && header@.take(4)[2] == header@[2] && header@.take(4)[3] == header@[3]);
        }
    }
    if !same {
        return Err(invalid_data("Shell helper frame magic is invalid."));
    }
    if header[4] != PROTOCOL_VERSION {
        return Err(invalid_data("Shell helper protocol version is unsupported."));
    }
    let kind: u8 = header[5];
    let mut at: usize = 6;
    let request_id: u64 = match bytes::read_u64(header, &mut at) {
        Ok(n) => n,
        Err(_) => 0,
    };
    let payload_len: u32 = match bytes::read_u32(header, &mut at) {
        Ok(n) => n,
        Err(_) => 0,
    };
    if payload_len as usize > MAX_PAYLOAD_BYTES {
        return Err(invalid_data("Shell helper frame payload is too large."));
    }
    Ok(FrameHeader { kind, request_id, payload_len: payload_len as usize })
}

/// A frame that was read.
#[derive(Debug, PartialEq, Eq)]
pub struct Frame {
    pub kind: u8,
    pub request_id: u64,
    pub payload: Vec<u8>,
}

/// What is read of bytes: nothing where there are none, the frame that they begin with,
/// or what is wrong with it.
pub open spec fn frame_reads(
    r: Result<Option<Frame>, FrameError>,
    b: Seq<u8>,
    expected_magic: Seq<u8>,
) -> bool {
    if b.len() == 0 {
        r matches Ok(found) && found is None
    } else if b.len() < FRAME_HEADER_LEN {
        r matches Err(error) && error is UnexpectedEnd
    } else {
        exists|header: Result<FrameHeader, FrameError>| #[trigger]
            head_reads(header, b, expected_magic) && match header {
                Err(error) => r matches Err(own) && own == error,
                Ok(found) => if b.len() < FRAME_HEADER_LEN + found.payload_len {
                    r matches Err(error) && error is UnexpectedEnd
                } else {
                    &&& r matches Ok(Some(whole))
                    &&& whole.kind == found.kind
                    &&& whole.request_id == found.request_id
                    &&& whole.payload@ == b.subrange(
                        FRAME_HEADER_LEN as int,
                        FRAME_HEADER_LEN + found.payload_len,
                    )
                },
            }
    }
}

/// Reads the frame that bytes begin with.
pub fn read_frame(source: &[u8], expected_magic: &[u8; 4]) -> (r: Result<Option<Frame>, FrameError>)
    ensures
        frame_reads(r, source@, expected_magic@),
{
    if source.len() == 0 {
        return Ok(None);
    }
    if source.len() < FRAME_HEADER_LEN {
        return Err(FrameError::UnexpectedEnd);
    }
    let header = read_header(source, expected_magic);
    let ghost read = header;
    proof {
        assert(head_reads(read, source@, expected_magic@));
    }
    match header {
        Err(error) => Err(error),
        Ok(found) => {
            if source.len() - FRAME_HEADER_LEN < found.payload_len {
                return Err(FrameError::UnexpectedEnd);
            }
            let mut payload: Vec<u8> = Vec::new();
            let mut i: usize = 0;
            while i < found.payload_len
                invariant
                    i <= found.payload_len,
                    FRAME_HEADER_LEN + found.payload_len <= source.len(),
                    payload@ =~= source@.subrange(
                        FRAME_HEADER_LEN as int,
                        FRAME_HEADER_LEN + i,
                    ),
                decreases found.payload_len - i,
            {
                payload.push(source[FRAME_HEADER_LEN + i]);
                i += 1;
            }
            Ok(Some(Frame { kind: found.kind, request_id: found.request_id, payload }))
        },
    }
}

/// A frame is read as it was made, whatever stands behind it.
pub proof fn lemma_frame_round_trip(
    r: Result<Option<Frame>, FrameError>,
    magic: Seq<u8>,
    kind: u8,
    request_id: u64,
    payload: Seq<u8>,
    behind: Seq<u8>,
)
    requires
        magic.len() == 4,
        payload.len() <= MAX_PAYLOAD_BYTES,
        frame_reads(r, frame(magic, kind, request_id, payload) + behind, magic),
    ensures
        r matches Ok(Some(whole)) && whole.kind == kind && whole.request_id == request_id
            && whole.payload@ == payload,
{
    let b = frame(magic, kind, request_id, payload) + behind;
    bytes::lemma_span();
    bytes::lemma_le(request_id as nat, 8);
    bytes::lemma_le(payload.len(), 4);
    assert(b.take(4) =~= magic);
    assert(b[4] == PROTOCOL_VERSION);
    assert(b[5] == kind);
    assert(b.subrange(6, 14) =~= bytes::le(request_id as nat, 8));
    assert(b.subrange(14, 18) =~= bytes::le(payload.len(), 4));
    assert(b.subrange(18, 18 + payload.len() as int) =~= payload);
}

// ---------------------------------------------------------------------------
// Results
// ---------------------------------------------------------------------------

/// The number of a result and the bytes that go with it.
pub open spec fn result_code(result: ShellHelperResult) -> (u8, Seq<u8>) {
    match result {
        ShellHelperResult::Success => (0, Seq::empty()),
        ShellHelperResult::MissingShortcutTarget(path) => (1, wide::unit_bytes(path@)),
        ShellHelperResult::NoLinkedLocation => (2, Seq::empty()),
        ShellHelperResult::Error(message) => (3, wide::unit_bytes(wide::utf16(message@))),
        ShellHelperResult::SelectedPath(path) => (4, wide::unit_bytes(path@)),
        ShellHelperResult::Cancelled => (5, Seq::empty()),
    }
}

/// Writes a result.
pub fn encode_result(result: &ShellHelperResult) -> (r: (u8, Vec<u8>))
    ensures
        r.0 == result_code(*result).0,
        r.1@ == result_code(*result).1,
{
    match result {
        ShellHelperResult::Success => (0, Vec::new()),
        ShellHelperResult::MissingShortcutTarget(path) => (
            1,
            wide::encode_wide_payload(path.as_slice()),
        ),
        ShellHelperResult::NoLinkedLocation => (2, Vec::new()),
        ShellHelperResult::Error(message) => {
            let units = wide::encode_wide(message.as_str());
            (3, wide::encode_wide_payload(units.as_slice()))
        },
        ShellHelperResult::SelectedPath(path) => (4, wide::encode_wide_payload(path.as_slice())),
        ShellHelperResult::Cancelled => (5, Vec::new()),
    }
}

/// The number of a result cannot go with bytes.
pub open spec fn is_misfit(status: u8, payload: Seq<u8>) -> bool {
    if status == 0 || status == 2 || status == 5 {
        payload.len() > 0
    } else if status == 1 || status == 4 {
        payload.len() == 0
    } else {
        status != 3
    }
}

/// What a result is read as, or what is wrong with it.
pub open spec fn result_reads(
    r: Result<ShellHelperResult, FrameError>,
    status: u8,
    payload: Seq<u8>,
) -> bool {
    if is_misfit(status, payload) {
        r matches Err(error) && is_invalid(error, "Shell helper response payload is invalid."@)
    } else if payload.len() % 2 == 1 {
        r matches Err(error) && is_invalid(error, "Shell helper UTF-16 payload has an odd length."@)
    } else {
        let units = wide::byte_units(payload);
        match r {
            Ok(ShellHelperResult::Success) => status == 0,
            Ok(ShellHelperResult::MissingShortcutTarget(path)) => status == 1 && path@ == units,
            Ok(ShellHelperResult::NoLinkedLocation) => status == 2,
            Ok(ShellHelperResult::Error(message)) => status == 3 && message@ == wide::decoded(
                units,
            ),
            Ok(ShellHelperResult::SelectedPath(path)) => status == 4 && path@ == units,
            Ok(ShellHelperResult::Cancelled) => status == 5,
            Err(_) => false,
        }
    }
}

/// The path that bytes hold.
fn read_path(payload: &[u8]) -> (r: Result<Vec<u16>, FrameError>)
    ensures
        match r {
            Ok(units) => payload@.len() % 2 == 0 && units@ == wide::byte_units(payload@),
            Err(error) => payload@.len() % 2 == 1 && is_invalid(
                error,
                "Shell helper UTF-16 payload has an odd length."@,
            ),
        },
{
    match wide::decode_wide_payload(payload) {
        Some(units) => Ok(units),
        None => Err(invalid_data("Shell helper UTF-16 payload has an odd length.")),
    }
}

/// Reads a result.
pub fn decode_result(status: u8, payload: &[u8]) -> (r: Result<ShellHelperResult, FrameError>)
    ensures
        result_reads(r, status, payload@),
{
    let none = payload.len() == 0;
    if status == 0 && none {
        Ok(ShellHelperResult::Success)
    } else if status == 1 && !none {
        match read_path(payload) {
            Ok(path) => Ok(ShellHelperResult::MissingShortcutTarget(path)),
            Err(error) => Err(error),
        }
    } else if status == 2 && none {
        Ok(ShellHelperResult::NoLinkedLocation)
    } else if status == 3 {
        match read_path(payload) {
            Ok(units) => Ok(ShellHelperResult::Error(wide::decode_wide(units.as_slice()))),
            Err(error) => Err(error),
        }
    } else if status == 4 && !none {
        match read_path(payload) {
            Ok(path) => Ok(ShellHelperResult::SelectedPath(path)),
            Err(error) => Err(error),
        }
    } else if status == 5 && none {
        Ok(ShellHelperResult::Cancelled)
    } else {
        Err(invalid_data("Shell helper response payload is invalid."))
    }
}

/// Two results are the same.
pub open spec fn same_helper_result(a: ShellHelperResult, b: ShellHelperResult) -> bool {
    match (a, b) {
        (ShellHelperResult::MissingShortcutTarget(x), ShellHelperResult::MissingShortcutTarget(y)) => x@
            == y@,
        (ShellHelperResult::SelectedPath(x), ShellHelperResult::SelectedPath(y)) => x@ == y@,
        (ShellHelperResult::Error(x), ShellHelperResult::Error(y)) => x@ == y@,
        (x, y) => x == y,
    }
}

/// A result is read as it was written. A path in it cannot be empty: it would be
/// refused.
pub proof fn lemma_result_round_trip(result: ShellHelperResult, r: Result<ShellHelperResult, FrameError>)
    requires
        result matches ShellHelperResult::MissingShortcutTarget(path) ==> path@.len() > 0,
        result matches ShellHelperResult::SelectedPath(path) ==> path@.len() > 0,
        result_reads(r, result_code(result).0, result_code(result).1),
    ensures
        r matches Ok(read) && same_helper_result(read, result),
{
    match result {
        ShellHelperResult::MissingShortcutTarget(path) => {
            wide::lemma_unit_bytes_round_trip(path@);
        },
        ShellHelperResult::SelectedPath(path) => {
            wide::lemma_unit_bytes_round_trip(path@);
        },
        ShellHelperResult::Error(message) => {
            wide::lemma_unit_bytes_round_trip(wide::utf16(message@));
            wide::lemma_wide_round_trip(message@);
        },
        _ => {},
    }
}

// ---------------------------------------------------------------------------
// The side that asks
// ---------------------------------------------------------------------------

/// The number behind a number; never zero.
pub open spec fn next_id(id: u64) -> int {
    if id == u64::MAX {
        1
    } else {
        id + 1
    }
}

/// A request that was made.
#[derive(Debug, PartialEq, Eq)]
pub struct PendingReply {
    pub frame: Vec<u8>,
    pub request_id: u64,
    pub timeout_seconds: u64,
}

/// The side of the launcher.
#[derive(Clone, Copy, Debug, PartialEq, Eq, Structural)]
pub struct ShellHelperClient {
    pub next_request_id: u64,
    pub closed: bool,
}

impl ShellHelperClient {
    /// The launcher with a helper that was just started.
    pub fn start() -> (r: ShellHelperClient)
        ensures
            r.next_request_id == 1,
            !r.closed,
    {
        ShellHelperClient { next_request_id: 1, closed: false }
    }

    /// The number for a request. After one that is not zero comes one that is not zero.
    pub fn take_request_id(&mut self) -> (r: u64)
        ensures
            r == old(self).next_request_id,
            final(self).next_request_id == next_id(old(self).next_request_id),
            final(self).next_request_id != 0,
            final(self).closed == old(self).closed,
    {
        let id: u64 = self.next_request_id;
        self.next_request_id = if id == u64::MAX {
            1
        } else {
            id + 1
        };
        id
    }

    /// Makes the request for an operation on a path.
    pub fn transact(&mut self, operation: ShellOperation, path: &[u16]) -> (r: Result<
        PendingReply,
        FrameError,
    >)
        ensures
            final(self).closed == old(self).closed,
            final(self).next_request_id == (if old(self).closed {
                old(self).next_request_id as int
            } else {
                next_id(old(self).next_request_id)
            }),
            match r {
                Ok(pending) => {
                    &&& !old(self).closed
                    &&& 2 * path@.len() <= MAX_PAYLOAD_BYTES
                    &&& pending.request_id == old(self).next_request_id
                    &&& pending.frame@ == frame(
                        request_mark(),
                        operation.number(),
                        pending.request_id,
                        wide::unit_bytes(path@),
                    )
                    &&& pending.timeout_seconds == (if operation == ShellOperation::Properties
                        || operation == ShellOperation::ContextMenu {
                        SHELL_UI_RESPONSE_TIMEOUT
                    } else {
                        RESPONSE_TIMEOUT
                    })
                },
                Err(error) => if old(self).closed {
                    error is Closed
                } else {
                    2 * path@.len() > MAX_PAYLOAD_BYTES && is_invalid(
                        error,
                        "Shell helper payload is too large."@,
                    )
                },
            },
    {
        if self.closed {
            return Err(FrameError::Closed);
        }
        let request_id: u64 = self.take_request_id();
        let payload = wide::encode_wide_payload(path);
        proof {
            wide::lemma_unit_bytes_round_trip(path@);
        }
        match encode_frame(&request_magic(), operation.code(), request_id, payload.as_slice()) {
            Ok(frame) => Ok(
                PendingReply { frame, request_id, timeout_seconds: operation.response_timeout() },
            ),
            Err(error) => Err(error),
        }
    }

    /// Makes the request to stop. The helper takes no further requests.
    pub fn shutdown(&mut self) -> (r: Option<Vec<u8>>)
        ensures
            final(self).closed,
            final(self).next_request_id == (if old(self).closed {
                old(self).next_request_id as int
            } else {
                next_id(old(self).next_request_id)
            }),
            match r {
                Some(bytes) => !old(self).closed && bytes@ == frame(
                    request_mark(),
                    REQUEST_SHUTDOWN,
                    old(self).next_request_id,
                    Seq::empty(),
                ),
                None => old(self).closed,
            },
    {
        if self.closed {
            return None;
        }
        let request_id: u64 = self.take_request_id();
        self.closed = true;
        let nothing: Vec<u8> = Vec::new();
        proof {
            assert(nothing@ =~= Seq::<u8>::empty());
        }
        match encode_frame(&request_magic(), REQUEST_SHUTDOWN, request_id, nothing.as_slice()) {
            Ok(frame) => Some(frame),
            Err(_) => None,
        }
    }

    /// The helper is ended at once.
    pub fn abort(&mut self)
        ensures
            final(self).closed,
            final(self).next_request_id == old(self).next_request_id,
    {
        self.closed = true;
    }
}

/// Takes the answer to a request.
pub fn accept_reply(request_id: u64, reply: &Frame) -> (r: Result<ShellHelperResult, FrameError>)
    ensures
        if reply.request_id != request_id {
            r matches Err(error) && is_invalid(
                error,
                "Shell helper response ID does not match the request."@,
            )
        } else {
            result_reads(r, reply.kind, reply.payload@)
        },
{
    if reply.request_id != request_id {
        return Err(invalid_data("Shell helper response ID does not match the request."));
    }
    decode_result(reply.kind, reply.payload.as_slice())
}

// ---------------------------------------------------------------------------
// The side that answers
// ---------------------------------------------------------------------------

/// What the helper does with a request.
#[derive(Debug, PartialEq, Eq)]
pub enum ServerStep {
    Stop,
    Run(ShellOperation, Vec<u16>),
    Reply(ShellHelperResult),
}

/// What the helper does with a request.
pub open spec fn serves(r: ServerStep, kind: u8, payload: Seq<u8>) -> bool {
    if kind == REQUEST_SHUTDOWN && payload.len() == 0 {
        r is Stop
    } else if kind >= 5 {
        r matches ServerStep::Reply(ShellHelperResult::Error(message)) && message@
            == "Unknown Shell helper operation."@
    } else if payload.len() % 2 == 1 {
        r matches ServerStep::Reply(ShellHelperResult::Error(message)) && message@
            == "Shell helper UTF-16 payload has an odd length."@
    } else {
        r matches ServerStep::Run(operation, path) && operation.number() == kind && path@
            == wide::byte_units(payload)
    }
}

/// What the helper does with a request.
pub fn serve_request(request: &Frame) -> (r: ServerStep)
    ensures
        serves(r, request.kind, request.payload@),
{
    if request.kind == REQUEST_SHUTDOWN && request.payload.len() == 0 {
        return ServerStep::Stop;
    }
    match ShellOperation::from_code(request.kind) {
        Some(operation) => match wide::decode_wide_payload(request.payload.as_slice()) {
            Some(path) => ServerStep::Run(operation, path),
            None => ServerStep::Reply(
                ShellHelperResult::Error(
                    "Shell helper UTF-16 payload has an odd length.".to_owned(),
                ),
            ),
        },
        None => {
            proof {
                assert(ShellOperation::Launch.number() == 0);
                assert(ShellOperation::Open.number() == 1);
                assert(ShellOperation::OpenLinkedLocation.number() == 2);
                assert(ShellOperation::Properties.number() == 3);
                assert(ShellOperation::ContextMenu.number() == 4);
            }
            ServerStep::Reply(
                ShellHelperResult::Error("Unknown Shell helper operation.".to_owned()),
            )
        },
    }
}

/// Makes the answer to a request.
pub fn encode_reply(request_id: u64, result: &ShellHelperResult) -> (r: Result<Vec<u8>, FrameError>)
    ensures
        match r {
            Ok(bytes) => bytes@ == frame(
                response_mark(),
                result_code(*result).0,
                request_id,
                result_code(*result).1,
            ) && result_code(*result).1.len() <= MAX_PAYLOAD_BYTES,
            Err(error) => result_code(*result).1.len() > MAX_PAYLOAD_BYTES && is_invalid(
                error,
                "Shell helper payload is too large."@,
            ),
        },
{
    let (status, payload): (u8, Vec<u8>) = encode_result(result);
    encode_frame(&response_magic(), status, request_id, payload.as_slice())
}

/// What is known of the path of an operation.
#[derive(Debug, PartialEq, Eq)]
pub struct ShortcutFacts {
    /// Where the shortcut leads, where it could be followed.
    pub target: Option<Vec<u16>>,
    /// Whether what it leads to is there.
    pub target_exists: bool,
    /// The folder that it leads to.
    pub linked_folder: Option<Vec<u16>>,
}

/// What the shell is asked to do, or the result without it.
#[derive(Debug, PartialEq, Eq)]
pub enum OperationStep {
    Launch,
    Explore,
    ExploreFolder(Vec<u16>),
    ShowProperties,
    ShowContextMenu,
    Finished(ShellHelperResult),
}

/// What is done for an operation on a path: a shortcut with a target that is not there
/// is not launched.
pub fn execute_operation(operation: ShellOperation, path: &str, facts: ShortcutFacts) -> (r:
    OperationStep)
    ensures
        match operation {
            ShellOperation::Launch => {
                let is_shortcut = shell::has_extension(path@, "lnk"@) || shell::has_extension(
                    path@,
                    "url"@,
                );
                match facts.target {
                    Some(target) => if is_shortcut && !facts.target_exists {
                        r == OperationStep::Finished(
                            ShellHelperResult::MissingShortcutTarget(target),
                        )
                    } else {
                        r is Launch
                    },
                    None => r is Launch,
                }
            },
            ShellOperation::Open => r is Explore,
            ShellOperation::OpenLinkedLocation => match facts.linked_folder {
                Some(folder) => r == OperationStep::ExploreFolder(folder),
                None => r == OperationStep::Finished(ShellHelperResult::NoLinkedLocation),
            },
            ShellOperation::Properties => r is ShowProperties,
            ShellOperation::ContextMenu => r is ShowContextMenu,
        },
        r is Launch ==> operation == ShellOperation::Launch,
        operation == ShellOperation::Launch && (facts.target_exists || facts.target is None)
            ==> r is Launch,
        r is Explore <==> operation == ShellOperation::Open,
{
    match operation {
        ShellOperation::Launch => {
            if shell::is_shortcut_file(path) && !facts.target_exists {
                match facts.target {
                    Some(target) => OperationStep::Finished(
                        ShellHelperResult::MissingShortcutTarget(target),
                    ),
                    None => OperationStep::Launch,
                }
            } else {
                OperationStep::Launch
            }
        },
        ShellOperation::Open => OperationStep::Explore,
        ShellOperation::OpenLinkedLocation => match facts.linked_folder {
            Some(folder) => OperationStep::ExploreFolder(folder),
            None => OperationStep::Finished(ShellHelperResult::NoLinkedLocation),
        },
        ShellOperation::Properties => OperationStep::ShowProperties,
        ShellOperation::ContextMenu => OperationStep::ShowContextMenu,
    }
}

/// The result of what the shell was asked to do.
pub fn operation_result(outcome: Result<(), String>) -> (r: ShellHelperResult)
    ensures
        r == (match outcome {
            Ok(_) => ShellHelperResult::Success,
            Err(message) => ShellHelperResult::Error(message),
        }),
{
    match outcome {
        Ok(_) => ShellHelperResult::Success,
        Err(message) => ShellHelperResult::Error(message),
    }
}

/// How a program is started by its arguments: as the helper, wrongly, or as itself.
#[derive(Clone, Copy, Debug, PartialEq, Eq, Structural)]
pub enum HelperStart {
    NotAsked,
    WrongArguments,
    Run,
}

/// How a program is started by its arguments.
pub fn shell_helper_requested(arguments: &[String]) -> (r: HelperStart)
    ensures
        r == (if arguments@.len() == 0 || arguments@[0]@ != "--shell-helper"@ {
            HelperStart::NotAsked
        } else if arguments@.len() > 1 {
            HelperStart::WrongArguments
        } else {
            HelperStart::Run
        }),
{
    if arguments.len() == 0 || !crate::text::same_text(arguments[0].as_str(), "--shell-helper") {
        HelperStart::NotAsked
    } else if arguments.len() > 1 {
        HelperStart::WrongArguments
    } else {
        HelperStart::Run
    }
}

/// Requests that follow each other have different numbers, and none is nothing.
pub proof fn lemma_numbers_go_on(id: u64)
    ensures
        next_id(id) != id,
        0 < next_id(id) <= u64::MAX,
        id < u64::MAX ==> next_id(id) == id + 1,
{
}

/// The operations and their numbers; what the user answers in a window may take longer.
pub proof fn lemma_operations_by_number(operation: ShellOperation)
    ensures
        operation.number() == 0 <==> operation == ShellOperation::Launch,
        operation.number() == 1 <==> operation == ShellOperation::Open,
        operation.number() == 2 <==> operation == ShellOperation::OpenLinkedLocation,
        operation.number() == 3 <==> operation == ShellOperation::Properties,
        operation.number() == 4 <==> operation == ShellOperation::ContextMenu,
        RESPONSE_TIMEOUT < SHELL_UI_RESPONSE_TIMEOUT,
{
}

/// A request is served as it was meant: with its own operation, on its own path.
pub proof fn lemma_requests_are_served(r: ServerStep, operation: ShellOperation, path: Seq<u16>)
    requires
        serves(r, operation.number(), wide::unit_bytes(path)),
    ensures
        r matches ServerStep::Run(own, found) && own == operation && found@ == path,
{
    wide::lemma_unit_bytes_round_trip(path);
    match r {
        ServerStep::Run(own, _) => {
            lemma_operation_codes_differ(own, operation);
        },
        _ => {},
    }
}

/// Nothing else is run: what asks to stop stops, and an unknown operation or half a unit is
/// answered with an error.
pub proof fn lemma_nothing_else_is_run(r: ServerStep, kind: u8, payload: Seq<u8>)
    requires
        serves(r, kind, payload),
    ensures
        r is Run ==> kind <= 4 && payload.len() % 2 == 0,
        kind == REQUEST_SHUTDOWN && payload.len() == 0 ==> r is Stop,
        r is Stop ==> kind == REQUEST_SHUTDOWN,
        kind <= 4 && payload.len() % 2 == 0 ==> r is Run,
{
}

} // verus!
