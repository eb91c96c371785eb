//! The bytes of stored results.

use crate::breakdown;
use crate::bytes;
use crate::bytes::ReadError;
use crate::ordering;
use crate::ordering::{RankKey, Ranked};
use crate::results::{LaunchTarget, RankedCandidate, RankedCandidatePayload, SearchResult};
use crate::text;
use crate::types::{HeuristicScoreComponents, ResultRankingKind};
use vstd::prelude::*;
use vstd::utf8::*;

verus! {

// ---------------------------------------------------------------------------
// Records
// ---------------------------------------------------------------------------

/// The part of a record that its detail text comes from.
#[derive(Debug, PartialEq, Eq)]
pub enum StoredResultPayload {
    Heuristic(HeuristicScoreComponents),
    Prebuilt(String),
}

/// A result as it is stored.
#[derive(Debug, PartialEq, Eq)]
pub struct StoredResultRecord {
    pub sequence: u64,
    pub ranking_kind: ResultRankingKind,
    pub display_score: i32,
    pub score: i32,
    pub is_dir: bool,
    pub from_history: bool,
    pub from_query_launch_rule: bool,
    pub title: String,
    pub subtitle: String,
    pub path: String,
    pub payload: StoredResultPayload,
}

/// The part of a record that its detail text comes from, over mathematical
/// values.
pub enum PayloadModel {
    Heuristic(HeuristicScoreComponents),
    Prebuilt(Seq<char>),
}

/// A record over mathematical values.
pub struct RecordModel {
    pub sequence: u64,
    pub ranking_kind: ResultRankingKind,
    pub display_score: i32,
    pub score: i32,
    pub is_dir: bool,
    pub from_history: bool,
    pub from_query_launch_rule: bool,
    pub title: Seq<char>,
    pub subtitle: Seq<char>,
    pub path: Seq<char>,
    pub payload: PayloadModel,
}

impl View for StoredResultPayload {
    type V = PayloadModel;

    open spec fn view(&self) -> PayloadModel {
        match self {
            StoredResultPayload::Heuristic(c) => PayloadModel::Heuristic(*c),
            StoredResultPayload::Prebuilt(s) => PayloadModel::Prebuilt(s@),
        }
    }
}

impl View for StoredResultRecord {
    type V = RecordModel;

    open spec fn view(&self) -> RecordModel {
        RecordModel {
            sequence: self.sequence,
            ranking_kind: self.ranking_kind,
            display_score: self.display_score,
            score: self.score,
            is_dir: self.is_dir,
            from_history: self.from_history,
            from_query_launch_rule: self.from_query_launch_rule,
            title: self.title@,
            subtitle: self.subtitle@,
            path: self.path@,
            payload: self.payload@,
        }
    }
}

/// The views of a list of records.
pub open spec fn models(records: Seq<StoredResultRecord>) -> Seq<RecordModel> {
    Seq::new(records.len(), |i: int| records[i]@)
}

/// The key of a record: that of its result, then the order of arrival.
pub open spec fn record_key(m: RecordModel) -> RankKey {
    RankKey {
        priority: ordering::priority_of(m.ranking_kind),
        score: m.score as int,
        title: text::unicode_lowercase(m.title),
        subtitle: text::unicode_lowercase(m.subtitle),
        sequence: m.sequence as int,
    }
}

impl Ranked for StoredResultRecord {
    open spec fn rank_key(&self) -> RankKey {
        record_key(self@)
    }

    fn outranks(&self, other: &StoredResultRecord) -> (r: bool) {
        ordering::rank_less(
            (
                ordering::ranking_priority(self.ranking_kind),
                self.score,
                self.title.as_str(),
                self.subtitle.as_str(),
                self.sequence,
            ),
            (
                ordering::ranking_priority(other.ranking_kind),
                other.score,
                other.title.as_str(),
                other.subtitle.as_str(),
                other.sequence,
            ),
        )
    }
}

/// Why a record could not be stored or read.
#[derive(Clone, Copy, Debug, PartialEq, Eq, Structural)]
pub enum StoreError {
    /// Results of plugins have no path to store.
    PluginResult,
    /// The bytes end too early.
    UnexpectedEnd,
    /// A text is not UTF-8.
    InvalidUtf8,
    /// The byte of the ranking kind has no meaning.
    InvalidRankingKind,
    /// The byte of the payload has no meaning.
    InvalidPayload,
    /// Bytes are left over behind a record.
    TrailingBytes,
    /// A file does not begin as a run does.
    InvalidRun,
    /// A file does not begin as a store does.
    InvalidStore,
    /// A store holds another number of records than it should.
    CountMismatch,
    /// There is no store file.
    MissingPath,
}

/// The error of a failed read.
pub open spec fn read_error(e: ReadError) -> StoreError {
    match e {
        ReadError::UnexpectedEnd => StoreError::UnexpectedEnd,
        ReadError::InvalidUtf8 => StoreError::InvalidUtf8,
    }
}

fn store_error(e: ReadError) -> (r: StoreError)
    ensures
        r == read_error(e),
{
    match e {
        ReadError::UnexpectedEnd => StoreError::UnexpectedEnd,
        ReadError::InvalidUtf8 => StoreError::InvalidUtf8,
    }
}

/// What is stored of a result; nothing of one that a plugin made.
pub open spec fn result_model(result: SearchResult, sequence: u64) -> Option<RecordModel> {
    match result.target {
        LaunchTarget::Plugin(_) => None,
        LaunchTarget::Path(path) => Some(
            RecordModel {
                sequence,
                ranking_kind: result.ranking_kind,
                display_score: result.display_score,
                score: result.score,
                is_dir: result.is_dir,
                from_history: result.from_history,
                from_query_launch_rule: result.from_query_launch_rule,
                title: result.title@,
                subtitle: result.subtitle@,
                path: path@,
                payload: PayloadModel::Prebuilt(result.score_detail@),
            },
        ),
    }
}

/// What is stored of a candidate.
pub open spec fn candidate_model(candidate: RankedCandidate, sequence: u64) -> Option<RecordModel> {
    match candidate.payload {
        RankedCandidatePayload::Heuristic { item, components, from_history } => Some(
            RecordModel {
                sequence,
                ranking_kind: candidate.ranking_kind,
                display_score: candidate.display_score,
                score: candidate.score,
                is_dir: item.is_dir,
                from_history,
                from_query_launch_rule: false,
                title: item.title@,
                subtitle: item.subtitle@,
                path: item.path@,
                payload: PayloadModel::Heuristic(components),
            },
        ),
        RankedCandidatePayload::Prebuilt(result) => result_model(result, sequence),
    }
}

impl StoredResultRecord {
    /// The record of a result; results of plugins are refused.
    pub fn from_search_result(result: SearchResult, sequence: u64) -> (r: Result<
        StoredResultRecord,
        StoreError,
    >)
        ensures
            match result_model(result, sequence) {
                None => r == Err::<StoredResultRecord, StoreError>(StoreError::PluginResult),
                Some(m) => r matches Ok(record) && record@ == m,
            },
    {
        match result.target {
            LaunchTarget::Plugin(_) => Err(StoreError::PluginResult),
            LaunchTarget::Path(path) => Ok(
                StoredResultRecord {
                    sequence,
                    ranking_kind: result.ranking_kind,
                    display_score: result.display_score,
                    score: result.score,
                    is_dir: result.is_dir,
                    from_history: result.from_history,
                    from_query_launch_rule: result.from_query_launch_rule,
                    title: result.title,
                    subtitle: result.subtitle,
                    path,
                    payload: StoredResultPayload::Prebuilt(result.score_detail),
                },
            ),
        }
    }

    /// The record of a candidate; results of plugins are refused.
    pub fn from_ranked_candidate(candidate: RankedCandidate, sequence: u64) -> (r: Result<
        StoredResultRecord,
        StoreError,
    >)
        ensures
            match candidate_model(candidate, sequence) {
                None => r == Err::<StoredResultRecord, StoreError>(StoreError::PluginResult),
                Some(m) => r matches Ok(record) && record@ == m,
            },
    {
        match candidate.payload {
            RankedCandidatePayload::Heuristic { item, components, from_history } => Ok(
                StoredResultRecord {
                    sequence,
                    ranking_kind: candidate.ranking_kind,
                    display_score: candidate.display_score,
                    score: candidate.score,
                    is_dir: item.is_dir,
                    from_history,
                    from_query_launch_rule: false,
                    title: item.title,
                    subtitle: item.subtitle,
                    path: item.path,
                    payload: StoredResultPayload::Heuristic(components),
                },
            ),
            RankedCandidatePayload::Prebuilt(result) => StoredResultRecord::from_search_result(
                result,
                sequence,
            ),
        }
    }

    /// The result of a record, without an explanation.
    pub fn into_search_result(self) -> (r: SearchResult)
        ensures
            shows_record(r, self@),
    {
        let score_detail = match self.payload {
            StoredResultPayload::Heuristic(c) => breakdown::score_detail_text_from_components(&c),
            StoredResultPayload::Prebuilt(detail) => detail,
        };
        SearchResult {
            title: self.title,
            subtitle: self.subtitle,
            target: LaunchTarget::Path(self.path),
            is_dir: self.is_dir,
            from_history: self.from_history,
            from_query_launch_rule: self.from_query_launch_rule,
            ranking_kind: self.ranking_kind,
            explanation: None,
            display_score: self.display_score,
            score_detail,
            score: self.score,
        }
    }

    /// The number of bytes of the record, without the count in front of it.
    pub fn encoded_len(&self) -> (r: usize)
        ensures
            r == crate::arith::min_int(record_size(self@) as int, usize::MAX as int),
    {
        let payload_len: usize = match &self.payload {
            StoredResultPayload::Heuristic(_) => 37,
            StoredResultPayload::Prebuilt(detail) => encoded_string_len(
                detail.as_str(),
            ).saturating_add(1),
        };
        encoded_string_len(self.title.as_str()).saturating_add(
            encoded_string_len(self.subtitle.as_str()),
        ).saturating_add(encoded_string_len(self.path.as_str())).saturating_add(
            payload_len,
        ).saturating_add(18)
    }
}

/// A result shows a record.
pub open spec fn shows_record(r: SearchResult, m: RecordModel) -> bool {
    &&& r.title@ == m.title
    &&& r.subtitle@ == m.subtitle
    &&& r.target matches LaunchTarget::Path(path) && path@ == m.path
    &&& r.is_dir == m.is_dir
    &&& r.from_history == m.from_history
    &&& r.from_query_launch_rule == m.from_query_launch_rule
    &&& r.ranking_kind == m.ranking_kind
    &&& r.explanation is None
    &&& r.display_score == m.display_score
    &&& r.score_detail@ == (match m.payload {
        PayloadModel::Heuristic(c) => breakdown::detail_text(c),
        PayloadModel::Prebuilt(s) => s,
    })
    &&& r.score == m.score
}

/// The number of bytes of a text with its count.
pub fn encoded_string_len(value: &str) -> (r: usize)
    ensures
        r == crate::arith::min_int(4 + encode_utf8(value@).len() as int, usize::MAX as int),
{
    let bytes = value.as_bytes();
    bytes.len().saturating_add(4)
}

// ---------------------------------------------------------------------------
// Encoding
// ---------------------------------------------------------------------------

/// The byte of a ranking kind.
pub open spec fn kind_byte(kind: ResultRankingKind) -> nat {
    match kind {
        ResultRankingKind::Heuristic => 0,
        ResultRankingKind::RecentOrder => 1,
        ResultRankingKind::QueryLaunchRule => 2,
        ResultRankingKind::Plugin => 3,
    }
}

/// The ranking kind of a byte.
pub open spec fn kind_of(byte: nat) -> Option<ResultRankingKind> {
    if byte == 0 {
        Some(ResultRankingKind::Heuristic)
    } else if byte == 1 {
        Some(ResultRankingKind::RecentOrder)
    } else if byte == 2 {
        Some(ResultRankingKind::QueryLaunchRule)
    } else if byte == 3 {
        Some(ResultRankingKind::Plugin)
    } else {
        None
    }
}

/// The byte of the three flags.
pub open spec fn flags_byte(is_dir: bool, from_history: bool, by_rule: bool) -> nat {
    (if is_dir {
        1nat
    } else {
        0nat
    }) + (if from_history {
        2nat
    } else {
        0nat
    }) + (if by_rule {
        4nat
    } else {
        0nat
    })
}

/// The bytes of the parts of a score.
pub open spec fn component_bytes(c: HeuristicScoreComponents) -> Seq<u8> {
    bytes::le(bytes::unsigned(c.text_score), 4) + bytes::le(bytes::unsigned(c.path_score), 4)
        + bytes::le(bytes::unsigned(c.index_score), 4) + bytes::le(
        bytes::unsigned(c.pattern_score),
        4,
    ) + bytes::le(bytes::unsigned(c.history_score), 4) + bytes::le(
        bytes::unsigned(c.recency_score),
        4,
    ) + bytes::le(bytes::unsigned(c.folder_score), 4) + bytes::le(
        bytes::unsigned(c.path_penalty),
        4,
    ) + bytes::le(bytes::unsigned(c.final_score), 4)
}

/// The bytes of the last part of a record.
pub open spec fn payload_bytes(p: PayloadModel) -> Seq<u8> {
    match p {
        PayloadModel::Heuristic(c) => bytes::le(0, 1) + component_bytes(c),
        PayloadModel::Prebuilt(s) => bytes::le(1, 1) + bytes::text_bytes(s),
    }
}

/// The bytes of the numbers that a record begins with.
pub open spec fn head_bytes(m: RecordModel) -> Seq<u8> {
    bytes::le(m.sequence as nat, 8) + bytes::le(kind_byte(m.ranking_kind), 1) + bytes::le(
        flags_byte(m.is_dir, m.from_history, m.from_query_launch_rule),
        1,
    ) + bytes::le(bytes::unsigned(m.display_score), 4) + bytes::le(bytes::unsigned(m.score), 4)
}

/// The bytes of a record, without the count in front of it.
#[verifier::opaque]
pub open spec fn body_bytes(m: RecordModel) -> Seq<u8> {
    head_bytes(m) + bytes::text_bytes(m.title) + bytes::text_bytes(m.subtitle) + bytes::text_bytes(
        m.path,
    ) + payload_bytes(m.payload)
}

/// The number of bytes of a record, without the count in front of it.
pub open spec fn record_size(m: RecordModel) -> nat {
    18 + (4 + encode_utf8(m.title).len()) + (4 + encode_utf8(m.subtitle).len()) + (4 + encode_utf8(
        m.path,
    ).len()) + (match m.payload {
        PayloadModel::Heuristic(_) => 37nat,
        PayloadModel::Prebuilt(s) => 5 + encode_utf8(s).len(),
    })
}

/// The bytes of a record.
pub open spec fn record_bytes(m: RecordModel) -> Seq<u8> {
    bytes::le(
        crate::arith::min_int(record_size(m) as int, usize::MAX as int) as nat,
        4,
    ) + body_bytes(m)
}

/// The byte of a ranking kind.
pub fn ranking_kind_to_byte(kind: ResultRankingKind) -> (r: u8)
    ensures
        r == kind_byte(kind),
{
    match kind {
        ResultRankingKind::Heuristic => 0,
        ResultRankingKind::RecentOrder => 1,
        ResultRankingKind::QueryLaunchRule => 2,
        ResultRankingKind::Plugin => 3,
    }
}

/// The ranking kind of a byte.
pub fn ranking_kind_from_byte(value: u8) -> (r: Result<ResultRankingKind, StoreError>)
    ensures
        match kind_of(value as nat) {
            Some(kind) => r == Ok::<ResultRankingKind, StoreError>(kind),
            None => r == Err::<ResultRankingKind, StoreError>(StoreError::InvalidRankingKind),
        },
{
    match value {
        0 => Ok(ResultRankingKind::Heuristic),
        1 => Ok(ResultRankingKind::RecentOrder),
        2 => Ok(ResultRankingKind::QueryLaunchRule),
        3 => Ok(ResultRankingKind::Plugin),
        _ => Err(StoreError::InvalidRankingKind),
    }
}

fn write_components(out: &mut Vec<u8>, c: &HeuristicScoreComponents)
    ensures
        final(out)@ == old(out)@ + component_bytes(*c),
{
    let ghost before = out@;
    bytes::append_i32(out, c.text_score);
    bytes::append_i32(out, c.path_score);
    bytes::append_i32(out, c.index_score);
    bytes::append_i32(out, c.pattern_score);
    bytes::append_i32(out, c.history_score);
    bytes::append_i32(out, c.recency_score);
    bytes::append_i32(out, c.folder_score);
    bytes::append_i32(out, c.path_penalty);
    bytes::append_i32(out, c.final_score);
    proof {
        assert(out@ =~= before + component_bytes(*c));
    }
}

fn write_payload(out: &mut Vec<u8>, payload: &StoredResultPayload)
    ensures
        final(out)@ == old(out)@ + payload_bytes(payload@),
{
    let ghost before = out@;
    match payload {
        StoredResultPayload::Heuristic(c) => {
            bytes::append_le(out, 0, 1);
            write_components(out, c);
        },
        StoredResultPayload::Prebuilt(detail) => {
            bytes::append_le(out, 1, 1);
            bytes::write_string(out, detail.as_str());
        },
    }
    proof {
        assert(out@ =~= before + payload_bytes(payload@));
    }
}

fn write_head(out: &mut Vec<u8>, record: &StoredResultRecord)
    ensures
        final(out)@ == old(out)@ + head_bytes(record@),
{
    let ghost before = out@;
    bytes::append_le(out, record.sequence, 8);
    bytes::append_le(out, ranking_kind_to_byte(record.ranking_kind) as u64, 1);
    let flags: u64 = (if record.is_dir {
        1u64
    } else {
        0u64
    }) + (if record.from_history {
        2u64
    } else {
        0u64
    }) + (if record.from_query_launch_rule {
        4u64
    } else {
        0u64
    });
    bytes::append_le(out, flags, 1);
    bytes::append_i32(out, record.display_score);
    bytes::append_i32(out, record.score);
    proof {
        assert(out@ =~= before + head_bytes(record@));
    }
}

/// Appends a record.
pub fn write_record(out: &mut Vec<u8>, record: &StoredResultRecord)
    ensures
        final(out)@ == old(out)@ + record_bytes(record@),
{
    let ghost before = out@;
    bytes::append_le(out, record.encoded_len() as u64, 4);
    write_head(out, record);
    bytes::write_string(out, record.title.as_str());
    bytes::write_string(out, record.subtitle.as_str());
    bytes::write_string(out, record.path.as_str());
    write_payload(out, &record.payload);
    proof {
        reveal(body_bytes);
        assert(out@ =~= before + record_bytes(record@));
    }
}

// ---------------------------------------------------------------------------
// Decoding
// ---------------------------------------------------------------------------

/// A text at a place, with the error that a store gives.
pub open spec fn stored_text(b: Seq<u8>, at: int) -> Result<(Seq<char>, int), StoreError> {
    match bytes::text_at(b, at) {
        Ok(found) => Ok(found),
        Err(e) => Err(read_error(e)),
    }
}

/// A signed number at a place.
pub open spec fn score_at(b: Seq<u8>, at: int) -> i32 {
    bytes::signed(bytes::le_value(b.subrange(at, at + 4)))
}

/// The parts of a score at a place.
pub open spec fn components_at(b: Seq<u8>, at: int) -> HeuristicScoreComponents {
    HeuristicScoreComponents {
        text_score: score_at(b, at),
        path_score: score_at(b, at + 4),
        index_score: score_at(b, at + 8),
        pattern_score: score_at(b, at + 12),
        history_score: score_at(b, at + 16),
        recency_score: score_at(b, at + 20),
        folder_score: score_at(b, at + 24),
        path_penalty: score_at(b, at + 28),
        final_score: score_at(b, at + 32),
    }
}

/// The last part of a record at a place, which must end where the bytes end.
pub open spec fn payload_at(b: Seq<u8>, at: int) -> Result<PayloadModel, StoreError> {
    if at >= b.len() {
        Err(StoreError::UnexpectedEnd)
    } else if b[at] == 0 {
        if at + 37 > b.len() {
            Err(StoreError::UnexpectedEnd)
        } else if at + 37 < b.len() {
            Err(StoreError::TrailingBytes)
        } else {
            Ok(PayloadModel::Heuristic(components_at(b, at + 1)))
        }
    } else if b[at] == 1 {
        match stored_text(b, at + 1) {
            Err(e) => Err(e),
            Ok((s, end)) => if end != b.len() {
                Err(StoreError::TrailingBytes)
            } else {
                Ok(PayloadModel::Prebuilt(s))
            },
        }
    } else {
        Err(StoreError::InvalidPayload)
    }
}

/// Three texts in a row at a place.
pub open spec fn texts_at(b: Seq<u8>, at: int) -> Result<
    (Seq<char>, Seq<char>, Seq<char>, int),
    StoreError,
> {
    match stored_text(b, at) {
        Err(e) => Err(e),
        Ok((title, a1)) => match stored_text(b, a1) {
            Err(e) => Err(e),
            Ok((subtitle, a2)) => match stored_text(b, a2) {
                Err(e) => Err(e),
                Ok((path, a3)) => Ok((title, subtitle, path, a3)),
            },
        },
    }
}

/// The record that bytes hold, without the count in front of it.
#[verifier::opaque]
pub open spec fn parsed_body(b: Seq<u8>) -> Result<RecordModel, StoreError> {
    if b.len() < 9 {
        Err(StoreError::UnexpectedEnd)
    } else {
        match kind_of(b[8] as nat) {
            None => Err(StoreError::InvalidRankingKind),
            Some(kind) => if b.len() < 18 {
                Err(StoreError::UnexpectedEnd)
            } else {
                match texts_at(b, 18) {
                    Err(e) => Err(e),
                    Ok((title, subtitle, path, at)) => match payload_at(b, at) {
                        Err(e) => Err(e),
                        Ok(payload) => Ok(
                            RecordModel {
                                sequence: bytes::le_value(b.subrange(0, 8)) as u64,
                                ranking_kind: kind,
                                display_score: score_at(b, 10),
                                score: score_at(b, 14),
                                is_dir: b[9] % 2 == 1,
                                from_history: (b[9] / 2) % 2 == 1,
                                from_query_launch_rule: (b[9] / 4) % 2 == 1,
                                title,
                                subtitle,
                                path,
                                payload,
                            },
                        ),
                    },
                }
            },
        }
    }
}

/// The record at a place, and where it ends.
pub open spec fn parsed_record(b: Seq<u8>, at: int) -> Result<(RecordModel, int), StoreError> {
    match bytes::number_at(b, at, 4) {
        None => Err(StoreError::UnexpectedEnd),
        Some(n) => match bytes::slice_of(b, at + 4, n as int) {
            None => Err(StoreError::UnexpectedEnd),
            Some(body) => match parsed_body(body) {
                Err(e) => Err(e),
                Ok(m) => Ok((m, at + 4 + n)),
            },
        },
    }
}

fn read_text(b: &[u8], at: usize) -> (r: Result<(String, usize), StoreError>)
    ensures
        match stored_text(b@, at as int) {
            Ok((s, end)) => r matches Ok(found) && found.0@ == s && found.1 == end && end
                <= b.len(),
            Err(e) => r matches Err(found) && found == e,
        },
{
    let mut place: usize = at;
    match bytes::read_string(b, &mut place) {
        Ok(s) => Ok((s, place)),
        Err(e) => Err(store_error(e)),
    }
}

fn read_score(b: &[u8], at: usize) -> (r: i32)
    requires
        at + 4 <= b.len(),
    ensures
        r == score_at(b@, at as int),
{
    let mut place: usize = at;
    match bytes::read_i32(b, &mut place) {
        Ok(v) => v,
        Err(_) => 0,
    }
}

fn read_payload(b: &[u8], at: usize) -> (r: Result<StoredResultPayload, StoreError>)
    ensures
        match payload_at(b@, at as int) {
            Ok(p) => r matches Ok(found) && found@ == p,
            Err(e) => r matches Err(found) && found == e,
        },
{
    if at >= b.len() {
        return Err(StoreError::UnexpectedEnd);
    }
    match b[at] {
        0 => {
            if b.len() - at < 37 {
                return Err(StoreError::UnexpectedEnd);
            }
            if b.len() - at > 37 {
                return Err(StoreError::TrailingBytes);
            }
            Ok(
                StoredResultPayload::Heuristic(
                    HeuristicScoreComponents {
                        text_score: read_score(b, at + 1),
                        path_score: read_score(b, at + 5),
                        index_score: read_score(b, at + 9),
                        pattern_score: read_score(b, at + 13),
                        history_score: read_score(b, at + 17),
                        recency_score: read_score(b, at + 21),
                        folder_score: read_score(b, at + 25),
                        path_penalty: read_score(b, at + 29),
                        final_score: read_score(b, at + 33),
                    },
                ),
            )
        },
        1 => match read_text(b, at + 1) {
            Err(e) => Err(e),
            Ok((s, end)) => if end != b.len() {
                Err(StoreError::TrailingBytes)
            } else {
                Ok(StoredResultPayload::Prebuilt(s))
            },
        },
        _ => Err(StoreError::InvalidPayload),
    }
}

/// Reads the record that bytes hold, without the count in front of it.
pub fn decode_record_body(b: &[u8]) -> (r: Result<StoredResultRecord, StoreError>)
    ensures
        match parsed_body(b@) {
            Ok(m) => r matches Ok(found) && found@ == m,
            Err(e) => r matches Err(found) && found == e,
        },
{
    proof {
        reveal(parsed_body);
    }
    if b.len() < 9 {
        return Err(StoreError::UnexpectedEnd);
    }
    let ranking_kind = match ranking_kind_from_byte(b[8]) {
        Ok(kind) => kind,
        Err(e) => {
            return Err(e);
        },
    };
    if b.len() < 18 {
        return Err(StoreError::UnexpectedEnd);
    }
    let mut place: usize = 0;
    let sequence: u64 = match bytes::read_u64(b, &mut place) {
        Ok(n) => n,
        Err(_) => 0,
    };
    let flags: u8 = b[9];
    let (title, a1): (String, usize) = match read_text(b, 18) {
        Ok(found) => found,
        Err(e) => {
            return Err(e);
        },
    };
    let (subtitle, a2): (String, usize) = match read_text(b, a1) {
        Ok(found) => found,
        Err(e) => {
            return Err(e);
        },
    };
    let (path, a3): (String, usize) = match read_text(b, a2) {
        Ok(found) => found,
        Err(e) => {
            return Err(e);
        },
    };
    let payload = match read_payload(b, a3) {
        Ok(payload) => payload,
        Err(e) => {
            return Err(e);
        },
    };
    Ok(
        StoredResultRecord {
            sequence,
            ranking_kind,
            display_score: read_score(b, 10),
            score: read_score(b, 14),
            is_dir: flags % 2 == 1,
            from_history: (flags / 2) % 2 == 1,
            from_query_launch_rule: (flags / 4) % 2 == 1,
            title,
            subtitle,
            path,
            payload,
        },
    )
}

/// Reads the record at a place, and moves the place behind it.
pub fn read_record(b: &[u8], at: &mut usize) -> (r: Result<StoredResultRecord, StoreError>)
    ensures
        match parsed_record(b@, *old(at) as int) {
            Ok((m, end)) => r matches Ok(found) && found@ == m && *final(at) == end,
            Err(e) => r matches Err(found) && found == e,
        },
{
    let n: u32 = match bytes::read_u32(b, at) {
        Ok(n) => n,
        Err(e) => {
            return Err(store_error(e));
        },
    };
    let start: usize = *at;
    if n as usize > b.len() - start {
        return Err(StoreError::UnexpectedEnd);
    }
    let end: usize = start + n as usize;
    match decode_record_body(vstd::slice::slice_subrange(b, start, end)) {
        Ok(record) => {
            *at = end;
            Ok(record)
        },
        Err(e) => Err(e),
    }
}

// ---------------------------------------------------------------------------
// A read gives back what was written
// ---------------------------------------------------------------------------

/// A number in the middle of bytes.
proof fn lemma_score_in(b: Seq<u8>, at: int, v: i32)
    requires
        0 <= at,
        at + 4 <= b.len(),
        b.subrange(at, at + 4) == bytes::le(bytes::unsigned(v), 4),
    ensures
        score_at(b, at) == v,
{
    bytes::lemma_span();
    bytes::lemma_signed_round_trip(v);
    bytes::lemma_le(bytes::unsigned(v), 4);
}

proof fn lemma_components_round_trip(c: HeuristicScoreComponents, before: Seq<u8>)
    ensures
        component_bytes(c).len() == 36,
        components_at(before + component_bytes(c), before.len() as int) == c,
{
    let b = before + component_bytes(c);
    let at = before.len() as int;
    bytes::lemma_le(bytes::unsigned(c.text_score), 4);
    bytes::lemma_le(bytes::unsigned(c.path_score), 4);
    bytes::lemma_le(bytes::unsigned(c.index_score), 4);
    bytes::lemma_le(bytes::unsigned(c.pattern_score), 4);
    bytes::lemma_le(bytes::unsigned(c.history_score), 4);
    bytes::lemma_le(bytes::unsigned(c.recency_score), 4);
    bytes::lemma_le(bytes::unsigned(c.folder_score), 4);
    bytes::lemma_le(bytes::unsigned(c.path_penalty), 4);
    bytes::lemma_le(bytes::unsigned(c.final_score), 4);
    assert(b.subrange(at, at + 4) =~= bytes::le(bytes::unsigned(c.text_score), 4));
    assert(b.subrange(at + 4, at + 8) =~= bytes::le(bytes::unsigned(c.path_score), 4));
    assert(b.subrange(at + 8, at + 12) =~= bytes::le(bytes::unsigned(c.index_score), 4));
    assert(b.subrange(at + 12, at + 16) =~= bytes::le(bytes::unsigned(c.pattern_score), 4));
    assert(b.subrange(at + 16, at + 20) =~= bytes::le(bytes::unsigned(c.history_score), 4));
    assert(b.subrange(at + 20, at + 24) =~= bytes::le(bytes::unsigned(c.recency_score), 4));
    assert(b.subrange(at + 24, at + 28) =~= bytes::le(bytes::unsigned(c.folder_score), 4));
    assert(b.subrange(at + 28, at + 32) =~= bytes::le(bytes::unsigned(c.path_penalty), 4));
    assert(b.subrange(at + 32, at + 36) =~= bytes::le(bytes::unsigned(c.final_score), 4));
    lemma_score_in(b, at, c.text_score);
    lemma_score_in(b, at + 4, c.path_score);
    lemma_score_in(b, at + 8, c.index_score);
    lemma_score_in(b, at + 12, c.pattern_score);
    lemma_score_in(b, at + 16, c.history_score);
    lemma_score_in(b, at + 20, c.recency_score);
    lemma_score_in(b, at + 24, c.folder_score);
    lemma_score_in(b, at + 28, c.path_penalty);
    lemma_score_in(b, at + 32, c.final_score);
}

proof fn lemma_payload_round_trip(p: PayloadModel, before: Seq<u8>)
    requires
        p matches PayloadModel::Prebuilt(s) ==> encode_utf8(s).len() <= u32::MAX,
    ensures
        payload_at(before + payload_bytes(p), before.len() as int) == Ok::<
            PayloadModel,
            StoreError,
        >(p),
        payload_bytes(p).len() == (match p {
            PayloadModel::Heuristic(_) => 37nat,
            PayloadModel::Prebuilt(s) => 5 + encode_utf8(s).len(),
        }),
{
    let b = before + payload_bytes(p);
    let at = before.len() as int;
    match p {
        PayloadModel::Heuristic(c) => {
            bytes::lemma_le(0, 1);
            let longer = before + bytes::le(0, 1);
            assert(bytes::le(0, 1)[0] == 0);
            lemma_components_round_trip(c, longer);
            assert(b =~= longer + component_bytes(c));
        },
        PayloadModel::Prebuilt(s) => {
            bytes::lemma_le(1, 1);
            let longer = before + bytes::le(1, 1);
            assert(bytes::le(1, 1)[0] == 1);
            bytes::lemma_text_round_trip(s, longer, Seq::empty());
            assert(b =~= longer + bytes::text_bytes(s) + Seq::<u8>::empty());
        },
    }
}

proof fn lemma_head_round_trip(m: RecordModel, after: Seq<u8>)
    ensures
        head_bytes(m).len() == 18,
        ({
            let b = head_bytes(m) + after;
            &&& bytes::le_value(b.subrange(0, 8)) == m.sequence
            &&& kind_of(b[8] as nat) == Some(m.ranking_kind)
            &&& (b[9] % 2 == 1) == m.is_dir
            &&& ((b[9] / 2) % 2 == 1) == m.from_history
            &&& ((b[9] / 4) % 2 == 1) == m.from_query_launch_rule
            &&& score_at(b, 10) == m.display_score
            &&& score_at(b, 14) == m.score
        }),
{
    let b = head_bytes(m) + after;
    let flags = flags_byte(m.is_dir, m.from_history, m.from_query_launch_rule);
    bytes::lemma_span();
    bytes::lemma_le(m.sequence as nat, 8);
    bytes::lemma_le(kind_byte(m.ranking_kind), 1);
    bytes::lemma_le(flags, 1);
    bytes::lemma_le(bytes::unsigned(m.display_score), 4);
    bytes::lemma_le(bytes::unsigned(m.score), 4);
    assert(b.subrange(0, 8) =~= bytes::le(m.sequence as nat, 8));
    assert(b[8] == bytes::le(kind_byte(m.ranking_kind), 1)[0]);
    assert(b[9] == bytes::le(flags, 1)[0]);
    assert(b.subrange(10, 14) =~= bytes::le(bytes::unsigned(m.display_score), 4));
    assert(b.subrange(14, 18) =~= bytes::le(bytes::unsigned(m.score), 4));
    lemma_score_in(b, 10, m.display_score);
    lemma_score_in(b, 14, m.score);
}

/// The bytes of a record are as many as its size, and reading them gives the
/// record back.
#[verifier::rlimit(100)]
#[verifier::spinoff_prover]
pub proof fn lemma_body_round_trip(m: RecordModel)
    requires
        record_size(m) <= u32::MAX,
    ensures
        parsed_body(body_bytes(m)) == Ok::<RecordModel, StoreError>(m),
        body_bytes(m).len() == record_size(m),
{
    reveal(body_bytes);
    reveal(parsed_body);
    let b = body_bytes(m);
    let t = bytes::text_bytes(m.title);
    let s = bytes::text_bytes(m.subtitle);
    let p = bytes::text_bytes(m.path);
    let y = payload_bytes(m.payload);
    let head = head_bytes(m);
    lemma_head_round_trip(m, t + s + p + y);
    assert(b =~= head + (t + s + p + y));
    bytes::lemma_text_round_trip(m.title, head, s + p + y);
    assert(b =~= head + t + (s + p + y));
    bytes::lemma_text_round_trip(m.subtitle, head + t, p + y);
    assert(b =~= (head + t) + s + (p + y));
    bytes::lemma_text_round_trip(m.path, head + t + s, y);
    lemma_payload_round_trip(m.payload, head + t + s + p);
}

proof fn lemma_framed(body: Seq<u8>, before: Seq<u8>, after: Seq<u8>)
    requires
        body.len() <= u32::MAX,
    ensures
        ({
            let whole = before + (bytes::le(body.len(), 4) + body) + after;
            let at = before.len() as int;
            &&& bytes::number_at(whole, at, 4) == Some(body.len())
            &&& bytes::slice_of(whole, at + 4, body.len() as int) == Some(body)
            &&& (bytes::le(body.len(), 4) + body).len() == 4 + body.len()
        }),
{
    bytes::lemma_span();
    let count = bytes::le(body.len(), 4);
    bytes::lemma_number_round_trip(body.len(), 4, before, body + after);
    let whole = before + (count + body) + after;
    assert(whole =~= before + count + (body + after));
    let at = before.len() as int;
    assert(whole.subrange(at + 4, at + 4 + body.len()) =~= body);
}

/// Reading a written record gives it back, wherever it stands.
pub proof fn lemma_record_round_trip(m: RecordModel, before: Seq<u8>, after: Seq<u8>)
    requires
        record_size(m) <= u32::MAX,
    ensures
        parsed_record(before + record_bytes(m) + after, before.len() as int) == Ok::<
            (RecordModel, int),
            StoreError,
        >((m, before.len() + record_bytes(m).len() as int)),
        record_bytes(m).len() == 4 + record_size(m),
{
    lemma_body_round_trip(m);
    let body = body_bytes(m);
    assert(crate::arith::min_int(record_size(m) as int, usize::MAX as int) == body.len());
    assert(record_bytes(m) == bytes::le(body.len(), 4) + body);
    lemma_framed(body, before, after);
}

} // verus!
