//! Speaker turns as stored: what the store accepts, and the stable keys turns
//! are filed under.
use vstd::prelude::*;
use vstd::utf8::encode_utf8;
use vstd::string::StringSliceAdditionalSpecFns;
use crate::diarization::offline::{label_number, label_number_of, numbered_key};
use crate::text::{
    all_ws, concat, hex_digit, i64_to_decimal, is_blank, owned, push_char, signed_decimal,
    u64_to_padded_decimal,
};

verus! {

/// A meeting speaker and the name people see for it.
#[derive(Debug, Clone)]
pub struct SpeakerProfile {
    pub speaker_key: String,
    pub display_name: String,
}

/// The parts of a speaker turn the store checks and files: its span, the
/// backend's label and the meeting-local key (empty when none was given).
#[derive(Debug, Clone)]
pub struct StoredTurn {
    pub start_ms: i64,
    pub end_ms: i64,
    pub speaker_label: String,
    pub speaker_key: String,
}

/// The 32-bit multiplicative hash of a label's UTF-8 bytes.
pub open spec fn label_hash(bytes: Seq<u8>) -> u32
    decreases bytes.len(),
{
    if bytes.len() == 0 {
        0
    } else {
        label_hash(bytes.drop_last()).wrapping_mul(16777619) ^ (bytes.last() as u32)
    }
}

pub fn crc32(bytes: &[u8]) -> (result: u32)
    ensures
        result == label_hash(bytes@),
{
    let mut hash: u32 = 0;
    let mut i: usize = 0;
    while i < bytes.len()
        invariant
            i <= bytes@.len(),
            hash == label_hash(bytes@.subrange(0, i as int)),
        decreases bytes@.len() - i,
    {
        proof {
            assert(bytes@.subrange(0, i + 1).drop_last() =~= bytes@.subrange(0, i as int));
        }
        hash = hash.wrapping_mul(16777619) ^ (bytes[i] as u32);
        i += 1;
    }
    assert(bytes@.subrange(0, bytes@.len() as int) =~= bytes@);
    hash
}

/// The low `width` hexadecimal digits of `v`, most significant first.
pub open spec fn hex_fixed(v: nat, width: nat) -> Seq<char>
    decreases width,
{
    if width == 0 {
        Seq::empty()
    } else {
        hex_fixed(v / 16, (width - 1) as nat).push(hex_digit((v % 16) as u8))
    }
}

fn hex_fixed_of(v: u32, width: usize) -> (result: String)
    ensures
        result@ == hex_fixed(v as nat, width as nat),
    decreases width,
{
    if width == 0 {
        String::new()
    } else {
        let mut s = hex_fixed_of(v / 16, width - 1);
        let d = (v % 16) as u8;
        let c = if d < 10 {
            ((48 + d) as u8) as char
        } else {
            ((87 + d) as u8) as char
        };
        push_char(&mut s, c);
        s
    }
}

/// The key a turn is filed under when the backend gave none: the number a
/// label ends in, else the label's hash as eight hex digits.
pub open spec fn key_from_label(label: Seq<char>) -> Seq<char> {
    match label_number(label) {
        Some(n) => numbered_key(n as nat),
        None => "speaker_"@ + hex_fixed(label_hash(encode_utf8(label)) as nat, 8),
    }
}

pub fn speaker_key_from_label(label: &str) -> (result: String)
    ensures
        result@ == key_from_label(label@),
{
    if let Some(number) = label_number_of(label) {
        let digits = u64_to_padded_decimal(number as u64, 2);
        return concat("speaker_", digits.as_str());
    }
    let hash = crc32(label.as_bytes());
    let hex = hex_fixed_of(hash, 8);
    concat("speaker_", hex.as_str())
}

/// The first reason a set of turns may not be stored, if any.
pub open spec fn turn_problem(turns: Seq<StoredTurn>, n: int) -> Option<Seq<char>>
    decreases n,
{
    if n <= 0 {
        None
    } else {
        match turn_problem(turns, n - 1) {
            Some(p) => Some(p),
            None => {
                let t = turns[n - 1];
                if t.end_ms <= t.start_ms {
                    Some(
                        "refusing to store a turn that ends before it starts ("@ + signed_decimal(
                            t.start_ms as int,
                        ) + " -> "@ + signed_decimal(t.end_ms as int) + ")"@,
                    )
                } else if all_ws(t.speaker_label@) {
                    Some("refusing to store a turn with no speaker label"@)
                } else {
                    None
                }
            },
        }
    }
}

proof fn lemma_turn_problem_stays(turns: Seq<StoredTurn>, k: int, n: int)
    requires
        0 <= k <= n,
        turn_problem(turns, k) is Some,
    ensures
        turn_problem(turns, n) == turn_problem(turns, k),
    decreases n - k,
{
    if n > k {
        lemma_turn_problem_stays(turns, k, n - 1);
    }
}

/// Why a replacement set of turns is refused: a blank meeting id, then the
/// first turn that is empty in time or has no label.
pub open spec fn replacement_problem(meeting_id: Seq<char>, turns: Seq<StoredTurn>) -> Option<Seq<char>> {
    if all_ws(meeting_id) {
        Some("meeting_id cannot be empty"@)
    } else {
        turn_problem(turns, turns.len() as int)
    }
}

/// The speaker-turn store.
#[derive(Debug, Clone, Copy, Default)]
pub struct SpeakerTurnsRepository;

impl SpeakerTurnsRepository {
    /// Checks a replacement set of turns before anything is written.
    pub fn validate_replacement(meeting_id: &str, turns: &[StoredTurn]) -> (result: Result<(), String>)
        ensures
            match result {
                Ok(_) => replacement_problem(meeting_id@, turns@) is None,
                Err(e) => replacement_problem(meeting_id@, turns@) == Some(e@),
            },
    {
        if is_blank(meeting_id) {
            return Err(owned("meeting_id cannot be empty"));
        }
        let mut i: usize = 0;
        while i < turns.len()
            invariant
                i <= turns@.len(),
                !all_ws(meeting_id@),
                turn_problem(turns@, i as int) is None,
            decreases turns@.len() - i,
        {
            let t = &turns[i];
            if t.end_ms <= t.start_ms {
                let mut msg = owned("refusing to store a turn that ends before it starts (");
                let start = i64_to_decimal(t.start_ms);
                msg.append(start.as_str());
                msg.append(" -> ");
                let end = i64_to_decimal(t.end_ms);
                msg.append(end.as_str());
                msg.append(")");
                proof {
                    assert(turns@[i as int] == *t);
                    assert(turn_problem(turns@, i + 1) == Some(msg@));
                    lemma_turn_problem_stays(turns@, i + 1, turns@.len() as int);
                }
                return Err(msg);
            }
            if is_blank(t.speaker_label.as_str()) {
                let msg = owned("refusing to store a turn with no speaker label");
                proof {
                    assert(turns@[i as int] == *t);
                    assert(turn_problem(turns@, i + 1) == Some(msg@));
                    lemma_turn_problem_stays(turns@, i + 1, turns@.len() as int);
                }
                return Err(msg);
            }
            assert(turns@[i as int] == *t);
            i += 1;
        }
        Ok(())
    }

    /// Checks a rename: neither the key nor the new name may be blank.
    pub fn validate_rename(speaker_key: &str, display_name: &str) -> (result: Result<(), String>)
        ensures
            result is Ok <==> !all_ws(speaker_key@) && !all_ws(display_name@),
            result matches Err(e) ==> e@ == "speaker key and display name cannot be empty"@,
    {
        if is_blank(speaker_key) || is_blank(display_name) {
            Err(owned("speaker key and display name cannot be empty"))
        } else {
            Ok(())
        }
    }

    /// The key a turn is stored under: its own key, or one derived from its label.
    pub fn stored_key(turn: &StoredTurn) -> (result: String)
        ensures
            result@ == (if turn.speaker_key@.len() == 0 {
                key_from_label(turn.speaker_label@)
            } else {
                turn.speaker_key@
            }),
    {
        if turn.speaker_key.as_str().unicode_len() == 0 {
            speaker_key_from_label(turn.speaker_label.as_str())
        } else {
            owned(turn.speaker_key.as_str())
        }
    }
}

} // verus!
