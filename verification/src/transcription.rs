//! Transcription results as the providers hand them on: what timing a
//! provider offers, and how the Parakeet decoder's incremental output is cut
//! into per-token surface pieces.
use vstd::prelude::*;
use vstd::utf8::encode_utf8;
use vstd::string::StringSliceAdditionalSpecFns;
use crate::strings::views;
use crate::text::{char_at, char_len, char_slice, owned, trim, trim_spec};

verus! {

/// Which kinds of timing a provider reports.
#[derive(Debug, Clone, Copy, PartialEq, Eq, Structural)]
pub struct TranscriptionCapabilities {
    pub segment_timestamps: bool,
    pub token_timestamps: bool,
    pub word_timestamps: bool,
    pub token_confidence: bool,
}

impl Default for TranscriptionCapabilities {
    fn default() -> (result: Self)
        ensures
            !result.segment_timestamps && !result.token_timestamps && !result.word_timestamps
                && !result.token_confidence,
    {
        TranscriptionCapabilities {
            segment_timestamps: false,
            token_timestamps: false,
            word_timestamps: false,
            token_confidence: false,
        }
    }
}

/// Where a token's time comes from.
#[derive(Debug, Clone, Copy, PartialEq, Eq, Structural)]
pub enum TimingSource {
    /// The engine's own token interval.
    NativeToken,
    /// The decoder step at which the token was emitted (a start only).
    NativeTokenEmission,
}

/// A piece of transcript text with its time.
#[derive(Debug, Clone)]
pub struct TimedToken {
    pub text: String,
    pub start_ms: i64,
    pub end_ms: Option<i64>,
    pub timing_source: TimingSource,
}

/// Token timing of one transcript, with the provider that produced it.
#[derive(Debug, Clone)]
pub struct TranscriptTiming {
    pub provider: String,
    pub capabilities: TranscriptionCapabilities,
    pub tokens: Vec<TimedToken>,
}

/// A transcript and, when it could be trusted, its token timing.
#[derive(Debug, Clone)]
pub struct TranscriptResult {
    pub text: String,
    pub is_partial: bool,
    pub timing: Option<TranscriptTiming>,
}

/// Parakeet reports token emission times only.
pub fn parakeet_capabilities() -> (result: TranscriptionCapabilities)
    ensures
        result == (TranscriptionCapabilities {
            segment_timestamps: false,
            token_timestamps: true,
            word_timestamps: false,
            token_confidence: false,
        }),
{
    TranscriptionCapabilities {
        segment_timestamps: false,
        token_timestamps: true,
        word_timestamps: false,
        token_confidence: false,
    }
}

/// Whisper reports BPE token intervals and confidences: token timing, never
/// word or segment timing.
pub fn whisper_capabilities() -> (result: TranscriptionCapabilities)
    ensures
        result == (TranscriptionCapabilities {
            segment_timestamps: false,
            token_timestamps: true,
            word_timestamps: false,
            token_confidence: true,
        }),
{
    TranscriptionCapabilities {
        token_timestamps: true,
        token_confidence: true,
        ..TranscriptionCapabilities::default()
    }
}

/// The Parakeet provider, around its engine.
pub struct ParakeetProvider<E> {
    engine: E,
}

impl<E> ParakeetProvider<E> {
    pub fn new(engine: E) -> (result: Self)
        ensures
            result.engine() == engine,
    {
        ParakeetProvider { engine }
    }

    pub closed spec fn engine(&self) -> E {
        self.engine
    }

    pub fn engine_ref(&self) -> (result: &E)
        ensures
            *result == self.engine(),
    {
        &self.engine
    }

    pub fn provider_name(&self) -> (result: &'static str)
        ensures
            result@ == "Parakeet"@,
    {
        "Parakeet"
    }
}

/// The Whisper provider, around its engine.
pub struct WhisperProvider<E> {
    engine: E,
}

impl<E> WhisperProvider<E> {
    pub fn new(engine: E) -> (result: Self)
        ensures
            result.engine() == engine,
    {
        WhisperProvider { engine }
    }

    pub closed spec fn engine(&self) -> E {
        self.engine
    }

    pub fn engine_ref(&self) -> (result: &E)
        ensures
            *result == self.engine(),
    {
        &self.engine
    }

    pub fn provider_name(&self) -> (result: &'static str)
        ensures
            result@ == "Whisper"@,
    {
        "Whisper"
    }
}

/// The length, in characters, of the longest common prefix of `a` and `b`
/// from position `i` on.
pub open spec fn common_from(a: Seq<char>, b: Seq<char>, i: int) -> int
    decreases a.len() - i,
{
    if 0 <= i < a.len() && i < b.len() && a[i] == b[i] {
        common_from(a, b, i + 1)
    } else {
        i
    }
}

pub open spec fn common_chars(a: Seq<char>, b: Seq<char>) -> int {
    common_from(a, b, 0)
}

proof fn lemma_common_from(a: Seq<char>, b: Seq<char>, i: int)
    requires
        0 <= i <= a.len(),
        i <= b.len(),
        a.subrange(0, i) == b.subrange(0, i),
    ensures
        i <= common_from(a, b, i) <= a.len(),
        common_from(a, b, i) <= b.len(),
        a.subrange(0, common_from(a, b, i)) == b.subrange(0, common_from(a, b, i)),
        common_from(a, b, i) < a.len() && common_from(a, b, i) < b.len() ==> a[common_from(a, b, i)]
            != b[common_from(a, b, i)],
    decreases a.len() - i,
{
    if i < a.len() && i < b.len() && a[i] == b[i] {
        assert(a.subrange(0, i + 1) =~= a.subrange(0, i).push(a[i]));
        assert(b.subrange(0, i + 1) =~= b.subrange(0, i).push(b[i]));
        lemma_common_from(a, b, i + 1);
    }
}

pub proof fn lemma_common_chars(a: Seq<char>, b: Seq<char>)
    ensures
        0 <= common_chars(a, b) <= a.len(),
        common_chars(a, b) <= b.len(),
        a.subrange(0, common_chars(a, b)) == b.subrange(0, common_chars(a, b)),
{
    assert(a.subrange(0, 0) =~= b.subrange(0, 0));
    lemma_common_from(a, b, 0);
}

fn common_prefix_chars(left: &str, right: &str) -> (result: usize)
    ensures
        result == common_chars(left@, right@),
{
    let nl = char_len(left);
    let nr = char_len(right);
    let mut i: usize = 0;
    while i < nl && i < nr && char_at(left, i) == char_at(right, i)
        invariant
            nl == left@.len(),
            nr == right@.len(),
            i <= nl,
            common_from(left@, right@, i as int) == common_from(left@, right@, 0),
        decreases nl - i,
    {
        i += 1;
    }
    i
}

/// The UTF-8 length of the longest common character prefix of two strings.
pub fn common_prefix_bytes(left: &str, right: &str) -> (result: usize)
    ensures
        result == encode_utf8(left@.subrange(0, common_chars(left@, right@))).len(),
{
    let k = common_prefix_chars(left, right);
    proof {
        lemma_common_chars(left@, right@);
    }
    let prefix = char_slice(left, 0, k);
    prefix.as_bytes().len()
}

/// Removes `r` characters from the end of the pieces, last piece first.
pub open spec fn trim_tail(ps: Seq<Seq<char>>, r: nat) -> Seq<Seq<char>>
    decreases ps.len(),
{
    if r == 0 || ps.len() == 0 {
        ps
    } else {
        let last = ps.last();
        let take = if r <= last.len() {
            r
        } else {
            last.len()
        };
        trim_tail(ps.drop_last(), (r - take) as nat).push(last.subrange(0, last.len() - take))
    }
}

/// All pieces joined.
pub open spec fn joined(ps: Seq<Seq<char>>) -> Seq<char>
    decreases ps.len(),
{
    if ps.len() == 0 {
        Seq::empty()
    } else {
        joined(ps.drop_last()) + ps.last()
    }
}

/// The surface pieces after the first `n` decoder outputs: each output
/// keeps the common prefix with the previous one, cuts what changed from the
/// earlier pieces, and adds the rest as its own piece.
pub open spec fn pieces_after(decoded: Seq<Seq<char>>, n: int) -> Seq<Seq<char>>
    decreases n,
{
    if n <= 0 {
        Seq::empty()
    } else {
        let prev = if n >= 2 {
            decoded[n - 2]
        } else {
            Seq::<char>::empty()
        };
        let cur = decoded[n - 1];
        let common = common_chars(prev, cur);
        trim_tail(pieces_after(decoded, n - 1), (prev.len() - common) as nat).push(
            cur.subrange(common, cur.len() as int),
        )
    }
}

proof fn lemma_trim_tail_len(ps: Seq<Seq<char>>, r: nat)
    ensures
        trim_tail(ps, r).len() == ps.len(),
    decreases ps.len(),
{
    if r > 0 && ps.len() > 0 {
        let last = ps.last();
        let take = if r <= last.len() {
            r
        } else {
            last.len()
        };
        lemma_trim_tail_len(ps.drop_last(), (r - take) as nat);
    }
}

proof fn lemma_pieces_len(decoded: Seq<Seq<char>>, n: int)
    requires
        0 <= n,
    ensures
        pieces_after(decoded, n).len() == n,
    decreases n,
{
    if n > 0 {
        lemma_pieces_len(decoded, n - 1);
        let prev = if n >= 2 {
            decoded[n - 2]
        } else {
            Seq::<char>::empty()
        };
        let cur = decoded[n - 1];
        lemma_trim_tail_len(pieces_after(decoded, n - 1), (prev.len() - common_chars(prev, cur)) as nat);
    }
}

proof fn lemma_joined_push(ps: Seq<Seq<char>>, p: Seq<char>)
    ensures
        joined(ps.push(p)) == joined(ps) + p,
{
    assert(ps.push(p).drop_last() =~= ps);
}

proof fn lemma_trim_tail(ps: Seq<Seq<char>>, r: nat)
    requires
        r <= joined(ps).len(),
    ensures
        trim_tail(ps, r).len() == ps.len(),
        joined(trim_tail(ps, r)) == joined(ps).subrange(0, joined(ps).len() - r),
    decreases ps.len(),
{
    if r == 0 || ps.len() == 0 {
        assert(joined(ps).subrange(0, joined(ps).len() as int) =~= joined(ps));
    } else {
        let last = ps.last();
        let take = if r <= last.len() {
            r
        } else {
            last.len()
        };
        let rest = ps.drop_last();
        assert(joined(ps) == joined(rest) + last);
        lemma_trim_tail(rest, (r - take) as nat);
        lemma_joined_push(trim_tail(rest, (r - take) as nat), last.subrange(0, last.len() - take));
        assert(joined(trim_tail(ps, r)) =~= joined(ps).subrange(0, joined(ps).len() - r));
    }
}

/// Law: joined, the surface pieces reproduce the decoder's last output
/// exactly, and there is one piece per token.
pub proof fn law_pieces_reproduce_decoded_text(decoded: Seq<Seq<char>>, n: int)
    requires
        1 <= n <= decoded.len(),
    ensures
        pieces_after(decoded, n).len() == n,
        joined(pieces_after(decoded, n)) == decoded[n - 1],
    decreases n,
{
    let prev = if n >= 2 {
        decoded[n - 2]
    } else {
        Seq::<char>::empty()
    };
    let cur = decoded[n - 1];
    let common = common_chars(prev, cur);
    lemma_common_chars(prev, cur);
    if n >= 2 {
        law_pieces_reproduce_decoded_text(decoded, n - 1);
    } else {
        assert(joined(pieces_after(decoded, 0)) =~= prev);
    }
    let before = pieces_after(decoded, n - 1);
    lemma_trim_tail(before, (prev.len() - common) as nat);
    lemma_joined_push(trim_tail(before, (prev.len() - common) as nat), cur.subrange(common, cur.len() as int));
    assert(prev.subrange(0, common) =~= cur.subrange(0, common));
    assert(joined(pieces_after(decoded, n)) =~= cur);
}

/// Cuts the pieces `0..upto` from the end by `remove` characters.
fn trim_pieces(pieces: &mut Vec<String>, upto: usize, remove: usize)
    requires
        upto <= old(pieces)@.len(),
    ensures
        final(pieces)@.len() == old(pieces)@.len(),
        views(final(pieces)@).subrange(0, upto as int) == trim_tail(views(old(pieces)@).subrange(0, upto as int), remove as nat),
        views(final(pieces)@).subrange(upto as int, final(pieces)@.len() as int) == views(old(pieces)@).subrange(upto as int, old(pieces)@.len() as int),
    decreases upto,
{
    let ghost original = views(pieces@);
    if remove == 0 || upto == 0 {
        return;
    }
    let k = upto - 1;
    let piece_len = char_len(pieces[k].as_str());
    let take = if remove <= piece_len {
        remove
    } else {
        piece_len
    };
    let kept = owned(char_slice(pieces[k].as_str(), 0, piece_len - take));
    pieces.set(k, kept);
    let ghost mid = views(pieces@);
    proof {
        assert(mid =~= original.update(k as int, original[k as int].subrange(0, piece_len - take)));
    }
    trim_pieces(pieces, k, remove - take);
    proof {
        let ps = original.subrange(0, upto as int);
        assert(ps.drop_last() =~= original.subrange(0, k as int));
        assert(ps.last() == original[k as int]);
        assert(mid.subrange(0, k as int) =~= original.subrange(0, k as int));
        let after = views(pieces@);
        assert(after.len() == mid.len());
        assert(after.subrange(k as int, after.len() as int) == mid.subrange(k as int, mid.len() as int));
        assert(after.subrange(k as int, after.len() as int)[0] == after[k as int]);
        assert(mid.subrange(k as int, mid.len() as int)[0] == mid[k as int]);
        assert(after[k as int] == mid[k as int]);
        assert forall|q: int| upto <= q < after.len() implies after[q] == original[q] by {
            assert(after.subrange(k as int, after.len() as int)[q - k] == after[q]);
            assert(mid.subrange(k as int, mid.len() as int)[q - k] == mid[q]);
        }
        assert(views(pieces@).subrange(0, upto as int) =~= views(pieces@).subrange(0, k as int).push(views(pieces@)[k as int]));
        assert(views(pieces@).subrange(upto as int, pieces@.len() as int) =~= original.subrange(upto as int, original.len() as int));
    }
}

/// Attributes every change in the decoder's incremental output to the token
/// that caused it. `decoded[i]` is the decoder's text for tokens `0..=i`.
pub fn surface_token_pieces(decoded: &[String]) -> (result: Vec<String>)
    ensures
        views(result@) == pieces_after(views(decoded@), decoded@.len() as int),
{
    let ghost d = views(decoded@);
    let mut pieces: Vec<String> = Vec::new();
    let mut previous = String::new();
    let mut index: usize = 0;
    while index < decoded.len()
        invariant
            index <= decoded@.len(),
            d == views(decoded@),
            views(pieces@) == pieces_after(d, index as int),
            previous@ == (if index >= 1 {
                d[index - 1]
            } else {
                Seq::<char>::empty()
            }),
        decreases decoded@.len() - index,
    {
        let current = decoded[index].as_str();
        assert(d[index as int] == current@);
        let common = common_prefix_chars(previous.as_str(), current);
        proof {
            lemma_common_chars(previous@, current@);
        }
        let previous_len = char_len(previous.as_str());
        let remove = previous_len - common;
        let ghost before = views(pieces@);
        proof {
            lemma_pieces_len(d, index as int);
        }
        trim_pieces(&mut pieces, index, remove);
        proof {
            assert(views(pieces@).subrange(0, index as int) =~= views(pieces@));
            assert(before.subrange(0, index as int) =~= before);
        }
        let added = owned(char_slice(current, common, char_len(current)));
        pieces.push(added);
        proof {
            assert(views(pieces@) =~= pieces_after(d, index + 1));
        }
        previous = owned(current);
        index += 1;
    }
    pieces
}

/// Emission-timed tokens: piece `i` starts at `starts[i]`, with no end.
pub open spec fn emission_tokens(pieces: Seq<Seq<char>>, starts: Seq<Option<i64>>, tokens: Seq<TimedToken>) -> bool {
    &&& tokens.len() == pieces.len()
    &&& forall|i: int|
        0 <= i < tokens.len() ==> {
            &&& (#[trigger] tokens[i]).text@ == pieces[i]
            &&& starts[i] == Some(tokens[i].start_ms)
            &&& tokens[i].end_ms is None
            &&& tokens[i].timing_source == TimingSource::NativeTokenEmission
        }
}

pub open spec fn all_timed(starts: Seq<Option<i64>>) -> bool {
    forall|i: int| 0 <= i < starts.len() ==> (#[trigger] starts[i]) is Some
}

/// A Parakeet result: the trimmed text, never partial; token timing only
/// when every token has a representable emission time and the pieces line
/// up one to one with the times. `decoded[i]` is the decoder's text for
/// tokens `0..=i`; `starts[i]` is token `i`'s emission time in
/// milliseconds, `None` where the engine's time was not a finite number.
pub fn transcript_result_from_native(text: &str, decoded: &[String], starts: &[Option<i64>]) -> (result: TranscriptResult)
    ensures
        result.text@ == trim_spec(text@),
        !result.is_partial,
        match result.timing {
            Some(t) => {
                let pieces = pieces_after(views(decoded@), decoded@.len() as int);
                &&& pieces.len() == starts@.len()
                &&& all_timed(starts@)
                &&& t.provider@ == "parakeet"@
                &&& t.capabilities == parakeet_capabilities_spec()
                &&& emission_tokens(pieces, starts@, t.tokens@)
            },
            None => pieces_after(views(decoded@), decoded@.len() as int).len() != starts@.len()
                || !all_timed(starts@),
        },
{
    let pieces = surface_token_pieces(decoded);
    let ghost pv = views(pieces@);
    let mut timing: Option<TranscriptTiming> = None;
    if pieces.len() == starts.len() {
        let mut tokens: Vec<TimedToken> = Vec::new();
        let mut complete = true;
        let mut i: usize = 0;
        while i < pieces.len()
            invariant
                i <= pieces@.len(),
                pieces@.len() == starts@.len(),
                pv == views(pieces@),
                complete ==> tokens@.len() == i,
                complete ==> forall|k: int|
                    0 <= k < i ==> {
                        &&& (#[trigger] tokens@[k]).text@ == pv[k]
                        &&& starts@[k] == Some(tokens@[k].start_ms)
                        &&& tokens@[k].end_ms is None
                        &&& tokens@[k].timing_source == TimingSource::NativeTokenEmission
                    },
                complete ==> forall|k: int| 0 <= k < i ==> (#[trigger] starts@[k]) is Some,
                !complete ==> !all_timed(starts@),
            decreases pieces@.len() - i,
        {
            match starts[i] {
                Some(start_ms) => {
                    if complete {
                        assert(pv[i as int] == pieces@[i as int]@);
                        tokens.push(
                            TimedToken {
                                text: owned(pieces[i].as_str()),
                                start_ms,
                                end_ms: None,
                                timing_source: TimingSource::NativeTokenEmission,
                            },
                        );
                    }
                },
                None => {
                    complete = false;
                },
            }
            i += 1;
        }
        if complete {
            timing = Some(
                TranscriptTiming {
                    provider: owned("parakeet"),
                    capabilities: parakeet_capabilities(),
                    tokens,
                },
            );
        }
    }
    TranscriptResult { text: trim(text), is_partial: false, timing }
}

pub open spec fn parakeet_capabilities_spec() -> TranscriptionCapabilities {
    TranscriptionCapabilities {
        segment_timestamps: false,
        token_timestamps: true,
        word_timestamps: false,
        token_confidence: false,
    }
}

/// A Whisper token as the engine reports it.
#[derive(Debug, Clone)]
pub struct WhisperNativeToken {
    pub text: String,
    pub start_ms: i64,
    pub end_ms: Option<i64>,
}

pub open spec fn nonempty_tokens(tokens: Seq<WhisperNativeToken>) -> Seq<WhisperNativeToken> {
    tokens.filter(|t: WhisperNativeToken| t.text@.len() > 0)
}

/// Whisper's tokens with their own intervals; empty tokens are dropped.
pub fn whisper_timed_tokens(tokens: &Vec<WhisperNativeToken>) -> (result: Vec<TimedToken>)
    ensures
        result@.len() == nonempty_tokens(tokens@).len(),
        forall|i: int|
            0 <= i < result@.len() ==> {
                let t = nonempty_tokens(tokens@)[i];
                &&& (#[trigger] result@[i]).text@ == t.text@
                &&& result@[i].start_ms == t.start_ms
                &&& result@[i].end_ms == t.end_ms
                &&& result@[i].timing_source == TimingSource::NativeToken
            },
{
    let mut out: Vec<TimedToken> = Vec::new();
    let mut i: usize = 0;
    while i < tokens.len()
        invariant
            i <= tokens@.len(),
            out@.len() == nonempty_tokens(tokens@.subrange(0, i as int)).len(),
            forall|k: int|
                0 <= k < out@.len() ==> {
                    let t = nonempty_tokens(tokens@.subrange(0, i as int))[k];
                    &&& (#[trigger] out@[k]).text@ == t.text@
                    &&& out@[k].start_ms == t.start_ms
                    &&& out@[k].end_ms == t.end_ms
                    &&& out@[k].timing_source == TimingSource::NativeToken
                },
        decreases tokens@.len() - i,
    {
        let t = &tokens[i];
        proof {
            assert(tokens@.subrange(0, i + 1) =~= tokens@.subrange(0, i as int).push(*t));
            tokens@.subrange(0, i as int).lemma_filter_push(*t, |x: WhisperNativeToken| x.text@.len() > 0);
        }
        if char_len(t.text.as_str()) > 0 {
            out.push(TimedToken {
                text: owned(t.text.as_str()),
                start_ms: t.start_ms,
                end_ms: t.end_ms,
                timing_source: TimingSource::NativeToken,
            });
        }
        i += 1;
    }
    assert(tokens@.subrange(0, tokens@.len() as int) =~= tokens@);
    out
}

} // verus!
