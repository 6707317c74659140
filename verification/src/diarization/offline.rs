//! Offline diarization: the service that runs a backend over a finished
//! recording, and the meeting-local keys given to the clusters it returns.
use vstd::prelude::*;
use crate::strings::{insert_unique, seq_lt, str_lt, views};
use crate::text::{
    char_at, char_len, char_slice, decimal_padded, is_whitespace, is_ws, parse_usize,
    parse_usize_spec, str_eq, trail_ws, u64_to_padded_decimal,
};

verus! {

/// Where the last whitespace-separated token of `s[..end]` starts.
pub open spec fn token_start(s: Seq<char>, end: int) -> int
    decreases end,
{
    if end <= 0 {
        0
    } else if is_ws(s[end - 1]) {
        end
    } else {
        token_start(s, end - 1)
    }
}

/// The last token of `s.split_whitespace()`, if any.
pub open spec fn last_token(s: Seq<char>) -> Option<Seq<char>> {
    let end = s.len() - trail_ws(s);
    if end <= 0 {
        None
    } else {
        Some(s.subrange(token_start(s, end), end))
    }
}

/// The number a label ends in, as `"Speaker 7"` ends in 7.
pub open spec fn label_number(label: Seq<char>) -> Option<usize> {
    match last_token(label) {
        Some(token) => parse_usize_spec(token),
        None => None,
    }
}

proof fn lemma_token_start(s: Seq<char>, end: int)
    requires
        0 <= end <= s.len(),
    ensures
        0 <= token_start(s, end) <= end,
        forall|k: int| token_start(s, end) <= k < end ==> !is_ws(#[trigger] s[k]),
        token_start(s, end) > 0 ==> is_ws(s[token_start(s, end) - 1]),
    decreases end,
{
    if end > 0 && !is_ws(s[end - 1]) {
        lemma_token_start(s, end - 1);
    }
}

fn last_token_of(s: &str) -> (result: Option<&str>)
    ensures
        match result {
            Some(t) => last_token(s@) == Some(t@),
            None => last_token(s@) is None,
        },
{
    let n = char_len(s);
    let mut end: usize = n;
    while end > 0 && is_whitespace(char_at(s, end - 1))
        invariant
            n == s@.len(),
            end <= n,
            forall|k: int| end <= k < n ==> is_ws(#[trigger] s@[k]),
        decreases end,
    {
        end -= 1;
    }
    proof {
        crate::text::lemma_trail_ws_from(s@, end as int);
        crate::text::lemma_trail_ws_bound(s@.subrange(0, end as int));
        if end > 0 {
            assert(!is_ws(s@[end - 1]));
            assert(s@.subrange(0, end as int).last() == s@[end - 1]);
        }
        assert(trail_ws(s@.subrange(0, end as int)) == 0);
    }
    if end == 0 {
        return None;
    }
    let mut start: usize = end;
    while start > 0 && !is_whitespace(char_at(s, start - 1))
        invariant
            n == s@.len(),
            start <= end <= n,
            end > 0,
            token_start(s@, end as int) == token_start(s@, start as int),
        decreases start,
    {
        start -= 1;
    }
    Some(char_slice(s, start, end))
}

/// The number a label ends in, if its last token is a number.
pub fn label_number_of(label: &str) -> (result: Option<usize>)
    ensures
        result == label_number(label@),
{
    match last_token_of(label) {
        Some(token) => parse_usize(token),
        None => None,
    }
}

/// One plus the number of distinct labels ordered before `label`, when
/// `label` is one of `labels`; 1 otherwise. This is `label`'s 1-based
/// position in the sorted, deduplicated labels.
pub open spec fn label_rank(label: Seq<char>, labels: Seq<Seq<char>>) -> nat {
    if labels.contains(label) {
        labels.to_set().filter(|l: Seq<char>| seq_lt(l, label)).len() + 1
    } else {
        1
    }
}

/// `speaker_NN`, with at least two digits.
pub open spec fn numbered_key(n: nat) -> Seq<char> {
    "speaker_"@ + decimal_padded(n, 2)
}

/// A label that ends in a number keeps that number; any other label is
/// numbered by its place among the labels of the pass.
pub open spec fn key_for_label(label: Seq<char>, labels: Seq<Seq<char>>) -> Seq<char> {
    match label_number(label) {
        Some(n) => numbered_key(n as nat),
        None => numbered_key(label_rank(label, labels)),
    }
}

/// Stable meeting-local keys. These are identifiers, never a claimed identity.
pub fn speaker_key_for_label(label: &str, labels: &[String]) -> (result: String)
    ensures
        result@ == key_for_label(label@, views(labels@)),
{
    if let Some(number) = label_number_of(label) {
        let mut key = crate::text::owned("speaker_");
        let digits = u64_to_padded_decimal(number as u64, 2);
        key.append(digits.as_str());
        return key;
    }
    let ghost all = views(labels@);
    let mut smaller: Vec<String> = Vec::new();
    let mut present = false;
    let mut i: usize = 0;
    while i < labels.len()
        invariant
            i <= labels@.len(),
            all == views(labels@),
            views(smaller@).no_duplicates(),
            views(smaller@).to_set() == all.subrange(0, i as int).to_set().filter(
                |l: Seq<char>| seq_lt(l, label@),
            ),
            present == all.subrange(0, i as int).contains(label@),
        decreases labels@.len() - i,
    {
        let ghost prev = all.subrange(0, i as int);
        proof {
            assert(all.subrange(0, i + 1) =~= prev.push(labels@[i as int]@));
            prev.lemma_push_to_set_commute(labels@[i as int]@);
        }
        let candidate = &labels[i];
        if str_eq(candidate.as_str(), label) {
            present = true;
            proof {
                crate::strings::lemma_seq_lt_order(label@, label@, label@);
                assert(prev.push(label@).to_set().filter(|l: Seq<char>| seq_lt(l, label@)) =~= prev.to_set().filter(
                    |l: Seq<char>| seq_lt(l, label@),
                ));
                assert(prev.push(label@)[i as int] == label@);
            }
        } else {
            if str_lt(candidate.as_str(), label) {
                insert_unique(&mut smaller, candidate.clone());
                proof {
                    assert(prev.push(candidate@).to_set().filter(|l: Seq<char>| seq_lt(l, label@)) =~= prev.to_set().filter(
                        |l: Seq<char>| seq_lt(l, label@),
                    ).insert(candidate@));
                }
            } else {
                proof {
                    assert(prev.push(candidate@).to_set().filter(|l: Seq<char>| seq_lt(l, label@)) =~= prev.to_set().filter(
                        |l: Seq<char>| seq_lt(l, label@),
                    ));
                }
            }
            proof {
                assert(prev.push(candidate@).contains(label@) == prev.contains(label@)) by {
                    if prev.push(candidate@).contains(label@) {
                        let k = choose|k: int| 0 <= k < prev.push(candidate@).len() && prev.push(candidate@)[k] == label@;
                        if k < prev.len() {
                            assert(prev[k] == label@);
                        }
                    }
                    if prev.contains(label@) {
                        let k = choose|k: int| 0 <= k < prev.len() && prev[k] == label@;
                        assert(prev.push(candidate@)[k] == label@);
                    }
                }
            }
        }
        i += 1;
    }
    proof {
        assert(all.subrange(0, labels@.len() as int) =~= all);
        views(smaller@).unique_seq_to_set();
        if present {
            let lt_set = all.to_set().filter(|l: Seq<char>| seq_lt(l, label@));
            crate::strings::lemma_seq_lt_order(label@, label@, label@);
            assert(lt_set.subset_of(all.to_set().remove(label@)));
            all.lemma_cardinality_of_set();
            vstd::set_lib::lemma_len_subset(lt_set, all.to_set().remove(label@));
            assert(all.len() == labels@.len());
        }
    }
    let rank: usize = if present {
        smaller.len() + 1
    } else {
        1
    };
    let mut key = crate::text::owned("speaker_");
    let digits = u64_to_padded_decimal(rank as u64, 2);
    key.append(digits.as_str());
    key
}

/// Runs a diarization backend over a finished recording.
pub struct OfflineDiarizationService<B> {
    backend: B,
}

impl<B> OfflineDiarizationService<B> {
    pub fn new(backend: B) -> (result: Self)
        ensures
            result.backend() == backend,
    {
        OfflineDiarizationService { backend }
    }

    pub closed spec fn backend(&self) -> B {
        self.backend
    }

    /// The backend this service runs.
    pub fn backend_ref(&self) -> (result: &B)
        ensures
            *result == self.backend(),
    {
        &self.backend
    }
}


/// The key of each turn of a pass, given the labels of all its turns in
/// order: `keys[i]` is the key of `labels[i]` among all of them.
pub fn segment_keys(labels: &Vec<String>) -> (result: Vec<String>)
    ensures
        result@.len() == labels@.len(),
        forall|i: int| 0 <= i < labels@.len() ==> (#[trigger] result@[i])@ == key_for_label(labels@[i]@, views(labels@)),
{
    let mut out: Vec<String> = Vec::new();
    let mut i: usize = 0;
    while i < labels.len()
        invariant
            i <= labels@.len(),
            out@.len() == i,
            forall|k: int| 0 <= k < i ==> (#[trigger] out@[k])@ == key_for_label(labels@[k]@, views(labels@)),
        decreases labels@.len() - i,
    {
        let key = speaker_key_for_label(labels[i].as_str(), labels.as_slice());
        out.push(key);
        i += 1;
    }
    out
}

} // verus!
