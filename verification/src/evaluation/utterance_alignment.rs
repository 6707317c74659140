//! Exact speaker alignment for utterance-reconstruction benchmarks.
//!
//! Ground-truth speakers are assigned one-to-one to system speakers by a
//! dynamic program over the sets of system speakers already used (a row of
//! flags, one per system speaker): for each set it keeps the best-scoring
//! assignment, preferring on equal scores the smallest newly used system
//! speaker and leaving a speaker unassigned last. The answer is the best set
//! overall; on equal scores the set whose flags come first, reading from the
//! first system speaker, with an unused speaker before a used one.
use vstd::prelude::*;
use crate::database::key_remap::{insert_sorted, lemma_sorted_no_duplicates, lemma_sorted_unique, strictly_sorted};
use crate::database::speaker_turn::StoredTurn;
use crate::evaluation::alignment::rows;
use crate::evaluation::speaker_alignment::pairs_distinct;
use crate::evaluation::utterance_ground_truth::GtSpeakerInterval;
use crate::strings::{pair_views, views};
use crate::text::{owned, str_eq};

verus! {

/// A set's best score and the choice made for each speaker so far.
pub type Entry = (int, Seq<Option<usize>>);

/// Keeps `acc` unless `c` scores strictly more.
pub open spec fn better(acc: Option<Entry>, c: Option<Entry>) -> Option<Entry> {
    match c {
        None => acc,
        Some(cv) => match acc {
            None => c,
            Some(av) => if cv.0 > av.0 {
                c
            } else {
                acc
            },
        },
    }
}

/// Reaching `mask` by giving the next speaker system speaker `j`, from the
/// best way to have used `mask` without `j`.
pub open spec fn via_cluster(prev: spec_fn(Seq<bool>) -> Option<Entry>, row: Seq<i64>, mask: Seq<bool>, j: int) -> Option<Entry> {
    if 0 <= j < row.len() && j < mask.len() && mask[j] && row[j] > 0 {
        match prev(mask.update(j, false)) {
            Some(e) => Some((e.0 + row[j], e.1.push(Some(j as usize)))),
            None => None,
        }
    } else {
        None
    }
}

/// The best of the ways through system speakers `0..j`, earliest first.
pub open spec fn scan(prev: spec_fn(Seq<bool>) -> Option<Entry>, row: Seq<i64>, mask: Seq<bool>, j: int) -> Option<Entry>
    decreases j,
{
    if j <= 0 {
        None
    } else {
        better(scan(prev, row, mask, j - 1), via_cluster(prev, row, mask, j - 1))
    }
}

/// The best way to have used `mask` after one more speaker: through each
/// system speaker in turn, then leaving the speaker unassigned.
pub open spec fn step(prev: spec_fn(Seq<bool>) -> Option<Entry>, row: Seq<i64>, mask: Seq<bool>) -> Option<Entry> {
    better(
        scan(prev, row, mask, mask.len() as int),
        match prev(mask) {
            Some(e) => Some((e.0, e.1.push(None))),
            None => None,
        },
    )
}

/// No system speaker used yet.
pub open spec fn none_used(width: nat) -> Seq<bool> {
    Seq::new(width, |i: int| false)
}

/// The table after one more speaker whose weights are `row`: every set of
/// `width` flags gets `step` of the previous table.
pub open spec fn advance(prev: spec_fn(Seq<bool>) -> Option<Entry>, row: Seq<i64>, width: nat) -> spec_fn(Seq<bool>) -> Option<Entry> {
    |m: Seq<bool>|
        if m.len() == width {
            step(prev, row, m)
        } else {
            None
        }
}

/// The table before any speaker: only the empty set, with nothing chosen.
pub open spec fn start(width: nat) -> spec_fn(Seq<bool>) -> Option<Entry> {
    |m: Seq<bool>|
        if m == none_used(width) {
            Some((0int, Seq::<Option<usize>>::empty()))
        } else {
            None
        }
}

/// The best entry of every set of used system speakers (of `width`) after
/// the first `g` ground-truth speakers; `None` where the set is unreachable.
pub open spec fn table(w: Seq<Seq<i64>>, width: nat, g: nat) -> spec_fn(Seq<bool>) -> Option<Entry>
    decreases g,
{
    if g == 0 {
        start(width)
    } else {
        advance(table(w, width, (g - 1) as nat), w[g - 1], width)
    }
}

/// Flags `a` come before flags `b` from position `j` on: at the first
/// difference `a` has the unused flag.
pub open spec fn flags_before(a: Seq<bool>, b: Seq<bool>, j: int) -> bool
    decreases a.len() - j,
{
    if j < 0 || j >= a.len() || j >= b.len() {
        false
    } else if a[j] != b[j] {
        !a[j]
    } else {
        flags_before(a, b, j + 1)
    }
}

/// The score of set `m` in `t` (0 where unreachable).
pub open spec fn score_at(t: spec_fn(Seq<bool>) -> Option<Entry>, m: Seq<bool>) -> int {
    match t(m) {
        Some(e) => e.0,
        None => 0,
    }
}

/// The final choice: the reachable set with the highest score, and among
/// equal scores the one whose flags come first.
pub open spec fn is_final(t: spec_fn(Seq<bool>) -> Option<Entry>, m: Seq<bool>) -> bool {
    &&& t(m) is Some
    &&& forall|m2: Seq<bool>|
        #[trigger] t(m2) is Some && m2 != m ==> score_at(t, m2) < score_at(t, m) || (score_at(t, m2) == score_at(t, m)
            && flags_before(m, m2, 0))
}


/// A state of the program: a set of used system speakers, its best score
/// and the choices so far.
pub type State = (Vec<bool>, i64, Vec<Option<usize>>);

/// Every state of `states` is a reachable set of `t` (of `width` flags) with
/// its entry, scores within `0..=limit`, and no set is listed twice.
pub open spec fn sound(states: Seq<State>, t: spec_fn(Seq<bool>) -> Option<Entry>, width: nat, limit: int) -> bool {
    &&& forall|i: int|
        0 <= i < states.len() ==> {
            &&& (#[trigger] states[i]).0@.len() == width
            &&& t(states[i].0@) == Some((states[i].1 as int, states[i].2@))
            &&& 0 <= states[i].1 <= limit
        }
    &&& forall|a: int, b: int| 0 <= a < b < states.len() ==> (#[trigger] states[a]).0@ != (#[trigger] states[b]).0@
}

/// Set `m` is listed in `states`.
pub open spec fn listed(states: Seq<State>, m: Seq<bool>) -> bool {
    exists|i: int| 0 <= i < states.len() && (#[trigger] states[i]).0@ == m
}

/// `states` lists exactly the reachable sets of `t`, once each, with their
/// entries.
pub open spec fn represents(states: Seq<State>, t: spec_fn(Seq<bool>) -> Option<Entry>, width: nat, limit: int) -> bool {
    &&& sound(states, t, width, limit)
    &&& forall|m: Seq<bool>| #[trigger] t(m) is Some ==> listed(states, m)
}

fn copy_flags(v: &Vec<bool>) -> (result: Vec<bool>)
    ensures
        result@ == v@,
{
    let mut out: Vec<bool> = Vec::new();
    let mut i: usize = 0;
    while i < v.len()
        invariant
            i <= v@.len(),
            out@ == v@.subrange(0, i as int),
        decreases v@.len() - i,
    {
        out.push(v[i]);
        i += 1;
    }
    assert(v@.subrange(0, v@.len() as int) =~= v@);
    out
}

fn copy_choices(v: &Vec<Option<usize>>) -> (result: Vec<Option<usize>>)
    ensures
        result@ == v@,
{
    let mut out: Vec<Option<usize>> = Vec::new();
    let mut i: usize = 0;
    while i < v.len()
        invariant
            i <= v@.len(),
            out@ == v@.subrange(0, i as int),
        decreases v@.len() - i,
    {
        out.push(v[i]);
        i += 1;
    }
    assert(v@.subrange(0, v@.len() as int) =~= v@);
    out
}

fn same_flags(a: &Vec<bool>, b: &Vec<bool>) -> (result: bool)
    ensures
        result == (a@ == b@),
{
    if a.len() != b.len() {
        return false;
    }
    let mut i: usize = 0;
    while i < a.len()
        invariant
            i <= a@.len(),
            a@.len() == b@.len(),
            forall|k: int| 0 <= k < i ==> a@[k] == b@[k],
        decreases a@.len() - i,
    {
        if a[i] != b[i] {
            return false;
        }
        i += 1;
    }
    assert(a@ =~= b@);
    true
}

/// The position of set `m` among `states`.
fn find_state(states: &Vec<State>, m: &Vec<bool>) -> (result: Option<usize>)
    ensures
        match result {
            Some(i) => i < states@.len() && states@[i as int].0@ == m@,
            None => forall|i: int| 0 <= i < states@.len() ==> (#[trigger] states@[i]).0@ != m@,
        },
{
    let mut i: usize = 0;
    while i < states.len()
        invariant
            i <= states@.len(),
            forall|k: int| 0 <= k < i ==> (#[trigger] states@[k]).0@ != m@,
        decreases states@.len() - i,
    {
        if same_flags(&states[i].0, m) {
            return Some(i);
        }
        i += 1;
    }
    None
}

/// The score of `e`, where there is one, lies within `0..=hi`.
pub open spec fn within(e: Option<(i64, Vec<Option<usize>>)>, hi: int) -> bool {
    match e {
        Some((s, _)) => 0 <= s <= hi,
        None => true,
    }
}

/// `better` as code, on an owned candidate.
fn keep_better(acc: Option<(i64, Vec<Option<usize>>)>, c: Option<(i64, Vec<Option<usize>>)>, Ghost(hi): Ghost<int>) -> (result: Option<(i64, Vec<Option<usize>>)>)
    ensures
        entry_view(result) == better(entry_view(acc), entry_view(c)),
        within(acc, hi) && within(c, hi) ==> within(result, hi),
{
    match c {
        None => acc,
        Some(cv) => match acc {
            None => Some(cv),
            Some(av) => if cv.0 > av.0 {
                Some(cv)
            } else {
                Some(av)
            },
        },
    }
}

/// An executable entry as an `Entry`.
pub open spec fn entry_view(e: Option<(i64, Vec<Option<usize>>)>) -> Option<Entry> {
    match e {
        Some((s, a)) => Some((s as int, a@)),
        None => None,
    }
}

/// The entry of set `m` after one more speaker whose weights are `row`.
fn step_entry(
    states: &Vec<State>,
    row: &Vec<i64>,
    m: &Vec<bool>,
    Ghost(prev): Ghost<spec_fn(Seq<bool>) -> Option<Entry>>,
    Ghost(limit): Ghost<int>,
    Ghost(cap): Ghost<int>,
) -> (result: Option<(i64, Vec<Option<usize>>)>)
    requires
        represents(states@, prev, m@.len(), limit),
        row@.len() == m@.len(),
        forall|k: int| 0 <= k < row@.len() ==> 0 <= #[trigger] row@[k] <= cap,
        0 <= limit,
        0 <= cap,
        limit + cap <= i64::MAX,
    ensures
        entry_view(result) == step(prev, row@, m@),
        within(result, limit + cap),
{
    let ghost width = m@.len();
    let mut best: Option<(i64, Vec<Option<usize>>)> = None;
    let mut j: usize = 0;
    while j < m.len()
        invariant
            j <= m@.len(),
            width == m@.len(),
            row@.len() == width,
            represents(states@, prev, width, limit),
            forall|k: int| 0 <= k < row@.len() ==> 0 <= #[trigger] row@[k] <= cap,
            0 <= limit,
            0 <= cap,
            limit + cap <= i64::MAX,
            entry_view(best) == scan(prev, row@, m@, j as int),
            within(best, limit + cap),
        decreases m@.len() - j,
    {
        let mut candidate: Option<(i64, Vec<Option<usize>>)> = None;
        if m[j] && row[j] > 0 {
            let mut without = copy_flags(m);
            without.set(j, false);
            match find_state(states, &without) {
                Some(i) => {
                    let mut choices = copy_choices(&states[i].2);
                    choices.push(Some(j));
                    candidate = Some((states[i].1 + row[j], choices));
                    proof {
                        assert(states@[i as int].0@ == m@.update(j as int, false));
                    }
                },
                None => {
                    proof {
                        if prev(m@.update(j as int, false)) is Some {
                            assert(listed(states@, m@.update(j as int, false)));
                        }
                    }
                },
            }
        }
        assert(entry_view(candidate) == via_cluster(prev, row@, m@, j as int));
        best = keep_better(best, candidate, Ghost(limit + cap));
        j += 1;
    }
    let mut none_candidate: Option<(i64, Vec<Option<usize>>)> = None;
    match find_state(states, m) {
        Some(i) => {
            let mut choices = copy_choices(&states[i].2);
            choices.push(None);
            none_candidate = Some((states[i].1, choices));
        },
        None => {
            proof {
                if prev(m@) is Some {
                    assert(listed(states@, m@));
                }
            }
        },
    }
    keep_better(best, none_candidate, Ghost(limit + cap))
}

/// `better` yields an entry exactly when one of its two candidates does.
proof fn lemma_better_some(a: Option<Entry>, c: Option<Entry>)
    ensures
        better(a, c) is Some <==> (a is Some || c is Some),
{
}

/// A way through system speaker `j < k` makes the scan up to `k` reach the set.
proof fn lemma_scan_reaches(prev: spec_fn(Seq<bool>) -> Option<Entry>, row: Seq<i64>, mask: Seq<bool>, j: int, k: int)
    requires
        0 <= j < k,
        via_cluster(prev, row, mask, j) is Some,
    ensures
        scan(prev, row, mask, k) is Some,
    decreases k,
{
    if k - 1 != j {
        lemma_scan_reaches(prev, row, mask, j, k - 1);
    }
    lemma_better_some(scan(prev, row, mask, k - 1), via_cluster(prev, row, mask, k - 1));
}

/// A set that the scan up to `k` reaches is reached through some system
/// speaker below `k`.
proof fn lemma_scan_origin(prev: spec_fn(Seq<bool>) -> Option<Entry>, row: Seq<i64>, mask: Seq<bool>, k: int)
    requires
        scan(prev, row, mask, k) is Some,
    ensures
        exists|j: int| 0 <= j < k && (#[trigger] via_cluster(prev, row, mask, j)) is Some,
    decreases k,
{
    if k > 0 {
        lemma_better_some(scan(prev, row, mask, k - 1), via_cluster(prev, row, mask, k - 1));
        if via_cluster(prev, row, mask, k - 1) is None {
            lemma_scan_origin(prev, row, mask, k - 1);
        }
    }
}

/// Adds set `m`, reachable after one more speaker, to `next` unless it is
/// listed there already.
fn add_reachable(
    next: &mut Vec<State>,
    states: &Vec<State>,
    row: &Vec<i64>,
    m: Vec<bool>,
    Ghost(prev): Ghost<spec_fn(Seq<bool>) -> Option<Entry>>,
    Ghost(width): Ghost<nat>,
    Ghost(limit): Ghost<int>,
    Ghost(cap): Ghost<int>,
)
    requires
        represents(states@, prev, width, limit),
        sound(old(next)@, advance(prev, row@, width), width, limit + cap),
        row@.len() == width,
        forall|k: int| 0 <= k < row@.len() ==> 0 <= #[trigger] row@[k] <= cap,
        0 <= limit,
        0 <= cap,
        limit + cap <= i64::MAX,
        m@.len() == width,
        step(prev, row@, m@) is Some,
    ensures
        sound(final(next)@, advance(prev, row@, width), width, limit + cap),
        listed(final(next)@, m@),
        forall|mm: Seq<bool>| listed(old(next)@, mm) ==> listed(final(next)@, mm),
{
    match find_state(next, &m) {
        Some(i) => {
            assert(next@[i as int].0@ == m@);
        },
        None => {
            let e = step_entry(states, row, &m, Ghost(prev), Ghost(limit), Ghost(cap));
            match e {
                Some((score, choices)) => {
                    let ghost old_next = next@;
                    let ghost mv = m@;
                    next.push((m, score, choices));
                    assert(next@[old_next.len() as int].0@ == mv);
                    assert forall|mm: Seq<bool>| listed(old_next, mm) implies listed(next@, mm) by {
                        let k = choose|k: int| 0 <= k < old_next.len() && (#[trigger] old_next[k]).0@ == mm;
                        assert(next@[k] == old_next[k]);
                    }
                },
                None => {},
            }
        },
    }
}

/// The states after one more speaker whose weights are `row`.
fn next_states(
    states: &Vec<State>,
    row: &Vec<i64>,
    Ghost(prev): Ghost<spec_fn(Seq<bool>) -> Option<Entry>>,
    Ghost(width): Ghost<nat>,
    Ghost(limit): Ghost<int>,
    Ghost(cap): Ghost<int>,
) -> (next: Vec<State>)
    requires
        represents(states@, prev, width, limit),
        row@.len() == width,
        forall|k: int| 0 <= k < row@.len() ==> 0 <= #[trigger] row@[k] <= cap,
        0 <= limit,
        0 <= cap,
        limit + cap <= i64::MAX,
    ensures
        represents(next@, advance(prev, row@, width), width, limit + cap),
{
    let ghost adv = advance(prev, row@, width);
    let mut next: Vec<State> = Vec::new();
    let mut i: usize = 0;
    while i < states.len()
        invariant
            i <= states@.len(),
            adv == advance(prev, row@, width),
            represents(states@, prev, width, limit),
            row@.len() == width,
            forall|k: int| 0 <= k < row@.len() ==> 0 <= #[trigger] row@[k] <= cap,
            0 <= limit,
            0 <= cap,
            limit + cap <= i64::MAX,
            sound(next@, adv, width, limit + cap),
            forall|k: int| 0 <= k < i ==> listed(next@, (#[trigger] states@[k]).0@),
            forall|k: int, j: int|
                #![trigger states@[k].0@.update(j, true)]
                0 <= k < i && 0 <= j < width && !states@[k].0@[j] && row@[j] > 0 ==> listed(
                    next@,
                    states@[k].0@.update(j, true),
                ),
        decreases states@.len() - i,
    {
        let ghost p = states@[i as int].0@;
        let mask = copy_flags(&states[i].0);
        proof {
            lemma_better_some(
                scan(prev, row@, p, p.len() as int),
                match prev(p) {
                    Some(e) => Some((e.0, e.1.push(None))),
                    None => None,
                },
            );
        }
        add_reachable(&mut next, states, row, mask, Ghost(prev), Ghost(width), Ghost(limit), Ghost(cap));
        let mut j: usize = 0;
        while j < states[i].0.len()
            invariant
                i < states@.len(),
                p == states@[i as int].0@,
                p.len() == width,
                j <= width,
                adv == advance(prev, row@, width),
                represents(states@, prev, width, limit),
                row@.len() == width,
                forall|k: int| 0 <= k < row@.len() ==> 0 <= #[trigger] row@[k] <= cap,
                0 <= limit,
                0 <= cap,
                limit + cap <= i64::MAX,
                sound(next@, adv, width, limit + cap),
                forall|k: int| 0 <= k <= i ==> listed(next@, (#[trigger] states@[k]).0@),
                forall|k: int, jj: int|
                    #![trigger states@[k].0@.update(jj, true)]
                    0 <= k < i && 0 <= jj < width && !states@[k].0@[jj] && row@[jj] > 0 ==> listed(
                        next@,
                        states@[k].0@.update(jj, true),
                    ),
                forall|jj: int| 0 <= jj < j && !p[jj] && row@[jj] > 0 ==> listed(next@, #[trigger] p.update(jj, true)),
            decreases width - j,
        {
            if !states[i].0[j] && row[j] > 0 {
                let mut m2 = copy_flags(&states[i].0);
                m2.set(j, true);
                proof {
                    assert(m2@.update(j as int, false) =~= p);
                    assert(via_cluster(prev, row@, m2@, j as int) is Some);
                    lemma_scan_reaches(prev, row@, m2@, j as int, m2@.len() as int);
                    lemma_better_some(
                        scan(prev, row@, m2@, m2@.len() as int),
                        match prev(m2@) {
                            Some(e) => Some((e.0, e.1.push(None))),
                            None => None,
                        },
                    );
                }
                add_reachable(&mut next, states, row, m2, Ghost(prev), Ghost(width), Ghost(limit), Ghost(cap));
            }
            j += 1;
        }
        i += 1;
    }
    proof {
        assert forall|m: Seq<bool>| #[trigger] adv(m) is Some implies listed(next@, m) by {
            let none_part = match prev(m) {
                Some(e) => Some((e.0, e.1.push(None))),
                None => None,
            };
            lemma_better_some(scan(prev, row@, m, m.len() as int), none_part);
            if prev(m) is Some {
                assert(listed(states@, m));
                let k = choose|k: int| 0 <= k < states@.len() && (#[trigger] states@[k]).0@ == m;
                assert(listed(next@, states@[k].0@));
            } else {
                lemma_scan_origin(prev, row@, m, m.len() as int);
                let j = choose|j: int| 0 <= j < m.len() && (#[trigger] via_cluster(prev, row@, m, j)) is Some;
                let pm = m.update(j, false);
                assert(listed(states@, pm));
                let k = choose|k: int| 0 <= k < states@.len() && (#[trigger] states@[k]).0@ == pm;
                assert(!states@[k].0@[j]);
                assert(states@[k].0@.update(j, true) =~= m);
            }
        }
    }
    next
}

/// The largest of `r[..n]`, and 0 where there is none.
pub open spec fn row_max(r: Seq<i64>, n: int) -> int
    decreases n,
{
    if n <= 0 {
        0
    } else {
        let m = row_max(r, n - 1);
        if r[n - 1] > m {
            r[n - 1] as int
        } else {
            m
        }
    }
}

/// The sum of the largest weights of rows `w[..g]`: no score after `g`
/// speakers exceeds it.
pub open spec fn caps(w: Seq<Seq<i64>>, g: int) -> int
    decreases g,
{
    if g <= 0 {
        0
    } else {
        caps(w, g - 1) + row_max(w[g - 1], w[g - 1].len() as int)
    }
}

/// Every row has `width` weights, none negative.
pub open spec fn well_shaped(w: Seq<Seq<i64>>, width: nat) -> bool {
    &&& forall|r: int| 0 <= r < w.len() ==> (#[trigger] w[r]).len() == width
    &&& forall|r: int, c: int| 0 <= r < w.len() && 0 <= c < w[r].len() ==> 0 <= #[trigger] w[r][c]
}

/// The assignment chosen: the entry of the final set after every speaker.
pub open spec fn best_assignment(w: Seq<Seq<i64>>, width: nat) -> Seq<Option<usize>> {
    let t = table(w, width, w.len());
    let m = choose|m: Seq<bool>| is_final(t, m);
    match t(m) {
        Some(e) => e.1,
        None => Seq::empty(),
    }
}

proof fn lemma_row_max(r: Seq<i64>, n: int)
    requires
        0 <= n <= r.len(),
    ensures
        0 <= row_max(r, n),
        forall|k: int| 0 <= k < n ==> r[k] <= row_max(r, n),
    decreases n,
{
    if n > 0 {
        lemma_row_max(r, n - 1);
    }
}

proof fn lemma_caps_grow(w: Seq<Seq<i64>>, g: int, h: int)
    requires
        0 <= g <= h <= w.len(),
    ensures
        caps(w, g) <= caps(w, h),
        0 <= caps(w, g),
    decreases h,
{
    if h > g {
        lemma_caps_grow(w, g, h - 1);
        lemma_row_max(w[h - 1], w[h - 1].len() as int);
    } else if g > 0 {
        lemma_caps_grow(w, g - 1, g - 1);
        lemma_row_max(w[g - 1], w[g - 1].len() as int);
    }
}

/// No set of flags comes before another and after it too.
proof fn lemma_flags_asymmetric(a: Seq<bool>, b: Seq<bool>, j: int)
    ensures
        !(flags_before(a, b, j) && flags_before(b, a, j)),
    decreases a.len() - j,
{
    if 0 <= j < a.len() && j < b.len() && a[j] == b[j] {
        lemma_flags_asymmetric(a, b, j + 1);
    }
}

proof fn lemma_flags_transitive(a: Seq<bool>, b: Seq<bool>, c: Seq<bool>, j: int)
    requires
        flags_before(a, b, j),
        flags_before(b, c, j),
    ensures
        flags_before(a, c, j),
    decreases a.len() - j,
{
    if a[j] == b[j] && b[j] == c[j] {
        lemma_flags_transitive(a, b, c, j + 1);
    }
}

/// Two sets of one length that differ at or after `j` are ordered one way.
proof fn lemma_flags_total(a: Seq<bool>, b: Seq<bool>, j: int, k: int)
    requires
        a.len() == b.len(),
        0 <= j <= k < a.len(),
        a[k] != b[k],
    ensures
        flags_before(a, b, j) || flags_before(b, a, j),
    decreases k - j,
{
    if a[j] == b[j] {
        lemma_flags_total(a, b, j + 1, k);
    }
}

/// At most one set is final.
proof fn lemma_final_unique(t: spec_fn(Seq<bool>) -> Option<Entry>, m1: Seq<bool>, m2: Seq<bool>)
    requires
        is_final(t, m1),
        is_final(t, m2),
    ensures
        m1 == m2,
{
    if m1 != m2 {
        assert(t(m2) is Some);
        assert(t(m1) is Some);
        lemma_flags_asymmetric(m1, m2, 0);
    }
}

/// The empty set stays reachable after any number of speakers.
proof fn lemma_none_reachable(w: Seq<Seq<i64>>, width: nat, g: nat)
    ensures
        table(w, width, g)(none_used(width)) is Some,
    decreases g,
{
    if g > 0 {
        lemma_none_reachable(w, width, (g - 1) as nat);
        let prev = table(w, width, (g - 1) as nat);
        let m = none_used(width);
        lemma_better_some(
            scan(prev, w[g - 1], m, m.len() as int),
            match prev(m) {
                Some(e) => Some((e.0, e.1.push(None))),
                None => None,
            },
        );
    }
}

/// The weight that assignment `a` gathers over rows `w[..n]`.
pub open spec fn gathered(w: Seq<Seq<i64>>, a: Seq<Option<usize>>, n: int) -> int
    decreases n,
{
    if n <= 0 {
        0
    } else {
        gathered(w, a, n - 1) + match a[n - 1] {
            Some(c) => w[n - 1][c as int] as int,
            None => 0,
        }
    }
}

/// `a` gives each of the rows `w[..n]` at most one of `width` system
/// speakers, only with positive weight, and no system speaker twice.
pub open spec fn one_to_one(w: Seq<Seq<i64>>, a: Seq<Option<usize>>, width: nat, n: int) -> bool {
    &&& forall|k: int|
        0 <= k < n ==> match #[trigger] a[k] {
            Some(c) => c < width && w[k][c as int] > 0,
            None => true,
        }
    &&& forall|k1: int, k2: int|
        0 <= k1 < k2 < n && (#[trigger] a[k1]) is Some && (#[trigger] a[k2]) is Some ==> a[k1]->0 != a[k2]->0
}

/// The system speakers that `a[..n]` uses, as `width` flags.
pub open spec fn used_by(a: Seq<Option<usize>>, width: nat, n: int) -> Seq<bool> {
    Seq::new(width, |c: int| exists|k: int| 0 <= k < n && #[trigger] a[k] == Some(c as usize))
}

/// The score of an entry, 0 where there is none.
pub open spec fn score_of(e: Option<Entry>) -> int {
    match e {
        Some(x) => x.0,
        None => 0,
    }
}

proof fn lemma_better_ge(a: Option<Entry>, c: Option<Entry>)
    ensures
        a is Some ==> better(a, c) is Some && score_of(better(a, c)) >= score_of(a),
        c is Some ==> better(a, c) is Some && score_of(better(a, c)) >= score_of(c),
        better(a, c) == a || better(a, c) == c,
{
}

proof fn lemma_scan_ge(prev: spec_fn(Seq<bool>) -> Option<Entry>, row: Seq<i64>, mask: Seq<bool>, j: int, k: int)
    requires
        0 <= j < k,
        via_cluster(prev, row, mask, j) is Some,
    ensures
        scan(prev, row, mask, k) is Some,
        score_of(scan(prev, row, mask, k)) >= score_of(via_cluster(prev, row, mask, j)),
    decreases k,
{
    if k - 1 != j {
        lemma_scan_ge(prev, row, mask, j, k - 1);
    }
    lemma_better_ge(scan(prev, row, mask, k - 1), via_cluster(prev, row, mask, k - 1));
}

/// What the scan up to `k` yields is what some system speaker below `k` yields.
proof fn lemma_scan_choice(prev: spec_fn(Seq<bool>) -> Option<Entry>, row: Seq<i64>, mask: Seq<bool>, k: int)
    requires
        scan(prev, row, mask, k) is Some,
    ensures
        exists|j: int| 0 <= j < k && #[trigger] via_cluster(prev, row, mask, j) == scan(prev, row, mask, k),
    decreases k,
{
    if k > 0 {
        lemma_better_ge(scan(prev, row, mask, k - 1), via_cluster(prev, row, mask, k - 1));
        if scan(prev, row, mask, k) != via_cluster(prev, row, mask, k - 1) {
            lemma_scan_choice(prev, row, mask, k - 1);
        }
    }
}

/// Only the first `n` choices matter.
proof fn lemma_prefix(w: Seq<Seq<i64>>, a: Seq<Option<usize>>, b: Seq<Option<usize>>, width: nat, n: int)
    requires
        0 <= n <= a.len(),
        n <= b.len(),
        width <= usize::MAX,
        forall|k: int| 0 <= k < n ==> a[k] == b[k],
    ensures
        gathered(w, a, n) == gathered(w, b, n),
        used_by(a, width, n) == used_by(b, width, n),
        one_to_one(w, a, width, n) == one_to_one(w, b, width, n),
    decreases n,
{
    if n > 0 {
        lemma_prefix(w, a, b, width, n - 1);
    }
    assert forall|c: int| 0 <= c < width implies used_by(a, width, n)[c] == used_by(b, width, n)[c] by {
        if used_by(a, width, n)[c] {
            let k = choose|k: int| 0 <= k < n && #[trigger] a[k] == Some(c as usize);
            assert(b[k] == Some(c as usize));
        }
        if used_by(b, width, n)[c] {
            let k = choose|k: int| 0 <= k < n && #[trigger] b[k] == Some(c as usize);
            assert(a[k] == Some(c as usize));
        }
    }
    assert(used_by(a, width, n) =~= used_by(b, width, n));
    if one_to_one(w, a, width, n) {
        assert forall|k1: int, k2: int| 0 <= k1 < k2 < n && (#[trigger] b[k1]) is Some && (#[trigger] b[k2]) is Some implies b[k1]->0
            != b[k2]->0 by {
            assert(a[k1] == b[k1] && a[k2] == b[k2]);
        }
        assert forall|k: int| 0 <= k < n implies match #[trigger] b[k] {
            Some(c) => c < width && w[k][c as int] > 0,
            None => true,
        } by {
            assert(a[k] == b[k]);
        }
    }
    if one_to_one(w, b, width, n) {
        assert forall|k1: int, k2: int| 0 <= k1 < k2 < n && (#[trigger] a[k1]) is Some && (#[trigger] a[k2]) is Some implies a[k1]->0
            != a[k2]->0 by {
            assert(a[k1] == b[k1] && a[k2] == b[k2]);
        }
        assert forall|k: int| 0 <= k < n implies match #[trigger] a[k] {
            Some(c) => c < width && w[k][c as int] > 0,
            None => true,
        } by {
            assert(a[k] == b[k]);
        }
    }
}

/// An entry of the table after `g` speakers chooses for each of them, one to
/// one, uses exactly the system speakers of its set, and scores what it
/// gathers.
proof fn lemma_table_entry(w: Seq<Seq<i64>>, width: nat, g: nat, m: Seq<bool>)
    requires
        well_shaped(w, width),
        width <= usize::MAX,
        g <= w.len(),
        table(w, width, g)(m) is Some,
    ensures
        ({
            let e = table(w, width, g)(m)->0;
            &&& e.1.len() == g
            &&& one_to_one(w, e.1, width, g as int)
            &&& m == used_by(e.1, width, g as int)
            &&& e.0 == gathered(w, e.1, g as int)
        }),
    decreases g,
{
    let e = table(w, width, g)(m)->0;
    if g == 0 {
        assert(m == none_used(width));
        assert(used_by(e.1, width, 0) =~= m);
    } else {
        let prev = table(w, width, (g - 1) as nat);
        let row = w[g - 1];
        assert(m.len() == width);
        let nc = match prev(m) {
            Some(x) => Some((x.0, x.1.push(None))),
            None => None,
        };
        let sc = scan(prev, row, m, m.len() as int);
        lemma_better_ge(sc, nc);
        if table(w, width, g)(m) == nc {
            let ep = prev(m)->0;
            lemma_table_entry(w, width, (g - 1) as nat, m);
            lemma_prefix(w, e.1, ep.1, width, g - 1);
            assert forall|c: int| 0 <= c < width implies used_by(e.1, width, g as int)[c] == m[c] by {
                if used_by(e.1, width, g as int)[c] {
                    let k = choose|k: int| 0 <= k < g && #[trigger] e.1[k] == Some(c as usize);
                    assert(k < g - 1);
                    assert(used_by(e.1, width, g - 1)[c]);
                }
                if m[c] {
                    assert(used_by(ep.1, width, g - 1)[c]);
                    assert(used_by(e.1, width, g - 1)[c]);
                    let k = choose|k: int| 0 <= k < g - 1 && #[trigger] e.1[k] == Some(c as usize);
                    assert(e.1[k] == Some(c as usize));
                }
            }
            assert(used_by(e.1, width, g as int) =~= m);
        } else {
            lemma_scan_choice(prev, row, m, m.len() as int);
            let j = choose|j: int| 0 <= j < m.len() && #[trigger] via_cluster(prev, row, m, j) == sc;
            let mp = m.update(j, false);
            let ep = prev(mp)->0;
            lemma_table_entry(w, width, (g - 1) as nat, mp);
            lemma_prefix(w, e.1, ep.1, width, g - 1);
            assert(e.1[g - 1] == Some(j as usize));
            assert forall|c: int| 0 <= c < width implies used_by(e.1, width, g as int)[c] == m[c] by {
                if used_by(e.1, width, g as int)[c] {
                    let k = choose|k: int| 0 <= k < g && #[trigger] e.1[k] == Some(c as usize);
                    if k < g - 1 {
                        assert(used_by(e.1, width, g - 1)[c]);
                        assert(mp[c]);
                    }
                }
                if m[c] {
                    if c != j {
                        assert(mp[c]);
                        assert(used_by(e.1, width, g - 1)[c]);
                        let k = choose|k: int| 0 <= k < g - 1 && #[trigger] e.1[k] == Some(c as usize);
                        assert(e.1[k] == Some(c as usize));
                    } else {
                        assert(e.1[g - 1] == Some(c as usize));
                    }
                }
            }
            assert(used_by(e.1, width, g as int) =~= m);
            assert forall|k1: int, k2: int| 0 <= k1 < k2 < g && (#[trigger] e.1[k1]) is Some && (#[trigger] e.1[k2]) is Some implies e.1[k1]->0
                != e.1[k2]->0 by {
                if k2 == g - 1 && e.1[k1]->0 == j as usize {
                    assert(used_by(e.1, width, g - 1)[j]);
                }
            }
        }
    }
}

/// Any one-to-one assignment of the first `g` speakers reaches its set of
/// used system speakers, which the table scores at least as high.
proof fn lemma_table_dominates(w: Seq<Seq<i64>>, width: nat, g: nat, a: Seq<Option<usize>>)
    requires
        well_shaped(w, width),
        width <= usize::MAX,
        g <= w.len(),
        g <= a.len(),
        one_to_one(w, a, width, g as int),
    ensures
        table(w, width, g)(used_by(a, width, g as int)) is Some,
        score_at(table(w, width, g), used_by(a, width, g as int)) >= gathered(w, a, g as int),
    decreases g,
{
    let m = used_by(a, width, g as int);
    if g == 0 {
        assert(m =~= none_used(width));
    } else {
        let prev = table(w, width, (g - 1) as nat);
        let row = w[g - 1];
        let mp = used_by(a, width, g - 1);
        lemma_table_dominates(w, width, (g - 1) as nat, a);
        let nc = match prev(m) {
            Some(x) => Some((x.0, x.1.push(None))),
            None => None,
        };
        let sc = scan(prev, row, m, m.len() as int);
        lemma_better_ge(sc, nc);
        match a[g - 1] {
            None => {
                assert forall|c: int| 0 <= c < width implies m[c] == mp[c] by {
                    if m[c] {
                        let k = choose|k: int| 0 <= k < g && #[trigger] a[k] == Some(c as usize);
                        assert(k < g - 1);
                    }
                }
                assert(m =~= mp);
            },
            Some(c) => {
                assert(!mp[c as int]) by {
                    if mp[c as int] {
                        let k = choose|k: int| 0 <= k < g - 1 && #[trigger] a[k] == Some(c as usize);
                        assert(a[k] is Some && a[g - 1] is Some);
                    }
                }
                assert forall|d: int| 0 <= d < width implies m[d] == mp.update(c as int, true)[d] by {
                    if m[d] && d != c {
                        let k = choose|k: int| 0 <= k < g && #[trigger] a[k] == Some(d as usize);
                        assert(k < g - 1);
                    }
                    if d == c {
                        assert(a[g - 1] == Some(d as usize));
                    } else if mp[d] {
                        let k = choose|k: int| 0 <= k < g - 1 && #[trigger] a[k] == Some(d as usize);
                        assert(a[k] == Some(d as usize));
                    }
                }
                assert(m =~= mp.update(c as int, true));
                assert(m.update(c as int, false) =~= mp);
                assert(via_cluster(prev, row, m, c as int) is Some);
                lemma_scan_ge(prev, row, m, c as int, m.len() as int);
            },
        }
    }
}

/// Flags `a` come before flags `b`, as code.
fn flags_first(a: &Vec<bool>, b: &Vec<bool>) -> (result: bool)
    ensures
        result == flags_before(a@, b@, 0),
{
    let mut j: usize = 0;
    while j < a.len() && j < b.len()
        invariant
            j <= a@.len(),
            flags_before(a@, b@, 0) == flags_before(a@, b@, j as int),
        decreases a@.len() - j,
    {
        if a[j] != b[j] {
            return !a[j];
        }
        j += 1;
    }
    false
}

/// State `a` is ahead of state `b`: a higher score, or an equal one with
/// flags that come first.
pub open spec fn ahead(a: State, b: State) -> bool {
    a.1 > b.1 || (a.1 == b.1 && flags_before(a.0@, b.0@, 0))
}

/// The position of the final state among `states`.
fn pick_final(
    states: &Vec<State>,
    Ghost(t): Ghost<spec_fn(Seq<bool>) -> Option<Entry>>,
    Ghost(width): Ghost<nat>,
    Ghost(limit): Ghost<int>,
) -> (result: usize)
    requires
        represents(states@, t, width, limit),
        states@.len() > 0,
    ensures
        result < states@.len(),
        is_final(t, states@[result as int].0@),
{
    let mut best: usize = 0;
    let mut k: usize = 1;
    while k < states.len()
        invariant
            1 <= k <= states@.len(),
            best < k,
            represents(states@, t, width, limit),
            forall|o: int| 0 <= o < k && o != best ==> ahead(states@[best as int], #[trigger] states@[o]),
        decreases states@.len() - k,
    {
        let take = if states[k].1 > states[best].1 {
            true
        } else if states[k].1 == states[best].1 {
            flags_first(&states[k].0, &states[best].0)
        } else {
            false
        };
        proof {
            let a = states@[k as int].0@;
            let b = states@[best as int].0@;
            assert(a != b);
            let d = choose|d: int| 0 <= d < a.len() && a[d] != b[d];
            if !(exists|d: int| 0 <= d < a.len() && a[d] != b[d]) {
                assert(a =~= b);
            }
            lemma_flags_total(a, b, 0, d);
            if take {
                assert forall|o: int| 0 <= o < k + 1 && o != k implies ahead(states@[k as int], #[trigger] states@[o]) by {
                    if o != best && states@[o].1 == states@[k as int].1 {
                        lemma_flags_transitive(a, b, states@[o].0@, 0);
                    }
                }
            }
        }
        if take {
            best = k;
        }
        k += 1;
    }
    proof {
        let m = states@[best as int].0@;
        assert forall|m2: Seq<bool>| #[trigger] t(m2) is Some && m2 != m implies score_at(t, m2) < score_at(t, m) || (score_at(t, m2)
            == score_at(t, m) && flags_before(m, m2, 0)) by {
            assert(listed(states@, m2));
            let o = choose|o: int| 0 <= o < states@.len() && (#[trigger] states@[o]).0@ == m2;
            assert(ahead(states@[best as int], states@[o]));
        }
    }
    best
}

/// The best one-to-one assignment of the rows of `w` (one per ground-truth
/// speaker, in order) to `width` system speakers: per row the chosen system
/// speaker, or `None`. Only positive weights are ever chosen, and no other
/// one-to-one assignment gathers more weight: the search is exact, not greedy.
pub fn exact_assignment(w: &Vec<Vec<i64>>, width: usize) -> (result: Vec<Option<usize>>)
    requires
        well_shaped(rows(w@), width as nat),
        caps(rows(w@), w@.len() as int) <= i64::MAX,
    ensures
        result@ == best_assignment(rows(w@), width as nat),
        result@.len() == w@.len(),
        one_to_one(rows(w@), result@, width as nat, w@.len() as int),
        forall|other: Seq<Option<usize>>|
            other.len() == w@.len() && one_to_one(rows(w@), other, width as nat, w@.len() as int) ==> #[trigger] gathered(
                rows(w@),
                other,
                w@.len() as int,
            ) <= gathered(rows(w@), result@, w@.len() as int),
{
    let ghost wr = rows(w@);
    let mut flags: Vec<bool> = Vec::new();
    let mut c: usize = 0;
    while c < width
        invariant
            c <= width,
            flags@ == Seq::new(c as nat, |i: int| false),
        decreases width - c,
    {
        flags.push(false);
        c += 1;
    }
    let mut states: Vec<State> = Vec::new();
    states.push((flags, 0, Vec::new()));
    proof {
        assert(states@[0].0@ =~= none_used(width as nat));
        assert(states@[0].2@ =~= Seq::<Option<usize>>::empty());
        lemma_caps_grow(wr, 0, w@.len() as int);
    }
    let mut g: usize = 0;
    while g < w.len()
        invariant
            g <= w@.len(),
            wr == rows(w@),
            well_shaped(wr, width as nat),
            caps(wr, w@.len() as int) <= i64::MAX,
            represents(states@, table(wr, width as nat, g as nat), width as nat, caps(wr, g as int)),
        decreases w@.len() - g,
    {
        proof {
            lemma_caps_grow(wr, g as int, g + 1);
            lemma_caps_grow(wr, g + 1, w@.len() as int);
            lemma_row_max(wr[g as int], wr[g as int].len() as int);
            assert(wr[g as int] == w@[g as int]@);
        }
        let next = next_states(
            &states,
            &w[g],
            Ghost(table(wr, width as nat, g as nat)),
            Ghost(width as nat),
            Ghost(caps(wr, g as int)),
            Ghost(row_max(wr[g as int], wr[g as int].len() as int)),
        );
        proof {
            assert(table(wr, width as nat, (g + 1) as nat) == advance(table(wr, width as nat, g as nat), wr[g as int], width as nat));
        }
        states = next;
        g += 1;
    }
    let ghost t = table(wr, width as nat, w@.len() as nat);
    proof {
        lemma_none_reachable(wr, width as nat, w@.len() as nat);
        assert(listed(states@, none_used(width as nat)));
    }
    let best = pick_final(&states, Ghost(t), Ghost(width as nat), Ghost(caps(wr, w@.len() as int)));
    proof {
        let mb = states@[best as int].0@;
        let m = choose|m: Seq<bool>| is_final(t, m);
        lemma_final_unique(t, m, mb);
        lemma_table_entry(wr, width as nat, w@.len() as nat, mb);
        assert forall|other: Seq<Option<usize>>|
            other.len() == w@.len() && one_to_one(wr, other, width as nat, w@.len() as int) implies #[trigger] gathered(
                wr,
                other,
                w@.len() as int,
            ) <= gathered(wr, states@[best as int].2@, w@.len() as int) by {
            lemma_table_dominates(wr, width as nat, w@.len() as nat, other);
        }
    }
    copy_choices(&states[best].2)
}

/// A reference interval takes part in the alignment: it is neither tagged as
/// overlapping speech nor as uncertain.
pub open spec fn usable(r: GtSpeakerInterval) -> bool {
    !r.overlap && !r.uncertain
}

/// The time two spans share, in ms: 0 where they do not meet, and at most
/// `i64::MAX`.
pub open spec fn shared_spec(a_start: i64, a_end: i64, b_start: i64, b_end: i64) -> int {
    let end = if a_end < b_end {
        a_end as int
    } else {
        b_end as int
    };
    let start = if a_start > b_start {
        a_start as int
    } else {
        b_start as int
    };
    if end - start <= 0 {
        0
    } else if end - start > i64::MAX {
        i64::MAX as int
    } else {
        end - start
    }
}

/// The time reference `r` shares with turn `t`.
pub open spec fn shared(r: GtSpeakerInterval, t: StoredTurn) -> int {
    shared_spec(r.start_ms, r.end_ms, t.start_ms, t.end_ms)
}

/// Some turn of `turns[..m]` shares time with `r`.
pub open spec fn shares_any(r: GtSpeakerInterval, turns: Seq<StoredTurn>, m: int) -> bool
    decreases m,
{
    if m <= 0 {
        false
    } else {
        shares_any(r, turns, m - 1) || shared(r, turns[m - 1]) > 0
    }
}

/// The keys of the turns of `turns[..m]` that share time with `r`.
pub open spec fn sharing_keys(r: GtSpeakerInterval, turns: Seq<StoredTurn>, m: int) -> Set<Seq<char>>
    decreases m,
{
    if m <= 0 {
        Set::empty()
    } else {
        let p = sharing_keys(r, turns, m - 1);
        if shared(r, turns[m - 1]) > 0 {
            p.insert(turns[m - 1].speaker_key@)
        } else {
            p
        }
    }
}

/// The keys of the usable references of `refs[..n]` that share time with
/// some turn.
pub open spec fn reference_keys(refs: Seq<GtSpeakerInterval>, turns: Seq<StoredTurn>, n: int) -> Set<Seq<char>>
    decreases n,
{
    if n <= 0 {
        Set::empty()
    } else {
        let p = reference_keys(refs, turns, n - 1);
        if usable(refs[n - 1]) && shares_any(refs[n - 1], turns, turns.len() as int) {
            p.insert(refs[n - 1].gt_speaker_key@)
        } else {
            p
        }
    }
}

/// The keys of the turns that share time with some usable reference of
/// `refs[..n]`.
pub open spec fn turn_keys(refs: Seq<GtSpeakerInterval>, turns: Seq<StoredTurn>, n: int) -> Set<Seq<char>>
    decreases n,
{
    if n <= 0 {
        Set::empty()
    } else {
        let p = turn_keys(refs, turns, n - 1);
        if usable(refs[n - 1]) {
            p.union(sharing_keys(refs[n - 1], turns, turns.len() as int))
        } else {
            p
        }
    }
}

/// The time reference `r` shares with the turns of `turns[..m]` under `key`.
pub open spec fn turn_share(r: GtSpeakerInterval, turns: Seq<StoredTurn>, key: Seq<char>, m: int) -> int
    decreases m,
{
    if m <= 0 {
        0
    } else {
        turn_share(r, turns, key, m - 1) + if turns[m - 1].speaker_key@ == key {
            shared(r, turns[m - 1])
        } else {
            0
        }
    }
}

/// The weight of reference speaker `gkey` on turn speaker `skey`: the time
/// the usable references of `refs[..n]` under `gkey` share with the turns
/// under `skey`.
pub open spec fn pair_weight(refs: Seq<GtSpeakerInterval>, turns: Seq<StoredTurn>, gkey: Seq<char>, skey: Seq<char>, n: int) -> int
    decreases n,
{
    if n <= 0 {
        0
    } else {
        pair_weight(refs, turns, gkey, skey, n - 1) + if usable(refs[n - 1]) && refs[n - 1].gt_speaker_key@ == gkey {
            turn_share(refs[n - 1], turns, skey, turns.len() as int)
        } else {
            0
        }
    }
}

/// The keys of `s`, ascending.
pub open spec fn ascending(s: Set<Seq<char>>) -> Seq<Seq<char>> {
    choose|v: Seq<Seq<char>>| strictly_sorted(v) && v.to_set() == s
}

/// The weights of every reference speaker of `gk` on every turn speaker of `sk`.
pub open spec fn weight_rows(refs: Seq<GtSpeakerInterval>, turns: Seq<StoredTurn>, gk: Seq<Seq<char>>, sk: Seq<Seq<char>>) -> Seq<Seq<i64>> {
    Seq::new(gk.len(), |i: int| Seq::new(sk.len(), |c: int| pair_weight(refs, turns, gk[i], sk[c], refs.len() as int) as i64))
}

/// The (reference speaker, turn speaker) pairs that `a[..n]` chooses, in order.
pub open spec fn chosen_pairs(gk: Seq<Seq<char>>, sk: Seq<Seq<char>>, a: Seq<Option<usize>>, n: int) -> Seq<(Seq<char>, Seq<char>)>
    decreases n,
{
    if n <= 0 {
        Seq::empty()
    } else {
        let p = chosen_pairs(gk, sk, a, n - 1);
        match a[n - 1] {
            Some(c) => if c < sk.len() {
                p.push((gk[n - 1], sk[c as int]))
            } else {
                p
            },
            None => p,
        }
    }
}

/// The reference speakers and the turn speakers, each ascending.
pub open spec fn speaker_keys(refs: Seq<GtSpeakerInterval>, turns: Seq<StoredTurn>) -> (Seq<Seq<char>>, Seq<Seq<char>>) {
    (ascending(reference_keys(refs, turns, refs.len() as int)), ascending(turn_keys(refs, turns, refs.len() as int)))
}

/// The mapping from reference speakers to turn speakers.
pub open spec fn speaker_mapping(refs: Seq<GtSpeakerInterval>, turns: Seq<StoredTurn>) -> Seq<(Seq<char>, Seq<char>)> {
    let (gk, sk) = speaker_keys(refs, turns);
    let a = best_assignment(weight_rows(refs, turns, gk, sk), sk.len());
    chosen_pairs(gk, sk, a, if gk.len() < a.len() { gk.len() as int } else { a.len() as int })
}

/// Every weight fits an `i64`, and so does every score the search forms.
pub open spec fn weights_fit(refs: Seq<GtSpeakerInterval>, turns: Seq<StoredTurn>) -> bool {
    let (gk, sk) = speaker_keys(refs, turns);
    &&& forall|i: int, c: int|
        0 <= i < gk.len() && 0 <= c < sk.len() ==> pair_weight(refs, turns, #[trigger] gk[i], #[trigger] sk[c], refs.len() as int)
            <= i64::MAX
    &&& caps(weight_rows(refs, turns, gk, sk), gk.len() as int) <= i64::MAX
}

proof fn lemma_turn_share_grow(r: GtSpeakerInterval, turns: Seq<StoredTurn>, key: Seq<char>, m: int, m2: int)
    requires
        0 <= m <= m2,
    ensures
        0 <= turn_share(r, turns, key, m) <= turn_share(r, turns, key, m2),
    decreases m2,
{
    if m2 > m {
        lemma_turn_share_grow(r, turns, key, m, m2 - 1);
    } else if m > 0 {
        lemma_turn_share_grow(r, turns, key, m - 1, m - 1);
    }
}

proof fn lemma_pair_weight_grow(refs: Seq<GtSpeakerInterval>, turns: Seq<StoredTurn>, g: Seq<char>, k: Seq<char>, n: int, n2: int)
    requires
        0 <= n <= n2,
    ensures
        0 <= pair_weight(refs, turns, g, k, n) <= pair_weight(refs, turns, g, k, n2),
    decreases n2,
{
    if n2 > n {
        lemma_pair_weight_grow(refs, turns, g, k, n, n2 - 1);
        lemma_turn_share_grow(refs[n2 - 1], turns, k, 0, turns.len() as int);
    } else if n > 0 {
        lemma_pair_weight_grow(refs, turns, g, k, n - 1, n - 1);
        lemma_turn_share_grow(refs[n - 1], turns, k, 0, turns.len() as int);
    }
}

/// Each pair of `chosen_pairs(.., n)` is some reference speaker `k < n` with
/// the system speaker the assignment gives it.
proof fn lemma_chosen_pair_origin(gk: Seq<Seq<char>>, sk: Seq<Seq<char>>, a: Seq<Option<usize>>, n: int, p: int)
    requires
        0 <= n <= a.len(),
        0 <= p < chosen_pairs(gk, sk, a, n).len(),
    ensures
        exists|k: int|
            0 <= k < n && #[trigger] a[k] is Some && (a[k]->0 as int) < sk.len() && chosen_pairs(gk, sk, a, n)[p] == (
                gk[k],
                sk[a[k]->0 as int],
            ),
    decreases n,
{
    let prev = chosen_pairs(gk, sk, a, n - 1);
    if p < prev.len() {
        lemma_chosen_pair_origin(gk, sk, a, n - 1, p);
        let k = choose|k: int|
            0 <= k < n - 1 && #[trigger] a[k] is Some && (a[k]->0 as int) < sk.len() && prev[p] == (gk[k], sk[a[k]->0 as int]);
        assert(chosen_pairs(gk, sk, a, n)[p] == prev[p]);
        assert(a[k] is Some);
    } else {
        assert(a[n - 1] is Some);
    }
}

/// Distinct keys, with no system speaker chosen twice, give pairs that
/// repeat neither a reference speaker nor a system speaker.
proof fn lemma_chosen_pairs_distinct(gk: Seq<Seq<char>>, sk: Seq<Seq<char>>, a: Seq<Option<usize>>, n: int)
    requires
        0 <= n <= a.len(),
        n <= gk.len(),
        gk.no_duplicates(),
        sk.no_duplicates(),
        forall|k1: int, k2: int|
            0 <= k1 < k2 < n && (#[trigger] a[k1]) is Some && (#[trigger] a[k2]) is Some ==> a[k1]->0 != a[k2]->0,
    ensures
        pairs_distinct(chosen_pairs(gk, sk, a, n)),
    decreases n,
{
    if n > 0 {
        lemma_chosen_pairs_distinct(gk, sk, a, n - 1);
        let prev = chosen_pairs(gk, sk, a, n - 1);
        let cur = chosen_pairs(gk, sk, a, n);
        if cur.len() > prev.len() {
            assert(a[n - 1] is Some);
            let c = a[n - 1]->0 as int;
            assert(cur == prev.push((gk[n - 1], sk[c])));
            assert forall|i: int, j: int| 0 <= i < j < cur.len() implies #[trigger] cur[i].0 != #[trigger] cur[j].0 && cur[i].1 != cur[j].1 by {
                if j == prev.len() {
                    lemma_chosen_pair_origin(gk, sk, a, n - 1, i);
                    let k = choose|k: int|
                        0 <= k < n - 1 && #[trigger] a[k] is Some && (a[k]->0 as int) < sk.len() && prev[i] == (gk[k], sk[a[k]->0 as int]);
                    assert(cur[i] == prev[i]);
                    assert(a[k] is Some && a[n - 1] is Some);
                    assert(a[k]->0 != a[n - 1]->0);
                } else {
                    assert(cur[i] == prev[i]);
                    assert(cur[j] == prev[j]);
                }
            }
        } else {
            assert(cur == prev);
        }
    }
}

/// The time two spans share, as code.
fn shared_ms(a_start: i64, a_end: i64, b_start: i64, b_end: i64) -> (result: i64)
    ensures
        result == shared_spec(a_start, a_end, b_start, b_end),
{
    let end: i128 = if a_end < b_end {
        a_end as i128
    } else {
        b_end as i128
    };
    let start: i128 = if a_start > b_start {
        a_start as i128
    } else {
        b_start as i128
    };
    if end - start <= 0 {
        0
    } else if end - start > i64::MAX as i128 {
        i64::MAX
    } else {
        (end - start) as i64
    }
}

/// The reference speakers and the turn speakers, each ascending.
fn key_lists(refs: &[GtSpeakerInterval], turns: &[StoredTurn]) -> (result: (Vec<String>, Vec<String>))
    ensures
        strictly_sorted(views(result.0@)),
        views(result.0@).to_set() == reference_keys(refs@, turns@, refs@.len() as int),
        strictly_sorted(views(result.1@)),
        views(result.1@).to_set() == turn_keys(refs@, turns@, refs@.len() as int),
{
    let mut gk: Vec<String> = Vec::new();
    let mut sk: Vec<String> = Vec::new();
    proof {
        assert(views(gk@).to_set() =~= Set::empty());
        assert(views(sk@).to_set() =~= Set::empty());
    }
    let mut i: usize = 0;
    while i < refs.len()
        invariant
            i <= refs@.len(),
            strictly_sorted(views(gk@)),
            views(gk@).to_set() == reference_keys(refs@, turns@, i as int),
            strictly_sorted(views(sk@)),
            views(sk@).to_set() == turn_keys(refs@, turns@, i as int),
        decreases refs@.len() - i,
    {
        let r = &refs[i];
        let use_it = !r.overlap && !r.uncertain;
        let ghost base = turn_keys(refs@, turns@, i as int);
        let mut any = false;
        let mut j: usize = 0;
        proof {
            assert(base.union(sharing_keys(*r, turns@, 0)) =~= base);
        }
        while j < turns.len()
            invariant
                i < refs@.len(),
                *r == refs@[i as int],
                use_it == usable(*r),
                j <= turns@.len(),
                any == shares_any(*r, turns@, j as int),
                base == turn_keys(refs@, turns@, i as int),
                strictly_sorted(views(sk@)),
                views(sk@).to_set() == if use_it {
                    base.union(sharing_keys(*r, turns@, j as int))
                } else {
                    base
                },
            decreases turns@.len() - j,
        {
            let t = &turns[j];
            if shared_ms(r.start_ms, r.end_ms, t.start_ms, t.end_ms) > 0 {
                any = true;
                if use_it {
                    let ghost before = views(sk@).to_set();
                    insert_sorted(&mut sk, owned(t.speaker_key.as_str()));
                    assert(base.union(sharing_keys(*r, turns@, j + 1)) =~= before.insert(t.speaker_key@));
                }
            }
            j += 1;
        }
        if use_it && any {
            insert_sorted(&mut gk, owned(r.gt_speaker_key.as_str()));
        }
        i += 1;
    }
    (gk, sk)
}

/// The time `r` shares with the turns under `key`.
fn turn_share_of(r: &GtSpeakerInterval, turns: &[StoredTurn], key: &str) -> (result: i64)
    requires
        turn_share(*r, turns@, key@, turns@.len() as int) <= i64::MAX,
    ensures
        result == turn_share(*r, turns@, key@, turns@.len() as int),
{
    let mut acc: i64 = 0;
    let mut m: usize = 0;
    while m < turns.len()
        invariant
            m <= turns@.len(),
            turn_share(*r, turns@, key@, turns@.len() as int) <= i64::MAX,
            acc == turn_share(*r, turns@, key@, m as int),
        decreases turns@.len() - m,
    {
        proof {
            lemma_turn_share_grow(*r, turns@, key@, m + 1, turns@.len() as int);
        }
        let t = &turns[m];
        if str_eq(t.speaker_key.as_str(), key) {
            acc = acc + shared_ms(r.start_ms, r.end_ms, t.start_ms, t.end_ms);
        }
        m += 1;
    }
    acc
}

/// The weight of reference speaker `gkey` on turn speaker `skey`.
fn pair_weight_of(refs: &[GtSpeakerInterval], turns: &[StoredTurn], gkey: &str, skey: &str) -> (result: i64)
    requires
        pair_weight(refs@, turns@, gkey@, skey@, refs@.len() as int) <= i64::MAX,
    ensures
        result == pair_weight(refs@, turns@, gkey@, skey@, refs@.len() as int),
{
    let mut acc: i64 = 0;
    let mut n: usize = 0;
    while n < refs.len()
        invariant
            n <= refs@.len(),
            pair_weight(refs@, turns@, gkey@, skey@, refs@.len() as int) <= i64::MAX,
            acc == pair_weight(refs@, turns@, gkey@, skey@, n as int),
        decreases refs@.len() - n,
    {
        proof {
            lemma_pair_weight_grow(refs@, turns@, gkey@, skey@, n + 1, refs@.len() as int);
            lemma_pair_weight_grow(refs@, turns@, gkey@, skey@, n as int, n + 1);
        }
        let r = &refs[n];
        if !r.overlap && !r.uncertain && str_eq(r.gt_speaker_key.as_str(), gkey) {
            let share = turn_share_of(r, turns, skey);
            acc = acc + share;
        }
        n += 1;
    }
    acc
}

/// The weight rows of the reference speakers `gk` on the turn speakers `sk`.
fn weight_matrix_of(refs: &[GtSpeakerInterval], turns: &[StoredTurn], gk: &Vec<String>, sk: &Vec<String>) -> (result: Vec<Vec<i64>>)
    requires
        forall|i: int, c: int|
            0 <= i < gk@.len() && 0 <= c < sk@.len() ==> pair_weight(refs@, turns@, #[trigger] gk@[i]@, #[trigger] sk@[c]@, refs@.len() as int)
                <= i64::MAX,
    ensures
        rows(result@) == weight_rows(refs@, turns@, views(gk@), views(sk@)),
{
    let ghost w = weight_rows(refs@, turns@, views(gk@), views(sk@));
    let mut out: Vec<Vec<i64>> = Vec::new();
    let mut i: usize = 0;
    while i < gk.len()
        invariant
            i <= gk@.len(),
            w == weight_rows(refs@, turns@, views(gk@), views(sk@)),
            forall|a: int, c: int|
                0 <= a < gk@.len() && 0 <= c < sk@.len() ==> pair_weight(refs@, turns@, #[trigger] gk@[a]@, #[trigger] sk@[c]@, refs@.len() as int)
                    <= i64::MAX,
            out@.len() == i,
            forall|a: int| 0 <= a < i ==> (#[trigger] out@[a])@ == w[a],
        decreases gk@.len() - i,
    {
        let mut row: Vec<i64> = Vec::new();
        let mut c: usize = 0;
        while c < sk.len()
            invariant
                i < gk@.len(),
                c <= sk@.len(),
                w == weight_rows(refs@, turns@, views(gk@), views(sk@)),
                forall|a: int, c2: int|
                    0 <= a < gk@.len() && 0 <= c2 < sk@.len() ==> pair_weight(refs@, turns@, #[trigger] gk@[a]@, #[trigger] sk@[c2]@, refs@.len() as int)
                        <= i64::MAX,
                row@.len() == c,
                forall|b: int| 0 <= b < c ==> #[trigger] row@[b] == w[i as int][b],
            decreases sk@.len() - c,
        {
            let v = pair_weight_of(refs, turns, gk[i].as_str(), sk[c].as_str());
            row.push(v);
            c += 1;
        }
        assert(row@ =~= w[i as int]);
        out.push(row);
        i += 1;
    }
    assert(rows(out@) =~= w);
    out
}

/// The pairs the assignment `a` chooses, in reference-speaker order.
fn pairs_of(gk: &Vec<String>, sk: &Vec<String>, a: &Vec<Option<usize>>) -> (result: Vec<(String, String)>)
    ensures
        pair_views(result@) == chosen_pairs(
            views(gk@),
            views(sk@),
            a@,
            if gk@.len() < a@.len() { gk@.len() as int } else { a@.len() as int },
        ),
{
    let n: usize = if gk.len() < a.len() { gk.len() } else { a.len() };
    let mut out: Vec<(String, String)> = Vec::new();
    let mut i: usize = 0;
    while i < n
        invariant
            i <= n,
            n <= gk@.len(),
            n <= a@.len(),
            pair_views(out@) == chosen_pairs(views(gk@), views(sk@), a@, i as int),
        decreases n - i,
    {
        let ghost before = out@;
        match a[i] {
            Some(c) => {
                if c < sk.len() {
                    out.push((owned(gk[i].as_str()), owned(sk[c].as_str())));
                    assert(pair_views(out@) =~= pair_views(before).push((gk@[i as int]@, sk@[c as int]@)));
                }
            },
            None => {},
        }
        i += 1;
    }
    out
}

/// Aligns reference speakers with system speakers for an utterance benchmark.
/// Usable references (neither overlapping speech nor uncertain) weigh each
/// pair of keys by the time they share; only keys with some shared time take
/// part, each list ascending. The best one-to-one assignment of the reference
/// speakers is searched exactly (see `exact_assignment`), and the result
/// lists each reference speaker that got a system speaker with that speaker,
/// ascending by reference speaker.
pub fn align_speakers(references: &[GtSpeakerInterval], system: &[StoredTurn]) -> (result: Vec<(String, String)>)
    requires
        weights_fit(references@, system@),
    ensures
        pair_views(result@) == speaker_mapping(references@, system@),
        pairs_distinct(pair_views(result@)),
{
    let (gk, sk) = key_lists(references, system);
    proof {
        let keys = speaker_keys(references@, system@);
        lemma_sorted_unique(views(gk@), keys.0);
        lemma_sorted_unique(views(sk@), keys.1);
        assert(views(gk@) == keys.0);
        assert(views(sk@) == keys.1);
        assert forall|i: int, c: int| 0 <= i < gk@.len() && 0 <= c < sk@.len() implies pair_weight(
            references@,
            system@,
            #[trigger] gk@[i]@,
            #[trigger] sk@[c]@,
            references@.len() as int,
        ) <= i64::MAX by {
            assert(views(gk@)[i] == gk@[i]@);
            assert(views(sk@)[c] == sk@[c]@);
        }
    }
    let w = weight_matrix_of(references, system, &gk, &sk);
    proof {
        let wr = rows(w@);
        assert forall|r: int, c: int| 0 <= r < wr.len() && 0 <= c < wr[r].len() implies 0 <= #[trigger] wr[r][c] by {
            let g = views(gk@)[r];
            let k = views(sk@)[c];
            lemma_pair_weight_grow(references@, system@, g, k, 0, references@.len() as int);
            assert(gk@[r]@ == g);
            assert(sk@[c]@ == k);
        }
    }
    let a = exact_assignment(&w, sk.len());
    proof {
        lemma_sorted_no_duplicates(views(gk@));
        lemma_sorted_no_duplicates(views(sk@));
        lemma_chosen_pairs_distinct(views(gk@), views(sk@), a@, gk@.len() as int);
    }
    pairs_of(&gk, &sk, &a)
}

} // verus!
