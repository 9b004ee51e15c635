//! The modal fuzzy picker's routing state machine and its fuzzy scorer.
//!
//! [`PickerState`] is a two-arm sum, `Closed` or `Open`, and
//! [`PickerState::on_event`] is the pure, total transition
//! `(state, event) -> (state, effects)`: while closed only `Open` does
//! anything. [`fuzzy_score`] ranks a label against a query: every query
//! character must appear in the label in order (case-insensitively), with
//! rewards for contiguous runs, a match at the start, and a match right
//! after a separator, and a light penalty for a long label.
use vstd::prelude::*;
use crate::strings::{char_width, chars_of, last_cluster_len, splice, utf8_len};
use crate::input::TextInput;

verus! {

/// The modal state of the picker overlay.
#[derive(Debug, Clone, Copy, PartialEq, Eq, Structural)]
pub enum PickerState {
    /// The overlay is closed; events other than `Open` are inert.
    Closed,
    /// The overlay is open and capturing input.
    Open,
}

/// Events the consumer feeds the state machine.
#[derive(Debug, Clone, PartialEq, Eq, Structural)]
pub enum PickerEvent {
    /// Open the overlay.
    Open,
    /// A printable character typed into the query.
    Type(char),
    /// Backspace one grapheme off the query.
    Backspace,
    /// Move the highlight up one row.
    NavUp,
    /// Move the highlight down one row.
    NavDown,
    /// Commit the highlighted row.
    Accept,
    /// Dismiss the overlay without committing.
    Cancel,
}

/// Side effects the consumer carries out after a transition.
#[derive(Debug, Clone, PartialEq)]
pub enum PickerEffect<T> {
    /// The overlay opened.
    Opened,
    /// The query changed; `visible` rows now match.
    Filtered { visible: usize },
    /// The highlight moved to `index`.
    Moved { index: usize },
    /// The highlighted row was committed.
    Accepted { key: T },
    /// The overlay was dismissed without committing.
    Cancelled,
}

/// One transition's output: the next state and the effects to run.
#[derive(Debug, Clone, PartialEq)]
pub struct PickerStep<T> {
    /// The state after the transition.
    pub state: PickerState,
    /// Effects the consumer executes, in order.
    pub effects: Vec<PickerEffect<T>>,
}

/// The state after `event` in state `s`.
pub open spec fn next_state(s: PickerState, event: PickerEvent) -> PickerState {
    match s {
        PickerState::Closed => match event {
            PickerEvent::Open => PickerState::Open,
            _ => PickerState::Closed,
        },
        PickerState::Open => match event {
            PickerEvent::Accept | PickerEvent::Cancel => PickerState::Closed,
            _ => PickerState::Open,
        },
    }
}

impl PickerState {
    /// Every state, in declaration order.
    pub const ALL: [PickerState; 2] = [PickerState::Closed, PickerState::Open];

    /// The routing transition. Closed: only `Open` acts (to `Open`, with
    /// `Opened`); everything else is inert. Open: `Open` re-opens (with
    /// `Opened`), `Accept` closes with no effect (the caller supplies the
    /// accepted key), `Cancel` closes with `Cancelled`, anything else stays
    /// open with no effect.
    pub fn on_event<T>(self, event: &PickerEvent) -> (r: PickerStep<T>)
        ensures
            r.state == next_state(self, *event),
            r.effects@ == (if *event == PickerEvent::Open {
                seq![PickerEffect::<T>::Opened]
            } else if self == PickerState::Open && *event == PickerEvent::Cancel {
                seq![PickerEffect::<T>::Cancelled]
            } else {
                Seq::<PickerEffect<T>>::empty()
            }),
    {
        match self {
            PickerState::Closed => match event {
                PickerEvent::Open => PickerStep { state: PickerState::Open, effects: vec![PickerEffect::Opened] },
                PickerEvent::Type(_)
                | PickerEvent::Backspace
                | PickerEvent::NavUp
                | PickerEvent::NavDown
                | PickerEvent::Accept
                | PickerEvent::Cancel => PickerStep { state: PickerState::Closed, effects: vec![] },
            },
            PickerState::Open => match event {
                PickerEvent::Open => PickerStep { state: PickerState::Open, effects: vec![PickerEffect::Opened] },
                PickerEvent::Type(_) | PickerEvent::Backspace => PickerStep {
                    state: PickerState::Open,
                    effects: vec![],
                },
                PickerEvent::NavUp | PickerEvent::NavDown => PickerStep {
                    state: PickerState::Open,
                    effects: vec![],
                },
                PickerEvent::Accept => PickerStep { state: PickerState::Closed, effects: vec![] },
                PickerEvent::Cancel => PickerStep {
                    state: PickerState::Closed,
                    effects: vec![PickerEffect::Cancelled],
                },
            },
        }
    }
}

// ---------------------------------------------------------------------------
// The fuzzy scorer.
// ---------------------------------------------------------------------------

/// `s` in Unicode lower case, as `str::to_lowercase` maps it.
pub uninterp spec fn unicode_lower(s: Seq<char>) -> Seq<char>;

/// Every character of `s` is ASCII.
pub open spec fn all_ascii(s: Seq<char>) -> bool {
    forall|i: int| 0 <= i < s.len() ==> (#[trigger] s[i] as u32) < 128
}

/// ASCII lower case: `A` to `Z` become `a` to `z`, the rest is kept.
pub open spec fn ascii_lower(s: Seq<char>) -> Seq<char> {
    s.map_values(|c: char| if 0x41 <= (c as u32) <= 0x5a {
        ((c as u32) + 32) as char
    } else {
        c
    })
}

/// `str::to_lowercase`: the Unicode lower-case mapping of `s` (which may
/// change its length). On ASCII text it is ASCII lower case; beyond that the
/// contract names the result and says no more.
#[verifier::external_body]
fn to_lower(s: &str) -> (r: String)
    ensures
        r@ == unicode_lower(s@),
        all_ascii(s@) ==> r@ == ascii_lower(s@),
{
    s.to_lowercase()
}

/// A word separator: `/`, `-`, `_`, `.` or space.
pub open spec fn is_sep(c: char) -> bool {
    c == '/' || c == '-' || c == '_' || c == '.' || c == ' '
}

/// Scoring state: query characters matched, score so far, current run.
pub struct ScoreState {
    pub matched: int,
    pub score: int,
    pub run: int,
}

/// One haystack character: a match of the next query character extends the
/// run and scores the run's length, plus 8 at the start of the haystack or
/// 6 right after a separator; anything else ends the run.
pub open spec fn score_step(hay: Seq<char>, n: Seq<char>, hi: int, st: ScoreState) -> ScoreState {
    if st.matched < n.len() && hay[hi] == n[st.matched] {
        let run = st.run + 1;
        let bonus = if hi == 0 {
            8int
        } else if is_sep(hay[hi - 1]) {
            6int
        } else {
            0int
        };
        ScoreState { matched: st.matched + 1, score: st.score + run + bonus, run }
    } else {
        ScoreState { run: 0, ..st }
    }
}

/// The scoring state after the first `k` haystack characters.
pub open spec fn score_upto(hay: Seq<char>, n: Seq<char>, k: int) -> ScoreState
    decreases k,
{
    if k <= 0 {
        ScoreState { matched: 0, score: 0, run: 0 }
    } else {
        score_step(hay, n, k - 1, score_upto(hay, n, k - 1))
    }
}

/// The score of needle `n` against haystack `hay`, both already lower-case:
/// 0 for an empty needle; otherwise, when every needle character matched in
/// order, the score less one sixteenth of the haystack's length.
pub open spec fn score_lowered(n: Seq<char>, hay: Seq<char>) -> Option<int> {
    if n.len() == 0 {
        Some(0)
    } else {
        let st = score_upto(hay, n, hay.len() as int);
        if st.matched == n.len() {
            Some(
                st.score - (if hay.len() <= i32::MAX {
                    hay.len() as int
                } else {
                    i32::MAX as int
                }) / 16,
            )
        } else {
            None
        }
    }
}

/// The score never passes `i32::MAX` while the haystack is read.
pub open spec fn score_fits(n: Seq<char>, hay: Seq<char>) -> bool {
    n.len() == 0 || score_upto(hay, n, hay.len() as int).score <= i32::MAX
}

proof fn lemma_score_basic(hay: Seq<char>, n: Seq<char>, j: int)
    requires
        0 <= j <= hay.len(),
    ensures
        0 <= score_upto(hay, n, j).run <= score_upto(hay, n, j).score,
        0 <= score_upto(hay, n, j).matched <= j,
    decreases j,
{
    if j > 0 {
        lemma_score_basic(hay, n, j - 1);
    }
}

proof fn lemma_score_monotone(hay: Seq<char>, n: Seq<char>, j: int, k: int)
    requires
        0 <= j <= k <= hay.len(),
    ensures
        score_upto(hay, n, j).score <= score_upto(hay, n, k).score,
    decreases k - j,
{
    if j < k {
        lemma_score_monotone(hay, n, j, k - 1);
        lemma_score_basic(hay, n, k - 1);
    }
}

/// The score of the lower-cased needle `n` against the lower-cased haystack
/// `hay`.
pub fn score_chars(n: &[char], hay: &[char]) -> (r: Option<i32>)
    requires
        score_fits(n@, hay@),
    ensures
        match r {
            Some(s) => score_lowered(n@, hay@) == Some(s as int),
            None => score_lowered(n@, hay@) is None,
        },
{
    if n.len() == 0 {
        return Some(0);
    }
    let mut ni: usize = 0;
    let mut score: i32 = 0;
    let mut run: i32 = 0;
    let mut hi: usize = 0;
    while hi < hay.len()
        invariant
            n@.len() > 0,
            score_fits(n@, hay@),
            hi <= hay@.len(),
            score_upto(hay@, n@, hi as int) == (ScoreState {
                matched: ni as int,
                score: score as int,
                run: run as int,
            }),
        decreases hay@.len() - hi,
    {
        proof {
            lemma_score_monotone(hay@, n@, hi + 1, hay@.len() as int);
            lemma_score_basic(hay@, n@, hi as int);
            lemma_score_basic(hay@, n@, hi + 1);
        }
        let hc = hay[hi];
        if ni < n.len() && hc == n[ni] {
            run += 1;
            score += run;
            if hi == 0 {
                score += 8;
            } else {
                let p = hay[hi - 1];
                if p == '/' || p == '-' || p == '_' || p == '.' || p == ' ' {
                    score += 6;
                }
            }
            ni += 1;
        } else {
            run = 0;
        }
        hi += 1;
    }
    proof {
        lemma_score_basic(hay@, n@, hi as int);
    }
    if ni == n.len() {
        let len = hay.len();
        let l: i32 = if len <= 2147483647 {
            len as i32
        } else {
            2147483647
        };
        Some(score - l / 16)
    } else {
        None
    }
}

/// The fuzzy score of `haystack` for the query `needle`, compared in
/// Unicode lower case: `Some` when every needle character appears in the
/// haystack in order, higher for a better match; an empty needle scores 0.
/// The score must fit in an `i32` while it is summed.
pub fn fuzzy_score(needle: &str, haystack: &str) -> (r: Option<i32>)
    requires
        score_fits(unicode_lower(needle@), unicode_lower(haystack@)),
    ensures
        match r {
            Some(s) => score_lowered(unicode_lower(needle@), unicode_lower(haystack@)) == Some(s as int),
            None => score_lowered(unicode_lower(needle@), unicode_lower(haystack@)) is None,
        },
        all_ascii(needle@) ==> unicode_lower(needle@) == ascii_lower(needle@),
        all_ascii(haystack@) ==> unicode_lower(haystack@) == ascii_lower(haystack@),
{
    let n = chars_of(to_lower(needle).as_str());
    let hay = chars_of(to_lower(haystack).as_str());
    score_chars(n.as_slice(), hay.as_slice())
}

/// The score of `hay` for `n` as summed without bound, when it fits in an
/// `i32` throughout: whether [`score_chars`] can run.
fn fits(n: &[char], hay: &[char]) -> (r: bool)
    ensures
        r == score_fits(n@, hay@),
{
    if n.len() == 0 {
        return true;
    }
    let mut ni: usize = 0;
    let mut score: u64 = 0;
    let mut run: u64 = 0;
    let mut hi: usize = 0;
    while hi < hay.len()
        invariant
            n@.len() > 0,
            hi <= hay@.len(),
            score <= i32::MAX,
            score_upto(hay@, n@, hi as int) == (ScoreState {
                matched: ni as int,
                score: score as int,
                run: run as int,
            }),
        decreases hay@.len() - hi,
    {
        proof {
            lemma_score_basic(hay@, n@, hi as int);
            lemma_score_basic(hay@, n@, hi + 1);
            lemma_score_monotone(hay@, n@, hi + 1, hay@.len() as int);
        }
        let hc = hay[hi];
        if ni < n.len() && hc == n[ni] {
            run += 1;
            score += run;
            if hi == 0 {
                score += 8;
            } else {
                let p = hay[hi - 1];
                if p == '/' || p == '-' || p == '_' || p == '.' || p == ' ' {
                    score += 6;
                }
            }
            ni += 1;
            if score > 2147483647 {
                return false;
            }
        } else {
            run = 0;
        }
        hi += 1;
    }
    true
}

/// [`fuzzy_score`] where the score fits in an `i32`: `None` when it would
/// not, else `Some` of what `fuzzy_score` gives.
pub fn try_fuzzy_score(needle: &str, haystack: &str) -> (r: Option<Option<i32>>)
    ensures
        r is None == !score_fits(unicode_lower(needle@), unicode_lower(haystack@)),
        r matches Some(x) ==> match x {
            Some(s) => score_lowered(unicode_lower(needle@), unicode_lower(haystack@)) == Some(s as int),
            None => score_lowered(unicode_lower(needle@), unicode_lower(haystack@)) is None,
        },
        all_ascii(needle@) ==> unicode_lower(needle@) == ascii_lower(needle@),
        all_ascii(haystack@) ==> unicode_lower(haystack@) == ascii_lower(haystack@),
{
    let n = chars_of(to_lower(needle).as_str());
    let hay = chars_of(to_lower(haystack).as_str());
    if fits(n.as_slice(), hay.as_slice()) {
        Some(fuzzy_score(needle, haystack))
    } else {
        None
    }
}

// ---------------------------------------------------------------------------
// Ranking the items that match.
// ---------------------------------------------------------------------------

/// The score an `Option` carries, 0 when there is none.
pub open spec fn score_value(o: Option<int>) -> int {
    match o {
        Some(s) => s,
        None => 0,
    }
}

/// Item `i` ranks above item `j`: a better score, else a higher frecency
/// rank, else it comes first.
pub open spec fn ranks_above(sc: Seq<Option<int>>, rk: Seq<u64>, i: int, j: int) -> bool {
    let a = score_value(sc[i]);
    let b = score_value(sc[j]);
    a > b || (a == b && (rk[i] > rk[j] || (rk[i] == rk[j] && i < j)))
}

/// `f` lists exactly the items that have a score, each once, best first.
pub open spec fn is_ranking(f: Seq<usize>, sc: Seq<Option<int>>, rk: Seq<u64>) -> bool {
    &&& forall|k: int| 0 <= k < f.len() ==> (#[trigger] f[k]) < sc.len() && sc[f[k] as int] is Some
    &&& forall|i: int| 0 <= i < sc.len() && (#[trigger] sc[i]) is Some ==> exists|k: int|
        0 <= k < f.len() && f[k] == i
    &&& forall|a: int, b: int| 0 <= a < b < f.len() ==> ranks_above(sc, rk, #[trigger] f[a] as int, #[trigger] f[b] as int)
}

/// The scores as mathematical integers.
pub open spec fn wide_scores(v: Seq<Option<i32>>) -> Seq<Option<int>> {
    v.map_values(|o: Option<i32>| match o {
        Some(s) => Some(s as int),
        None => None,
    })
}

proof fn lemma_ranks_above_total(sc: Seq<Option<int>>, rk: Seq<u64>, i: int, j: int)
    requires
        i != j,
    ensures
        ranks_above(sc, rk, i, j) != ranks_above(sc, rk, j, i),
{
}

proof fn lemma_ranks_above_transitive(sc: Seq<Option<int>>, rk: Seq<u64>, i: int, j: int, k: int)
    requires
        ranks_above(sc, rk, i, j),
        ranks_above(sc, rk, j, k),
    ensures
        ranks_above(sc, rk, i, k),
{
}

/// The items that have a score, best first: by score, then by frecency
/// rank (higher first), then in their own order.
pub fn rank_matches(scores: &Vec<Option<i32>>, ranks: &Vec<u64>) -> (f: Vec<usize>)
    requires
        scores@.len() == ranks@.len(),
    ensures
        is_ranking(f@, wide_scores(scores@), ranks@),
{
    let ghost sc = wide_scores(scores@);
    let ghost rk = ranks@;
    let mut f: Vec<usize> = Vec::new();
    let mut i: usize = 0;
    while i < scores.len()
        invariant
            sc == wide_scores(scores@),
            rk == ranks@,
            scores@.len() == ranks@.len(),
            i <= scores@.len(),
            forall|k: int| 0 <= k < f@.len() ==> (#[trigger] f@[k]) < i && sc[f@[k] as int] is Some,
            forall|j: int| 0 <= j < i && (#[trigger] sc[j]) is Some ==> exists|k: int|
                0 <= k < f@.len() && f@[k] == j,
            forall|a: int, b: int|
                0 <= a < b < f@.len() ==> ranks_above(sc, rk, #[trigger] f@[a] as int, #[trigger] f@[b] as int),
        decreases scores@.len() - i,
    {
        assert(sc[i as int] == match scores@[i as int] {
            Some(s) => Some(s as int),
            None => None::<int>,
        });
        match scores[i] {
            None => {},
            Some(_) => {
                // The first place where item `i` ranks above what is there.
                let mut p: usize = 0;
                while p < f.len() && !self::above(scores, ranks, i, f[p])
                    invariant
                        sc == wide_scores(scores@),
                        rk == ranks@,
                        scores@.len() == ranks@.len(),
                        i < scores@.len(),
                        p <= f@.len(),
                        forall|k: int| 0 <= k < f@.len() ==> (#[trigger] f@[k]) < i,
                        forall|k: int| 0 <= k < p ==> ranks_above(sc, rk, #[trigger] f@[k] as int, i as int),
                    decreases f@.len() - p,
                {
                    proof {
                        lemma_ranks_above_total(sc, rk, i as int, f@[p as int] as int);
                    }
                    p += 1;
                }
                let ghost old_f = f@;
                f.insert(p, i);
                proof {
                    assert forall|a: int, b: int|
                        0 <= a < b < f@.len() implies ranks_above(sc, rk, #[trigger] f@[a] as int, #[trigger] f@[b] as int) by {
                        if b < p {
                            assert(f@[a] == old_f[a] && f@[b] == old_f[b]);
                        } else if b == p {
                            assert(f@[a] == old_f[a]);
                        } else if a < p {
                            assert(f@[a] == old_f[a] && f@[b] == old_f[b - 1]);
                            if p < old_f.len() {
                                assert(ranks_above(sc, rk, i as int, old_f[p as int] as int));
                            }
                            assert(ranks_above(sc, rk, old_f[a] as int, i as int));
                            if b - 1 > p {
                                assert(ranks_above(sc, rk, old_f[p as int] as int, old_f[b - 1] as int));
                                lemma_ranks_above_transitive(sc, rk, i as int, old_f[p as int] as int, old_f[b - 1] as int);
                            }
                            lemma_ranks_above_transitive(sc, rk, old_f[a] as int, i as int, old_f[b - 1] as int);
                        } else if a == p {
                            assert(f@[b] == old_f[b - 1]);
                            if b - 1 > p {
                                assert(ranks_above(sc, rk, old_f[p as int] as int, old_f[b - 1] as int));
                                lemma_ranks_above_transitive(sc, rk, i as int, old_f[p as int] as int, old_f[b - 1] as int);
                            }
                        } else {
                            assert(f@[a] == old_f[a - 1] && f@[b] == old_f[b - 1]);
                        }
                    }
                    assert forall|j: int| 0 <= j < i + 1 && (#[trigger] sc[j]) is Some implies exists|k: int|
                        0 <= k < f@.len() && f@[k] == j by {
                        if j == i {
                            assert(f@[p as int] == i);
                        } else {
                            let k = choose|k: int| 0 <= k < old_f.len() && old_f[k] == j;
                            if k < p {
                                assert(f@[k] == j);
                            } else {
                                assert(f@[k + 1] == j);
                            }
                        }
                    }
                    assert forall|k: int| 0 <= k < f@.len() implies (#[trigger] f@[k]) < i + 1 && sc[f@[k] as int] is Some by {
                        if k < p {
                            assert(f@[k] == old_f[k]);
                        } else if k > p {
                            assert(f@[k] == old_f[k - 1]);
                        }
                    }
                }
            },
        }
        i += 1;
    }
    f
}

/// Whether item `i` ranks above item `j`.
fn above(scores: &Vec<Option<i32>>, ranks: &Vec<u64>, i: usize, j: usize) -> (r: bool)
    requires
        i < scores@.len(),
        j < scores@.len(),
        scores@.len() == ranks@.len(),
    ensures
        r == ranks_above(wide_scores(scores@), ranks@, i as int, j as int),
{
    let a: i32 = match scores[i] {
        Some(s) => s,
        None => 0,
    };
    let b: i32 = match scores[j] {
        Some(s) => s,
        None => 0,
    };
    a > b || (a == b && (ranks[i] > ranks[j] || (ranks[i] == ranks[j] && i < j)))
}

// ---------------------------------------------------------------------------
// The picker's data: query, items, ranking, highlight.
// ---------------------------------------------------------------------------

/// The score an item labelled `label` gets for the query `q`: 0 for every
/// item when the query is empty, else the fuzzy score of their lower-case
/// forms.
pub open spec fn item_score(q: Seq<char>, label: Seq<char>) -> Option<int> {
    if q.len() == 0 {
        Some(0)
    } else {
        score_lowered(unicode_lower(q), unicode_lower(label))
    }
}

/// Each label's score for the query `q`.
pub open spec fn item_scores(q: Seq<char>, labels: Seq<Seq<char>>) -> Seq<Option<int>> {
    Seq::new(labels.len(), |i: int| item_score(q, labels[i]))
}

/// Scoring the query `q` against every label stays within `i32`.
pub open spec fn scores_fit(q: Seq<char>, labels: Seq<Seq<char>>) -> bool {
    q.len() == 0 || forall|i: int|
        0 <= i < labels.len() ==> #[trigger] score_fits(unicode_lower(q), unicode_lower(labels[i]))
}

/// The characters of each label.
pub open spec fn label_views(labels: Seq<String>) -> Seq<Seq<char>> {
    labels.map_values(|s: String| s@)
}

/// Every label's score for the query `q`, or `None` when some score would
/// not fit in an `i32`.
fn score_items(q: &str, labels: &Vec<String>) -> (r: Option<Vec<Option<i32>>>)
    ensures
        r is None == !scores_fit(q@, label_views(labels@)),
        r matches Some(v) ==> wide_scores(v@) == item_scores(q@, label_views(labels@)),
{
    let ghost lv = label_views(labels@);
    let empty = q.is_empty();
    let mut out: Vec<Option<i32>> = Vec::new();
    let mut i: usize = 0;
    while i < labels.len()
        invariant
            lv == label_views(labels@),
            empty == (q@.len() == 0),
            i <= labels@.len(),
            out@.len() == i,
            wide_scores(out@) == item_scores(q@, lv).take(i as int),
            !empty ==> forall|j: int|
                0 <= j < i ==> #[trigger] score_fits(unicode_lower(q@), unicode_lower(lv[j])),
        decreases labels@.len() - i,
    {
        let ghost before = out@;
        if empty {
            out.push(Some(0));
        } else {
            match try_fuzzy_score(q, labels[i].as_str()) {
                None => {
                    proof {
                        assert(lv[i as int] == labels@[i as int]@);
                        assert(!score_fits(unicode_lower(q@), unicode_lower(lv[i as int])));
                    }
                    return None;
                },
                Some(x) => {
                    out.push(x);
                },
            }
        }
        proof {
            assert(lv[i as int] == labels@[i as int]@);
            assert(wide_scores(out@) =~= item_scores(q@, lv).take(i + 1)) by {
                assert(wide_scores(out@) =~= wide_scores(before).push(wide_scores(out@)[i as int]));
                assert(item_scores(q@, lv).take(i + 1) =~= item_scores(q@, lv).take(i as int).push(
                    item_scores(q@, lv)[i as int],
                ));
            }
        }
        i += 1;
    }
    assert(item_scores(q@, lv).take(labels@.len() as int) =~= item_scores(q@, lv));
    Some(out)
}

/// The text and character cursor that `insert_char(c)` leaves in `q`.
pub open spec fn after_insert(q: TextInput, c: char) -> (Seq<char>, int) {
    (splice(q.unselected().0, q.unselected().1, q.unselected().1, seq![c]), q.unselected().1 + 1)
}

/// The text and character cursor that `delete_back` leaves in `q`.
pub open spec fn after_delete_back(q: TextInput) -> (Seq<char>, int) {
    if q.has_selection() {
        (Seq::empty(), 0)
    } else if q.char_cursor() == 0 {
        (q.chars(), 0)
    } else {
        let t = q.chars();
        let ci = q.char_cursor();
        let start = ci - last_cluster_len(t.take(ci));
        (splice(t, start, ci, Seq::empty()), start)
    }
}

/// The effects a picker step reports, none when it could not run.
pub open spec fn effects_of(r: Option<Vec<PickerEffect<usize>>>) -> Seq<PickerEffect<usize>> {
    match r {
        Some(v) => v@,
        None => Seq::empty(),
    }
}

/// The fuzzy picker's logic over items known by their index: the routing
/// state, the query, each item's label and frecency rank (a higher rank
/// sorts first among equal matches), the ranked indices that match the
/// query, and the highlight among them.
#[derive(Debug)]
pub struct PickerCore {
    state: PickerState,
    query: TextInput,
    labels: Vec<String>,
    ranks: Vec<u64>,
    filtered: Vec<usize>,
    selected: usize,
}

impl PickerCore {
    /// One rank per label, the ranked indices name items, and the highlight
    /// is on a row (0 when there is none).
    #[verifier::type_invariant]
    spec fn inv(self) -> bool {
        &&& self.labels@.len() == self.ranks@.len()
        &&& forall|k: int| 0 <= k < self.filtered@.len() ==> #[trigger] self.filtered@[k] < self.labels@.len()
        &&& self.selected == 0 || self.selected < self.filtered@.len()
    }

    pub closed spec fn state_spec(&self) -> PickerState {
        self.state
    }

    pub closed spec fn query_input(&self) -> TextInput {
        self.query
    }

    pub closed spec fn labels_spec(&self) -> Seq<Seq<char>> {
        label_views(self.labels@)
    }

    pub closed spec fn ranks_spec(&self) -> Seq<u64> {
        self.ranks@
    }

    pub closed spec fn filtered_spec(&self) -> Seq<usize> {
        self.filtered@
    }

    pub closed spec fn selected_spec(&self) -> int {
        self.selected as int
    }

    /// The ranked indices are exactly the items matching the query, best
    /// first.
    pub open spec fn ranked(&self) -> bool {
        is_ranking(
            self.filtered_spec(),
            item_scores(self.query_input().chars(), self.labels_spec()),
            self.ranks_spec(),
        )
    }

    /// Re-rank against the query, keeping the highlight (clamped to the
    /// rows). Does nothing, and says so, when some score would not fit in
    /// an `i32`.
    fn recompute(&mut self) -> (r: bool)
        ensures
            r == scores_fit(old(self).query_input().chars(), old(self).labels_spec()),
            final(self).state_spec() == old(self).state_spec(),
            final(self).query_input() == old(self).query_input(),
            final(self).labels_spec() == old(self).labels_spec(),
            final(self).ranks_spec() == old(self).ranks_spec(),
            r ==> final(self).ranked(),
            r ==> final(self).selected_spec() == (if old(self).selected_spec()
                < final(self).filtered_spec().len() {
                old(self).selected_spec()
            } else if final(self).filtered_spec().len() == 0 {
                0
            } else {
                final(self).filtered_spec().len() - 1
            }),
            !r ==> final(self).filtered_spec() == old(self).filtered_spec() && final(self).selected_spec()
                == old(self).selected_spec(),
    {
        proof {
            use_type_invariant(&*self);
        }
        let scores = match score_items(self.query.text(), &self.labels) {
            Some(v) => v,
            None => {
                return false;
            },
        };
        assert(scores@.len() == wide_scores(scores@).len());
        let f = rank_matches(&scores, &self.ranks);
        let len = f.len();
        let sel = if self.selected >= len {
            if len == 0 {
                0
            } else {
                len - 1
            }
        } else {
            self.selected
        };
        self.selected = 0;
        self.filtered = f;
        self.selected = sel;
        true
    }

    /// A closed picker over items with these labels and frecency ranks,
    /// ranked for the empty query.
    pub fn new(labels: Vec<String>, ranks: Vec<u64>) -> (r: Self)
        requires
            labels@.len() == ranks@.len(),
        ensures
            r.state_spec() == PickerState::Closed,
            r.query_input().chars() == Seq::<char>::empty(),
            r.labels_spec() == label_views(labels@),
            r.ranks_spec() == ranks@,
            r.ranked(),
            r.selected_spec() == 0,
    {
        let mut p = PickerCore {
            state: PickerState::Closed,
            query: TextInput::new(),
            labels,
            ranks,
            filtered: Vec::new(),
            selected: 0,
        };
        p.recompute();
        p
    }

    /// Replace the items, re-rank them against the query and put the
    /// highlight on the top row; false, with no rows ranked, when some score
    /// would not fit in an `i32`.
    pub fn set_items(&mut self, labels: Vec<String>, ranks: Vec<u64>) -> (r: bool)
        requires
            labels@.len() == ranks@.len(),
        ensures
            r == scores_fit(old(self).query_input().chars(), label_views(labels@)),
            final(self).state_spec() == old(self).state_spec(),
            final(self).query_input() == old(self).query_input(),
            final(self).labels_spec() == label_views(labels@),
            final(self).ranks_spec() == ranks@,
            final(self).selected_spec() == 0,
            r ==> final(self).ranked(),
            !r ==> final(self).filtered_spec().len() == 0,
    {
        let q = self.take_query();
        let state = self.state;
        *self = PickerCore { state, query: q, labels, ranks, filtered: Vec::new(), selected: 0 };
        self.recompute()
    }

    /// The routing state.
    pub fn state(&self) -> (r: PickerState)
        ensures
            r == self.state_spec(),
    {
        self.state
    }

    /// Whether the overlay is open.
    pub fn is_open(&self) -> (r: bool)
        ensures
            r == (self.state_spec() == PickerState::Open),
    {
        match self.state {
            PickerState::Open => true,
            PickerState::Closed => false,
        }
    }

    /// The query text.
    pub fn query(&self) -> (r: &str)
        ensures
            r@ == self.query_input().chars(),
    {
        self.query.text()
    }

    /// The query's cursor, as a byte offset.
    pub fn cursor(&self) -> (r: usize)
        ensures
            r == crate::strings::byte_offset(self.query_input().chars(), self.query_input().char_cursor()),
    {
        self.query.cursor()
    }

    /// The ranked indices of the items that match the query.
    pub fn filtered(&self) -> (r: &[usize])
        ensures
            r@ == self.filtered_spec(),
    {
        self.filtered.as_slice()
    }

    /// How many rows match the query.
    pub fn visible_count(&self) -> (r: usize)
        ensures
            r == self.filtered_spec().len(),
    {
        self.filtered.len()
    }

    /// The highlight, as a row.
    pub fn selected(&self) -> (r: usize)
        ensures
            r == self.selected_spec(),
            r == 0 || r < self.filtered_spec().len(),
    {
        proof {
            use_type_invariant(self);
        }
        self.selected
    }

    /// The highlighted item's index, if any row is visible.
    pub fn selected_item(&self) -> (r: Option<usize>)
        ensures
            r is Some == (self.filtered_spec().len() > 0),
            r matches Some(i) ==> i == self.filtered_spec()[self.selected_spec()] && i
                < self.labels_spec().len(),
    {
        proof {
            use_type_invariant(self);
        }
        if self.selected < self.filtered.len() {
            Some(self.filtered[self.selected])
        } else {
            None
        }
    }

    /// Drive one transition: the routing state moves as
    /// [`PickerState::on_event`] says, and an event that acts edits the
    /// query and re-ranks (resetting the highlight to the top), moves the
    /// highlight (wrapping), or reports the accepted item. `None` when the
    /// edited query's scores would not fit in an `i32`; the query is edited
    /// and the ranking left as it was.
    pub fn on_event(&mut self, event: PickerEvent) -> (r: Option<Vec<PickerEffect<usize>>>)
        requires
            old(self).state_spec() == PickerState::Open && event is Type ==> utf8_len(
                old(self).query_input().chars(),
            ) + char_width(event->Type_0) <= isize::MAX,
        ensures
            final(self).state_spec() == next_state(old(self).state_spec(), event),
            final(self).labels_spec() == old(self).labels_spec(),
            final(self).ranks_spec() == old(self).ranks_spec(),
            ({
                let was_open = old(self).state_spec() == PickerState::Open;
                let q0 = old(self).query_input();
                let q1 = final(self).query_input();
                let edits = event is Open || (was_open && (event is Type || event is Backspace));
                let n0 = old(self).filtered_spec().len() as int;
                let s0 = old(self).selected_spec();
                &&& event is Open ==> q1.chars() == Seq::<char>::empty() && q1.char_cursor() == 0
                    && !q1.has_selection()
                &&& (was_open && event is Type) ==> (q1.chars(), q1.char_cursor()) == after_insert(q0, event->Type_0) && !q1.has_selection()
                &&& (was_open && event is Backspace) ==> (q1.chars(), q1.char_cursor())
                    == after_delete_back(q0) && !q1.has_selection()
                &&& !edits ==> q1 == q0
                &&& r is None <==> (edits && !scores_fit(q1.chars(), old(self).labels_spec()))
                &&& edits && r is Some ==> final(self).ranked() && final(self).selected_spec() == 0
                &&& edits && r is None ==> final(self).filtered_spec() == old(self).filtered_spec()
                    && final(self).selected_spec() == 0
                &&& !edits ==> final(self).filtered_spec() == old(self).filtered_spec()
                &&& event is Open ==> effects_of(r) == seq![PickerEffect::<usize>::Opened]
                &&& (was_open && (event is Type || event is Backspace) && r is Some) ==> effects_of(r)
                    == seq![PickerEffect::<usize>::Filtered { visible: final(self).filtered_spec().len() as usize }]
                &&& (was_open && event is NavDown) ==> final(self).selected_spec() == (if n0 == 0 {
                    s0
                } else {
                    (s0 + 1) % n0
                }) && effects_of(r) == seq![PickerEffect::<usize>::Moved { index: final(self).selected_spec() as usize }]
                &&& (was_open && event is NavUp) ==> final(self).selected_spec() == (if n0 == 0 {
                    s0
                } else if s0 == 0 {
                    n0 - 1
                } else {
                    s0 - 1
                }) && effects_of(r) == seq![PickerEffect::<usize>::Moved { index: final(self).selected_spec() as usize }]
                &&& (was_open && event is Accept) ==> final(self).selected_spec() == s0 && effects_of(r) == (if n0 > 0 {
                    seq![PickerEffect::<usize>::Accepted { key: old(self).filtered_spec()[s0] }]
                } else {
                    Seq::<PickerEffect<usize>>::empty()
                })
                &&& (was_open && event is Cancel) ==> final(self).selected_spec() == s0 && effects_of(r)
                    == seq![PickerEffect::<usize>::Cancelled]
                &&& (!was_open && !(event is Open)) ==> final(self).selected_spec() == s0 && effects_of(r)
                    == Seq::<PickerEffect<usize>>::empty()
                &&& !edits ==> r is Some
            }),
    {
        proof {
            use_type_invariant(&*self);
        }
        let was_open = self.is_open();
        let step: PickerStep<usize> = self.state.on_event(&event);
        self.state = step.state;
        match event {
            PickerEvent::Open => {
                // Reset the query to empty and re-rank for it.
                let mut q = self.take_query();
                q.select_all();
                q.delete_selection();
                proof {
                    use_type_invariant(&*self);
                }
                self.query = q;
                self.selected = 0;
                self.recompute();
                Some(vec![PickerEffect::Opened])
            },
            PickerEvent::Type(c) => {
                if was_open {
                    let mut q = self.take_query();
                    q.insert_char(c);
                    proof {
                        use_type_invariant(&*self);
                    }
                    self.query = q;
                    self.selected = 0;
                    self.refiltered()
                } else {
                    Some(step.effects)
                }
            },
            PickerEvent::Backspace => {
                if was_open {
                    let mut q = self.take_query();
                    q.delete_back();
                    proof {
                        use_type_invariant(&*self);
                    }
                    self.query = q;
                    self.selected = 0;
                    self.refiltered()
                } else {
                    Some(step.effects)
                }
            },
            PickerEvent::NavUp => {
                if was_open {
                    self.move_up();
                    Some(vec![PickerEffect::Moved { index: self.selected }])
                } else {
                    Some(step.effects)
                }
            },
            PickerEvent::NavDown => {
                if was_open {
                    self.move_down();
                    Some(vec![PickerEffect::Moved { index: self.selected }])
                } else {
                    Some(step.effects)
                }
            },
            PickerEvent::Accept => {
                if was_open {
                    // The routing state is already closed; with no row
                    // highlighted the picker closes with no accepted item.
                    match self.selected_item() {
                        Some(i) => Some(vec![PickerEffect::Accepted { key: i }]),
                        None => Some(vec![]),
                    }
                } else {
                    Some(step.effects)
                }
            },
            // Cancel: the routing table's effects (Cancelled when open).
            PickerEvent::Cancel => Some(step.effects),
        }
    }

    /// Re-rank after a query edit: the number of rows that match, or `None`
    /// when some score would not fit in an `i32`.
    fn refiltered(&mut self) -> (r: Option<Vec<PickerEffect<usize>>>)
        ensures
            r is Some == scores_fit(old(self).query_input().chars(), old(self).labels_spec()),
            final(self).state_spec() == old(self).state_spec(),
            final(self).query_input() == old(self).query_input(),
            final(self).labels_spec() == old(self).labels_spec(),
            final(self).ranks_spec() == old(self).ranks_spec(),
            r is Some ==> final(self).ranked() && final(self).selected_spec() == (if old(self).selected_spec()
                < final(self).filtered_spec().len() {
                old(self).selected_spec()
            } else if final(self).filtered_spec().len() == 0 {
                0
            } else {
                final(self).filtered_spec().len() - 1
            }),
            r is Some ==> effects_of(r) == seq![PickerEffect::<usize>::Filtered { visible: final(self).filtered_spec().len() as usize }],
            r is None ==> final(self).filtered_spec() == old(self).filtered_spec() && final(self).selected_spec()
                == old(self).selected_spec(),
    {
        if self.recompute() {
            Some(vec![PickerEffect::Filtered { visible: self.filtered.len() }])
        } else {
            None
        }
    }

    /// Moves the query out for editing, leaving an empty one behind.
    fn take_query(&mut self) -> (q: TextInput)
        ensures
            q == old(self).query_input(),
            final(self).state_spec() == old(self).state_spec(),
            final(self).labels_spec() == old(self).labels_spec(),
            final(self).ranks_spec() == old(self).ranks_spec(),
            final(self).filtered_spec() == old(self).filtered_spec(),
            final(self).selected_spec() == old(self).selected_spec(),
    {
        proof {
            use_type_invariant(&*self);
        }
        let mut q = TextInput::new();
        std::mem::swap(&mut self.query, &mut q);
        q
    }

    /// Highlight down one row, wrapping to the top.
    fn move_down(&mut self)
        ensures
            final(self).state_spec() == old(self).state_spec(),
            final(self).query_input() == old(self).query_input(),
            final(self).labels_spec() == old(self).labels_spec(),
            final(self).ranks_spec() == old(self).ranks_spec(),
            final(self).filtered_spec() == old(self).filtered_spec(),
            final(self).selected_spec() == (if old(self).filtered_spec().len() == 0 {
                old(self).selected_spec()
            } else {
                (old(self).selected_spec() + 1) % (old(self).filtered_spec().len() as int)
            }),
    {
        proof {
            use_type_invariant(&*self);
        }
        if self.filtered.len() > 0 {
            self.selected = (self.selected + 1) % self.filtered.len();
        }
    }

    /// Highlight up one row, wrapping to the bottom.
    fn move_up(&mut self)
        ensures
            final(self).state_spec() == old(self).state_spec(),
            final(self).query_input() == old(self).query_input(),
            final(self).labels_spec() == old(self).labels_spec(),
            final(self).ranks_spec() == old(self).ranks_spec(),
            final(self).filtered_spec() == old(self).filtered_spec(),
            final(self).selected_spec() == (if old(self).filtered_spec().len() == 0 {
                old(self).selected_spec()
            } else if old(self).selected_spec() == 0 {
                old(self).filtered_spec().len() - 1
            } else {
                old(self).selected_spec() - 1
            }),
    {
        proof {
            use_type_invariant(&*self);
        }
        if self.filtered.len() > 0 {
            self.selected = if self.selected == 0 {
                self.filtered.len() - 1
            } else {
                self.selected - 1
            };
        }
    }
}

impl Clone for PickerCore {
    fn clone(&self) -> (r: Self)
        ensures
            r.state_spec() == self.state_spec(),
            r.query_input().chars() == self.query_input().chars(),
            r.query_input().char_cursor() == self.query_input().char_cursor(),
            r.labels_spec() == self.labels_spec(),
            r.ranks_spec() == self.ranks_spec(),
            r.filtered_spec() == self.filtered_spec(),
            r.selected_spec() == self.selected_spec(),
    {
        proof {
            use_type_invariant(self);
        }
        let mut labels: Vec<String> = Vec::new();
        let mut i: usize = 0;
        while i < self.labels.len()
            invariant
                i <= self.labels@.len(),
                label_views(labels@) == label_views(self.labels@).take(i as int),
            decreases self.labels@.len() - i,
        {
            let ghost prev = labels@;
            let l = self.labels[i].clone();
            labels.push(l);
            proof {
                assert(label_views(labels@) =~= label_views(prev).push(self.labels@[i as int]@));
                assert(label_views(self.labels@).take(i + 1) =~= label_views(self.labels@).take(
                    i as int,
                ).push(self.labels@[i as int]@));
            }
            i += 1;
        }
        assert(label_views(self.labels@).take(self.labels@.len() as int) =~= label_views(self.labels@));
        let mut ranks: Vec<u64> = Vec::new();
        let mut filtered: Vec<usize> = Vec::new();
        let mut j: usize = 0;
        while j < self.ranks.len()
            invariant
                j <= self.ranks@.len(),
                ranks@ == self.ranks@.take(j as int),
            decreases self.ranks@.len() - j,
        {
            ranks.push(self.ranks[j]);
            j += 1;
            assert(ranks@ =~= self.ranks@.take(j as int));
        }
        assert(self.ranks@.take(self.ranks@.len() as int) =~= self.ranks@);
        let mut k: usize = 0;
        while k < self.filtered.len()
            invariant
                k <= self.filtered@.len(),
                filtered@ == self.filtered@.take(k as int),
            decreases self.filtered@.len() - k,
        {
            filtered.push(self.filtered[k]);
            k += 1;
            assert(filtered@ =~= self.filtered@.take(k as int));
        }
        assert(self.filtered@.take(self.filtered@.len() as int) =~= self.filtered@);
        PickerCore {
            state: self.state,
            query: self.query.clone(),
            labels,
            ranks,
            filtered,
            selected: self.selected,
        }
    }
}

/// `n` is a subsequence of `h`: its characters appear in `h` in order, at
/// the increasing positions `p`.
pub open spec fn subsequence_at(n: Seq<char>, h: Seq<char>, p: Seq<int>) -> bool {
    &&& p.len() == n.len()
    &&& forall|i: int| 0 <= i < p.len() ==> 0 <= #[trigger] p[i] < h.len() && h[p[i]] == n[i]
    &&& forall|i: int, j: int| 0 <= i < j < p.len() ==> #[trigger] p[i] < #[trigger] p[j]
}

/// `n` is a subsequence of `h`.
pub open spec fn is_subsequence(n: Seq<char>, h: Seq<char>) -> bool {
    exists|p: Seq<int>| #[trigger] subsequence_at(n, h, p)
}

proof fn lemma_matched_bounds(hay: Seq<char>, n: Seq<char>, j: int, k: int)
    requires
        0 <= j <= k <= hay.len(),
    ensures
        score_upto(hay, n, j).matched <= score_upto(hay, n, k).matched,
        score_upto(hay, n, k).matched <= n.len(),
    decreases k - j, k,
{
    if j < k {
        lemma_matched_bounds(hay, n, j, k - 1);
    } else if k > 0 {
        lemma_matched_bounds(hay, n, k - 1, k - 1);
    }
}

/// The positions the scan matched so far: a witness that the matched
/// needle prefix is a subsequence of what was read.
proof fn lemma_greedy_positions(hay: Seq<char>, n: Seq<char>, k: int) -> (p: Seq<int>)
    requires
        0 <= k <= hay.len(),
    ensures
        subsequence_at(n.take(score_upto(hay, n, k).matched), hay, p),
        forall|i: int| 0 <= i < p.len() ==> #[trigger] p[i] < k,
    decreases k,
{
    if k == 0 {
        assert(n.take(0) =~= Seq::<char>::empty());
        Seq::empty()
    } else {
        let q = lemma_greedy_positions(hay, n, k - 1);
        let st = score_upto(hay, n, k - 1);
        lemma_matched_bounds(hay, n, k - 1, k - 1);
        lemma_score_basic(hay, n, k - 1);
        if st.matched < n.len() && hay[k - 1] == n[st.matched] {
            let p = q.push(k - 1);
            assert(n.take(st.matched + 1) =~= n.take(st.matched).push(n[st.matched]));
            assert forall|i: int, j: int| 0 <= i < j < p.len() implies #[trigger] p[i] < #[trigger] p[j] by {
                if j == p.len() - 1 {
                    assert(p[i] == q[i]);
                } else {
                    assert(p[i] == q[i] && p[j] == q[j]);
                }
            }
            assert forall|i: int| 0 <= i < p.len() implies 0 <= #[trigger] p[i] < hay.len() && hay[p[i]]
                == n.take(st.matched + 1)[i] by {
                if i < q.len() {
                    assert(p[i] == q[i]);
                }
            }
            p
        } else {
            q
        }
    }
}

/// The scan keeps up with any way of matching: where `n` has positions `p`
/// in `hay`, the scan has matched at least `i + 1` needle characters once it
/// has read past `p[i]`.
proof fn lemma_greedy_keeps_up(hay: Seq<char>, n: Seq<char>, p: Seq<int>, i: int)
    requires
        subsequence_at(n, hay, p),
        0 <= i < p.len(),
    ensures
        score_upto(hay, n, p[i] + 1).matched >= i + 1,
    decreases i,
{
    if i > 0 {
        lemma_greedy_keeps_up(hay, n, p, i - 1);
        assert(p[i - 1] < p[i]);
        lemma_matched_bounds(hay, n, p[i - 1] + 1, p[i]);
    } else {
        lemma_matched_bounds(hay, n, 0, p[i]);
    }
    lemma_matched_bounds(hay, n, p[i], p[i] + 1);
}

/// A fuzzy score exists exactly when the (lower-cased) needle is a
/// subsequence of the (lower-cased) haystack; an empty needle scores 0.
pub proof fn law_score_exactly_for_subsequences(n: Seq<char>, hay: Seq<char>)
    ensures
        score_lowered(n, hay) is Some <==> is_subsequence(n, hay),
        n.len() == 0 ==> score_lowered(n, hay) == Some(0int),
{
    if n.len() == 0 {
        assert(subsequence_at(n, hay, Seq::<int>::empty()));
    } else {
        let k = hay.len() as int;
        if score_lowered(n, hay) is Some {
            let p = lemma_greedy_positions(hay, n, k);
            assert(n.take(n.len() as int) =~= n);
            assert(subsequence_at(n, hay, p));
        }
        if is_subsequence(n, hay) {
            let p = choose|p: Seq<int>| #[trigger] subsequence_at(n, hay, p);
            let last = p.len() - 1;
            lemma_greedy_keeps_up(hay, n, p, last);
            lemma_matched_bounds(hay, n, p[last] + 1, k);
        }
    }
}

/// The bonus for a match at `hi`: 8 at the start, 6 right after one of the
/// separators `/`, `-`, `_`, `.` or a space, else nothing.
pub open spec fn position_bonus(hay: Seq<char>, hi: int) -> int {
    if hi == 0 {
        8
    } else if hay[hi - 1] == '/' || hay[hi - 1] == '-' || hay[hi - 1] == '_' || hay[hi - 1] == '.'
        || hay[hi - 1] == ' ' {
        6
    } else {
        0
    }
}

proof fn lemma_single_match(c: char, hay: Seq<char>, hi: int, k: int)
    requires
        0 <= hi < hay.len(),
        hay[hi] == c,
        forall|j: int| 0 <= j < hay.len() && j != hi ==> hay[j] != c,
        0 <= k <= hay.len(),
    ensures
        score_upto(hay, seq![c], k).matched == if k <= hi { 0int } else { 1int },
        score_upto(hay, seq![c], k).score == if k <= hi { 0int } else { 1 + position_bonus(hay, hi) },
        score_upto(hay, seq![c], k).run == if k <= hi || k > hi + 1 { 0int } else { 1int },
    decreases k,
{
    if k > 0 {
        lemma_single_match(c, hay, hi, k - 1);
    }
}

/// Where the query is one character that occurs once in the text, at `hi`,
/// the score is the run of one, plus 8 at the very start or 6 right after a
/// separator (a word boundary), less one sixteenth of the text's length: a
/// match just after a separator outscores the same match mid-word.
pub proof fn law_single_match_score(c: char, hay: Seq<char>, hi: int)
    requires
        0 <= hi < hay.len(),
        hay[hi] == c,
        forall|j: int| 0 <= j < hay.len() && j != hi ==> hay[j] != c,
    ensures
        score_lowered(seq![c], hay) == Some(
            1 + position_bonus(hay, hi) - (if hay.len() <= i32::MAX {
                hay.len() as int
            } else {
                i32::MAX as int
            }) / 16,
        ),
        hi > 0 && (hay[hi - 1] == ' ' || hay[hi - 1] == '/' || hay[hi - 1] == '-' || hay[hi - 1] == '_'
            || hay[hi - 1] == '.') ==> position_bonus(hay, hi) == 6,
        hi > 0 && !(hay[hi - 1] == ' ' || hay[hi - 1] == '/' || hay[hi - 1] == '-' || hay[hi - 1] == '_'
            || hay[hi - 1] == '.') ==> position_bonus(hay, hi) == 0,
{
    lemma_single_match(c, hay, hi, hay.len() as int);
}

} // verus!
