//! Frame-level decisions of the run-assembly engine: the label-track mode
//! filter, change candidates inside a speech run, contested-frame valleys,
//! the mid-sentence predicate used when stamping turns, and the text each
//! turn gathers from its aligned fragments.
//!
//! Everything here is a pure function of index-ordered inputs.
use vstd::prelude::*;
use crate::text::{
    char_is_alphabetic, char_is_alphanumeric, char_is_lowercase, chars_of, is_alphabetic,
    is_alphanumeric, is_lowercase, push_all, string_from_chars, trim_chars, trimmed,
};

verus! {

/// The label a frame carries when no speaker is active.
pub const SILENCE_LABEL: u8 = 255;

/// Label-track mode filter radius, in frames.
pub const MODE_FILTER_RADIUS_FRAMES: usize = 3;

/// Contested frames closer than this many frames merge into one valley.
pub const FLIP_VALLEY_MERGE_FRAMES: usize = 10;

/// A silence-gated speech run: the half-open frame interval
/// `start_frame..end_frame`.
#[derive(Clone, Copy, Debug, PartialEq, Eq, Structural)]
pub struct SpeechRun {
    pub start_frame: usize,
    pub end_frame: usize,
}

// ---------------------------------------------------------------------------
// Mode filter
// ---------------------------------------------------------------------------

/// `x` clamped into `0..n`.
pub open spec fn clamp_index(x: int, n: int) -> int {
    if x < 0 {
        0
    } else if x >= n {
        n - 1
    } else {
        x
    }
}

/// How many of the first `m` positions of frame `i`'s window
/// (`i - r ..= i + r`, clamped at the track's edges) carry label `v`.
pub open spec fn window_count(labels: Seq<u8>, i: int, r: int, v: u8, m: int) -> int
    decreases m,
{
    if m <= 0 {
        0
    } else {
        window_count(labels, i, r, v, m - 1) + if labels[clamp_index(
            i - r + m - 1,
            labels.len() as int,
        )] == v {
            1int
        } else {
            0int
        }
    }
}

/// Votes for label `v` in frame `i`'s whole window of `2r + 1` positions.
pub open spec fn label_votes(labels: Seq<u8>, i: int, r: int, v: u8) -> int {
    window_count(labels, i, r, v, 2 * r + 1)
}

/// `v` is the mode of frame `i`'s window: no label has more votes, and every
/// smaller label has strictly fewer (ties go to the smallest label).
pub open spec fn is_window_mode(labels: Seq<u8>, i: int, r: int, v: u8) -> bool {
    forall|w: u8|
        #![trigger label_votes(labels, i, r, w)]
        label_votes(labels, i, r, w) <= label_votes(labels, i, r, v) && (w < v
            ==> label_votes(labels, i, r, w) < label_votes(labels, i, r, v))
}

pub open spec fn window_mode(labels: Seq<u8>, i: int, r: int) -> u8 {
    choose|v: u8| is_window_mode(labels, i, r, v)
}

/// The mode-filtered label track.
pub open spec fn mode_filtered(labels: Seq<u8>, r: int) -> Seq<u8> {
    Seq::new(labels.len(), |i: int| window_mode(labels, i, r))
}

/// The filter's window arithmetic stays inside `isize` on this track.
pub open spec fn filter_fits(len: int, r: int) -> bool {
    len == 0 || len - 1 + r <= isize::MAX
}

/// A window has at most one mode.
pub proof fn lemma_window_mode_unique(labels: Seq<u8>, i: int, r: int, v1: u8, v2: u8)
    requires
        is_window_mode(labels, i, r, v1),
        is_window_mode(labels, i, r, v2),
    ensures
        v1 == v2,
{
    assert(label_votes(labels, i, r, v1) <= label_votes(labels, i, r, v2));
    assert(label_votes(labels, i, r, v2) <= label_votes(labels, i, r, v1));
}

proof fn lemma_window_count_bounds(labels: Seq<u8>, i: int, r: int, v: u8, m: int)
    requires
        m >= 0,
    ensures
        0 <= window_count(labels, i, r, v, m) <= m,
        m >= 1 && labels[clamp_index(i - r, labels.len() as int)] == v ==> window_count(
            labels,
            i,
            r,
            v,
            m,
        ) >= 1,
    decreases m,
{
    if m > 0 {
        lemma_window_count_bounds(labels, i, r, v, m - 1);
    }
}

/// The mode of frame `i`'s window.
fn window_mode_at(labels: &[u8], i: usize, radius: usize) -> (best: u8)
    requires
        i < labels@.len(),
        labels@.len() - 1 + radius <= isize::MAX,
    ensures
        is_window_mode(labels@, i as int, radius as int, best),
{
    let n = labels.len();
    let ghost r = radius as int;
    let mut counts: Vec<usize> = Vec::new();
    let mut v: usize = 0;
    while v < 256
        invariant
            v <= 256,
            counts@.len() == v,
            forall|w: int| 0 <= w < v ==> counts@[w] == 0,
        decreases 256 - v,
    {
        counts.push(0);
        v += 1;
    }
    assert(isize::MAX + isize::MAX + 1 == usize::MAX);
    let width = radius + radius + 1;
    let mut t: usize = 0;
    while t < width
        invariant
            n == labels@.len(),
            i < n,
            n - 1 + radius <= isize::MAX,
            width == 2 * radius + 1,
            r == radius as int,
            t <= width,
            counts@.len() == 256,
            forall|w: u8|
                #![trigger counts@[w as int]]
                counts@[w as int] == window_count(labels@, i as int, r, w, t as int),
        decreases width - t,
    {
        let pos = i + t;
        let idx = if pos < radius {
            0
        } else if pos - radius >= n {
            n - 1
        } else {
            pos - radius
        };
        assert(idx == clamp_index(i - r + t, n as int));
        let lab = labels[idx];
        proof {
            lemma_window_count_bounds(labels@, i as int, r, lab, t as int);
        }
        let c = counts[lab as usize];
        counts.set(lab as usize, c + 1);
        t += 1;
        assert forall|w: u8| #![trigger counts@[w as int]]
            counts@[w as int] == window_count(labels@, i as int, r, w, t as int) by {
            assert(window_count(labels@, i as int, r, w, t as int) == window_count(
                labels@,
                i as int,
                r,
                w,
                t - 1,
            ) + if labels@[clamp_index(i - r + t - 1, n as int)] == w {
                1int
            } else {
                0int
            });
        }
    }
    let mut best: u8 = labels[i];
    let mut best_count: usize = 0;
    let mut v: usize = 0;
    while v < 256
        invariant
            v <= 256,
            counts@.len() == 256,
            best_count == 0 ==> forall|w: int| 0 <= w < v ==> counts@[w] == 0,
            best_count > 0 ==> best < v && counts@[best as int] == best_count && forall|w: int|
                0 <= w < v ==> counts@[w] <= best_count && (w < best ==> counts@[w] < best_count),
        decreases 256 - v,
    {
        if counts[v] > best_count {
            best_count = counts[v];
            best = v as u8;
        }
        v += 1;
    }
    proof {
        let first = labels@[clamp_index(i - r, n as int)];
        lemma_window_count_bounds(labels@, i as int, r, first, width as int);
        assert(t == width);
        assert(counts@[first as int] == window_count(labels@, i as int, r, first, t as int));
        assert(counts@[first as int] >= 1);
        assert(best_count > 0);
        assert forall|w: u8| #![trigger label_votes(labels@, i as int, r, w)]
            label_votes(labels@, i as int, r, w) <= label_votes(labels@, i as int, r, best) && (w
                < best ==> label_votes(labels@, i as int, r, w) < label_votes(
                labels@,
                i as int,
                r,
                best,
            )) by {
            assert(counts@[w as int] == label_votes(labels@, i as int, r, w));
            assert(counts@[best as int] == label_votes(labels@, i as int, r, best));
        }
    }
    best
}

/// Mode filter over a label track: each frame takes the majority label of
/// its `2 * radius + 1` window (edges clamped), ties to the smallest label.
pub fn mode_filter_labels(labels: &[u8], radius: usize) -> (out: Vec<u8>)
    requires
        filter_fits(labels@.len() as int, radius as int),
    ensures
        out@ == mode_filtered(labels@, radius as int),
{
    let n = labels.len();
    let mut out: Vec<u8> = Vec::new();
    let mut i: usize = 0;
    while i < n
        invariant
            i <= n,
            n == labels@.len(),
            filter_fits(n as int, radius as int),
            out@.len() == i,
            forall|j: int| 0 <= j < i ==> is_window_mode(labels@, j, radius as int, #[trigger] out@[j]),
        decreases n - i,
    {
        let m = window_mode_at(labels, i, radius);
        out.push(m);
        i += 1;
    }
    proof {
        assert forall|j: int| 0 <= j < n implies #[trigger] out@[j] == window_mode(
            labels@,
            j,
            radius as int,
        ) by {
            let c = window_mode(labels@, j, radius as int);
            assert(is_window_mode(labels@, j, radius as int, out@[j]));
            lemma_window_mode_unique(labels@, j, radius as int, c, out@[j]);
        }
        assert(out@ =~= mode_filtered(labels@, radius as int));
    }
    out
}

// ---------------------------------------------------------------------------
// Change candidates inside a run
// ---------------------------------------------------------------------------

/// The part of a frame track inside `run` (the run's end clamped to the
/// track); empty when the clamped run is empty.
pub open spec fn run_frames<T>(track: Seq<T>, run: SpeechRun) -> Seq<T> {
    let end = if run.end_frame < track.len() {
        run.end_frame as int
    } else {
        track.len() as int
    };
    if run.start_frame >= end {
        Seq::empty()
    } else {
        track.subrange(run.start_frame as int, end)
    }
}

fn copy_range(track: &[u8], start: usize, end: usize) -> (v: Vec<u8>)
    requires
        start <= end <= track@.len(),
    ensures
        v@ == track@.subrange(start as int, end as int),
{
    let mut v: Vec<u8> = Vec::new();
    let mut k: usize = start;
    while k < end
        invariant
            start <= k <= end,
            end <= track@.len(),
            v@ == track@.subrange(start as int, k as int),
        decreases end - k,
    {
        v.push(track[k]);
        k += 1;
        assert(v@ =~= track@.subrange(start as int, k as int));
    }
    v
}

/// The mode-filtered track of `run`'s frames.
fn filtered_run(track: &[u8], run: &SpeechRun, radius: usize) -> (f: Vec<u8>)
    requires
        filter_fits(run_frames(track@, *run).len() as int, radius as int),
    ensures
        f@ == mode_filtered(run_frames(track@, *run), radius as int),
{
    let end = if run.end_frame < track.len() {
        run.end_frame
    } else {
        track.len()
    };
    if run.start_frame >= end {
        let e: Vec<u8> = Vec::new();
        assert(e@ =~= mode_filtered(run_frames(track@, *run), radius as int));
        return e;
    }
    let part = copy_range(track, run.start_frame, end);
    mode_filter_labels(part.as_slice(), radius)
}

/// A label change between filtered frames `i` and `i + 1`, both speech; the
/// track's first and last frames never start one.
pub open spec fn is_label_change(f: Seq<u8>, i: int) -> bool {
    &&& 1 <= i
    &&& i + 2 < f.len() + 1
    &&& i + 1 < f.len()
    &&& f[i] != f[i + 1]
    &&& f[i] != SILENCE_LABEL
    &&& f[i + 1] != SILENCE_LABEL
}

/// The absolute frames (`base + i + 1`) of the label changes at `i < m`.
pub open spec fn label_changes(f: Seq<u8>, base: int, m: int) -> Seq<int>
    decreases m,
{
    if m <= 0 {
        Seq::empty()
    } else {
        label_changes(f, base, m - 1) + if is_label_change(f, m - 1) {
            seq![base + m]
        } else {
            Seq::empty()
        }
    }
}

/// The label changes listed in ascending order are exactly the frames
/// `base + i + 1` of the changes at `i < m`.
pub proof fn lemma_label_changes_listed(f: Seq<u8>, base: int, m: int)
    requires
        m >= 0,
    ensures
        forall|a: int, b: int|
            0 <= a < b < label_changes(f, base, m).len() ==> #[trigger] label_changes(f, base, m)[a]
                < #[trigger] label_changes(f, base, m)[b],
        forall|x: int|
            label_changes(f, base, m).contains(x) <==> exists|i: int|
                0 <= i < m && #[trigger] is_label_change(f, i) && x == base + i + 1,
        forall|k: int|
            0 <= k < label_changes(f, base, m).len() ==> base + 1 <= #[trigger] label_changes(f, base, m)[k]
                <= base + m,
    decreases m,
{
    if m > 0 {
        lemma_label_changes_listed(f, base, m - 1);
        let p = label_changes(f, base, m - 1);
        let q = label_changes(f, base, m);
        if is_label_change(f, m - 1) {
            assert(q == p.push(base + m));
            assert forall|x: int| q.contains(x) <==> exists|i: int|
                0 <= i < m && #[trigger] is_label_change(f, i) && x == base + i + 1 by {
                if q.contains(x) {
                    let k = choose|k: int| 0 <= k < q.len() && q[k] == x;
                    if k < p.len() {
                        assert(p[k] == x);
                        assert(p.contains(x));
                    } else {
                        assert(is_label_change(f, m - 1));
                    }
                }
                if exists|i: int| 0 <= i < m && #[trigger] is_label_change(f, i) && x == base + i + 1 {
                    let i = choose|i: int| 0 <= i < m && #[trigger] is_label_change(f, i) && x == base + i + 1;
                    if i < m - 1 {
                        assert(p.contains(x));
                        let k = choose|k: int| 0 <= k < p.len() && p[k] == x;
                        assert(q[k] == x);
                    } else {
                        assert(q[p.len() as int] == x);
                    }
                }
            }
            assert forall|a: int, b: int| 0 <= a < b < q.len() implies #[trigger] q[a] < #[trigger] q[b] by {
                assert(q[a] == p[a]);
                if b < p.len() {
                    assert(q[b] == p[b]);
                }
            }
        } else {
            assert(q =~= p);
            assert forall|x: int| q.contains(x) <==> exists|i: int|
                0 <= i < m && #[trigger] is_label_change(f, i) && x == base + i + 1 by {
                if exists|i: int| 0 <= i < m && #[trigger] is_label_change(f, i) && x == base + i + 1 {
                    let i = choose|i: int| 0 <= i < m && #[trigger] is_label_change(f, i) && x == base + i + 1;
                    assert(i < m - 1);
                }
            }
        }
    } else {
        assert(label_changes(f, base, m) =~= Seq::<int>::empty());
    }
}

/// Label-change candidates are exactly the frames `base + c` where the
/// filtered track changes from one speech label at `c - 1` to another at
/// `c`, for `2 <= c < len`: both labels differ from [`SILENCE_LABEL`] and
/// from each other; the candidates ascend.
pub proof fn lemma_label_change_frames(f: Seq<u8>, base: int)
    ensures
        forall|k: int|
            0 <= k < label_changes(f, base, f.len() as int).len() ==> {
                let c = #[trigger] label_changes(f, base, f.len() as int)[k] - base;
                &&& 2 <= c < f.len()
                &&& f[c - 1] != f[c]
                &&& f[c - 1] != SILENCE_LABEL
                &&& f[c] != SILENCE_LABEL
            },
        forall|c: int|
            2 <= c < f.len() && f[c - 1] != f[c] && f[c - 1] != SILENCE_LABEL && #[trigger] f[c]
                != SILENCE_LABEL ==> label_changes(f, base, f.len() as int).contains(base + c),
        forall|a: int, b: int|
            0 <= a < b < label_changes(f, base, f.len() as int).len() ==> #[trigger] label_changes(
                f,
                base,
                f.len() as int,
            )[a] < #[trigger] label_changes(f, base, f.len() as int)[b],
{
    let m = f.len() as int;
    lemma_label_changes_listed(f, base, m);
    let l = label_changes(f, base, m);
    assert forall|k: int| 0 <= k < l.len() implies {
        let c = #[trigger] l[k] - base;
        &&& 2 <= c < f.len()
        &&& f[c - 1] != f[c]
        &&& f[c - 1] != SILENCE_LABEL
        &&& f[c] != SILENCE_LABEL
    } by {
        assert(l.contains(l[k]));
        let i = choose|i: int| 0 <= i < m && #[trigger] is_label_change(f, i) && l[k] == base + i + 1;
        assert(l[k] - base - 1 == i);
    }
    assert forall|c: int|
        2 <= c < f.len() && f[c - 1] != f[c] && f[c - 1] != SILENCE_LABEL && #[trigger] f[c]
            != SILENCE_LABEL implies l.contains(base + c) by {
        assert(is_label_change(f, c - 1));
    }
}

pub open spec fn usize_ints(v: Seq<usize>) -> Seq<int> {
    v.map_values(|x: usize| x as int)
}

/// Label-change candidate frames inside a run: where the mode-filtered
/// track of the run changes between two speech labels (the run's first and
/// last filtered frames excluded).
pub fn label_change_candidates(labels: &[u8], run: &SpeechRun, radius: usize) -> (out: Vec<usize>)
    requires
        filter_fits(run_frames(labels@, *run).len() as int, radius as int),
    ensures
        usize_ints(out@) == label_changes(
            mode_filtered(run_frames(labels@, *run), radius as int),
            run.start_frame as int,
            run_frames(labels@, *run).len() as int,
        ),
        ({
            let f = mode_filtered(run_frames(labels@, *run), radius as int);
            &&& forall|k: int|
                0 <= k < out@.len() ==> {
                    let c = (#[trigger] out@[k]) - run.start_frame;
                    &&& 2 <= c < f.len()
                    &&& f[c - 1] != f[c]
                    &&& f[c - 1] != SILENCE_LABEL
                    &&& f[c] != SILENCE_LABEL
                }
            &&& forall|c: int|
                2 <= c < f.len() && f[c - 1] != f[c] && f[c - 1] != SILENCE_LABEL && #[trigger] f[c]
                    != SILENCE_LABEL ==> usize_ints(out@).contains(run.start_frame + c)
            &&& forall|a: int, b: int| 0 <= a < b < out@.len() ==> #[trigger] out@[a] < #[trigger] out@[b]
        }),
{
    proof {
        let f = mode_filtered(run_frames(labels@, *run), radius as int);
        lemma_label_change_frames(f, run.start_frame as int);
    }
    let filtered = filtered_run(labels, run, radius);
    let ghost f = filtered@;
    let n = filtered.len();
    let ghost len = run_frames(labels@, *run).len();
    assert(n == len);
    assert(n > 0 ==> run.start_frame + n <= labels@.len());
    let mut out: Vec<usize> = Vec::new();
    let mut i: usize = 0;
    while i < n
        invariant
            i <= n,
            n == f.len(),
            f == filtered@,
            n > 0 ==> run.start_frame + n <= labels.len(),
            usize_ints(out@) == label_changes(f, run.start_frame as int, i as int),
        decreases n - i,
    {
        let ghost before = out@;
        if i >= 1 && i + 1 < n && filtered[i] != filtered[i + 1] && filtered[i] != SILENCE_LABEL
            && filtered[i + 1] != SILENCE_LABEL {
            out.push(run.start_frame + i + 1);
            assert(usize_ints(out@) =~= usize_ints(before).push(run.start_frame + i + 1));
        }
        i += 1;
        assert(usize_ints(out@) =~= label_changes(f, run.start_frame as int, i as int));
    }
    proof {
        let l = label_changes(f, run.start_frame as int, f.len() as int);
        assert(usize_ints(out@) == l);
        assert forall|k: int| 0 <= k < out@.len() implies (#[trigger] out@[k]) as int == l[k] by {
            assert(usize_ints(out@)[k] == out@[k] as int);
        }
        assert forall|a: int, b: int| 0 <= a < b < out@.len() implies #[trigger] out@[a] < #[trigger] out@[b] by {
            assert(usize_ints(out@)[a] == out@[a] as int);
            assert(usize_ints(out@)[b] == out@[b] as int);
        }
    }
    out
}

/// The scan behind `slot_change_candidates` after reading the first `m`
/// filtered frames: the last speech label seen, where the silence stretch
/// since it began (if one is open), and the candidates so far.
pub open spec fn slot_scan(f: Seq<u8>, base: int, m: int) -> (Option<u8>, Option<int>, Seq<int>)
    decreases m,
{
    if m <= 0 {
        (None, None, Seq::empty())
    } else {
        let (last, silence, out) = slot_scan(f, base, m - 1);
        let i = m - 1;
        let lab = f[i];
        if lab == SILENCE_LABEL {
            (last, if silence is None {
                Some(i)
            } else {
                silence
            }, out)
        } else {
            let out2 = match last {
                Some(prev) => if lab != prev {
                    out.push(
                        base + match silence {
                            Some(s) => (s + i) / 2,
                            None => i,
                        },
                    )
                } else {
                    out
                },
                None => out,
            };
            (Some(lab), None, out2)
        }
    }
}

/// Every frame strictly between `p` and `i` is silence.
pub open spec fn silent_between(f: Seq<u8>, p: int, i: int) -> bool {
    forall|j: int| p < j < i ==> f[j] == SILENCE_LABEL
}

/// The filtered track moves from speech label `f[p]` to a different speech
/// label `f[i]` with only silence between them.
pub open spec fn speaker_flip(f: Seq<u8>, p: int, i: int) -> bool {
    &&& 0 <= p < i < f.len()
    &&& f[p] != SILENCE_LABEL
    &&& f[i] != SILENCE_LABEL
    &&& f[p] != f[i]
    &&& silent_between(f, p, i)
}

/// Where a flip from `p` to `i` is placed: at `i` when they are adjacent,
/// else at the midpoint of the silence `p + 1 .. i`.
pub open spec fn flip_frame(p: int, i: int) -> int {
    if p + 1 == i {
        i
    } else {
        (p + 1 + i) / 2
    }
}

proof fn lemma_slot_state(f: Seq<u8>, base: int, m: int)
    requires
        0 <= m <= f.len(),
    ensures
        slot_scan(f, base, m).0 is None ==> forall|j: int| 0 <= j < m ==> f[j] == SILENCE_LABEL,
        slot_scan(f, base, m).0 matches Some(l) ==> exists|q: int|
            0 <= q < m && f[q] == l && l != SILENCE_LABEL && #[trigger] silent_between(f, q, m)
                && slot_scan(f, base, m).1 == (if q == m - 1 {
                None::<int>
            } else {
                Some(q + 1)
            }),
    decreases m,
{
    if m > 0 {
        lemma_slot_state(f, base, m - 1);
        let i = m - 1;
        if f[i] == SILENCE_LABEL {
            if let Some(l) = slot_scan(f, base, m - 1).0 {
                let q = choose|q: int|
                    0 <= q < m - 1 && f[q] == l && l != SILENCE_LABEL && #[trigger] silent_between(f, q, m - 1)
                        && slot_scan(f, base, m - 1).1 == (if q == m - 2 {
                        None::<int>
                    } else {
                        Some(q + 1)
                    });
                assert(silent_between(f, q, m));
            }
        } else {
            assert(silent_between(f, i, m));
        }
    }
}

/// The last speech frame before `i`, when the frames since are silence.
proof fn lemma_slot_last_speech(f: Seq<u8>, base: int, i: int, p: int)
    requires
        0 <= p < i < f.len(),
        f[p] != SILENCE_LABEL,
        silent_between(f, p, i),
    ensures
        slot_scan(f, base, i).0 == Some(f[p]),
        slot_scan(f, base, i).1 == (if p == i - 1 {
            None::<int>
        } else {
            Some(p + 1)
        }),
{
    lemma_slot_state(f, base, i);
    if let Some(l) = slot_scan(f, base, i).0 {
        let q = choose|q: int|
            0 <= q < i && f[q] == l && l != SILENCE_LABEL && #[trigger] silent_between(f, q, i)
                && slot_scan(f, base, i).1 == (if q == i - 1 {
                None::<int>
            } else {
                Some(q + 1)
            });
        if q < p {
            assert(f[p] == SILENCE_LABEL);
        } else if q > p {
            assert(f[q] == SILENCE_LABEL);
        }
    } else {
        assert(f[p] == SILENCE_LABEL);
    }
}

proof fn lemma_slot_sound(f: Seq<u8>, base: int, m: int, k: int)
    requires
        0 <= m <= f.len(),
        0 <= k < slot_scan(f, base, m).2.len(),
    ensures
        exists|p: int, i: int|
            i < m && #[trigger] speaker_flip(f, p, i) && slot_scan(f, base, m).2[k] == base + flip_frame(p, i),
    decreases m,
{
    let i = m - 1;
    let out = slot_scan(f, base, m - 1).2;
    if k < out.len() {
        assert(slot_scan(f, base, m).2[k] == out[k]);
        lemma_slot_sound(f, base, m - 1, k);
    } else {
        lemma_slot_state(f, base, m - 1);
        let prev = slot_scan(f, base, m - 1).0->0;
        let q = choose|q: int|
            0 <= q < m - 1 && f[q] == prev && prev != SILENCE_LABEL && #[trigger] silent_between(f, q, m - 1)
                && slot_scan(f, base, m - 1).1 == (if q == m - 2 {
                None::<int>
            } else {
                Some(q + 1)
            });
        assert(speaker_flip(f, q, i));
        assert(slot_scan(f, base, m).2[k] == base + flip_frame(q, i));
    }
}

proof fn lemma_slot_complete(f: Seq<u8>, base: int, m: int, p: int, i: int)
    requires
        i < m <= f.len(),
        speaker_flip(f, p, i),
    ensures
        slot_scan(f, base, m).2.contains(base + flip_frame(p, i)),
    decreases m,
{
    if i < m - 1 {
        lemma_slot_complete(f, base, m - 1, p, i);
        let out = slot_scan(f, base, m - 1).2;
        let k = choose|k: int| 0 <= k < out.len() && out[k] == base + flip_frame(p, i);
        assert(slot_scan(f, base, m).2[k] == out[k]);
    } else {
        lemma_slot_last_speech(f, base, i, p);
        let out = slot_scan(f, base, i).2;
        assert(slot_scan(f, base, m).2[out.len() as int] == base + flip_frame(p, i));
    }
}

/// Frame `c` is where some speaker flip among the first `m` filtered
/// frames is placed, offset by `base`.
pub open spec fn flip_placed(f: Seq<u8>, base: int, m: int, c: int) -> bool {
    exists|p: int, i: int| i < m && #[trigger] speaker_flip(f, p, i) && c == base + flip_frame(p, i)
}

/// Slot-change candidates are exactly the placed frames (offset by `base`)
/// of the speaker flips among the first `m` filtered frames: a candidate
/// is never placed for a pause between two frames of one speaker, and a
/// candidate at a silence's midpoint only spans pure silence.
pub proof fn lemma_slot_candidates_are_flips(f: Seq<u8>, base: int, m: int)
    requires
        0 <= m <= f.len(),
    ensures
        forall|k: int|
            0 <= k < slot_scan(f, base, m).2.len() ==> #[trigger] flip_placed(f, base, m, slot_scan(f, base, m).2[k]),
        forall|p: int, i: int|
            i < m && #[trigger] speaker_flip(f, p, i) ==> slot_scan(f, base, m).2.contains(base + flip_frame(p, i)),
{
    assert forall|k: int| 0 <= k < slot_scan(f, base, m).2.len() implies #[trigger] flip_placed(
        f,
        base,
        m,
        slot_scan(f, base, m).2[k],
    ) by {
        lemma_slot_sound(f, base, m, k);
    }
    assert forall|p: int, i: int| i < m && #[trigger] speaker_flip(f, p, i) implies slot_scan(f, base, m).2.contains(
        base + flip_frame(p, i),
    ) by {
        lemma_slot_complete(f, base, m, p, i);
    }
}

/// Slot-change candidates come in strictly ascending order, each inside
/// the run after its first frame: `base < c < base + m`.
pub proof fn lemma_slot_candidates_ascending(f: Seq<u8>, base: int, m: int)
    requires
        0 <= m <= f.len(),
    ensures
        ({
            let (last, silence, out) = slot_scan(f, base, m);
            &&& forall|a: int, b: int| 0 <= a < b < out.len() ==> #[trigger] out[a] < #[trigger] out[b]
            &&& forall|k: int| 0 <= k < out.len() ==> base < #[trigger] out[k] < base + m
            &&& last is None ==> out.len() == 0
            &&& last is Some ==> m >= 1
            &&& (last is Some && silence is Some) ==> silence->0 >= 1
            &&& silence matches Some(s) ==> 0 <= s < m && forall|k: int| 0 <= k < out.len() ==> #[trigger] out[k] < base + s
            &&& (last is Some && silence is None) ==> forall|k: int| 0 <= k < out.len() ==> #[trigger] out[k] < base + m
        }),
    decreases m,
{
    if m > 0 {
        lemma_slot_candidates_ascending(f, base, m - 1);
        let (last, silence, out) = slot_scan(f, base, m - 1);
        let i = m - 1;
        let lab = f[i];
        if lab != SILENCE_LABEL {
            if let Some(prev) = last {
                if lab != prev {
                    let c = base + match silence {
                        Some(s) => (s + i) / 2,
                        None => i,
                    };
                    let out2 = out.push(c);
                    assert(slot_scan(f, base, m).2 == out2);
                    assert forall|a: int, b: int| 0 <= a < b < out2.len() implies #[trigger] out2[a] < #[trigger] out2[b] by {
                        assert(out2[a] == out[a]);
                        if b < out.len() {
                            assert(out2[b] == out[b]);
                        }
                    }
                    assert forall|k: int| 0 <= k < out2.len() implies base < #[trigger] out2[k] < base + m by {
                        if k < out.len() {
                            assert(out2[k] == out[k]);
                        }
                    }
                }
            }
        }
    }
}


/// Speaker-slot change candidates inside a run: where the mode-filtered
/// track moves from one speech label to a different one, directly (at the
/// new label's first frame) or across silence (at the silence's midpoint).
pub fn slot_change_candidates(track: &[u8], run: &SpeechRun, radius: usize) -> (out: Vec<usize>)
    requires
        filter_fits(run_frames(track@, *run).len() as int, radius as int),
    ensures
        usize_ints(out@) == slot_scan(
            mode_filtered(run_frames(track@, *run), radius as int),
            run.start_frame as int,
            run_frames(track@, *run).len() as int,
        ).2,
        ({
            let f = mode_filtered(run_frames(track@, *run), radius as int);
            &&& forall|k: int|
                0 <= k < out@.len() ==> #[trigger] flip_placed(f, run.start_frame as int, f.len() as int, out@[k] as int)
            &&& forall|p: int, i: int|
                i < f.len() && #[trigger] speaker_flip(f, p, i) ==> usize_ints(out@).contains(
                    run.start_frame + flip_frame(p, i),
                )
            &&& forall|a: int, b: int| 0 <= a < b < out@.len() ==> #[trigger] out@[a] < #[trigger] out@[b]
        }),
{
    proof {
        let f = mode_filtered(run_frames(track@, *run), radius as int);
        lemma_slot_candidates_are_flips(f, run.start_frame as int, f.len() as int);
        lemma_slot_candidates_ascending(f, run.start_frame as int, f.len() as int);
    }
    let filtered = filtered_run(track, run, radius);
    let ghost f = filtered@;
    let n = filtered.len();
    assert(n > 0 ==> run.start_frame + n <= track@.len());
    let mut out: Vec<usize> = Vec::new();
    let mut last_speaker: Option<u8> = None;
    let mut silence_start: Option<usize> = None;
    let mut i: usize = 0;
    while i < n
        invariant
            i <= n,
            n == f.len(),
            f == filtered@,
            n > 0 ==> run.start_frame + n <= track.len(),
            ({
                let st = slot_scan(f, run.start_frame as int, i as int);
                &&& st.0 == last_speaker
                &&& st.1 == match silence_start {
                    Some(s) => Some(s as int),
                    None => None::<int>,
                }
                &&& usize_ints(out@) == st.2
            }),
            forall|s: usize| silence_start == Some(s) ==> s < i,
        decreases n - i,
    {
        let lab = filtered[i];
        let ghost before = out@;
        if lab == SILENCE_LABEL {
            if silence_start.is_none() {
                silence_start = Some(i);
            }
        } else {
            match last_speaker {
                Some(prev) => {
                    if lab != prev {
                        let local = match silence_start {
                            Some(s) => s + (i - s) / 2,
                            None => i,
                        };
                        assert(silence_start matches Some(s) ==> local == (s + i) / 2);
                        out.push(run.start_frame + local);
                        assert(usize_ints(out@) =~= usize_ints(before).push(
                            run.start_frame + local,
                        ));
                    }
                },
                None => {},
            }
            last_speaker = Some(lab);
            silence_start = None;
        }
        i += 1;
    }
    proof {
        let f2 = mode_filtered(run_frames(track@, *run), radius as int);
        let l = slot_scan(f2, run.start_frame as int, f2.len() as int).2;
        assert(usize_ints(out@) == l);
        assert forall|k: int| 0 <= k < out@.len() implies #[trigger] flip_placed(
            f2,
            run.start_frame as int,
            f2.len() as int,
            out@[k] as int,
        ) by {
            assert(usize_ints(out@)[k] == out@[k] as int);
            assert(flip_placed(f2, run.start_frame as int, f2.len() as int, l[k]));
        }
        assert forall|a: int, b: int| 0 <= a < b < out@.len() implies #[trigger] out@[a] < #[trigger] out@[b] by {
            assert(usize_ints(out@)[a] == out@[a] as int);
            assert(usize_ints(out@)[b] == out@[b] as int);
            assert(l[a] < l[b]);
        }
    }
    out
}

// ---------------------------------------------------------------------------
// Contested-frame valleys
// ---------------------------------------------------------------------------

/// The valleys found among frames `start..m` of `contested`: each contested
/// frame extends the last valley when it lies fewer than
/// [`FLIP_VALLEY_MERGE_FRAMES`] frames past its end, else opens a new one.
pub open spec fn valley_scan(contested: Seq<bool>, start: int, m: int) -> Seq<(int, int)>
    decreases m - start,
{
    if m <= start {
        Seq::empty()
    } else {
        let prev = valley_scan(contested, start, m - 1);
        let g = m - 1;
        if !contested[g] {
            prev
        } else if prev.len() > 0 && g - prev.last().1 < FLIP_VALLEY_MERGE_FRAMES {
            prev.update(prev.len() - 1, (prev.last().0, g + 1))
        } else {
            prev.push((g, g + 1))
        }
    }
}

/// Valleys as a set of spans: each lies inside `start..m`, starts and ends
/// on a contested frame; they come in order, each at least
/// [`FLIP_VALLEY_MERGE_FRAMES`] frames past the one before; and every
/// contested frame of `start..m` lies in one of them.
pub open spec fn valleys_well_formed(v: Seq<(int, int)>, contested: Seq<bool>, start: int, m: int) -> bool {
    &&& forall|k: int|
        0 <= k < v.len() ==> start <= (#[trigger] v[k]).0 < v[k].1 <= m && contested[v[k].0]
            && contested[v[k].1 - 1]
    &&& forall|j: int, k: int|
        0 <= j < k < v.len() ==> (#[trigger] v[j]).1 + FLIP_VALLEY_MERGE_FRAMES <= (#[trigger] v[k]).0
    &&& forall|f: int|
        start <= f < m && #[trigger] contested[f] ==> exists|k: int|
            0 <= k < v.len() && (#[trigger] v[k]).0 <= f < v[k].1
}

/// The valleys of a run are ordered, separated (hence disjoint) spans that
/// start and end on contested frames and cover every contested frame.
#[verifier::spinoff_prover]
#[verifier::rlimit(60)]
pub proof fn lemma_valleys_well_formed(contested: Seq<bool>, start: int, m: int)
    requires
        0 <= start,
        m <= contested.len(),
    ensures
        valleys_well_formed(valley_scan(contested, start, m), contested, start, m),
    decreases m - start,
{
    let v = valley_scan(contested, start, m);
    if m > start {
        lemma_valleys_well_formed(contested, start, m - 1);
        let prev = valley_scan(contested, start, m - 1);
        let g = m - 1;
        if !contested[g] {
            assert forall|f: int| start <= f < m && #[trigger] contested[f] implies exists|k: int|
                0 <= k < v.len() && (#[trigger] v[k]).0 <= f < v[k].1 by {
                assert(f < m - 1);
            }
        } else if prev.len() > 0 && g - prev.last().1 < FLIP_VALLEY_MERGE_FRAMES {
            let l = prev.len() - 1;
            assert(v == prev.update(l, (prev.last().0, g + 1)));
            assert forall|k: int| 0 <= k < v.len() implies start <= (#[trigger] v[k]).0 < v[k].1 <= m
                && contested[v[k].0] && contested[v[k].1 - 1] by {
                if k != l {
                    assert(v[k] == prev[k]);
                }
            }
            assert forall|j: int, k: int| 0 <= j < k < v.len() implies (#[trigger] v[j]).1
                + FLIP_VALLEY_MERGE_FRAMES <= (#[trigger] v[k]).0 by {
                assert(v[j] == prev[j]);
                assert(v[k].0 == prev[k].0);
            }
            assert forall|f: int| start <= f < m && #[trigger] contested[f] implies exists|k: int|
                0 <= k < v.len() && (#[trigger] v[k]).0 <= f < v[k].1 by {
                if f == g {
                    assert(v[l].0 <= f < v[l].1);
                } else {
                    let k = choose|k: int| 0 <= k < prev.len() && (#[trigger] prev[k]).0 <= f < prev[k].1;
                    assert(v[k].0 <= f < v[k].1);
                }
            }
        } else {
            assert(v == prev.push((g, g + 1)));
            assert forall|j: int, k: int| 0 <= j < k < v.len() implies (#[trigger] v[j]).1
                + FLIP_VALLEY_MERGE_FRAMES <= (#[trigger] v[k]).0 by {
                if k == prev.len() {
                    assert(v[j] == prev[j]);
                    if j < prev.len() - 1 {
                        assert(prev[j].1 + FLIP_VALLEY_MERGE_FRAMES <= prev[prev.len() - 1].0);
                    }
                }
            }
            assert forall|f: int| start <= f < m && #[trigger] contested[f] implies exists|k: int|
                0 <= k < v.len() && (#[trigger] v[k]).0 <= f < v[k].1 by {
                if f == g {
                    assert(v[prev.len() as int].0 <= f < v[prev.len() as int].1);
                } else {
                    let k = choose|k: int| 0 <= k < prev.len() && (#[trigger] prev[k]).0 <= f < prev[k].1;
                    assert(v[k] == prev[k]);
                }
            }
        }
    }
}

pub open spec fn span_ints(v: Seq<(usize, usize)>) -> Seq<(int, int)> {
    v.map_values(|p: (usize, usize)| (p.0 as int, p.1 as int))
}

/// Contested confusion-valley spans (half-open frame intervals) inside one
/// speech run. `contested[f]` tells whether frame `f` lost label confidence
/// (its strongest speaker weak while a second speaker is present).
pub fn confusion_valleys(contested: &[bool], run: &SpeechRun) -> (spans: Vec<(usize, usize)>)
    ensures
        span_ints(spans@) == ({
            let end = if run.end_frame < contested@.len() {
                run.end_frame as int
            } else {
                contested@.len() as int
            };
            valley_scan(contested@, run.start_frame as int, end)
        }),
        ({
            let end = if run.end_frame < contested@.len() {
                run.end_frame as int
            } else {
                contested@.len() as int
            };
            valleys_well_formed(span_ints(spans@), contested@, run.start_frame as int, end)
        }),
{
    let end = if run.end_frame < contested.len() {
        run.end_frame
    } else {
        contested.len()
    };
    proof {
        lemma_valleys_well_formed(contested@, run.start_frame as int, end as int);
    }
    let mut spans: Vec<(usize, usize)> = Vec::new();
    if run.start_frame >= end {
        assert(span_ints(spans@) =~= valley_scan(contested@, run.start_frame as int, end as int));
        return spans;
    }
    let mut f: usize = run.start_frame;
    while f < end
        invariant
            run.start_frame <= f <= end,
            end <= contested@.len(),
            span_ints(spans@) == valley_scan(contested@, run.start_frame as int, f as int),
            forall|k: int| 0 <= k < spans@.len() ==> (#[trigger] spans@[k]).1 <= f,
        decreases end - f,
    {
        let ghost before = spans@;
        if contested[f] {
            let n = spans.len();
            if n > 0 && f - spans[n - 1].1 < FLIP_VALLEY_MERGE_FRAMES {
                let s0 = spans[n - 1].0;
                spans.set(n - 1, (s0, f + 1));
                assert(span_ints(spans@) =~= span_ints(before).update(
                    n - 1,
                    (s0 as int, f + 1),
                ));
            } else {
                spans.push((f, f + 1));
                assert(span_ints(spans@) =~= span_ints(before).push((f as int, f + 1)));
            }
        }
        f += 1;
    }
    spans
}

// ---------------------------------------------------------------------------
// Text predicates
// ---------------------------------------------------------------------------

/// The text begins mid-sentence: its first alphanumeric character is a
/// lowercase letter.
pub open spec fn starts_mid_sentence(s: Seq<char>) -> bool
    decreases s.len(),
{
    if s.len() == 0 {
        false
    } else if is_alphanumeric(s[0]) {
        is_alphabetic(s[0]) && is_lowercase(s[0])
    } else {
        starts_mid_sentence(s.drop_first())
    }
}

/// True when the text begins mid-sentence: the first character that is not
/// punctuation, a symbol or whitespace is a lowercase letter.
pub fn is_mid_sentence_start(text: &str) -> (r: bool)
    ensures
        r == starts_mid_sentence(text@),
{
    let cs = chars_of(text);
    assert(cs@.subrange(0, cs@.len() as int) =~= cs@);
    let mut i: usize = 0;
    while i < cs.len()
        invariant
            i <= cs@.len(),
            cs@ == text@,
            starts_mid_sentence(cs@) == starts_mid_sentence(cs@.subrange(i as int, cs@.len() as int)),
        decreases cs.len() - i,
    {
        let c = cs[i];
        assert(cs@.subrange(i + 1, cs@.len() as int) =~= cs@.subrange(i as int, cs@.len() as int).drop_first());
        assert(cs@.subrange(i as int, cs@.len() as int)[0] == c);
        if char_is_alphanumeric(c) {
            assert(starts_mid_sentence(cs@.subrange(i as int, cs@.len() as int)) == (is_alphabetic(c)
                && is_lowercase(c)));
            return char_is_alphabetic(c) && char_is_lowercase(c);
        }
        i += 1;
    }
    assert(cs@.subrange(i as int, cs@.len() as int).len() == 0);
    false
}

/// Point-to-span distance in milliseconds: 0 inside `[s, e)`, else the gap
/// to the nearer edge.
pub open spec fn point_span_dist(p: int, s: int, e: int) -> int {
    if p >= s && p < e {
        0
    } else if p < s {
        s - p
    } else {
        p - e
    }
}

/// Point-to-span distance in whole milliseconds, containment 0,
/// start-inclusive / end-exclusive.
pub fn rescue_dist_ms(p: i64, s: i64, e: i64) -> (d: i64)
    requires
        point_span_dist(p as int, s as int, e as int) <= i64::MAX,
    ensures
        d == point_span_dist(p as int, s as int, e as int),
{
    if p >= s && p < e {
        0
    } else if p < s {
        s - p
    } else {
        p - e
    }
}

/// Part of transcript row `row_idx` attributed to turn `turn_idx`.
#[derive(Clone, Debug, PartialEq)]
pub struct AlignedFragment {
    pub row_idx: usize,
    pub turn_idx: usize,
    pub text: String,
}

/// Appends one trimmed fragment to a turn's text: an empty fragment adds
/// nothing, and fragments are separated by one space.
pub open spec fn append_piece(out: Seq<char>, t: Seq<char>) -> Seq<char> {
    if t.len() == 0 {
        out
    } else if out.len() == 0 {
        t
    } else {
        out.push(' ') + t
    }
}

/// The text turn `turn` gathers from the first `k` fragments.
pub open spec fn turn_text_upto(frags: Seq<AlignedFragment>, turn: int, k: int) -> Seq<char>
    decreases k,
{
    if k <= 0 {
        Seq::empty()
    } else {
        let prev = turn_text_upto(frags, turn, k - 1);
        if frags[k - 1].turn_idx == turn {
            append_piece(prev, trimmed(frags[k - 1].text@))
        } else {
            prev
        }
    }
}

/// The text of turn `turn`: the trimmed, non-empty texts of its fragments,
/// in fragment order, joined by single spaces.
pub open spec fn turn_text(frags: Seq<AlignedFragment>, turn: int) -> Seq<char> {
    turn_text_upto(frags, turn, frags.len() as int)
}

fn turn_text_of(fragments: &[AlignedFragment], turn: usize) -> (r: String)
    ensures
        r@ == turn_text(fragments@, turn as int),
{
    let mut out: Vec<char> = Vec::new();
    let mut k: usize = 0;
    while k < fragments.len()
        invariant
            k <= fragments@.len(),
            out@ == turn_text_upto(fragments@, turn as int, k as int),
        decreases fragments.len() - k,
    {
        if fragments[k].turn_idx == turn {
            let cs = chars_of(fragments[k].text.as_str());
            let t = trim_chars(cs.as_slice());
            if t.len() > 0 {
                if out.len() > 0 {
                    out.push(' ');
                }
                push_all(&mut out, t.as_slice());
            }
        }
        k += 1;
    }
    string_from_chars(out.as_slice())
}

/// The text of each of `n_turns` turns, gathered from the aligned fragments
/// (see [`turn_text`]).
pub fn turn_texts(n_turns: usize, fragments: &[AlignedFragment]) -> (r: Vec<String>)
    ensures
        r@.len() == n_turns,
        forall|i: int| 0 <= i < n_turns ==> (#[trigger] r@[i])@ == turn_text(fragments@, i),
{
    let mut r: Vec<String> = Vec::new();
    let mut i: usize = 0;
    while i < n_turns
        invariant
            i <= n_turns,
            r@.len() == i,
            forall|j: int| 0 <= j < i ==> (#[trigger] r@[j])@ == turn_text(fragments@, j),
        decreases n_turns - i,
    {
        r.push(turn_text_of(fragments, i));
        i += 1;
    }
    r
}

} // verus!
