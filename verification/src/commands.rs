//! The pure rules behind the speaker commands: name sanitizing, the
//! per-meeting speaker cap, label resolution and the re-diarization report.
use std::collections::HashMap;
use vstd::prelude::*;
use vstd::std_specs::hash::{group_hash_axioms, spec_values_iter};
use vstd::std_specs::iter::IteratorSpec;
use vstd::string::StringExecFns;
use crate::alignment::{AlignedSegment, SegmentView, SpeakerSource, segment_views};
use crate::repository::{mid_fits, midpoint_ms, segment_mid};
use crate::text::{
    chars_of, decimal, push_decimal, str_eq, string_from_chars, trim_chars, trimmed, utf8_len,
    utf8_len_of,
};

verus! {

broadcast use group_hash_axioms;

/// Farthest a silence-gap fragment may borrow a neighboring turn's speaker,
/// in milliseconds.
pub const GAP_BORROW_MAX_MS: i64 = 3_000;

/// Longest accepted speaker name, in UTF-8 bytes.
pub const MAX_SPEAKER_NAME_BYTES: usize = 200;

/// Smallest and largest per-meeting (and global) speaker cap.
pub const MIN_SPEAKER_CAP: i32 = 2;

pub const MAX_SPEAKER_CAP: i32 = 20;

// ---------------------------------------------------------------------------
// Names
// ---------------------------------------------------------------------------

/// Reading `s` left to right, dropping everything from a `<` up to the next
/// `>`: whether a tag is open, and the characters kept.
pub open spec fn html_scan(s: Seq<char>) -> (bool, Seq<char>)
    decreases s.len(),
{
    if s.len() == 0 {
        (false, Seq::empty())
    } else {
        let (in_tag, out) = html_scan(s.drop_last());
        let c = s.last();
        if c == '<' {
            (true, out)
        } else if c == '>' {
            (false, out)
        } else if !in_tag {
            (in_tag, out.push(c))
        } else {
            (in_tag, out)
        }
    }
}

/// `s` with every `<...>` tag (and any unclosed tag's tail) removed; a
/// stray `>` is dropped too.
pub open spec fn html_stripped(s: Seq<char>) -> Seq<char> {
    html_scan(s).1
}

/// Removes HTML-like tags: characters between `<` and `>` (inclusive).
pub fn strip_html_tags(input: &str) -> (r: String)
    ensures
        r@ == html_stripped(input@),
{
    let cs = chars_of(input);
    let mut out: Vec<char> = Vec::new();
    let mut in_tag = false;
    let mut i: usize = 0;
    while i < cs.len()
        invariant
            i <= cs@.len(),
            (in_tag, out@) == html_scan(cs@.subrange(0, i as int)),
        decreases cs.len() - i,
    {
        let ch = cs[i];
        assert(cs@.subrange(0, i + 1).drop_last() =~= cs@.subrange(0, i as int));
        assert(cs@.subrange(0, i + 1).last() == ch);
        if ch == '<' {
            in_tag = true;
        } else if ch == '>' {
            in_tag = false;
        } else if !in_tag {
            out.push(ch);
        }
        i += 1;
    }
    assert(cs@.subrange(0, cs@.len() as int) =~= input@);
    string_from_chars(&out)
}

pub open spec fn empty_name_message() -> Seq<char> {
    "Speaker name cannot be empty"@
}

pub open spec fn long_name_message(len: nat) -> Seq<char> {
    "Speaker name too long: "@ + decimal(len) + " chars (max 200)"@
}

/// What `sanitize_speaker_name` gives for a name: the trimmed name with its
/// tags stripped, or the error for an empty or over-long trimmed name.
pub open spec fn sanitized_name(name: Seq<char>) -> Result<Seq<char>, Seq<char>> {
    let t = trimmed(name);
    if t.len() == 0 {
        Err(empty_name_message())
    } else if utf8_len(t) > MAX_SPEAKER_NAME_BYTES {
        Err(long_name_message(utf8_len(t) as nat))
    } else {
        Ok(html_stripped(t))
    }
}

pub open spec fn result_view(r: Result<String, String>) -> Result<Seq<char>, Seq<char>> {
    match r {
        Ok(s) => Ok(s@),
        Err(e) => Err(e@),
    }
}

/// Validates a user-supplied speaker name: trims it, rejects an empty or
/// over-long result (over 200 UTF-8 bytes), and strips HTML tags.
pub fn sanitize_speaker_name(name: &str) -> (r: Result<String, String>)
    ensures
        result_view(r) == sanitized_name(name@),
{
    let cs = chars_of(name);
    let t = trim_chars(cs.as_slice());
    if t.len() == 0 {
        return Err(String::from_str("Speaker name cannot be empty"));
    }
    let len = utf8_len_of(t.as_slice());
    if len > MAX_SPEAKER_NAME_BYTES as u128 {
        let mut msg = String::from_str("Speaker name too long: ");
        push_decimal(&mut msg, len as u128);
        msg.append(" chars (max 200)");
        return Err(msg);
    }
    let trimmed_s = string_from_chars(t.as_slice());
    Ok(strip_html_tags(trimmed_s.as_str()))
}

// ---------------------------------------------------------------------------
// Speaker caps
// ---------------------------------------------------------------------------

pub open spec fn cap_range_message() -> Seq<char> {
    "Max speakers must be between 2 and 20"@
}

/// A per-meeting speaker cap must lie in `2..=20`.
pub fn validate_meeting_cap(cap: i32) -> (r: Result<(), String>)
    ensures
        r is Ok <==> MIN_SPEAKER_CAP <= cap <= MAX_SPEAKER_CAP,
        r matches Err(e) ==> e@ == cap_range_message(),
{
    if !(MIN_SPEAKER_CAP <= cap && cap <= MAX_SPEAKER_CAP) {
        return Err(String::from_str("Max speakers must be between 2 and 20"));
    }
    Ok(())
}

/// The global speaker cap obeys the same `2..=20` range.
pub fn validate_global_cap(cap: i64) -> (r: Result<(), String>)
    ensures
        r is Ok <==> MIN_SPEAKER_CAP <= cap <= MAX_SPEAKER_CAP,
        r matches Err(e) ==> e@ == cap_range_message(),
{
    if !(2 <= cap && cap <= 20) {
        return Err(String::from_str("Max speakers must be between 2 and 20"));
    }
    Ok(())
}

/// The cap in force for a meeting: its override, else the global default
/// (converted to `usize` as a two's-complement cast).
pub fn resolve_effective_cap(meeting_override: Option<i64>, global_default: i64) -> (r: usize)
    ensures
        r == (match meeting_override {
            Some(v) => v,
            None => global_default,
        }) as usize,
{
    match meeting_override {
        Some(v) => v as usize,
        None => global_default as usize,
    }
}

/// A meeting's speaker-cap settings as the UI reads them.
pub struct MeetingMaxSpeakers {
    override_cap: Option<i32>,
    effective: i64,
    global_default: i64,
}

impl MeetingMaxSpeakers {
    pub closed spec fn spec_override_cap(self) -> Option<i32> {
        self.override_cap
    }

    pub closed spec fn spec_effective(self) -> i64 {
        self.effective
    }

    pub closed spec fn spec_global_default(self) -> i64 {
        self.global_default
    }

    /// The settings for a stored meeting override and global cap: the
    /// override as stored (cast to `i32`), the effective cap, the default.
    pub fn from_caps(meeting_cap: Option<i64>, global_cap: i64) -> (m: MeetingMaxSpeakers)
        ensures
            m.spec_override_cap() == (match meeting_cap {
                Some(v) => Some(v as i32),
                None => None::<i32>,
            }),
            m.spec_effective() == (match meeting_cap {
                Some(v) => v,
                None => global_cap,
            }) as usize as i64,
            m.spec_global_default() == global_cap,
    {
        let override_cap = match meeting_cap {
            Some(v) => Some(v as i32),
            None => None,
        };
        let effective = resolve_effective_cap(meeting_cap, global_cap) as i64;
        MeetingMaxSpeakers { override_cap, effective, global_default: global_cap }
    }

    pub fn override_cap(&self) -> (r: Option<i32>)
        ensures
            r == self.spec_override_cap(),
    {
        self.override_cap
    }

    pub fn effective(&self) -> (r: i64)
        ensures
            r == self.spec_effective(),
    {
        self.effective
    }

    pub fn global_default(&self) -> (r: i64)
        ensures
            r == self.spec_global_default(),
    {
        self.global_default
    }
}

// ---------------------------------------------------------------------------
// Labels
// ---------------------------------------------------------------------------

pub open spec fn is_ascii_digit_char(c: char) -> bool {
    '0' <= c && c <= '9'
}

pub open spec fn all_digits(s: Seq<char>) -> bool {
    forall|i: int| 0 <= i < s.len() ==> is_ascii_digit_char(#[trigger] s[i])
}

/// The number the decimal digits `s` spell (most significant first).
pub open spec fn digits_value(s: Seq<char>) -> nat
    decreases s.len(),
{
    if s.len() == 0 {
        0
    } else {
        digits_value(s.drop_last()) * 10 + ((s.last() as u32) - ('0' as u32)) as nat
    }
}

/// `u32::from_str`: an optional `+`, then one or more ASCII digits whose
/// value fits in `u32`.
pub open spec fn parsed_u32(s: Seq<char>) -> Option<u32> {
    let body = if s.len() > 0 && s[0] == '+' {
        s.drop_first()
    } else {
        s
    };
    if body.len() > 0 && all_digits(body) && digits_value(body) <= u32::MAX {
        Some(digits_value(body) as u32)
    } else {
        None
    }
}

pub open spec fn speaker_prefix() -> Seq<char> {
    seq!['S', 'p', 'e', 'a', 'k', 'e', 'r', ' ']
}

/// The cluster id a badge `Speaker N` names, if any.
pub open spec fn badge_cluster(speaker: Seq<char>) -> Option<u32> {
    if speaker.len() >= 8 && speaker.subrange(0, 8) == speaker_prefix() {
        parsed_u32(speaker.subrange(8, speaker.len() as int))
    } else {
        None
    }
}

/// The display label of a speaker badge: the mapped name of the cluster a
/// `Speaker N` badge names, else the badge itself.
pub open spec fn resolved_label(speaker: Seq<char>, labels: Map<u32, String>) -> Seq<char> {
    match badge_cluster(speaker) {
        Some(id) => if labels.contains_key(id) {
            labels[id]@
        } else {
            speaker
        },
        None => speaker,
    }
}

proof fn lemma_digits_value_step(s: Seq<char>, i: int)
    requires
        0 <= i < s.len(),
    ensures
        digits_value(s.subrange(0, i + 1)) == digits_value(s.subrange(0, i)) * 10 + ((s[i] as u32)
            - ('0' as u32)) as nat,
{
    assert(s.subrange(0, i + 1).drop_last() =~= s.subrange(0, i));
}

proof fn lemma_digits_value_monotone(s: Seq<char>, i: int, j: int)
    requires
        0 <= i <= j <= s.len(),
        all_digits(s),
    ensures
        digits_value(s.subrange(0, i)) <= digits_value(s.subrange(0, j)),
    decreases j - i,
{
    if i < j {
        lemma_digits_value_monotone(s, i, j - 1);
        lemma_digits_value_step(s, j - 1);
        assert(is_ascii_digit_char(s[j - 1]));
    }
}

/// `u32::from_str` on characters.
fn parse_u32(s: &[char]) -> (r: Option<u32>)
    ensures
        r == parsed_u32(s@),
{
    let mut start: usize = 0;
    if s.len() > 0 && s[0] == '+' {
        start = 1;
    }
    let ghost body = s@.subrange(start as int, s@.len() as int);
    assert(body =~= if s@.len() > 0 && s@[0] == '+' {
        s@.drop_first()
    } else {
        s@
    });
    if start >= s.len() {
        return None;
    }
    let mut v: u64 = 0;
    let mut i: usize = start;
    while i < s.len()
        invariant
            start <= i <= s@.len(),
            start < s@.len(),
            body == s@.subrange(start as int, s@.len() as int),
            body == (if s@.len() > 0 && s@[0] == '+' {
                s@.drop_first()
            } else {
                s@
            }),
            all_digits(body.subrange(0, i - start)),
            v == digits_value(body.subrange(0, i - start)),
            v <= u32::MAX,
        decreases s.len() - i,
    {
        let c = s[i];
        assert(body[i - start] == c);
        if !('0' <= c && c <= '9') {
            assert(!is_ascii_digit_char(body[i - start]));
            assert(!all_digits(body));
            return None;
        }
        proof {
            lemma_digits_value_step(body, i - start);
        }
        let d = (c as u32 - '0' as u32) as u64;
        v = v * 10 + d;
        i += 1;
        assert(body.subrange(0, i - start).drop_last() =~= body.subrange(0, i - 1 - start));
        if v > 0xffff_ffff {
            proof {
                if all_digits(body) {
                    lemma_digits_value_monotone(body, i - start, body.len() as int);
                    assert(body.subrange(0, body.len() as int) =~= body);
                }
            }
            return None;
        }
    }
    assert(body.subrange(0, body.len() as int) =~= body);
    Some(v as u32)
}

/// The display label for a speaker badge: `Speaker N` whose cluster `N` has
/// a name in `label_map` resolves to that name; anything else is returned
/// unchanged.
pub fn resolve_label(speaker: &str, label_map: &HashMap<u32, String>) -> (r: String)
    ensures
        r@ == resolved_label(speaker@, label_map@),
{
    let cs = chars_of(speaker);
    let prefix: Vec<char> = vec!['S', 'p', 'e', 'a', 'k', 'e', 'r', ' '];
    if cs.len() >= 8 {
        let mut k: usize = 0;
        while k < 8 && cs[k] == prefix[k]
            invariant
                k <= 8,
                cs@.len() >= 8,
                prefix@ == speaker_prefix(),
                forall|j: int| 0 <= j < k ==> cs@[j] == prefix@[j],
            decreases 8 - k,
        {
            k += 1;
        }
        if k == 8 {
            assert(cs@.subrange(0, 8) =~= speaker_prefix());
            let mut rest: Vec<char> = Vec::new();
            let mut j: usize = 8;
            while j < cs.len()
                invariant
                    8 <= j <= cs@.len(),
                    rest@ == cs@.subrange(8, j as int),
                decreases cs.len() - j,
            {
                rest.push(cs[j]);
                j += 1;
                assert(rest@ =~= cs@.subrange(8, j as int));
            }
            match parse_u32(rest.as_slice()) {
                Some(id) => {
                    match label_map.get(&id) {
                        Some(label) => {
                            return label.clone();
                        },
                        None => {},
                    }
                },
                None => {},
            }
        } else {
            assert(cs@.subrange(0, 8)[k as int] != speaker_prefix()[k as int]);
        }
    }
    String::from_str(speaker)
}

/// `name` is one of the labels the new run assigned.
pub open spec fn adopted(labels: Map<u32, String>, name: Seq<char>) -> bool {
    exists|k: u32| labels.contains_key(k) && (#[trigger] labels[k])@ == name
}

/// The names of `manual` (in order) that no label of `labels` equals.
pub open spec fn unmatched_names(manual: Seq<String>, labels: Map<u32, String>) -> Seq<Seq<char>>
    decreases manual.len(),
{
    if manual.len() == 0 {
        Seq::empty()
    } else {
        let prev = unmatched_names(manual.drop_last(), labels);
        if adopted(labels, manual.last()@) {
            prev
        } else {
            prev.push(manual.last()@)
        }
    }
}

pub open spec fn string_views(v: Seq<String>) -> Seq<Seq<char>> {
    v.map_values(|s: String| s@)
}

/// The label values of a map, in the map's iteration order.
fn label_values(labels: &HashMap<u32, String>) -> (vals: Vec<String>)
    ensures
        forall|name: Seq<char>|
            adopted(labels@, name) <==> exists|i: int|
                0 <= i < vals@.len() && (#[trigger] vals@[i])@ == name,
{
    let mut vals: Vec<String> = Vec::new();
    let ghost all: Seq<String> = spec_values_iter(labels).remaining().unref();
    assert(all.to_set() == labels@.values());
    for v in it: labels.values()
        invariant
            it.seq().unref() == all,
            vals@.len() == it.index(),
            forall|q: int| 0 <= q < vals@.len() ==> (#[trigger] vals@[q])@ == all[q]@,
    {
        vals.push(v.clone());
    }
    proof {
        assert(vals@.len() == all.len());
        assert forall|name: Seq<char>|
            adopted(labels@, name) <==> exists|i: int|
                0 <= i < vals@.len() && (#[trigger] vals@[i])@ == name by {
            if adopted(labels@, name) {
                let k = choose|k: u32| labels@.contains_key(k) && (#[trigger] labels@[k])@ == name;
                let v = labels@[k];
                assert(labels@.values().contains(v));
                assert(all.to_set().contains(v));
                assert(all.contains(v));
                let i = choose|i: int| 0 <= i < all.len() && all[i] == v;
                assert(vals@[i]@ == all[i]@);
            }
            if exists|i: int| 0 <= i < vals@.len() && (#[trigger] vals@[i])@ == name {
                let i = choose|i: int| 0 <= i < vals@.len() && (#[trigger] vals@[i])@ == name;
                assert(vals@[i]@ == all[i]@);
                assert(all.contains(all[i]));
                assert(all.to_set().contains(all[i]));
                assert(labels@.values().contains(all[i]));
                let k = choose|k: u32| labels@.contains_key(k) && labels@[k] == all[i];
                assert(labels@[k]@ == name);
            }
        }
    }
    vals
}

/// Manually applied names that no cluster of the new run adopted, in their
/// input order.
pub fn unmatched_manual_names(manual: &[String], new_labels: &HashMap<u32, String>) -> (r: Vec<String>)
    ensures
        string_views(r@) == unmatched_names(manual@, new_labels@),
{
    let vals = label_values(new_labels);
    let mut out: Vec<String> = Vec::new();
    let mut i: usize = 0;
    while i < manual.len()
        invariant
            i <= manual@.len(),
            forall|name: Seq<char>|
                adopted(new_labels@, name) <==> exists|j: int|
                    0 <= j < vals@.len() && (#[trigger] vals@[j])@ == name,
            string_views(out@) == unmatched_names(manual@.subrange(0, i as int), new_labels@),
        decreases manual.len() - i,
    {
        let name = &manual[i];
        let mut found = false;
        let mut j: usize = 0;
        while j < vals.len()
            invariant
                j <= vals@.len(),
                found <==> exists|q: int| 0 <= q < j && (#[trigger] vals@[q])@ == name@,
            decreases vals.len() - j,
        {
            if vals[j] == *name {
                found = true;
            }
            j += 1;
        }
        assert(manual@.subrange(0, i + 1).drop_last() =~= manual@.subrange(0, i as int));
        assert(manual@.subrange(0, i + 1).last() == manual@[i as int]);
        let ghost before = out@;
        if !found {
            out.push(name.clone());
            assert(string_views(out@) =~= string_views(before).push(name@));
        }
        i += 1;
    }
    assert(manual@.subrange(0, manual@.len() as int) =~= manual@);
    out
}

/// What one diarization run reports.
pub struct DiarizationResult {
    pub segments_labeled: u64,
    pub speaker_count: usize,
    /// Manual speaker names that no cluster re-adopted in this run (explicit
    /// re-run path only; empty otherwise).
    pub unmatched_manual_names: Vec<String>,
}

// ---------------------------------------------------------------------------
// Labels of aligned segments
// ---------------------------------------------------------------------------

pub open spec fn unknown_label() -> Seq<char> {
    "Unknown Speaker"@
}

/// The (midpoint, speaker) of every segment that carries a speaker, in
/// order.
pub open spec fn labeled_midpoints(segs: Seq<SegmentView>) -> Seq<(int, Seq<char>)>
    decreases segs.len(),
{
    if segs.len() == 0 {
        Seq::empty()
    } else {
        let prev = labeled_midpoints(segs.drop_last());
        let s = segs.last();
        if s.speaker == unknown_label() {
            prev
        } else {
            prev.push((segment_mid(s), s.speaker))
        }
    }
}

pub open spec fn abs_int(x: int) -> int {
    if x < 0 {
        -x
    } else {
        x
    }
}

/// Index of the first midpoint nearest to `p` among the first `m`.
pub open spec fn nearest_index(mids: Seq<(int, Seq<char>)>, p: int, m: int) -> int
    decreases m,
{
    if m <= 1 {
        0
    } else {
        let best = nearest_index(mids, p, m - 1);
        if abs_int(p - mids[m - 1].0) < abs_int(p - mids[best].0) {
            m - 1
        } else {
            best
        }
    }
}

/// A segment takes a speaker by temporal adjacency: it is unlabeled, its
/// words were not left outside every diarization segment, and some segment
/// carries a speaker.
pub open spec fn adjacency_eligible(s: SegmentView, mids: Seq<(int, Seq<char>)>) -> bool {
    s.speaker == unknown_label() && s.speaker_source != SpeakerSource::Unknown && mids.len() > 0
}

/// The segments after temporal-adjacency assignment: each eligible segment
/// takes the speaker of the labeled segment whose midpoint is nearest its
/// own (the earliest among equally near ones).
pub open spec fn adjacency_assigned(segs: Seq<SegmentView>) -> Seq<SegmentView> {
    let mids = labeled_midpoints(segs);
    segs.map_values(
        |s: SegmentView|
            if adjacency_eligible(s, mids) {
                SegmentView { speaker: mids[nearest_index(mids, segment_mid(s), mids.len() as int)].1, ..s }
            } else {
                s
            },
    )
}

/// How many segments are eligible, among the first `m`.
pub open spec fn eligible_count(segs: Seq<SegmentView>, mids: Seq<(int, Seq<char>)>, m: int) -> nat
    decreases m,
{
    if m <= 0 {
        0
    } else {
        eligible_count(segs, mids, m - 1) + if adjacency_eligible(segs[m - 1], mids) {
            1nat
        } else {
            0nat
        }
    }
}

proof fn lemma_nearest_index_bounds(mids: Seq<(int, Seq<char>)>, p: int, m: int)
    requires
        1 <= m <= mids.len(),
    ensures
        0 <= nearest_index(mids, p, m) < m,
    decreases m,
{
    if m > 1 {
        lemma_nearest_index_bounds(mids, p, m - 1);
    }
}

proof fn lemma_eligible_count_bound(segs: Seq<SegmentView>, mids: Seq<(int, Seq<char>)>, m: int)
    requires
        0 <= m,
    ensures
        eligible_count(segs, mids, m) <= m,
    decreases m,
{
    if m > 0 {
        lemma_eligible_count_bound(segs, mids, m - 1);
    }
}

/// A segment that carries a speaker (any badge but "Unknown Speaker").
pub open spec fn is_labeled(s: SegmentView) -> bool {
    s.speaker != "Unknown Speaker"@
}

/// Distance in milliseconds between two points.
pub open spec fn ms_distance(a: int, b: int) -> int {
    if a >= b {
        a - b
    } else {
        b - a
    }
}

/// `speaker` is the badge of a labeled segment whose midpoint is at least as
/// near to segment `m`'s midpoint as that of every labeled segment.
pub open spec fn nearest_labeled_speaker(segs: Seq<SegmentView>, m: int, speaker: Seq<char>) -> bool {
    exists|j: int|
        0 <= j < segs.len() && #[trigger] is_labeled(segs[j]) && segs[j].speaker == speaker && forall|k: int|
            0 <= k < segs.len() && #[trigger] is_labeled(segs[k]) ==> ms_distance(
                midpoint_ms(segs[m]),
                midpoint_ms(segs[j]),
            ) <= ms_distance(midpoint_ms(segs[m]), midpoint_ms(segs[k]))
}

/// Some segment carries a speaker.
pub open spec fn any_labeled(segs: Seq<SegmentView>) -> bool {
    exists|j: int| 0 <= j < segs.len() && #[trigger] is_labeled(segs[j])
}

/// `e` is the (midpoint, badge) of some labeled segment.
spec fn entry_of_labeled(segs: Seq<SegmentView>, e: (int, Seq<char>)) -> bool {
    exists|j: int| 0 <= j < segs.len() && #[trigger] is_labeled(segs[j]) && e == (segment_mid(segs[j]), segs[j].speaker)
}

proof fn lemma_labeled_midpoints_entries(segs: Seq<SegmentView>)
    ensures
        forall|t: int|
            0 <= t < labeled_midpoints(segs).len() ==> #[trigger] entry_of_labeled(segs, labeled_midpoints(segs)[t]),
        forall|j: int|
            0 <= j < segs.len() && #[trigger] is_labeled(segs[j]) ==> exists|t: int|
                0 <= t < labeled_midpoints(segs).len() && #[trigger] labeled_midpoints(segs)[t] == (
                    segment_mid(segs[j]),
                    segs[j].speaker,
                ),
    decreases segs.len(),
{
    reveal_strlit("Unknown Speaker");
    if segs.len() > 0 {
        let p = segs.drop_last();
        lemma_labeled_midpoints_entries(p);
        let prev = labeled_midpoints(p);
        let cur = labeled_midpoints(segs);
        let x = segs.last();
        assert(x == segs[segs.len() - 1]);
        assert forall|t: int| 0 <= t < cur.len() implies #[trigger] entry_of_labeled(segs, cur[t]) by {
            if t < prev.len() {
                assert(cur[t] == prev[t]);
                assert(entry_of_labeled(p, prev[t]));
                let j = choose|j: int|
                    0 <= j < p.len() && #[trigger] is_labeled(p[j]) && prev[t] == (segment_mid(p[j]), p[j].speaker);
                assert(p[j] == segs[j]);
            } else {
                assert(is_labeled(segs[segs.len() - 1]));
            }
        }
        assert forall|j: int| 0 <= j < segs.len() && #[trigger] is_labeled(segs[j]) implies exists|t: int|
            0 <= t < cur.len() && #[trigger] cur[t] == (segment_mid(segs[j]), segs[j].speaker) by {
            if j < p.len() {
                assert(p[j] == segs[j]);
                assert(is_labeled(p[j]));
                let t = choose|t: int| 0 <= t < prev.len() && #[trigger] prev[t] == (segment_mid(p[j]), p[j].speaker);
                assert(cur[t] == prev[t]);
            } else {
                assert(cur[prev.len() as int] == (segment_mid(x), x.speaker));
            }
        }
    }
}

proof fn lemma_nearest_index_min(mids: Seq<(int, Seq<char>)>, p: int, m: int)
    requires
        1 <= m <= mids.len(),
    ensures
        0 <= nearest_index(mids, p, m) < m,
        forall|t: int|
            0 <= t < m ==> abs_int(p - mids[nearest_index(mids, p, m)].0) <= abs_int(p - #[trigger] mids[t].0),
    decreases m,
{
    if m > 1 {
        lemma_nearest_index_min(mids, p, m - 1);
    }
}

/// How many of the first `j` segments are labeled.
pub open spec fn labeled_before(segs: Seq<SegmentView>, j: int) -> nat
    decreases j,
{
    if j <= 0 {
        0
    } else {
        labeled_before(segs, j - 1) + if is_labeled(segs[j - 1]) {
            1nat
        } else {
            0nat
        }
    }
}

proof fn lemma_labeled_before_prefix(segs: Seq<SegmentView>, p: Seq<SegmentView>, j: int)
    requires
        0 <= j <= p.len() <= segs.len(),
        forall|i: int| 0 <= i < p.len() ==> p[i] == segs[i],
    ensures
        labeled_before(p, j) == labeled_before(segs, j),
    decreases j,
{
    if j > 0 {
        lemma_labeled_before_prefix(segs, p, j - 1);
    }
}

proof fn lemma_labeled_before_mono(segs: Seq<SegmentView>, k: int, j: int)
    requires
        0 <= k < j,
        is_labeled(segs[k]),
    ensures
        labeled_before(segs, k) < labeled_before(segs, j),
    decreases j,
{
    if k < j - 1 {
        lemma_labeled_before_mono(segs, k, j - 1);
    }
}

proof fn lemma_labeled_midpoints_ranks(segs: Seq<SegmentView>)
    ensures
        labeled_midpoints(segs).len() == labeled_before(segs, segs.len() as int),
        forall|j: int|
            0 <= j < segs.len() && #[trigger] is_labeled(segs[j]) ==> labeled_midpoints(segs)[labeled_before(segs, j) as int]
                == (segment_mid(segs[j]), segs[j].speaker),
        forall|t: int|
            0 <= t < labeled_midpoints(segs).len() ==> #[trigger] ranked_entry(segs, t),
    decreases segs.len(),
{
    reveal_strlit("Unknown Speaker");
    if segs.len() > 0 {
        let p = segs.drop_last();
        let n = segs.len() - 1;
        lemma_labeled_midpoints_ranks(p);
        let prev = labeled_midpoints(p);
        let cur = labeled_midpoints(segs);
        lemma_labeled_before_prefix(segs, p, n);
        assert forall|j: int| 0 <= j < segs.len() && #[trigger] is_labeled(segs[j]) implies cur[labeled_before(segs, j) as int]
            == (segment_mid(segs[j]), segs[j].speaker) by {
            if j < n {
                assert(p[j] == segs[j]);
                assert(is_labeled(p[j]));
                lemma_labeled_before_prefix(segs, p, j);
                lemma_labeled_before_mono(p, j, n);
                assert(cur[labeled_before(p, j) as int] == prev[labeled_before(p, j) as int]);
            }
        }
        assert forall|t: int| 0 <= t < cur.len() implies #[trigger] ranked_entry(segs, t) by {
            if t < prev.len() {
                assert(ranked_entry(p, t));
                let j = choose|j: int|
                    0 <= j < p.len() && #[trigger] is_labeled(p[j]) && labeled_before(p, j) == t && labeled_midpoints(p)[t]
                        == (segment_mid(p[j]), p[j].speaker);
                assert(p[j] == segs[j]);
                lemma_labeled_before_prefix(segs, p, j);
                assert(cur[t] == prev[t]);
                assert(is_labeled(segs[j]));
            } else {
                assert(is_labeled(segs[n]));
            }
        }
    }
}

/// Entry `t` of the labeled midpoints belongs to the labeled segment with
/// `t` labeled segments before it.
spec fn ranked_entry(segs: Seq<SegmentView>, t: int) -> bool {
    exists|j: int|
        0 <= j < segs.len() && #[trigger] is_labeled(segs[j]) && labeled_before(segs, j) == t
            && labeled_midpoints(segs)[t] == (segment_mid(segs[j]), segs[j].speaker)
}

proof fn lemma_nearest_index_first(mids: Seq<(int, Seq<char>)>, p: int, m: int)
    requires
        1 <= m <= mids.len(),
    ensures
        forall|t: int|
            0 <= t < nearest_index(mids, p, m) ==> abs_int(p - mids[nearest_index(mids, p, m)].0) < abs_int(
                p - #[trigger] mids[t].0,
            ),
    decreases m,
{
    if m > 1 {
        lemma_nearest_index_first(mids, p, m - 1);
        lemma_nearest_index_min(mids, p, m - 1);
    }
}

/// `speaker` is the badge of a labeled segment `j` whose midpoint is at
/// least as near to segment `m`'s as that of every labeled segment, and
/// strictly nearer than that of every labeled segment before `j`.
pub open spec fn first_nearest_speaker(segs: Seq<SegmentView>, m: int, speaker: Seq<char>) -> bool {
    exists|j: int|
        0 <= j < segs.len() && #[trigger] is_labeled(segs[j]) && speaker == segs[j].speaker && (forall|k: int|
            0 <= k < segs.len() && #[trigger] is_labeled(segs[k]) ==> ms_distance(
                midpoint_ms(segs[m]),
                midpoint_ms(segs[j]),
            ) <= ms_distance(midpoint_ms(segs[m]), midpoint_ms(segs[k]))) && (forall|k: int|
            0 <= k < j && #[trigger] is_labeled(segs[k]) ==> ms_distance(
                midpoint_ms(segs[m]),
                midpoint_ms(segs[j]),
            ) < ms_distance(midpoint_ms(segs[m]), midpoint_ms(segs[k])))
}

/// Among equally near labeled segments the earliest gives its badge: the
/// adjacency pass assigns an eligible segment the badge of a labeled
/// segment `j` that is at least as near as every labeled segment and
/// strictly nearer than every labeled segment before it.
pub proof fn lemma_adjacency_takes_first_nearest(segs: Seq<SegmentView>, m: int)
    requires
        0 <= m < segs.len(),
        segs[m].speaker == "Unknown Speaker"@,
        segs[m].speaker_source != SpeakerSource::Unknown,
        any_labeled(segs),
    ensures
        first_nearest_speaker(segs, m, adjacency_assigned(segs)[m].speaker),
{
    reveal_strlit("Unknown Speaker");
    let mids = labeled_midpoints(segs);
    let x = segs[m];
    let px = segment_mid(x);
    lemma_labeled_midpoints_ranks(segs);
    lemma_labeled_midpoints_entries(segs);
    let j0 = choose|j: int| 0 <= j < segs.len() && #[trigger] is_labeled(segs[j]);
    assert(mids[labeled_before(segs, j0) as int] == (segment_mid(segs[j0]), segs[j0].speaker));
    lemma_labeled_before_mono(segs, j0, segs.len() as int);
    assert(mids.len() > 0);
    assert(adjacency_eligible(x, mids));
    let n = nearest_index(mids, px, mids.len() as int);
    lemma_nearest_index_min(mids, px, mids.len() as int);
    lemma_nearest_index_first(mids, px, mids.len() as int);
    assert(ranked_entry(segs, n));
    let j = choose|j: int|
        0 <= j < segs.len() && #[trigger] is_labeled(segs[j]) && labeled_before(segs, j) == n && mids[n] == (
            segment_mid(segs[j]),
            segs[j].speaker,
        );
    assert(adjacency_assigned(segs)[m].speaker == segs[j].speaker);
    assert forall|k: int| 0 <= k < segs.len() && #[trigger] is_labeled(segs[k]) implies ms_distance(
        midpoint_ms(segs[m]),
        midpoint_ms(segs[j]),
    ) <= ms_distance(midpoint_ms(segs[m]), midpoint_ms(segs[k])) by {
        let t = labeled_before(segs, k) as int;
        lemma_labeled_before_mono(segs, k, segs.len() as int);
        assert(mids[t] == (segment_mid(segs[k]), segs[k].speaker));
        assert(abs_int(px - mids[n].0) <= abs_int(px - mids[t].0));
    }
    assert forall|k: int| 0 <= k < j && #[trigger] is_labeled(segs[k]) implies ms_distance(
        midpoint_ms(segs[m]),
        midpoint_ms(segs[j]),
    ) < ms_distance(midpoint_ms(segs[m]), midpoint_ms(segs[k])) by {
        let t = labeled_before(segs, k) as int;
        lemma_labeled_before_mono(segs, k, j);
        assert(mids[t] == (segment_mid(segs[k]), segs[k].speaker));
        assert(abs_int(px - mids[n].0) < abs_int(px - mids[t].0));
    }
    assert(first_nearest_speaker(segs, m, adjacency_assigned(segs)[m].speaker));
}

/// Temporal adjacency: every eligible segment ("Unknown Speaker", with
/// words inside some diarization segment, while some segment is labeled)
/// takes the badge of a labeled segment whose midpoint is nearest its own,
/// over ALL labeled segments; every other segment is left unchanged; and
/// nothing but the badge ever changes.
pub proof fn lemma_adjacency_takes_nearest(segs: Seq<SegmentView>)
    ensures
        adjacency_assigned(segs).len() == segs.len(),
        forall|m: int|
            0 <= m < segs.len() ==> (#[trigger] adjacency_assigned(segs)[m]) == (SegmentView {
                speaker: adjacency_assigned(segs)[m].speaker,
                ..segs[m]
            }),
        forall|m: int|
            0 <= m < segs.len() ==> (if segs[m].speaker == "Unknown Speaker"@ && segs[m].speaker_source
                != SpeakerSource::Unknown && any_labeled(segs) {
                nearest_labeled_speaker(segs, m, (#[trigger] adjacency_assigned(segs)[m]).speaker)
            } else {
                adjacency_assigned(segs)[m] == segs[m]
            }),
{
    reveal_strlit("Unknown Speaker");
    let mids = labeled_midpoints(segs);
    let r = adjacency_assigned(segs);
    lemma_labeled_midpoints_entries(segs);
    assert forall|m: int| 0 <= m < segs.len() implies if segs[m].speaker == "Unknown Speaker"@ && segs[m].speaker_source
        != SpeakerSource::Unknown && any_labeled(segs) {
        nearest_labeled_speaker(segs, m, (#[trigger] r[m]).speaker)
    } else {
        r[m] == segs[m]
    } by {
        let x = segs[m];
        let px = segment_mid(x);
        assert(px == midpoint_ms(x));
        if x.speaker == "Unknown Speaker"@ && x.speaker_source != SpeakerSource::Unknown && any_labeled(segs) {
            let j0 = choose|j: int| 0 <= j < segs.len() && #[trigger] is_labeled(segs[j]);
            assert(is_labeled(segs[j0]));
            assert(mids.len() > 0);
            assert(adjacency_eligible(x, mids));
            let n = nearest_index(mids, px, mids.len() as int);
            lemma_nearest_index_min(mids, px, mids.len() as int);
            assert(entry_of_labeled(segs, mids[n]));
            let j = choose|j: int|
                0 <= j < segs.len() && #[trigger] is_labeled(segs[j]) && mids[n] == (segment_mid(segs[j]), segs[j].speaker);
            assert(r[m].speaker == segs[j].speaker);
            assert forall|k: int| 0 <= k < segs.len() && #[trigger] is_labeled(segs[k]) implies ms_distance(
                midpoint_ms(segs[m]),
                midpoint_ms(segs[j]),
            ) <= ms_distance(midpoint_ms(segs[m]), midpoint_ms(segs[k])) by {
                let t = choose|t: int| 0 <= t < mids.len() && #[trigger] mids[t] == (segment_mid(segs[k]), segs[k].speaker);
                assert(abs_int(px - mids[n].0) <= abs_int(px - mids[t].0));
                assert(segment_mid(segs[k]) == midpoint_ms(segs[k]));
                assert(segment_mid(segs[j]) == midpoint_ms(segs[j]));
            }
            assert(nearest_labeled_speaker(segs, m, r[m].speaker));
        } else {
            if x.speaker == "Unknown Speaker"@ && x.speaker_source != SpeakerSource::Unknown {
                if mids.len() > 0 {
                    assert(entry_of_labeled(segs, mids[0]));
                    let j = choose|j: int|
                        0 <= j < segs.len() && #[trigger] is_labeled(segs[j]) && mids[0] == (segment_mid(segs[j]), segs[j].speaker);
                    assert(any_labeled(segs));
                }
            }
            assert(!adjacency_eligible(x, mids));
        }
    }
}

/// An "Unknown Speaker" segment whose words lie inside some diarization
/// segment.
pub open spec fn unknown_inside_turns(s: SegmentView) -> bool {
    s.speaker == "Unknown Speaker"@ && s.speaker_source != SpeakerSource::Unknown
}

proof fn lemma_eligible_count_filter(segs: Seq<SegmentView>, mids: Seq<(int, Seq<char>)>, m: int)
    requires
        0 <= m <= segs.len(),
    ensures
        eligible_count(segs, mids, m) == if mids.len() > 0 {
            segs.subrange(0, m).filter(|s: SegmentView| unknown_inside_turns(s)).len()
        } else {
            0
        },
    decreases m,
{
    reveal(Seq::filter);
    reveal_strlit("Unknown Speaker");
    if m > 0 {
        lemma_eligible_count_filter(segs, mids, m - 1);
        assert(segs.subrange(0, m).drop_last() =~= segs.subrange(0, m - 1));
        assert(segs.subrange(0, m).last() == segs[m - 1]);
    } else {
        assert(segs.subrange(0, m) =~= Seq::<SegmentView>::empty());
    }
}

/// The number of segments the adjacency pass relabels: every "Unknown
/// Speaker" segment with words inside the diarization, when some segment
/// is labeled; none otherwise.
pub proof fn lemma_adjacency_count(segs: Seq<SegmentView>)
    ensures
        eligible_count(segs, labeled_midpoints(segs), segs.len() as int) == if any_labeled(segs) {
            segs.filter(|s: SegmentView| unknown_inside_turns(s)).len()
        } else {
            0
        },
{
    let mids = labeled_midpoints(segs);
    lemma_labeled_midpoints_entries(segs);
    lemma_eligible_count_filter(segs, mids, segs.len() as int);
    assert(segs.subrange(0, segs.len() as int) =~= segs);
    if any_labeled(segs) {
        let j = choose|j: int| 0 <= j < segs.len() && #[trigger] is_labeled(segs[j]);
        assert(mids.len() > 0);
    } else if mids.len() > 0 {
        assert(entry_of_labeled(segs, mids[0]));
        let j = choose|j: int|
            0 <= j < segs.len() && #[trigger] is_labeled(segs[j]) && mids[0] == (segment_mid(segs[j]), segs[j].speaker);
        assert(any_labeled(segs));
    }
}

fn copy_segment(s: &AlignedSegment) -> (c: AlignedSegment)
    ensures
        c@ == s@,
{
    AlignedSegment {
        original_id: s.original_id.clone(),
        text: s.text.clone(),
        audio_start_ms: s.audio_start_ms,
        audio_end_ms: s.audio_end_ms,
        speaker: s.speaker.clone(),
        speaker_source: s.speaker_source,
    }
}

fn segment_mid_of(s: &AlignedSegment) -> (m: i128)
    requires
        i64::MIN <= s.audio_start_ms + s.audio_end_ms <= i64::MAX,
    ensures
        m == segment_mid(s@),
        i64::MIN <= m <= i64::MAX,
{
    let sum: i128 = s.audio_start_ms as i128 + s.audio_end_ms as i128;
    if sum >= 0 {
        sum / 2
    } else {
        -((-sum) / 2)
    }
}

/// Temporal-adjacency assignment for `Unknown Speaker` segments: each one
/// whose words were not left outside every diarization segment takes the
/// speaker of the labeled segment with the nearest midpoint (the earliest
/// among equally near ones). Returns the segments and how many changed.
pub fn assign_unknown_by_adjacency(aligned: &[AlignedSegment]) -> (r: (Vec<AlignedSegment>, u64))
    requires
        mid_fits(aligned@),
    ensures
        segment_views(r.0@) == adjacency_assigned(segment_views(aligned@)),
        r.1 == eligible_count(
            segment_views(aligned@),
            labeled_midpoints(segment_views(aligned@)),
            aligned@.len() as int,
        ),
        r.0@.len() == aligned@.len(),
        forall|m: int|
            0 <= m < aligned@.len() && unknown_inside_turns(aligned@[m]@) && any_labeled(segment_views(aligned@))
                ==> first_nearest_speaker(segment_views(aligned@), m, (#[trigger] r.0@[m])@.speaker),
        r.1 == (if any_labeled(segment_views(aligned@)) {
            segment_views(aligned@).filter(|s: SegmentView| unknown_inside_turns(s)).len()
        } else {
            0
        }),
        forall|m: int|
            0 <= m < aligned@.len() ==> (if aligned@[m]@.speaker == "Unknown Speaker"@
                && aligned@[m]@.speaker_source != SpeakerSource::Unknown && any_labeled(
                segment_views(aligned@),
            ) {
                nearest_labeled_speaker(segment_views(aligned@), m, (#[trigger] r.0@[m])@.speaker)
            } else {
                r.0@[m]@ == aligned@[m]@
            }),
{
    proof {
        lemma_adjacency_takes_nearest(segment_views(aligned@));
        lemma_adjacency_count(segment_views(aligned@));
    }
    let ghost sv = segment_views(aligned@);
    proof {
        reveal_strlit("Unknown Speaker");
    }
    let mut mids: Vec<i128> = Vec::new();
    let mut names: Vec<String> = Vec::new();
    let mut i: usize = 0;
    while i < aligned.len()
        invariant
            i <= aligned@.len(),
            sv == segment_views(aligned@),
            mid_fits(aligned@),
            mids@.len() == names@.len(),
            forall|k: int| 0 <= k < mids@.len() ==> i64::MIN <= #[trigger] mids@[k] <= i64::MAX,
            mids@.len() == labeled_midpoints(sv.subrange(0, i as int)).len(),
            forall|k: int|
                0 <= k < mids@.len() ==> (#[trigger] mids@[k] as int, names@[k]@) == labeled_midpoints(
                    sv.subrange(0, i as int),
                )[k],
        decreases aligned.len() - i,
    {
        let s = &aligned[i];
        assert(sv[i as int] == s@);
        assert(i64::MIN <= aligned@[i as int].audio_start_ms + aligned@[i as int].audio_end_ms <= i64::MAX);
        assert(sv.subrange(0, i + 1).drop_last() =~= sv.subrange(0, i as int));
        assert(sv.subrange(0, i + 1).last() == s@);
        if !str_eq(s.speaker.as_str(), "Unknown Speaker") {
            mids.push(segment_mid_of(s));
            names.push(s.speaker.clone());
        }
        i += 1;
    }
    assert(sv.subrange(0, aligned@.len() as int) =~= sv);
    let ghost lm = labeled_midpoints(sv);
    let mut out: Vec<AlignedSegment> = Vec::new();
    let mut assigned: u64 = 0;
    let mut i: usize = 0;
    while i < aligned.len()
        invariant
            i <= aligned@.len(),
            sv == segment_views(aligned@),
            mid_fits(aligned@),
            lm == labeled_midpoints(sv),
            mids@.len() == names@.len(),
            forall|k: int| 0 <= k < mids@.len() ==> i64::MIN <= #[trigger] mids@[k] <= i64::MAX,
            mids@.len() == lm.len(),
            forall|k: int| 0 <= k < mids@.len() ==> (#[trigger] mids@[k] as int, names@[k]@) == lm[k],
            segment_views(out@) == adjacency_assigned(sv).subrange(0, i as int),
            assigned == eligible_count(sv, lm, i as int),
            aligned@.len() <= usize::MAX,
        decreases aligned.len() - i,
    {
        let s = &aligned[i];
        assert(sv[i as int] == s@);
        assert(i64::MIN <= aligned@[i as int].audio_start_ms + aligned@[i as int].audio_end_ms <= i64::MAX);
        proof {
            lemma_eligible_count_bound(sv, lm, i as int);
        }
        let ghost before = segment_views(out@);
        let unknown = str_eq(s.speaker.as_str(), "Unknown Speaker");
        if unknown && s.speaker_source != SpeakerSource::Unknown && mids.len() > 0 {
            let p = segment_mid_of(s);
            let mut best: usize = 0;
            let mut k: usize = 1;
            while k < mids.len()
                invariant
                    1 <= k <= mids@.len(),
                    i64::MIN <= p <= i64::MAX,
                    forall|q: int| 0 <= q < mids@.len() ==> i64::MIN <= #[trigger] mids@[q] <= i64::MAX,
                    mids@.len() == lm.len(),
                    forall|q: int| 0 <= q < mids@.len() ==> (#[trigger] mids@[q]) == lm[q].0,
                    best == nearest_index(lm, p as int, k as int),
                    best < k,
                decreases mids.len() - k,
            {
                let dk = if p >= mids[k] { p - mids[k] } else { mids[k] - p };
                let db = if p >= mids[best] { p - mids[best] } else { mids[best] - p };
                assert(mids@[k as int] == lm[k as int].0);
                assert(mids@[best as int] == lm[best as int].0);
                if dk < db {
                    best = k;
                }
                k += 1;
            }
            assert(mids@[best as int] as int == lm[best as int].0);
            assert(names@[best as int]@ == lm[best as int].1);
            let c = AlignedSegment {
                original_id: s.original_id.clone(),
                text: s.text.clone(),
                audio_start_ms: s.audio_start_ms,
                audio_end_ms: s.audio_end_ms,
                speaker: names[best].clone(),
                speaker_source: s.speaker_source,
            };
            assert(c@ == adjacency_assigned(sv)[i as int]);
            out.push(c);
            assigned = assigned + 1;
        } else {
            let c = copy_segment(s);
            assert(c@ == adjacency_assigned(sv)[i as int]);
            out.push(c);
        }
        assert(segment_views(out@) =~= before.push(adjacency_assigned(sv)[i as int]));
        assert(adjacency_assigned(sv).subrange(0, i + 1) =~= adjacency_assigned(sv).subrange(0, i as int).push(adjacency_assigned(sv)[i as int]));
        i += 1;
    }
    assert(adjacency_assigned(sv).subrange(0, aligned@.len() as int) =~= adjacency_assigned(sv));
    proof {
        assert forall|m: int| 0 <= m < aligned@.len() implies if aligned@[m]@.speaker == "Unknown Speaker"@
            && aligned@[m]@.speaker_source != SpeakerSource::Unknown && any_labeled(sv) {
            nearest_labeled_speaker(sv, m, (#[trigger] out@[m])@.speaker)
        } else {
            out@[m]@ == aligned@[m]@
        } by {
            assert(segment_views(out@)[m] == out@[m]@);
            assert(sv[m] == aligned@[m]@);
            assert(adjacency_assigned(sv)[m] == out@[m]@);
        }
        assert forall|m: int|
            0 <= m < aligned@.len() && unknown_inside_turns(aligned@[m]@) && any_labeled(sv)
                implies first_nearest_speaker(sv, m, (#[trigger] out@[m])@.speaker) by {
            assert(segment_views(out@)[m] == out@[m]@);
            assert(sv[m] == aligned@[m]@);
            lemma_adjacency_takes_first_nearest(sv, m);
        }
    }
    (out, assigned)
}

/// A segment with its speaker badge resolved to its display label.
pub open spec fn relabeled(s: SegmentView, labels: Map<u32, String>) -> SegmentView {
    SegmentView { speaker: resolved_label(s.speaker, labels), ..s }
}

/// Each segment's speaker badge resolved to its display label.
pub fn resolve_segment_labels(aligned: Vec<AlignedSegment>, label_map: &HashMap<u32, String>) -> (r: Vec<AlignedSegment>)
    ensures
        r@.len() == aligned@.len(),
        forall|k: int|
            0 <= k < r@.len() ==> (#[trigger] r@[k])@ == relabeled(aligned@[k]@, label_map@),
{
    let mut out: Vec<AlignedSegment> = Vec::new();
    let mut i: usize = 0;
    while i < aligned.len()
        invariant
            i <= aligned@.len(),
            out@.len() == i,
            forall|k: int|
                0 <= k < i ==> (#[trigger] out@[k])@ == relabeled(aligned@[k]@, label_map@),
        decreases aligned.len() - i,
    {
        let s = &aligned[i];
        let c = AlignedSegment {
            original_id: s.original_id.clone(),
            text: s.text.clone(),
            audio_start_ms: s.audio_start_ms,
            audio_end_ms: s.audio_end_ms,
            speaker: resolve_label(s.speaker.as_str(), label_map),
            speaker_source: s.speaker_source,
        };
        out.push(c);
        i += 1;
    }
    out
}

} // verus!
