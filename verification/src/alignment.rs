//! Sentence-granularity alignment of transcript rows with diarization turns.
//!
//! Transcript text is divided at SENTENCE granularity and each sentence is
//! assigned WHOLE to the turn owning the majority of its span: a voice does
//! not change mid-sentence, so every engine boundary inside a sentence is an
//! engine error, absorbed by whole-atom majority assignment.
use vstd::prelude::*;
use vstd::string::StringExecFns;

use crate::order::{
    index_seq, is_stable_order, key_before, key_views, lemma_stable_order_unique, stable_order,
    stable_order_of,
};
use crate::text::{
    any_alphanumeric, char_is_alphanumeric, char_seqs, chars_equal, chars_of, decimal, has_alphanumeric,
    is_alphanumeric, is_white_space, join_words_ws, lemma_char_seqs_push, lemma_split_joined,
    lemma_split_ws_tokens,
    no_white_space, plain_words, push_all, push_decimal, split_whitespace, split_ws, str_lowercase,
    str_to_lowercase, string_from_chars,
};
use crate::turns::{detokenize, detokenized, well_spaced};

verus! {

/// A single word with its timing from Whisper token timestamps.
#[derive(Debug, Clone)]
pub struct TokenWord {
    pub word: String,
    pub start_ms: i64,
    pub end_ms: i64,
}

/// A speaker segment from diarization.
#[derive(Debug, Clone)]
pub struct DiarizationSegment {
    pub start_ms: i64,
    pub end_ms: i64,
    pub speaker_id: u32,
}

/// A transcript segment to be aligned.
#[derive(Debug, Clone)]
pub struct TranscriptInput {
    pub id: String,
    pub text: String,
    pub audio_start_ms: i64,
    pub audio_end_ms: i64,
    pub token_words: Option<Vec<TokenWord>>,
}

/// Result of aligning one transcript segment with diarization.
#[derive(Debug, Clone)]
pub struct AlignedSegment {
    pub original_id: String,
    pub text: String,
    pub audio_start_ms: i64,
    pub audio_end_ms: i64,
    pub speaker: String,
    pub speaker_source: SpeakerSource,
}

#[derive(Debug, Clone, Copy, PartialEq, Eq, Structural)]
pub enum SpeakerSource {
    Auto,
    Fallback,
    Unknown,
}

/// Sanity clamp for the token-timestamp span source: a row whose non-EOT
/// token words exceed 25 per second of its span falls back to proportional
/// spans (`40 * words > span_ms` is the same bound in whole milliseconds).
pub const MAX_TOKENS_PER_SECOND: i64 = 25;

/// Assignment near-tie window: when the previous atom's badge trails the
/// best total overlap by at most this much, it keeps the atom.
pub const NEAR_TIE_MS: i64 = 100;

/// One whitespace word of a logical unit, with its span (real token times, or
/// an even proportional share of the unit's span) and its source row index.
pub struct UnitWord {
    pub text: Vec<char>,
    pub start_ms: i64,
    pub end_ms: i64,
    pub source_row: usize,
}

// ---------------------------------------------------------------------------
// Models
// ---------------------------------------------------------------------------

pub struct TokenView {
    pub word: Seq<char>,
    pub start_ms: int,
    pub end_ms: int,
}

pub struct TranscriptView {
    pub id: Seq<char>,
    pub text: Seq<char>,
    pub audio_start_ms: int,
    pub audio_end_ms: int,
    pub token_words: Option<Seq<TokenView>>,
}

pub struct WordView {
    pub text: Seq<char>,
    pub start_ms: int,
    pub end_ms: int,
    pub source_row: int,
}

pub struct SegmentView {
    pub original_id: Seq<char>,
    pub text: Seq<char>,
    pub audio_start_ms: int,
    pub audio_end_ms: int,
    pub speaker: Seq<char>,
    pub speaker_source: SpeakerSource,
}

impl View for TokenWord {
    type V = TokenView;

    open spec fn view(&self) -> TokenView {
        TokenView { word: self.word@, start_ms: self.start_ms as int, end_ms: self.end_ms as int }
    }
}

pub open spec fn token_views(ts: Seq<TokenWord>) -> Seq<TokenView> {
    ts.map_values(|t: TokenWord| t@)
}

impl View for TranscriptInput {
    type V = TranscriptView;

    open spec fn view(&self) -> TranscriptView {
        TranscriptView {
            id: self.id@,
            text: self.text@,
            audio_start_ms: self.audio_start_ms as int,
            audio_end_ms: self.audio_end_ms as int,
            token_words: match self.token_words {
                Some(v) => Some(token_views(v@)),
                None => None,
            },
        }
    }
}

pub open spec fn transcript_views(ts: Seq<TranscriptInput>) -> Seq<TranscriptView> {
    ts.map_values(|t: TranscriptInput| t@)
}

impl View for UnitWord {
    type V = WordView;

    open spec fn view(&self) -> WordView {
        WordView {
            text: self.text@,
            start_ms: self.start_ms as int,
            end_ms: self.end_ms as int,
            source_row: self.source_row as int,
        }
    }
}

pub open spec fn word_views(ws: Seq<UnitWord>) -> Seq<WordView> {
    ws.map_values(|w: UnitWord| w@)
}

impl View for AlignedSegment {
    type V = SegmentView;

    open spec fn view(&self) -> SegmentView {
        SegmentView {
            original_id: self.original_id@,
            text: self.text@,
            audio_start_ms: self.audio_start_ms as int,
            audio_end_ms: self.audio_end_ms as int,
            speaker: self.speaker@,
            speaker_source: self.speaker_source,
        }
    }
}

pub open spec fn segment_views(ss: Seq<AlignedSegment>) -> Seq<SegmentView> {
    ss.map_values(|s: AlignedSegment| s@)
}

proof fn lemma_word_views_push(ws: Seq<UnitWord>, w: UnitWord)
    ensures
        word_views(ws.push(w)) == word_views(ws).push(w@),
{
    assert(word_views(ws.push(w)) =~= word_views(ws).push(w@));
}

// ---------------------------------------------------------------------------
// Characters and words
// ---------------------------------------------------------------------------

pub open spec fn terminator_char(c: char) -> bool {
    c == '.' || c == '?' || c == '!' || c == '。' || c == '？' || c == '！' || c == '…'
}

pub open spec fn closing_char(c: char) -> bool {
    c == '"' || c == '\'' || c == ')' || c == ']' || c == '}' || c == '”' || c == '’' || c == '»'
        || c == '」' || c == '』'
}

fn is_sentence_terminator(c: char) -> (r: bool)
    ensures
        r == terminator_char(c),
{
    c == '.' || c == '?' || c == '!' || c == '。' || c == '？' || c == '！' || c == '…'
}

fn is_closing_quote_or_bracket(c: char) -> (r: bool)
    ensures
        r == closing_char(c),
{
    c == '"' || c == '\'' || c == ')' || c == ']' || c == '}' || c == '”' || c == '’' || c == '»'
        || c == '」' || c == '』'
}

/// `w` with its trailing closing quotes and brackets removed.
pub open spec fn trim_closing(w: Seq<char>) -> Seq<char>
    decreases w.len(),
{
    if w.len() > 0 && closing_char(w.last()) {
        trim_closing(w.drop_last())
    } else {
        w
    }
}

/// A word ends its sentence when, after trimming closing quotes and
/// brackets, its final char is a sentence terminator.
pub open spec fn ends_sentence(w: Seq<char>) -> bool {
    let t = trim_closing(w);
    t.len() > 0 && terminator_char(t.last())
}

fn word_ends_sentence(w: &[char]) -> (r: bool)
    ensures
        r == ends_sentence(w@),
{
    let mut n: usize = w.len();
    assert(w@.subrange(0, n as int) =~= w@);
    while n > 0 && is_closing_quote_or_bracket(w[n - 1])
        invariant
            n <= w.len(),
            trim_closing(w@) == trim_closing(w@.subrange(0, n as int)),
        decreases n,
    {
        assert(w@.subrange(0, n as int).drop_last() =~= w@.subrange(0, n - 1));
        n -= 1;
    }
    assert(trim_closing(w@.subrange(0, n as int)) == w@.subrange(0, n as int));
    n > 0 && is_sentence_terminator(w[n - 1])
}

/// A text ends its sentence when its last whitespace word does.
pub open spec fn text_ends_in_sentence(s: Seq<char>) -> bool {
    let toks = split_ws(s);
    toks.len() > 0 && ends_sentence(toks.last())
}

/// Whether a text's last whitespace word ends a sentence.
pub fn text_ends_sentence(text: &str) -> (r: bool)
    ensures
        r == text_ends_in_sentence(text@),
{
    let cs = chars_of(text);
    let toks = split_whitespace(cs.as_slice());
    if toks.len() == 0 {
        return false;
    }
    let last = &toks[toks.len() - 1];
    assert(char_seqs(toks@).last() == last@);
    word_ends_sentence(last.as_slice())
}

/// The first diarization segment holding `time_ms` in its `[start, end)`.
pub open spec fn first_segment_at(segs: Seq<DiarizationSegment>, t: int, m: int) -> Option<int>
    decreases m,
{
    if m <= 0 {
        None
    } else {
        match first_segment_at(segs, t, m - 1) {
            Some(k) => Some(k),
            None => if segs[m - 1].start_ms <= t && t < segs[m - 1].end_ms {
                Some(m - 1)
            } else {
                None
            },
        }
    }
}

proof fn lemma_first_segment_stays(segs: Seq<DiarizationSegment>, t: int, m: int, n: int)
    requires
        0 <= m <= n,
        first_segment_at(segs, t, m) is Some,
    ensures
        first_segment_at(segs, t, n) == first_segment_at(segs, t, m),
    decreases n - m,
{
    if n > m {
        lemma_first_segment_stays(segs, t, m, n - 1);
    }
}

/// The first diarization segment that contains a timestamp.
pub fn speaker_at_time(segments: &[DiarizationSegment], time_ms: i64) -> (r: Option<&DiarizationSegment>)
    ensures
        match first_segment_at(segments@, time_ms as int, segments@.len() as int) {
            Some(k) => r == Some(&segments@[k]),
            None => r is None,
        },
{
    let mut i: usize = 0;
    while i < segments.len()
        invariant
            i <= segments@.len(),
            first_segment_at(segments@, time_ms as int, i as int) is None,
        decreases segments.len() - i,
    {
        if time_ms >= segments[i].start_ms && time_ms < segments[i].end_ms {
            proof {
                lemma_first_segment_stays(segments@, time_ms as int, i + 1, segments@.len() as int);
            }
            return Some(&segments[i]);
        }
        i += 1;
    }
    None
}

/// The end-of-text sentinels that Whisper emits among its tokens.
pub open spec fn is_eot_marker(w: Seq<char>) -> bool {
    w == seq!['[', '_', 'E', 'O', 'T', '_', ']'] || w == seq!['_', 'E', 'O', 'T', '_']
}

fn eot_marker(w: &[char]) -> (r: bool)
    ensures
        r == is_eot_marker(w@),
{
    let r = if w.len() == 7 {
        w[0] == '[' && w[1] == '_' && w[2] == 'E' && w[3] == 'O' && w[4] == 'T' && w[5] == '_'
            && w[6] == ']'
    } else if w.len() == 5 {
        w[0] == '_' && w[1] == 'E' && w[2] == 'O' && w[3] == 'T' && w[4] == '_'
    } else {
        false
    };
    proof {
        if r {
            if w.len() == 7 {
                assert(w@ =~= seq!['[', '_', 'E', 'O', 'T', '_', ']']);
            } else {
                assert(w@ =~= seq!['_', 'E', 'O', 'T', '_']);
            }
        }
    }
    r
}

pub open spec fn is_cjk(c: char) -> bool {
    let u = c as u32;
    (0x3040 <= u && u <= 0x30FF) || (0x3400 <= u && u <= 0x4DBF) || (0x4E00 <= u && u <= 0x9FFF)
}

fn cjk_char(c: char) -> (r: bool)
    ensures
        r == is_cjk(c),
{
    let u = c as u32;
    (0x3040 <= u && u <= 0x30FF) || (0x3400 <= u && u <= 0x4DBF) || (0x4E00 <= u && u <= 0x9FFF)
}

pub open spec fn has_cjk_char(s: Seq<char>) -> bool {
    exists|i: int| 0 <= i < s.len() && is_cjk(#[trigger] s[i])
}

fn contains_cjk(s: &[char]) -> (r: bool)
    ensures
        r == has_cjk_char(s@),
{
    let mut i: usize = 0;
    while i < s.len()
        invariant
            i <= s.len(),
            forall|j: int| 0 <= j < i ==> !is_cjk(#[trigger] s@[j]),
        decreases s.len() - i,
    {
        if cjk_char(s[i]) {
            return true;
        }
        i += 1;
    }
    false
}

// ---------------------------------------------------------------------------
// Token-timestamp words
// ---------------------------------------------------------------------------

pub open spec fn non_eot_tokens(tokens: Seq<TokenView>) -> Seq<TokenView> {
    tokens.filter(|w: TokenView| !is_eot_marker(w.word))
}

pub open spec fn token_to_word(w: TokenView, row: int) -> WordView {
    WordView { text: w.word, start_ms: w.start_ms, end_ms: w.end_ms, source_row: row }
}

/// A row's token words are a valid span source only when there is at least
/// one token, the row's span is positive, at least one token is not an EOT
/// sentinel, the non-EOT tokens stay within the sanity clamp, and their count
/// matches the row's whitespace tokenization.
pub open spec fn token_words_of(t: TranscriptView, row: int) -> Option<Seq<WordView>> {
    match t.token_words {
        None => None,
        Some(tokens) => {
            let span = t.audio_end_ms - t.audio_start_ms;
            let words = non_eot_tokens(tokens);
            if tokens.len() == 0 || span <= 0 {
                None
            } else if words.len() == 0 || 1000 * words.len() > MAX_TOKENS_PER_SECOND * span
                || words.len() != split_ws(t.text).len() {
                None
            } else {
                Some(words.map_values(|w: TokenView| token_to_word(w, row)))
            }
        },
    }
}

fn valid_token_words(t: &TranscriptInput, row_idx: usize) -> (r: Option<Vec<UnitWord>>)
    ensures
        match r {
            Some(v) => token_words_of(t@, row_idx as int) == Some(word_views(v@)),
            None => token_words_of(t@, row_idx as int) is None,
        },
{
    let tokens = match &t.token_words {
        Some(v) => v,
        None => {
            return None;
        },
    };
    let ghost tv = token_views(tokens@);
    assert(t@.token_words == Some(tv));
    if tokens.len() == 0 {
        return None;
    }
    let span: i128 = (t.audio_end_ms as i128) - (t.audio_start_ms as i128);
    if span <= 0 {
        return None;
    }
    assert(span <= 0x1_0000_0000_0000_0000);
    let mut words: Vec<UnitWord> = Vec::new();
    let mut k: usize = 0;
    while k < tokens.len()
        invariant
            k <= tokens.len(),
            tv == token_views(tokens@),
            word_views(words@) == non_eot_tokens(tv.subrange(0, k as int)).map_values(
                |w: TokenView| token_to_word(w, row_idx as int),
            ),
            words@.len() <= k,
            span == t@.audio_end_ms - t@.audio_start_ms,
            span > 0,
        decreases tokens.len() - k,
    {
        let ghost before = non_eot_tokens(tv.subrange(0, k as int));
        assert(tv.subrange(0, k + 1) =~= tv.subrange(0, k as int).push(tv[k as int]));
        proof {
            tv.subrange(0, k as int).lemma_filter_push(
                tv[k as int],
                |w: TokenView| !is_eot_marker(w.word),
            );
        }
        assert(tv[k as int] == tokens@[k as int]@);
        let wchars = chars_of(tokens[k].word.as_str());
        if !eot_marker(&wchars) {
            let ghost wv = word_views(words@);
            let w = UnitWord {
                text: wchars,
                start_ms: tokens[k].start_ms,
                end_ms: tokens[k].end_ms,
                source_row: row_idx,
            };
            proof {
                lemma_word_views_push(words@, w);
            }
            words.push(w);
            assert(non_eot_tokens(tv.subrange(0, k + 1)) =~= before.push(tv[k as int]));
            assert(word_views(words@) =~= non_eot_tokens(tv.subrange(0, k + 1)).map_values(
                |w: TokenView| token_to_word(w, row_idx as int),
            ));
        } else {
            assert(non_eot_tokens(tv.subrange(0, k + 1)) =~= before);
        }
        k += 1;
    }
    assert(tv.subrange(0, tokens.len() as int) =~= tv);
    let text_chars = chars_of(t.text.as_str());
    let text_words = split_whitespace(&text_chars);
    assert(words@.len() == non_eot_tokens(tv).len());
    assert(text_words@.len() == split_ws(t@.text).len()) by {
        assert(char_seqs(text_words@).len() == text_words@.len());
    }
    assert(0 < span <= 0x1_0000_0000_0000_0000);
    if words.len() == 0 || 1000 * (words.len() as i128) > (MAX_TOKENS_PER_SECOND as i128) * span
        || words.len() != text_words.len() {
        return None;
    }
    Some(words)
}

// ---------------------------------------------------------------------------
// Proportional words
// ---------------------------------------------------------------------------

/// Tokenizer state of a CJK word split after each sentence terminator: the
/// completed parts and the part still open.
pub open spec fn cjk_state(w: Seq<char>) -> (Seq<Seq<char>>, Seq<char>)
    decreases w.len(),
{
    if w.len() == 0 {
        (Seq::empty(), Seq::empty())
    } else {
        let (parts, cur) = cjk_state(w.drop_last());
        let c = w.last();
        if terminator_char(c) {
            (parts.push(cur.push(c)), Seq::empty())
        } else {
            (parts, cur.push(c))
        }
    }
}

/// A CJK word's sentence parts: each ends at a terminator (kept with its
/// sentence); a terminator-less tail is the final part.
pub open spec fn cjk_parts(w: Seq<char>) -> Seq<Seq<char>> {
    let (parts, cur) = cjk_state(w);
    if cur.len() > 0 {
        parts.push(cur)
    } else {
        parts
    }
}

/// The piece spanning characters [consumed, consumed + part.len()) of a
/// `total`-character word laid over [start, end].
pub open spec fn cjk_piece(
    part: Seq<char>,
    consumed: int,
    total: int,
    start: int,
    end: int,
    row: int,
) -> WordView {
    let span = end - start;
    let s = start + (span * consumed) / total;
    let e = start + (span * (consumed + part.len())) / total;
    WordView { text: part, start_ms: s, end_ms: if e >= s { e } else { s }, source_row: row }
}

/// The pieces of the first `k` parts, with the characters they consumed.
pub open spec fn cjk_pieces_upto(
    parts: Seq<Seq<char>>,
    k: int,
    total: int,
    start: int,
    end: int,
    row: int,
) -> (Seq<WordView>, int)
    decreases k,
{
    if k <= 0 {
        (Seq::empty(), 0)
    } else {
        let (prev, consumed) = cjk_pieces_upto(parts, k - 1, total, start, end, row);
        let p = parts[k - 1];
        (prev.push(cjk_piece(p, consumed, total, start, end, row)), consumed + p.len())
    }
}

/// A CJK whitespace word split at its sentence terminators into sub-words
/// with char-proportional spans.
pub open spec fn split_cjk_word(w: Seq<char>, start: int, end: int, row: int) -> Seq<WordView> {
    let parts = cjk_parts(w);
    if w.len() == 0 {
        Seq::empty()
    } else {
        cjk_pieces_upto(parts, parts.len() as int, w.len() as int, start, end, row).0
    }
}

proof fn lemma_cjk_state_len(w: Seq<char>)
    ensures
        ({
            let (parts, cur) = cjk_state(w);
            parts_len(parts, parts.len() as int) + cur.len() == w.len()
        }),
    decreases w.len(),
{
    if w.len() > 0 {
        lemma_cjk_state_len(w.drop_last());
        let (parts, cur) = cjk_state(w.drop_last());
        let c = w.last();
        if terminator_char(c) {
            let np = parts.push(cur.push(c));
            lemma_parts_len_prefix(np, parts, parts.len() as int);
        }
    }
}

/// Total length of the first `k` parts.
pub open spec fn parts_len(parts: Seq<Seq<char>>, k: int) -> int
    decreases k,
{
    if k <= 0 {
        0
    } else {
        parts_len(parts, k - 1) + parts[k - 1].len()
    }
}

proof fn lemma_parts_len_prefix(a: Seq<Seq<char>>, b: Seq<Seq<char>>, k: int)
    requires
        0 <= k <= b.len(),
        k <= a.len(),
        forall|i: int| 0 <= i < k ==> a[i] == b[i],
    ensures
        parts_len(a, k) == parts_len(b, k),
    decreases k,
{
    if k > 0 {
        lemma_parts_len_prefix(a, b, k - 1);
    }
}

proof fn lemma_cjk_parts_len(w: Seq<char>)
    ensures
        parts_len(cjk_parts(w), cjk_parts(w).len() as int) == w.len(),
{
    lemma_cjk_state_len(w);
    let (parts, cur) = cjk_state(w);
    if cur.len() > 0 {
        lemma_parts_len_prefix(parts.push(cur), parts, parts.len() as int);
    }
}

proof fn lemma_cjk_consumed(parts: Seq<Seq<char>>, k: int, total: int, start: int, end: int, row: int)
    requires
        0 <= k <= parts.len(),
    ensures
        cjk_pieces_upto(parts, k, total, start, end, row).1 == parts_len(parts, k),
        cjk_pieces_upto(parts, k, total, start, end, row).0.len() == k,
    decreases k,
{
    if k > 0 {
        lemma_cjk_consumed(parts, k - 1, total, start, end, row);
    }
}

proof fn lemma_parts_len_mono(parts: Seq<Seq<char>>, k: int, m: int)
    requires
        0 <= k <= m <= parts.len(),
    ensures
        parts_len(parts, k) <= parts_len(parts, m),
    decreases m - k,
{
    if k < m {
        lemma_parts_len_mono(parts, k, m - 1);
    }
}

/// Computes the CJK parts of a word.
fn cjk_split_parts(w: &[char]) -> (r: Vec<Vec<char>>)
    ensures
        char_seqs(r@) == cjk_parts(w@),
{
    let mut parts: Vec<Vec<char>> = Vec::new();
    let mut cur: Vec<char> = Vec::new();
    let mut i: usize = 0;
    while i < w.len()
        invariant
            i <= w.len(),
            (char_seqs(parts@), cur@) == cjk_state(w@.subrange(0, i as int)),
        decreases w.len() - i,
    {
        let c = w[i];
        assert(w@.subrange(0, i + 1).drop_last() =~= w@.subrange(0, i as int));
        assert(w@.subrange(0, i + 1).last() == c);
        cur.push(c);
        if is_sentence_terminator(c) {
            let part = cur;
            proof {
                lemma_char_seqs_push(parts@, part);
            }
            parts.push(part);
            cur = Vec::new();
        }
        i += 1;
        assert(cur@ =~= cjk_state(w@.subrange(0, i as int)).1);
    }
    assert(w@.subrange(0, w.len() as int) =~= w@);
    if cur.len() > 0 {
        proof {
            lemma_char_seqs_push(parts@, cur);
        }
        parts.push(cur);
    }
    parts
}

/// `start + (span * a) / total` for 0 <= a <= total, span >= 0.
fn proportional_point(start: i64, span: i128, a: i128, total: i128) -> (r: i64)
    requires
        0 <= span,
        start + span <= i64::MAX,
        0 <= a <= total,
        total > 0,
        span <= u64::MAX,
        total <= u64::MAX,
    ensures
        r == start + (span * a) / (total as int),
        start <= r <= start + span,
{
    proof {
        lemma_prop_bounds(span as int, a as int, total as int);
    }
    let p: u128 = (span as u128) * (a as u128);
    let q: u128 = p / (total as u128);
    (start as i128 + q as i128) as i64
}

proof fn lemma_prop_bounds(span: int, a: int, total: int)
    requires
        0 <= span,
        0 <= a <= total,
        total > 0,
        span <= u64::MAX,
        total <= u64::MAX,
    ensures
        0 <= span * a <= span * total,
        span * total <= u64::MAX * u64::MAX,
        0 <= (span * a) / total <= span,
{
    assert(0 <= span * a <= span * total) by (nonlinear_arith)
        requires
            0 <= span,
            0 <= a <= total,
    ;
    assert(span * total <= u64::MAX * u64::MAX) by (nonlinear_arith)
        requires
            0 <= span <= u64::MAX,
            0 <= total <= u64::MAX,
    ;
    assert((span * a) / total <= span) by (nonlinear_arith)
        requires
            0 <= span * a <= span * total,
            total > 0,
    ;
    assert(0 <= (span * a) / total) by (nonlinear_arith)
        requires
            0 <= span * a,
            total > 0,
    ;
}

/// Split one CJK whitespace word at internal sentence terminators.
fn split_cjk_word_at_terminators(word: &[char], start: i64, end: i64, row_idx: usize) -> (r: Vec<
    UnitWord,
>)
    requires
        start <= end,
    ensures
        word_views(r@) == split_cjk_word(word@, start as int, end as int, row_idx as int),
{
    if word.len() == 0 {
        return Vec::new();
    }
    let parts = cjk_split_parts(word);
    let ghost ps = char_seqs(parts@);
    proof {
        lemma_cjk_parts_len(word@);
    }
    let total: usize = word.len();
    let span: i128 = (end as i128) - (start as i128);
    let mut out: Vec<UnitWord> = Vec::new();
    let mut consumed: usize = 0;
    let mut k: usize = 0;
    while k < parts.len()
        invariant
            k <= parts.len(),
            ps == char_seqs(parts@),
            ps == cjk_parts(word@),
            parts_len(ps, ps.len() as int) == total,
            total == word@.len(),
            total > 0,
            span == end - start,
            start <= end,
            consumed == parts_len(ps, k as int),
            (word_views(out@), consumed as int) == cjk_pieces_upto(
                ps,
                k as int,
                total as int,
                start as int,
                end as int,
                row_idx as int,
            ),
        decreases parts.len() - k,
    {
        let len = parts[k].len();
        assert(ps[k as int] == parts@[k as int]@);
        proof {
            lemma_parts_len_mono(ps, k + 1, ps.len() as int);
        }
        assert(consumed + len <= total);
        let s = proportional_point(start, span, consumed as i128, total as i128);
        let e0 = proportional_point(start, span, (consumed + len) as i128, total as i128);
        let e = if e0 >= s {
            e0
        } else {
            s
        };
        let mut text: Vec<char> = Vec::new();
        push_all(&mut text, &parts[k]);
        let w = UnitWord { text, start_ms: s, end_ms: e, source_row: row_idx };
        proof {
            lemma_word_views_push(out@, w);
        }
        out.push(w);
        consumed = consumed + len;
        k += 1;
    }
    out
}

/// Whitespace words of a row that are not EOT sentinels.
pub open spec fn row_texts(t: TranscriptView) -> Seq<Seq<char>> {
    split_ws(t.text).filter(|w: Seq<char>| !is_eot_marker(w))
}

/// The sub-words of the k-th (of n) whitespace word over the row's span.
pub open spec fn proportional_piece(t: TranscriptView, w: Seq<char>, k: int, n: int, row: int) -> Seq<
    WordView,
> {
    let span = if t.audio_end_ms - t.audio_start_ms >= 0 {
        t.audio_end_ms - t.audio_start_ms
    } else {
        0
    };
    let start = t.audio_start_ms + (span * k) / n;
    let e = t.audio_start_ms + (span * (k + 1)) / n;
    let end = if e >= start {
        e
    } else {
        start
    };
    if has_cjk_char(w) {
        split_cjk_word(w, start, end, row)
    } else {
        seq![WordView { text: w, start_ms: start, end_ms: end, source_row: row }]
    }
}

pub open spec fn proportional_upto(t: TranscriptView, texts: Seq<Seq<char>>, k: int, row: int) -> Seq<
    WordView,
>
    decreases k,
{
    if k <= 0 {
        Seq::empty()
    } else {
        proportional_upto(t, texts, k - 1, row) + proportional_piece(
            t,
            texts[k - 1],
            k - 1,
            texts.len() as int,
            row,
        )
    }
}

/// Even proportional share of the row's span per whitespace word (EOT
/// sentinels are not words); zero or negative spans yield point words; a CJK
/// word is split at its internal sentence terminators.
pub open spec fn proportional_words_of(t: TranscriptView, row: int) -> Seq<WordView> {
    let texts = row_texts(t);
    proportional_upto(t, texts, texts.len() as int, row)
}

fn proportional_words(t: &TranscriptInput, row_idx: usize) -> (r: Vec<UnitWord>)
    ensures
        word_views(r@) == proportional_words_of(t@, row_idx as int),
{
    let text_chars = chars_of(t.text.as_str());
    let all = split_whitespace(&text_chars);
    let ghost allv = char_seqs(all@);
    let mut texts: Vec<Vec<char>> = Vec::new();
    let mut k: usize = 0;
    while k < all.len()
        invariant
            k <= all.len(),
            allv == char_seqs(all@),
            allv == split_ws(t@.text),
            char_seqs(texts@) == allv.subrange(0, k as int).filter(
                |w: Seq<char>| !is_eot_marker(w),
            ),
            texts@.len() <= k,
        decreases all.len() - k,
    {
        assert(allv.subrange(0, k + 1) =~= allv.subrange(0, k as int).push(allv[k as int]));
        assert(allv[k as int] == all@[k as int]@);
        proof {
            allv.subrange(0, k as int).lemma_filter_push(
                allv[k as int],
                |w: Seq<char>| !is_eot_marker(w),
            );
        }
        if !eot_marker(&all[k]) {
            let mut w: Vec<char> = Vec::new();
            push_all(&mut w, &all[k]);
            proof {
                lemma_char_seqs_push(texts@, w);
            }
            texts.push(w);
        }
        k += 1;
    }
    assert(allv.subrange(0, all.len() as int) =~= allv);
    let ghost tv = char_seqs(texts@);
    assert(tv == row_texts(t@));
    let mut out: Vec<UnitWord> = Vec::new();
    if texts.len() == 0 {
        return out;
    }
    let n: usize = texts.len();
    let diff: i128 = (t.audio_end_ms as i128) - (t.audio_start_ms as i128);
    let span: i128 = if diff >= 0 {
        diff
    } else {
        0
    };
    let mut j: usize = 0;
    while j < n
        invariant
            j <= n,
            n == texts@.len(),
            n > 0,
            tv == char_seqs(texts@),
            tv == row_texts(t@),
            span == (if t@.audio_end_ms - t@.audio_start_ms >= 0 {
                t@.audio_end_ms - t@.audio_start_ms
            } else {
                0
            }),
            word_views(out@) == proportional_upto(t@, tv, j as int, row_idx as int),
        decreases n - j,
    {
        assert(tv[j as int] == texts@[j as int]@);
        let start = proportional_point(t.audio_start_ms, span, j as i128, n as i128);
        let e = proportional_point(t.audio_start_ms, span, (j + 1) as i128, n as i128);
        let end = if e >= start {
            e
        } else {
            start
        };
        let ghost before = word_views(out@);
        if contains_cjk(&texts[j]) {
            let mut pieces = split_cjk_word_at_terminators(&texts[j], start, end, row_idx);
            let ghost pv = word_views(pieces@);
            out.append(&mut pieces);
            assert(word_views(out@) =~= before + pv);
        } else {
            let mut text: Vec<char> = Vec::new();
            push_all(&mut text, &texts[j]);
            let w = UnitWord { text, start_ms: start, end_ms: end, source_row: row_idx };
            proof {
                lemma_word_views_push(out@, w);
            }
            out.push(w);
            assert(seq![w@] + Seq::<WordView>::empty() =~= seq![w@]);
            assert(before.push(w@) =~= before + seq![w@]);
        }
        j += 1;
    }
    out
}

// ---------------------------------------------------------------------------
// Logical units
// ---------------------------------------------------------------------------

/// A row's words and whether their spans are real token times.
pub open spec fn row_words(t: TranscriptView, row: int) -> (Seq<WordView>, bool) {
    match token_words_of(t, row) {
        Some(w) => (w, true),
        None => (proportional_words_of(t, row), false),
    }
}

/// Units built from the first `k` rows, and whether the next row starts a
/// fresh unit (nothing open, or the open unit's last word ended a sentence).
pub open spec fn units_upto(ts: Seq<TranscriptView>, k: int) -> (Seq<(Seq<WordView>, bool)>, bool)
    decreases k,
{
    if k <= 0 {
        (Seq::empty(), true)
    } else {
        let (units, open_ends) = units_upto(ts, k - 1);
        let (words, spans_real) = row_words(ts[k - 1], k - 1);
        if words.len() == 0 {
            (units, open_ends)
        } else {
            let unit_real = spans_real && (open_ends || units.len() == 0 || units.last().1);
            let units2 = if open_ends || units.len() == 0 {
                units.push((words, unit_real))
            } else {
                units.update(units.len() - 1, (units.last().0 + words, unit_real))
            };
            (units2, ends_sentence(units2.last().0.last().text))
        }
    }
}

/// Rows rejoined into logical units: a row whose predecessor's last word
/// did not end a sentence continues its unit. A unit's spans are spans_real only
/// when every member row passed the token-timestamp clamp.
pub open spec fn logical_units(ts: Seq<TranscriptView>) -> Seq<(Seq<WordView>, bool)> {
    units_upto(ts, ts.len() as int).0
}

pub open spec fn unit_views(us: Seq<(Vec<UnitWord>, bool)>) -> Seq<(Seq<WordView>, bool)> {
    us.map_values(|u: (Vec<UnitWord>, bool)| (word_views(u.0@), u.1))
}

/// Every unit is non-empty and its words cite rows below `n`.
pub open spec fn units_well_formed(us: Seq<(Seq<WordView>, bool)>, n: int) -> bool {
    forall|u: int|
        0 <= u < us.len() ==> (#[trigger] us[u]).0.len() > 0 && forall|j: int|
            0 <= j < us[u].0.len() ==> 0 <= (#[trigger] us[u].0[j]).source_row < n
}

proof fn lemma_row_words_rows(t: TranscriptView, row: int)
    ensures
        forall|j: int|
            0 <= j < row_words(t, row).0.len() ==> (#[trigger] row_words(t, row).0[j]).source_row
                == row,
{
    let texts = row_texts(t);
    lemma_proportional_rows(t, texts, texts.len() as int, row);
}

proof fn lemma_cjk_rows(parts: Seq<Seq<char>>, k: int, total: int, start: int, end: int, row: int)
    ensures
        forall|j: int|
            0 <= j < cjk_pieces_upto(parts, k, total, start, end, row).0.len() ==> (
            #[trigger] cjk_pieces_upto(parts, k, total, start, end, row).0[j]).source_row == row,
    decreases k,
{
    if k > 0 {
        lemma_cjk_rows(parts, k - 1, total, start, end, row);
        let (prev, consumed) = cjk_pieces_upto(parts, k - 1, total, start, end, row);
        let cur = cjk_pieces_upto(parts, k, total, start, end, row).0;
        assert forall|j: int| 0 <= j < cur.len() implies (#[trigger] cur[j]).source_row == row by {
            if j < prev.len() {
                assert(cur[j] == prev[j]);
            }
        }
    }
}

proof fn lemma_proportional_rows(t: TranscriptView, texts: Seq<Seq<char>>, k: int, row: int)
    ensures
        forall|j: int|
            0 <= j < proportional_upto(t, texts, k, row).len() ==> (#[trigger] proportional_upto(
                t,
                texts,
                k,
                row,
            )[j]).source_row == row,
    decreases k,
{
    if k > 0 {
        lemma_proportional_rows(t, texts, k - 1, row);
        let w = texts[k - 1];
        let n = texts.len() as int;
        let span = if t.audio_end_ms - t.audio_start_ms >= 0 {
            t.audio_end_ms - t.audio_start_ms
        } else {
            0
        };
        let start = t.audio_start_ms + (span * (k - 1)) / n;
        let e = t.audio_start_ms + (span * k) / n;
        let end = if e >= start {
            e
        } else {
            start
        };
        let parts = cjk_parts(w);
        lemma_cjk_rows(parts, parts.len() as int, w.len() as int, start, end, row);
        let prev = proportional_upto(t, texts, k - 1, row);
        let piece = proportional_piece(t, w, k - 1, n, row);
        let cur = proportional_upto(t, texts, k, row);
        assert(cur == prev + piece);
        assert forall|j: int| 0 <= j < piece.len() implies (#[trigger] piece[j]).source_row
            == row by {
            if has_cjk_char(w) {
                if w.len() > 0 {
                    assert(piece == cjk_pieces_upto(
                        parts,
                        parts.len() as int,
                        w.len() as int,
                        start,
                        end,
                        row,
                    ).0);
                }
            }
        }
        assert forall|j: int| 0 <= j < cur.len() implies (#[trigger] cur[j]).source_row == row by {
            if j < prev.len() {
                assert(cur[j] == prev[j]);
            } else {
                assert(cur[j] == piece[j - prev.len()]);
            }
        }
    }
}

/// Rejoin adjacent rows whose predecessor lacks sentence-terminal
/// punctuation into logical units, then give every unit's words spans.
#[verifier::spinoff_prover]
pub fn build_logical_units(transcripts: &[TranscriptInput]) -> (r: Vec<(Vec<UnitWord>, bool)>)
    ensures
        unit_views(r@) == logical_units(transcript_views(transcripts@)),
        units_well_formed(unit_views(r@), transcripts@.len() as int),
{
    let ghost ts = transcript_views(transcripts@);
    let mut units: Vec<(Vec<UnitWord>, bool)> = Vec::new();
    let mut open_ends = true;
    let mut i: usize = 0;
    while i < transcripts.len()
        invariant
            i <= transcripts.len(),
            ts == transcript_views(transcripts@),
            (unit_views(units@), open_ends) == units_upto(ts, i as int),
            units_well_formed(unit_views(units@), i as int),
        decreases transcripts.len() - i,
    {
        assert(ts[i as int] == transcripts@[i as int]@);
        let (words, spans_real) = match valid_token_words(&transcripts[i], i) {
            Some(w) => (w, true),
            None => (proportional_words(&transcripts[i], i), false),
        };
        assert((word_views(words@), spans_real) == row_words(ts[i as int], i as int));
        proof {
            lemma_row_words_rows(ts[i as int], i as int);
        }
        if words.len() > 0 {
            let ends = word_ends_sentence(&words[words.len() - 1].text);
            assert(word_views(words@).last() == words@[words.len() - 1]@);
            let ghost uv = unit_views(units@);
            let nu = units.len();
            if open_ends || nu == 0 {
                let unit_real = spans_real;
                let ghost wv = word_views(words@);
                units.push((words, unit_real));
                assert(unit_views(units@) =~= uv.push((wv, unit_real)));
            } else {
                let (mut last_words, last_real) = units.pop().unwrap();
                assert(uv.last() == (word_views(last_words@), last_real));
                let unit_real = spans_real && last_real;
                let ghost lw = word_views(last_words@);
                let ghost wv = word_views(words@);
                let mut ws = words;
                last_words.append(&mut ws);
                assert(word_views(last_words@) =~= lw + wv);
                units.push((last_words, unit_real));
                assert(unit_views(units@) =~= uv.update(uv.len() - 1, (lw + wv, unit_real)));
            }
            open_ends = ends;
            assert(unit_views(units@).last().0.last() == word_views(words@).last()) by {
                let l = unit_views(units@).last().0;
                assert(l.len() > 0);
            }
        }
        i += 1;
    }
    units
}

// ---------------------------------------------------------------------------
// Sentence atoms
// ---------------------------------------------------------------------------

/// Some word in [a, b) holds an alphanumeric character.
pub open spec fn any_alnum_words(ws: Seq<WordView>, a: int, b: int) -> bool {
    exists|j: int| a <= j < b && has_alphanumeric(#[trigger] ws[j].text)
}

/// Atom ranges closed among the first `i` words, and where the open atom
/// starts.
pub open spec fn atom_state(ws: Seq<WordView>, i: int) -> (Seq<(int, int)>, int)
    decreases i,
{
    if i <= 0 {
        (Seq::empty(), 0)
    } else {
        let (rs, st) = atom_state(ws, i - 1);
        if ends_sentence(ws[i - 1].text) {
            (
                if any_alnum_words(ws, st, i) {
                    rs.push((st, i))
                } else {
                    rs
                },
                i,
            )
        } else {
            (rs, st)
        }
    }
}

/// A unit's words split into sentence-atom ranges at sentence-final
/// punctuation; atoms with no alphanumeric character are dropped.
pub open spec fn atom_ranges(ws: Seq<WordView>) -> Seq<(int, int)> {
    let (rs, st) = atom_state(ws, ws.len() as int);
    if st < ws.len() && any_alnum_words(ws, st, ws.len() as int) {
        rs.push((st, ws.len() as int))
    } else {
        rs
    }
}

pub open spec fn range_views(rs: Seq<(usize, usize)>) -> Seq<(int, int)> {
    rs.map_values(|r: (usize, usize)| (r.0 as int, r.1 as int))
}

proof fn lemma_atom_state_bounds(ws: Seq<WordView>, i: int)
    requires
        0 <= i <= ws.len(),
    ensures
        0 <= atom_state(ws, i).1 <= i,
        forall|k: int|
            0 <= k < atom_state(ws, i).0.len() ==> 0 <= (#[trigger] atom_state(ws, i).0[k]).0
                < atom_state(ws, i).0[k].1 <= atom_state(ws, i).1,
    decreases i,
{
    if i > 0 {
        lemma_atom_state_bounds(ws, i - 1);
        let (rs, st) = atom_state(ws, i - 1);
        if ends_sentence(ws[i - 1].text) && any_alnum_words(ws, st, i) {
            let nrs = rs.push((st, i));
            assert forall|k: int| 0 <= k < nrs.len() implies 0 <= (#[trigger] nrs[k]).0 < nrs[k].1
                <= i by {
                if k < rs.len() {
                    assert(nrs[k] == rs[k]);
                }
            }
        }
    }
}

fn words_have_alnum(words: &[UnitWord], a: usize, b: usize) -> (r: bool)
    requires
        a <= b <= words@.len(),
    ensures
        r == any_alnum_words(word_views(words@), a as int, b as int),
{
    let ghost wv = word_views(words@);
    let mut j = a;
    while j < b
        invariant
            a <= j <= b,
            b <= words@.len(),
            wv == word_views(words@),
            forall|m: int| a <= m < j ==> !has_alphanumeric(#[trigger] wv[m].text),
        decreases b - j,
    {
        assert(wv[j as int] == words@[j as int]@);
        if any_alphanumeric(&words[j].text) {
            assert(has_alphanumeric(wv[j as int].text));
            return true;
        }
        j += 1;
    }
    false
}

/// Split a unit's words into sentence-atom word ranges at sentence-final
/// punctuation. Atoms with no alphanumeric character are dropped.
pub fn sentence_atom_ranges(words: &[UnitWord]) -> (r: Vec<(usize, usize)>)
    ensures
        range_views(r@) == atom_ranges(word_views(words@)),
{
    let ghost wv = word_views(words@);
    let mut ranges: Vec<(usize, usize)> = Vec::new();
    let mut start: usize = 0;
    let mut i: usize = 0;
    while i < words.len()
        invariant
            i <= words@.len(),
            wv == word_views(words@),
            (range_views(ranges@), start as int) == atom_state(wv, i as int),
        decreases words.len() - i,
    {
        proof {
            lemma_atom_state_bounds(wv, i as int);
        }
        assert(wv[i as int] == words@[i as int]@);
        if word_ends_sentence(&words[i].text) {
            if words_have_alnum(words, start, i + 1) {
                let ghost rv = range_views(ranges@);
                ranges.push((start, i + 1));
                assert(range_views(ranges@) =~= rv.push((start as int, i + 1)));
            }
            start = i + 1;
        }
        i += 1;
    }
    proof {
        lemma_atom_state_bounds(wv, i as int);
    }
    if start < words.len() && words_have_alnum(words, start, words.len()) {
        let ghost rv = range_views(ranges@);
        ranges.push((start, words.len()));
        assert(range_views(ranges@) =~= rv.push((start as int, words@.len() as int)));
    }
    ranges
}

// ---------------------------------------------------------------------------
// Majority assignment
// ---------------------------------------------------------------------------

pub open spec fn span_overlap(start: int, end: int, seg: DiarizationSegment) -> int {
    let hi = if end <= seg.end_ms {
        end
    } else {
        seg.end_ms as int
    };
    let lo = if start >= seg.start_ms {
        start
    } else {
        seg.start_ms as int
    };
    if hi - lo > 0 {
        hi - lo
    } else {
        0
    }
}

/// Integer halving rounded toward zero (Rust's `/ 2`).
pub open spec fn half_toward_zero(x: int) -> int {
    if x >= 0 {
        x / 2
    } else {
        -((-x) / 2)
    }
}

/// Distance from `mid` to the nearest edge of a segment; 0 when contained.
pub open spec fn edge_distance(mid: int, seg: DiarizationSegment) -> int {
    if mid >= seg.start_ms && mid < seg.end_ms {
        0
    } else if mid < seg.start_ms {
        seg.start_ms - mid
    } else {
        mid - seg.end_ms
    }
}

/// Per speaker, over the first `k` segments: total overlap with
/// [start, end), minimum edge distance from the span's midpoint (starting
/// from `i64::MAX`), index of the first overlapping segment, and whether any
/// segment of that speaker overlaps.
pub open spec fn speaker_agg(
    start: int,
    end: int,
    segs: Seq<DiarizationSegment>,
    sp: u32,
    k: int,
) -> (int, int, int, bool)
    decreases k,
{
    if k <= 0 {
        (0, i64::MAX as int, 0, false)
    } else {
        let prev = speaker_agg(start, end, segs, sp, k - 1);
        let seg = segs[k - 1];
        let o = span_overlap(start, end, seg);
        if seg.speaker_id == sp && o != 0 {
            let d = edge_distance(half_toward_zero(start + end), seg);
            (
                prev.0 + o,
                if d < prev.1 {
                    d
                } else {
                    prev.1
                },
                if prev.3 {
                    prev.2
                } else {
                    k - 1
                },
                true,
            )
        } else {
            prev
        }
    }
}

/// Scoring order: more overlap, then smaller edge distance, then earlier
/// first turn.
pub open spec fn agg_below(x: (int, int, int, bool), y: (int, int, int, bool)) -> bool {
    ||| x.0 < y.0
    ||| (x.0 == y.0 && x.1 > y.1)
    ||| (x.0 == y.0 && x.1 == y.1 && x.2 > y.2)
}

/// `sp` overlaps the span and outscores every other overlapping speaker.
pub open spec fn is_top_speaker(start: int, end: int, segs: Seq<DiarizationSegment>, sp: u32) -> bool {
    let ghost n = segs.len() as int;
    &&& speaker_agg(start, end, segs, sp, n).3
    &&& forall|sp2: u32|
        #![trigger speaker_agg(start, end, segs, sp2, n)]
        speaker_agg(start, end, segs, sp2, n).3 && sp2 != sp ==> agg_below(
            speaker_agg(start, end, segs, sp2, n),
            speaker_agg(start, end, segs, sp, n),
        )
}

/// The previous atom's speaker keeps a near tie: it overlaps and no speaker
/// beats its total overlap by more than `NEAR_TIE_MS`.
pub open spec fn keeps_near_tie(start: int, end: int, segs: Seq<DiarizationSegment>, p: u32) -> bool {
    let ghost n = segs.len() as int;
    &&& speaker_agg(start, end, segs, p, n).3
    &&& forall|sp2: u32|
        #![trigger speaker_agg(start, end, segs, sp2, n)]
        speaker_agg(start, end, segs, sp2, n).3 ==> speaker_agg(start, end, segs, sp2, n).0
            <= speaker_agg(start, end, segs, p, n).0 + NEAR_TIE_MS
}

/// Majority-span badge for a word range: maximize total overlap with each
/// speaker's turns; tiebreak by edge distance from the range's midpoint, then
/// by turn order; a near tie keeps the previous atom's speaker. None when no
/// turn overlaps the range.
pub open spec fn majority_speaker(ws: Seq<WordView>, segs: Seq<DiarizationSegment>, prev: Option<
    u32,
>) -> Option<u32> {
    if ws.len() == 0 {
        None
    } else {
        let start = ws[0].start_ms;
        let end = ws.last().end_ms;
        let n = segs.len() as int;
        if !(exists|sp: u32| #[trigger] speaker_agg(start, end, segs, sp, n).3) {
            None
        } else if prev is Some && keeps_near_tie(start, end, segs, prev->0) {
            prev
        } else {
            Some(choose|sp: u32| is_top_speaker(start, end, segs, sp))
        }
    }
}

proof fn lemma_agg_idx(start: int, end: int, segs: Seq<DiarizationSegment>, sp: u32, k: int)
    requires
        0 <= k <= segs.len(),
    ensures
        !speaker_agg(start, end, segs, sp, k).3 ==> speaker_agg(start, end, segs, sp, k) == (
            0int,
            i64::MAX as int,
            0int,
            false,
        ),
        speaker_agg(start, end, segs, sp, k).3 ==> {
            let i = speaker_agg(start, end, segs, sp, k).2;
            0 <= i < k && segs[i].speaker_id == sp
        },
        0 <= speaker_agg(start, end, segs, sp, k).1 <= i64::MAX,
        0 <= speaker_agg(start, end, segs, sp, k).0,
    decreases k,
{
    if k > 0 {
        lemma_agg_idx(start, end, segs, sp, k - 1);
    }
}

proof fn lemma_top_unique(start: int, end: int, segs: Seq<DiarizationSegment>, a: u32, b: u32)
    requires
        is_top_speaker(start, end, segs, a),
        is_top_speaker(start, end, segs, b),
    ensures
        a == b,
{
    let ghost n = segs.len() as int;
    if a != b {
        let x = speaker_agg(start, end, segs, a, n);
        let y = speaker_agg(start, end, segs, b, n);
        assert(agg_below(x, y));
        assert(agg_below(y, x));
    }
}

type AggEntry = (u32, u128, i128, usize);

spec fn entry_matches(
    e: (u32, u128, i128, usize),
    start: int,
    end: int,
    segs: Seq<DiarizationSegment>,
    k: int,
) -> bool {
    speaker_agg(start, end, segs, e.0, k) == (e.1 as int, e.2 as int, e.3 as int, true)
}

const OVERLAP_BOUND: u128 = 0x1_0000_0000_0000_0000;

/// The entries hold exactly the overlapping speakers' aggregates after `k`
/// segments, one entry per speaker.
spec fn entries_ok(
    entries: Seq<(u32, u128, i128, usize)>,
    start: int,
    end: int,
    segs: Seq<DiarizationSegment>,
    k: int,
) -> bool {
    &&& forall|j: int|
        0 <= j < entries.len() ==> entry_matches(#[trigger] entries[j], start, end, segs, k)
    &&& forall|j: int| 0 <= j < entries.len() ==> (#[trigger] entries[j]).1 <= k * OVERLAP_BOUND
    &&& forall|j1: int, j2: int|
        0 <= j1 < j2 < entries.len() ==> (#[trigger] entries[j1]).0 != (#[trigger] entries[j2]).0
    &&& forall|sp: u32| #[trigger] speaker_agg(start, end, segs, sp, k).3 ==> exists|j: int|
        0 <= j < entries.len() && (#[trigger] entries[j]).0 == sp
}

fn overlap_ms(start: i64, end: i64, seg: &DiarizationSegment) -> (r: i128)
    ensures
        r == span_overlap(start as int, end as int, *seg),
        0 <= r < OVERLAP_BOUND,
{
    let hi: i128 = if end <= seg.end_ms {
        end as i128
    } else {
        seg.end_ms as i128
    };
    let lo: i128 = if start >= seg.start_ms {
        start as i128
    } else {
        seg.start_ms as i128
    };
    if hi - lo > 0 {
        hi - lo
    } else {
        0
    }
}

fn half_toward_zero_i128(x: i128) -> (r: i128)
    requires
        -0x1_0000_0000_0000_0000_0000 <= x <= 0x1_0000_0000_0000_0000_0000,
    ensures
        r == half_toward_zero(x as int),
{
    if x >= 0 {
        x / 2
    } else {
        -((-x) / 2)
    }
}

fn edge_distance_i128(mid: i128, seg: &DiarizationSegment) -> (r: i128)
    requires
        i64::MIN <= mid <= i64::MAX,
    ensures
        r == edge_distance(mid as int, *seg),
{
    if mid >= seg.start_ms as i128 && mid < seg.end_ms as i128 {
        0
    } else if mid < seg.start_ms as i128 {
        seg.start_ms as i128 - mid
    } else {
        mid - seg.end_ms as i128
    }
}

fn entry_below(x: &AggEntry, y: &AggEntry) -> (r: bool)
    ensures
        r == agg_below(
            (x.1 as int, x.2 as int, x.3 as int, true),
            (y.1 as int, y.2 as int, y.3 as int, true),
        ),
{
    x.1 < y.1 || (x.1 == y.1 && x.2 > y.2) || (x.1 == y.1 && x.2 == y.2 && x.3 > y.3)
}

/// The majority speaker of the atom `words[a..b]`.
fn majority_turn(
    words: &[UnitWord],
    a: usize,
    b: usize,
    diarization: &[DiarizationSegment],
    previous: Option<u32>,
) -> (r: Option<u32>)
    requires
        a < b <= words@.len(),
    ensures
        r == majority_speaker(word_views(words@).subrange(a as int, b as int), diarization@, previous),
{
    let ghost ws = word_views(words@).subrange(a as int, b as int);
    let ghost segs = diarization@;
    let start = words[a].start_ms;
    let end = words[b - 1].end_ms;
    assert(ws[0] == words@[a as int]@ && ws.last() == words@[b - 1]@);
    let ghost (gs, ge) = (start as int, end as int);
    let mid = half_toward_zero_i128(start as i128 + end as i128);
    assert(i64::MIN <= mid <= i64::MAX);
    let mut entries: Vec<AggEntry> = Vec::new();
    let mut k: usize = 0;
    while k < diarization.len()
        invariant
            k <= diarization@.len(),
            segs == diarization@,
            gs == start && ge == end,
            mid == half_toward_zero(gs + ge),
            i64::MIN <= mid <= i64::MAX,
            entries_ok(entries@, gs, ge, segs, k as int),
        decreases diarization.len() - k,
    {
        let seg = &diarization[k];
        let o = overlap_ms(start, end, seg);
        let sp = seg.speaker_id;
        let mut found: usize = 0;
        while found < entries.len() && entries[found].0 != sp
            invariant
                found <= entries@.len(),
                forall|m: int| 0 <= m < found ==> (#[trigger] entries@[m]).0 != sp,
            decreases entries.len() - found,
        {
            found += 1;
        }
        let ghost old_entries = entries@;
        assert(segs[k as int] == *seg);
        proof {
            assert forall|sp2: u32| sp2 != sp implies #[trigger] speaker_agg(gs, ge, segs, sp2, k + 1)
                == speaker_agg(gs, ge, segs, sp2, k as int) by {}
            assert forall|j: int| 0 <= j < entries@.len() && (#[trigger] entries@[j]).0 != sp
                implies entry_matches(entries@[j], gs, ge, segs, k + 1) by {
                assert(speaker_agg(gs, ge, segs, entries@[j].0, k + 1) == speaker_agg(
                    gs,
                    ge,
                    segs,
                    entries@[j].0,
                    k as int,
                ));
            }
        }
        if o != 0 {
            let d = edge_distance_i128(mid, seg);
            if found < entries.len() {
                let e = entries[found];
                assert(entry_matches(e, gs, ge, segs, k as int));
                let nd = if d < e.2 {
                    d
                } else {
                    e.2
                };
                let ne: AggEntry = (sp, e.1 + o as u128, nd, e.3);
                entries.set(found, ne);
                assert(entry_matches(ne, gs, ge, segs, k + 1));
            } else {
                proof {
                    if speaker_agg(gs, ge, segs, sp, k as int).3 {
                        let jj = choose|jj: int| 0 <= jj < entries@.len() && (#[trigger] entries@[jj]).0 == sp;
                        assert(entries@[jj].0 == sp);
                    }
                    lemma_agg_idx(gs, ge, segs, sp, k as int);
                }
                let ne: AggEntry = (sp, o as u128, if d < i64::MAX as i128 {
                    d
                } else {
                    i64::MAX as i128
                }, k);
                entries.push(ne);
                assert(entry_matches(ne, gs, ge, segs, k + 1));
            }
        } else {
            proof {
                assert(speaker_agg(gs, ge, segs, sp, k + 1) == speaker_agg(gs, ge, segs, sp, k as int));
                if found < entries.len() {
                    assert(entry_matches(entries@[found as int], gs, ge, segs, k + 1));
                }
            }
        }
        proof {
            assert forall|sp2: u32| #[trigger] speaker_agg(gs, ge, segs, sp2, k + 1).3 implies exists|
                j: int,
            | 0 <= j < entries@.len() && (#[trigger] entries@[j]).0 == sp2 by {
                if sp2 == sp && o != 0 {
                    if found < entries@.len() {
                        assert(entries@[found as int].0 == sp2);
                    } else {
                        assert(entries@[entries@.len() - 1].0 == sp2);
                    }
                } else {
                    assert(speaker_agg(gs, ge, segs, sp2, k + 1) == speaker_agg(
                        gs,
                        ge,
                        segs,
                        sp2,
                        k as int,
                    ));
                    let jj = choose|jj: int| 0 <= jj < old_entries.len() && (#[trigger] old_entries[jj]).0 == sp2;
                    assert(entries@[jj] == old_entries[jj]);
                }
            }
        }
        k += 1;
    }
    let ghost n = segs.len() as int;
    if entries.len() == 0 {
        proof {
            assert forall|sp: u32| !#[trigger] speaker_agg(gs, ge, segs, sp, n).3 by {
                if speaker_agg(gs, ge, segs, sp, n).3 {
                    let jj = choose|jj: int| 0 <= jj < entries@.len() && (#[trigger] entries@[jj]).0 == sp;
                }
            }
        }
        return None;
    }
    assert(entry_matches(entries@[0], gs, ge, segs, n));
    assert(speaker_agg(gs, ge, segs, entries@[0].0, n).3);
    assert(ws.len() > 0 && ws[0].start_ms == gs && ws.last().end_ms == ge);
    assert(exists|sp: u32| #[trigger] speaker_agg(gs, ge, segs, sp, n).3);
    // best total overlap
    let mut best: u128 = entries[0].1;
    let mut j: usize = 1;
    while j < entries.len()
        invariant
            1 <= j <= entries@.len(),
            entries_ok(entries@, gs, ge, segs, n),
            n == segs.len(),
            exists|m: int| 0 <= m < j && (#[trigger] entries@[m]).1 == best,
            forall|m: int| 0 <= m < j ==> (#[trigger] entries@[m]).1 <= best,
        decreases entries.len() - j,
    {
        if entries[j].1 > best {
            best = entries[j].1;
        }
        j += 1;
    }
    if let Some(p) = previous {
        let mut q: usize = 0;
        while q < entries.len() && entries[q].0 != p
            invariant
                q <= entries@.len(),
                forall|m: int| 0 <= m < q ==> (#[trigger] entries@[m]).0 != p,
            decreases entries.len() - q,
        {
            q += 1;
        }
        if q < entries.len() {
            assert(entries@[q as int].1 <= n * OVERLAP_BOUND);
            if entries[q].1 + (NEAR_TIE_MS as u128) >= best {
                proof {
                    assert(entry_matches(entries@[q as int], gs, ge, segs, n));
                    assert forall|sp2: u32|
                        #[trigger] speaker_agg(gs, ge, segs, sp2, n).3 implies speaker_agg(
                        gs,
                        ge,
                        segs,
                        sp2,
                        n,
                    ).0 <= speaker_agg(gs, ge, segs, p, n).0 + NEAR_TIE_MS by {
                        let jj = choose|jj: int| 0 <= jj < entries@.len() && (#[trigger] entries@[jj]).0 == sp2;
                        assert(entry_matches(entries@[jj], gs, ge, segs, n));
                    }
                }
                return Some(p);
            } else {
                proof {
                    let m = choose|m: int| 0 <= m < entries@.len() && (#[trigger] entries@[m]).1 == best;
                    assert(entry_matches(entries@[m], gs, ge, segs, n));
                    assert(entry_matches(entries@[q as int], gs, ge, segs, n));
                    assert(!keeps_near_tie(gs, ge, segs, p));
                }
            }
        } else {
            proof {
                if speaker_agg(gs, ge, segs, p, n).3 {
                    let jj = choose|jj: int| 0 <= jj < entries@.len() && (#[trigger] entries@[jj]).0 == p;
                    assert(entries@[jj].0 == p);
                }
            }
        }
    }
    let mut top: usize = 0;
    let mut t: usize = 1;
    while t < entries.len()
        invariant
            1 <= t <= entries@.len(),
            top < t,
            forall|m: int| 0 <= m < t && m != top ==> agg_below(
                (entries@[m].1 as int, entries@[m].2 as int, entries@[m].3 as int, true),
                (entries@[top as int].1 as int, entries@[top as int].2 as int, entries@[top as int].3 as int, true),
            ),
            entries_ok(entries@, gs, ge, segs, n),
            n == segs.len(),
        decreases entries.len() - t,
    {
        proof {
            lemma_agg_idx(gs, ge, segs, entries@[t as int].0, n);
            lemma_agg_idx(gs, ge, segs, entries@[top as int].0, n);
            assert(entry_matches(entries@[t as int], gs, ge, segs, n));
            assert(entry_matches(entries@[top as int], gs, ge, segs, n));
        }
        if entry_below(&entries[top], &entries[t]) {
            top = t;
        }
        t += 1;
    }
    let winner = entries[top].0;
    proof {
        assert(entry_matches(entries@[top as int], gs, ge, segs, n));
        assert forall|sp2: u32|
            #[trigger] speaker_agg(gs, ge, segs, sp2, n).3 && sp2 != winner implies agg_below(
            speaker_agg(gs, ge, segs, sp2, n),
            speaker_agg(gs, ge, segs, winner, n),
        ) by {
            let jj = choose|jj: int| 0 <= jj < entries@.len() && (#[trigger] entries@[jj]).0 == sp2;
            assert(entry_matches(entries@[jj], gs, ge, segs, n));
            assert(jj != top);
        }
        assert(is_top_speaker(gs, ge, segs, winner));
        let c = choose|sp: u32| is_top_speaker(gs, ge, segs, sp);
        lemma_top_unique(gs, ge, segs, c, winner);
    }
    Some(winner)
}

// ---------------------------------------------------------------------------
// Segment fields
// ---------------------------------------------------------------------------

/// Number of words contributed by source row `row`.
pub open spec fn row_count(ws: Seq<WordView>, row: int) -> nat {
    ws.filter(|w: WordView| w.source_row == row).len()
}

/// `row` contributes the most words (ties: the earliest row).
pub open spec fn is_owner_row(ws: Seq<WordView>, row: int) -> bool {
    &&& row_count(ws, row) > 0
    &&& forall|r2: int|
        #[trigger] row_count(ws, r2) > 0 && r2 != row ==> row_count(ws, r2) < row_count(ws, row)
            || (row_count(ws, r2) == row_count(ws, row) && row < r2)
}

/// The source row owning a piece of words (0 for no words).
pub open spec fn owner_row(ws: Seq<WordView>) -> int {
    if ws.len() == 0 {
        0
    } else {
        choose|r: int| is_owner_row(ws, r)
    }
}

/// The id of the owning row (empty when the row is not an input row).
pub open spec fn owner_id(ws: Seq<WordView>, ts: Seq<TranscriptView>) -> Seq<char> {
    let r = owner_row(ws);
    if 0 <= r < ts.len() {
        ts[r].id
    } else {
        Seq::empty()
    }
}

proof fn lemma_owner_unique(ws: Seq<WordView>, a: int, b: int)
    requires
        is_owner_row(ws, a),
        is_owner_row(ws, b),
    ensures
        a == b,
{
    if a != b {
        assert(row_count(ws, a) > 0);
        assert(row_count(ws, b) > 0);
    }
}

proof fn lemma_row_count_push(ws: Seq<WordView>, w: WordView, row: int)
    ensures
        row_count(ws.push(w), row) == row_count(ws, row) + if w.source_row == row {
            1nat
        } else {
            0nat
        },
{
    ws.lemma_filter_push(w, |x: WordView| x.source_row == row);
}

proof fn lemma_row_count_member(ws: Seq<WordView>, row: int)
    requires
        row_count(ws, row) > 0,
    ensures
        exists|j: int| 0 <= j < ws.len() && (#[trigger] ws[j]).source_row == row,
{
    let f = ws.filter(|w: WordView| w.source_row == row);
    assert(f.contains(f[0]));
    ws.lemma_filter_contains_rev(|w: WordView| w.source_row == row, f[0]);
}

/// The source row contributing the most words to the atom `words[a..b]`
/// (tie → earliest row) owns the emitted segment.
fn owner_row_id(words: &[UnitWord], a: usize, b: usize, transcripts: &[TranscriptInput]) -> (r:
    String)
    requires
        a < b <= words@.len(),
        forall|j: int|
            a <= j < b ==> 0 <= (#[trigger] words@[j]).source_row < transcripts@.len(),
    ensures
        r@ == owner_id(
            word_views(words@).subrange(a as int, b as int),
            transcript_views(transcripts@),
        ),
{
    let ghost ws = word_views(words@).subrange(a as int, b as int);
    let n = transcripts.len();
    let mut counts: Vec<usize> = Vec::new();
    let mut z: usize = 0;
    while z < n
        invariant
            z <= n,
            counts@.len() == z,
            forall|r: int| 0 <= r < z ==> (#[trigger] counts@[r]) == 0,
        decreases n - z,
    {
        counts.push(0);
        z += 1;
    }
    let mut j: usize = a;
    while j < b
        invariant
            a <= j <= b,
            b <= words@.len(),
            n == transcripts@.len(),
            counts@.len() == n,
            ws == word_views(words@).subrange(a as int, b as int),
            forall|i: int| a <= i < b ==> 0 <= (#[trigger] words@[i]).source_row < n,
            forall|r: int|
                0 <= r < n ==> (#[trigger] counts@[r]) == row_count(
                    word_views(words@).subrange(a as int, j as int),
                    r,
                ),
            forall|r: int| 0 <= r < n ==> (#[trigger] counts@[r]) <= j - a,
        decreases b - j,
    {
        let row = words[j].source_row;
        let ghost pre = word_views(words@).subrange(a as int, j as int);
        assert(word_views(words@).subrange(a as int, j + 1) =~= pre.push(words@[j as int]@));
        proof {
            assert forall|r: int| 0 <= r < n implies row_count(
                word_views(words@).subrange(a as int, j + 1),
                r,
            ) == row_count(pre, r) + if words@[j as int]@.source_row == r {
                1nat
            } else {
                0nat
            } by {
                lemma_row_count_push(pre, words@[j as int]@, r);
            }
        }
        let c = counts[row];
        counts.set(row, c + 1);
        j += 1;
    }
    assert(word_views(words@).subrange(a as int, b as int) == ws);
    let mut best: usize = 0;
    let mut best_count: usize = 0;
    let mut r: usize = 0;
    while r < n
        invariant
            r <= n,
            n == counts@.len(),
            best < n || (best == 0 && best_count == 0),
            best_count == 0 || (best < r && counts@[best as int] == best_count),
            forall|q: int| 0 <= q < r ==> (#[trigger] counts@[q]) <= best_count,
            forall|q: int| 0 <= q < r && best_count > 0 && q < best ==> (#[trigger] counts@[q]) < best_count,
        decreases n - r,
    {
        if counts[r] > best_count {
            best = r;
            best_count = counts[r];
        }
        r += 1;
    }
    proof {
        assert(ws.len() > 0);
        assert(ws[0] == words@[a as int]@);
        let r0 = ws[0].source_row;
        assert(row_count(ws, r0) > 0) by {
            ws.lemma_filter_contains(|w: WordView| w.source_row == r0, 0);
        }
        assert(counts@[r0] > 0);
        assert(best_count > 0);
        assert forall|r2: int|
            #[trigger] row_count(ws, r2) > 0 && r2 != best implies row_count(ws, r2) < row_count(
            ws,
            best as int,
        ) || (row_count(ws, r2) == row_count(ws, best as int) && best < r2) by {
            lemma_row_count_member(ws, r2);
            let jj = choose|jj: int| 0 <= jj < ws.len() && (#[trigger] ws[jj]).source_row == r2;
            assert(ws[jj] == words@[a + jj]@);
            assert(counts@[r2] == row_count(ws, r2));
        }
        assert(is_owner_row(ws, best as int));
        let c = choose|q: int| is_owner_row(ws, q);
        lemma_owner_unique(ws, c, best as int);
        assert(transcript_views(transcripts@)[best as int] == transcripts@[best as int]@);
    }
    transcripts[best].id.clone()
}

/// One word appended to joined text: a space separates it from what
/// precedes, except between two CJK characters.
pub open spec fn join_step(out: Seq<char>, t: Seq<char>) -> Seq<char> {
    if out.len() > 0 && !(is_cjk(out.last()) && t.len() > 0 && is_cjk(t[0])) {
        out.push(' ') + t
    } else {
        out + t
    }
}

pub open spec fn joined_upto(ws: Seq<WordView>, k: int) -> Seq<char>
    decreases k,
{
    if k <= 0 {
        Seq::empty()
    } else {
        join_step(joined_upto(ws, k - 1), ws[k - 1].text)
    }
}

/// The text of a piece of words.
pub open spec fn joined(ws: Seq<WordView>) -> Seq<char> {
    joined_upto(ws, ws.len() as int)
}

fn join_words(words: &[UnitWord], a: usize, b: usize) -> (r: String)
    requires
        a <= b <= words@.len(),
    ensures
        r@ == joined(word_views(words@).subrange(a as int, b as int)),
{
    let ghost ws = word_views(words@).subrange(a as int, b as int);
    let mut out: Vec<char> = Vec::new();
    let mut j: usize = a;
    while j < b
        invariant
            a <= j <= b,
            b <= words@.len(),
            ws == word_views(words@).subrange(a as int, b as int),
            out@ == joined_upto(ws, j - a),
        decreases b - j,
    {
        let t = &words[j].text;
        assert(ws[j - a] == words@[j as int]@);
        let sep = out.len() > 0 && !(cjk_char(out[out.len() - 1]) && t.len() > 0 && cjk_char(t[0]));
        if sep {
            out.push(' ');
        }
        push_all(&mut out, t);
        j += 1;
    }
    string_from_chars(&out)
}

/// The badge text of an atom: "Speaker N", or "Unknown Speaker".
pub open spec fn badge_text(m: Option<u32>) -> Seq<char> {
    match m {
        Some(sp) => "Speaker "@ + decimal(sp as nat),
        None => "Unknown Speaker"@,
    }
}

pub fn speaker_badge(sp: u32) -> (r: String)
    ensures
        r@ == badge_text(Some(sp)),
{
    let mut s = String::from_str("Speaker ");
    push_decimal(&mut s, sp as u128);
    s
}

pub fn unknown_badge() -> (r: String)
    ensures
        r@ == badge_text(None),
{
    String::from_str("Unknown Speaker")
}

// ---------------------------------------------------------------------------
// Alignment
// ---------------------------------------------------------------------------

/// A unit's sentence atoms, each carrying the unit's span source.
pub open spec fn unit_atoms(u: (Seq<WordView>, bool)) -> Seq<(Seq<WordView>, bool)> {
    atom_ranges(u.0).map_values(|r: (int, int)| (u.0.subrange(r.0, r.1), u.1))
}

/// All sentence atoms of the units, in order.
pub open spec fn atoms_of(units: Seq<(Seq<WordView>, bool)>) -> Seq<(Seq<WordView>, bool)>
    decreases units.len(),
{
    if units.len() == 0 {
        Seq::empty()
    } else {
        atoms_of(units.drop_last()) + unit_atoms(units.last())
    }
}

/// The segment emitted for one atom given its majority speaker.
pub open spec fn atom_segment(
    a: (Seq<WordView>, bool),
    m: Option<u32>,
    ts: Seq<TranscriptView>,
) -> SegmentView {
    SegmentView {
        original_id: owner_id(a.0, ts),
        text: joined(a.0),
        audio_start_ms: a.0[0].start_ms,
        audio_end_ms: a.0.last().end_ms,
        speaker: badge_text(m),
        speaker_source: match m {
            Some(_) => if a.1 {
                SpeakerSource::Auto
            } else {
                SpeakerSource::Fallback
            },
            None => SpeakerSource::Unknown,
        },
    }
}

/// Atoms assigned in order, each seeing the previous atom's speaker.
pub open spec fn align_atoms(
    atoms: Seq<(Seq<WordView>, bool)>,
    segs: Seq<DiarizationSegment>,
    ts: Seq<TranscriptView>,
) -> (Seq<SegmentView>, Option<u32>)
    decreases atoms.len(),
{
    if atoms.len() == 0 {
        (Seq::empty(), None)
    } else {
        let (out, prev) = align_atoms(atoms.drop_last(), segs, ts);
        let a = atoms.last();
        let m = majority_speaker(a.0, segs, prev);
        (out.push(atom_segment(a, m, ts)), m)
    }
}

/// A row passed through unlabeled.
pub open spec fn unknown_segment(t: TranscriptView) -> SegmentView {
    SegmentView {
        original_id: t.id,
        text: t.text,
        audio_start_ms: t.audio_start_ms,
        audio_end_ms: t.audio_end_ms,
        speaker: badge_text(None),
        speaker_source: SpeakerSource::Unknown,
    }
}

/// The aligned segments: nothing for no rows; every row unlabeled when
/// there is no diarization; otherwise one segment per sentence atom of the
/// logical units.
pub open spec fn aligned_segments(ts: Seq<TranscriptView>, segs: Seq<DiarizationSegment>) -> Seq<
    SegmentView,
> {
    if ts.len() == 0 {
        Seq::empty()
    } else if segs.len() == 0 {
        ts.map_values(|t: TranscriptView| unknown_segment(t))
    } else {
        align_atoms(atoms_of(logical_units(ts)), segs, ts).0
    }
}

proof fn lemma_atom_ranges_bounds(ws: Seq<WordView>)
    ensures
        forall|k: int|
            0 <= k < atom_ranges(ws).len() ==> 0 <= (#[trigger] atom_ranges(ws)[k]).0
                < atom_ranges(ws)[k].1 <= ws.len(),
{
    lemma_atom_state_bounds(ws, ws.len() as int);
    let (rs, st) = atom_state(ws, ws.len() as int);
    let r = atom_ranges(ws);
    assert forall|k: int| 0 <= k < r.len() implies 0 <= (#[trigger] r[k]).0 < r[k].1
        <= ws.len() by {
        if k < rs.len() {
            assert(r[k] == rs[k]);
        }
    }
}

/// Align transcript segments with diarization speaker segments at SENTENCE
/// granularity: rows are rejoined into logical units, units are segmented
/// into sentence atoms, and every atom is assigned WHOLE to the speaker
/// owning the majority of its span; an atom overlapping no turn stays
/// "Unknown Speaker".
pub fn align_transcripts_with_diarization(
    transcripts: Vec<TranscriptInput>,
    diarization: &[DiarizationSegment],
) -> (r: Vec<AlignedSegment>)
    ensures
        segment_views(r@) == aligned_segments(transcript_views(transcripts@), diarization@),
        badges_follow_turns(segment_views(r@), diarization@),
{
    let ghost ts = transcript_views(transcripts@);
    proof {
        lemma_unknown_exactly_unmatched(ts, diarization@);
    }
    let mut results: Vec<AlignedSegment> = Vec::new();
    if transcripts.len() == 0 {
        assert(segment_views(results@) =~= Seq::<SegmentView>::empty());
        return results;
    }
    if diarization.len() == 0 {
        let mut k: usize = 0;
        while k < transcripts.len()
            invariant
                k <= transcripts@.len(),
                ts == transcript_views(transcripts@),
                segment_views(results@) == ts.subrange(0, k as int).map_values(
                    |t: TranscriptView| unknown_segment(t),
                ),
            decreases transcripts.len() - k,
        {
            let t = &transcripts[k];
            let seg = AlignedSegment {
                original_id: t.id.clone(),
                text: t.text.clone(),
                audio_start_ms: t.audio_start_ms,
                audio_end_ms: t.audio_end_ms,
                speaker: unknown_badge(),
                speaker_source: SpeakerSource::Unknown,
            };
            let ghost before = segment_views(results@);
            results.push(seg);
            assert(ts[k as int] == transcripts@[k as int]@);
            assert(seg@ == unknown_segment(ts[k as int]));
            assert(segment_views(results@) =~= before.push(seg@));
            assert(ts.subrange(0, k + 1).map_values(|t: TranscriptView| unknown_segment(t))
                =~= ts.subrange(0, k as int).map_values(|t: TranscriptView| unknown_segment(t)).push(
                unknown_segment(ts[k as int]),
            ));
            k += 1;
        }
        assert(ts.subrange(0, transcripts.len() as int) =~= ts);
        return results;
    }
    let units = build_logical_units(&transcripts);
    let ghost uv = unit_views(units@);
    let ghost segs = diarization@;
    let mut previous: Option<u32> = None;
    let mut u: usize = 0;
    while u < units.len()
        invariant
            u <= units@.len(),
            uv == unit_views(units@),
            uv == logical_units(ts),
            ts == transcript_views(transcripts@),
            segs == diarization@,
            units_well_formed(uv, transcripts@.len() as int),
            (segment_views(results@), previous) == align_atoms(
                atoms_of(uv.subrange(0, u as int)),
                segs,
                ts,
            ),
        decreases units.len() - u,
    {
        let words = &units[u].0;
        let spans_real = units[u].1;
        let ghost wv = word_views(words@);
        assert(uv[u as int] == (wv, spans_real));
        let ranges = sentence_atom_ranges(words);
        proof {
            lemma_atom_ranges_bounds(wv);
            assert forall|j: int| 0 <= j < words@.len() implies 0 <= (#[trigger] words@[j]).source_row
                < transcripts@.len() by {
                assert(wv[j] == words@[j]@);
                assert(uv[u as int].0[j] == wv[j]);
            }
        }
        let ghost done = atoms_of(uv.subrange(0, u as int));
        let ghost mine = unit_atoms(uv[u as int]);
        let mut q: usize = 0;
        while q < ranges.len()
            invariant
                q <= ranges@.len(),
                range_views(ranges@) == atom_ranges(wv),
                wv == word_views(words@),
                mine == unit_atoms((wv, spans_real)),
                forall|k: int|
                    0 <= k < atom_ranges(wv).len() ==> 0 <= (#[trigger] atom_ranges(wv)[k]).0
                        < atom_ranges(wv)[k].1 <= wv.len(),
                forall|j: int|
                    0 <= j < words@.len() ==> 0 <= (#[trigger] words@[j]).source_row
                        < transcripts@.len(),
                ts == transcript_views(transcripts@),
                segs == diarization@,
                (segment_views(results@), previous) == align_atoms(
                    done + mine.subrange(0, q as int),
                    segs,
                    ts,
                ),
            decreases ranges.len() - q,
        {
            let (a, b) = ranges[q];
            assert(range_views(ranges@)[q as int] == (a as int, b as int));
            let ghost atom = (wv.subrange(a as int, b as int), spans_real);
            assert(mine[q as int] == atom);
            let ghost pre = done + mine.subrange(0, q as int);
            assert((done + mine.subrange(0, q + 1)).drop_last() =~= pre);
            assert((done + mine.subrange(0, q + 1)).last() == atom);
            let m = majority_turn(words, a, b, diarization, previous);
            let (speaker, source) = match m {
                Some(sp) => (speaker_badge(sp), if spans_real {
                    SpeakerSource::Auto
                } else {
                    SpeakerSource::Fallback
                }),
                None => (unknown_badge(), SpeakerSource::Unknown),
            };
            let original_id = owner_row_id(words, a, b, &transcripts);
            let text = join_words(words, a, b);
            let seg = AlignedSegment {
                original_id,
                text,
                audio_start_ms: words[a].start_ms,
                audio_end_ms: words[b - 1].end_ms,
                speaker,
                speaker_source: source,
            };
            assert(atom.0[0] == words@[a as int]@);
            assert(atom.0.last() == words@[b - 1]@);
            let ghost before = segment_views(results@);
            results.push(seg);
            assert(segment_views(results@) =~= before.push(seg@));
            previous = m;
            q += 1;
        }
        assert(mine.subrange(0, ranges@.len() as int) =~= mine) by {
            assert(mine.len() == atom_ranges(wv).len());
            assert(range_views(ranges@).len() == ranges@.len());
        }
        assert(uv.subrange(0, u + 1).drop_last() =~= uv.subrange(0, u as int));
        assert(uv.subrange(0, u + 1).last() == uv[u as int]);
        u += 1;
    }
    assert(uv.subrange(0, units@.len() as int) =~= uv);
    results
}

/// Some diarization turn overlaps the span `[start, end)`.
pub open spec fn span_has_turn(start: int, end: int, segs: Seq<DiarizationSegment>) -> bool {
    exists|k: int| 0 <= k < segs.len() && span_overlap(start, end, #[trigger] segs[k]) != 0
}

/// Every output segment is "Unknown Speaker", with source `Unknown`, exactly
/// when no diarization turn overlaps its span; otherwise its badge names the
/// speaker of a turn that does overlap it.
pub open spec fn badges_follow_turns(out: Seq<SegmentView>, segs: Seq<DiarizationSegment>) -> bool {
    forall|m: int|
        0 <= m < out.len() ==> ((#[trigger] out[m]).speaker == badge_text(None)) == !span_has_turn(
            out[m].audio_start_ms,
            out[m].audio_end_ms,
            segs,
        ) && (out[m].speaker_source == SpeakerSource::Unknown) == !span_has_turn(
            out[m].audio_start_ms,
            out[m].audio_end_ms,
            segs,
        ) && (out[m].speaker != badge_text(None) ==> exists|k: int|
            0 <= k < segs.len() && span_overlap(out[m].audio_start_ms, out[m].audio_end_ms, #[trigger] segs[k])
                != 0 && out[m].speaker == badge_text(Some(segs[k].speaker_id)))
}

proof fn lemma_agg_total(start: int, end: int, segs: Seq<DiarizationSegment>, x: u32, y: u32)
    requires
        x != y,
        speaker_agg(start, end, segs, x, segs.len() as int).3,
        speaker_agg(start, end, segs, y, segs.len() as int).3,
    ensures
        agg_below(speaker_agg(start, end, segs, x, segs.len() as int), speaker_agg(start, end, segs, y, segs.len() as int))
            || agg_below(speaker_agg(start, end, segs, y, segs.len() as int), speaker_agg(start, end, segs, x, segs.len() as int)),
{
    lemma_agg_idx(start, end, segs, x, segs.len() as int);
    lemma_agg_idx(start, end, segs, y, segs.len() as int);
}

/// `b` overlaps the span and no overlapping turn among the first `k` has a
/// speaker scoring above `b`'s.
spec fn best_among(start: int, end: int, segs: Seq<DiarizationSegment>, k: int, b: int) -> bool {
    &&& 0 <= b < k
    &&& span_overlap(start, end, segs[b]) != 0
    &&& forall|q: int|
        0 <= q < k && span_overlap(start, end, #[trigger] segs[q]) != 0 ==> segs[q].speaker_id
            == segs[b].speaker_id || agg_below(
            speaker_agg(start, end, segs, segs[q].speaker_id, segs.len() as int),
            speaker_agg(start, end, segs, segs[b].speaker_id, segs.len() as int),
        )
}

#[verifier::spinoff_prover]
#[verifier::rlimit(40)]
proof fn lemma_best_upto(start: int, end: int, segs: Seq<DiarizationSegment>, k: int)
    requires
        0 <= k <= segs.len(),
        exists|q: int| 0 <= q < k && span_overlap(start, end, #[trigger] segs[q]) != 0,
    ensures
        exists|b: int| best_among(start, end, segs, k, b),
    decreases k,
{
    let n = segs.len() as int;
    let l = k - 1;
    if exists|q: int| 0 <= q < l && span_overlap(start, end, #[trigger] segs[q]) != 0 {
        lemma_best_upto(start, end, segs, l);
        let b = choose|b: int| best_among(start, end, segs, l, b);
        let xl = speaker_agg(start, end, segs, segs[l].speaker_id, n);
        let xb = speaker_agg(start, end, segs, segs[b].speaker_id, n);
        if span_overlap(start, end, segs[l]) != 0 && segs[l].speaker_id != segs[b].speaker_id {
            lemma_agg_overlap(start, end, segs, segs[l].speaker_id, n);
            lemma_agg_overlap(start, end, segs, segs[b].speaker_id, n);
            assert(xl.3);
            assert(xb.3);
            lemma_agg_total(start, end, segs, segs[l].speaker_id, segs[b].speaker_id);
            if agg_below(xb, xl) {
                assert forall|q: int|
                    0 <= q < k && span_overlap(start, end, #[trigger] segs[q]) != 0 implies segs[q].speaker_id
                        == segs[l].speaker_id || agg_below(
                        speaker_agg(start, end, segs, segs[q].speaker_id, n),
                        xl,
                    ) by {
                    if q < l && segs[q].speaker_id != segs[l].speaker_id {
                        if segs[q].speaker_id != segs[b].speaker_id {
                            assert(agg_below(speaker_agg(start, end, segs, segs[q].speaker_id, n), xb));
                        }
                    }
                }
                assert(best_among(start, end, segs, k, l));
            } else {
                assert(agg_below(xl, xb));
                assert forall|q: int|
                    0 <= q < k && span_overlap(start, end, #[trigger] segs[q]) != 0 implies segs[q].speaker_id
                        == segs[b].speaker_id || agg_below(
                        speaker_agg(start, end, segs, segs[q].speaker_id, n),
                        xb,
                    ) by {
                    if q < l {
                        assert(best_among(start, end, segs, l, b));
                    }
                }
                assert(best_among(start, end, segs, k, b));
            }
        } else {
            assert forall|q: int|
                0 <= q < k && span_overlap(start, end, #[trigger] segs[q]) != 0 implies segs[q].speaker_id
                    == segs[b].speaker_id || agg_below(
                    speaker_agg(start, end, segs, segs[q].speaker_id, n),
                    xb,
                ) by {
                if q < l {
                    assert(best_among(start, end, segs, l, b));
                }
            }
            assert(best_among(start, end, segs, k, b));
        }
    } else {
        assert(span_overlap(start, end, segs[l]) != 0);
        assert forall|q: int|
            0 <= q < k && span_overlap(start, end, #[trigger] segs[q]) != 0 implies segs[q].speaker_id
                == segs[l].speaker_id || agg_below(
                speaker_agg(start, end, segs, segs[q].speaker_id, n),
                speaker_agg(start, end, segs, segs[l].speaker_id, n),
            ) by {
            assert(q == l);
        }
        assert(best_among(start, end, segs, k, l));
    }
}

proof fn lemma_top_exists(start: int, end: int, segs: Seq<DiarizationSegment>)
    requires
        span_has_turn(start, end, segs),
    ensures
        exists|sp: u32| is_top_speaker(start, end, segs, sp),
{
    let n = segs.len() as int;
    lemma_best_upto(start, end, segs, n);
    let b = choose|b: int| best_among(start, end, segs, n, b);
    let sp = segs[b].speaker_id;
    lemma_agg_overlap(start, end, segs, sp, n);
    assert forall|sp2: u32|
        #![trigger speaker_agg(start, end, segs, sp2, n)]
        speaker_agg(start, end, segs, sp2, n).3 && sp2 != sp implies agg_below(
            speaker_agg(start, end, segs, sp2, n),
            speaker_agg(start, end, segs, sp, n),
        ) by {
        lemma_agg_overlap(start, end, segs, sp2, n);
        let q = choose|q: int|
            0 <= q < n && (#[trigger] segs[q]).speaker_id == sp2 && span_overlap(start, end, segs[q]) != 0;
        assert(span_overlap(start, end, segs[q]) != 0);
    }
    assert(is_top_speaker(start, end, segs, sp));
}

proof fn lemma_agg_overlap(start: int, end: int, segs: Seq<DiarizationSegment>, sp: u32, k: int)
    requires
        0 <= k <= segs.len(),
    ensures
        speaker_agg(start, end, segs, sp, k).3 == exists|q: int|
            0 <= q < k && (#[trigger] segs[q]).speaker_id == sp && span_overlap(start, end, segs[q]) != 0,
    decreases k,
{
    if k > 0 {
        lemma_agg_overlap(start, end, segs, sp, k - 1);
        if exists|q: int|
            0 <= q < k && (#[trigger] segs[q]).speaker_id == sp && span_overlap(start, end, segs[q]) != 0 {
            let q = choose|q: int|
                0 <= q < k && (#[trigger] segs[q]).speaker_id == sp && span_overlap(start, end, segs[q]) != 0;
            if q < k - 1 {
                assert(speaker_agg(start, end, segs, sp, k - 1).3);
            }
        }
    }
}

proof fn lemma_majority_none(ws: Seq<WordView>, segs: Seq<DiarizationSegment>, prev: Option<u32>)
    requires
        ws.len() > 0,
    ensures
        (majority_speaker(ws, segs, prev) is None) == !span_has_turn(ws[0].start_ms, ws.last().end_ms, segs),
        majority_speaker(ws, segs, prev) is Some ==> exists|k: int|
            0 <= k < segs.len() && span_overlap(ws[0].start_ms, ws.last().end_ms, #[trigger] segs[k]) != 0
                && segs[k].speaker_id == majority_speaker(ws, segs, prev)->0,
{
    let start = ws[0].start_ms;
    let end = ws.last().end_ms;
    let n = segs.len() as int;
    if span_has_turn(start, end, segs) {
        let k = choose|k: int| 0 <= k < segs.len() && span_overlap(start, end, #[trigger] segs[k]) != 0;
        let sp = segs[k].speaker_id;
        lemma_agg_overlap(start, end, segs, sp, n);
        assert(speaker_agg(start, end, segs, sp, n).3);
        let m = majority_speaker(ws, segs, prev);
        if prev is Some && keeps_near_tie(start, end, segs, prev->0) {
            lemma_agg_overlap(start, end, segs, prev->0, n);
        } else {
            lemma_top_exists(start, end, segs);
            let w = choose|sp: u32| is_top_speaker(start, end, segs, sp);
            assert(m == Some(w));
            lemma_agg_overlap(start, end, segs, w, n);
        }
    } else {
        assert forall|sp: u32| !(#[trigger] speaker_agg(start, end, segs, sp, n).3) by {
            lemma_agg_overlap(start, end, segs, sp, n);
            if speaker_agg(start, end, segs, sp, n).3 {
                let q = choose|q: int|
                    0 <= q < n && (#[trigger] segs[q]).speaker_id == sp && span_overlap(start, end, segs[q]) != 0;
                assert(span_overlap(start, end, segs[q]) != 0);
            }
        }
    }
}

proof fn lemma_badges_differ(sp: u32)
    ensures
        badge_text(Some(sp)) != badge_text(None),
{
    reveal_strlit("Speaker ");
    reveal_strlit("Unknown Speaker");
    assert(badge_text(Some(sp))[0] == 'S');
    assert(badge_text(None)[0] == 'U');
}

proof fn lemma_align_atoms_unknown(
    atoms: Seq<(Seq<WordView>, bool)>,
    segs: Seq<DiarizationSegment>,
    ts: Seq<TranscriptView>,
)
    requires
        forall|k: int| 0 <= k < atoms.len() ==> (#[trigger] atoms[k]).0.len() > 0,
    ensures
        align_atoms(atoms, segs, ts).0.len() == atoms.len(),
        badges_follow_turns(align_atoms(atoms, segs, ts).0, segs),
    decreases atoms.len(),
{
    if atoms.len() > 0 {
        let p = atoms.drop_last();
        assert forall|k: int| 0 <= k < p.len() implies (#[trigger] p[k]).0.len() > 0 by {
            assert(p[k] == atoms[k]);
        }
        lemma_align_atoms_unknown(p, segs, ts);
        let (out, prev) = align_atoms(p, segs, ts);
        let a = atoms.last();
        assert(a == atoms[atoms.len() - 1]);
        let m = majority_speaker(a.0, segs, prev);
        lemma_majority_none(a.0, segs, prev);
        let seg = atom_segment(a, m, ts);
        if m is Some {
            lemma_badges_differ(m->0);
        }
        let o = align_atoms(atoms, segs, ts).0;
        assert(o == out.push(seg));
        assert forall|j: int| 0 <= j < o.len() implies ((#[trigger] o[j]).speaker == badge_text(None))
            == !span_has_turn(o[j].audio_start_ms, o[j].audio_end_ms, segs) && (o[j].speaker_source
            == SpeakerSource::Unknown) == !span_has_turn(o[j].audio_start_ms, o[j].audio_end_ms, segs)
            && (o[j].speaker != badge_text(None) ==> exists|k: int|
            0 <= k < segs.len() && span_overlap(o[j].audio_start_ms, o[j].audio_end_ms, #[trigger] segs[k])
                != 0 && o[j].speaker == badge_text(Some(segs[k].speaker_id))) by {
            if j < out.len() {
                assert(o[j] == out[j]);
            } else if m is Some {
                let k = choose|k: int|
                    0 <= k < segs.len() && span_overlap(a.0[0].start_ms, a.0.last().end_ms, #[trigger] segs[k]) != 0
                        && segs[k].speaker_id == m->0;
                assert(o[j].speaker == badge_text(Some(segs[k].speaker_id)));
            }
        }
    }
}

proof fn lemma_atoms_nonempty(units: Seq<(Seq<WordView>, bool)>)
    ensures
        forall|k: int| 0 <= k < atoms_of(units).len() ==> (#[trigger] atoms_of(units)[k]).0.len() > 0,
    decreases units.len(),
{
    if units.len() > 0 {
        lemma_atoms_nonempty(units.drop_last());
        let u = units.last();
        lemma_atom_ranges_bounds(u.0);
        let prev = atoms_of(units.drop_last());
        let mine = unit_atoms(u);
        assert forall|k: int| 0 <= k < atoms_of(units).len() implies (#[trigger] atoms_of(units)[k]).0.len() > 0 by {
            if k >= prev.len() {
                let r = atom_ranges(u.0)[k - prev.len()];
                assert(mine[k - prev.len()] == (u.0.subrange(r.0, r.1), u.1));
            }
        }
    }
}

/// An aligned segment is "Unknown Speaker" (source `Unknown`) exactly when
/// no diarization turn overlaps its span, and a labeled segment names the
/// speaker of a turn overlapping it.
pub proof fn lemma_unknown_exactly_unmatched(ts: Seq<TranscriptView>, segs: Seq<DiarizationSegment>)
    ensures
        badges_follow_turns(aligned_segments(ts, segs), segs),
{
    if ts.len() > 0 {
        if segs.len() == 0 {
            let out = aligned_segments(ts, segs);
            assert forall|m: int| 0 <= m < out.len() implies ((#[trigger] out[m]).speaker == badge_text(None))
                == !span_has_turn(out[m].audio_start_ms, out[m].audio_end_ms, segs) && (out[m].speaker_source
                == SpeakerSource::Unknown) == !span_has_turn(out[m].audio_start_ms, out[m].audio_end_ms, segs)
                && (out[m].speaker != badge_text(None) ==> exists|k: int|
                0 <= k < segs.len() && span_overlap(out[m].audio_start_ms, out[m].audio_end_ms, #[trigger] segs[k])
                    != 0 && out[m].speaker == badge_text(Some(segs[k].speaker_id))) by {
                assert(out[m] == unknown_segment(ts[m]));
            }
        } else {
            lemma_atoms_nonempty(logical_units(ts));
            lemma_align_atoms_unknown(atoms_of(logical_units(ts)), segs, ts);
        }
    }
}

// ---------------------------------------------------------------------------
// One sentence per aligned row
// ---------------------------------------------------------------------------

/// A word whose text is non-empty, holds no whitespace and no CJK character.
pub open spec fn plain_word(w: WordView) -> bool {
    w.text.len() > 0 && no_white_space(w.text) && !has_cjk_char(w.text)
}

pub open spec fn word_texts(ws: Seq<WordView>) -> Seq<Seq<char>> {
    ws.map_values(|w: WordView| w.text)
}

/// A row's text holds one sentence: it has an alphanumeric character, its
/// only whitespace is single spaces between words, and no whitespace word
/// but the last ends a sentence.
pub open spec fn one_sentence(text: Seq<char>) -> bool {
    &&& has_alphanumeric(text)
    &&& well_spaced(text)
    &&& forall|j: int| 0 <= j < split_ws(text).len() - 1 ==> !ends_sentence(#[trigger] split_ws(text)[j])
}

proof fn lemma_joined_plain(ws: Seq<WordView>, k: int)
    requires
        0 <= k <= ws.len(),
        forall|j: int| 0 <= j < ws.len() ==> plain_word(#[trigger] ws[j]),
    ensures
        joined_upto(ws, k) == join_words_ws(word_texts(ws.subrange(0, k))),
        k > 0 ==> joined_upto(ws, k).len() > 0 && joined_upto(ws, k).last() == ws[k - 1].text.last(),
    decreases k,
{
    let t = word_texts(ws.subrange(0, k));
    if k == 1 {
        assert(plain_word(ws[0]));
        assert(joined_upto(ws, 0) =~= Seq::<char>::empty());
        assert(Seq::<char>::empty() + ws[0].text =~= ws[0].text);
        assert(t.len() == 1 && t[0] == ws[0].text);
    } else if k > 1 {
        lemma_joined_plain(ws, k - 1);
        assert(plain_word(ws[k - 1]));
        assert(plain_word(ws[k - 2]));
        let j = joined_upto(ws, k - 1);
        let last = ws[k - 2].text;
        assert(j.last() == last.last());
        assert(!is_cjk(j.last())) by {
            assert(last[last.len() - 1] == last.last());
        }
        assert(t.drop_last() =~= word_texts(ws.subrange(0, k - 1)));
        assert(t.last() == ws[k - 1].text);
        let r = j.push(' ') + ws[k - 1].text;
        assert(r.last() == ws[k - 1].text.last());
    } else {
        assert(t =~= Seq::<Seq<char>>::empty());
    }
}

proof fn lemma_join_well_spaced(ws: Seq<Seq<char>>)
    requires
        plain_words(ws),
    ensures
        well_spaced(join_words_ws(ws)),
        ws.len() > 0 ==> join_words_ws(ws).len() > 0 && !is_white_space(join_words_ws(ws).last()),
    decreases ws.len(),
{
    if ws.len() == 1 {
        assert(ws[0].len() > 0 && no_white_space(ws[0]));
        assert(!is_white_space(ws[0][ws[0].len() - 1]));
    } else if ws.len() > 1 {
        let p = ws.drop_last();
        assert(plain_words(p)) by {
            assert forall|k: int| 0 <= k < p.len() implies (#[trigger] p[k]).len() > 0 && no_white_space(p[k]) by {
                assert(p[k] == ws[k]);
            }
        }
        lemma_join_well_spaced(p);
        let j = join_words_ws(p);
        let w = ws.last();
        assert(w == ws[ws.len() - 1]);
        assert(w.len() > 0 && no_white_space(w));
        let r = join_words_ws(ws);
        assert(r == j.push(' ') + w);
        assert forall|i: int| 0 <= i < r.len() && is_white_space(#[trigger] r[i]) implies r[i] == ' '
            && 0 < i && i + 1 < r.len() && !is_white_space(r[i + 1]) by {
            if i > j.len() {
                assert(r[i] == w[i - j.len() - 1]);
            } else if i == j.len() {
                assert(r[i + 1] == w[0]);
            } else {
                assert(r[i] == j[i]);
                if i + 1 < j.len() {
                    assert(r[i + 1] == j[i + 1]);
                } else {
                    assert(j[i] == j.last());
                }
            }
        }
        assert(r.last() == w.last());
        assert(!is_white_space(w[w.len() - 1]));
    }
}

proof fn lemma_join_alnum(ws: Seq<Seq<char>>, k: int)
    requires
        0 <= k < ws.len(),
        has_alphanumeric(ws[k]),
    ensures
        has_alphanumeric(join_words_ws(ws)),
    decreases ws.len(),
{
    let c = choose|i: int| 0 <= i < ws[k].len() && is_alphanumeric(#[trigger] ws[k][i]);
    if ws.len() == 1 {
        assert(join_words_ws(ws)[c] == ws[0][c]);
    } else {
        let p = ws.drop_last();
        let j = join_words_ws(p);
        let r = join_words_ws(ws);
        if k == ws.len() - 1 {
            assert(r[j.len() + 1 + c] == ws[k][c]);
        } else {
            assert(p[k] == ws[k]);
            lemma_join_alnum(p, k);
            let d = choose|i: int| 0 <= i < j.len() && is_alphanumeric(#[trigger] j[i]);
            assert(r[d] == j[d]);
        }
    }
}

/// Among the first `i` words: every closed atom holds an alphanumeric word
/// and no sentence end but its last word's, and no word from the open
/// atom's start ends a sentence.
proof fn lemma_atom_state_sentences(ws: Seq<WordView>, i: int)
    requires
        0 <= i <= ws.len(),
    ensures
        forall|k: int|
            0 <= k < atom_state(ws, i).0.len() ==> any_alnum_words(
                ws,
                (#[trigger] atom_state(ws, i).0[k]).0,
                atom_state(ws, i).0[k].1,
            ) && forall|j: int|
                atom_state(ws, i).0[k].0 <= j < atom_state(ws, i).0[k].1 - 1 ==> !ends_sentence(
                    #[trigger] ws[j].text,
                ),
        forall|j: int| atom_state(ws, i).1 <= j < i ==> !ends_sentence(#[trigger] ws[j].text),
    decreases i,
{
    if i > 0 {
        lemma_atom_state_sentences(ws, i - 1);
        let (rs, st) = atom_state(ws, i - 1);
        let (nrs, nst) = atom_state(ws, i);
        if ends_sentence(ws[i - 1].text) && any_alnum_words(ws, st, i) {
            assert(nrs == rs.push((st, i)));
            assert forall|k: int| 0 <= k < nrs.len() implies any_alnum_words(ws, (#[trigger] nrs[k]).0, nrs[k].1)
                && forall|j: int| nrs[k].0 <= j < nrs[k].1 - 1 ==> !ends_sentence(#[trigger] ws[j].text) by {
                if k < rs.len() {
                    assert(nrs[k] == rs[k]);
                }
            }
        }
    }
}

proof fn lemma_atom_ranges_sentences(ws: Seq<WordView>)
    ensures
        forall|k: int|
            0 <= k < atom_ranges(ws).len() ==> any_alnum_words(
                ws,
                (#[trigger] atom_ranges(ws)[k]).0,
                atom_ranges(ws)[k].1,
            ) && forall|j: int|
                atom_ranges(ws)[k].0 <= j < atom_ranges(ws)[k].1 - 1 ==> !ends_sentence(#[trigger] ws[j].text),
{
    lemma_atom_state_sentences(ws, ws.len() as int);
    let (rs, st) = atom_state(ws, ws.len() as int);
    let r = atom_ranges(ws);
    assert forall|k: int| 0 <= k < r.len() implies any_alnum_words(ws, (#[trigger] r[k]).0, r[k].1) && forall|j: int|
        r[k].0 <= j < r[k].1 - 1 ==> !ends_sentence(#[trigger] ws[j].text) by {
        if k < rs.len() {
            assert(r[k] == rs[k]);
        }
    }
}

/// Every word of a unit is a word some row yields, so a property of all
/// row words holds of all unit words.
#[verifier::spinoff_prover]
proof fn lemma_units_words(ts: Seq<TranscriptView>, k: int, pred: spec_fn(WordView) -> bool)
    requires
        0 <= k <= ts.len(),
        forall|r: int, j: int|
            0 <= r < ts.len() && 0 <= j < row_words(ts[r], r).0.len() ==> pred(
                #[trigger] row_words(ts[r], r).0[j],
            ),
    ensures
        forall|u: int, j: int|
            0 <= u < units_upto(ts, k).0.len() && 0 <= j < units_upto(ts, k).0[u].0.len() ==> pred(
                #[trigger] units_upto(ts, k).0[u].0[j],
            ),
    decreases k,
{
    if k > 0 {
        lemma_units_words(ts, k - 1, pred);
        let (units, open_ends) = units_upto(ts, k - 1);
        let (words, spans_real) = row_words(ts[k - 1], k - 1);
        let nu = units_upto(ts, k).0;
        assert forall|u: int, j: int| 0 <= u < nu.len() && 0 <= j < nu[u].0.len() implies pred(
            #[trigger] nu[u].0[j],
        ) by {
            if words.len() > 0 {
                if u < units.len() && !(u == units.len() - 1 && !(open_ends || units.len() == 0)) {
                    assert(nu[u] == units[u]);
                } else if u == units.len() {
                    assert(nu[u].0 == words);
                    assert(pred(row_words(ts[k - 1], k - 1).0[j]));
                } else {
                    let l = units.last().0;
                    assert(units.last() == units[units.len() - 1]);
                    assert(nu[u].0 == l + words);
                    if j < l.len() {
                        assert(nu[u].0[j] == units[units.len() - 1].0[j]);
                    } else {
                        assert(nu[u].0[j] == row_words(ts[k - 1], k - 1).0[j - l.len()]);
                    }
                }
            }
        }
    }
}

proof fn lemma_atoms_sentences(units: Seq<(Seq<WordView>, bool)>)
    requires
        forall|u: int, j: int| 0 <= u < units.len() && 0 <= j < units[u].0.len() ==> plain_word(#[trigger] units[u].0[j]),
    ensures
        forall|a: int|
            0 <= a < atoms_of(units).len() ==> one_sentence(joined((#[trigger] atoms_of(units)[a]).0)),
    decreases units.len(),
{
    if units.len() > 0 {
        let p = units.drop_last();
        assert forall|u: int, j: int| 0 <= u < p.len() && 0 <= j < p[u].0.len() implies plain_word(#[trigger] p[u].0[j]) by {
            assert(p[u] == units[u]);
        }
        lemma_atoms_sentences(p);
        let u = units.last();
        assert(u == units[units.len() - 1]);
        lemma_atom_ranges_bounds(u.0);
        lemma_atom_ranges_sentences(u.0);
        let prev = atoms_of(p);
        let mine = unit_atoms(u);
        let all = atoms_of(units);
        assert forall|a: int| 0 <= a < all.len() implies one_sentence(joined((#[trigger] all[a]).0)) by {
            if a < prev.len() {
                assert(all[a] == prev[a]);
            } else {
                let r = atom_ranges(u.0)[a - prev.len()];
                let ws = u.0.subrange(r.0, r.1);
                assert(all[a] == mine[a - prev.len()]);
                assert(mine[a - prev.len()] == (ws, u.1));
                assert forall|j: int| 0 <= j < ws.len() implies plain_word(#[trigger] ws[j]) by {
                    assert(ws[j] == u.0[r.0 + j]);
                    assert(plain_word(units[units.len() - 1].0[r.0 + j]));
                }
                lemma_joined_plain(ws, ws.len() as int);
                assert(ws.subrange(0, ws.len() as int) =~= ws);
                let t = word_texts(ws);
                assert(plain_words(t)) by {
                    assert forall|k: int| 0 <= k < t.len() implies (#[trigger] t[k]).len() > 0 && no_white_space(t[k]) by {
                        assert(t[k] == ws[k].text);
                        assert(plain_word(ws[k]));
                    }
                }
                lemma_split_joined(t);
                lemma_join_well_spaced(t);
                let q = choose|q: int| r.0 <= q < r.1 && has_alphanumeric(#[trigger] u.0[q].text);
                assert(t[q - r.0] == u.0[q].text);
                lemma_join_alnum(t, q - r.0);
                let text = joined(ws);
                assert(text == join_words_ws(t));
                assert forall|j: int| 0 <= j < split_ws(text).len() - 1 implies !ends_sentence(
                    #[trigger] split_ws(text)[j],
                ) by {
                    assert(split_ws(text)[j] == t[j]);
                    assert(t[j] == u.0[r.0 + j].text);
                }
            }
        }
    }
}

proof fn lemma_align_atoms_texts(atoms: Seq<(Seq<WordView>, bool)>, segs: Seq<DiarizationSegment>, ts: Seq<TranscriptView>)
    ensures
        align_atoms(atoms, segs, ts).0.len() == atoms.len(),
        forall|m: int|
            0 <= m < atoms.len() ==> (#[trigger] align_atoms(atoms, segs, ts).0[m]).text == joined(atoms[m].0),
    decreases atoms.len(),
{
    if atoms.len() > 0 {
        lemma_align_atoms_texts(atoms.drop_last(), segs, ts);
        let o = align_atoms(atoms, segs, ts).0;
        let p = align_atoms(atoms.drop_last(), segs, ts).0;
        assert forall|m: int| 0 <= m < atoms.len() implies (#[trigger] o[m]).text == joined(atoms[m].0) by {
            if m < atoms.len() - 1 {
                assert(o[m] == p[m]);
                assert(atoms.drop_last()[m] == atoms[m]);
            }
        }
    }
}

/// With diarization present, every aligned row holds one sentence: an
/// alphanumeric character, single spaces between its words, and no
/// sentence end before its last word; provided every word a row yields
/// (its usable token words, else its whitespace words) is non-empty, free
/// of whitespace and of CJK characters.
pub proof fn lemma_rows_hold_one_sentence(ts: Seq<TranscriptView>, segs: Seq<DiarizationSegment>)
    requires
        segs.len() > 0,
        forall|r: int, j: int|
            0 <= r < ts.len() && 0 <= j < row_words(ts[r], r).0.len() ==> plain_word(
                #[trigger] row_words(ts[r], r).0[j],
            ),
    ensures
        forall|m: int|
            0 <= m < aligned_segments(ts, segs).len() ==> one_sentence(
                (#[trigger] aligned_segments(ts, segs)[m]).text,
            ),
{
    if ts.len() > 0 {
        lemma_units_words(ts, ts.len() as int, |w: WordView| plain_word(w));
        let units = logical_units(ts);
        lemma_atoms_sentences(units);
        lemma_align_atoms_texts(atoms_of(units), segs, ts);
    }
}

// ---------------------------------------------------------------------------
// Every word kept once, in order
// ---------------------------------------------------------------------------

/// The whitespace words of the texts, text after text.
pub open spec fn texts_words(texts: Seq<Seq<char>>) -> Seq<Seq<char>>
    decreases texts.len(),
{
    if texts.len() == 0 {
        Seq::empty()
    } else {
        texts_words(texts.drop_last()) + split_ws(texts.last())
    }
}

/// The word texts of the units (or atoms), one after another.
pub open spec fn units_texts(us: Seq<(Seq<WordView>, bool)>) -> Seq<Seq<char>>
    decreases us.len(),
{
    if us.len() == 0 {
        Seq::empty()
    } else {
        units_texts(us.drop_last()) + word_texts(us.last().0)
    }
}

/// The word texts of the rows' words, row after row.
pub open spec fn rows_word_texts(ts: Seq<TranscriptView>, k: int) -> Seq<Seq<char>>
    decreases k,
{
    if k <= 0 {
        Seq::empty()
    } else {
        rows_word_texts(ts, k - 1) + word_texts(row_words(ts[k - 1], k - 1).0)
    }
}

proof fn lemma_word_texts_add(a: Seq<WordView>, b: Seq<WordView>)
    ensures
        word_texts(a + b) == word_texts(a) + word_texts(b),
{
    assert(word_texts(a + b) =~= word_texts(a) + word_texts(b));
}

proof fn lemma_units_texts_add(a: Seq<(Seq<WordView>, bool)>, b: Seq<(Seq<WordView>, bool)>)
    ensures
        units_texts(a + b) == units_texts(a) + units_texts(b),
    decreases b.len(),
{
    if b.len() == 0 {
        assert(a + b =~= a);
        assert(units_texts(a) + units_texts(b) =~= units_texts(a));
    } else {
        lemma_units_texts_add(a, b.drop_last());
        assert((a + b).drop_last() =~= a + b.drop_last());
        assert((a + b).last() == b.last());
        assert(units_texts(a + b) =~= units_texts(a) + units_texts(b));
    }
}

proof fn lemma_filter_all(s: Seq<Seq<char>>)
    requires
        forall|i: int| 0 <= i < s.len() ==> !is_eot_marker(#[trigger] s[i]),
    ensures
        s.filter(|w: Seq<char>| !is_eot_marker(w)) == s,
    decreases s.len(),
{
    reveal(Seq::filter);
    if s.len() > 0 {
        let p = s.drop_last();
        assert forall|i: int| 0 <= i < p.len() implies !is_eot_marker(#[trigger] p[i]) by {
            assert(p[i] == s[i]);
        }
        lemma_filter_all(p);
        let f = |w: Seq<char>| !is_eot_marker(w);
        assert(!is_eot_marker(s[s.len() - 1]));
        assert(f(s.last()));
        assert(s.filter(f) == p.filter(f).push(s.last()));
        assert(p.push(s.last()) =~= s);
    }
}

proof fn lemma_proportional_texts(t: TranscriptView, texts: Seq<Seq<char>>, k: int, row: int)
    requires
        0 <= k <= texts.len(),
        forall|j: int| 0 <= j < texts.len() ==> !has_cjk_char(#[trigger] texts[j]),
    ensures
        word_texts(proportional_upto(t, texts, k, row)) == texts.subrange(0, k),
    decreases k,
{
    if k > 0 {
        lemma_proportional_texts(t, texts, k - 1, row);
        assert(!has_cjk_char(texts[k - 1]));
        let piece = proportional_piece(t, texts[k - 1], k - 1, texts.len() as int, row);
        lemma_word_texts_add(proportional_upto(t, texts, k - 1, row), piece);
        assert(word_texts(piece) =~= seq![texts[k - 1]]);
        assert(texts.subrange(0, k) =~= texts.subrange(0, k - 1).push(texts[k - 1]));
    } else {
        assert(word_texts(proportional_upto(t, texts, k, row)) =~= texts.subrange(0, k));
    }
}

proof fn lemma_units_texts_rows(ts: Seq<TranscriptView>, k: int)
    requires
        0 <= k <= ts.len(),
    ensures
        units_texts(units_upto(ts, k).0) == rows_word_texts(ts, k),
    decreases k,
{
    if k > 0 {
        lemma_units_texts_rows(ts, k - 1);
        let (units, open_ends) = units_upto(ts, k - 1);
        let (words, spans_real) = row_words(ts[k - 1], k - 1);
        let nu = units_upto(ts, k).0;
        if words.len() == 0 {
            assert(word_texts(words) =~= Seq::<Seq<char>>::empty());
            assert(rows_word_texts(ts, k) =~= rows_word_texts(ts, k - 1));
        } else if open_ends || units.len() == 0 {
            let x = (words, spans_real && (open_ends || units.len() == 0 || units.last().1));
            assert(nu == units.push(x));
            assert(nu.drop_last() =~= units);
        } else {
            let x = (units.last().0 + words, spans_real && (open_ends || units.len() == 0 || units.last().1));
            assert(nu == units.update(units.len() - 1, x));
            assert(nu.drop_last() =~= units.drop_last());
            lemma_word_texts_add(units.last().0, words);
            assert(units_texts(nu) =~= units_texts(units) + word_texts(words));
        }
    }
}

/// Atom ranges close consecutively: the first opens at 0, each opens where
/// the one before closed, and the open atom starts where the last closed,
/// when every word holds an alphanumeric character.
proof fn lemma_atom_state_tiles(ws: Seq<WordView>, i: int)
    requires
        0 <= i <= ws.len(),
        forall|j: int| 0 <= j < ws.len() ==> has_alphanumeric(#[trigger] ws[j].text),
    ensures
        ({
            let (rs, st) = atom_state(ws, i);
            &&& 0 <= st <= i
            &&& rs.len() == 0 ==> st == 0
            &&& rs.len() > 0 ==> rs[0].0 == 0 && rs.last().1 == st
            &&& forall|k: int| 0 <= k < rs.len() - 1 ==> (#[trigger] rs[k]).1 == rs[k + 1].0
        }),
    decreases i,
{
    if i > 0 {
        lemma_atom_state_tiles(ws, i - 1);
        let (rs, st) = atom_state(ws, i - 1);
        if ends_sentence(ws[i - 1].text) {
            assert(has_alphanumeric(ws[i - 1].text));
            assert(any_alnum_words(ws, st, i));
            let nrs = rs.push((st, i));
            assert(atom_state(ws, i).0 == nrs);
            assert forall|k: int| 0 <= k < nrs.len() - 1 implies (#[trigger] nrs[k]).1 == nrs[k + 1].0 by {
                assert(nrs[k] == rs[k]);
                if k + 1 < rs.len() {
                    assert(nrs[k + 1] == rs[k + 1]);
                }
            }
        }
    }
}

proof fn lemma_tiles_texts(ws: Seq<WordView>, rs: Seq<(int, int)>, b: bool)
    requires
        rs.len() > 0,
        rs[0].0 == 0,
        forall|k: int| 0 <= k < rs.len() ==> 0 <= (#[trigger] rs[k]).0 <= rs[k].1 <= ws.len(),
        forall|k: int| 0 <= k < rs.len() - 1 ==> (#[trigger] rs[k]).1 == rs[k + 1].0,
    ensures
        units_texts(rs.map_values(|r: (int, int)| (ws.subrange(r.0, r.1), b))) == word_texts(
            ws.subrange(0, rs.last().1),
        ),
    decreases rs.len(),
{
    let us = rs.map_values(|r: (int, int)| (ws.subrange(r.0, r.1), b));
    let l = rs.last();
    assert(l == rs[rs.len() - 1]);
    if rs.len() == 1 {
        assert(us.drop_last() =~= Seq::<(Seq<WordView>, bool)>::empty());
        assert(us[0] == (ws.subrange(rs[0].0, rs[0].1), b));
        assert(us.last() == (ws.subrange(0, l.1), b));
        assert(units_texts(us.drop_last()) =~= Seq::<Seq<char>>::empty());
        assert(units_texts(us) =~= word_texts(ws.subrange(0, l.1)));
    } else {
        let p = rs.drop_last();
        assert forall|k: int| 0 <= k < p.len() implies 0 <= (#[trigger] p[k]).0 <= p[k].1 <= ws.len() by {
            assert(p[k] == rs[k]);
        }
        assert forall|k: int| 0 <= k < p.len() - 1 implies (#[trigger] p[k]).1 == p[k + 1].0 by {
            assert(p[k] == rs[k]);
            assert(p[k + 1] == rs[k + 1]);
        }
        lemma_tiles_texts(ws, p, b);
        assert(us.drop_last() =~= p.map_values(|r: (int, int)| (ws.subrange(r.0, r.1), b)));
        let m = p.last().1;
        assert(p.last() == rs[rs.len() - 2]);
        assert(m == l.0);
        assert(us.last() == (ws.subrange(l.0, l.1), b));
        lemma_word_texts_add(ws.subrange(0, m), ws.subrange(m, l.1));
        assert(ws.subrange(0, m) + ws.subrange(m, l.1) =~= ws.subrange(0, l.1));
    }
}

proof fn lemma_unit_atoms_texts(u: (Seq<WordView>, bool))
    requires
        forall|j: int| 0 <= j < u.0.len() ==> has_alphanumeric(#[trigger] u.0[j].text),
    ensures
        units_texts(unit_atoms(u)) == word_texts(u.0),
{
    let ws = u.0;
    lemma_atom_state_tiles(ws, ws.len() as int);
    lemma_atom_ranges_bounds(ws);
    let (rs, st) = atom_state(ws, ws.len() as int);
    let r = atom_ranges(ws);
    assert(unit_atoms(u) == r.map_values(|x: (int, int)| (ws.subrange(x.0, x.1), u.1)));
    if ws.len() == 0 {
        assert(r.len() == 0);
        assert(unit_atoms(u) =~= Seq::<(Seq<WordView>, bool)>::empty());
        assert(word_texts(ws) =~= Seq::<Seq<char>>::empty());
    } else {
        if st < ws.len() {
            assert(has_alphanumeric(ws[st].text));
            assert(any_alnum_words(ws, st, ws.len() as int));
            assert(r == rs.push((st, ws.len() as int)));
        } else {
            assert(r == rs);
        }
        assert(r.len() > 0);
        assert(r[0].0 == 0) by {
            if rs.len() > 0 {
                assert(r[0] == rs[0]);
            }
        }
        assert(r.last().1 == ws.len());
        assert forall|k: int| 0 <= k < r.len() - 1 implies (#[trigger] r[k]).1 == r[k + 1].0 by {
            assert(r[k] == rs[k]);
            if k + 1 < rs.len() {
                assert(r[k + 1] == rs[k + 1]);
            }
        }
        lemma_tiles_texts(ws, r, u.1);
        assert(ws.subrange(0, ws.len() as int) =~= ws);
    }
}

proof fn lemma_atoms_texts(units: Seq<(Seq<WordView>, bool)>)
    requires
        forall|u: int, j: int| 0 <= u < units.len() && 0 <= j < units[u].0.len() ==> has_alphanumeric(
            (#[trigger] units[u].0[j]).text,
        ),
    ensures
        units_texts(atoms_of(units)) == units_texts(units),
    decreases units.len(),
{
    if units.len() > 0 {
        let p = units.drop_last();
        assert forall|u: int, j: int| 0 <= u < p.len() && 0 <= j < p[u].0.len() implies has_alphanumeric(
            (#[trigger] p[u].0[j]).text,
        ) by {
            assert(p[u] == units[u]);
        }
        lemma_atoms_texts(p);
        let u = units.last();
        assert(u == units[units.len() - 1]);
        lemma_unit_atoms_texts(u);
        lemma_units_texts_add(atoms_of(p), unit_atoms(u));
    }
}

proof fn lemma_atoms_words(units: Seq<(Seq<WordView>, bool)>, pred: spec_fn(WordView) -> bool)
    requires
        forall|u: int, j: int| 0 <= u < units.len() && 0 <= j < units[u].0.len() ==> pred(#[trigger] units[u].0[j]),
    ensures
        forall|a: int, j: int|
            0 <= a < atoms_of(units).len() && 0 <= j < atoms_of(units)[a].0.len() ==> pred(
                #[trigger] atoms_of(units)[a].0[j],
            ),
    decreases units.len(),
{
    if units.len() > 0 {
        let p = units.drop_last();
        assert forall|u: int, j: int| 0 <= u < p.len() && 0 <= j < p[u].0.len() implies pred(#[trigger] p[u].0[j]) by {
            assert(p[u] == units[u]);
        }
        lemma_atoms_words(p, pred);
        let u = units.last();
        assert(u == units[units.len() - 1]);
        lemma_atom_ranges_bounds(u.0);
        let prev = atoms_of(p);
        let all = atoms_of(units);
        assert(all == prev + unit_atoms(u));
        assert forall|a: int, j: int| 0 <= a < all.len() && 0 <= j < all[a].0.len() implies pred(
            #[trigger] all[a].0[j],
        ) by {
            if a < prev.len() {
                assert(all[a] == prev[a]);
                assert(pred(prev[a].0[j]));
            } else {
                let r = atom_ranges(u.0)[a - prev.len()];
                assert(all[a] == unit_atoms(u)[a - prev.len()]);
                assert(unit_atoms(u)[a - prev.len()] == (u.0.subrange(r.0, r.1), u.1));
                assert(all[a].0 == u.0.subrange(r.0, r.1));
                assert(0 <= r.0 < r.1 <= u.0.len());
                assert(all[a].0[j] == units[units.len() - 1].0[r.0 + j]);
                assert(pred(units[units.len() - 1].0[r.0 + j]));
            }
        }
    }
}

proof fn lemma_outputs_texts(atoms: Seq<(Seq<WordView>, bool)>, out: Seq<SegmentView>, k: int)
    requires
        0 <= k <= atoms.len(),
        out.len() == atoms.len(),
        forall|m: int| 0 <= m < atoms.len() ==> split_ws((#[trigger] out[m]).text) == word_texts(atoms[m].0),
    ensures
        texts_words(out.subrange(0, k).map_values(|o: SegmentView| o.text)) == units_texts(atoms.subrange(0, k)),
    decreases k,
{
    if k > 0 {
        lemma_outputs_texts(atoms, out, k - 1);
        let tx = out.subrange(0, k).map_values(|o: SegmentView| o.text);
        assert(tx.drop_last() =~= out.subrange(0, k - 1).map_values(|o: SegmentView| o.text));
        assert(tx.last() == out[k - 1].text);
        assert(atoms.subrange(0, k).drop_last() =~= atoms.subrange(0, k - 1));
        assert(atoms.subrange(0, k).last() == atoms[k - 1]);
    } else {
        assert(out.subrange(0, k).map_values(|o: SegmentView| o.text) =~= Seq::<Seq<char>>::empty());
        assert(atoms.subrange(0, k) =~= Seq::<(Seq<WordView>, bool)>::empty());
    }
}

proof fn lemma_rows_texts(ts: Seq<TranscriptView>, k: int)
    requires
        0 <= k <= ts.len(),
        forall|r: int| 0 <= r < ts.len() ==> (#[trigger] ts[r]).token_words is None,
        forall|r: int, j: int|
            0 <= r < ts.len() && 0 <= j < split_ws(ts[r].text).len() ==> !is_eot_marker(
                #[trigger] split_ws(ts[r].text)[j],
            ) && !has_cjk_char(split_ws(ts[r].text)[j]),
    ensures
        rows_word_texts(ts, k) == texts_words(ts.subrange(0, k).map_values(|t: TranscriptView| t.text)),
        forall|r: int| 0 <= r < k ==> word_texts((#[trigger] row_words(ts[r], r)).0) == split_ws(ts[r].text),
    decreases k,
{
    if k > 0 {
        lemma_rows_texts(ts, k - 1);
        let t = ts[k - 1];
        let sw = split_ws(t.text);
        assert(t.token_words is None);
        assert forall|i: int| 0 <= i < sw.len() implies !is_eot_marker(#[trigger] sw[i]) by {
            assert(!is_eot_marker(split_ws(ts[k - 1].text)[i]));
        }
        lemma_filter_all(sw);
        assert(row_texts(t) == sw);
        assert forall|j: int| 0 <= j < sw.len() implies !has_cjk_char(#[trigger] sw[j]) by {
            assert(!is_eot_marker(split_ws(ts[k - 1].text)[j]));
        }
        lemma_proportional_texts(t, sw, sw.len() as int, k - 1);
        assert(sw.subrange(0, sw.len() as int) =~= sw);
        assert(word_texts(row_words(t, k - 1).0) == sw);
        let tx = ts.subrange(0, k).map_values(|t: TranscriptView| t.text);
        assert(tx.drop_last() =~= ts.subrange(0, k - 1).map_values(|t: TranscriptView| t.text));
        assert(tx.last() == t.text);
    } else {
        assert(ts.subrange(0, k).map_values(|t: TranscriptView| t.text) =~= Seq::<Seq<char>>::empty());
    }
}

/// Alignment keeps every word once and in order: the whitespace words of
/// the aligned rows, row after row, are exactly those of the transcript
/// rows; provided no row carries token words, and every whitespace word
/// holds an alphanumeric character and is neither an end-of-turn marker nor
/// holds a CJK character.
pub proof fn lemma_alignment_keeps_words(ts: Seq<TranscriptView>, segs: Seq<DiarizationSegment>)
    requires
        forall|r: int| 0 <= r < ts.len() ==> (#[trigger] ts[r]).token_words is None,
        forall|r: int, j: int|
            0 <= r < ts.len() && 0 <= j < split_ws(ts[r].text).len() ==> has_alphanumeric(
                #[trigger] split_ws(ts[r].text)[j],
            ) && !is_eot_marker(split_ws(ts[r].text)[j]) && !has_cjk_char(split_ws(ts[r].text)[j]),
    ensures
        texts_words(aligned_segments(ts, segs).map_values(|o: SegmentView| o.text)) == texts_words(
            ts.map_values(|t: TranscriptView| t.text),
        ),
{
    let out = aligned_segments(ts, segs);
    if ts.len() == 0 {
        assert(out.map_values(|o: SegmentView| o.text) =~= ts.map_values(|t: TranscriptView| t.text));
    } else if segs.len() == 0 {
        assert(out.map_values(|o: SegmentView| o.text) =~= ts.map_values(|t: TranscriptView| t.text));
    } else {
        let n = ts.len() as int;
        lemma_rows_texts(ts, n);
        assert(ts.subrange(0, n) =~= ts);
        let good = |w: WordView| has_alphanumeric(w.text) && plain_word(w);
        assert forall|r: int, j: int| 0 <= r < ts.len() && 0 <= j < row_words(ts[r], r).0.len() implies good(
            #[trigger] row_words(ts[r], r).0[j],
        ) by {
            let sw = split_ws(ts[r].text);
            lemma_split_ws_tokens(ts[r].text);
            assert(word_texts(row_words(ts[r], r).0) == sw);
            assert(row_words(ts[r], r).0[j].text == word_texts(row_words(ts[r], r).0)[j]);
            assert(sw[j].len() > 0 && no_white_space(sw[j]));
            assert(has_alphanumeric(split_ws(ts[r].text)[j]));
        }
        lemma_units_words(ts, n, good);
        let units = logical_units(ts);
        lemma_units_texts_rows(ts, n);
        lemma_atoms_texts(units);
        let atoms = atoms_of(units);
        lemma_align_atoms_texts(atoms, segs, ts);
        lemma_atoms_words(units, good);
        assert forall|m: int| 0 <= m < atoms.len() implies split_ws((#[trigger] out[m]).text) == word_texts(
            atoms[m].0,
        ) by {
            let ws = atoms[m].0;
            lemma_joined_plain(ws, ws.len() as int);
            assert(ws.subrange(0, ws.len() as int) =~= ws);
            let t = word_texts(ws);
            assert(plain_words(t)) by {
                assert forall|k: int| 0 <= k < t.len() implies (#[trigger] t[k]).len() > 0 && no_white_space(t[k]) by {
                    assert(t[k] == ws[k].text);
                    assert(plain_word(ws[k]));
                }
            }
            lemma_split_joined(t);
        }
        lemma_outputs_texts(atoms, out, atoms.len() as int);
        assert(out.subrange(0, atoms.len() as int) =~= out);
        assert(atoms.subrange(0, atoms.len() as int) =~= atoms);
    }
}

proof fn lemma_units_not_real(ts: Seq<TranscriptView>, k: int)
    requires
        0 <= k <= ts.len(),
        forall|r: int| 0 <= r < ts.len() ==> (#[trigger] ts[r]).token_words is None,
    ensures
        forall|u: int| 0 <= u < units_upto(ts, k).0.len() ==> !(#[trigger] units_upto(ts, k).0[u]).1,
    decreases k,
{
    if k > 0 {
        lemma_units_not_real(ts, k - 1);
        assert(ts[k - 1].token_words is None);
        assert(!row_words(ts[k - 1], k - 1).1);
        let units = units_upto(ts, k - 1).0;
        let nu = units_upto(ts, k).0;
        assert forall|u: int| 0 <= u < nu.len() implies !(#[trigger] nu[u]).1 by {
            if u < units.len() {
                assert(units[u] == units_upto(ts, k - 1).0[u]);
            }
        }
    }
}

proof fn lemma_align_atoms_not_auto(atoms: Seq<(Seq<WordView>, bool)>, segs: Seq<DiarizationSegment>, ts: Seq<TranscriptView>)
    requires
        forall|a: int| 0 <= a < atoms.len() ==> !(#[trigger] atoms[a]).1,
    ensures
        forall|m: int|
            0 <= m < align_atoms(atoms, segs, ts).0.len() ==> (#[trigger] align_atoms(atoms, segs, ts).0[m]).speaker_source
                != SpeakerSource::Auto,
    decreases atoms.len(),
{
    if atoms.len() > 0 {
        let p = atoms.drop_last();
        assert forall|a: int| 0 <= a < p.len() implies !(#[trigger] p[a]).1 by {
            assert(p[a] == atoms[a]);
        }
        lemma_align_atoms_not_auto(p, segs, ts);
        assert(!atoms[atoms.len() - 1].1);
        let o = align_atoms(atoms, segs, ts).0;
        let q = align_atoms(p, segs, ts).0;
        assert forall|m: int| 0 <= m < o.len() implies (#[trigger] o[m]).speaker_source != SpeakerSource::Auto by {
            if m < q.len() {
                assert(o[m] == q[m]);
            }
        }
    }
}

/// Without token words no aligned row claims real token times: no segment's
/// speaker source is `Auto`.
pub proof fn lemma_no_tokens_no_auto(ts: Seq<TranscriptView>, segs: Seq<DiarizationSegment>)
    requires
        forall|r: int| 0 <= r < ts.len() ==> (#[trigger] ts[r]).token_words is None,
    ensures
        forall|m: int|
            0 <= m < aligned_segments(ts, segs).len() ==> (#[trigger] aligned_segments(ts, segs)[m]).speaker_source
                != SpeakerSource::Auto,
{
    if ts.len() > 0 && segs.len() > 0 {
        lemma_units_not_real(ts, ts.len() as int);
        let units = logical_units(ts);
        let atoms = atoms_of(units);
        lemma_atoms_flags(units);
        lemma_align_atoms_not_auto(atoms, segs, ts);
    } else if ts.len() > 0 {
        let out = aligned_segments(ts, segs);
        assert forall|m: int| 0 <= m < out.len() implies (#[trigger] out[m]).speaker_source != SpeakerSource::Auto by {
            assert(out[m] == unknown_segment(ts[m]));
        }
    }
}

proof fn lemma_atoms_flags(units: Seq<(Seq<WordView>, bool)>)
    requires
        forall|u: int| 0 <= u < units.len() ==> !(#[trigger] units[u]).1,
    ensures
        forall|a: int| 0 <= a < atoms_of(units).len() ==> !(#[trigger] atoms_of(units)[a]).1,
    decreases units.len(),
{
    if units.len() > 0 {
        let p = units.drop_last();
        assert forall|u: int| 0 <= u < p.len() implies !(#[trigger] p[u]).1 by {
            assert(p[u] == units[u]);
        }
        lemma_atoms_flags(p);
        let u = units.last();
        assert(!units[units.len() - 1].1);
        let prev = atoms_of(p);
        let all = atoms_of(units);
        assert(all == prev + unit_atoms(u));
        assert forall|a: int| 0 <= a < all.len() implies !(#[trigger] all[a]).1 by {
            if a < prev.len() {
                assert(all[a] == prev[a]);
            } else {
                assert(all[a] == unit_atoms(u)[a - prev.len()]);
            }
        }
    }
}

/// Whether a transcript segment carries usable per-word token timestamps:
/// the field is present AND non-empty (the sentence-atom pipeline
/// additionally clamps the token JSON, see `token_words_of`).
pub fn uses_token_alignment(transcript: &TranscriptInput) -> (r: bool)
    ensures
        r == (match transcript@.token_words {
            Some(v) => v.len() > 0,
            None => false,
        }),
{
    match &transcript.token_words {
        Some(t) => t.len() > 0,
        None => false,
    }
}

// ---------------------------------------------------------------------------
// Duplicate re-transcription clusters
// ---------------------------------------------------------------------------

/// Two aligned segments starting further apart than this are never paired.
pub const DUPLICATE_WINDOW_MS: i64 = 10_000;

/// Largest silence between the two members of a duplicate pair.
pub const DUPLICATE_MAX_GAP_MS: i64 = 2_000;

/// Normalized characters: detokenize, lowercase, non-alphanumeric → space.
pub open spec fn normalized_chars(text: Seq<char>) -> Seq<char> {
    str_lowercase(detokenized(text)).map_values(
        |c: char|
            if is_alphanumeric(c) {
                c
            } else {
                ' '
            },
    )
}

/// Normalized token list of a text.
pub open spec fn normalized_token_seq(text: Seq<char>) -> Seq<Seq<char>> {
    split_ws(normalized_chars(text))
}

fn normalized_tokens(text: &str) -> (r: Vec<Vec<char>>)
    ensures
        char_seqs(r@) == normalized_token_seq(text@),
{
    let d = detokenize(text);
    let lower = str_to_lowercase(d.as_str());
    let cs = chars_of(lower.as_str());
    let mut mapped: Vec<char> = Vec::new();
    let mut i: usize = 0;
    while i < cs.len()
        invariant
            i <= cs.len(),
            cs@ == str_lowercase(detokenized(text@)),
            mapped@ == cs@.subrange(0, i as int).map_values(
                |c: char|
                    if is_alphanumeric(c) {
                        c
                    } else {
                        ' '
                    },
            ),
        decreases cs.len() - i,
    {
        let c = cs[i];
        let ghost before = mapped@;
        if char_is_alphanumeric(c) {
            mapped.push(c);
        } else {
            mapped.push(' ');
        }
        i += 1;
        assert(mapped@ =~= cs@.subrange(0, i as int).map_values(
            |c: char|
                if is_alphanumeric(c) {
                    c
                } else {
                    ' '
                },
        ));
    }
    assert(cs@.subrange(0, cs.len() as int) =~= cs@);
    split_whitespace(&mapped)
}

/// Length of the common suffix of `a[..i]` and `b[..j]`.
pub open spec fn common_suffix(a: Seq<Seq<char>>, b: Seq<Seq<char>>, i: int, j: int) -> nat
    decreases i,
{
    if i > 0 && j > 0 && a[i - 1] == b[j - 1] {
        1 + common_suffix(a, b, i - 1, j - 1)
    } else {
        0
    }
}

pub open spec fn max_nat(x: nat, y: nat) -> nat {
    if x >= y {
        x
    } else {
        y
    }
}

/// Longest common suffix of `a[..i]` with any `b[..j']`, j' <= j.
pub open spec fn suffix_best_row(a: Seq<Seq<char>>, b: Seq<Seq<char>>, i: int, j: int) -> nat
    decreases j,
{
    if j <= 0 {
        0
    } else {
        max_nat(suffix_best_row(a, b, i, j - 1), common_suffix(a, b, i, j))
    }
}

/// Longest common contiguous run within `a[..i]` and `b`.
pub open spec fn suffix_best(a: Seq<Seq<char>>, b: Seq<Seq<char>>, i: int) -> nat
    decreases i,
{
    if i <= 0 {
        0
    } else {
        max_nat(suffix_best(a, b, i - 1), suffix_best_row(a, b, i, b.len() as int))
    }
}

/// Longest common CONTIGUOUS token run of two token lists.
pub open spec fn longest_shared(a: Seq<Seq<char>>, b: Seq<Seq<char>>) -> nat {
    suffix_best(a, b, a.len() as int)
}

proof fn lemma_common_suffix_bound(a: Seq<Seq<char>>, b: Seq<Seq<char>>, i: int, j: int)
    requires
        i >= 0,
    ensures
        common_suffix(a, b, i, j) <= i,
    decreases i,
{
    if i > 0 && j > 0 && a[i - 1] == b[j - 1] {
        lemma_common_suffix_bound(a, b, i - 1, j - 1);
    }
}


/// Longest common CONTIGUOUS token subsequence length (a shared chunk, not a
/// scattered LCS).
fn longest_shared_chunk(a: &Vec<Vec<char>>, b: &Vec<Vec<char>>) -> (r: usize)
    ensures
        r == longest_shared(char_seqs(a@), char_seqs(b@)),
{
    let ghost sa = char_seqs(a@);
    let ghost sb = char_seqs(b@);
    let mut best: usize = 0;
    let mut dp: Vec<usize> = Vec::new();
    dp.push(0);
    let mut z: usize = 0;
    while z < b.len()
        invariant
            z <= b.len(),
            dp@.len() == z + 1,
            forall|j: int| 0 <= j <= z ==> dp@[j] == 0,
        decreases b.len() - z,
    {
        dp.push(0);
        z += 1;
    }
    let mut i: usize = 0;
    while i < a.len()
        invariant
            i <= a.len(),
            sa == char_seqs(a@),
            sb == char_seqs(b@),
            dp@.len() == b.len() + 1,
            forall|j: int| 0 <= j <= b.len() ==> dp@[j] == common_suffix(sa, sb, i as int, j),
            best == suffix_best(sa, sb, i as int),
            best <= i,
        decreases a.len() - i,
    {
        let mut prev_diag: usize = 0;
        let mut j: usize = 0;
        proof {
            lemma_common_suffix_bound(sa, sb, i as int, 0);
        }
        while j < b.len()
            invariant
                i < a.len(),
                j <= b.len(),
                sa == char_seqs(a@),
                sb == char_seqs(b@),
                dp@.len() == b.len() + 1,
                dp@[0] == 0,
                forall|jj: int| 1 <= jj <= j ==> dp@[jj] == common_suffix(sa, sb, i + 1, jj),
                forall|jj: int| j < jj <= b.len() ==> dp@[jj] == common_suffix(sa, sb, i as int, jj),
                prev_diag == common_suffix(sa, sb, i as int, j as int),
                prev_diag <= i,
                best == max_nat(suffix_best(sa, sb, i as int), suffix_best_row(sa, sb, i + 1, j as int)),
                best <= i + 1,
            decreases b.len() - j,
        {
            let tmp = dp[j + 1];
            assert(sa[i as int] == a@[i as int]@ && sb[j as int] == b@[j as int]@);
            if chars_equal(&a[i], &b[j]) {
                dp.set(j + 1, prev_diag + 1);
                if prev_diag + 1 > best {
                    best = prev_diag + 1;
                }
            } else {
                dp.set(j + 1, 0);
            }
            proof {
                lemma_common_suffix_bound(sa, sb, i as int, j + 1);
            }
            prev_diag = tmp;
            j += 1;
        }
        i += 1;
    }
    best
}

/// Two aligned segments form a chunk-overlap re-transcription pair:
/// different badges (not both unlabeled); disjoint spans with a gap of at
/// most `DUPLICATE_MAX_GAP_MS`; their normalized token lists share a
/// contiguous run of at least 3 tokens covering at least 80% (rounded down)
/// of the shorter list.
pub open spec fn is_duplicate_pair(a: SegmentView, b: SegmentView) -> bool {
    let unknown = badge_text(None);
    if a.speaker == b.speaker || (a.speaker == unknown && b.speaker == unknown) {
        false
    } else if !(a.audio_end_ms <= b.audio_start_ms || b.audio_end_ms <= a.audio_start_ms) {
        false
    } else {
        let gap = if a.audio_end_ms <= b.audio_start_ms {
            b.audio_start_ms - a.audio_end_ms
        } else {
            a.audio_start_ms - b.audio_end_ms
        };
        let ta = normalized_token_seq(a.text);
        let tb = normalized_token_seq(b.text);
        let shared = longest_shared(ta, tb);
        let shorter = if ta.len() <= tb.len() {
            ta.len()
        } else {
            tb.len()
        };
        gap <= DUPLICATE_MAX_GAP_MS && shared >= 3 && shorter > 0 && shared >= (4 * shorter) / 5
    }
}

fn duplicate_pair(
    a: &AlignedSegment,
    b: &AlignedSegment,
    ta: &Vec<Vec<char>>,
    tb: &Vec<Vec<char>>,
) -> (r: bool)
    requires
        char_seqs(ta@) == normalized_token_seq(a@.text),
        char_seqs(tb@) == normalized_token_seq(b@.text),
    ensures
        r == is_duplicate_pair(a@, b@),
{
    let unknown = unknown_badge();
    if crate::text::str_eq(a.speaker.as_str(), b.speaker.as_str()) || (crate::text::str_eq(
        a.speaker.as_str(),
        unknown.as_str(),
    ) && crate::text::str_eq(b.speaker.as_str(), unknown.as_str())) {
        return false;
    }
    let gap: i128 = if a.audio_end_ms <= b.audio_start_ms {
        b.audio_start_ms as i128 - a.audio_end_ms as i128
    } else if b.audio_end_ms <= a.audio_start_ms {
        a.audio_start_ms as i128 - b.audio_end_ms as i128
    } else {
        return false;
    };
    if gap > DUPLICATE_MAX_GAP_MS as i128 {
        return false;
    }
    let shared = longest_shared_chunk(ta, tb);
    let shorter = if ta.len() <= tb.len() {
        ta.len()
    } else {
        tb.len()
    };
    assert(char_seqs(ta@).len() == ta@.len() && char_seqs(tb@).len() == tb@.len());
    shared >= 3 && shorter > 0 && (shared as u128) >= (4 * (shorter as u128)) / 5
}

/// Spans sorted by (start, end).
pub open spec fn sorted_spans(spans: Seq<(int, int)>) -> Seq<(int, int)> {
    stable_order(spans).map_values(|i: int| spans[i])
}

/// Covered length and open span after merging the first `k` sorted spans.
pub open spec fn merge_state(s: Seq<(int, int)>, k: int) -> (int, Option<(int, int)>)
    decreases k,
{
    if k <= 0 {
        (0, None)
    } else {
        let (cov, cur) = merge_state(s, k - 1);
        let (a, b) = s[k - 1];
        match cur {
            Some((cs, ce)) => if a <= ce {
                (cov, Some((cs, if ce >= b { ce } else { b })))
            } else {
                (cov + (ce - cs), Some((a, b)))
            },
            None => (cov, Some((a, b))),
        }
    }
}

/// Total time covered by a set of spans, merged in sorted order.
pub open spec fn covered_len(spans: Seq<(int, int)>) -> int {
    let s = sorted_spans(spans);
    let (cov, cur) = merge_state(s, s.len() as int);
    match cur {
        Some((cs, ce)) => cov + (ce - cs),
        None => cov,
    }
}

fn merged_covered_len(spans: &Vec<(i64, i64)>) -> (r: i128)
    requires
        spans@.len() < 0x8000_0000_0000_0000,
    ensures
        r == covered_len(key_views(spans@)),
{
    let ghost kv = key_views(spans@);
    let order = stable_order_of(spans);
    proof {
        lemma_stable_order_unique(kv, index_seq(order@), stable_order(kv));
    }
    let ghost sorted = sorted_spans(kv);
    let mut covered: i128 = 0;
    let mut cur: Option<(i64, i64)> = None;
    let mut k: usize = 0;
    while k < order.len()
        invariant
            k <= order@.len(),
            order@.len() == spans@.len(),
            spans@.len() < 0x8000_0000_0000_0000,
            kv == key_views(spans@),
            is_stable_order(kv, index_seq(order@)),
            sorted == sorted_spans(kv),
            index_seq(order@) == stable_order(kv),
            -(k as int) * 0x1_0000_0000_0000_0000 <= covered <= (k as int) * 0x1_0000_0000_0000_0000,
            merge_state(sorted, k as int) == (covered as int, match cur {
                Some(c) => Some((c.0 as int, c.1 as int)),
                None => None,
            }),
        decreases order.len() - k,
    {
        let idx = order[k];
        assert(index_seq(order@)[k as int] == idx as int);
        assert(0 <= idx < spans.len());
        let (a, b) = spans[idx];
        assert(sorted[k as int] == kv[idx as int]);
        match cur {
            Some((cs, ce)) => {
                if a <= ce {
                    cur = Some((cs, if ce >= b {
                        ce
                    } else {
                        b
                    }));
                } else {
                    covered = covered + (ce as i128 - cs as i128);
                    cur = Some((a, b));
                }
            },
            None => {
                cur = Some((a, b));
            },
        }
        k += 1;
    }
    assert(sorted.len() == order@.len());
    match cur {
        Some((cs, ce)) => covered + (ce as i128 - cs as i128),
        None => covered,
    }
}

/// Time keys of aligned segments.
pub open spec fn seg_keys(al: Seq<SegmentView>) -> Seq<(int, int)> {
    al.map_values(|s: SegmentView| (s.audio_start_ms, s.audio_end_ms))
}

/// Positions `a < b` of the time order are scanned as a candidate pair:
/// starts within `DUPLICATE_WINDOW_MS` and a duplicate pair.
pub open spec fn pair_edge(al: Seq<SegmentView>, bt: Seq<int>, a: int, b: int) -> bool {
    al[bt[b]].audio_start_ms - al[bt[a]].audio_start_ms <= DUPLICATE_WINDOW_MS
        && is_duplicate_pair(al[bt[a]], al[bt[b]])
}

/// The pairs found for time position `a` against positions a+1 .. b-1.
pub open spec fn row_edges(al: Seq<SegmentView>, bt: Seq<int>, a: int, b: int) -> Seq<(int, int)>
    decreases b - a,
{
    if b <= a + 1 {
        Seq::empty()
    } else {
        row_edges(al, bt, a, b - 1) + if pair_edge(al, bt, a, b - 1) {
            seq![(bt[a], bt[b - 1])]
        } else {
            Seq::empty()
        }
    }
}

/// The pairs found for time positions 0 .. a-1, in scan order.
pub open spec fn scan_edges(al: Seq<SegmentView>, bt: Seq<int>, a: int) -> Seq<(int, int)>
    decreases a,
{
    if a <= 0 {
        Seq::empty()
    } else {
        scan_edges(al, bt, a - 1) + row_edges(al, bt, a - 1, al.len() as int)
    }
}

/// Every duplicate pair among the segments, in time-ordered scan order.
pub open spec fn duplicate_edges(al: Seq<SegmentView>) -> Seq<(int, int)> {
    scan_edges(al, stable_order(seg_keys(al)), al.len() as int)
}

/// `x` and `y` are joined by the equivalence closure of the edges.
pub open spec fn connected(edges: Seq<(int, int)>, x: int, y: int) -> bool
    decreases edges.len(),
{
    if edges.len() == 0 {
        x == y
    } else {
        let (i, j) = edges.last();
        let p = edges.drop_last();
        connected(p, x, y) || (connected(p, x, i) && connected(p, j, y)) || (connected(p, x, j)
            && connected(p, i, y))
    }
}

/// Two segments belong to one duplicate cluster.
pub open spec fn same_cluster(al: Seq<SegmentView>, x: int, y: int) -> bool {
    connected(duplicate_edges(al), x, y)
}

/// Segment `i` shares its cluster with another segment.
pub open spec fn in_multi_cluster(al: Seq<SegmentView>, i: int) -> bool {
    exists|j: int| 0 <= j < al.len() && j != i && #[trigger] same_cluster(al, i, j)
}

/// Spans of the members of `i`'s cluster carrying badge `b`, among the
/// first `k` segments, in index order.
pub open spec fn badge_spans_upto(al: Seq<SegmentView>, i: int, b: Seq<char>, k: int) -> Seq<
    (int, int),
>
    decreases k,
{
    if k <= 0 {
        Seq::empty()
    } else {
        let prev = badge_spans_upto(al, i, b, k - 1);
        if same_cluster(al, i, k - 1) && al[k - 1].speaker == b {
            prev.push((al[k - 1].audio_start_ms, al[k - 1].audio_end_ms))
        } else {
            prev
        }
    }
}

/// Time covered by the members of `i`'s cluster with badge `b`.
pub open spec fn badge_covered(al: Seq<SegmentView>, i: int, b: Seq<char>) -> int {
    covered_len(badge_spans_upto(al, i, b, al.len() as int))
}

/// `e` is the earliest member (by start, end, index) of its badge within
/// `i`'s cluster.
pub open spec fn is_badge_earliest(al: Seq<SegmentView>, i: int, e: int) -> bool {
    &&& 0 <= e < al.len()
    &&& same_cluster(al, i, e)
    &&& forall|k: int|
        0 <= k < al.len() && k != e && #[trigger] same_cluster(al, i, k) && al[k].speaker
            == al[e].speaker ==> key_before(seg_keys(al), e, k)
}

pub open spec fn badge_rank(b: Seq<char>) -> int {
    if b == badge_text(None) {
        0
    } else {
        1
    }
}

/// Survivor ranking key of candidate `e` in `i`'s cluster.
pub open spec fn survivor_key(al: Seq<SegmentView>, i: int, e: int) -> (int, int, int, int) {
    (badge_rank(al[e].speaker), badge_covered(al, i, al[e].speaker), al[e].audio_start_ms, e)
}

/// Labeled over "Unknown Speaker", then more covered time, then earlier
/// start, then lower index.
pub open spec fn survivor_below(x: (int, int, int, int), y: (int, int, int, int)) -> bool {
    ||| x.0 < y.0
    ||| (x.0 == y.0 && x.1 < y.1)
    ||| (x.0 == y.0 && x.1 == y.1 && x.2 > y.2)
    ||| (x.0 == y.0 && x.1 == y.1 && x.2 == y.2 && x.3 > y.3)
}

pub open spec fn is_survivor(al: Seq<SegmentView>, i: int, e: int) -> bool {
    &&& is_badge_earliest(al, i, e)
    &&& forall|e2: int|
        #[trigger] is_badge_earliest(al, i, e2) && e2 != e ==> survivor_below(
            survivor_key(al, i, e2),
            survivor_key(al, i, e),
        )
}

/// The member that survives `i`'s cluster: among the earliest member of
/// each badge, the labeled badge covering the most time, then the earliest
/// start, then the lowest index.
pub open spec fn survivor(al: Seq<SegmentView>, i: int) -> int {
    choose|e: int| is_survivor(al, i, e)
}

/// Earliest start among the first `k` members of `i`'s cluster (from
/// `i`'s own start).
pub open spec fn cluster_min_start(al: Seq<SegmentView>, i: int, k: int) -> int
    decreases k,
{
    if k <= 0 {
        al[i].audio_start_ms
    } else {
        let m = cluster_min_start(al, i, k - 1);
        if same_cluster(al, i, k - 1) && al[k - 1].audio_start_ms < m {
            al[k - 1].audio_start_ms
        } else {
            m
        }
    }
}

/// Latest end among the first `k` members of `i`'s cluster.
pub open spec fn cluster_max_end(al: Seq<SegmentView>, i: int, k: int) -> int
    decreases k,
{
    if k <= 0 {
        al[i].audio_end_ms
    } else {
        let m = cluster_max_end(al, i, k - 1);
        if same_cluster(al, i, k - 1) && al[k - 1].audio_end_ms > m {
            al[k - 1].audio_end_ms
        } else {
            m
        }
    }
}

/// Absorbed: a non-surviving member of a multi-member cluster.
pub open spec fn is_absorbed(al: Seq<SegmentView>, i: int) -> bool {
    in_multi_cluster(al, i) && survivor(al, i) != i
}

/// A kept segment; a cluster survivor's span is extended to the union of
/// its cluster's spans.
pub open spec fn resolved_segment(al: Seq<SegmentView>, i: int) -> SegmentView {
    let s = al[i];
    if in_multi_cluster(al, i) && survivor(al, i) == i {
        let us = cluster_min_start(al, i, al.len() as int);
        let ue = cluster_max_end(al, i, al.len() as int);
        SegmentView {
            audio_start_ms: if s.audio_start_ms <= us {
                s.audio_start_ms
            } else {
                us
            },
            audio_end_ms: if s.audio_end_ms >= ue {
                s.audio_end_ms
            } else {
                ue
            },
            ..s
        }
    } else {
        s
    }
}

proof fn lemma_cluster_bounds_cover(al: Seq<SegmentView>, i: int, j: int, k: int)
    requires
        0 <= j < k,
        same_cluster(al, i, j),
    ensures
        cluster_min_start(al, i, k) <= al[j].audio_start_ms,
        cluster_max_end(al, i, k) >= al[j].audio_end_ms,
    decreases k,
{
    if j < k - 1 {
        lemma_cluster_bounds_cover(al, i, j, k - 1);
    }
}

/// Duplicate resolution keeps a segment's text, badge, source row and
/// speaker source, and never shrinks its span; a cluster's surviving copy
/// spans every member of its cluster.
pub proof fn lemma_resolved_span_covers(al: Seq<SegmentView>, i: int)
    requires
        0 <= i < al.len(),
    ensures
        resolved_segment(al, i).text == al[i].text,
        resolved_segment(al, i).speaker == al[i].speaker,
        resolved_segment(al, i).original_id == al[i].original_id,
        resolved_segment(al, i).speaker_source == al[i].speaker_source,
        resolved_segment(al, i).audio_start_ms <= al[i].audio_start_ms,
        resolved_segment(al, i).audio_end_ms >= al[i].audio_end_ms,
        in_multi_cluster(al, i) && survivor(al, i) == i ==> forall|j: int|
            0 <= j < al.len() && #[trigger] same_cluster(al, i, j) ==> resolved_segment(
                al,
                i,
            ).audio_start_ms <= al[j].audio_start_ms && resolved_segment(al, i).audio_end_ms
                >= al[j].audio_end_ms,
{
    if in_multi_cluster(al, i) && survivor(al, i) == i {
        assert forall|j: int| 0 <= j < al.len() && #[trigger] same_cluster(al, i, j) implies resolved_segment(
            al,
            i,
        ).audio_start_ms <= al[j].audio_start_ms && resolved_segment(al, i).audio_end_ms
            >= al[j].audio_end_ms by {
            lemma_cluster_bounds_cover(al, i, j, al.len() as int);
        }
    }
}

pub open spec fn resolved_upto(al: Seq<SegmentView>, k: int) -> Seq<SegmentView>
    decreases k,
{
    if k <= 0 {
        Seq::empty()
    } else {
        resolved_upto(al, k - 1) + if is_absorbed(al, k - 1) {
            Seq::empty()
        } else {
            seq![resolved_segment(al, k - 1)]
        }
    }
}

/// Duplicate clusters resolved: one copy per cluster, in input order.
pub open spec fn resolved_clusters(al: Seq<SegmentView>) -> Seq<SegmentView> {
    if al.len() < 2 {
        al
    } else {
        resolved_upto(al, al.len() as int)
    }
}

/// Positions among the first `k` segments that duplicate resolution keeps,
/// in input order.
pub open spec fn kept_indexes(al: Seq<SegmentView>, k: int) -> Seq<int>
    decreases k,
{
    if k <= 0 {
        Seq::empty()
    } else {
        kept_indexes(al, k - 1) + if is_absorbed(al, k - 1) {
            Seq::empty()
        } else {
            seq![k - 1]
        }
    }
}

proof fn lemma_kept_upto(al: Seq<SegmentView>, k: int)
    requires
        0 <= k <= al.len(),
    ensures
        kept_indexes(al, k).len() == resolved_upto(al, k).len(),
        forall|m: int|
            0 <= m < kept_indexes(al, k).len() ==> 0 <= #[trigger] kept_indexes(al, k)[m] < k
                && !is_absorbed(al, kept_indexes(al, k)[m]) && resolved_upto(al, k)[m]
                == resolved_segment(al, kept_indexes(al, k)[m]),
        forall|j: int, m: int|
            0 <= j < m < kept_indexes(al, k).len() ==> #[trigger] kept_indexes(al, k)[j]
                < #[trigger] kept_indexes(al, k)[m],
        forall|i: int|
            0 <= i < k && !is_absorbed(al, i) ==> exists|m: int|
                0 <= m < kept_indexes(al, k).len() && #[trigger] kept_indexes(al, k)[m] == i,
    decreases k,
{
    if k > 0 {
        lemma_kept_upto(al, k - 1);
        let p = kept_indexes(al, k - 1);
        let q = kept_indexes(al, k);
        let rp = resolved_upto(al, k - 1);
        let rq = resolved_upto(al, k);
        if is_absorbed(al, k - 1) {
            assert(q =~= p);
            assert(rq =~= rp);
        } else {
            assert(q =~= p.push(k - 1));
            assert(rq =~= rp.push(resolved_segment(al, k - 1)));
            assert forall|i: int| 0 <= i < k && !is_absorbed(al, i) implies exists|m: int|
                0 <= m < q.len() && #[trigger] q[m] == i by {
                if i == k - 1 {
                    assert(q[p.len() as int] == i);
                } else {
                    let m = choose|m: int| 0 <= m < p.len() && #[trigger] p[m] == i;
                    assert(q[m] == i);
                }
            }
        }
    }
}

/// Duplicate resolution keeps whole segments in input order: the result is
/// the resolved copies of the kept positions (strictly increasing, and
/// every position that is not absorbed into another's cluster), each with
/// the text, badge, source row and speaker source of its input segment and
/// a span at least as wide.
pub proof fn lemma_resolution_keeps_order(al: Seq<SegmentView>)
    ensures
        ({
            let r = resolved_clusters(al);
            let idx = kept_indexes(al, al.len() as int);
            &&& idx.len() == r.len()
            &&& forall|j: int, m: int| 0 <= j < m < idx.len() ==> #[trigger] idx[j] < #[trigger] idx[m]
            &&& forall|m: int|
                0 <= m < idx.len() ==> 0 <= #[trigger] idx[m] < al.len() && r[m].text
                    == al[idx[m]].text && r[m].speaker == al[idx[m]].speaker && r[m].original_id
                    == al[idx[m]].original_id && r[m].speaker_source == al[idx[m]].speaker_source
                    && r[m].audio_start_ms <= al[idx[m]].audio_start_ms && r[m].audio_end_ms
                    >= al[idx[m]].audio_end_ms
            &&& forall|i: int|
                0 <= i < al.len() && !is_absorbed(al, i) ==> exists|m: int|
                    0 <= m < idx.len() && #[trigger] idx[m] == i
        }),
{
    let n = al.len() as int;
    lemma_kept_upto(al, n);
    let idx = kept_indexes(al, n);
    let r = resolved_clusters(al);
    if n < 2 {
        if n == 1 {
            assert(!in_multi_cluster(al, 0));
            assert(idx =~= seq![0int]) by {
                assert(kept_indexes(al, 0) =~= Seq::<int>::empty());
            }
        } else {
            assert(idx =~= Seq::<int>::empty());
        }
    }
    assert forall|m: int| 0 <= m < idx.len() implies 0 <= #[trigger] idx[m] < al.len() && r[m].text
        == al[idx[m]].text && r[m].speaker == al[idx[m]].speaker && r[m].original_id
        == al[idx[m]].original_id && r[m].speaker_source == al[idx[m]].speaker_source
        && r[m].audio_start_ms <= al[idx[m]].audio_start_ms && r[m].audio_end_ms
        >= al[idx[m]].audio_end_ms by {
        lemma_resolved_span_covers(al, idx[m]);
        if n < 2 {
            assert(idx[m] == m);
            assert(!in_multi_cluster(al, m));
        }
    }
}

/// Output segment `o` covers input segment `x`: its span contains `x`'s, and
/// it is "Unknown Speaker" only if `x` was.
pub open spec fn covers_input(o: SegmentView, x: SegmentView) -> bool {
    o.audio_start_ms <= x.audio_start_ms && o.audio_end_ms >= x.audio_end_ms && (o.speaker
        == badge_text(None) ==> x.speaker == badge_text(None))
}

/// No input segment's time is lost: each is covered by an output segment,
/// which is labeled whenever the input was.
pub open spec fn inputs_covered(al: Seq<SegmentView>, r: Seq<SegmentView>) -> bool {
    forall|i: int| 0 <= i < al.len() ==> #[trigger] input_covered(al, r, i)
}

/// Input segment `i` is covered by some output segment.
pub open spec fn input_covered(al: Seq<SegmentView>, r: Seq<SegmentView>, i: int) -> bool {
    exists|m: int| 0 <= m < r.len() && #[trigger] covers_input(r[m], al[i])
}

proof fn lemma_earliest_member(keys: Seq<(int, int)>, member: spec_fn(int) -> bool, k: int)
    requires
        0 <= k <= keys.len(),
        exists|q: int| 0 <= q < k && #[trigger] member(q),
    ensures
        exists|e: int|
            0 <= e < k && #[trigger] member(e) && forall|q: int|
                0 <= q < k && q != e && #[trigger] member(q) ==> key_before(keys, e, q),
    decreases k,
{
    let l = k - 1;
    if exists|q: int| 0 <= q < l && #[trigger] member(q) {
        lemma_earliest_member(keys, member, l);
        let e = choose|e: int|
            0 <= e < l && #[trigger] member(e) && forall|q: int|
                0 <= q < l && q != e && #[trigger] member(q) ==> key_before(keys, e, q);
        if member(l) && key_before(keys, l, e) {
            assert forall|q: int| 0 <= q < k && q != l && #[trigger] member(q) implies key_before(
                keys,
                l,
                q,
            ) by {
                if q != e {
                    assert(key_before(keys, e, q));
                }
            }
        } else {
            assert forall|q: int| 0 <= q < k && q != e && #[trigger] member(q) implies key_before(
                keys,
                e,
                q,
            ) by {}
        }
    } else {
        assert(member(l));
    }
}

proof fn lemma_badge_earliest_exists(al: Seq<SegmentView>, i: int, j: int)
    requires
        0 <= j < al.len(),
        same_cluster(al, i, j),
    ensures
        exists|e: int| #[trigger] is_badge_earliest(al, i, e) && al[e].speaker == al[j].speaker,
{
    let b = al[j].speaker;
    let keys = seg_keys(al);
    let member = |q: int| same_cluster(al, i, q) && al[q].speaker == b;
    assert(member(j));
    lemma_earliest_member(keys, member, al.len() as int);
    let e = choose|e: int|
        0 <= e < al.len() && #[trigger] member(e) && forall|q: int|
            0 <= q < al.len() && q != e && #[trigger] member(q) ==> key_before(keys, e, q);
    assert forall|q: int|
        0 <= q < al.len() && q != e && #[trigger] same_cluster(al, i, q) && al[q].speaker
            == al[e].speaker implies key_before(keys, e, q) by {
        assert(member(q));
    }
    assert(is_badge_earliest(al, i, e));
}

proof fn lemma_input_covered(al: Seq<SegmentView>, comp: Seq<usize>, i: int)
    requires
        al.len() >= 2,
        0 <= i < al.len(),
        labels_are(comp, duplicate_edges(al), al.len() as int),
        forall|p: int|
            0 <= p < al.len() && in_multi_cluster(al, p) ==> is_survivor(al, p, #[trigger] survivor(al, p)),
    ensures
        input_covered(al, resolved_clusters(al), i),
{
    let n = al.len() as int;
    let r = resolved_clusters(al);
    lemma_kept_upto(al, n);
    let idx = kept_indexes(al, n);
    assert(r == resolved_upto(al, n));
    let s = if is_absorbed(al, i) {
        survivor(al, i)
    } else {
        i
    };
    if is_absorbed(al, i) {
        assert(is_survivor(al, i, s));
        assert(is_badge_earliest(al, i, s));
        assert forall|q: int| 0 <= q < n implies same_cluster(al, s, q) == same_cluster(al, i, q) by {
            assert(connected(duplicate_edges(al), s, q) == (comp[s] == comp[q]));
            assert(connected(duplicate_edges(al), i, q) == (comp[i] == comp[q]));
            assert(connected(duplicate_edges(al), i, s) == (comp[i] == comp[s]));
        }
        lemma_survivor_transfer(al, i, s, s);
        assert(same_cluster(al, s, i));
        assert(in_multi_cluster(al, s));
        lemma_resolved_span_covers(al, s);
        if al[s].speaker == badge_text(None) && al[i].speaker != badge_text(None) {
            lemma_badge_earliest_exists(al, i, i);
            let e = choose|e: int| #[trigger] is_badge_earliest(al, i, e) && al[e].speaker == al[i].speaker;
            assert(e != s);
            assert(survivor_below(survivor_key(al, i, e), survivor_key(al, i, s)));
            assert(badge_rank(al[s].speaker) == 0);
            assert(badge_rank(al[e].speaker) == 1);
            assert(false);
        }
    } else {
        lemma_resolved_span_covers(al, i);
    }
    assert(!is_absorbed(al, s));
    let m = choose|m: int| 0 <= m < idx.len() && #[trigger] idx[m] == s;
    assert(r[m] == resolved_segment(al, s));
    assert(covers_input(r[m], al[i]));
}

proof fn lemma_resolution_covers(al: Seq<SegmentView>, comp: Seq<usize>)
    requires
        al.len() >= 2,
        labels_are(comp, duplicate_edges(al), al.len() as int),
        forall|p: int|
            0 <= p < al.len() && in_multi_cluster(al, p) ==> is_survivor(al, p, #[trigger] survivor(al, p)),
    ensures
        inputs_covered(al, resolved_clusters(al)),
{
    assert forall|i: int| 0 <= i < al.len() implies #[trigger] input_covered(al, resolved_clusters(al), i) by {
        lemma_input_covered(al, comp, i);
    }
}

/// The labels partition `0..n` exactly as `connected(edges, ..)` does.
spec fn labels_are(comp: Seq<usize>, edges: Seq<(int, int)>, n: int) -> bool {
    &&& comp.len() == n
    &&& forall|x: int, y: int|
        0 <= x < n && 0 <= y < n ==> ((comp[x] == comp[y]) == #[trigger] connected(edges, x, y))
}

/// Classes of `x` and `y` after merging those of `i` and `j`.
spec fn merged_class(c: Seq<usize>, i: int, j: int, x: int, y: int) -> bool {
    ||| c[x] == c[y]
    ||| (c[x] == c[i] && c[j] == c[y])
    ||| (c[x] == c[j] && c[i] == c[y])
}

/// Merge the label classes of `i` and `j`.
fn union_labels(comp: &mut Vec<usize>, i: usize, j: usize)
    requires
        i < old(comp)@.len(),
        j < old(comp)@.len(),
    ensures
        final(comp)@.len() == old(comp)@.len(),
        forall|x: int, y: int|
            0 <= x < old(comp)@.len() && 0 <= y < old(comp)@.len() ==> (final(comp)@[x]
                == final(comp)@[y]) == #[trigger] merged_class(old(comp)@, i as int, j as int, x, y),
{
    let ci = comp[i];
    let cj = comp[j];
    if ci == cj {
        return;
    }
    let ghost orig = comp@;
    let mut k: usize = 0;
    while k < comp.len()
        invariant
            k <= comp@.len(),
            comp@.len() == orig.len(),
            ci == orig[i as int],
            cj == orig[j as int],
            forall|m: int|
                0 <= m < k ==> comp@[m] == (if orig[m] == cj {
                    ci
                } else {
                    orig[m]
                }),
            forall|m: int| k <= m < orig.len() ==> comp@[m] == orig[m],
        decreases comp.len() - k,
    {
        if comp[k] == cj {
            comp.set(k, ci);
        }
        k += 1;
    }
}

proof fn lemma_row_edges_stop(al: Seq<SegmentView>, bt: Seq<int>, a: int, b: int, m: int)
    requires
        a + 1 <= b <= m,
        forall|q: int| b <= q < m ==> !pair_edge(al, bt, a, q),
    ensures
        row_edges(al, bt, a, m) == row_edges(al, bt, a, b),
    decreases m - b,
{
    if m > b {
        lemma_row_edges_stop(al, bt, a, b, m - 1);
        assert(row_edges(al, bt, a, m) =~= row_edges(al, bt, a, m - 1));
    }
}

/// Label every segment with its duplicate cluster.
fn cluster_labels(aligned: &Vec<AlignedSegment>, toks: &Vec<Vec<Vec<char>>>) -> (comp: Vec<usize>)
    requires
        toks@.len() == aligned@.len(),
        forall|i: int|
            0 <= i < aligned@.len() ==> char_seqs((#[trigger] toks@[i])@) == normalized_token_seq(
                aligned@[i]@.text,
            ),
    ensures
        labels_are(comp@, duplicate_edges(segment_views(aligned@)), aligned@.len() as int),
{
    let ghost al = segment_views(aligned@);
    let n = aligned.len();
    let mut keys: Vec<(i64, i64)> = Vec::new();
    let mut z: usize = 0;
    while z < n
        invariant
            z <= n,
            n == aligned@.len(),
            al == segment_views(aligned@),
            key_views(keys@) == seg_keys(al).subrange(0, z as int),
        decreases n - z,
    {
        let ghost before = key_views(keys@);
        keys.push((aligned[z].audio_start_ms, aligned[z].audio_end_ms));
        assert(al[z as int] == aligned@[z as int]@);
        assert(key_views(keys@) =~= before.push(
            (aligned@[z as int].audio_start_ms as int, aligned@[z as int].audio_end_ms as int),
        ));
        assert(key_views(keys@) =~= seg_keys(al).subrange(0, z + 1));
        z += 1;
    }
    assert(seg_keys(al).subrange(0, n as int) =~= seg_keys(al));
    let bt = stable_order_of(&keys);
    let ghost btv = index_seq(bt@);
    assert(seg_keys(al).len() == n);
    proof {
        lemma_stable_order_unique(seg_keys(al), btv, stable_order(seg_keys(al)));
    }
    let mut comp: Vec<usize> = Vec::new();
    let mut c: usize = 0;
    while c < n
        invariant
            c <= n,
            comp@.len() == c,
            forall|m: int| 0 <= m < c ==> comp@[m] == m,
        decreases n - c,
    {
        comp.push(c);
        c += 1;
    }
    assert(labels_are(comp@, scan_edges(al, btv, 0) + row_edges(al, btv, 0, 1), n as int));
    let mut a: usize = 0;
    while a < n
        invariant
            a <= n,
            n == aligned@.len(),
            al == segment_views(aligned@),
            btv == index_seq(bt@),
            btv == stable_order(seg_keys(al)),
            is_stable_order(seg_keys(al), btv),
            toks@.len() == n,
            forall|i: int|
                0 <= i < n ==> char_seqs((#[trigger] toks@[i])@) == normalized_token_seq(
                    aligned@[i]@.text,
                ),
            labels_are(comp@, scan_edges(al, btv, a as int), n as int),
            seg_keys(al).len() == n,
        decreases n - a,
    {
        assert(scan_edges(al, btv, a as int) + row_edges(al, btv, a as int, a + 1) =~= scan_edges(
            al,
            btv,
            a as int,
        ));
        let i = bt[a];
        assert(btv.len() == n);
        assert(btv[a as int] == bt@[a as int] as int);
        assert(0 <= btv[a as int] < n);
        assert(btv[a as int] == i as int && 0 <= i < n);
        let mut b: usize = a + 1;
        let mut stopped = false;
        while b < n
            invariant
                a < n,
                a + 1 <= b <= n,
                n == aligned@.len(),
                i == btv[a as int],
                0 <= i < n,
                al == segment_views(aligned@),
                btv == index_seq(bt@),
                is_stable_order(seg_keys(al), btv),
                toks@.len() == n,
                forall|i: int|
                    0 <= i < n ==> char_seqs((#[trigger] toks@[i])@) == normalized_token_seq(
                        aligned@[i]@.text,
                    ),
                labels_are(comp@, scan_edges(al, btv, a as int) + row_edges(al, btv, a as int, b as int), n as int),
                stopped ==> forall|q: int| b <= q < n ==> !pair_edge(al, btv, a as int, q),
                seg_keys(al).len() == n,
            ensures
                stopped || b >= n,
            decreases n - b,
        {
            let j = bt[b];
            assert(btv.len() == n);
            assert(btv[b as int] == bt@[b as int] as int);
            assert(0 <= btv[b as int] < n);
            assert(btv[b as int] == j as int && 0 <= j < n);
            assert(al[i as int] == aligned@[i as int]@ && al[j as int] == aligned@[j as int]@);
            let ghost prev_edges = scan_edges(al, btv, a as int) + row_edges(al, btv, a as int, b as int);
            if (aligned[j].audio_start_ms as i128) - (aligned[i].audio_start_ms as i128)
                > DUPLICATE_WINDOW_MS as i128 {
                proof {
                    assert forall|q: int| b <= q < n implies !pair_edge(al, btv, a as int, q) by {
                        if q > b {
                            assert(key_before(seg_keys(al), btv[b as int], btv[q]));
                        }
                    }
                }
                stopped = true;
                break;
            }
            let ghost new_edges = scan_edges(al, btv, a as int) + row_edges(al, btv, a as int, b + 1);
            if duplicate_pair(&aligned[i], &aligned[j], &toks[i], &toks[j]) {
                assert(new_edges =~= prev_edges.push((i as int, j as int)));
                let ghost old_comp = comp@;
                union_labels(&mut comp, i, j);
                proof {
                    assert forall|x: int, y: int| 0 <= x < n && 0 <= y < n implies ((comp@[x]
                        == comp@[y]) == #[trigger] connected(new_edges, x, y)) by {
                        assert(new_edges.drop_last() =~= prev_edges);
                        assert(new_edges.last() == (i as int, j as int));
                        assert((comp@[x] == comp@[y]) == merged_class(old_comp, i as int, j as int, x, y));
                        assert(connected(prev_edges, x, y) == (old_comp[x] == old_comp[y]));
                        assert(connected(prev_edges, x, i as int) == (old_comp[x] == old_comp[i as int]));
                        assert(connected(prev_edges, j as int, y) == (old_comp[j as int] == old_comp[y]));
                        assert(connected(prev_edges, x, j as int) == (old_comp[x] == old_comp[j as int]));
                        assert(connected(prev_edges, i as int, y) == (old_comp[i as int] == old_comp[y]));
                    }
                }
            } else {
                assert(new_edges =~= prev_edges);
            }
            b += 1;
        }
        proof {
            if stopped {
                lemma_row_edges_stop(al, btv, a as int, b as int, n as int);
            }
            assert(scan_edges(al, btv, a + 1) =~= scan_edges(al, btv, a as int) + row_edges(
                al,
                btv,
                a as int,
                n as int,
            ));
        }
        a += 1;
    }
    comp
}

fn key_before_exec(a: &AlignedSegment, ia: usize, b: &AlignedSegment, ib: usize) -> (r: bool)
    ensures
        r == ({
            let ka = (a.audio_start_ms as int, a.audio_end_ms as int);
            let kb = (b.audio_start_ms as int, b.audio_end_ms as int);
            ||| ka.0 < kb.0
            ||| (ka.0 == kb.0 && ka.1 < kb.1)
            ||| (ka.0 == kb.0 && ka.1 == kb.1 && ia < ib)
        }),
{
    a.audio_start_ms < b.audio_start_ms || (a.audio_start_ms == b.audio_start_ms
        && a.audio_end_ms < b.audio_end_ms) || (a.audio_start_ms == b.audio_start_ms
        && a.audio_end_ms == b.audio_end_ms && ia < ib)
}

/// Whether `e` is the earliest member of its badge in `h`'s cluster.
fn badge_earliest(aligned: &Vec<AlignedSegment>, comp: &Vec<usize>, h: usize, e: usize) -> (r: bool)
    requires
        labels_are(comp@, duplicate_edges(segment_views(aligned@)), aligned@.len() as int),
        h < aligned@.len(),
        e < aligned@.len(),
        comp@[e as int] == comp@[h as int],
    ensures
        r == is_badge_earliest(segment_views(aligned@), h as int, e as int),
{
    let ghost al = segment_views(aligned@);
    let n = aligned.len();
    assert(same_cluster(al, h as int, e as int));
    let mut k: usize = 0;
    while k < n
        invariant
            k <= n,
            n == aligned@.len(),
            al == segment_views(aligned@),
            labels_are(comp@, duplicate_edges(al), n as int),
            h < n,
            e < n,
            forall|q: int|
                0 <= q < k && q != e && #[trigger] same_cluster(al, h as int, q) && al[q].speaker
                    == al[e as int].speaker ==> key_before(seg_keys(al), e as int, q),
        decreases n - k,
    {
        assert(connected(duplicate_edges(al), h as int, k as int) == (comp@[h as int] == comp@[k as int]));
        assert(al[k as int] == aligned@[k as int]@ && al[e as int] == aligned@[e as int]@);
        if k != e && comp[k] == comp[h] && crate::text::str_eq(
            aligned[k].speaker.as_str(),
            aligned[e].speaker.as_str(),
        ) && !key_before_exec(&aligned[e], e, &aligned[k], k) {
            assert(seg_keys(al)[e as int] == (al[e as int].audio_start_ms, al[e as int].audio_end_ms));
            assert(seg_keys(al)[k as int] == (al[k as int].audio_start_ms, al[k as int].audio_end_ms));
            assert(same_cluster(al, h as int, k as int));
            assert(!key_before(seg_keys(al), e as int, k as int));
            return false;
        }
        k += 1;
    }
    true
}

/// Spans of the members of `h`'s cluster carrying `e`'s badge.
fn badge_spans(aligned: &Vec<AlignedSegment>, comp: &Vec<usize>, h: usize, e: usize) -> (r: Vec<
    (i64, i64),
>)
    requires
        labels_are(comp@, duplicate_edges(segment_views(aligned@)), aligned@.len() as int),
        h < aligned@.len(),
        e < aligned@.len(),
    ensures
        key_views(r@) == badge_spans_upto(
            segment_views(aligned@),
            h as int,
            aligned@[e as int]@.speaker,
            aligned@.len() as int,
        ),
        r@.len() <= aligned@.len(),
{
    let ghost al = segment_views(aligned@);
    let ghost b = aligned@[e as int]@.speaker;
    let n = aligned.len();
    let mut out: Vec<(i64, i64)> = Vec::new();
    let mut k: usize = 0;
    while k < n
        invariant
            k <= n,
            n == aligned@.len(),
            al == segment_views(aligned@),
            labels_are(comp@, duplicate_edges(al), n as int),
            h < n,
            e < n,
            b == aligned@[e as int]@.speaker,
            key_views(out@) == badge_spans_upto(al, h as int, b, k as int),
            out@.len() <= k,
        decreases n - k,
    {
        assert(connected(duplicate_edges(al), h as int, k as int) == (comp@[h as int] == comp@[k as int]));
        assert(al[k as int] == aligned@[k as int]@);
        if comp[k] == comp[h] && crate::text::str_eq(
            aligned[k].speaker.as_str(),
            aligned[e].speaker.as_str(),
        ) {
            let ghost before = key_views(out@);
            out.push((aligned[k].audio_start_ms, aligned[k].audio_end_ms));
            assert(key_views(out@) =~= before.push(
                (aligned@[k as int].audio_start_ms as int, aligned@[k as int].audio_end_ms as int),
            ));
        }
        k += 1;
    }
    out
}

proof fn lemma_survivor_unique(al: Seq<SegmentView>, h: int, a: int, b: int)
    requires
        is_survivor(al, h, a),
        is_survivor(al, h, b),
    ensures
        a == b,
{
    if a != b {
        assert(is_badge_earliest(al, h, b));
        assert(is_badge_earliest(al, h, a));
        assert(survivor_below(survivor_key(al, h, b), survivor_key(al, h, a)));
        assert(survivor_below(survivor_key(al, h, a), survivor_key(al, h, b)));
    }
}

proof fn lemma_badge_spans_transfer(al: Seq<SegmentView>, h: int, m: int, b: Seq<char>, k: int)
    requires
        k <= al.len(),
        forall|q: int| 0 <= q < al.len() ==> same_cluster(al, m, q) == same_cluster(al, h, q),
    ensures
        badge_spans_upto(al, m, b, k) == badge_spans_upto(al, h, b, k),
    decreases k,
{
    if k > 0 {
        lemma_badge_spans_transfer(al, h, m, b, k - 1);
        assert(same_cluster(al, m, k - 1) == same_cluster(al, h, k - 1));
    }
}

proof fn lemma_survivor_transfer(al: Seq<SegmentView>, h: int, m: int, s: int)
    requires
        forall|q: int| 0 <= q < al.len() ==> same_cluster(al, m, q) == same_cluster(al, h, q),
        is_survivor(al, h, s),
    ensures
        is_survivor(al, m, s),
        survivor(al, m) == s,
{
    assert forall|e: int| #[trigger] is_badge_earliest(al, m, e) == is_badge_earliest(al, h, e) by {
        if 0 <= e < al.len() {
            assert(same_cluster(al, m, e) == same_cluster(al, h, e));
        }
    }
    assert forall|e: int| 0 <= e < al.len() implies #[trigger] survivor_key(al, m, e)
        == survivor_key(al, h, e) by {
        lemma_badge_spans_transfer(al, h, m, al[e].speaker, al.len() as int);
    }
    assert(is_survivor(al, m, s));
    let c = choose|e: int| is_survivor(al, m, e);
    lemma_survivor_unique(al, m, c, s);
}

/// The survivor of `h`'s cluster.
fn cluster_survivor(aligned: &Vec<AlignedSegment>, comp: &Vec<usize>, h: usize) -> (s: usize)
    requires
        labels_are(comp@, duplicate_edges(segment_views(aligned@)), aligned@.len() as int),
        h < aligned@.len(),
        aligned@.len() < 0x8000_0000_0000_0000,
    ensures
        s < aligned@.len(),
        comp@[s as int] == comp@[h as int],
        is_survivor(segment_views(aligned@), h as int, s as int),
{
    let ghost al = segment_views(aligned@);
    let n = aligned.len();
    assert(same_cluster(al, h as int, h as int));
    // the earliest member with h's own badge is a candidate
    let mut e0: usize = h;
    let mut k: usize = 0;
    while k < n
        invariant
            k <= n,
            n == aligned@.len(),
            al == segment_views(aligned@),
            labels_are(comp@, duplicate_edges(al), n as int),
            h < n,
            e0 < n,
            comp@[e0 as int] == comp@[h as int],
            al[e0 as int].speaker == al[h as int].speaker,
            forall|q: int|
                0 <= q < k && q != e0 && #[trigger] same_cluster(al, h as int, q) && al[q].speaker
                    == al[h as int].speaker ==> key_before(seg_keys(al), e0 as int, q),
        decreases n - k,
    {
        assert(connected(duplicate_edges(al), h as int, k as int) == (comp@[h as int] == comp@[k as int]));
        assert(al[k as int] == aligned@[k as int]@ && al[e0 as int] == aligned@[e0 as int]@);
        assert(al[h as int] == aligned@[h as int]@);
        if k != e0 && comp[k] == comp[h] && crate::text::str_eq(
            aligned[k].speaker.as_str(),
            aligned[h].speaker.as_str(),
        ) && key_before_exec(&aligned[k], k, &aligned[e0], e0) {
            e0 = k;
        }
        k += 1;
    }
    assert(is_badge_earliest(al, h as int, e0 as int)) by {
        assert(same_cluster(al, h as int, e0 as int));
    }
    let unknown = unknown_badge();
    let spans0 = badge_spans(aligned, comp, h, e0);
    let mut best_idx: usize = e0;
    let mut best_rank: u8 = if crate::text::str_eq(aligned[e0].speaker.as_str(), unknown.as_str()) {
        0
    } else {
        1
    };
    let mut best_cov: i128 = merged_covered_len(&spans0);
    let mut best_start: i64 = aligned[e0].audio_start_ms;
    assert(al[e0 as int] == aligned@[e0 as int]@);
    let mut e: usize = 0;
    while e < n
        invariant
            e <= n,
            n == aligned@.len(),
            n < 0x8000_0000_0000_0000,
            al == segment_views(aligned@),
            labels_are(comp@, duplicate_edges(al), n as int),
            h < n,
            best_idx < n,
            unknown@ == badge_text(None),
            comp@[best_idx as int] == comp@[h as int],
            is_badge_earliest(al, h as int, best_idx as int),
            survivor_key(al, h as int, best_idx as int) == (
                best_rank as int,
                best_cov as int,
                best_start as int,
                best_idx as int,
            ),
            forall|e2: int|
                0 <= e2 < e && e2 != best_idx && #[trigger] is_badge_earliest(al, h as int, e2)
                    ==> survivor_below(
                    survivor_key(al, h as int, e2),
                    survivor_key(al, h as int, best_idx as int),
                ),
        decreases n - e,
    {
        assert(connected(duplicate_edges(al), h as int, e as int) == (comp@[h as int] == comp@[e as int]));
        if comp[e] == comp[h] && badge_earliest(aligned, comp, h, e) {
            let spans = badge_spans(aligned, comp, h, e);
            let rank: u8 = if crate::text::str_eq(aligned[e].speaker.as_str(), unknown.as_str()) {
                0
            } else {
                1
            };
            let cov = merged_covered_len(&spans);
            let start = aligned[e].audio_start_ms;
            assert(al[e as int] == aligned@[e as int]@);
            assert(survivor_key(al, h as int, e as int) == (rank as int, cov as int, start as int, e as int));
            let below = rank < best_rank || (rank == best_rank && cov < best_cov) || (rank
                == best_rank && cov == best_cov && start > best_start) || (rank == best_rank && cov
                == best_cov && start == best_start && e > best_idx);
            if !below && e != best_idx {
                best_idx = e;
                best_rank = rank;
                best_cov = cov;
                best_start = start;
            }
        } else {
            assert(!is_badge_earliest(al, h as int, e as int));
        }
        e += 1;
    }
    assert forall|e2: int| #[trigger] is_badge_earliest(al, h as int, e2) && e2 != best_idx implies survivor_below(
        survivor_key(al, h as int, e2),
        survivor_key(al, h as int, best_idx as int),
    ) by {}
    best_idx
}

/// Earliest start and latest end over `s`'s cluster.
fn cluster_bounds(aligned: &Vec<AlignedSegment>, comp: &Vec<usize>, s: usize) -> (r: (i64, i64))
    requires
        labels_are(comp@, duplicate_edges(segment_views(aligned@)), aligned@.len() as int),
        s < aligned@.len(),
    ensures
        r.0 == cluster_min_start(segment_views(aligned@), s as int, aligned@.len() as int),
        r.1 == cluster_max_end(segment_views(aligned@), s as int, aligned@.len() as int),
{
    let ghost al = segment_views(aligned@);
    let n = aligned.len();
    let mut lo = aligned[s].audio_start_ms;
    let mut hi = aligned[s].audio_end_ms;
    assert(al[s as int] == aligned@[s as int]@);
    let mut k: usize = 0;
    while k < n
        invariant
            k <= n,
            n == aligned@.len(),
            al == segment_views(aligned@),
            labels_are(comp@, duplicate_edges(al), n as int),
            s < n,
            lo == cluster_min_start(al, s as int, k as int),
            hi == cluster_max_end(al, s as int, k as int),
        decreases n - k,
    {
        assert(connected(duplicate_edges(al), s as int, k as int) == (comp@[s as int] == comp@[k as int]));
        assert(al[k as int] == aligned@[k as int]@);
        if comp[k] == comp[s] {
            if aligned[k].audio_start_ms < lo {
                lo = aligned[k].audio_start_ms;
            }
            if aligned[k].audio_end_ms > hi {
                hi = aligned[k].audio_end_ms;
            }
        }
        k += 1;
    }
    (lo, hi)
}

spec fn span_opt_view(o: Option<(i64, i64)>) -> Option<(int, int)> {
    match o {
        Some((a, b)) => Some((a as int, b as int)),
        None => None,
    }
}

/// The union span a kept segment takes: its cluster's, when it survives a
/// multi-member cluster.
pub open spec fn union_span(al: Seq<SegmentView>, i: int) -> Option<(int, int)> {
    if in_multi_cluster(al, i) && survivor(al, i) == i {
        Some((cluster_min_start(al, i, al.len() as int), cluster_max_end(al, i, al.len() as int)))
    } else {
        None
    }
}

spec fn processed(comp: Seq<usize>, h: int, i: int) -> bool {
    exists|k: int| 0 <= k < h && #[trigger] comp[k] == comp[i]
}

proof fn lemma_processed_by(comp: Seq<usize>, h: int, i: int, k: int)
    requires
        0 <= k < h,
        comp[k] == comp[i],
    ensures
        processed(comp, h, i),
{
}

/// Resolve duplicate re-transcription clusters among aligned segments:
/// keep ONE copy per cluster (the survivor's own text) with its span
/// extended to the union of the cluster's spans; absorbed members emit
/// nothing; output keeps input order.
pub fn resolve_duplicate_clusters(aligned: Vec<AlignedSegment>) -> (r: Vec<AlignedSegment>)
    requires
        aligned@.len() < 0x8000_0000_0000_0000,
    ensures
        segment_views(r@) == resolved_clusters(segment_views(aligned@)),
        inputs_covered(segment_views(aligned@), segment_views(r@)),
{
    let n = aligned.len();
    if n < 2 {
        proof {
            let al = segment_views(aligned@);
            assert forall|i: int| 0 <= i < al.len() implies #[trigger] input_covered(al, al, i) by {
                assert(covers_input(al[i], al[i]));
            }
        }
        return aligned;
    }
    let ghost al = segment_views(aligned@);
    let mut toks: Vec<Vec<Vec<char>>> = Vec::new();
    let mut z: usize = 0;
    while z < n
        invariant
            z <= n,
            n == aligned@.len(),
            toks@.len() == z,
            forall|i: int|
                0 <= i < z ==> char_seqs((#[trigger] toks@[i])@) == normalized_token_seq(
                    aligned@[i]@.text,
                ),
        decreases n - z,
    {
        toks.push(normalized_tokens(aligned[z].text.as_str()));
        z += 1;
    }
    let comp = cluster_labels(&aligned, &toks);
    let mut absorbed: Vec<bool> = Vec::new();
    let mut unions: Vec<Option<(i64, i64)>> = Vec::new();
    let mut z2: usize = 0;
    while z2 < n
        invariant
            z2 <= n,
            absorbed@.len() == z2,
            unions@.len() == z2,
            forall|i: int| 0 <= i < z2 ==> !absorbed@[i] && unions@[i] is None,
        decreases n - z2,
    {
        absorbed.push(false);
        unions.push(None);
        z2 += 1;
    }
    let mut h: usize = 0;
    while h < n
        invariant
            h <= n,
            n == aligned@.len(),
            n < 0x8000_0000_0000_0000,
            al == segment_views(aligned@),
            labels_are(comp@, duplicate_edges(al), n as int),
            absorbed@.len() == n,
            unions@.len() == n,
            forall|i: int|
                0 <= i < n ==> if #[trigger] processed(comp@, h as int, i) {
                    absorbed@[i] == is_absorbed(al, i) && span_opt_view(unions@[i]) == union_span(al, i)
                        && (in_multi_cluster(al, i) ==> is_survivor(al, i, survivor(al, i)))
                } else {
                    !absorbed@[i] && unions@[i] is None
                },
        decreases n - h,
    {
        let ghost abs0 = absorbed@;
        let ghost uni0 = unions@;
        // is h the first member of its cluster?
        let mut k: usize = 0;
        while k < h && comp[k] != comp[h]
            invariant
                k <= h,
                h < n,
                comp@.len() == n,
                forall|q: int| 0 <= q < k ==> comp@[q] != comp@[h as int],
            decreases h - k,
        {
            k += 1;
        }
        if k == h {
            // count the cluster's members
            let mut others: usize = 0;
            let mut other: usize = h;
            let mut q: usize = 0;
            while q < n
                invariant
                    q <= n,
                    h < n,
                    comp@.len() == n,
                    other < n,
                    others <= q,
                    others == 0 ==> forall|p: int| 0 <= p < q && p != h ==> comp@[p] != comp@[h as int],
                    others > 0 ==> other != h && comp@[other as int] == comp@[h as int],
                decreases n - q,
            {
                if q != h && comp[q] == comp[h] {
                    others = others + 1;
                    other = q;
                }
                q += 1;
            }
            proof {
                assert forall|j: int| 0 <= j < n implies #[trigger] same_cluster(al, h as int, j)
                    == (comp@[h as int] == comp@[j]) by {
                    assert(connected(duplicate_edges(al), h as int, j) == (comp@[h as int] == comp@[j]));
                }
                if others > 0 {
                    assert(same_cluster(al, h as int, other as int));
                    assert(in_multi_cluster(al, h as int));
                } else {
                    assert(!in_multi_cluster(al, h as int));
                }
            }
            if others > 0 {
                let s = cluster_survivor(&aligned, &comp, h);
                let (us, ue) = cluster_bounds(&aligned, &comp, s);
                let mut i: usize = 0;
                while i < n
                    invariant
                        i <= n,
                        h < n,
                        s < n,
                        n == aligned@.len(),
                        al == segment_views(aligned@),
                        labels_are(comp@, duplicate_edges(al), n as int),
                        comp@[s as int] == comp@[h as int],
                        is_survivor(al, h as int, s as int),
                        in_multi_cluster(al, h as int),
                        other < n,
                        other != h,
                        comp@[other as int] == comp@[h as int],
                        us == cluster_min_start(al, s as int, n as int),
                        ue == cluster_max_end(al, s as int, n as int),
                        absorbed@.len() == n,
                        unions@.len() == n,
                        abs0.len() == n,
                        uni0.len() == n,
                        forall|p: int|
                            0 <= p < n && !(p < i && comp@[p] == comp@[h as int]) ==> absorbed@[p]
                                == abs0[p] && unions@[p] == uni0[p],
                        forall|p: int|
                            0 <= p < i && comp@[p] == comp@[h as int] ==> absorbed@[p] == is_absorbed(
                                al,
                                p,
                            ) && span_opt_view(unions@[p]) == union_span(al, p) && is_survivor(
                                al,
                                p,
                                survivor(al, p),
                            ),
                    decreases n - i,
                {
                    if comp[i] == comp[h] {
                        proof {
                            assert forall|q: int| 0 <= q < n implies same_cluster(al, i as int, q)
                                == same_cluster(al, h as int, q) by {
                                assert(connected(duplicate_edges(al), i as int, q) == (comp@[i as int] == comp@[q]));
                                assert(connected(duplicate_edges(al), h as int, q) == (comp@[h as int] == comp@[q]));
                            }
                            lemma_survivor_transfer(al, h as int, i as int, s as int);
                            let w = if i == h {
                                other as int
                            } else {
                                h as int
                            };
                            assert(connected(duplicate_edges(al), i as int, w) == (comp@[i as int] == comp@[w]));
                            assert(same_cluster(al, i as int, w));
                            assert(in_multi_cluster(al, i as int));
                        }
                        absorbed.set(i, i != s);
                        if i == s {
                            unions.set(i, Some((us, ue)));
                        } else {
                            unions.set(i, None);
                        }
                    }
                    i += 1;
                }
            }
            proof {
                assert forall|i: int| 0 <= i < n implies if #[trigger] processed(comp@, h + 1, i) {
                    absorbed@[i] == is_absorbed(al, i) && span_opt_view(unions@[i]) == union_span(al, i)
                        && (in_multi_cluster(al, i) ==> is_survivor(al, i, survivor(al, i)))
                } else {
                    !absorbed@[i] && unions@[i] is None
                } by {
                    if comp@[i] == comp@[h as int] {
                        assert(processed(comp@, h + 1, i));
                        if others == 0 {
                            assert(i == h);
                            assert(!processed(comp@, h as int, i));
                        }
                    } else {
                        if processed(comp@, h + 1, i) {
                            let kk = choose|kk: int| 0 <= kk < h + 1 && comp@[kk] == comp@[i];
                            assert(processed(comp@, h as int, i));
                        } else {
                            assert(!processed(comp@, h as int, i));
                        }
                    }
                }
            }
        } else {
            proof {
                assert forall|i: int| 0 <= i < n implies #[trigger] processed(comp@, h + 1, i)
                    == processed(comp@, h as int, i) by {
                    if processed(comp@, h + 1, i) {
                        let kk = choose|kk: int| 0 <= kk < h + 1 && comp@[kk] == comp@[i];
                        if kk == h {
                            assert(comp@[k as int] == comp@[i]);
                        }
                    }
                }
            }
        }
        h += 1;
    }
    proof {
        assert(h == n);
        assert forall|p: int| 0 <= p < n implies absorbed@[p] == is_absorbed(al, p) && span_opt_view(
            unions@[p],
        ) == union_span(al, p) && (in_multi_cluster(al, p) ==> is_survivor(al, p, survivor(al, p)))
            by {
            lemma_processed_by(comp@, h as int, p, p);
        }
        lemma_resolution_covers(al, comp@);
    }
    let mut out: Vec<AlignedSegment> = Vec::new();
    let mut i: usize = 0;
    while i < n
        invariant
            i <= n,
            n == aligned@.len(),
            n >= 2,
            al == segment_views(aligned@),
            absorbed@.len() == n,
            unions@.len() == n,
            forall|p: int|
                0 <= p < n ==> absorbed@[p] == is_absorbed(al, p) && span_opt_view(unions@[p])
                    == union_span(al, p),
            segment_views(out@) == resolved_upto(al, i as int),
        decreases n - i,
    {
        let ghost before = segment_views(out@);
        assert(absorbed@[i as int] == is_absorbed(al, i as int) && span_opt_view(unions@[i as int])
            == union_span(al, i as int));
        if !absorbed[i] {
            let src = &aligned[i];
            let (start, end) = match unions[i] {
                Some((us, ue)) => (if src.audio_start_ms <= us {
                    src.audio_start_ms
                } else {
                    us
                }, if src.audio_end_ms >= ue {
                    src.audio_end_ms
                } else {
                    ue
                }),
                None => (src.audio_start_ms, src.audio_end_ms),
            };
            let seg = AlignedSegment {
                original_id: src.original_id.clone(),
                text: src.text.clone(),
                audio_start_ms: start,
                audio_end_ms: end,
                speaker: src.speaker.clone(),
                speaker_source: src.speaker_source,
            };
            assert(al[i as int] == aligned@[i as int]@);
            assert(seg@ == resolved_segment(al, i as int));
            out.push(seg);
            assert(segment_views(out@) =~= before.push(seg@));
        } else {
            assert(segment_views(out@) =~= before);
        }
        assert(resolved_upto(al, i + 1) =~= resolved_upto(al, i as int) + if is_absorbed(al, i as int) {
            Seq::<SegmentView>::empty()
        } else {
            seq![resolved_segment(al, i as int)]
        });
        i += 1;
    }
    out
}

} // verus!
