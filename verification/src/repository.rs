//! The speaker store's rules, apart from the SQL itself: which names it
//! accepts, how an embedding is laid out in its blob, which regenerated
//! segments a surviving manual row suppresses, and how a meeting's rows are
//! consolidated into turns.
use vstd::prelude::*;
use vstd::string::StringExecFns;
use crate::alignment::{AlignedSegment, SegmentView, segment_views};
use crate::order::{index_seq, lemma_index_seq_push};
use crate::text::{
    chars_of, decimal, push_decimal, str_eq, string_from_chars,
    trim_chars, trimmed, utf8_len, utf8_len_of,
};
use crate::turns::{
    assemble_groups, assembled, assembled_turns, group_views, lemma_assembly_idempotent,
    lemma_rows_partitioned, lemma_turns_made_of_their_rows, no_glued_continuations, row_views,
    turn_rows, GroupView, RowRef, RowView, TurnGroup,
};

verus! {

/// Longest speaker name the store accepts, in UTF-8 bytes.
pub const MAX_NAME_LEN: usize = 200;

/// Accepted embedding dimensions.
pub const MIN_EMBEDDING_DIM: usize = 64;

pub const MAX_EMBEDDING_DIM: usize = 1024;

/// The speaker store. Its queries run against SQLite; the rules they apply
/// are the associated functions here.
pub struct SpeakerRepository;

/// One stored speaker.
#[derive(Debug, Clone)]
pub struct SpeakerRow {
    pub id: String,
    pub name: String,
    pub color: String,
    pub created_at: String,
    pub updated_at: String,
}

/// One stored embedding: `embedding` is the little-endian `f32` blob.
#[derive(Debug, Clone)]
pub struct EmbeddingRow {
    pub id: String,
    pub speaker_id: Option<String>,
    pub embedding: Vec<u8>,
    pub source_meeting_id: String,
    pub cluster_label: String,
}

// ---------------------------------------------------------------------------
// Names
// ---------------------------------------------------------------------------

/// The name the store keeps for a requested one: trimmed, non-empty, at most
/// [`MAX_NAME_LEN`] UTF-8 bytes.
pub open spec fn stored_name(name: Seq<char>) -> Result<Seq<char>, Seq<char>> {
    let t = trimmed(name);
    if t.len() == 0 {
        Err("speaker name cannot be empty"@)
    } else if utf8_len(t) > MAX_NAME_LEN {
        Err("speaker name too long: "@ + decimal(utf8_len(t) as nat) + " chars (max 200)"@)
    } else {
        Ok(t)
    }
}

// ---------------------------------------------------------------------------
// Embedding blobs
// ---------------------------------------------------------------------------

/// An `f32` given by its bit pattern is finite unless its exponent bits are
/// all ones (infinity or NaN).
pub open spec fn bits_finite(w: u32) -> bool {
    (w / 0x80_0000) % 0x100 != 0xff
}

pub open spec fn all_finite(bits: Seq<u32>) -> bool {
    forall|i: int| 0 <= i < bits.len() ==> bits_finite(#[trigger] bits[i])
}

pub open spec fn dim_ok(dim: int) -> bool {
    MIN_EMBEDDING_DIM <= dim <= MAX_EMBEDDING_DIM
}

/// Byte `k` (little-endian) of `w`.
pub open spec fn le_byte(w: u32, k: int) -> u8 {
    if k == 0 {
        (w % 0x100) as u8
    } else if k == 1 {
        ((w / 0x100) % 0x100) as u8
    } else if k == 2 {
        ((w / 0x1_0000) % 0x100) as u8
    } else {
        (w / 0x100_0000) as u8
    }
}

/// The word stored little-endian at bytes `4i .. 4i + 4`.
pub open spec fn le_word(blob: Seq<u8>, i: int) -> u32 {
    (blob[4 * i] as int + 0x100 * blob[4 * i + 1] as int + 0x1_0000 * blob[4 * i + 2] as int
        + 0x100_0000 * blob[4 * i + 3] as int) as u32
}

/// The blob of an embedding: each value's bits, little-endian, in order.
pub open spec fn serialized(bits: Seq<u32>) -> Seq<u8> {
    Seq::new(4 * bits.len(), |j: int| le_byte(bits[j / 4], j % 4))
}

/// The words of a blob whose length is a multiple of four.
pub open spec fn blob_words(blob: Seq<u8>) -> Seq<u32> {
    Seq::new(blob.len() / 4, |i: int| le_word(blob, i))
}

pub open spec fn dim_message(dim: int) -> Seq<char> {
    "embedding dimension out of range [64, 1024]: got "@ + decimal(dim as nat)
}

/// Why an embedding cannot be stored, if it cannot: its dimension, then
/// its first non-finite value.
pub open spec fn embedding_rejected(bits: Seq<u32>, e: Seq<char>) -> bool {
    if !dim_ok(bits.len() as int) {
        e == dim_message(bits.len() as int)
    } else {
        exists|i: int|
            0 <= i < bits.len() && !bits_finite(#[trigger] bits[i]) && all_finite(
                bits.subrange(0, i),
            ) && e == "non-finite embedding value at index "@ + decimal(i as nat)
    }
}

/// What reading a blob gives: its words, or why it is rejected.
pub open spec fn deserialized(blob: Seq<u8>) -> Result<Seq<u32>, Seq<char>> {
    if blob.len() % 4 != 0 {
        Err("embedding blob size "@ + decimal(blob.len()) + " is not a multiple of 4"@)
    } else if !dim_ok((blob.len() / 4) as int) {
        Err(dim_message((blob.len() / 4) as int))
    } else if !all_finite(blob_words(blob)) {
        Err("non-finite value in stored embedding"@)
    } else {
        Ok(blob_words(blob))
    }
}

pub open spec fn words_result_view(r: Result<Vec<u32>, String>) -> Result<Seq<u32>, Seq<char>> {
    match r {
        Ok(v) => Ok(v@),
        Err(e) => Err(e@),
    }
}

proof fn lemma_le_round_trip(w: u32)
    ensures
        (le_byte(w, 0) as int + 0x100 * le_byte(w, 1) as int + 0x1_0000 * le_byte(w, 2) as int
            + 0x100_0000 * le_byte(w, 3) as int) == w,
{
    assert((w % 0x100) + 0x100 * ((w / 0x100) % 0x100) + 0x1_0000 * ((w / 0x1_0000) % 0x100)
        + 0x100_0000 * (w / 0x100_0000) == w) by (nonlinear_arith);
}

proof fn lemma_word_bytes(b0: u8, b1: u8, b2: u8, b3: u8)
    ensures
        ({
            let w = (b0 as int + 0x100 * b1 as int + 0x1_0000 * b2 as int + 0x100_0000 * b3 as int) as u32;
            &&& le_byte(w, 0) == b0
            &&& le_byte(w, 1) == b1
            &&& le_byte(w, 2) == b2
            &&& le_byte(w, 3) == b3
        }),
{
    let x: int = b0 as int + 0x100 * b1 as int + 0x1_0000 * b2 as int + 0x100_0000 * b3 as int;
    assert(0 <= x < 0x1_0000_0000);
    assert(x % 0x100 == b0) by (nonlinear_arith)
        requires
            x == b0 as int + 0x100 * b1 as int + 0x1_0000 * b2 as int + 0x100_0000 * b3 as int,
            0 <= b0 < 0x100,
            0 <= b1 < 0x100,
            0 <= b2 < 0x100,
            0 <= b3 < 0x100,
    ;
    assert((x / 0x100) % 0x100 == b1) by (nonlinear_arith)
        requires
            x == b0 as int + 0x100 * b1 as int + 0x1_0000 * b2 as int + 0x100_0000 * b3 as int,
            0 <= b0 < 0x100,
            0 <= b1 < 0x100,
            0 <= b2 < 0x100,
            0 <= b3 < 0x100,
    ;
    assert((x / 0x1_0000) % 0x100 == b2) by (nonlinear_arith)
        requires
            x == b0 as int + 0x100 * b1 as int + 0x1_0000 * b2 as int + 0x100_0000 * b3 as int,
            0 <= b0 < 0x100,
            0 <= b1 < 0x100,
            0 <= b2 < 0x100,
            0 <= b3 < 0x100,
    ;
    assert(x / 0x100_0000 == b3) by (nonlinear_arith)
        requires
            x == b0 as int + 0x100 * b1 as int + 0x1_0000 * b2 as int + 0x100_0000 * b3 as int,
            0 <= b0 < 0x100,
            0 <= b1 < 0x100,
            0 <= b2 < 0x100,
            0 <= b3 < 0x100,
    ;
}

impl SpeakerRepository {
    /// The name to store for a requested speaker name: the trimmed name,
    /// unless it is empty or longer than [`MAX_NAME_LEN`] bytes.
    pub fn stored_speaker_name(name: &str) -> (r: Result<String, String>)
        ensures
            match r {
                Ok(s) => stored_name(name@) == Ok::<Seq<char>, Seq<char>>(s@),
                Err(e) => stored_name(name@) == Err::<Seq<char>, Seq<char>>(e@),
            },
    {
        let cs = chars_of(name);
        let t = trim_chars(cs.as_slice());
        if t.len() == 0 {
            return Err(String::from_str("speaker name cannot be empty"));
        }
        let len = utf8_len_of(t.as_slice());
        if len > MAX_NAME_LEN as u128 {
            let mut msg = String::from_str("speaker name too long: ");
            push_decimal(&mut msg, len as u128);
            msg.append(" chars (max 200)");
            return Err(msg);
        }
        Ok(string_from_chars(t.as_slice()))
    }

    /// Whether an embedding (its values given by their `f32` bit patterns)
    /// can be stored: dimension in range and every value finite.
    pub fn check_embedding_bits(bits: &[u32]) -> (r: Result<(), String>)
        ensures
            r is Ok <==> dim_ok(bits@.len() as int) && all_finite(bits@),
            r matches Err(e) ==> embedding_rejected(bits@, e@),
    {
        let n = bits.len();
        if n < MIN_EMBEDDING_DIM || n > MAX_EMBEDDING_DIM {
            let mut msg = String::from_str("embedding dimension out of range [64, 1024]: got ");
            push_decimal(&mut msg, n as u128);
            return Err(msg);
        }
        let mut i: usize = 0;
        while i < n
            invariant
                i <= n,
                n == bits@.len(),
                dim_ok(n as int),
                all_finite(bits@.subrange(0, i as int)),
            decreases n - i,
        {
            if (bits[i] / 0x80_0000) % 0x100 == 0xff {
                let mut msg = String::from_str("non-finite embedding value at index ");
                push_decimal(&mut msg, i as u128);
                assert(!bits_finite(bits@[i as int]));
                assert(embedding_rejected(bits@, msg@));
                return Err(msg);
            }
            i += 1;
            assert(all_finite(bits@.subrange(0, i as int))) by {
                assert forall|j: int| 0 <= j < i implies bits_finite(
                    #[trigger] bits@.subrange(0, i as int)[j],
                ) by {
                    if j < i - 1 {
                        assert(bits@.subrange(0, i as int)[j] == bits@.subrange(0, i - 1)[j]);
                    }
                }
            }
        }
        assert(bits@.subrange(0, n as int) =~= bits@);
        Ok(())
    }

    /// The blob stored for an embedding: each value's bits, little-endian.
    pub fn serialize_embedding_bits(bits: &[u32]) -> (blob: Vec<u8>)
        requires
            4 * bits@.len() <= usize::MAX,
        ensures
            blob@ == serialized(bits@),
    {
        let mut blob: Vec<u8> = Vec::new();
        let mut i: usize = 0;
        while i < bits.len()
            invariant
                i <= bits@.len(),
                4 * bits@.len() <= usize::MAX,
                blob@.len() == 4 * i,
                forall|j: int| 0 <= j < 4 * i ==> #[trigger] blob@[j] == le_byte(bits@[j / 4], j % 4),
            decreases bits.len() - i,
        {
            let w = bits[i];
            blob.push((w % 0x100) as u8);
            blob.push(((w / 0x100) % 0x100) as u8);
            blob.push(((w / 0x1_0000) % 0x100) as u8);
            blob.push((w / 0x100_0000) as u8);
            assert forall|j: int| 0 <= j < 4 * (i + 1) implies #[trigger] blob@[j] == le_byte(
                bits@[j / 4],
                j % 4,
            ) by {
                if j >= 4 * i {
                    assert(j / 4 == i);
                }
            }
            i += 1;
        }
        assert(blob@ =~= serialized(bits@));
        blob
    }

    /// The embedding a blob holds, as the bit patterns of its `f32`s: the
    /// blob's length must be a multiple of four, its dimension in range and
    /// every value finite.
    pub fn deserialize_embedding_bits(blob: &[u8]) -> (r: Result<Vec<u32>, String>)
        ensures
            words_result_view(r) == deserialized(blob@),
    {
        let len = blob.len();
        if len % 4 != 0 {
            let mut msg = String::from_str("embedding blob size ");
            push_decimal(&mut msg, len as u128);
            msg.append(" is not a multiple of 4");
            return Err(msg);
        }
        let dim = len / 4;
        if dim < MIN_EMBEDDING_DIM || dim > MAX_EMBEDDING_DIM {
            let mut msg = String::from_str("embedding dimension out of range [64, 1024]: got ");
            push_decimal(&mut msg, dim as u128);
            return Err(msg);
        }
        let mut values: Vec<u32> = Vec::new();
        let mut i: usize = 0;
        while i < dim
            invariant
                i <= dim,
                dim == blob@.len() / 4,
                4 * dim == blob@.len(),
                dim_ok(dim as int),
                blob@.len() % 4 == 0,
                values@ == blob_words(blob@).subrange(0, i as int),
                all_finite(values@),
            decreases dim - i,
        {
            assert(4 * i + 3 < blob@.len());
            let w: u32 = (blob[4 * i] as u32) + 0x100 * (blob[4 * i + 1] as u32) + 0x1_0000 * (blob[4
                * i + 2] as u32) + 0x100_0000 * (blob[4 * i + 3] as u32);
            assert(w == le_word(blob@, i as int));
            if (w / 0x80_0000) % 0x100 == 0xff {
                assert(!bits_finite(blob_words(blob@)[i as int]));
                assert(!all_finite(blob_words(blob@)));
                return Err(String::from_str("non-finite value in stored embedding"));
            }
            values.push(w);
            i += 1;
            assert(values@ =~= blob_words(blob@).subrange(0, i as int));
        }
        assert(values@ =~= blob_words(blob@));
        Ok(values)
    }
}

/// An embedding that can be stored reads back unchanged from its blob.
pub proof fn lemma_embedding_round_trip(bits: Seq<u32>)
    requires
        dim_ok(bits.len() as int),
        all_finite(bits),
    ensures
        deserialized(serialized(bits)) == Ok::<Seq<u32>, Seq<char>>(bits),
{
    let blob = serialized(bits);
    assert(blob.len() / 4 == bits.len());
    assert forall|i: int| 0 <= i < bits.len() implies #[trigger] blob_words(blob)[i] == bits[i] by {
        assert((4 * i) / 4 == i && (4 * i + 1) / 4 == i && (4 * i + 2) / 4 == i && (4 * i + 3) / 4
            == i);
        assert((4 * i) % 4 == 0 && (4 * i + 1) % 4 == 1 && (4 * i + 2) % 4 == 2 && (4 * i + 3) % 4
            == 3);
        lemma_le_round_trip(bits[i]);
    }
    assert(blob_words(blob) =~= bits);
}

/// A blob that reads successfully is exactly the blob of what it read.
pub proof fn lemma_blob_round_trip(blob: Seq<u8>)
    requires
        deserialized(blob) is Ok,
    ensures
        serialized(blob_words(blob)) == blob,
{
    let words = blob_words(blob);
    assert forall|j: int| 0 <= j < blob.len() implies #[trigger] serialized(words)[j] == blob[j] by {
        let i = j / 4;
        assert(0 <= i < words.len());
        assert(4 * i <= j < 4 * i + 4);
        lemma_word_bytes(blob[4 * i], blob[4 * i + 1], blob[4 * i + 2], blob[4 * i + 3]);
    }
    assert(serialized(words) =~= blob);
}

// ---------------------------------------------------------------------------
// Regenerated rendering
// ---------------------------------------------------------------------------

/// `x / 2` rounded toward zero, as Rust's integer division does.
pub open spec fn half_toward_zero(x: int) -> int {
    if x >= 0 {
        x / 2
    } else {
        -((-x) / 2)
    }
}

/// A segment's midpoint, in milliseconds.
pub open spec fn segment_mid(s: SegmentView) -> int {
    half_toward_zero(s.audio_start_ms + s.audio_end_ms)
}

/// Some surviving manual row's span `[start, end)` holds the point.
pub open spec fn claimed(spans: Seq<(i64, i64)>, p: int) -> bool {
    exists|k: int| 0 <= k < spans.len() && (#[trigger] spans[k]).0 <= p && p < spans[k].1
}

/// The segments (in order) whose midpoint no manual span claims.
pub open spec fn unclaimed(segs: Seq<SegmentView>, spans: Seq<(i64, i64)>) -> Seq<SegmentView>
    decreases segs.len(),
{
    if segs.len() == 0 {
        Seq::empty()
    } else {
        let prev = unclaimed(segs.drop_last(), spans);
        if claimed(spans, segment_mid(segs.last())) {
            prev
        } else {
            prev.push(segs.last())
        }
    }
}

/// The midpoint of a segment's span in whole milliseconds, `(start + end) / 2`
/// rounded toward zero.
pub open spec fn midpoint_ms(s: SegmentView) -> int {
    let sum = s.audio_start_ms + s.audio_end_ms;
    if sum >= 0 {
        sum / 2
    } else {
        -((-sum) / 2)
    }
}

/// No manual span `[start, end)` in the list holds the segment's midpoint.
pub open spec fn outside_manual_spans(spans: Seq<(i64, i64)>, s: SegmentView) -> bool {
    forall|q: int|
        0 <= q < spans.len() ==> !((#[trigger] spans[q]).0 <= midpoint_ms(s) && midpoint_ms(s) < spans[q].1)
}

/// Suppression keeps, in order, exactly the segments whose midpoint lies in
/// no manual span, whichever span it would be and in whatever order the
/// spans come.
pub proof fn lemma_suppression_filters(segs: Seq<SegmentView>, spans: Seq<(i64, i64)>)
    ensures
        unclaimed(segs, spans) == segs.filter(|s: SegmentView| outside_manual_spans(spans, s)),
    decreases segs.len(),
{
    reveal(Seq::filter);
    if segs.len() > 0 {
        lemma_suppression_filters(segs.drop_last(), spans);
        let x = segs.last();
        assert(segment_mid(x) == midpoint_ms(x));
        if claimed(spans, segment_mid(x)) {
            let k = choose|k: int| 0 <= k < spans.len() && (#[trigger] spans[k]).0 <= segment_mid(x) && segment_mid(x) < spans[k].1;
            assert(!outside_manual_spans(spans, x));
        } else {
            assert forall|q: int| 0 <= q < spans.len() implies !((#[trigger] spans[q]).0 <= midpoint_ms(x)
                && midpoint_ms(x) < spans[q].1) by {
                if spans[q].0 <= midpoint_ms(x) && midpoint_ms(x) < spans[q].1 {
                    assert(claimed(spans, segment_mid(x)));
                }
            }
            assert(outside_manual_spans(spans, x));
        }
    }
}

pub open spec fn mid_fits(segs: Seq<AlignedSegment>) -> bool {
    forall|k: int|
        0 <= k < segs.len() ==> i64::MIN <= (#[trigger] segs[k]).audio_start_ms
            + segs[k].audio_end_ms <= i64::MAX
}

impl SpeakerRepository {
    /// Midpoint suppression before a regenerated rendering is written: a
    /// segment whose midpoint falls inside a surviving manual row's
    /// `[start, end)` span is dropped whole; the rest keep their order.
    pub fn suppress_claimed_segments(aligned: Vec<AlignedSegment>, manual_spans: &[(i64, i64)]) -> (kept: Vec<AlignedSegment>)
        requires
            mid_fits(aligned@),
        ensures
            segment_views(kept@) == unclaimed(segment_views(aligned@), manual_spans@),
            segment_views(kept@) == segment_views(aligned@).filter(
                |s: SegmentView| outside_manual_spans(manual_spans@, s),
            ),
    {
        proof {
            lemma_suppression_filters(segment_views(aligned@), manual_spans@);
        }
        let ghost all = segment_views(aligned@);
        let mut kept: Vec<AlignedSegment> = Vec::new();
        let mut i: usize = 0;
        while i < aligned.len()
            invariant
                i <= aligned@.len(),
                all == segment_views(aligned@),
                mid_fits(aligned@),
                segment_views(kept@) == unclaimed(all.subrange(0, i as int), manual_spans@),
            decreases aligned.len() - i,
        {
            let seg = &aligned[i];
            assert(all[i as int] == seg@);
            let sum: i128 = seg.audio_start_ms as i128 + seg.audio_end_ms as i128;
            let mid: i128 = if sum >= 0 {
                sum / 2
            } else {
                -((-sum) / 2)
            };
            assert(mid == segment_mid(seg@));
            let mut hit = false;
            let mut k: usize = 0;
            while k < manual_spans.len()
                invariant
                    k <= manual_spans@.len(),
                    hit <==> exists|q: int|
                        0 <= q < k && (#[trigger] manual_spans@[q]).0 <= mid && mid
                            < manual_spans@[q].1,
                decreases manual_spans.len() - k,
            {
                let (s, e) = manual_spans[k];
                if mid >= s as i128 && mid < e as i128 {
                    hit = true;
                }
                k += 1;
            }
            let ghost prefix = all.subrange(0, i + 1);
            assert(prefix.drop_last() =~= all.subrange(0, i as int));
            assert(prefix.last() == seg@);
            let ghost before_kept = segment_views(kept@);
            if !hit {
                let copy = AlignedSegment {
                    original_id: seg.original_id.clone(),
                    text: seg.text.clone(),
                    audio_start_ms: seg.audio_start_ms,
                    audio_end_ms: seg.audio_end_ms,
                    speaker: seg.speaker.clone(),
                    speaker_source: seg.speaker_source,
                };
                assert(copy@ == seg@);
                kept.push(copy);
                assert(segment_views(kept@) =~= before_kept.push(prefix.last()));
            }
            i += 1;
        }
        assert(all.subrange(0, aligned@.len() as int) =~= all);
        kept
    }
}

// ---------------------------------------------------------------------------
// Turn consolidation
// ---------------------------------------------------------------------------

/// One transcript row of a meeting as consolidation reads it; times are
/// the stored seconds rounded to milliseconds.
pub struct FragmentRow {
    pub id: String,
    pub speaker_label: Option<String>,
    pub speaker_source: Option<String>,
    pub start_ms: i64,
    pub end_ms: i64,
    pub transcript: String,
}

/// What consolidating a meeting's rows changes: each merged turn with the
/// rows it absorbed (its first row is kept and rewritten when `rewrite`
/// says so), and the rows deleted, in deletion order.
pub struct ConsolidationPlan {
    pub groups: Vec<TurnGroup>,
    pub rewrite: Vec<bool>,
    pub deleted: Vec<usize>,
}

pub open spec fn opt_view(o: Option<String>) -> Option<Seq<char>> {
    match o {
        Some(s) => Some(s@),
        None => None,
    }
}

/// The key rows are grouped by: a manual row is alone under its own id;
/// any other row goes by its speaker label (`Unknown Speaker` without one).
pub open spec fn group_key(f: FragmentRow) -> Seq<char> {
    if opt_view(f.speaker_source) == Some("manual"@) {
        "manual:"@ + f.id@
    } else {
        match opt_view(f.speaker_label) {
            Some(l) => l,
            None => "Unknown Speaker"@,
        }
    }
}

/// The rows as turn assembly sees them.
pub open spec fn fragment_rows(frags: Seq<FragmentRow>) -> Seq<RowView> {
    frags.map_values(
        |f: FragmentRow|
            RowView {
                speaker: group_key(f),
                start_ms: f.start_ms as int,
                end_ms: f.end_ms as int,
                text: f.transcript@,
            },
    )
}

/// A group's first row must be rewritten unless the group is that row
/// alone with its text and end unchanged.
pub open spec fn needs_rewrite(frags: Seq<FragmentRow>, g: GroupView) -> bool {
    !(g.rows.len() == 1 && frags[g.rows[0]].transcript@ == g.turn.text && frags[g.rows[0]].end_ms
        == g.turn.end_ms)
}

/// Every row absorbed into a turn after its first, group by group.
pub open spec fn absorbed_rows(gs: Seq<GroupView>) -> Seq<int>
    decreases gs.len(),
{
    if gs.len() == 0 {
        Seq::empty()
    } else {
        absorbed_rows(gs.drop_last()) + gs.last().rows.drop_first()
    }
}

pub open spec fn in_some_group(gs: Seq<GroupView>, i: int) -> bool {
    exists|g: int, j: int| 0 <= g < gs.len() && 0 <= j < gs[g].rows.len() && gs[g].rows[j] == i
}

/// The rows `0..m` that no turn absorbed, ascending.
pub open spec fn dropped_rows(gs: Seq<GroupView>, m: int) -> Seq<int>
    decreases m,
{
    if m <= 0 {
        Seq::empty()
    } else {
        dropped_rows(gs, m - 1) + if in_some_group(gs, m - 1) {
            Seq::empty()
        } else {
            seq![m - 1]
        }
    }
}

fn group_key_of(f: &FragmentRow) -> (k: String)
    ensures
        k@ == group_key(*f),
{
    let manual = match &f.speaker_source {
        Some(src) => str_eq(src.as_str(), "manual"),
        None => false,
    };
    proof {
        reveal_strlit("manual");
    }
    if manual {
        let mut k = String::from_str("manual:");
        k.append(f.id.as_str());
        k
    } else {
        match &f.speaker_label {
            Some(l) => l.clone(),
            None => String::from_str("Unknown Speaker"),
        }
    }
}

impl SpeakerRepository {
    /// Plans the consolidation of a meeting's rows into sentence-readable
    /// turns: rows are grouped by `group_key` and merged by the turn
    /// assembly rules; each group's first row is kept (rewritten unless
    /// unchanged), its other rows are deleted, and rows without content are
    /// deleted too.
    pub fn consolidation_plan(frags: &[FragmentRow]) -> (plan: ConsolidationPlan)
        ensures
            group_views(plan.groups@) == assembled(fragment_rows(frags@)),
            plan.rewrite@.len() == plan.groups@.len(),
            forall|g: int|
                0 <= g < plan.rewrite@.len() ==> #[trigger] plan.rewrite@[g] == needs_rewrite(
                    frags@,
                    plan.groups@[g]@,
                ),
            index_seq(plan.deleted@) == absorbed_rows(group_views(plan.groups@)) + dropped_rows(
                group_views(plan.groups@),
                frags@.len() as int,
            ),
    {
        let ghost fr = fragment_rows(frags@);
        let mut keys: Vec<String> = Vec::new();
        let mut i: usize = 0;
        while i < frags.len()
            invariant
                i <= frags@.len(),
                keys@.len() == i,
                forall|k: int| 0 <= k < i ==> (#[trigger] keys@[k])@ == group_key(frags@[k]),
            decreases frags.len() - i,
        {
            keys.push(group_key_of(&frags[i]));
            i += 1;
        }
        let mut refs: Vec<RowRef> = Vec::new();
        let mut i: usize = 0;
        while i < frags.len()
            invariant
                i <= frags@.len(),
                keys@.len() == frags@.len(),
                forall|k: int| 0 <= k < frags@.len() ==> (#[trigger] keys@[k])@ == group_key(frags@[k]),
                fr == fragment_rows(frags@),
                row_views(refs@) == fr.subrange(0, i as int),
            decreases frags.len() - i,
        {
            let ghost before = row_views(refs@);
            assert(keys@[i as int]@ == group_key(frags@[i as int]));
            assert(fr[i as int].speaker == group_key(frags@[i as int]));
            let sp: &str = keys[i].as_str();
            let tx: &str = frags[i].transcript.as_str();
            assert(sp@ == keys@[i as int]@);
            assert(tx@ == frags@[i as int].transcript@);
            let rr = RowRef { speaker: sp, start_ms: frags[i].start_ms, end_ms: frags[i].end_ms, text: tx };
            assert(rr@ == fr[i as int]);
            assert(before.len() == i);
            let ghost refs0 = refs@;
            refs.push(rr);
            assert(refs@ == refs0.push(rr));
            assert(refs@[i as int] == rr);
            assert(row_views(refs@) =~= before.push(fr[i as int]));
            i += 1;
            assert(row_views(refs@) =~= fr.subrange(0, i as int));
        }
        assert(fr.subrange(0, frags@.len() as int) =~= fr);
        let groups = assemble_groups(refs.as_slice());
        let ghost gv = group_views(groups@);
        proof {
            lemma_rows_partitioned(fr);
        }
        let mut rewrite: Vec<bool> = Vec::new();
        let mut deleted: Vec<usize> = Vec::new();
        let mut grouped: Vec<bool> = Vec::new();
        let mut i: usize = 0;
        while i < frags.len()
            invariant
                i <= frags@.len(),
                grouped@.len() == i,
                forall|k: int| 0 <= k < i ==> !(#[trigger] grouped@[k]),
            decreases frags.len() - i,
        {
            grouped.push(false);
            i += 1;
        }
        let mut g: usize = 0;
        while g < groups.len()
            invariant
                g <= groups@.len(),
                gv == group_views(groups@),
                gv == assembled(fr),
                fr == fragment_rows(frags@),
                grouped@.len() == frags@.len(),
                forall|g2: int, j: int|
                    0 <= g2 < gv.len() && 0 <= j < gv[g2].rows.len() ==> 0
                        <= #[trigger] gv[g2].rows[j] < fr.len(),
                rewrite@.len() == g,
                forall|h: int|
                    0 <= h < g ==> #[trigger] rewrite@[h] == needs_rewrite(frags@, groups@[h]@),
                index_seq(deleted@) == absorbed_rows(gv.subrange(0, g as int)),
                forall|x: int|
                    0 <= x < frags@.len() ==> (#[trigger] grouped@[x] <==> in_some_group(
                        gv.subrange(0, g as int),
                        x,
                    )),
            decreases groups.len() - g,
        {
            let grp = &groups[g];
            assert(gv[g as int] == grp@);
            let ghost rows_g = index_seq(grp.row_indexes@);
            assert(rows_g.len() >= 1) by {
                lemma_turns_made_of_their_rows(fr);
            }
            let first = grp.row_indexes[0];
            assert(rows_g[0] == first as int);
            assert(0 <= first < frags@.len()) by {
                assert(gv[g as int].rows[0] == first as int);
            }
            let unchanged = grp.row_indexes.len() == 1 && str_eq(
                frags[first].transcript.as_str(),
                grp.turn.text.as_str(),
            ) && frags[first].end_ms == grp.turn.end_ms;
            rewrite.push(!unchanged);
            let ghost before_del = index_seq(deleted@);
            let mut j: usize = 1;
            while j < grp.row_indexes.len()
                invariant
                    1 <= j <= grp.row_indexes@.len(),
                    index_seq(deleted@) == before_del + rows_g.subrange(1, j as int),
                    rows_g == index_seq(grp.row_indexes@),
                decreases grp.row_indexes.len() - j,
            {
                let ghost d0 = deleted@;
                deleted.push(grp.row_indexes[j]);
                proof {
                    lemma_index_seq_push(d0, grp.row_indexes@[j as int]);
                }
                j += 1;
                assert(index_seq(deleted@) =~= before_del + rows_g.subrange(1, j as int));
            }
            assert(rows_g.subrange(1, rows_g.len() as int) =~= rows_g.drop_first());
            assert(gv.subrange(0, g + 1).drop_last() =~= gv.subrange(0, g as int));
            assert(gv.subrange(0, g + 1).last() == gv[g as int]);
            let mut j: usize = 0;
            let ghost grouped0 = grouped@;
            while j < grp.row_indexes.len()
                invariant
                    j <= grp.row_indexes@.len(),
                    grouped@.len() == frags@.len(),
                    rows_g == index_seq(grp.row_indexes@),
                    forall|q: int| 0 <= q < rows_g.len() ==> 0 <= #[trigger] rows_g[q] < frags@.len(),
                    forall|x: int|
                        0 <= x < frags@.len() ==> (#[trigger] grouped@[x] <==> (grouped0[x]
                            || exists|q: int| 0 <= q < j && rows_g[q] == x)),
                decreases grp.row_indexes.len() - j,
            {
                let x = grp.row_indexes[j];
                assert(rows_g[j as int] == x as int);
                grouped.set(x, true);
                j += 1;
            }
            proof {
                assert forall|x: int| 0 <= x < frags@.len() implies (#[trigger] grouped@[x]
                    <==> in_some_group(gv.subrange(0, g + 1), x)) by {
                    let sub = gv.subrange(0, g + 1);
                    if in_some_group(sub, x) {
                        let (g2, j2) = choose|g2: int, j2: int|
                            0 <= g2 < sub.len() && 0 <= j2 < sub[g2].rows.len() && sub[g2].rows[j2] == x;
                        if g2 < g {
                            assert(gv.subrange(0, g as int)[g2] == sub[g2]);
                        } else {
                            assert(rows_g[j2] == x);
                        }
                    }
                    if grouped0[x] {
                        let (g2, j2) = choose|g2: int, j2: int|
                            0 <= g2 < g && 0 <= j2 < gv.subrange(0, g as int)[g2].rows.len()
                                && gv.subrange(0, g as int)[g2].rows[j2] == x;
                        assert(sub[g2] == gv.subrange(0, g as int)[g2]);
                    }
                    if exists|q: int| 0 <= q < rows_g.len() && rows_g[q] == x {
                        let q = choose|q: int| 0 <= q < rows_g.len() && rows_g[q] == x;
                        assert(sub[g as int].rows[q] == x);
                    }
                }
            }
            g += 1;
        }
        assert(gv.subrange(0, groups@.len() as int) =~= gv);
        let mut x: usize = 0;
        let ghost before_drop = index_seq(deleted@);
        while x < frags.len()
            invariant
                x <= frags@.len(),
                grouped@.len() == frags@.len(),
                forall|y: int| 0 <= y < frags@.len() ==> (#[trigger] grouped@[y] <==> in_some_group(gv, y)),
                index_seq(deleted@) == before_drop + dropped_rows(gv, x as int),
            decreases frags.len() - x,
        {
            let ghost d0 = deleted@;
            if !grouped[x] {
                deleted.push(x);
                proof {
                    lemma_index_seq_push(d0, x);
                }
            }
            x += 1;
            assert(index_seq(deleted@) =~= before_drop + dropped_rows(gv, x as int));
        }
        ConsolidationPlan { groups, rewrite, deleted }
    }
}

/// A manually labeled row is never merged with another row: the turn that
/// holds it holds it alone (no other row shares its grouping key, as unique
/// row ids make it).
pub proof fn lemma_manual_rows_stand_alone(frags: Seq<FragmentRow>, i: int)
    requires
        0 <= i < frags.len(),
        opt_view(frags[i].speaker_source) == Some("manual"@),
        forall|k: int|
            0 <= k < frags.len() && k != i ==> group_key(#[trigger] frags[k]) != group_key(frags[i]),
    ensures
        forall|g: int|
            0 <= g < assembled(fragment_rows(frags)).len() && (#[trigger] assembled(
                fragment_rows(frags),
            )[g]).rows.contains(i) ==> assembled(fragment_rows(frags))[g].rows == seq![i],
{
    let fr = fragment_rows(frags);
    let gs = assembled(fr);
    lemma_turns_made_of_their_rows(fr);
    lemma_rows_partitioned(fr);
    assert forall|g: int| 0 <= g < gs.len() && (#[trigger] gs[g]).rows.contains(i) implies gs[g].rows
        == seq![i] by {
        let rows = gs[g].rows;
        let j0 = choose|j: int| 0 <= j < rows.len() && rows[j] == i;
        assert(fr[rows[j0]].speaker == gs[g].turn.speaker);
        assert forall|j: int| 0 <= j < rows.len() implies rows[j] == i by {
            assert(fr[rows[j]].speaker == gs[g].turn.speaker);
            assert(0 <= rows[j] < fr.len());
            assert(fr[rows[j]].speaker == group_key(frags[rows[j]]));
            assert(fr[i].speaker == group_key(frags[i]));
        }
        assert forall|j: int| 0 <= j < rows.len() implies #[trigger] rows[j] == i && j == j0 by {
            assert(gs[g].rows[j] == gs[g].rows[j0]);
        }
        assert(rows.len() == 1);
        assert(rows =~= seq![i]);
    }
}

// ---------------------------------------------------------------------------
// Rendering persist decisions
// ---------------------------------------------------------------------------

pub open spec fn degenerate_message(meeting_id: Seq<char>, source_count: int) -> Seq<char> {
    "degenerate diarization output for meeting "@ + meeting_id + ": 0 aligned segments over "@
        + decimal(source_count as nat)
        + " source row(s) — persist aborted, prior rendering left intact"@
}

/// The position of the template row whose id is `id` (the last such row),
/// if any.
pub open spec fn template_for(ids: Seq<Seq<char>>, id: Seq<char>) -> Option<int>
    decreases ids.len(),
{
    if ids.len() == 0 {
        None
    } else if ids.last() == id {
        Some(ids.len() - 1)
    } else {
        template_for(ids.drop_last(), id)
    }
}

/// The (segment, template) pairs a regenerated rendering inserts, for the
/// first `m` segments: segments citing no template row are skipped.
pub open spec fn rendering_pairs(segs: Seq<SegmentView>, ids: Seq<Seq<char>>, m: int) -> Seq<(int, int)>
    decreases m,
{
    if m <= 0 {
        Seq::empty()
    } else {
        let prev = rendering_pairs(segs, ids, m - 1);
        match template_for(ids, segs[m - 1].original_id) {
            Some(t) => prev.push((m - 1, t)),
            None => prev,
        }
    }
}

proof fn lemma_unclaimed_members(segs: Seq<SegmentView>, spans: Seq<(i64, i64)>)
    ensures
        forall|k: int|
            0 <= k < unclaimed(segs, spans).len() ==> !claimed(
                spans,
                segment_mid(#[trigger] unclaimed(segs, spans)[k]),
            ) && segs.contains(unclaimed(segs, spans)[k]),
        forall|i: int|
            0 <= i < segs.len() && !claimed(spans, segment_mid(#[trigger] segs[i])) ==> unclaimed(
                segs,
                spans,
            ).contains(segs[i]),
    decreases segs.len(),
{
    if segs.len() > 0 {
        let p = segs.drop_last();
        lemma_unclaimed_members(p, spans);
        let prev = unclaimed(p, spans);
        let u = unclaimed(segs, spans);
        assert forall|k: int| 0 <= k < u.len() implies !claimed(spans, segment_mid(#[trigger] u[k]))
            && segs.contains(u[k]) by {
            if k < prev.len() {
                assert(u[k] == prev[k]);
                let j = choose|j: int| 0 <= j < p.len() && p[j] == prev[k];
                assert(segs[j] == p[j]);
            } else {
                assert(u[k] == segs.last());
                assert(segs[segs.len() - 1] == segs.last());
            }
        }
        assert forall|i: int| 0 <= i < segs.len() && !claimed(spans, segment_mid(#[trigger] segs[i]))
            implies u.contains(segs[i]) by {
            if i < p.len() {
                assert(p[i] == segs[i]);
                assert(prev.contains(p[i]));
                let k = choose|k: int| 0 <= k < prev.len() && prev[k] == p[i];
                if !claimed(spans, segment_mid(segs.last())) {
                    assert(u[k] == prev[k]);
                }
            } else {
                assert(segs[i] == segs.last());
                assert(u[u.len() - 1] == segs[i]);
            }
        }
    }
}

proof fn lemma_template_for(ids: Seq<Seq<char>>, id: Seq<char>)
    ensures
        template_for(ids, id) matches Some(t) ==> 0 <= t < ids.len() && ids[t] == id,
        ids.contains(id) ==> template_for(ids, id) is Some,
    decreases ids.len(),
{
    if ids.len() > 0 {
        lemma_template_for(ids.drop_last(), id);
        if ids.contains(id) && ids.last() != id {
            let j = choose|j: int| 0 <= j < ids.len() && ids[j] == id;
            assert(j < ids.len() - 1);
            assert(ids.drop_last()[j] == id);
        }
    }
}

proof fn lemma_pairs(segs: Seq<SegmentView>, ids: Seq<Seq<char>>, m: int)
    requires
        0 <= m <= segs.len(),
    ensures
        forall|q: int|
            0 <= q < rendering_pairs(segs, ids, m).len() ==> 0 <= (#[trigger] rendering_pairs(segs, ids, m)[q]).0 < m
                && 0 <= rendering_pairs(segs, ids, m)[q].1 < ids.len() && ids[rendering_pairs(segs, ids, m)[q].1]
                == segs[rendering_pairs(segs, ids, m)[q].0].original_id,
        forall|a: int, b: int|
            0 <= a < b < rendering_pairs(segs, ids, m).len() ==> (#[trigger] rendering_pairs(segs, ids, m)[a]).0
                < (#[trigger] rendering_pairs(segs, ids, m)[b]).0,
        forall|k: int|
            0 <= k < m && ids.contains(#[trigger] segs[k].original_id) ==> exists|q: int|
                0 <= q < rendering_pairs(segs, ids, m).len() && (#[trigger] rendering_pairs(segs, ids, m)[q]).0 == k,
    decreases m,
{
    if m > 0 {
        lemma_pairs(segs, ids, m - 1);
        lemma_template_for(ids, segs[m - 1].original_id);
        let prev = rendering_pairs(segs, ids, m - 1);
        let cur = rendering_pairs(segs, ids, m);
        assert forall|k: int| 0 <= k < m && ids.contains(#[trigger] segs[k].original_id) implies exists|q: int|
            0 <= q < cur.len() && (#[trigger] cur[q]).0 == k by {
            if k < m - 1 {
                let q = choose|q: int| 0 <= q < prev.len() && (#[trigger] prev[q]).0 == k;
                assert(cur[q] == prev[q]);
            } else {
                assert(cur[prev.len() as int].0 == k);
            }
        }
        assert forall|q: int| 0 <= q < cur.len() implies 0 <= (#[trigger] cur[q]).0 < m && 0 <= cur[q].1
            < ids.len() && ids[cur[q].1] == segs[cur[q].0].original_id by {
            if q < prev.len() {
                assert(cur[q] == prev[q]);
            }
        }
        assert forall|a: int, b: int| 0 <= a < b < cur.len() implies (#[trigger] cur[a]).0 < (#[trigger] cur[b]).0 by {
            assert(cur[a] == prev[a]);
            if b < prev.len() {
                assert(cur[b] == prev[b]);
            }
        }
    }
}

/// What a regenerated rendering writes: the aligned segments whose midpoint
/// no manual row claims (so manual rows are never overwritten), each kept
/// once and in order; and of those, exactly the ones citing an existing
/// source row are inserted, once each, in order, carrying that row's
/// template.
pub proof fn lemma_rendering_writes(al: Seq<SegmentView>, spans: Seq<(i64, i64)>, ids: Seq<Seq<char>>)
    ensures
        ({
            let kept = unclaimed(al, spans);
            let pairs = rendering_pairs(kept, ids, kept.len() as int);
            &&& forall|k: int|
                0 <= k < kept.len() ==> !claimed(spans, segment_mid(#[trigger] kept[k])) && al.contains(kept[k])
            &&& forall|i: int|
                0 <= i < al.len() && !claimed(spans, segment_mid(#[trigger] al[i])) ==> kept.contains(al[i])
            &&& forall|q: int|
                0 <= q < pairs.len() ==> 0 <= (#[trigger] pairs[q]).0 < kept.len() && 0 <= pairs[q].1 < ids.len()
                    && ids[pairs[q].1] == kept[pairs[q].0].original_id
            &&& forall|a: int, b: int|
                0 <= a < b < pairs.len() ==> (#[trigger] pairs[a]).0 < (#[trigger] pairs[b]).0
            &&& forall|k: int|
                0 <= k < kept.len() && ids.contains(#[trigger] kept[k].original_id) ==> exists|q: int|
                    0 <= q < pairs.len() && (#[trigger] pairs[q]).0 == k
        }),
{
    lemma_unclaimed_members(al, spans);
    let kept = unclaimed(al, spans);
    lemma_pairs(kept, ids, kept.len() as int);
}

pub open spec fn pair_ints(v: Seq<(usize, usize)>) -> Seq<(int, int)> {
    v.map_values(|p: (usize, usize)| (p.0 as int, p.1 as int))
}

impl SpeakerRepository {
    /// The outcome of persisting an empty aligned output: nothing to do when
    /// the meeting has no source rows; otherwise the run is degenerate and
    /// the prior rendering must stay.
    pub fn empty_rendering_outcome(meeting_id: &str, source_count: i64) -> (r: Result<usize, String>)
        ensures
            r is Ok <==> source_count <= 0,
            r matches Ok(n) ==> n == 0,
            r matches Err(e) ==> e@ == degenerate_message(meeting_id@, source_count as int),
    {
        if source_count > 0 {
            let mut msg = String::from_str("degenerate diarization output for meeting ");
            msg.append(meeting_id);
            msg.append(": 0 aligned segments over ");
            push_decimal(&mut msg, source_count as u128);
            msg.append(" source row(s) — persist aborted, prior rendering left intact");
            return Err(msg);
        }
        Ok(0)
    }

    /// Which rows a regenerated rendering inserts: for each kept segment in
    /// order, the template (source) row it cites by id; a segment citing an
    /// unknown source row is skipped.
    pub fn rendering_inserts(kept: &[AlignedSegment], template_ids: &[String]) -> (pairs: Vec<(usize, usize)>)
        ensures
            pair_ints(pairs@) == rendering_pairs(
                segment_views(kept@),
                template_ids@.map_values(|t: String| t@),
                kept@.len() as int,
            ),
    {
        let ghost sv = segment_views(kept@);
        let ghost ids = template_ids@.map_values(|t: String| t@);
        let mut pairs: Vec<(usize, usize)> = Vec::new();
        let mut i: usize = 0;
        while i < kept.len()
            invariant
                i <= kept@.len(),
                sv == segment_views(kept@),
                ids == template_ids@.map_values(|t: String| t@),
                pair_ints(pairs@) == rendering_pairs(sv, ids, i as int),
            decreases kept.len() - i,
        {
            assert(sv[i as int] == kept@[i as int]@);
            let mut found: Option<usize> = None;
            let mut t: usize = 0;
            while t < template_ids.len()
                invariant
                    t <= template_ids@.len(),
                    i < kept@.len(),
                    ids == template_ids@.map_values(|t: String| t@),
                    (match found {
                        Some(f) => Some(f as int),
                        None => None::<int>,
                    }) == template_for(ids.subrange(0, t as int), kept@[i as int].original_id@),
                decreases template_ids.len() - t,
            {
                assert(ids.subrange(0, t + 1).drop_last() =~= ids.subrange(0, t as int));
                assert(ids.subrange(0, t + 1).last() == template_ids@[t as int]@);
                if str_eq(template_ids[t].as_str(), kept[i].original_id.as_str()) {
                    found = Some(t);
                }
                t += 1;
            }
            assert(ids.subrange(0, template_ids@.len() as int) =~= ids);
            let ghost before = pair_ints(pairs@);
            match found {
                Some(f) => {
                    pairs.push((i, f));
                    assert(pair_ints(pairs@) =~= before.push((i as int, f as int)));
                },
                None => {},
            }
            i += 1;
        }
        pairs
    }
}

proof fn lemma_singletons_absorb_nothing(gs: Seq<GroupView>)
    requires
        forall|g: int| 0 <= g < gs.len() ==> (#[trigger] gs[g]).rows.len() == 1,
    ensures
        absorbed_rows(gs) == Seq::<int>::empty(),
    decreases gs.len(),
{
    if gs.len() > 0 {
        let p = gs.drop_last();
        assert forall|g: int| 0 <= g < p.len() implies (#[trigger] p[g]).rows.len() == 1 by {
            assert(p[g] == gs[g]);
        }
        lemma_singletons_absorb_nothing(p);
        assert(gs[gs.len() - 1].rows.len() == 1);
        assert(gs.last().rows.drop_first() =~= Seq::<int>::empty());
        assert(absorbed_rows(gs) =~= Seq::<int>::empty());
    }
}

proof fn lemma_all_grouped_drop_nothing(gs: Seq<GroupView>, m: int)
    requires
        0 <= m <= gs.len(),
        forall|g: int| 0 <= g < gs.len() ==> (#[trigger] gs[g]).rows == seq![g],
    ensures
        dropped_rows(gs, m) == Seq::<int>::empty(),
    decreases m,
{
    if m > 0 {
        lemma_all_grouped_drop_nothing(gs, m - 1);
        assert(gs[m - 1].rows[0] == m - 1);
        assert(in_some_group(gs, m - 1));
        assert(dropped_rows(gs, m) =~= Seq::<int>::empty());
    }
}

/// Consolidating a meeting a second time changes nothing: once its rows are
/// the turns of a first consolidation, every row stays alone, none is
/// rewritten and none deleted (unless a merged row began with an
/// apostrophe, see `lemma_assembly_idempotent`).
pub proof fn lemma_consolidation_idempotent(frags: Seq<FragmentRow>, again: Seq<FragmentRow>)
    requires
        no_glued_continuations(fragment_rows(frags)),
        fragment_rows(again) == turn_rows(assembled_turns(fragment_rows(frags))),
    ensures
        forall|g: int|
            0 <= g < assembled(fragment_rows(again)).len() ==> !needs_rewrite(
                again,
                #[trigger] assembled(fragment_rows(again))[g],
            ),
        absorbed_rows(assembled(fragment_rows(again))) + dropped_rows(
            assembled(fragment_rows(again)),
            again.len() as int,
        ) == Seq::<int>::empty(),
{
    let ts = assembled_turns(fragment_rows(frags));
    lemma_assembly_idempotent(fragment_rows(frags));
    let gs = assembled(fragment_rows(again));
    assert(gs == Seq::new(ts.len(), |g: int| GroupView { turn: ts[g], rows: seq![g] }));
    assert(again.len() == ts.len()) by {
        assert(fragment_rows(again).len() == again.len());
    }
    assert forall|g: int| 0 <= g < gs.len() implies !needs_rewrite(again, #[trigger] gs[g]) by {
        assert(gs[g].rows == seq![g]);
        assert(fragment_rows(again)[g] == turn_rows(ts)[g]);
        assert(fragment_rows(again)[g].text == again[g].transcript@);
    }
    assert forall|g: int| 0 <= g < gs.len() implies (#[trigger] gs[g]).rows.len() == 1 by {
        assert(gs[g].rows == seq![g]);
    }
    lemma_singletons_absorb_nothing(gs);
    assert forall|g: int| 0 <= g < gs.len() implies (#[trigger] gs[g]).rows == seq![g] by {}
    lemma_all_grouped_drop_nothing(gs, again.len() as int);
    assert(Seq::<int>::empty() + Seq::<int>::empty() =~= Seq::<int>::empty());
}

} // verus!
