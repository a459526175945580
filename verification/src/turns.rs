//! Sentence-aware speaker-turn assembly.
//!
//! Alignment is word-exact and splits rows at every speaker flip, which leaves
//! persisted text as fragments. This module re-assembles same-speaker
//! neighbors into readable turns:
//!
//! - `detokenize` fixes whisper word-joined spacing ("How 's it going ?" →
//!   "How's it going?") mechanically: no repunctuation, no re-casing.
//! - `assemble_turns` merges adjacent same-speaker rows (gap ≤ 3 s) into one
//!   turn, drops punctuation-only rows, and always breaks on a speaker change.
use vstd::prelude::*;
use vstd::string::StringExecFns;

use crate::order::{
    index_seq, is_stable_order, key_before, key_views, lemma_index_seq_push,
    lemma_stable_order_exists, lemma_stable_order_unique, stable_order, stable_order_of,
};
use crate::text::{
    alnum_chars, any_alphanumeric, char_seqs, chars_of, has_alphanumeric, is_alphanumeric,
    is_white_space, join_words_ws, lemma_alnum_concat, lemma_split_joined,
    lemma_split_ws_alnum, lemma_split_ws_tokens, no_white_space, plain_words, push_all,
    tokens_alnum,
    split_whitespace, split_ws, str_eq, string_from_chars, string_push,
};

verus! {

/// Maximum silence between two same-speaker rows for them to join one turn.
pub const MAX_MERGE_GAP_MS: i64 = 3_000;

/// A merged speaker turn.
#[derive(Debug, Clone, PartialEq)]
pub struct SpeakerTurn {
    pub speaker: String,
    pub start_ms: i64,
    pub end_ms: i64,
    pub text: String,
}

/// Borrowed view of one persisted transcript row.
#[derive(Debug, Clone, Copy)]
pub struct RowRef<'a> {
    pub speaker: &'a str,
    pub start_ms: i64,
    pub end_ms: i64,
    pub text: &'a str,
}

/// A merged speaker turn together with the indexes of the input rows it
/// absorbed. Input rows absent from every group were dropped as content-less.
#[derive(Debug, Clone, PartialEq)]
pub struct TurnGroup {
    pub turn: SpeakerTurn,
    pub row_indexes: Vec<usize>,
}

/// Mathematical model of a turn.
pub struct TurnView {
    pub speaker: Seq<char>,
    pub start_ms: int,
    pub end_ms: int,
    pub text: Seq<char>,
}

/// Mathematical model of a row.
pub struct RowView {
    pub speaker: Seq<char>,
    pub start_ms: int,
    pub end_ms: int,
    pub text: Seq<char>,
}

/// Mathematical model of a turn group.
pub struct GroupView {
    pub turn: TurnView,
    pub rows: Seq<int>,
}

impl View for SpeakerTurn {
    type V = TurnView;

    open spec fn view(&self) -> TurnView {
        TurnView {
            speaker: self.speaker@,
            start_ms: self.start_ms as int,
            end_ms: self.end_ms as int,
            text: self.text@,
        }
    }
}

impl<'a> View for RowRef<'a> {
    type V = RowView;

    open spec fn view(&self) -> RowView {
        RowView {
            speaker: self.speaker@,
            start_ms: self.start_ms as int,
            end_ms: self.end_ms as int,
            text: self.text@,
        }
    }
}

impl View for TurnGroup {
    type V = GroupView;

    open spec fn view(&self) -> GroupView {
        GroupView { turn: self.turn@, rows: index_seq(self.row_indexes@) }
    }
}

pub open spec fn row_views<'a>(rows: Seq<RowRef<'a>>) -> Seq<RowView> {
    rows.map_values(|r: RowRef<'a>| r@)
}

pub open spec fn group_views(gs: Seq<TurnGroup>) -> Seq<GroupView> {
    gs.map_values(|g: TurnGroup| g@)
}

pub open spec fn turn_views(ts: Seq<SpeakerTurn>) -> Seq<TurnView> {
    ts.map_values(|t: SpeakerTurn| t@)
}

// ---------------------------------------------------------------------------
// Detokenization
// ---------------------------------------------------------------------------

/// The punctuation that glues to the previous word.
pub open spec fn is_punct_char(c: char) -> bool {
    c == '.' || c == ',' || c == '!' || c == '?' || c == ';' || c == ':' || c == '%' || c
        == '…' || c == ')' || c == '(' || c == '"' || c == '\''
}

/// A non-empty token made of punctuation only.
pub open spec fn punct_only(t: Seq<char>) -> bool {
    t.len() > 0 && forall|i: int| 0 <= i < t.len() ==> is_punct_char(#[trigger] t[i])
}

/// One token appended to the detokenized output: punctuation-only tokens
/// glue to the previous word (and are dropped when nothing precedes them);
/// apostrophe-led tokens glue to the previous word; other tokens are
/// separated by one space.
pub open spec fn detok_step(out: Seq<char>, tok: Seq<char>) -> Seq<char> {
    if punct_only(tok) {
        if out.len() == 0 {
            out
        } else {
            out + tok
        }
    } else if tok.len() > 0 && tok[0] == '\'' && out.len() > 0 {
        out + tok
    } else if out.len() > 0 {
        out.push(' ') + tok
    } else {
        out + tok
    }
}

pub open spec fn detok_tokens(toks: Seq<Seq<char>>) -> Seq<char>
    decreases toks.len(),
{
    if toks.len() == 0 {
        Seq::empty()
    } else {
        detok_step(detok_tokens(toks.drop_last()), toks.last())
    }
}

/// The detokenized form of a text: its whitespace tokens folded by
/// `detok_step`.
pub open spec fn detokenized(s: Seq<char>) -> Seq<char> {
    detok_tokens(split_ws(s))
}

fn is_punct_only(token: &[char]) -> (r: bool)
    ensures
        r == punct_only(token@),
{
    if token.len() == 0 {
        return false;
    }
    let mut i: usize = 0;
    while i < token.len()
        invariant
            i <= token.len(),
            forall|j: int| 0 <= j < i ==> is_punct_char(#[trigger] token@[j]),
        decreases token.len() - i,
    {
        let c = token[i];
        if !(c == '.' || c == ',' || c == '!' || c == '?' || c == ';' || c == ':' || c == '%'
            || c == '…' || c == ')' || c == '(' || c == '"' || c == '\'') {
            return false;
        }
        i += 1;
    }
    true
}

/// `detokenize` on characters.
pub fn detokenize_chars(text: &str) -> (out: Vec<char>)
    ensures
        out@ == detokenized(text@),
{
    let chars = chars_of(text);
    let toks = split_whitespace(&chars);
    proof {
        lemma_split_ws_tokens(text@);
        assert forall|m: int| 0 <= m < toks@.len() implies (#[trigger] toks@[m])@.len() > 0 by {
            assert(char_seqs(toks@)[m] == toks@[m]@);
        }
    }
    let mut out: Vec<char> = Vec::new();
    let mut k: usize = 0;
    while k < toks.len()
        invariant
            k <= toks.len(),
            char_seqs(toks@) == split_ws(text@),
            forall|m: int| 0 <= m < toks@.len() ==> (#[trigger] toks@[m])@.len() > 0,
            out@ == detok_tokens(char_seqs(toks@).subrange(0, k as int)),
        decreases toks.len() - k,
    {
        let t = &toks[k];
        assert(char_seqs(toks@)[k as int] == t@);
        assert(char_seqs(toks@).subrange(0, k + 1).drop_last() =~= char_seqs(toks@).subrange(
            0,
            k as int,
        ));
        assert(char_seqs(toks@).subrange(0, k + 1).last() == t@);
        if is_punct_only(t) {
            if out.len() > 0 {
                push_all(&mut out, t);
            }
        } else if t[0] == '\'' && out.len() > 0 {
            push_all(&mut out, t);
        } else {
            if out.len() > 0 {
                out.push(' ');
            }
            push_all(&mut out, t);
        }
        k += 1;
    }
    assert(char_seqs(toks@).subrange(0, toks.len() as int) =~= char_seqs(toks@));
    out
}

/// Mechanical detokenization for whisper word-joined text. Tokens that are
/// pure punctuation glue to the previous word; tokens starting with an
/// apostrophe (contractions: 's 't 're 've 'll 'd 'm, possessives) glue to
/// the previous word; leading punctuation on the utterance is dropped.
pub fn detokenize(text: &str) -> (r: String)
    ensures
        r@ == detokenized(text@),
        alnum_chars(r@) == alnum_chars(text@),
        well_spaced(r@),
        split_ws(r@).len() <= split_ws(text@).len(),
{
    proof {
        lemma_detokenize_keeps_content(text@);
    }
    let out = detokenize_chars(text);
    string_from_chars(&out)
}

// ---------------------------------------------------------------------------
// Time order
// ---------------------------------------------------------------------------

/// The (start, end) time keys of the rows.
pub open spec fn row_keys(rows: Seq<RowView>) -> Seq<(int, int)> {
    rows.map_values(|r: RowView| (r.start_ms, r.end_ms))
}

/// Row indexes sorted by (start, end), ties in input order.
pub open spec fn time_order(rows: Seq<RowView>) -> Seq<int> {
    stable_order(row_keys(rows))
}

fn time_order_of(rows: &[RowRef]) -> (o: Vec<usize>)
    ensures
        is_stable_order(row_keys(row_views(rows@)), index_seq(o@)),
{
    let mut keys: Vec<(i64, i64)> = Vec::new();
    let mut i: usize = 0;
    while i < rows.len()
        invariant
            i <= rows.len(),
            key_views(keys@) == row_keys(row_views(rows@)).subrange(0, i as int),
        decreases rows.len() - i,
    {
        let ghost before = key_views(keys@);
        keys.push((rows[i].start_ms, rows[i].end_ms));
        assert(row_views(rows@)[i as int] == rows@[i as int]@);
        assert(key_views(keys@) =~= before.push((rows@[i as int].start_ms as int, rows@[i as int].end_ms as int)));
        i += 1;
        assert(key_views(keys@) =~= row_keys(row_views(rows@)).subrange(0, i as int));
    }
    assert(row_keys(row_views(rows@)).subrange(0, rows.len() as int) =~= row_keys(row_views(rows@)));
    stable_order_of(&keys)
}

// ---------------------------------------------------------------------------
// Assembly
// ---------------------------------------------------------------------------

/// A row continues the open turn: same speaker, gap within the merge window.
pub open spec fn merges_into(g: TurnView, r: RowView) -> bool {
    g.speaker == r.speaker && r.start_ms - g.end_ms <= MAX_MERGE_GAP_MS
}

/// Row `i` read into the groups built so far: a row without alphanumeric
/// content after detokenization is dropped; a row continuing the last turn
/// joins it (text appended after one space, end extended); any other row
/// opens a new turn.
pub open spec fn assemble_step(gs: Seq<GroupView>, rows: Seq<RowView>, i: int) -> Seq<GroupView> {
    let r = rows[i];
    let text = detokenized(r.text);
    if !has_alphanumeric(text) {
        gs
    } else if gs.len() > 0 && merges_into(gs.last().turn, r) {
        let g = gs.last();
        gs.update(
            gs.len() - 1,
            GroupView {
                turn: TurnView {
                    speaker: g.turn.speaker,
                    start_ms: g.turn.start_ms,
                    end_ms: if g.turn.end_ms >= r.end_ms {
                        g.turn.end_ms
                    } else {
                        r.end_ms
                    },
                    text: g.turn.text.push(' ') + text,
                },
                rows: g.rows.push(i),
            },
        )
    } else {
        gs.push(
            GroupView {
                turn: TurnView {
                    speaker: r.speaker,
                    start_ms: r.start_ms,
                    end_ms: r.end_ms,
                    text: text,
                },
                rows: seq![i],
            },
        )
    }
}

/// The groups built by reading the rows in the given order.
pub open spec fn assemble_over(rows: Seq<RowView>, order: Seq<int>) -> Seq<GroupView>
    decreases order.len(),
{
    if order.len() == 0 {
        Seq::empty()
    } else {
        assemble_step(assemble_over(rows, order.drop_last()), rows, order.last())
    }
}

/// The turn groups of a row sequence: its rows read in time order.
pub open spec fn assembled(rows: Seq<RowView>) -> Seq<GroupView> {
    assemble_over(rows, time_order(rows))
}

/// Group time-ordered rows into speaker turns (see `assemble_turns` for the
/// rules). Exposes which input rows each turn absorbed so a caller persisting
/// to a database can update the first absorbed row and delete the rest.
pub fn assemble_groups(rows: &[RowRef]) -> (r: Vec<TurnGroup>)
    ensures
        group_views(r@) == assembled(row_views(rows@)),
{
    let ghost rv = row_views(rows@);
    let order = time_order_of(rows);
    proof {
        lemma_stable_order_unique(row_keys(rv), index_seq(order@), time_order(rv));
    }
    let mut groups: Vec<TurnGroup> = Vec::new();
    let mut k: usize = 0;
    while k < order.len()
        invariant
            k <= order.len(),
            rv == row_views(rows@),
            is_stable_order(row_keys(rv), index_seq(order@)),
            group_views(groups@) == assemble_over(rv, index_seq(order@).subrange(0, k as int)),
        decreases order.len() - k,
    {
        let i = order[k];
        let ghost prefix = index_seq(order@).subrange(0, k + 1);
        assert(prefix.drop_last() =~= index_seq(order@).subrange(0, k as int));
        assert(prefix.last() == i as int);
        assert(0 <= i < rows.len()) by {
            assert(index_seq(order@)[k as int] == i as int);
        }
        assert(rv[i as int] == rows@[i as int]@);
        assert(row_keys(rv).len() == rv.len());
        let text = detokenize_chars(rows[i].text);
        if any_alphanumeric(&text) {
            let n = groups.len();
            let ghost gv = group_views(groups@);
            if n > 0 && str_eq(groups[n - 1].turn.speaker.as_str(), rows[i].speaker) && (
            rows[i].start_ms as i128) - (groups[n - 1].turn.end_ms as i128)
                <= MAX_MERGE_GAP_MS as i128 {
                assert(gv.last() == groups@[n - 1]@);
                let mut g = groups.pop().unwrap();
                assert(group_views(groups@) =~= gv.drop_last());
                string_push(&mut g.turn.text, ' ');
                let text_s = string_from_chars(&text);
                g.turn.text.append(text_s.as_str());
                if rows[i].end_ms > g.turn.end_ms {
                    g.turn.end_ms = rows[i].end_ms;
                }
                let ghost old_rows = g.row_indexes@;
                g.row_indexes.push(i);
                proof {
                    lemma_index_seq_push(old_rows, i);
                }
                groups.push(g);
                assert(group_views(groups@) =~= assemble_step(gv, rv, i as int));
            } else {
                let turn = SpeakerTurn {
                    speaker: String::from_str(rows[i].speaker),
                    start_ms: rows[i].start_ms,
                    end_ms: rows[i].end_ms,
                    text: string_from_chars(&text),
                };
                let mut idx: Vec<usize> = Vec::new();
                idx.push(i);
                assert(index_seq(idx@) =~= seq![i as int]);
                groups.push(TurnGroup { turn, row_indexes: idx });
                assert(group_views(groups@) =~= assemble_step(gv, rv, i as int));
            }
        }
        k += 1;
    }
    assert(index_seq(order@).subrange(0, order.len() as int) =~= index_seq(order@));
    groups
}

/// The turns of the assembled groups, in order.
pub open spec fn assembled_turns(rows: Seq<RowView>) -> Seq<TurnView> {
    assembled(rows).map_values(|g: GroupView| g.turn)
}

/// Merge time-ordered rows into speaker turns. Rows of the same speaker join
/// while the gap stays within `MAX_MERGE_GAP_MS`; a speaker change or a
/// longer silence starts a new turn. Returns turns in time order.
pub fn assemble_turns(rows: &[RowRef]) -> (r: Vec<SpeakerTurn>)
    ensures
        turn_views(r@) == assembled_turns(row_views(rows@)),
{
    let groups = assemble_groups(rows);
    let mut out: Vec<SpeakerTurn> = Vec::new();
    let mut k: usize = 0;
    while k < groups.len()
        invariant
            k <= groups.len(),
            out@.len() == k,
            forall|m: int| 0 <= m < k ==> (#[trigger] out@[m])@ == groups@[m].turn@,
        decreases groups.len() - k,
    {
        let t = &groups[k].turn;
        out.push(
            SpeakerTurn {
                speaker: t.speaker.clone(),
                start_ms: t.start_ms,
                end_ms: t.end_ms,
                text: t.text.clone(),
            },
        );
        k += 1;
    }
    assert(turn_views(out@) =~= assembled_turns(row_views(rows@))) by {
        assert(group_views(groups@) == assembled(row_views(rows@)));
        assert forall|m: int| 0 <= m < out@.len() implies turn_views(out@)[m]
            == assembled_turns(row_views(rows@))[m] by {
            assert(group_views(groups@)[m] == groups@[m]@);
        }
    }
    out
}

// ---------------------------------------------------------------------------
// Laws of turn assembly
// ---------------------------------------------------------------------------

/// A row contributes to the turns: its detokenized text has an alphanumeric
/// character.
pub open spec fn row_has_content(r: RowView) -> bool {
    has_alphanumeric(detokenized(r.text))
}

/// Two consecutive turns are kept apart: different speakers, or a silence
/// longer than [`MAX_MERGE_GAP_MS`] between them.
pub open spec fn turns_apart(a: TurnView, b: TurnView) -> bool {
    a.speaker != b.speaker || b.start_ms - a.end_ms > MAX_MERGE_GAP_MS
}

/// The detokenized texts of the listed rows, joined by single spaces.
pub open spec fn joined_texts(rows: Seq<RowView>, idx: Seq<int>) -> Seq<char>
    decreases idx.len(),
{
    if idx.len() == 0 {
        Seq::empty()
    } else if idx.len() == 1 {
        detokenized(rows[idx[0]].text)
    } else {
        joined_texts(rows, idx.drop_last()).push(' ') + detokenized(rows[idx.last()].text)
    }
}

/// The latest end among the listed rows.
pub open spec fn max_end(rows: Seq<RowView>, idx: Seq<int>) -> int
    decreases idx.len(),
{
    if idx.len() <= 1 {
        rows[idx[0]].end_ms
    } else {
        let m = max_end(rows, idx.drop_last());
        if m >= rows[idx.last()].end_ms {
            m
        } else {
            rows[idx.last()].end_ms
        }
    }
}

/// What every group built so far satisfies, after reading rows
/// `order[0..m]`.
pub open spec fn groups_wf(gs: Seq<GroupView>, rows: Seq<RowView>, order: Seq<int>, m: int) -> bool {
    &&& forall|g: int| #![trigger gs[g]] 0 <= g < gs.len() ==> {
        let grp = gs[g];
        &&& grp.rows.len() >= 1
        &&& grp.turn.speaker == rows[grp.rows[0]].speaker
        &&& grp.turn.start_ms == rows[grp.rows[0]].start_ms
        &&& grp.turn.end_ms == max_end(rows, grp.rows)
        &&& grp.turn.text == joined_texts(rows, grp.rows)
        &&& has_alphanumeric(grp.turn.text)
        &&& (forall|j: int|
            #![trigger grp.rows[j]]
            0 <= j < grp.rows.len() ==> rows[grp.rows[j]].speaker == grp.turn.speaker)
        &&& (forall|j: int|
            #![trigger grp.rows[j]]
            0 <= j < grp.rows.len() ==> exists|k: int|
                0 <= k < m && order[k] == grp.rows[j])
    }
    &&& forall|g: int|
        #![trigger gs[g]]
        0 <= g < gs.len() - 1 ==> turns_apart(gs[g].turn, gs[g + 1].turn)
    &&& forall|g1: int, g2: int|
        #![trigger gs[g1], gs[g2]]
        0 <= g1 < g2 < gs.len() ==> gs[g1].turn.start_ms <= gs[g2].turn.start_ms
    &&& forall|g: int|
        #![trigger gs[g]]
        0 <= g < gs.len() && m > 0 ==> gs[g].turn.start_ms <= rows[order[m - 1]].start_ms
    &&& forall|g1: int, j1: int, g2: int, j2: int|
        #![trigger gs[g1].rows[j1], gs[g2].rows[j2]]
        0 <= g1 < gs.len() && 0 <= g2 < gs.len() && 0 <= j1 < gs[g1].rows.len() && 0 <= j2
            < gs[g2].rows.len() && gs[g1].rows[j1] == gs[g2].rows[j2] ==> g1 == g2 && j1 == j2
    &&& forall|i: int|
        #![trigger row_has_content(rows[i])]
        0 <= i < rows.len() ==> ((exists|g: int, j: int|
            0 <= g < gs.len() && 0 <= j < gs[g].rows.len() && #[trigger] gs[g].rows[j] == i)
            <==> (row_has_content(rows[i]) && exists|k: int| 0 <= k < m && #[trigger] order[k] == i))
}

/// The order the rows are read in: every index valid and read once, by
/// non-decreasing start.
pub open spec fn order_ok(rows: Seq<RowView>, order: Seq<int>) -> bool {
    &&& forall|k: int| 0 <= k < order.len() ==> 0 <= #[trigger] order[k] < rows.len()
    &&& forall|k1: int, k2: int|
        0 <= k1 < k2 < order.len() ==> #[trigger] order[k1] != #[trigger] order[k2]
    &&& forall|k1: int, k2: int|
        0 <= k1 < k2 < order.len() ==> rows[#[trigger] order[k1]].start_ms <= rows[
            #[trigger] order[k2]].start_ms
}

/// Rows are read by (start, end): a later row starts later, or starts
/// together and ends no earlier.
pub open spec fn order_lex(rows: Seq<RowView>, order: Seq<int>) -> bool {
    forall|k1: int, k2: int|
        0 <= k1 < k2 < order.len() ==> rows[#[trigger] order[k1]].start_ms < rows[
            #[trigger] order[k2]].start_ms || (rows[order[k1]].start_ms == rows[order[k2]].start_ms
            && rows[order[k1]].end_ms <= rows[order[k2]].end_ms)
}

/// How the groups built so far sit in time: no row of a group starts before
/// its turn, and of two turns starting together the earlier one ends no
/// later than the later one's first row.
pub open spec fn groups_sorted(gs: Seq<GroupView>, rows: Seq<RowView>) -> bool {
    &&& forall|g: int, j: int|
        0 <= g < gs.len() && 0 <= j < gs[g].rows.len() ==> rows[#[trigger] gs[g].rows[j]].start_ms
            >= gs[g].turn.start_ms
    &&& forall|g1: int, g2: int|
        #![trigger gs[g1], gs[g2]]
        0 <= g1 < g2 < gs.len() && gs[g1].turn.start_ms == gs[g2].turn.start_ms
            ==> gs[g1].turn.end_ms <= rows[gs[g2].rows[0]].end_ms
}

proof fn lemma_max_end_bounds(rows: Seq<RowView>, idx: Seq<int>, x: int)
    requires
        idx.len() >= 1,
    ensures
        forall|j: int| 0 <= j < idx.len() ==> rows[#[trigger] idx[j]].end_ms <= max_end(rows, idx),
        (forall|j: int| 0 <= j < idx.len() ==> rows[#[trigger] idx[j]].end_ms <= x) ==> max_end(
            rows,
            idx,
        ) <= x,
    decreases idx.len(),
{
    if idx.len() > 1 {
        let p = idx.drop_last();
        lemma_max_end_bounds(rows, p, x);
        assert forall|j: int| 0 <= j < idx.len() implies rows[#[trigger] idx[j]].end_ms <= max_end(
            rows,
            idx,
        ) by {
            if j < idx.len() - 1 {
                assert(idx[j] == p[j]);
            }
        }
        if forall|j: int| 0 <= j < idx.len() ==> rows[#[trigger] idx[j]].end_ms <= x {
            assert forall|j: int| 0 <= j < p.len() implies rows[#[trigger] p[j]].end_ms <= x by {
                assert(p[j] == idx[j]);
            }
            assert(rows[idx[idx.len() - 1]].end_ms <= x);
        }
    }
}

proof fn lemma_groups_sorted(rows: Seq<RowView>, order: Seq<int>, m: int)
    requires
        order_ok(rows, order),
        order_lex(rows, order),
        0 <= m <= order.len(),
    ensures
        groups_sorted(assemble_over(rows, order.subrange(0, m)), rows),
    decreases m,
{
    let gs = assemble_over(rows, order.subrange(0, m));
    if m == 0 {
        assert(order.subrange(0, 0).len() == 0);
    } else {
        lemma_groups_sorted(rows, order, m - 1);
        lemma_groups_wf(rows, order, m - 1);
        let prev = assemble_over(rows, order.subrange(0, m - 1));
        assert(order.subrange(0, m).drop_last() =~= order.subrange(0, m - 1));
        assert(order.subrange(0, m).last() == order[m - 1]);
        let i = order[m - 1];
        let r = rows[i];
        assert(gs == assemble_step(prev, rows, i));
        let text = detokenized(r.text);
        if !has_alphanumeric(text) {
            assert(gs == prev);
        } else if prev.len() > 0 && merges_into(prev.last().turn, r) {
            let n = prev.len() as int;
            let last = prev[n - 1];
            assert(m >= 2) by {
                assert(last.rows.len() >= 1);
                let k = choose|k: int| 0 <= k < m - 1 && order[k] == last.rows[0];
            }
            assert(last.turn.start_ms <= rows[order[m - 2]].start_ms);
            assert(rows[order[m - 2]].start_ms <= rows[order[m - 1]].start_ms);
            assert forall|g: int, j: int|
                0 <= g < gs.len() && 0 <= j < gs[g].rows.len() implies rows[
                #[trigger] gs[g].rows[j]].start_ms >= gs[g].turn.start_ms by {
                if g < n - 1 {
                    assert(gs[g] == prev[g]);
                } else if j < last.rows.len() {
                    assert(gs[g].rows[j] == last.rows[j]);
                }
            }
            assert forall|g1: int, g2: int|
                0 <= g1 < g2 < gs.len() && gs[g1].turn.start_ms == gs[g2].turn.start_ms implies gs[g1].turn.end_ms
                <= rows[gs[g2].rows[0]].end_ms by {
                assert(gs[g1] == prev[g1]);
                if g2 < n - 1 {
                    assert(gs[g2] == prev[g2]);
                } else {
                    assert(gs[g2].rows[0] == prev[g2].rows[0]);
                    assert(gs[g2].turn.start_ms == prev[g2].turn.start_ms);
                    assert(prev[g1].turn.start_ms == prev[g2].turn.start_ms);
                }
            }
        } else {
            let n = prev.len() as int;
            assert(gs.len() == n + 1);
            assert(gs[n].rows == seq![i]);
            assert forall|g: int, j: int|
                0 <= g < gs.len() && 0 <= j < gs[g].rows.len() implies rows[
                #[trigger] gs[g].rows[j]].start_ms >= gs[g].turn.start_ms by {
                if g < n {
                    assert(gs[g] == prev[g]);
                }
            }
            assert forall|g1: int, g2: int|
                0 <= g1 < g2 < gs.len() && gs[g1].turn.start_ms == gs[g2].turn.start_ms implies gs[g1].turn.end_ms
                <= rows[gs[g2].rows[0]].end_ms by {
                assert(gs[g1] == prev[g1]);
                if g2 < n {
                    assert(gs[g2] == prev[g2]);
                } else {
                    let grp = prev[g1];
                    assert(grp.turn.start_ms == r.start_ms);
                    assert forall|j: int| 0 <= j < grp.rows.len() implies rows[#[trigger] grp.rows[j]].end_ms
                        <= r.end_ms by {
                        let x = grp.rows[j];
                        let k = choose|k: int| 0 <= k < m - 1 && order[k] == x;
                        assert(rows[order[k]].start_ms < rows[order[m - 1]].start_ms || (
                        rows[order[k]].start_ms == rows[order[m - 1]].start_ms && rows[order[k]].end_ms
                            <= rows[order[m - 1]].end_ms));
                        assert(rows[x].start_ms >= grp.turn.start_ms);
                    }
                    lemma_max_end_bounds(rows, grp.rows, r.end_ms);
                }
            }
        }
    }
}

proof fn lemma_has_alnum_append(a: Seq<char>, b: Seq<char>)
    requires
        has_alphanumeric(b),
    ensures
        has_alphanumeric(a.push(' ') + b),
{
    let i = choose|i: int| 0 <= i < b.len() && crate::text::is_alphanumeric(#[trigger] b[i]);
    assert((a.push(' ') + b)[a.len() + 1 + i] == b[i]);
}

#[verifier::spinoff_prover]
#[verifier::rlimit(60)]
proof fn lemma_groups_wf(rows: Seq<RowView>, order: Seq<int>, m: int)
    requires
        order_ok(rows, order),
        0 <= m <= order.len(),
    ensures
        groups_wf(assemble_over(rows, order.subrange(0, m)), rows, order, m),
    decreases m,
{
    let gs = assemble_over(rows, order.subrange(0, m));
    if m == 0 {
        assert(order.subrange(0, 0).len() == 0);
        assert(gs.len() == 0);
        assert forall|i: int| 0 <= i < rows.len() implies ((exists|g: int, j: int|
            0 <= g < gs.len() && 0 <= j < gs[g].rows.len() && #[trigger] gs[g].rows[j] == i)
            <==> (row_has_content(rows[i]) && exists|k: int|
            0 <= k < m && #[trigger] order[k] == i)) by {}
    } else {
        lemma_groups_wf(rows, order, m - 1);
        let prev = assemble_over(rows, order.subrange(0, m - 1));
        assert(order.subrange(0, m).drop_last() =~= order.subrange(0, m - 1));
        assert(order.subrange(0, m).last() == order[m - 1]);
        let i = order[m - 1];
        let r = rows[i];
        assert(gs == assemble_step(prev, rows, i));
        let text = detokenized(r.text);
        assert forall|k: int| 0 <= k < m - 1 implies order[k] != i by {}
        if m >= 2 {
            assert(rows[order[m - 2]].start_ms <= rows[order[m - 1]].start_ms);
        }
        if !has_alphanumeric(text) {
            assert(gs == prev);
            assert forall|i2: int| 0 <= i2 < rows.len() implies ((exists|g: int, j: int|
                0 <= g < gs.len() && 0 <= j < gs[g].rows.len() && #[trigger] gs[g].rows[j] == i2)
                <==> (row_has_content(rows[i2]) && exists|k: int|
                0 <= k < m && #[trigger] order[k] == i2)) by {
                assert(row_has_content(rows[i2]) == (exists|g: int, j: int|
                    0 <= g < prev.len() && 0 <= j < prev[g].rows.len() && #[trigger] prev[g].rows[j]
                        == i2) || !row_has_content(rows[i2]) || true);
                if row_has_content(rows[i2]) && exists|k: int| 0 <= k < m && #[trigger] order[k] == i2 {
                    let k = choose|k: int| 0 <= k < m && #[trigger] order[k] == i2;
                    if k == m - 1 {
                        assert(false);
                    }
                }
            }
            assert forall|g: int| #![trigger gs[g]] 0 <= g < gs.len() implies (forall|j: int|
                #![trigger gs[g].rows[j]]
                0 <= j < gs[g].rows.len() ==> exists|k: int| 0 <= k < m && order[k] == gs[g].rows[j]) by {
                assert forall|j: int| #![trigger gs[g].rows[j]] 0 <= j < gs[g].rows.len() implies exists|k: int|
                    0 <= k < m && order[k] == gs[g].rows[j] by {
                    let k = choose|k: int| 0 <= k < m - 1 && order[k] == prev[g].rows[j];
                }
            }
        } else if prev.len() > 0 && merges_into(prev.last().turn, r) {
            let n = prev.len() as int;
            let last = prev.last();
            let newg = gs[n - 1];
            assert(newg.rows == last.rows.push(i));
            assert(newg.rows.drop_last() =~= last.rows);
            lemma_has_alnum_append(last.turn.text, text);
            assert(newg.turn.text == joined_texts(rows, newg.rows));
            assert(newg.turn.end_ms == max_end(rows, newg.rows));
            assert(newg.rows[0] == last.rows[0]);
            assert forall|g: int| #![trigger gs[g]] 0 <= g < gs.len() implies (forall|j: int|
                #![trigger gs[g].rows[j]]
                0 <= j < gs[g].rows.len() ==> exists|k: int| 0 <= k < m && order[k] == gs[g].rows[j]) by {
                assert forall|j: int| #![trigger gs[g].rows[j]] 0 <= j < gs[g].rows.len() implies exists|k: int|
                    0 <= k < m && order[k] == gs[g].rows[j] by {
                    if g == n - 1 && j == gs[g].rows.len() - 1 {
                        assert(order[m - 1] == gs[g].rows[j]);
                    } else {
                        assert(gs[g].rows[j] == prev[g].rows[j]);
                        let k = choose|k: int| 0 <= k < m - 1 && order[k] == prev[g].rows[j];
                    }
                }
            }
            assert forall|g1: int, j1: int, g2: int, j2: int|
                #![trigger gs[g1].rows[j1], gs[g2].rows[j2]]
                0 <= g1 < gs.len() && 0 <= g2 < gs.len() && 0 <= j1 < gs[g1].rows.len() && 0 <= j2
                    < gs[g2].rows.len() && gs[g1].rows[j1] == gs[g2].rows[j2] implies g1 == g2 && j1
                == j2 by {
                let new1 = g1 == n - 1 && j1 == gs[g1].rows.len() - 1;
                let new2 = g2 == n - 1 && j2 == gs[g2].rows.len() - 1;
                if new1 && !new2 {
                    assert(gs[g2].rows[j2] == prev[g2].rows[j2]);
                    let k = choose|k: int| 0 <= k < m - 1 && order[k] == prev[g2].rows[j2];
                } else if !new1 && new2 {
                    assert(gs[g1].rows[j1] == prev[g1].rows[j1]);
                    let k = choose|k: int| 0 <= k < m - 1 && order[k] == prev[g1].rows[j1];
                } else if !new1 && !new2 {
                    assert(gs[g1].rows[j1] == prev[g1].rows[j1]);
                    assert(gs[g2].rows[j2] == prev[g2].rows[j2]);
                }
            }
            assert forall|i2: int| 0 <= i2 < rows.len() implies ((exists|g: int, j: int|
                0 <= g < gs.len() && 0 <= j < gs[g].rows.len() && #[trigger] gs[g].rows[j] == i2)
                <==> (row_has_content(rows[i2]) && exists|k: int|
                0 <= k < m && #[trigger] order[k] == i2)) by {
                if exists|g: int, j: int|
                    0 <= g < gs.len() && 0 <= j < gs[g].rows.len() && #[trigger] gs[g].rows[j] == i2 {
                    let (g, j) = choose|g: int, j: int|
                        0 <= g < gs.len() && 0 <= j < gs[g].rows.len() && #[trigger] gs[g].rows[j] == i2;
                    if g == n - 1 && j == gs[g].rows.len() - 1 {
                        assert(order[m - 1] == i2);
                    } else {
                        assert(prev[g].rows[j] == i2);
                        let k = choose|k: int| 0 <= k < m - 1 && #[trigger] order[k] == i2;
                    }
                }
                if row_has_content(rows[i2]) && exists|k: int| 0 <= k < m && #[trigger] order[k] == i2 {
                    let k = choose|k: int| 0 <= k < m && #[trigger] order[k] == i2;
                    if k == m - 1 {
                        assert(gs[n - 1].rows[gs[n - 1].rows.len() - 1] == i2);
                    } else {
                        let (g, j) = choose|g: int, j: int|
                            0 <= g < prev.len() && 0 <= j < prev[g].rows.len() && #[trigger] prev[g].rows[j] == i2;
                        assert(gs[g].rows[j] == i2);
                    }
                }
            }
        } else {
            let n = prev.len() as int;
            assert(gs.len() == n + 1);
            assert(gs[n].rows == seq![i]);
            if n > 0 {
                assert(turns_apart(gs[n - 1].turn, gs[n].turn));
            }
            assert forall|g: int| #![trigger gs[g]] 0 <= g < gs.len() implies (forall|j: int|
                #![trigger gs[g].rows[j]]
                0 <= j < gs[g].rows.len() ==> exists|k: int| 0 <= k < m && order[k] == gs[g].rows[j]) by {
                assert forall|j: int| #![trigger gs[g].rows[j]] 0 <= j < gs[g].rows.len() implies exists|k: int|
                    0 <= k < m && order[k] == gs[g].rows[j] by {
                    if g == n {
                        assert(order[m - 1] == gs[g].rows[j]);
                    } else {
                        assert(gs[g] == prev[g]);
                        let k = choose|k: int| 0 <= k < m - 1 && order[k] == prev[g].rows[j];
                    }
                }
            }
            assert forall|g1: int, j1: int, g2: int, j2: int|
                #![trigger gs[g1].rows[j1], gs[g2].rows[j2]]
                0 <= g1 < gs.len() && 0 <= g2 < gs.len() && 0 <= j1 < gs[g1].rows.len() && 0 <= j2
                    < gs[g2].rows.len() && gs[g1].rows[j1] == gs[g2].rows[j2] implies g1 == g2 && j1
                == j2 by {
                if g1 == n && g2 != n {
                    assert(gs[g2] == prev[g2]);
                    let k = choose|k: int| 0 <= k < m - 1 && order[k] == prev[g2].rows[j2];
                } else if g1 != n && g2 == n {
                    assert(gs[g1] == prev[g1]);
                    let k = choose|k: int| 0 <= k < m - 1 && order[k] == prev[g1].rows[j1];
                } else if g1 != n && g2 != n {
                    assert(gs[g1] == prev[g1]);
                    assert(gs[g2] == prev[g2]);
                }
            }
            assert forall|i2: int| 0 <= i2 < rows.len() implies ((exists|g: int, j: int|
                0 <= g < gs.len() && 0 <= j < gs[g].rows.len() && #[trigger] gs[g].rows[j] == i2)
                <==> (row_has_content(rows[i2]) && exists|k: int|
                0 <= k < m && #[trigger] order[k] == i2)) by {
                if exists|g: int, j: int|
                    0 <= g < gs.len() && 0 <= j < gs[g].rows.len() && #[trigger] gs[g].rows[j] == i2 {
                    let (g, j) = choose|g: int, j: int|
                        0 <= g < gs.len() && 0 <= j < gs[g].rows.len() && #[trigger] gs[g].rows[j] == i2;
                    if g == n {
                        assert(order[m - 1] == i2);
                    } else {
                        assert(gs[g] == prev[g]);
                        assert(prev[g].rows[j] == i2);
                        let k = choose|k: int| 0 <= k < m - 1 && #[trigger] order[k] == i2;
                    }
                }
                if row_has_content(rows[i2]) && exists|k: int| 0 <= k < m && #[trigger] order[k] == i2 {
                    let k = choose|k: int| 0 <= k < m && #[trigger] order[k] == i2;
                    if k == m - 1 {
                        assert(gs[n].rows[0] == i2);
                    } else {
                        let (g, j) = choose|g: int, j: int|
                            0 <= g < prev.len() && 0 <= j < prev[g].rows.len() && #[trigger] prev[g].rows[j] == i2;
                        assert(gs[g] == prev[g]);
                        assert(gs[g].rows[j] == i2);
                    }
                }
            }
        }
    }
}

// ---------------------------------------------------------------------------
// Detokenization is idempotent
// ---------------------------------------------------------------------------

/// The words of the detokenized output: a punctuation-only token is glued
/// to the last word (dropped before the first one), an apostrophe-led token
/// after some word is glued to it, any other token starts a word.
pub open spec fn detok_words(toks: Seq<Seq<char>>) -> Seq<Seq<char>>
    decreases toks.len(),
{
    if toks.len() == 0 {
        Seq::empty()
    } else {
        let w = detok_words(toks.drop_last());
        let t = toks.last();
        if punct_only(t) {
            if w.len() == 0 {
                w
            } else {
                w.update(w.len() - 1, w.last() + t)
            }
        } else if t.len() > 0 && t[0] == '\'' && w.len() > 0 {
            w.update(w.len() - 1, w.last() + t)
        } else {
            w.push(t)
        }
    }
}

/// Words that detokenization leaves as they are: plain, none made of
/// punctuation only, and none but the first led by an apostrophe.
pub open spec fn settled_words(ws: Seq<Seq<char>>) -> bool {
    &&& plain_words(ws)
    &&& forall|k: int| 0 <= k < ws.len() ==> !punct_only(#[trigger] ws[k])
    &&& forall|k: int| 1 <= k < ws.len() ==> (#[trigger] ws[k])[0] != '\''
}

proof fn lemma_join_nonempty(ws: Seq<Seq<char>>)
    requires
        plain_words(ws),
    ensures
        (join_words_ws(ws).len() > 0) == (ws.len() > 0),
    decreases ws.len(),
{
    if ws.len() > 1 {
        let p = ws.drop_last();
        assert(plain_words(p)) by {
            assert forall|k: int| 0 <= k < p.len() implies (#[trigger] p[k]).len() > 0 && no_white_space(
                p[k],
            ) by {
                assert(p[k] == ws[k]);
            }
        }
        lemma_join_nonempty(p);
    } else if ws.len() == 1 {
        assert(ws[0].len() > 0);
    }
}

proof fn lemma_join_extend_last(ws: Seq<Seq<char>>, t: Seq<char>)
    requires
        ws.len() > 0,
    ensures
        join_words_ws(ws.update(ws.len() - 1, ws.last() + t)) == join_words_ws(ws) + t,
{
    let w2 = ws.update(ws.len() - 1, ws.last() + t);
    if ws.len() == 1 {
        assert(w2[0] == ws[0] + t);
    } else {
        assert(w2.drop_last() =~= ws.drop_last());
        assert(join_words_ws(ws.drop_last()).push(' ') + (ws.last() + t) =~= (join_words_ws(
            ws.drop_last(),
        ).push(' ') + ws.last()) + t);
    }
}

proof fn lemma_punct_only_extend(w: Seq<char>, t: Seq<char>)
    requires
        w.len() > 0,
        !punct_only(w),
    ensures
        !punct_only(w + t),
        (w + t)[0] == w[0],
{
    let i = choose|i: int| 0 <= i < w.len() && !is_punct_char(#[trigger] w[i]);
    assert((w + t)[i] == w[i]);
}

proof fn lemma_detok_words(toks: Seq<Seq<char>>)
    requires
        plain_words(toks),
    ensures
        detok_tokens(toks) == join_words_ws(detok_words(toks)),
        settled_words(detok_words(toks)),
    decreases toks.len(),
{
    if toks.len() > 0 {
        let p = toks.drop_last();
        assert(plain_words(p)) by {
            assert forall|k: int| 0 <= k < p.len() implies (#[trigger] p[k]).len() > 0 && no_white_space(
                p[k],
            ) by {
                assert(p[k] == toks[k]);
            }
        }
        lemma_detok_words(p);
        let w = detok_words(p);
        let t = toks.last();
        assert(t == toks[toks.len() - 1]);
        assert(t.len() > 0 && no_white_space(t));
        let out = detok_tokens(p);
        lemma_join_nonempty(w);
        let w2 = detok_words(toks);
        if (punct_only(t) && w.len() > 0) || (!punct_only(t) && t[0] == '\'' && w.len() > 0) {
            assert(w2 == w.update(w.len() - 1, w.last() + t));
            lemma_join_extend_last(w, t);
            assert(w.last() == w[w.len() - 1]);
            lemma_punct_only_extend(w.last(), t);
            assert forall|k: int| 0 <= k < w2.len() implies (#[trigger] w2[k]).len() > 0
                && no_white_space(w2[k]) by {
                if k == w.len() - 1 {
                    assert forall|i: int| 0 <= i < w2[k].len() implies !is_white_space(
                        #[trigger] w2[k][i],
                    ) by {
                        if i < w.last().len() {
                            assert(w2[k][i] == w.last()[i]);
                        } else {
                            assert(w2[k][i] == t[i - w.last().len()]);
                        }
                    }
                }
            }
            assert forall|k: int| 0 <= k < w2.len() implies !punct_only(#[trigger] w2[k]) by {
                if k < w.len() - 1 {
                    assert(w2[k] == w[k]);
                }
            }
            assert forall|k: int| 1 <= k < w2.len() implies (#[trigger] w2[k])[0] != '\'' by {
                if k < w.len() - 1 {
                    assert(w2[k] == w[k]);
                }
            }
        } else if punct_only(t) {
            assert(w2 == w);
        } else {
            assert(w2 == w.push(t));
            if w.len() > 0 {
                assert(w2.drop_last() =~= w);
            } else {
                assert(out + t =~= t);
            }
            assert forall|k: int| 0 <= k < w2.len() implies (#[trigger] w2[k]).len() > 0
                && no_white_space(w2[k]) && !punct_only(w2[k]) by {
                if k < w.len() {
                    assert(w2[k] == w[k]);
                }
            }
            assert forall|k: int| 1 <= k < w2.len() implies (#[trigger] w2[k])[0] != '\'' by {
                if k < w.len() {
                    assert(w2[k] == w[k]);
                }
            }
        }
    }
}

proof fn lemma_settled_fixed(ws: Seq<Seq<char>>)
    requires
        settled_words(ws),
    ensures
        detok_tokens(ws) == join_words_ws(ws),
    decreases ws.len(),
{
    if ws.len() > 0 {
        let p = ws.drop_last();
        assert(settled_words(p)) by {
            assert forall|k: int| 0 <= k < p.len() implies (#[trigger] p[k]).len() > 0 && no_white_space(
                p[k],
            ) && !punct_only(p[k]) by {
                assert(p[k] == ws[k]);
            }
            assert forall|k: int| 1 <= k < p.len() implies (#[trigger] p[k])[0] != '\'' by {
                assert(p[k] == ws[k]);
            }
        }
        lemma_settled_fixed(p);
        lemma_join_nonempty(p);
        let last = ws.last();
        assert(last == ws[ws.len() - 1]);
        assert(!punct_only(last));
        if ws.len() == 1 {
            assert(detok_tokens(p).len() == 0);
            assert(detok_tokens(p) + last =~= last);
        } else {
            assert(last[0] != '\'');
        }
    }
}

/// Detokenizing twice changes nothing more than detokenizing once.
pub proof fn lemma_detokenize_idempotent(s: Seq<char>)
    ensures
        detokenized(detokenized(s)) == detokenized(s),
{
    lemma_split_ws_tokens(s);
    let toks = split_ws(s);
    assert(plain_words(toks));
    lemma_detok_words(toks);
    let w = detok_words(toks);
    lemma_split_joined(w);
    lemma_settled_fixed(w);
}

/// Whitespace in `s` is only single spaces between two other characters:
/// none leads, none trails, no two are adjacent, and no other whitespace
/// character occurs.
pub open spec fn well_spaced(s: Seq<char>) -> bool {
    forall|i: int|
        0 <= i < s.len() && is_white_space(#[trigger] s[i]) ==> s[i] == ' ' && 0 < i && i + 1
            < s.len() && !is_white_space(s[i + 1])
}

proof fn lemma_punct_no_alnum(t: Seq<char>)
    requires
        forall|i: int| 0 <= i < t.len() ==> is_punct_char(#[trigger] t[i]),
    ensures
        alnum_chars(t) == Seq::<char>::empty(),
    decreases t.len(),
{
    if t.len() > 0 {
        lemma_punct_no_alnum(t.drop_last());
        assert(is_punct_char(t[t.len() - 1]));
        assert(!is_alphanumeric(t.last()));
        assert(alnum_chars(t) =~= Seq::<char>::empty());
    }
}

proof fn lemma_detok_tokens_laws(toks: Seq<Seq<char>>)
    requires
        plain_words(toks),
    ensures
        alnum_chars(detok_tokens(toks)) == tokens_alnum(toks),
        well_spaced(detok_tokens(toks)),
    decreases toks.len(),
{
    if toks.len() > 0 {
        let p = toks.drop_last();
        assert(plain_words(p)) by {
            assert forall|k: int| 0 <= k < p.len() implies (#[trigger] p[k]).len() > 0 && no_white_space(p[k]) by {
                assert(p[k] == toks[k]);
            }
        }
        lemma_detok_tokens_laws(p);
        let out = detok_tokens(p);
        let tok = toks.last();
        assert(tok == toks[toks.len() - 1]);
        assert(tok.len() > 0 && no_white_space(tok));
        let r = detok_tokens(toks);
        assert(r == detok_step(out, tok));
        if punct_only(tok) {
            lemma_punct_no_alnum(tok);
        }
        lemma_alnum_concat(out, tok);
        if out.len() > 0 {
            lemma_alnum_concat(out, seq![' ']);
            assert(out.push(' ') =~= out + seq![' ']);
            lemma_alnum_concat(out.push(' '), tok);
            assert(alnum_chars(seq![' ']) =~= Seq::<char>::empty()) by {
                let sp = seq![' '];
                assert(sp.drop_last() =~= Seq::<char>::empty());
                assert(sp.last() == ' ');
                assert(!is_alphanumeric(' '));
                assert(alnum_chars(sp) == alnum_chars(sp.drop_last()) + Seq::<char>::empty());
            }
        }
        if punct_only(tok) && out.len() == 0 {
            assert(alnum_chars(r) =~= tokens_alnum(toks));
        } else if punct_only(tok) || (tok[0] == '\'' && out.len() > 0) || out.len() == 0 {
            assert(r == out + tok);
            assert(alnum_chars(r) =~= tokens_alnum(toks));
            assert forall|i: int| 0 <= i < r.len() && is_white_space(#[trigger] r[i]) implies r[i] == ' '
                && 0 < i && i + 1 < r.len() && !is_white_space(r[i + 1]) by {
                if i >= out.len() {
                    assert(r[i] == tok[i - out.len()]);
                } else {
                    assert(r[i] == out[i]);
                    assert(r[i + 1] == out[i + 1]);
                }
            }
        } else {
            assert(r == out.push(' ') + tok);
            assert(alnum_chars(r) =~= tokens_alnum(toks));
            assert forall|i: int| 0 <= i < r.len() && is_white_space(#[trigger] r[i]) implies r[i] == ' '
                && 0 < i && i + 1 < r.len() && !is_white_space(r[i + 1]) by {
                if i > out.len() {
                    assert(r[i] == tok[i - out.len() - 1]);
                } else if i == out.len() {
                    assert(r[i + 1] == tok[0]);
                } else {
                    assert(r[i] == out[i]);
                    assert(r[i + 1] == out[i + 1]);
                }
            }
        }
    } else {
        assert(alnum_chars(detok_tokens(toks)) =~= tokens_alnum(toks));
    }
}

proof fn lemma_detok_words_len(toks: Seq<Seq<char>>)
    ensures
        detok_words(toks).len() <= toks.len(),
    decreases toks.len(),
{
    if toks.len() > 0 {
        lemma_detok_words_len(toks.drop_last());
    }
}

/// Detokenizing keeps every alphanumeric character of the text, in order,
/// leaves only single spaces between words (no leading, trailing or
/// doubled whitespace), and never adds a word.
pub proof fn lemma_detokenize_keeps_content(s: Seq<char>)
    ensures
        alnum_chars(detokenized(s)) == alnum_chars(s),
        well_spaced(detokenized(s)),
        split_ws(detokenized(s)).len() <= split_ws(s).len(),
{
    lemma_split_ws_tokens(s);
    let toks = split_ws(s);
    lemma_detok_tokens_laws(toks);
    lemma_split_ws_alnum(s);
    lemma_detok_words(toks);
    let w = detok_words(toks);
    lemma_split_joined(w);
    lemma_detok_words_len(toks);
}

proof fn lemma_time_order_ok(rows: Seq<RowView>)
    ensures
        order_ok(rows, time_order(rows)),
        order_lex(rows, time_order(rows)),
        time_order(rows).len() == rows.len(),
{
    let keys = row_keys(rows);
    lemma_stable_order_exists(keys);
    let o = time_order(rows);
    assert forall|k1: int, k2: int| 0 <= k1 < k2 < o.len() implies #[trigger] o[k1] != #[trigger] o[k2] by {
        assert(key_before(keys, o[k1], o[k2]));
    }
    assert forall|k1: int, k2: int| 0 <= k1 < k2 < o.len() implies rows[#[trigger] o[k1]].start_ms
        < rows[#[trigger] o[k2]].start_ms || (rows[o[k1]].start_ms == rows[o[k2]].start_ms
        && rows[o[k1]].end_ms <= rows[o[k2]].end_ms) by {
        assert(key_before(keys, o[k1], o[k2]));
        assert(keys[o[k1]] == (rows[o[k1]].start_ms, rows[o[k1]].end_ms));
        assert(keys[o[k2]] == (rows[o[k2]].start_ms, rows[o[k2]].end_ms));
    }
}

proof fn lemma_assembled_wf(rows: Seq<RowView>)
    ensures
        groups_wf(assembled(rows), rows, time_order(rows), rows.len() as int),
        time_order(rows).len() == rows.len(),
        forall|k: int| 0 <= k < rows.len() ==> 0 <= #[trigger] time_order(rows)[k] < rows.len(),
{
    lemma_time_order_ok(rows);
    let o = time_order(rows);
    lemma_groups_wf(rows, o, o.len() as int);
    assert(o.subrange(0, o.len() as int) =~= o);
}

/// Adjacent turns are always kept apart: a speaker change, or a silence
/// longer than [`MAX_MERGE_GAP_MS`], separates each turn from the next.
pub proof fn lemma_adjacent_turns_apart(rows: Seq<RowView>)
    ensures
        forall|k: int|
            0 <= k < assembled_turns(rows).len() - 1 ==> turns_apart(
                #[trigger] assembled_turns(rows)[k],
                assembled_turns(rows)[k + 1],
            ),
{
    lemma_assembled_wf(rows);
    let gs = assembled(rows);
    assert forall|k: int| 0 <= k < assembled_turns(rows).len() - 1 implies turns_apart(
        #[trigger] assembled_turns(rows)[k],
        assembled_turns(rows)[k + 1],
    ) by {
        assert(turns_apart(gs[k].turn, gs[k + 1].turn));
    }
}

/// Every turn carries content: punctuation-only and empty rows never make
/// a turn.
pub proof fn lemma_turns_have_content(rows: Seq<RowView>)
    ensures
        forall|k: int|
            0 <= k < assembled_turns(rows).len() ==> has_alphanumeric(
                (#[trigger] assembled_turns(rows)[k]).text,
            ),
{
    lemma_assembled_wf(rows);
    let gs = assembled(rows);
    assert forall|k: int| 0 <= k < assembled_turns(rows).len() implies has_alphanumeric(
        (#[trigger] assembled_turns(rows)[k]).text,
    ) by {
        assert(gs[k].rows.len() >= 1);
    }
}

/// Turns come out in time order of their starts.
pub proof fn lemma_turns_in_time_order(rows: Seq<RowView>)
    ensures
        forall|k1: int, k2: int|
            0 <= k1 < k2 < assembled_turns(rows).len() ==> (#[trigger] assembled_turns(rows)[k1]).start_ms
                <= (#[trigger] assembled_turns(rows)[k2]).start_ms,
{
    lemma_assembled_wf(rows);
    let gs = assembled(rows);
    assert forall|k1: int, k2: int| 0 <= k1 < k2 < assembled_turns(rows).len() implies (
    #[trigger] assembled_turns(rows)[k1]).start_ms <= (#[trigger] assembled_turns(
        rows,
    )[k2]).start_ms by {
        assert(gs[k1].turn.start_ms <= gs[k2].turn.start_ms);
    }
}

/// A turn is made of its rows only: every row of it has its speaker, its
/// start is its first row's, its end the latest end among its rows, and its
/// text the rows' detokenized texts joined by single spaces, in time order.
pub proof fn lemma_turns_made_of_their_rows(rows: Seq<RowView>)
    ensures
        forall|g: int|
            0 <= g < assembled(rows).len() ==> {
                let grp = #[trigger] assembled(rows)[g];
                &&& grp.rows.len() >= 1
                &&& grp.turn.speaker == rows[grp.rows[0]].speaker
                &&& grp.turn.start_ms == rows[grp.rows[0]].start_ms
                &&& grp.turn.end_ms == max_end(rows, grp.rows)
                &&& grp.turn.text == joined_texts(rows, grp.rows)
                &&& forall|j: int|
                    0 <= j < grp.rows.len() ==> rows[#[trigger] grp.rows[j]].speaker
                        == grp.turn.speaker
            },
{
    lemma_assembled_wf(rows);
}

/// Every row with content lands in exactly one turn, at one position; a row
/// without content lands in none.
pub proof fn lemma_rows_partitioned(rows: Seq<RowView>)
    ensures
        forall|g: int, j: int|
            0 <= g < assembled(rows).len() && 0 <= j < assembled(rows)[g].rows.len() ==> 0
                <= #[trigger] assembled(rows)[g].rows[j] < rows.len(),
        forall|i: int|
            0 <= i < rows.len() ==> (row_has_content(#[trigger] rows[i]) <==> exists|g: int, j: int|
                0 <= g < assembled(rows).len() && 0 <= j < assembled(rows)[g].rows.len()
                    && assembled(rows)[g].rows[j] == i),
        forall|g1: int, j1: int, g2: int, j2: int|
            0 <= g1 < assembled(rows).len() && 0 <= g2 < assembled(rows).len() && 0 <= j1
                < assembled(rows)[g1].rows.len() && 0 <= j2 < assembled(rows)[g2].rows.len()
                && #[trigger] assembled(rows)[g1].rows[j1] == #[trigger] assembled(rows)[g2].rows[j2]
                ==> g1 == g2 && j1 == j2,
{
    lemma_assembled_wf(rows);
    let gs = assembled(rows);
    let o = time_order(rows);
    assert forall|g: int, j: int|
        0 <= g < gs.len() && 0 <= j < gs[g].rows.len() implies 0 <= #[trigger] gs[g].rows[j]
        < rows.len() by {
        let grp = gs[g];
        let k = choose|k: int| 0 <= k < rows.len() && o[k] == grp.rows[j];
    }
    assert forall|i: int| 0 <= i < rows.len() implies (row_has_content(#[trigger] rows[i])
        <==> exists|g: int, j: int|
        0 <= g < gs.len() && 0 <= j < gs[g].rows.len() && gs[g].rows[j] == i) by {
        assert(row_has_content(rows[i]) == row_has_content(rows[i]));
        lemma_stable_order_exists(row_keys(rows));
        assert(o.contains(i));
        let k = choose|k: int| 0 <= k < o.len() && o[k] == i;
        assert(o[k] == i);
    }
}

proof fn lemma_group_rows_sorted(rows: Seq<RowView>, order: Seq<int>, m: int)
    requires
        0 <= m <= order.len(),
        forall|k1: int, k2: int|
            0 <= k1 < k2 < order.len() ==> key_before(row_keys(rows), #[trigger] order[k1], #[trigger] order[k2]),
    ensures
        forall|g: int, j: int|
            0 <= g < assemble_over(rows, order.subrange(0, m)).len() && 0 <= j < assemble_over(
                rows,
                order.subrange(0, m),
            )[g].rows.len() ==> exists|k: int|
                0 <= k < m && order[k] == #[trigger] assemble_over(rows, order.subrange(0, m))[g].rows[j],
        forall|g: int, j1: int, j2: int|
            0 <= g < assemble_over(rows, order.subrange(0, m)).len() && 0 <= j1 < j2 < assemble_over(
                rows,
                order.subrange(0, m),
            )[g].rows.len() ==> key_before(
                row_keys(rows),
                #[trigger] assemble_over(rows, order.subrange(0, m))[g].rows[j1],
                #[trigger] assemble_over(rows, order.subrange(0, m))[g].rows[j2],
            ),
    decreases m,
{
    if m > 0 {
        lemma_group_rows_sorted(rows, order, m - 1);
        let pre = order.subrange(0, m - 1);
        assert(order.subrange(0, m).drop_last() =~= pre);
        assert(order.subrange(0, m).last() == order[m - 1]);
        let gs = assemble_over(rows, pre);
        let i = order[m - 1];
        let ns = assemble_over(rows, order.subrange(0, m));
        assert(ns == assemble_step(gs, rows, i));
        assert forall|g: int, j: int| 0 <= g < ns.len() && 0 <= j < ns[g].rows.len() implies exists|k: int|
            0 <= k < m && order[k] == #[trigger] ns[g].rows[j] by {
            if g < gs.len() && j < gs[g].rows.len() {
                assert(ns[g].rows[j] == gs[g].rows[j]);
                let k = choose|k: int| 0 <= k < m - 1 && order[k] == #[trigger] gs[g].rows[j];
            } else {
                assert(ns[g].rows[j] == i);
            }
        }
        assert forall|g: int, j1: int, j2: int| 0 <= g < ns.len() && 0 <= j1 < j2 < ns[g].rows.len()
            implies key_before(row_keys(rows), #[trigger] ns[g].rows[j1], #[trigger] ns[g].rows[j2]) by {
            if g < gs.len() && j2 < gs[g].rows.len() {
                assert(ns[g].rows[j1] == gs[g].rows[j1]);
                assert(ns[g].rows[j2] == gs[g].rows[j2]);
            } else {
                assert(ns[g].rows[j2] == i);
                assert(g < gs.len() && j1 < gs[g].rows.len());
                assert(ns[g].rows[j1] == gs[g].rows[j1]);
                let k = choose|k: int| 0 <= k < m - 1 && order[k] == #[trigger] gs[g].rows[j1];
                assert(key_before(row_keys(rows), order[k], order[m - 1]));
            }
        }
    }
}

/// The rows of each turn come in time order: by start, then end, then
/// input position.
pub proof fn lemma_turn_rows_in_time_order(rows: Seq<RowView>)
    ensures
        forall|g: int, j1: int, j2: int|
            0 <= g < assembled(rows).len() && 0 <= j1 < j2 < assembled(rows)[g].rows.len() ==> key_before(
                row_keys(rows),
                #[trigger] assembled(rows)[g].rows[j1],
                #[trigger] assembled(rows)[g].rows[j2],
            ),
{
    let o = time_order(rows);
    lemma_stable_order_exists(row_keys(rows));
    lemma_group_rows_sorted(rows, o, o.len() as int);
    assert(o.subrange(0, o.len() as int) =~= o);
}

/// The alphanumeric characters of the listed rows' texts, row after row.
pub open spec fn rows_alnum(rows: Seq<RowView>, idx: Seq<int>) -> Seq<char>
    decreases idx.len(),
{
    if idx.len() == 0 {
        Seq::empty()
    } else {
        rows_alnum(rows, idx.drop_last()) + alnum_chars(rows[idx.last()].text)
    }
}

proof fn lemma_joined_alnum(rows: Seq<RowView>, idx: Seq<int>)
    ensures
        alnum_chars(joined_texts(rows, idx)) == rows_alnum(rows, idx),
    decreases idx.len(),
{
    if idx.len() == 0 {
        assert(alnum_chars(Seq::<char>::empty()) =~= Seq::<char>::empty());
    } else {
        let last = rows[idx.last()].text;
        lemma_detokenize_keeps_content(last);
        if idx.len() == 1 {
            assert(idx.drop_last() =~= Seq::<int>::empty());
            assert(rows_alnum(rows, idx.drop_last()) =~= Seq::<char>::empty());
            assert(rows_alnum(rows, idx) =~= alnum_chars(last));
        } else {
            lemma_joined_alnum(rows, idx.drop_last());
            let j = joined_texts(rows, idx.drop_last());
            lemma_alnum_concat(j.push(' '), detokenized(last));
            lemma_alnum_concat(j, seq![' ']);
            assert(j.push(' ') =~= j + seq![' ']);
            assert(alnum_chars(seq![' ']) =~= Seq::<char>::empty()) by {
                let sp = seq![' '];
                assert(sp.drop_last() =~= Seq::<char>::empty());
                assert(sp.last() == ' ');
                assert(!is_alphanumeric(' '));
                assert(alnum_chars(sp) == alnum_chars(sp.drop_last()) + Seq::<char>::empty());
            }
            assert(alnum_chars(j.push(' ')) =~= alnum_chars(j));
        }
    }
}

/// A turn keeps every alphanumeric character of its rows, row after row in
/// time order.
pub proof fn lemma_turn_keeps_content(rows: Seq<RowView>)
    ensures
        forall|g: int|
            0 <= g < assembled(rows).len() ==> alnum_chars((#[trigger] assembled(rows)[g]).turn.text)
                == rows_alnum(rows, assembled(rows)[g].rows),
{
    lemma_assembled_wf(rows);
    assert forall|g: int| 0 <= g < assembled(rows).len() implies alnum_chars(
        (#[trigger] assembled(rows)[g]).turn.text,
    ) == rows_alnum(rows, assembled(rows)[g].rows) by {
        lemma_joined_alnum(rows, assembled(rows)[g].rows);
    }
}

proof fn lemma_step_turns(gs1: Seq<GroupView>, rows1: Seq<RowView>, i1: int, gs2: Seq<GroupView>, rows2: Seq<RowView>, i2: int)
    requires
        gs1.map_values(|g: GroupView| g.turn) == gs2.map_values(|g: GroupView| g.turn),
        rows1[i1] == rows2[i2],
    ensures
        assemble_step(gs1, rows1, i1).map_values(|g: GroupView| g.turn) == assemble_step(gs2, rows2, i2).map_values(
            |g: GroupView| g.turn,
        ),
{
    let t1 = gs1.map_values(|g: GroupView| g.turn);
    let t2 = gs2.map_values(|g: GroupView| g.turn);
    assert(gs1.len() == t1.len() && gs2.len() == t2.len());
    assert forall|k: int| 0 <= k < gs1.len() implies gs1[k].turn == gs2[k].turn by {
        assert(t1[k] == gs1[k].turn);
        assert(t2[k] == gs2[k].turn);
    }
    let n1 = assemble_step(gs1, rows1, i1);
    let n2 = assemble_step(gs2, rows2, i2);
    assert(n1.map_values(|g: GroupView| g.turn) =~= n2.map_values(|g: GroupView| g.turn)) by {
        if gs1.len() > 0 {
            assert(gs1.last().turn == gs2.last().turn);
        }
        assert(n1.len() == n2.len());
        assert forall|k: int| 0 <= k < n1.len() implies n1[k].turn == n2[k].turn by {}
    }
}

proof fn lemma_over_turns(rows1: Seq<RowView>, o1: Seq<int>, rows2: Seq<RowView>, o2: Seq<int>)
    requires
        o1.len() == o2.len(),
        forall|k: int| 0 <= k < o1.len() ==> rows1[#[trigger] o1[k]] == rows2[o2[k]],
    ensures
        assemble_over(rows1, o1).map_values(|g: GroupView| g.turn) == assemble_over(rows2, o2).map_values(
            |g: GroupView| g.turn,
        ),
    decreases o1.len(),
{
    if o1.len() > 0 {
        let p1 = o1.drop_last();
        let p2 = o2.drop_last();
        assert forall|k: int| 0 <= k < p1.len() implies rows1[#[trigger] p1[k]] == rows2[p2[k]] by {
            assert(p1[k] == o1[k]);
            assert(p2[k] == o2[k]);
        }
        lemma_over_turns(rows1, p1, rows2, p2);
        assert(rows1[o1[o1.len() - 1]] == rows2[o2[o2.len() - 1]]);
        lemma_step_turns(
            assemble_over(rows1, p1),
            rows1,
            o1.last(),
            assemble_over(rows2, p2),
            rows2,
            o2.last(),
        );
    } else {
        assert(assemble_over(rows1, o1).map_values(|g: GroupView| g.turn) =~= assemble_over(rows2, o2).map_values(
            |g: GroupView| g.turn,
        ));
    }
}

/// `rows2` holds the rows of `rows1` in another order: `rows2[x]` is
/// `rows1[p[x]]`, for a permutation `p`.
pub open spec fn is_reordering(rows1: Seq<RowView>, rows2: Seq<RowView>, p: Seq<int>) -> bool {
    &&& rows2.len() == rows1.len()
    &&& p.len() == rows1.len()
    &&& forall|x: int| 0 <= x < p.len() ==> 0 <= #[trigger] p[x] < rows1.len() && rows2[x] == rows1[p[x]]
    &&& forall|x: int, y: int| 0 <= x < y < p.len() ==> #[trigger] p[x] != #[trigger] p[y]
    &&& forall|i: int| 0 <= i < rows1.len() ==> #[trigger] p.contains(i)
}

/// No two rows share both start and end.
pub open spec fn distinct_spans(rows: Seq<RowView>) -> bool {
    forall|i: int, j: int|
        0 <= i < j < rows.len() ==> (#[trigger] rows[i]).start_ms != (#[trigger] rows[j]).start_ms
            || rows[i].end_ms != rows[j].end_ms
}

/// Assembly does not depend on the order the rows are given in, as long as
/// no two rows share both start and end (rows with the same span are read
/// in the order given).
pub proof fn lemma_assembly_order_free(rows1: Seq<RowView>, rows2: Seq<RowView>, p: Seq<int>)
    requires
        is_reordering(rows1, rows2, p),
        distinct_spans(rows1),
    ensures
        assembled_turns(rows2) == assembled_turns(rows1),
{
    let n = rows1.len() as int;
    let k1 = row_keys(rows1);
    let k2 = row_keys(rows2);
    lemma_stable_order_exists(k1);
    lemma_stable_order_exists(k2);
    let o1 = time_order(rows1);
    let o2 = time_order(rows2);
    let q = Seq::new(n as nat, |k: int| p[o2[k]]);
    assert forall|k: int| 0 <= k < q.len() implies 0 <= #[trigger] q[k] < k1.len() by {
        assert(0 <= o2[k] < n);
    }
    assert forall|i: int| 0 <= i < k1.len() implies #[trigger] q.contains(i) by {
        assert(k1.len() == rows1.len());
        assert(0 <= i < rows1.len());
        assert(p.contains(i));
        let x = choose|x: int| 0 <= x < p.len() && p[x] == i;
        assert(k2.len() == n);
        assert(is_stable_order(k2, o2));
        assert(0 <= x < k2.len());
        assert(o2.contains(x));
        let k = choose|k: int| 0 <= k < o2.len() && o2[k] == x;
        assert(o2.len() == n);
        assert(q[k] == p[o2[k]]);
        assert(q[k] == i);
    }
    assert forall|a: int, b: int| 0 <= a < b < q.len() implies key_before(k1, #[trigger] q[a], #[trigger] q[b]) by {
        let x = o2[a];
        let y = o2[b];
        assert(key_before(k2, x, y));
        assert(0 <= x < n && 0 <= y < n);
        assert(k2[x] == (rows2[x].start_ms, rows2[x].end_ms));
        assert(k2[y] == (rows2[y].start_ms, rows2[y].end_ms));
        assert(k1[p[x]] == (rows1[p[x]].start_ms, rows1[p[x]].end_ms));
        assert(k1[p[y]] == (rows1[p[y]].start_ms, rows1[p[y]].end_ms));
        assert(x != y);
        if p[x] == p[y] {
            if x < y {
                assert(p[x] != p[y]);
            } else {
                assert(p[y] != p[x]);
            }
        }
        if p[x] < p[y] {
            assert(rows1[p[x]].start_ms != rows1[p[y]].start_ms || rows1[p[x]].end_ms != rows1[p[y]].end_ms);
        } else {
            assert(rows1[p[y]].start_ms != rows1[p[x]].start_ms || rows1[p[y]].end_ms != rows1[p[x]].end_ms);
        }
    }
    assert(is_stable_order(k1, q));
    lemma_stable_order_unique(k1, q, o1);
    assert forall|k: int| 0 <= k < o2.len() implies rows2[#[trigger] o2[k]] == rows1[o1[k]] by {
        assert(o1[k] == p[o2[k]]);
    }
    lemma_over_turns(rows2, o2, rows1, o1);
}

// ---------------------------------------------------------------------------
// Assembly is idempotent
// ---------------------------------------------------------------------------

/// Turns read back as rows.
pub open spec fn turn_rows(ts: Seq<TurnView>) -> Seq<RowView> {
    ts.map_values(
        |t: TurnView| RowView { speaker: t.speaker, start_ms: t.start_ms, end_ms: t.end_ms, text: t.text },
    )
}

/// No row merged into an earlier row's turn begins (once detokenized) with
/// an apostrophe.
pub open spec fn no_glued_continuations(rows: Seq<RowView>) -> bool {
    forall|g: int, j: int|
        0 <= g < assembled(rows).len() && 1 <= j < assembled(rows)[g].rows.len() ==> detokenized(
            rows[#[trigger] assembled(rows)[g].rows[j]].text,
        )[0] != '\''
}

/// The detokenized words of the listed rows, in order.
pub open spec fn rows_words(rows: Seq<RowView>, idx: Seq<int>) -> Seq<Seq<char>>
    decreases idx.len(),
{
    if idx.len() == 0 {
        Seq::empty()
    } else {
        rows_words(rows, idx.drop_last()) + detok_words(split_ws(rows[idx.last()].text))
    }
}

proof fn lemma_join_concat(a: Seq<Seq<char>>, b: Seq<Seq<char>>)
    requires
        a.len() > 0,
        b.len() > 0,
    ensures
        join_words_ws(a).push(' ') + join_words_ws(b) == join_words_ws(a + b),
    decreases b.len(),
{
    if b.len() == 1 {
        assert((a + b).drop_last() =~= a);
        assert((a + b).last() == b[0]);
    } else {
        let p = b.drop_last();
        lemma_join_concat(a, p);
        assert((a + b).drop_last() =~= a + p);
        assert((a + b).last() == b.last());
        assert(join_words_ws(a).push(' ') + (join_words_ws(p).push(' ') + b.last()) =~= (
        join_words_ws(a).push(' ') + join_words_ws(p)).push(' ') + b.last());
    }
}

proof fn lemma_join_first_char(ws: Seq<Seq<char>>)
    requires
        ws.len() > 0,
        plain_words(ws),
    ensures
        join_words_ws(ws).len() > 0,
        join_words_ws(ws)[0] == ws[0][0],
    decreases ws.len(),
{
    if ws.len() > 1 {
        let p = ws.drop_last();
        assert(plain_words(p)) by {
            assert forall|k: int| 0 <= k < p.len() implies (#[trigger] p[k]).len() > 0 && no_white_space(
                p[k],
            ) by {
                assert(p[k] == ws[k]);
            }
        }
        lemma_join_first_char(p);
        assert(p[0] == ws[0]);
    } else {
        assert(ws[0].len() > 0);
    }
}

proof fn lemma_rows_words(rows: Seq<RowView>, idx: Seq<int>)
    requires
        idx.len() > 0,
        forall|j: int| 0 <= j < idx.len() ==> row_has_content(rows[#[trigger] idx[j]]),
        forall|j: int| 1 <= j < idx.len() ==> detokenized(rows[#[trigger] idx[j]].text)[0] != '\'',
    ensures
        joined_texts(rows, idx) == join_words_ws(rows_words(rows, idx)),
        settled_words(rows_words(rows, idx)),
        rows_words(rows, idx).len() > 0,
    decreases idx.len(),
{
    let t = rows[idx.last()].text;
    let toks = split_ws(t);
    lemma_split_ws_tokens(t);
    assert(plain_words(toks));
    lemma_detok_words(toks);
    let w = detok_words(toks);
    assert(row_has_content(rows[idx[idx.len() - 1]]));
    assert(detokenized(t).len() > 0) by {
        let c = choose|c: int| 0 <= c < detokenized(t).len() && crate::text::is_alphanumeric(
            #[trigger] detokenized(t)[c],
        );
    }
    lemma_join_nonempty(w);
    if idx.len() == 1 {
        assert(rows_words(rows, idx) =~= w);
    } else {
        let p = idx.drop_last();
        assert forall|j: int| 0 <= j < p.len() implies row_has_content(rows[#[trigger] p[j]]) by {
            assert(p[j] == idx[j]);
        }
        assert forall|j: int| 1 <= j < p.len() implies detokenized(rows[#[trigger] p[j]].text)[0]
            != '\'' by {
            assert(p[j] == idx[j]);
        }
        lemma_rows_words(rows, p);
        let a = rows_words(rows, p);
        assert(rows_words(rows, idx) == a + w);
        lemma_join_concat(a, w);
        lemma_join_first_char(w);
        assert(detokenized(t)[0] != '\'');
        let aw = a + w;
        assert forall|k: int| 0 <= k < aw.len() implies (#[trigger] aw[k]).len() > 0 && no_white_space(
            aw[k],
        ) && !punct_only(aw[k]) by {
            if k < a.len() {
                assert(aw[k] == a[k]);
            } else {
                assert(aw[k] == w[k - a.len()]);
            }
        }
        assert forall|k: int| 1 <= k < aw.len() implies (#[trigger] aw[k])[0] != '\'' by {
            if k < a.len() {
                assert(aw[k] == a[k]);
            } else {
                assert(aw[k] == w[k - a.len()]);
            }
        }
    }
}

/// A turn's text is already detokenized when no row merged into it began
/// with an apostrophe.
proof fn lemma_turn_text_settled(rows: Seq<RowView>, idx: Seq<int>)
    requires
        idx.len() > 0,
        forall|j: int| 0 <= j < idx.len() ==> row_has_content(rows[#[trigger] idx[j]]),
        forall|j: int| 1 <= j < idx.len() ==> detokenized(rows[#[trigger] idx[j]].text)[0] != '\'',
    ensures
        detokenized(joined_texts(rows, idx)) == joined_texts(rows, idx),
{
    lemma_rows_words(rows, idx);
    let w = rows_words(rows, idx);
    lemma_split_joined(w);
    lemma_settled_fixed(w);
}

/// Assembly is idempotent: assembling the turns again, each read as one
/// row, gives back every turn alone and unchanged (unless a row merged into
/// an earlier one began with an apostrophe, which detokenizing the merged
/// text glues to the word before it).
proof fn lemma_turn_texts_settled(rows: Seq<RowView>)
    requires
        no_glued_continuations(rows),
    ensures
        forall|g: int|
            0 <= g < assembled_turns(rows).len() ==> detokenized(
                #[trigger] assembled_turns(rows)[g].text,
            ) == assembled_turns(rows)[g].text && has_alphanumeric(assembled_turns(rows)[g].text),
{
    lemma_assembled_wf(rows);
    lemma_rows_partitioned(rows);
    let gs = assembled(rows);
    let ts = assembled_turns(rows);
    assert forall|g: int| 0 <= g < ts.len() implies detokenized(#[trigger] ts[g].text) == ts[g].text
        && has_alphanumeric(ts[g].text) by {
        let grp = gs[g];
        assert(ts[g] == grp.turn);
        assert forall|j: int| 0 <= j < grp.rows.len() implies row_has_content(
            rows[#[trigger] grp.rows[j]],
        ) by {
            assert(0 <= grp.rows[j] < rows.len());
            assert(exists|g2: int, j2: int|
                0 <= g2 < gs.len() && 0 <= j2 < gs[g2].rows.len() && gs[g2].rows[j2] == grp.rows[j]);
        }
        assert forall|j: int| 1 <= j < grp.rows.len() implies detokenized(
            rows[#[trigger] grp.rows[j]].text,
        )[0] != '\'' by {
            assert(grp.rows[j] == assembled(rows)[g].rows[j]);
        }
        lemma_turn_text_settled(rows, grp.rows);
    }
}

proof fn lemma_turn_rows_in_order(rows: Seq<RowView>)
    ensures
        time_order(turn_rows(assembled_turns(rows))) == Seq::new(
            assembled_turns(rows).len(),
            |i: int| i,
        ),
{
    lemma_assembled_wf(rows);
    lemma_time_order_ok(rows);
    let gs = assembled(rows);
    let ts = assembled_turns(rows);
    let n = ts.len() as int;
    let o = time_order(rows);
    lemma_groups_sorted(rows, o, o.len() as int);
    assert(o.subrange(0, o.len() as int) =~= o);
    let keys2 = row_keys(turn_rows(ts));
    let id = Seq::new(n as nat, |i: int| i);
    assert forall|i: int| 0 <= i < n implies #[trigger] id.contains(i) by {
        assert(id[i] == i);
    }
    assert forall|k1: int, k2: int| 0 <= k1 < k2 < id.len() implies key_before(
        keys2,
        #[trigger] id[k1],
        #[trigger] id[k2],
    ) by {
        assert(gs[k1].turn.start_ms <= gs[k2].turn.start_ms);
        if gs[k1].turn.start_ms == gs[k2].turn.start_ms {
            lemma_max_end_bounds(rows, gs[k2].rows, 0);
            assert(rows[gs[k2].rows[0]].end_ms <= max_end(rows, gs[k2].rows));
        }
    }
    assert(is_stable_order(keys2, id));
    lemma_stable_order_exists(keys2);
    lemma_stable_order_unique(keys2, stable_order(keys2), id);
}

/// Assembly is idempotent: assembling the turns again, each read as one
/// row, gives back every turn alone and unchanged (unless a row merged into
/// an earlier one began with an apostrophe, which detokenizing the merged
/// text glues to the word before it).
pub proof fn lemma_assembly_idempotent(rows: Seq<RowView>)
    requires
        no_glued_continuations(rows),
    ensures
        assembled(turn_rows(assembled_turns(rows))) == Seq::new(
            assembled_turns(rows).len(),
            |g: int| GroupView { turn: assembled_turns(rows)[g], rows: seq![g] },
        ),
{
    let ts = assembled_turns(rows);
    let n = ts.len() as int;
    lemma_turn_texts_settled(rows);
    lemma_turn_rows_in_order(rows);
    let id = Seq::new(n as nat, |i: int| i);
    let target = Seq::new(ts.len(), |g: int| GroupView { turn: ts[g], rows: seq![g] });
    lemma_assemble_turn_rows(rows, n);
    assert(id.subrange(0, n) =~= id);
    assert(target.subrange(0, n) =~= target);
}

proof fn lemma_assemble_turn_rows(rows: Seq<RowView>, m: int)
    requires
        no_glued_continuations(rows),
        0 <= m <= assembled_turns(rows).len(),
        forall|g: int|
            0 <= g < assembled_turns(rows).len() ==> detokenized(
                #[trigger] assembled_turns(rows)[g].text,
            ) == assembled_turns(rows)[g].text && has_alphanumeric(assembled_turns(rows)[g].text),
    ensures
        assemble_over(
            turn_rows(assembled_turns(rows)),
            Seq::new(assembled_turns(rows).len(), |i: int| i).subrange(0, m),
        ) == Seq::new(
            assembled_turns(rows).len(),
            |g: int| GroupView { turn: assembled_turns(rows)[g], rows: seq![g] },
        ).subrange(0, m),
    decreases m,
{
    let ts = assembled_turns(rows);
    let rows2 = turn_rows(ts);
    let n = ts.len();
    let id = Seq::new(n, |i: int| i);
    let target = Seq::new(n, |g: int| GroupView { turn: ts[g], rows: seq![g] });
    if m == 0 {
        assert(id.subrange(0, 0).len() == 0);
        assert(target.subrange(0, 0) =~= Seq::<GroupView>::empty());
    } else {
        lemma_assemble_turn_rows(rows, m - 1);
        let prev = target.subrange(0, m - 1);
        assert(id.subrange(0, m).drop_last() =~= id.subrange(0, m - 1));
        assert(id.subrange(0, m).last() == m - 1);
        let r = rows2[m - 1];
        assert(r.text == ts[m - 1].text);
        assert(detokenized(r.text) == r.text);
        if m >= 2 {
            lemma_adjacent_turns_apart(rows);
            assert(turns_apart(ts[m - 2], ts[m - 1]));
            assert(prev.last().turn == ts[m - 2]);
            assert(!merges_into(prev.last().turn, r));
        }
        assert(assemble_step(prev, rows2, m - 1) =~= target.subrange(0, m));
    }
}

} // verus!
