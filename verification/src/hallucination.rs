//! The counts a transcript row's hallucination audit decides on: characters
//! of a suspect script, U+FFFD replacement characters, whitespace tokens,
//! and how often the most repeated token occurs.
use unicode_script::Script;
use vstd::prelude::*;
use crate::text::{char_seqs, chars_equal, chars_of, split_whitespace, split_ws};

verus! {

/// Non-Latin script characters that flag a row.
pub const MIN_NON_LATIN_CHARS: usize = 3;

/// Occurrences of the top token needed for a loop flag.
pub const MIN_LOOP_COUNT: usize = 10;

/// Whitespace tokens needed before the loop trigger is evaluated.
pub const MIN_LOOP_TOKENS: usize = 6;

/// The Unicode script of a character, as far as the audit tells scripts
/// apart: the script-neutral and Latin classes, and every other script.
#[derive(Clone, Copy, Debug, PartialEq, Eq, Structural)]
pub enum ScriptClass {
    Latin,
    Common,
    Inherited,
    Unknown,
    Other,
}

/// The script class `unicode_script` assigns a character (its table of
/// Unicode `Script` property ranges).
pub uninterp spec fn script_class(c: char) -> ScriptClass;

/// `unicode_script::Script::from(c)` (a lookup in the crate's table of
/// script ranges), reduced to a `ScriptClass`: nothing is claimed of the
/// class but that it is the named `script_class` of `c`.
#[verifier::external_body]
fn char_script_class(c: char) -> (r: ScriptClass)
    ensures
        r == script_class(c),
{
    match Script::from(c) {
        Script::Latin => ScriptClass::Latin,
        Script::Common => ScriptClass::Common,
        Script::Inherited => ScriptClass::Inherited,
        Script::Unknown => ScriptClass::Unknown,
        _ => ScriptClass::Other,
    }
}

/// A character of a script other than Latin or the script-neutral ones.
pub open spec fn is_suspect(c: char) -> bool {
    script_class(c) == ScriptClass::Other
}

/// How many characters of `s` are suspect.
pub open spec fn suspect_count(s: Seq<char>) -> nat
    decreases s.len(),
{
    if s.len() == 0 {
        0
    } else {
        suspect_count(s.drop_last()) + if is_suspect(s.last()) {
            1nat
        } else {
            0nat
        }
    }
}

/// How many times `c` occurs in `s`.
pub open spec fn char_count(s: Seq<char>, c: char) -> nat
    decreases s.len(),
{
    if s.len() == 0 {
        0
    } else {
        char_count(s.drop_last(), c) + if s.last() == c {
            1nat
        } else {
            0nat
        }
    }
}

/// How many of the tokens equal `t`.
pub open spec fn multiplicity(toks: Seq<Seq<char>>, t: Seq<char>) -> nat
    decreases toks.len(),
{
    if toks.len() == 0 {
        0
    } else {
        multiplicity(toks.drop_last(), t) + if toks.last() == t {
            1nat
        } else {
            0nat
        }
    }
}

/// The largest multiplicity among the first `m` tokens.
pub open spec fn top_multiplicity(toks: Seq<Seq<char>>, m: int) -> nat
    decreases m,
{
    if m <= 0 {
        0
    } else {
        let prev = top_multiplicity(toks, m - 1);
        let here = multiplicity(toks, toks[m - 1]);
        if here > prev {
            here
        } else {
            prev
        }
    }
}

/// The loop count of a token sequence: how often its most repeated token
/// occurs, once there are at least [`MIN_LOOP_TOKENS`] tokens (else 0).
pub open spec fn loop_count(toks: Seq<Seq<char>>) -> nat {
    if toks.len() >= MIN_LOOP_TOKENS {
        top_multiplicity(toks, toks.len() as int)
    } else {
        0
    }
}

/// The integer counts of one row's audit.
#[derive(Clone, Copy, Debug, PartialEq, Eq, Structural)]
pub struct AuditCounts {
    pub non_latin: usize,
    pub fffd: usize,
    pub tokens: usize,
    pub loop_count: usize,
}

proof fn lemma_count_bounds(s: Seq<char>, c: char)
    ensures
        char_count(s, c) <= s.len(),
        suspect_count(s) <= s.len(),
    decreases s.len(),
{
    if s.len() > 0 {
        lemma_count_bounds(s.drop_last(), c);
    }
}

proof fn lemma_multiplicity_bound(toks: Seq<Seq<char>>, t: Seq<char>)
    ensures
        multiplicity(toks, t) <= toks.len(),
    decreases toks.len(),
{
    if toks.len() > 0 {
        lemma_multiplicity_bound(toks.drop_last(), t);
    }
}


/// How many of the tokens equal `toks[i]`.
fn token_multiplicity(toks: &Vec<Vec<char>>, i: usize) -> (n: usize)
    requires
        i < toks@.len(),
    ensures
        n == multiplicity(char_seqs(toks@), toks@[i as int]@),
{
    let ghost ts = char_seqs(toks@);
    let ghost t = toks@[i as int]@;
    let mut n: usize = 0;
    let mut j: usize = 0;
    while j < toks.len()
        invariant
            j <= toks@.len(),
            i < toks@.len(),
            ts == char_seqs(toks@),
            t == toks@[i as int]@,
            n == multiplicity(ts.subrange(0, j as int), t),
        decreases toks.len() - j,
    {
        assert(ts.subrange(0, j + 1).drop_last() =~= ts.subrange(0, j as int));
        assert(ts.subrange(0, j + 1).last() == toks@[j as int]@);
        proof {
            lemma_multiplicity_bound(ts.subrange(0, j as int), t);
        }
        if chars_equal(toks[j].as_slice(), toks[i].as_slice()) {
            n = n + 1;
        }
        j += 1;
    }
    assert(ts.subrange(0, toks@.len() as int) =~= ts);
    n
}

/// How many of the tokens equal `t`, counted by filtering.
pub open spec fn occurrences(toks: Seq<Seq<char>>, t: Seq<char>) -> nat {
    toks.filter(|x: Seq<char>| x == t).len()
}

proof fn lemma_multiplicity_is_occurrences(toks: Seq<Seq<char>>, t: Seq<char>)
    ensures
        multiplicity(toks, t) == occurrences(toks, t),
    decreases toks.len(),
{
    reveal(Seq::filter);
    if toks.len() > 0 {
        lemma_multiplicity_is_occurrences(toks.drop_last(), t);
    }
}

proof fn lemma_top_multiplicity(toks: Seq<Seq<char>>, m: int)
    requires
        0 <= m <= toks.len(),
    ensures
        forall|j: int| 0 <= j < m ==> top_multiplicity(toks, m) >= multiplicity(toks, #[trigger] toks[j]),
        m > 0 ==> exists|j: int| 0 <= j < m && top_multiplicity(toks, m) == multiplicity(toks, #[trigger] toks[j]),
    decreases m,
{
    if m > 0 {
        lemma_top_multiplicity(toks, m - 1);
        if m == 1 {
            assert(top_multiplicity(toks, 0) == 0);
        }
    }
}

/// The loop count is the largest number of times any one token occurs
/// (once there are at least [`MIN_LOOP_TOKENS`] tokens; else 0): no token
/// occurs more often, and some token occurs exactly that often.
pub proof fn lemma_loop_count_is_top_occurrence(toks: Seq<Seq<char>>)
    ensures
        toks.len() < MIN_LOOP_TOKENS ==> loop_count(toks) == 0,
        toks.len() >= MIN_LOOP_TOKENS ==> (forall|j: int|
            0 <= j < toks.len() ==> loop_count(toks) >= occurrences(toks, #[trigger] toks[j])),
        toks.len() >= MIN_LOOP_TOKENS ==> (exists|j: int|
            0 <= j < toks.len() && loop_count(toks) == occurrences(toks, #[trigger] toks[j])),
{
    if toks.len() >= MIN_LOOP_TOKENS {
        lemma_top_multiplicity(toks, toks.len() as int);
        assert forall|j: int| 0 <= j < toks.len() implies loop_count(toks) >= occurrences(toks, #[trigger] toks[j]) by {
            lemma_multiplicity_is_occurrences(toks, toks[j]);
        }
        let j = choose|j: int| 0 <= j < toks.len() && top_multiplicity(toks, toks.len() as int) == multiplicity(
            toks,
            #[trigger] toks[j],
        );
        lemma_multiplicity_is_occurrences(toks, toks[j]);
    }
}

/// The audit's counts for one row's text: suspect-script characters,
/// replacement characters, whitespace tokens, and the loop count.
pub fn audit_counts(text: &str) -> (c: AuditCounts)
    ensures
        c.non_latin == suspect_count(text@),
        c.fffd == char_count(text@, '\u{FFFD}'),
        c.tokens == split_ws(text@).len(),
        c.loop_count == loop_count(split_ws(text@)),
        c.tokens < MIN_LOOP_TOKENS ==> c.loop_count == 0,
        c.tokens >= MIN_LOOP_TOKENS ==> (forall|j: int|
            0 <= j < split_ws(text@).len() ==> c.loop_count >= occurrences(
                split_ws(text@),
                #[trigger] split_ws(text@)[j],
            )),
        c.tokens >= MIN_LOOP_TOKENS ==> (exists|j: int|
            0 <= j < split_ws(text@).len() && c.loop_count == occurrences(
                split_ws(text@),
                #[trigger] split_ws(text@)[j],
            )),
{
    proof {
        lemma_loop_count_is_top_occurrence(split_ws(text@));
    }
    let cs = chars_of(text);
    let mut non_latin: usize = 0;
    let mut fffd: usize = 0;
    let mut i: usize = 0;
    while i < cs.len()
        invariant
            i <= cs@.len(),
            non_latin == suspect_count(cs@.subrange(0, i as int)),
            fffd == char_count(cs@.subrange(0, i as int), '\u{FFFD}'),
        decreases cs.len() - i,
    {
        let ch = cs[i];
        assert(cs@.subrange(0, i + 1).drop_last() =~= cs@.subrange(0, i as int));
        assert(cs@.subrange(0, i + 1).last() == ch);
        proof {
            lemma_count_bounds(cs@.subrange(0, i as int), '\u{FFFD}');
        }
        if char_script_class(ch) == ScriptClass::Other {
            non_latin = non_latin + 1;
        }
        if ch == '\u{FFFD}' {
            fffd = fffd + 1;
        }
        i += 1;
    }
    assert(cs@.subrange(0, cs@.len() as int) =~= text@);
    let toks = split_whitespace(cs.as_slice());
    let ghost ts = char_seqs(toks@);
    let mut top: usize = 0;
    if toks.len() >= MIN_LOOP_TOKENS {
        let mut k: usize = 0;
        while k < toks.len()
            invariant
                k <= toks@.len(),
                ts == char_seqs(toks@),
                top == top_multiplicity(ts, k as int),
            decreases toks.len() - k,
        {
            let here = token_multiplicity(&toks, k);
            assert(toks@[k as int]@ == ts[k as int]);
            if here > top {
                top = here;
            }
            k += 1;
        }
    }
    AuditCounts { non_latin, fffd, tokens: toks.len(), loop_count: top }
}

/// Whether a row is garbage, from its counts and whether its words-per-second
/// rate reached the absurd rate (a floating-point test made by the caller):
/// a replacement character, [`MIN_NON_LATIN_CHARS`] suspect-script
/// characters, a token loop (at least [`MIN_LOOP_TOKENS`] tokens, the top
/// token at least half of them and at least [`MIN_LOOP_COUNT`] times), or the
/// absurd rate.
pub fn garbage_verdict(c: &AuditCounts, absurd_rate: bool) -> (r: bool)
    ensures
        r == (c.fffd >= 1 || c.non_latin >= MIN_NON_LATIN_CHARS || (c.tokens >= MIN_LOOP_TOKENS
            && 2 * c.loop_count >= c.tokens && c.loop_count >= MIN_LOOP_COUNT) || absurd_rate),
{
    let looping = c.tokens >= MIN_LOOP_TOKENS && (c.loop_count as u128) * 2 >= c.tokens as u128
        && c.loop_count >= MIN_LOOP_COUNT;
    c.fffd >= 1 || c.non_latin >= MIN_NON_LATIN_CHARS || looping || absurd_rate
}

} // verus!
