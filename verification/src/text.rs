//! Character-level text primitives shared by the transcript modules: the
//! Unicode character classes the pipeline tests, whitespace tokenization, and
//! conversion between `str`/`String` and character vectors.
use vstd::prelude::*;
use vstd::std_specs::iter::IteratorSpec;

verus! {

broadcast use vstd::string::group_string_axioms;

// ---------------------------------------------------------------------------
// Character classes
// ---------------------------------------------------------------------------

/// The Unicode `White_Space` property (PropList.txt): the characters that
/// `char::is_whitespace` accepts and `str::split_whitespace` splits on.
pub open spec fn is_white_space(c: char) -> bool {
    let u = c as u32;
    ||| (0x09 <= u && u <= 0x0D)
    ||| u == 0x20
    ||| u == 0x85
    ||| u == 0xA0
    ||| u == 0x1680
    ||| (0x2000 <= u && u <= 0x200A)
    ||| u == 0x2028
    ||| u == 0x2029
    ||| u == 0x202F
    ||| u == 0x205F
    ||| u == 0x3000
}

pub open spec fn is_ascii_digit(c: char) -> bool {
    '0' <= c && c <= '9'
}

pub open spec fn is_ascii_lower(c: char) -> bool {
    'a' <= c && c <= 'z'
}

pub open spec fn is_ascii_upper(c: char) -> bool {
    'A' <= c && c <= 'Z'
}

pub open spec fn is_ascii_char(c: char) -> bool {
    (c as u32) < 0x80
}

/// What `char::is_alphanumeric` (Unicode `Alphabetic` or `Numeric`) returns
/// for a character outside ASCII.
pub uninterp spec fn non_ascii_alphanumeric(c: char) -> bool;

/// What `char::is_alphabetic` (Unicode `Alphabetic`) returns for a character
/// outside ASCII.
pub uninterp spec fn non_ascii_alphabetic(c: char) -> bool;

/// What `char::is_lowercase` (Unicode `Lowercase`) returns for a character
/// outside ASCII.
pub uninterp spec fn non_ascii_lowercase(c: char) -> bool;

/// What `str::to_lowercase` returns for a string.
pub uninterp spec fn str_lowercase(s: Seq<char>) -> Seq<char>;

/// `char::is_alphanumeric`: on ASCII exactly the letters and digits; a
/// `White_Space` character or the ellipsis `…` is neither alphabetic nor
/// numeric; other characters follow the Unicode tables.
pub open spec fn is_alphanumeric(c: char) -> bool {
    if is_ascii_char(c) {
        is_ascii_digit(c) || is_ascii_lower(c) || is_ascii_upper(c)
    } else if is_white_space(c) || c == '…' {
        false
    } else {
        non_ascii_alphanumeric(c)
    }
}

/// `char::is_alphabetic`: on ASCII exactly the letters.
pub open spec fn is_alphabetic(c: char) -> bool {
    if is_ascii_char(c) {
        is_ascii_lower(c) || is_ascii_upper(c)
    } else {
        non_ascii_alphabetic(c)
    }
}

/// `char::is_lowercase`: on ASCII exactly `a`..=`z`.
pub open spec fn is_lowercase(c: char) -> bool {
    if is_ascii_char(c) {
        is_ascii_lower(c)
    } else {
        non_ascii_lowercase(c)
    }
}

/// `char::is_whitespace`: true exactly for the `White_Space` characters.
#[verifier::external_body]
pub fn char_is_whitespace(c: char) -> (r: bool)
    ensures
        r == is_white_space(c),
{
    c.is_whitespace()
}

/// `char::is_alphanumeric`, as `is_alphanumeric` states it.
#[verifier::external_body]
pub fn char_is_alphanumeric(c: char) -> (r: bool)
    ensures
        r == is_alphanumeric(c),
        !is_ascii_char(c) && !is_white_space(c) && c != '…' ==> r == non_ascii_alphanumeric(c),
{
    c.is_alphanumeric()
}

/// `char::is_alphabetic`, as `is_alphabetic` states it.
#[verifier::external_body]
pub fn char_is_alphabetic(c: char) -> (r: bool)
    ensures
        r == is_alphabetic(c),
        !is_ascii_char(c) ==> r == non_ascii_alphabetic(c),
{
    c.is_alphabetic()
}

/// `char::is_lowercase`, as `is_lowercase` states it.
#[verifier::external_body]
pub fn char_is_lowercase(c: char) -> (r: bool)
    ensures
        r == is_lowercase(c),
        !is_ascii_char(c) ==> r == non_ascii_lowercase(c),
{
    c.is_lowercase()
}

/// `str::to_lowercase`; its result is named by `str_lowercase`.
#[verifier::external_body]
pub fn str_to_lowercase(s: &str) -> (r: String)
    ensures
        r@ == str_lowercase(s@),
{
    s.to_lowercase()
}

/// `str == str`: equality of the character sequences.
#[verifier::external_body]
pub fn str_eq(a: &str, b: &str) -> (r: bool)
    ensures
        r == (a@ == b@),
{
    a == b
}

/// `String::push`: appends one character.
#[verifier::external_body]
pub fn string_push(s: &mut String, c: char)
    ensures
        final(s)@ == old(s)@.push(c),
{
    s.push(c)
}

// ---------------------------------------------------------------------------
// Conversions
// ---------------------------------------------------------------------------

/// Decimal digits of `n`, most significant first.
pub open spec fn decimal(n: nat) -> Seq<char>
    decreases n,
{
    if n < 10 {
        seq![digit_char(n)]
    } else {
        decimal(n / 10).push(digit_char(n % 10))
    }
}

pub open spec fn digit_char(d: nat) -> char {
    if d == 0 {
        '0'
    } else if d == 1 {
        '1'
    } else if d == 2 {
        '2'
    } else if d == 3 {
        '3'
    } else if d == 4 {
        '4'
    } else if d == 5 {
        '5'
    } else if d == 6 {
        '6'
    } else if d == 7 {
        '7'
    } else if d == 8 {
        '8'
    } else {
        '9'
    }
}

fn digit(d: u64) -> (c: char)
    requires
        d < 10,
    ensures
        c == digit_char(d as nat),
{
    if d == 0 {
        '0'
    } else if d == 1 {
        '1'
    } else if d == 2 {
        '2'
    } else if d == 3 {
        '3'
    } else if d == 4 {
        '4'
    } else if d == 5 {
        '5'
    } else if d == 6 {
        '6'
    } else if d == 7 {
        '7'
    } else if d == 8 {
        '8'
    } else {
        '9'
    }
}

pub fn push_decimal(s: &mut String, n: u128)
    ensures
        final(s)@ == old(s)@ + decimal(n as nat),
    decreases n,
{
    if n >= 10 {
        push_decimal(s, n / 10);
    }
    string_push(s, digit((n % 10) as u64));
    proof {
        if n >= 10 {
            assert(old(s)@ + decimal(n as nat) =~= (old(s)@ + decimal((n / 10) as nat)).push(
                digit_char((n % 10) as nat),
            ));
        } else {
            assert(old(s)@ + decimal(n as nat) =~= old(s)@.push(digit_char(n as nat)));
        }
    }
}


/// The characters of a string slice, in order.
pub fn chars_of(s: &str) -> (v: Vec<char>)
    ensures
        v@ == s@,
{
    let mut it = s.chars();
    let mut v: Vec<char> = Vec::new();
    loop
        invariant
            it.obeys_prophetic_iter_laws(),
            s@ == v@ + it.remaining(),
            it.decrease() is Some,
        decreases it.decrease()->0,
    {
        let ghost before = it.remaining();
        match it.next() {
            Some(c) => {
                assert(before.len() > 0);
                v.push(c);
                assert(s@ == v@ + it.remaining()) by {
                    assert(before =~= seq![c] + it.remaining());
                }
            },
            None => {
                assert(it.remaining().len() == 0) by {
                    if before.len() > 0 {
                        assert(false);
                    }
                }
                assert(s@ =~= v@);
                return v;
            },
        }
    }
}

/// Whether two character slices hold the same characters.
pub fn chars_equal(a: &[char], b: &[char]) -> (r: bool)
    ensures
        r == (a@ == b@),
{
    if a.len() != b.len() {
        return false;
    }
    let mut i: usize = 0;
    while i < a.len()
        invariant
            i <= a.len(),
            a.len() == b.len(),
            forall|k: int| 0 <= k < i ==> a@[k] == b@[k],
        decreases a.len() - i,
    {
        if a[i] != b[i] {
            return false;
        }
        i += 1;
    }
    assert(a@ =~= b@);
    true
}

/// Appends every character of `t` to `out`.
pub fn push_all(out: &mut Vec<char>, t: &[char])
    ensures
        final(out)@ == old(out)@ + t@,
{
    let mut i: usize = 0;
    while i < t.len()
        invariant
            i <= t.len(),
            out@ == old(out)@ + t@.subrange(0, i as int),
        decreases t.len() - i,
    {
        out.push(t[i]);
        i += 1;
        assert(out@ =~= old(out)@ + t@.subrange(0, i as int));
    }
    assert(t@.subrange(0, t.len() as int) =~= t@);
}

/// A `String` holding exactly the given characters.
pub fn string_from_chars(cs: &[char]) -> (s: String)
    ensures
        s@ == cs@,
{
    let mut s = String::new();
    let mut i: usize = 0;
    while i < cs.len()
        invariant
            i <= cs.len(),
            s@ == cs@.subrange(0, i as int),
        decreases cs.len() - i,
    {
        string_push(&mut s, cs[i]);
        i += 1;
        assert(s@ =~= cs@.subrange(0, i as int));
    }
    assert(cs@.subrange(0, cs.len() as int) =~= cs@);
    s
}

/// Whether any character is alphanumeric.
pub open spec fn has_alphanumeric(s: Seq<char>) -> bool {
    exists|i: int| 0 <= i < s.len() && is_alphanumeric(#[trigger] s[i])
}

pub fn any_alphanumeric(s: &[char]) -> (r: bool)
    ensures
        r == has_alphanumeric(s@),
{
    let mut i: usize = 0;
    while i < s.len()
        invariant
            i <= s.len(),
            forall|j: int| 0 <= j < i ==> !is_alphanumeric(#[trigger] s@[j]),
        decreases s.len() - i,
    {
        if char_is_alphanumeric(s[i]) {
            return true;
        }
        i += 1;
    }
    false
}

// ---------------------------------------------------------------------------
// Whitespace tokenization (`str::split_whitespace`)
// ---------------------------------------------------------------------------

/// Tokenizer state after reading `s` left to right: the completed tokens and
/// the token still open (empty when the last character read was whitespace).
pub open spec fn ws_state(s: Seq<char>) -> (Seq<Seq<char>>, Seq<char>)
    decreases s.len(),
{
    if s.len() == 0 {
        (Seq::empty(), Seq::empty())
    } else {
        let (done, cur) = ws_state(s.drop_last());
        let c = s.last();
        if is_white_space(c) {
            if cur.len() > 0 {
                (done.push(cur), Seq::empty())
            } else {
                (done, Seq::empty())
            }
        } else {
            (done, cur.push(c))
        }
    }
}

/// The maximal runs of non-whitespace characters of `s`, in order.
pub open spec fn split_ws(s: Seq<char>) -> Seq<Seq<char>> {
    let (done, cur) = ws_state(s);
    if cur.len() > 0 {
        done.push(cur)
    } else {
        done
    }
}

pub open spec fn no_white_space(t: Seq<char>) -> bool {
    forall|i: int| 0 <= i < t.len() ==> !is_white_space(#[trigger] t[i])
}

/// The alphanumeric characters of `s`, in order.
pub open spec fn alnum_chars(s: Seq<char>) -> Seq<char>
    decreases s.len(),
{
    if s.len() == 0 {
        Seq::empty()
    } else {
        alnum_chars(s.drop_last()) + if is_alphanumeric(s.last()) {
            seq![s.last()]
        } else {
            Seq::empty()
        }
    }
}

/// The alphanumeric characters of a token sequence, token after token.
pub open spec fn tokens_alnum(toks: Seq<Seq<char>>) -> Seq<char>
    decreases toks.len(),
{
    if toks.len() == 0 {
        Seq::empty()
    } else {
        tokens_alnum(toks.drop_last()) + alnum_chars(toks.last())
    }
}

pub proof fn lemma_alnum_concat(x: Seq<char>, y: Seq<char>)
    ensures
        alnum_chars(x + y) == alnum_chars(x) + alnum_chars(y),
    decreases y.len(),
{
    if y.len() == 0 {
        assert(x + y =~= x);
        assert(alnum_chars(x) + alnum_chars(y) =~= alnum_chars(x));
    } else {
        lemma_alnum_concat(x, y.drop_last());
        assert((x + y).drop_last() =~= x + y.drop_last());
        assert((x + y).last() == y.last());
        assert(alnum_chars(x + y) =~= alnum_chars(x) + alnum_chars(y));
    }
}

proof fn lemma_ws_state_alnum(s: Seq<char>)
    ensures
        alnum_chars(s) == tokens_alnum(ws_state(s).0) + alnum_chars(ws_state(s).1),
    decreases s.len(),
{
    if s.len() > 0 {
        lemma_ws_state_alnum(s.drop_last());
        let (done, cur) = ws_state(s.drop_last());
        let c = s.last();
        if is_white_space(c) {
            assert(!is_alphanumeric(c));
            assert(alnum_chars(Seq::<char>::empty()) =~= Seq::<char>::empty());
            if cur.len() > 0 {
                assert(done.push(cur).drop_last() =~= done);
                assert(tokens_alnum(done.push(cur)) + alnum_chars(Seq::<char>::empty())
                    =~= tokens_alnum(done) + alnum_chars(cur));
            }
            assert(alnum_chars(s) =~= alnum_chars(s.drop_last()));
        } else {
            assert(cur.push(c).drop_last() =~= cur);
            assert(alnum_chars(s) =~= tokens_alnum(done) + alnum_chars(cur.push(c)));
        }
    } else {
        assert(alnum_chars(s) =~= tokens_alnum(ws_state(s).0) + alnum_chars(ws_state(s).1));
    }
}

/// Splitting at whitespace keeps every alphanumeric character, in order.
pub proof fn lemma_split_ws_alnum(s: Seq<char>)
    ensures
        tokens_alnum(split_ws(s)) == alnum_chars(s),
{
    lemma_ws_state_alnum(s);
    let (done, cur) = ws_state(s);
    if cur.len() > 0 {
        assert(done.push(cur).drop_last() =~= done);
    } else {
        assert(alnum_chars(cur) =~= Seq::<char>::empty());
        assert(tokens_alnum(done) + alnum_chars(cur) =~= tokens_alnum(done));
    }
}

/// Every token of the tokenizer state is non-empty and whitespace-free.
pub proof fn lemma_ws_state_tokens(s: Seq<char>)
    ensures
        forall|k: int|
            0 <= k < ws_state(s).0.len() ==> (#[trigger] ws_state(s).0[k]).len() > 0
                && no_white_space(ws_state(s).0[k]),
        no_white_space(ws_state(s).1),
    decreases s.len(),
{
    if s.len() > 0 {
        lemma_ws_state_tokens(s.drop_last());
        let (done, cur) = ws_state(s.drop_last());
        let c = s.last();
        if !is_white_space(c) {
            assert forall|i: int| 0 <= i < cur.push(c).len() implies !is_white_space(
                #[trigger] cur.push(c)[i],
            ) by {
                if i < cur.len() {
                    assert(cur.push(c)[i] == cur[i]);
                }
            }
        }
    }
}

/// Words joined by single spaces.
pub open spec fn join_words_ws(ws: Seq<Seq<char>>) -> Seq<char>
    decreases ws.len(),
{
    if ws.len() == 0 {
        Seq::empty()
    } else if ws.len() == 1 {
        ws[0]
    } else {
        join_words_ws(ws.drop_last()).push(' ') + ws.last()
    }
}

/// Non-empty words without whitespace.
pub open spec fn plain_words(ws: Seq<Seq<char>>) -> bool {
    forall|k: int| 0 <= k < ws.len() ==> (#[trigger] ws[k]).len() > 0 && no_white_space(ws[k])
}

proof fn lemma_ws_state_append_word(s: Seq<char>, t: Seq<char>)
    requires
        no_white_space(t),
    ensures
        ws_state(s + t) == (ws_state(s).0, ws_state(s).1 + t),
    decreases t.len(),
{
    if t.len() == 0 {
        assert(s + t =~= s);
        assert(ws_state(s).1 + t =~= ws_state(s).1);
    } else {
        let t0 = t.drop_last();
        assert forall|i: int| 0 <= i < t0.len() implies !is_white_space(#[trigger] t0[i]) by {
            assert(t0[i] == t[i]);
        }
        lemma_ws_state_append_word(s, t0);
        assert((s + t).drop_last() =~= s + t0);
        assert((s + t).last() == t.last());
        assert(!is_white_space(t[t.len() - 1]));
        assert((ws_state(s).1 + t0).push(t.last()) =~= ws_state(s).1 + t);
    }
}

/// Splitting words joined by single spaces gives the words back.
pub proof fn lemma_split_joined(ws: Seq<Seq<char>>)
    requires
        plain_words(ws),
    ensures
        split_ws(join_words_ws(ws)) == ws,
        ws.len() > 0 ==> ws_state(join_words_ws(ws)) == (ws.drop_last(), ws.last()),
    decreases ws.len(),
{
    if ws.len() == 0 {
        assert(ws_state(Seq::<char>::empty()).0 =~= Seq::<Seq<char>>::empty());
        assert(split_ws(join_words_ws(ws)) =~= ws);
    } else if ws.len() == 1 {
        lemma_ws_state_append_word(Seq::empty(), ws[0]);
        assert(Seq::<char>::empty() + ws[0] =~= ws[0]);
        assert(Seq::<char>::empty() + ws[0] =~= ws[0]);
        assert(ws.drop_last() =~= Seq::<Seq<char>>::empty());
        assert(split_ws(join_words_ws(ws)) =~= ws);
    } else {
        let p = ws.drop_last();
        assert(plain_words(p)) by {
            assert forall|k: int| 0 <= k < p.len() implies (#[trigger] p[k]).len() > 0 && no_white_space(
                p[k],
            ) by {
                assert(p[k] == ws[k]);
            }
        }
        lemma_split_joined(p);
        let j = join_words_ws(p);
        assert(j.push(' ').drop_last() =~= j);
        assert(ws_state(j.push(' ')) == (p.drop_last().push(p.last()), Seq::<char>::empty()));
        assert(p.drop_last().push(p.last()) =~= p);
        assert(ws[ws.len() - 1].len() > 0);
        lemma_ws_state_append_word(j.push(' '), ws.last());
        assert(Seq::<char>::empty() + ws.last() =~= ws.last());
        assert(split_ws(join_words_ws(ws)) =~= p.push(ws.last()));
        assert(p.push(ws.last()) =~= ws);
    }
}

/// The tokens of `split_ws` are non-empty and hold no whitespace.
pub proof fn lemma_split_ws_tokens(s: Seq<char>)
    ensures
        forall|k: int|
            0 <= k < split_ws(s).len() ==> (#[trigger] split_ws(s)[k]).len() > 0
                && no_white_space(split_ws(s)[k]),
{
    lemma_ws_state_tokens(s);
}

/// The character sequences held by a vector of character vectors.
pub open spec fn char_seqs(v: Seq<Vec<char>>) -> Seq<Seq<char>> {
    v.map_values(|t: Vec<char>| t@)
}

pub proof fn lemma_char_seqs_push(v: Seq<Vec<char>>, t: Vec<char>)
    ensures
        char_seqs(v.push(t)) == char_seqs(v).push(t@),
{
    assert(char_seqs(v.push(t)) =~= char_seqs(v).push(t@));
}

/// `str::split_whitespace` over a character vector.
pub fn split_whitespace(s: &[char]) -> (r: Vec<Vec<char>>)
    ensures
        char_seqs(r@) == split_ws(s@),
{
    let mut done: Vec<Vec<char>> = Vec::new();
    let mut cur: Vec<char> = Vec::new();
    let mut i: usize = 0;
    while i < s.len()
        invariant
            i <= s.len(),
            (char_seqs(done@), cur@) == ws_state(s@.subrange(0, i as int)),
        decreases s.len() - i,
    {
        let c = s[i];
        assert(s@.subrange(0, i + 1).drop_last() =~= s@.subrange(0, i as int));
        assert(s@.subrange(0, i + 1).last() == c);
        if char_is_whitespace(c) {
            if cur.len() > 0 {
                let tok = cur;
                proof {
                    lemma_char_seqs_push(done@, tok);
                }
                done.push(tok);
                cur = Vec::new();
            }
        } else {
            cur.push(c);
        }
        i += 1;
        assert(cur@ =~= ws_state(s@.subrange(0, i as int)).1);
    }
    assert(s@.subrange(0, s.len() as int) =~= s@);
    if cur.len() > 0 {
        proof {
            lemma_char_seqs_push(done@, cur);
        }
        done.push(cur);
    }
    done
}

// ---------------------------------------------------------------------------
// Trimming and UTF-8 length
// ---------------------------------------------------------------------------

/// `s` without its leading `White_Space` characters.
pub open spec fn trim_start(s: Seq<char>) -> Seq<char>
    decreases s.len(),
{
    if s.len() > 0 && is_white_space(s[0]) {
        trim_start(s.drop_first())
    } else {
        s
    }
}

/// `s` without its trailing `White_Space` characters.
pub open spec fn trim_end(s: Seq<char>) -> Seq<char>
    decreases s.len(),
{
    if s.len() > 0 && is_white_space(s.last()) {
        trim_end(s.drop_last())
    } else {
        s
    }
}

/// `str::trim`: leading and trailing `White_Space` removed.
pub open spec fn trimmed(s: Seq<char>) -> Seq<char> {
    trim_end(trim_start(s))
}

/// The characters of `s` with leading and trailing whitespace removed, and
/// where they lie in `s`.
pub fn trim_chars(s: &[char]) -> (t: Vec<char>)
    ensures
        t@ == trimmed(s@),
        exists|a: int, b: int| 0 <= a <= b <= s@.len() && t@ == s@.subrange(a, b),
{
    let n = s.len();
    let mut a: usize = 0;
    assert(s@.subrange(0, n as int) =~= s@);
    while a < n && char_is_whitespace(s[a])
        invariant
            a <= n,
            n == s@.len(),
            trim_start(s@) == trim_start(s@.subrange(a as int, n as int)),
        decreases n - a,
    {
        assert(s@.subrange(a + 1, n as int) =~= s@.subrange(a as int, n as int).drop_first());
        a += 1;
    }
    assert(trim_start(s@) == s@.subrange(a as int, n as int));
    let mut b: usize = n;
    assert(s@.subrange(a as int, b as int) =~= s@.subrange(a as int, n as int));
    while b > a && char_is_whitespace(s[b - 1])
        invariant
            a <= b <= n,
            n == s@.len(),
            trim_end(s@.subrange(a as int, n as int)) == trim_end(s@.subrange(a as int, b as int)),
        decreases b - a,
    {
        assert(s@.subrange(a as int, b - 1) =~= s@.subrange(a as int, b as int).drop_last());
        b -= 1;
    }
    assert(trim_end(s@.subrange(a as int, n as int)) == s@.subrange(a as int, b as int));
    let mut t: Vec<char> = Vec::new();
    let mut k: usize = a;
    while k < b
        invariant
            a <= k <= b,
            b <= n,
            n == s@.len(),
            t@ == s@.subrange(a as int, k as int),
        decreases b - k,
    {
        t.push(s[k]);
        k += 1;
        assert(t@ =~= s@.subrange(a as int, k as int));
    }
    t
}

/// Bytes in the UTF-8 encoding of `c`.
pub open spec fn utf8_width(c: char) -> int {
    let u = c as u32;
    if u < 0x80 {
        1
    } else if u < 0x800 {
        2
    } else if u < 0x10000 {
        3
    } else {
        4
    }
}

/// Bytes in the UTF-8 encoding of `s` (what `str::len` returns).
pub open spec fn utf8_len(s: Seq<char>) -> int
    decreases s.len(),
{
    if s.len() == 0 {
        0
    } else {
        utf8_len(s.drop_last()) + utf8_width(s.last())
    }
}

/// `str::len` of the string holding these characters: its UTF-8 length
/// (counted in `u128`, where four bytes per character always fit).
pub fn utf8_len_of(s: &[char]) -> (n: u128)
    ensures
        n == utf8_len(s@),
{
    let mut n: u128 = 0;
    let mut i: usize = 0;
    while i < s.len()
        invariant
            i <= s@.len(),
            n == utf8_len(s@.subrange(0, i as int)),
            n <= 4 * i,
        decreases s.len() - i,
    {
        let c = s[i];
        assert(s@.subrange(0, i + 1).drop_last() =~= s@.subrange(0, i as int));
        let w: u128 = if (c as u32) < 0x80 {
            1
        } else if (c as u32) < 0x800 {
            2
        } else if (c as u32) < 0x10000 {
            3
        } else {
            4
        };
        n = n + w;
        i += 1;
    }
    assert(s@.subrange(0, s@.len() as int) =~= s@);
    n
}

} // verus!
