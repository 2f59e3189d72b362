//! Character-level building blocks of the shell syntax: whitespace, the reserved
//! operator characters, and the pieces of `str` behaviour the parser relies on
//! (`trim_start`-like skipping, `find`, `split_whitespace`, `lines`).
use vstd::prelude::*;

verus! {

/// `String::push` appends one character.
pub assume_specification[ String::push ](s: &mut String, ch: char)
    ensures
        final(s)@ == old(s)@.push(ch),
;

/// Unicode `White_Space`, the property that `char::is_whitespace` reports.
pub open spec fn is_ws(c: char) -> bool {
    ||| ('\u{9}' <= c && c <= '\u{d}')
    ||| c == ' '
    ||| c == '\u{85}'
    ||| c == '\u{a0}'
    ||| c == '\u{1680}'
    ||| ('\u{2000}' <= c && c <= '\u{200a}')
    ||| c == '\u{2028}'
    ||| c == '\u{2029}'
    ||| c == '\u{202f}'
    ||| c == '\u{205f}'
    ||| c == '\u{3000}'
}

/// One of the characters the shell reserves for its operators: `; & | < > ( )`
/// (`RESERVED_CHARS`).
pub open spec fn is_reserved(c: char) -> bool {
    c == ';' || c == '&' || c == '|' || c == '<' || c == '>' || c == '(' || c == ')'
}

/// Whether `c` is a Unicode whitespace character.
pub fn is_whitespace(c: char) -> (r: bool)
    ensures
        r == is_ws(c),
{
    ('\u{9}' <= c && c <= '\u{d}') || c == ' ' || c == '\u{85}' || c == '\u{a0}' || c == '\u{1680}'
        || ('\u{2000}' <= c && c <= '\u{200a}') || c == '\u{2028}' || c == '\u{2029}' || c
        == '\u{202f}' || c == '\u{205f}' || c == '\u{3000}'
}

/// Whether `c` is one of the reserved operator characters.
pub fn is_reserved_char(c: char) -> (r: bool)
    ensures
        r == is_reserved(c),
{
    c == ';' || c == '&' || c == '|' || c == '<' || c == '>' || c == '(' || c == ')'
}

/// Number of leading whitespace characters of `s`.
pub open spec fn ws_len(s: Seq<char>) -> nat
    decreases s.len(),
{
    if s.len() > 0 && is_ws(s[0]) {
        1 + ws_len(s.drop_first())
    } else {
        0
    }
}

/// `s` with its leading whitespace removed.
pub open spec fn skip_ws(s: Seq<char>) -> Seq<char> {
    s.skip(ws_len(s) as int)
}

/// Number of leading characters of `s` that are not reserved: where
/// `find` of the first reserved character stops.
pub open spec fn plain_len(s: Seq<char>) -> nat
    decreases s.len(),
{
    if s.len() > 0 && !is_reserved(s[0]) {
        1 + plain_len(s.drop_first())
    } else {
        0
    }
}

/// Number of leading characters of `s` that are neither reserved nor whitespace.
pub open spec fn word_len(s: Seq<char>) -> nat
    decreases s.len(),
{
    if s.len() > 0 && !is_reserved(s[0]) && !is_ws(s[0]) {
        1 + word_len(s.drop_first())
    } else {
        0
    }
}

/// The words of `s` still to come after the partial word `cur`, split at
/// whitespace as `split_whitespace` does.
pub open spec fn words_acc(s: Seq<char>, cur: Seq<char>) -> Seq<Seq<char>>
    decreases s.len(),
{
    let done: Seq<Seq<char>> = if cur.len() > 0 {
        seq![cur]
    } else {
        seq![]
    };
    if s.len() == 0 {
        done
    } else if is_ws(s[0]) {
        done + words_acc(s.drop_first(), seq![])
    } else {
        words_acc(s.drop_first(), cur.push(s[0]))
    }
}

/// `s.split_whitespace()`: the maximal runs of non-whitespace characters.
pub open spec fn words(s: Seq<char>) -> Seq<Seq<char>> {
    words_acc(s, seq![])
}

/// Number of bytes of the UTF-8 encoding of `c`.
pub open spec fn utf8_len(c: char) -> nat {
    if '\u{80}' > c {
        1
    } else if '\u{800}' > c {
        2
    } else if '\u{10000}' > c {
        3
    } else {
        4
    }
}

/// Slicing the first two bytes of `s` (`&s[..2]`) panics: the string holds at
/// least two bytes and byte 2 falls inside a character.
pub open spec fn look2_panics(s: Seq<char>) -> bool {
    &&& s.len() > 0
    &&& (utf8_len(s[0]) >= 3 || (utf8_len(s[0]) == 1 && s.len() >= 2 && utf8_len(s[1]) >= 2))
}

/// `s` begins with the two characters `c c`.
pub open spec fn is_pair(s: Seq<char>, c: char) -> bool {
    s.len() >= 2 && s[0] == c && s[1] == c
}

/// `s.lines().collect::<String>()`: the lines of `s` joined without their line
/// endings (`\n`, or `\r\n`).
pub open spec fn join_lines(s: Seq<char>) -> Seq<char>
    decreases s.len(),
{
    if s.len() == 0 {
        seq![]
    } else if s[0] == '\n' {
        join_lines(s.drop_first())
    } else if s[0] == '\r' && s.len() >= 2 && s[1] == '\n' {
        join_lines(s.skip(2))
    } else {
        seq![s[0]] + join_lines(s.drop_first())
    }
}

pub proof fn lemma_ws_len(s: Seq<char>)
    ensures
        ws_len(s) <= s.len(),
        skip_ws(s).len() == s.len() - ws_len(s),
        skip_ws(s).len() <= s.len(),
        forall|k: int| 0 <= k < ws_len(s) ==> is_ws(#[trigger] s[k]),
        ws_len(s) < s.len() ==> !is_ws(s[ws_len(s) as int]),
    decreases s.len(),
{
    if s.len() > 0 && is_ws(s[0]) {
        lemma_ws_len(s.drop_first());
        assert forall|k: int| 0 <= k < ws_len(s) implies is_ws(#[trigger] s[k]) by {
            if k > 0 {
                assert(s[k] == s.drop_first()[k - 1]);
            }
        }
        if ws_len(s) < s.len() {
            assert(s[ws_len(s) as int] == s.drop_first()[ws_len(s.drop_first()) as int]);
        }
    }
}

pub proof fn lemma_plain_len(s: Seq<char>)
    ensures
        plain_len(s) <= s.len(),
        forall|k: int| 0 <= k < plain_len(s) ==> !is_reserved(#[trigger] s[k]),
        plain_len(s) < s.len() ==> is_reserved(s[plain_len(s) as int]),
    decreases s.len(),
{
    if s.len() > 0 && !is_reserved(s[0]) {
        lemma_plain_len(s.drop_first());
        assert forall|k: int| 0 <= k < plain_len(s) implies !is_reserved(#[trigger] s[k]) by {
            if k > 0 {
                assert(s[k] == s.drop_first()[k - 1]);
            }
        }
        if plain_len(s) < s.len() {
            assert(s[plain_len(s) as int] == s.drop_first()[plain_len(s.drop_first()) as int]);
        }
    }
}

pub proof fn lemma_word_len(s: Seq<char>)
    ensures
        word_len(s) <= s.len(),
        forall|k: int|
            0 <= k < word_len(s) ==> !is_reserved(#[trigger] s[k]) && !is_ws(s[k]),
        word_len(s) < s.len() ==> is_reserved(s[word_len(s) as int]) || is_ws(
            s[word_len(s) as int],
        ),
    decreases s.len(),
{
    if s.len() > 0 && !is_reserved(s[0]) && !is_ws(s[0]) {
        lemma_word_len(s.drop_first());
        assert forall|k: int| 0 <= k < word_len(s) implies !is_reserved(#[trigger] s[k]) && !is_ws(
            s[k],
        ) by {
            if k > 0 {
                assert(s[k] == s.drop_first()[k - 1]);
            }
        }
        if word_len(s) < s.len() {
            assert(s[word_len(s) as int] == s.drop_first()[word_len(s.drop_first()) as int]);
        }
    }
}

/// The characters of `s`, in order.
pub fn chars_of(s: &str) -> (v: Vec<char>)
    ensures
        v@ == s@,
{
    broadcast use vstd::string::group_string_axioms;

    let mut v: Vec<char> = Vec::new();
    for c in it: s.chars()
        invariant
            v@ == it.seq().take(it.index() as int),
    {
        v.push(c);
    }
    assert(v@ =~= s@);
    v
}

/// First index at or after `i` that does not hold whitespace.
pub fn skip_ws_at(v: &Vec<char>, i: usize) -> (j: usize)
    requires
        i <= v.len(),
    ensures
        i <= j <= v.len(),
        v@.skip(j as int) == skip_ws(v@.skip(i as int)),
{
    let mut j = i;
    proof {
        lemma_ws_len(v@.skip(i as int));
    }
    while j < v.len() && is_whitespace(v[j])
        invariant
            i <= j <= v.len(),
            ws_len(v@.skip(i as int)) == (j - i) + ws_len(v@.skip(j as int)),
        decreases v.len() - j,
    {
        assert(v@.skip(j as int).drop_first() =~= v@.skip(j + 1));
        j = j + 1;
    }
    proof {
        lemma_ws_len(v@.skip(i as int));
        assert(ws_len(v@.skip(j as int)) == 0);
        assert(v@.skip(i as int).skip((j - i) as int) =~= v@.skip(j as int));
    }
    j
}

/// First index at or after `i` that holds a reserved character, or the end.
pub fn plain_end(v: &Vec<char>, i: usize) -> (j: usize)
    requires
        i <= v.len(),
    ensures
        i <= j <= v.len(),
        j - i == plain_len(v@.skip(i as int)),
{
    let mut j = i;
    while j < v.len() && !is_reserved_char(v[j])
        invariant
            i <= j <= v.len(),
            plain_len(v@.skip(i as int)) == (j - i) + plain_len(v@.skip(j as int)),
        decreases v.len() - j,
    {
        assert(v@.skip(j as int).drop_first() =~= v@.skip(j + 1));
        j = j + 1;
    }
    j
}

/// First index at or after `i` that holds a reserved or whitespace character,
/// or the end.
pub fn word_end(v: &Vec<char>, i: usize) -> (j: usize)
    requires
        i <= v.len(),
    ensures
        i <= j <= v.len(),
        j - i == word_len(v@.skip(i as int)),
{
    let mut j = i;
    while j < v.len() && !is_reserved_char(v[j]) && !is_whitespace(v[j])
        invariant
            i <= j <= v.len(),
            word_len(v@.skip(i as int)) == (j - i) + word_len(v@.skip(j as int)),
        decreases v.len() - j,
    {
        assert(v@.skip(j as int).drop_first() =~= v@.skip(j + 1));
        j = j + 1;
    }
    j
}

/// The characters `v[a..b]` as a `String`.
pub fn string_of(v: &Vec<char>, a: usize, b: usize) -> (s: String)
    requires
        a <= b <= v.len(),
    ensures
        s@ == v@.subrange(a as int, b as int),
{
    let mut s = String::new();
    let mut k = a;
    while k < b
        invariant
            a <= k <= b <= v.len(),
            s@ == v@.subrange(a as int, k as int),
        decreases b - k,
    {
        s.push(v[k]);
        assert(v@.subrange(a as int, k + 1) =~= v@.subrange(a as int, k as int).push(v@[k as int]));
        k = k + 1;
    }
    s
}

/// `split_whitespace` of `v[a..b]`, each word as a `String`.
pub fn split_words(v: &Vec<char>, a: usize, b: usize) -> (r: Vec<String>)
    requires
        a <= b <= v.len(),
    ensures
        r.deep_view() == words(v@.subrange(a as int, b as int)),
{
    let mut r: Vec<String> = Vec::new();
    let mut cur = String::new();
    let mut k = a;
    while k < b
        invariant
            a <= k <= b <= v.len(),
            words(v@.subrange(a as int, b as int)) == r.deep_view() + words_acc(
                v@.subrange(k as int, b as int),
                cur@,
            ),
        decreases b - k,
    {
        let ghost rest = v@.subrange(k as int, b as int);
        assert(rest.drop_first() =~= v@.subrange(k + 1, b as int));
        assert(rest[0] == v@[k as int]);
        if is_whitespace(v[k]) {
            if !cur.as_str().is_empty() {
                proof {
                    assert(cur@.len() > 0);
                }
                let ghost old_r = r.deep_view();
                r.push(cur);
                assert(r.deep_view() =~= old_r + seq![cur@]);
            } else {
                proof {
                    assert(cur@.len() == 0);
                }
            }
            cur = String::new();
        } else {
            cur.push(v[k]);
        }
        k = k + 1;
    }
    proof {
        assert(v@.subrange(k as int, b as int) =~= Seq::<char>::empty());
    }
    if !cur.as_str().is_empty() {
        let ghost old_r = r.deep_view();
        r.push(cur);
        assert(r.deep_view() =~= old_r + seq![cur@]);
    }
    r
}

/// Slicing `&s[..2]` of the characters from `i` on would panic.
pub fn look2_panics_at(v: &Vec<char>, i: usize) -> (r: bool)
    requires
        i <= v.len(),
    ensures
        r == look2_panics(v@.skip(i as int)),
{
    if i >= v.len() {
        return false;
    }
    let c0 = v[i];
    if c0 >= '\u{800}' {
        true
    } else if c0 < '\u{80}' && i + 1 < v.len() && v[i + 1] >= '\u{80}' {
        true
    } else {
        false
    }
}

/// The characters from `i` on begin with `c c`.
pub fn pair_at(v: &Vec<char>, i: usize, c: char) -> (r: bool)
    requires
        i <= v.len(),
    ensures
        r == is_pair(v@.skip(i as int), c),
{
    i < v.len() && v.len() - i >= 2 && v[i] == c && v[i + 1] == c
}

/// The characters of `s.lines().collect::<String>()`.
pub fn joined_lines(s: &str) -> (v: Vec<char>)
    ensures
        v@ == join_lines(s@),
{
    let c = chars_of(s);
    let mut v: Vec<char> = Vec::new();
    let mut k: usize = 0;
    assert(c@.skip(0) =~= c@);
    assert(v@ + join_lines(c@) =~= join_lines(c@));
    while k < c.len()
        invariant
            k <= c.len(),
            join_lines(s@) == v@ + join_lines(c@.skip(k as int)),
            c@ == s@,
        decreases c.len() - k,
    {
        let ghost rest = c@.skip(k as int);
        if c[k] == '\n' {
            assert(rest.drop_first() =~= c@.skip(k + 1));
            k = k + 1;
        } else if c[k] == '\r' && k + 1 < c.len() && c[k + 1] == '\n' {
            assert(rest.skip(2) =~= c@.skip(k + 2));
            k = k + 2;
        } else {
            assert(rest.drop_first() =~= c@.skip(k + 1));
            let ghost old_v = v@;
            v.push(c[k]);
            assert(v@ + join_lines(c@.skip(k + 1)) =~= old_v + (seq![rest[0]] + join_lines(
                rest.drop_first(),
            )));
            k = k + 1;
        }
    }
    assert(c@.skip(k as int) =~= Seq::<char>::empty());
    assert(v@ + Seq::<char>::empty() =~= v@);
    v
}

} // verus!
