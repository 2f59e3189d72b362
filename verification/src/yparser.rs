//! The parser of command lines.
//!
//! Grammar, as the parser reads it:
//!
//! ```text
//! a := b ; t   b && t   b | t   b || t   b x
//! x := > STR ; t   > STR && t   > STR | t   > STR || t   > STR x   (or < STR ...)
//! t := a x
//! b := ( a ) | COMMAND
//! ```
//!
//! The spec functions `parse_a`, `parse_b`, `parse_t`, `parse_x` say what each
//! part of the parser gives back for the text still to read, including the texts
//! on which it would panic; the executable functions `p_a`, `p_b`, `p_t`, `p_x`
//! read a character vector from a position and are proved to agree with them.
use crate::text::{
    is_pair, join_lines, joined_lines, lemma_word_len, lemma_ws_len, look2_panics,
    look2_panics_at, pair_at, plain_end, plain_len, skip_ws, skip_ws_at, split_words, string_of,
    word_end, word_len, words,
};
use crate::ysh::{debug_list, valid_command, y_com, Ysh, YshV};
use vstd::prelude::*;

verus! {

/// What a part of the parser gives back: a tree with the text left over, an
/// error message, or a panic.
pub enum ParseV {
    Parsed(YshV, Seq<char>),
    Failed(Seq<char>),
    Panic,
}

/// What parsing a whole command line gives back.
pub enum LineV {
    Accepted(YshV),
    Rejected(Seq<char>),
    Panic,
}

/// The four binary operators.
pub enum BinOp {
    Sequence,
    And,
    Or,
    Pipe,
}

/// `l op r`
pub open spec fn bin(op: BinOp, l: YshV, r: YshV) -> YshV {
    match op {
        BinOp::Sequence => YshV::Sequence(Box::new(l), Box::new(r)),
        BinOp::And => YshV::And(Box::new(l), Box::new(r)),
        BinOp::Or => YshV::Or(Box::new(l), Box::new(r)),
        BinOp::Pipe => YshV::Pipe(Box::new(l), Box::new(r)),
    }
}

/// `l op` followed by what parsing the right operand gave back.
pub open spec fn combine(op: BinOp, l: YshV, p: ParseV) -> ParseV {
    match p {
        ParseV::Parsed(r, rest) => ParseV::Parsed(bin(op, l, r), rest),
        ParseV::Failed(e) => ParseV::Failed(e),
        ParseV::Panic => ParseV::Panic,
    }
}

/// `take_string`: after leading whitespace, the longest run of characters that
/// are neither whitespace nor reserved, and the text after it.  The run must not
/// be empty (the grammar asks for a `STR` after `>` and `<`): an error when the
/// text is used up or begins with a reserved character.
pub open spec fn take_string_spec(s: Seq<char>) -> Result<(Seq<char>, Seq<char>), Seq<char>> {
    let s0 = skip_ws(s);
    let k = word_len(s0);
    if k == 0 {
        Err("can't take string from "@ + s0)
    } else if k < s0.len() {
        Ok((s0.take(k as int), s0.skip(k as int)))
    } else {
        Ok((s0, seq![]))
    }
}

/// A command made of the words `ws` (name first, then arguments), with `rest`
/// left over; a panic when there is no word.
pub open spec fn command_of(ws: Seq<Seq<char>>, rest: Seq<char>) -> ParseV {
    if ws.len() == 0 {
        ParseV::Panic
    } else if valid_command(ws[0]) {
        ParseV::Parsed(YshV::Command(ws[0], ws.drop_first()), rest)
    } else {
        ParseV::Failed(
            ws[0] + "(args:"@ + debug_list(ws.drop_first()) + ") is not a valid command"@,
        )
    }
}

/// `take_com`: after leading whitespace, the words up to the first reserved
/// character form a command.
pub open spec fn take_com_spec(s: Seq<char>) -> ParseV {
    let s0 = skip_ws(s);
    let k = plain_len(s0);
    if k < s0.len() {
        if k == 0 {
            ParseV::Failed("can't take command from "@ + s0)
        } else {
            command_of(words(s0.take(k as int)), s0.skip(k as int))
        }
    } else {
        command_of(words(s0), seq![])
    }
}

/// `p_a`: an item `b`, then what follows it.
pub open spec fn parse_a(s: Seq<char>) -> ParseV
    decreases s.len(), 3int,
{
    proof {
        lemma_ws_len(s);
    }
    match parse_b(skip_ws(s)) {
        // The rest handed back is a suffix of the input, so the panic here is
        // never taken; it only makes the recursion visibly well-founded.
        ParseV::Parsed(b, r) => if r.len() <= s.len() {
            after_item(b, r)
        } else {
            ParseV::Panic
        },
        ParseV::Failed(e) => ParseV::Failed(e),
        ParseV::Panic => ParseV::Panic,
    }
}

/// The part of `p_a` that follows its item `b`, on the text `r` after it.
pub open spec fn after_item(b: YshV, r: Seq<char>) -> ParseV
    decreases r.len(), 2int,
{
    proof {
        lemma_ws_len(r);
    }
    let t = skip_ws(r);
    if look2_panics(t) {
        ParseV::Panic
    } else if is_pair(t, '&') {
        combine(BinOp::And, b, parse_t(t.skip(2)))
    } else if is_pair(t, '|') {
        combine(BinOp::Or, b, parse_t(t.skip(2)))
    } else if t.len() == 0 {
        ParseV::Parsed(b, seq![])
    } else if t[0] == ';' {
        combine(BinOp::Sequence, b, parse_t(t.skip(1)))
    } else if t[0] == '|' {
        combine(BinOp::Pipe, b, parse_t(t.skip(1)))
    } else if t[0] == '<' || t[0] == '>' || t[0] == ')' {
        parse_x(b, t)
    } else {
        ParseV::Failed("unexpected '"@ + seq![t[0]] + "' in p_a"@)
    }
}

/// `p_b`: a group `( a )` or a command.  The group must be closed by `)`; the
/// error names the missing character as `None`, since `parse_a` hands back a
/// rest that is empty or begins with `)` (`lemma_parse_a_stops`).
pub open spec fn parse_b(s: Seq<char>) -> ParseV
    decreases s.len(), 1int,
{
    proof {
        lemma_ws_len(s);
    }
    let s0 = skip_ws(s);
    if s0.len() > 0 && s0[0] == '(' {
        match parse_a(s0.skip(1)) {
            ParseV::Parsed(a, r) => if r.len() > 0 && r[0] == ')' {
                ParseV::Parsed(YshV::Sub(Box::new(a)), r.skip(1))
            } else {
                ParseV::Failed("unexpected None in p_b"@)
            },
            ParseV::Failed(e) => ParseV::Failed(e),
            ParseV::Panic => ParseV::Panic,
        }
    } else {
        take_com_spec(s0)
    }
}

/// `p_t`: `p_a`, then redirections of its result.
pub open spec fn parse_t(s: Seq<char>) -> ParseV
    decreases s.len(), 4int,
{
    proof {
        lemma_ws_len(s);
    }
    match parse_a(skip_ws(s)) {
        // As in `parse_a`, the panic is never taken.
        ParseV::Parsed(a, r) => if r.len() <= s.len() {
            parse_x(a, r)
        } else {
            ParseV::Panic
        },
        ParseV::Failed(e) => ParseV::Failed(e),
        ParseV::Panic => ParseV::Panic,
    }
}

/// `p_x`: redirections `> STR` / `< STR` of `y`, each possibly followed by an
/// operator and the rest of the line.
pub open spec fn parse_x(y: YshV, s: Seq<char>) -> ParseV
    decreases s.len(), 1int,
{
    proof {
        lemma_ws_len(s);
    }
    let s0 = skip_ws(s);
    if s0.len() == 0 || s0[0] == ')' {
        ParseV::Parsed(y, s0)
    } else if s0[0] == '>' || s0[0] == '<' {
        let s1 = skip_ws(s0.skip(1));
        proof {
            lemma_ws_len(s0.skip(1));
            lemma_ws_len(s1);
            lemma_word_len(skip_ws(s1));
        }
        match take_string_spec(s1) {
            Err(e) => ParseV::Failed(e),
            Ok((f, rest)) => {
                let r = if s0[0] == '>' {
                    YshV::Out(Box::new(y), f)
                } else {
                    YshV::In(Box::new(y), f)
                };
                proof {
                    lemma_ws_len(rest);
                }
                let t = skip_ws(rest);
                proof {
                    lemma_ws_len(t.skip(1));
                }
                if look2_panics(t) {
                    ParseV::Panic
                } else if is_pair(t, '&') {
                    combine(BinOp::And, r, parse_t(t.skip(2)))
                } else if is_pair(t, '|') {
                    combine(BinOp::Or, r, parse_t(t.skip(2)))
                } else if t.len() == 0 || t[0] == ')' {
                    ParseV::Parsed(r, t)
                } else if t[0] == '|' {
                    combine(BinOp::Pipe, r, parse_t(skip_ws(t.skip(1))))
                } else if t[0] == ';' {
                    combine(BinOp::Sequence, r, parse_t(skip_ws(t.skip(1))))
                } else if t[0] == '<' || t[0] == '>' {
                    parse_x(r, t)
                } else {
                    ParseV::Failed("unexpected "@ + seq![t[0]] + " in p_x"@)
                }
            },
        }
    } else {
        ParseV::Failed("unexpected "@ + seq![s0[0]] + " in p_x"@)
    }
}

/// `parse_ysh`: the lines of `s` joined, parsed by `p_a`; an error when text is
/// left over.
pub open spec fn parse_line(s: Seq<char>) -> LineV {
    match parse_a(join_lines(s)) {
        ParseV::Parsed(y, r) => if r.len() == 0 {
            LineV::Accepted(y)
        } else {
            LineV::Rejected(r + " remains untaken"@)
        },
        ParseV::Failed(e) => LineV::Rejected(e),
        ParseV::Panic => LineV::Panic,
    }
}

/// What an executable part of the parser gives back: a tree with the position
/// where the text left over begins, an error message, or the sign that the
/// text is one on which the parser panics (`ParseV::Panic`).
enum Outcome {
    Parsed(Ysh, usize),
    Failed(String),
    Panicked,
}

/// `o`, read from position `i` of `v`, is what `p` says.
spec fn agrees(o: Outcome, v: Seq<char>, i: int, p: ParseV) -> bool {
    match o {
        Outcome::Parsed(y, j) => i <= j <= v.len() && p == ParseV::Parsed(y@, v.skip(j as int)),
        Outcome::Failed(e) => p == ParseV::Failed(e@),
        Outcome::Panicked => p == ParseV::Panic,
    }
}

/// The tree `l op r`.
fn join_op(op: BinOp, l: Ysh, r: Ysh) -> (y: Ysh)
    ensures
        y@ == bin(op, l@, r@),
{
    match op {
        BinOp::Sequence => Ysh::Sequence(Box::new(l), Box::new(r)),
        BinOp::And => Ysh::And(Box::new(l), Box::new(r)),
        BinOp::Or => Ysh::Or(Box::new(l), Box::new(r)),
        BinOp::Pipe => Ysh::Pipe(Box::new(l), Box::new(r)),
    }
}

/// `l op` followed by the outcome of parsing the right operand.
fn join_outcome(op: BinOp, l: Ysh, o: Outcome) -> (r: Outcome)
    ensures
        forall|v: Seq<char>, i: int, p: ParseV|
            #![trigger agrees(o, v, i, p)]
            agrees(o, v, i, p) ==> agrees(r, v, i, combine(op, l@, p)),
{
    match o {
        Outcome::Parsed(y, j) => Outcome::Parsed(join_op(op, l, y), j),
        Outcome::Failed(e) => Outcome::Failed(e),
        Outcome::Panicked => Outcome::Panicked,
    }
}

/// The strings of `w` after the first.
fn tail_strings(w: &Vec<String>) -> (r: Vec<String>)
    requires
        w.len() > 0,
    ensures
        r.deep_view() == w.deep_view().drop_first(),
{
    let mut r: Vec<String> = Vec::new();
    let mut i: usize = 1;
    while i < w.len()
        invariant
            1 <= i <= w.len(),
            r.deep_view() == w.deep_view().subrange(1, i as int),
        decreases w.len() - i,
    {
        let s = w[i].clone();
        let ghost before = r.deep_view();
        r.push(s);
        assert(r.deep_view() =~= before.push(w.deep_view()[i as int]));
        assert(w.deep_view().subrange(1, i + 1) =~= w.deep_view().subrange(1, i as int).push(
            w.deep_view()[i as int],
        ));
        i = i + 1;
    }
    assert(w.deep_view().subrange(1, w.len() as int) =~= w.deep_view().drop_first());
    r
}

/// A command from the words `w`, with the rest of the text starting at `k`.
fn command_from(w: Vec<String>, k: usize) -> (o: Outcome)
    ensures
        forall|v: Seq<char>, i: int|
            #![trigger agrees(o, v, i, command_of(w.deep_view(), v.skip(k as int)))]
            i <= k <= v.len() ==> agrees(o, v, i, command_of(w.deep_view(), v.skip(k as int))),
{
    if w.len() == 0 {
        return Outcome::Panicked;
    }
    let args = tail_strings(&w);
    assert(w.deep_view()[0] == w[0]@);
    match y_com(w[0].as_str(), &args) {
        Ok(y) => Outcome::Parsed(y, k),
        Err(e) => Outcome::Failed(e),
    }
}

/// `take_com` on the characters of `v` from `i`.
fn take_com(v: &Vec<char>, i: usize) -> (o: Outcome)
    requires
        i <= v.len(),
    ensures
        agrees(o, v@, i as int, take_com_spec(v@.skip(i as int))),
{
    let s0 = skip_ws_at(v, i);
    let k = plain_end(v, s0);
    let ghost t = v@.skip(s0 as int);
    if k < v.len() {
        if k == s0 {
            let mut e = String::from_str("can't take command from ");
            let rest = string_of(v, s0, v.len());
            e.append(rest.as_str());
            assert(v@.subrange(s0 as int, v@.len() as int) =~= t);
            Outcome::Failed(e)
        } else {
            let w = split_words(v, s0, k);
            assert(v@.subrange(s0 as int, k as int) =~= t.take((k - s0) as int));
            assert(v@.skip(k as int) =~= t.skip((k - s0) as int));
            command_from(w, k)
        }
    } else {
        let w = split_words(v, s0, v.len());
        assert(v@.subrange(s0 as int, v@.len() as int) =~= t);
        assert(v@.skip(v.len() as int) =~= Seq::<char>::empty());
        command_from(w, v.len())
    }
}

/// `take_string` on the characters of `v` from `i`: the word and the position
/// after it.
fn take_string(v: &Vec<char>, i: usize) -> (r: Result<(String, usize), String>)
    requires
        i <= v.len(),
    ensures
        match r {
            Ok((f, j)) => i <= j <= v.len() && take_string_spec(v@.skip(i as int)) == Ok::<
                (Seq<char>, Seq<char>),
                Seq<char>,
            >((f@, v@.skip(j as int))),
            Err(e) => take_string_spec(v@.skip(i as int)) == Err::<
                (Seq<char>, Seq<char>),
                Seq<char>,
            >(e@),
        },
{
    let s0 = skip_ws_at(v, i);
    let k = word_end(v, s0);
    let ghost t = v@.skip(s0 as int);
    if k == s0 {
        let mut e = String::from_str("can't take string from ");
        let rest = string_of(v, s0, v.len());
        e.append(rest.as_str());
        assert(v@.subrange(s0 as int, v@.len() as int) =~= t);
        Err(e)
    } else if k < v.len() {
        let f = string_of(v, s0, k);
        assert(v@.subrange(s0 as int, k as int) =~= t.take((k - s0) as int));
        assert(v@.skip(k as int) =~= t.skip((k - s0) as int));
        Ok((f, k))
    } else {
        let f = string_of(v, s0, v.len());
        assert(v@.subrange(s0 as int, v@.len() as int) =~= t);
        assert(v@.skip(v.len() as int) =~= Seq::<char>::empty());
        Ok((f, v.len()))
    }
}

/// `p_a` on the characters of `v` from `i`.
fn p_a(v: &Vec<char>, i: usize) -> (o: Outcome)
    requires
        i <= v.len(),
    ensures
        agrees(o, v@, i as int, parse_a(v@.skip(i as int))),
    decreases v.len() - i, 3int,
{
    let s0 = skip_ws_at(v, i);
    match p_b(v, s0) {
        Outcome::Parsed(b, r) => after_item_at(v, b, r),
        Outcome::Failed(e) => Outcome::Failed(e),
        Outcome::Panicked => Outcome::Panicked,
    }
}

/// The part of `p_a` after its item `b`, on the characters of `v` from `r`.
fn after_item_at(v: &Vec<char>, b: Ysh, r: usize) -> (o: Outcome)
    requires
        r <= v.len(),
    ensures
        agrees(o, v@, r as int, after_item(b@, v@.skip(r as int))),
    decreases v.len() - r, 2int,
{
    let t = skip_ws_at(v, r);
    assert(t < v.len() ==> v@.skip(t as int)[0] == v@[t as int]);
    if look2_panics_at(v, t) {
        Outcome::Panicked
    } else if pair_at(v, t, '&') {
        assert(v@.skip(t as int).skip(2) =~= v@.skip(t + 2));
        let o = p_t(v, t + 2);
        join_outcome(BinOp::And, b, o)
    } else if pair_at(v, t, '|') {
        assert(v@.skip(t as int).skip(2) =~= v@.skip(t + 2));
        let o = p_t(v, t + 2);
        join_outcome(BinOp::Or, b, o)
    } else if t == v.len() {
        assert(v@.skip(t as int) =~= Seq::<char>::empty());
        Outcome::Parsed(b, v.len())
    } else if v[t] == ';' {
        assert(v@.skip(t as int).skip(1) =~= v@.skip(t + 1));
        let o = p_t(v, t + 1);
        join_outcome(BinOp::Sequence, b, o)
    } else if v[t] == '|' {
        assert(v@.skip(t as int).skip(1) =~= v@.skip(t + 1));
        let o = p_t(v, t + 1);
        join_outcome(BinOp::Pipe, b, o)
    } else if v[t] == '<' || v[t] == '>' || v[t] == ')' {
        p_x(v, b, t)
    } else {
        let mut e = String::from_str("unexpected '");
        e.push(v[t]);
        e.append("' in p_a");
        assert(e@ =~= "unexpected '"@ + seq![v@[t as int]] + "' in p_a"@);
        Outcome::Failed(e)
    }
}

/// `p_b` on the characters of `v` from `i`.
fn p_b(v: &Vec<char>, i: usize) -> (o: Outcome)
    requires
        i <= v.len(),
    ensures
        agrees(o, v@, i as int, parse_b(v@.skip(i as int))),
    decreases v.len() - i, 1int,
{
    let s0 = skip_ws_at(v, i);
    if s0 < v.len() && v[s0] == '(' {
        assert(v@.skip(s0 as int).skip(1) =~= v@.skip(s0 + 1));
        match p_a(v, s0 + 1) {
            Outcome::Parsed(a, r) => {
                if r < v.len() && v[r] == ')' {
                    assert(v@.skip(r as int).skip(1) =~= v@.skip(r + 1));
                    Outcome::Parsed(Ysh::Sub(Box::new(a)), r + 1)
                } else {
                    Outcome::Failed(String::from_str("unexpected None in p_b"))
                }
            },
            Outcome::Failed(e) => Outcome::Failed(e),
            Outcome::Panicked => Outcome::Panicked,
        }
    } else {
        take_com(v, s0)
    }
}

/// `p_t` on the characters of `v` from `i`.
fn p_t(v: &Vec<char>, i: usize) -> (o: Outcome)
    requires
        i <= v.len(),
    ensures
        agrees(o, v@, i as int, parse_t(v@.skip(i as int))),
    decreases v.len() - i, 4int,
{
    let s0 = skip_ws_at(v, i);
    match p_a(v, s0) {
        Outcome::Parsed(a, r) => p_x(v, a, r),
        Outcome::Failed(e) => Outcome::Failed(e),
        Outcome::Panicked => Outcome::Panicked,
    }
}

/// `p_x` with the tree `y` on the characters of `v` from `i`.
fn p_x(v: &Vec<char>, y: Ysh, i: usize) -> (o: Outcome)
    requires
        i <= v.len(),
    ensures
        agrees(o, v@, i as int, parse_x(y@, v@.skip(i as int))),
    decreases v.len() - i, 1int,
{
    let s0 = skip_ws_at(v, i);
    assert(s0 < v.len() ==> v@.skip(s0 as int)[0] == v@[s0 as int]);
    if s0 == v.len() || v[s0] == ')' {
        return Outcome::Parsed(y, s0);
    }
    if v[s0] != '>' && v[s0] != '<' {
        let mut e = String::from_str("unexpected ");
        e.push(v[s0]);
        e.append(" in p_x");
        assert(e@ =~= "unexpected "@ + seq![v@[s0 as int]] + " in p_x"@);
        return Outcome::Failed(e);
    }
    let out = v[s0] == '>';
    assert(v@.skip(s0 as int).skip(1) =~= v@.skip(s0 + 1));
    let s1 = skip_ws_at(v, s0 + 1);
    match take_string(v, s1) {
        Err(e) => Outcome::Failed(e),
        Ok((f, rest)) => {
            let r = if out {
                Ysh::Out(Box::new(y), f)
            } else {
                Ysh::In(Box::new(y), f)
            };
            let t = skip_ws_at(v, rest);
            assert(t < v.len() ==> v@.skip(t as int)[0] == v@[t as int]);
            if look2_panics_at(v, t) {
                Outcome::Panicked
            } else if pair_at(v, t, '&') {
                assert(v@.skip(t as int).skip(2) =~= v@.skip(t + 2));
                let o = p_t(v, t + 2);
                join_outcome(BinOp::And, r, o)
            } else if pair_at(v, t, '|') {
                assert(v@.skip(t as int).skip(2) =~= v@.skip(t + 2));
                let o = p_t(v, t + 2);
                join_outcome(BinOp::Or, r, o)
            } else if t == v.len() || v[t] == ')' {
                Outcome::Parsed(r, t)
            } else if v[t] == '|' {
                assert(v@.skip(t as int).skip(1) =~= v@.skip(t + 1));
                let u = skip_ws_at(v, t + 1);
                let o = p_t(v, u);
                join_outcome(BinOp::Pipe, r, o)
            } else if v[t] == ';' {
                assert(v@.skip(t as int).skip(1) =~= v@.skip(t + 1));
                let u = skip_ws_at(v, t + 1);
                let o = p_t(v, u);
                join_outcome(BinOp::Sequence, r, o)
            } else if v[t] == '<' || v[t] == '>' {
                p_x(v, r, t)
            } else {
                let mut e = String::from_str("unexpected ");
                e.push(v[t]);
                e.append(" in p_x");
                assert(e@ =~= "unexpected "@ + seq![v@[t as int]] + " in p_x"@);
                Outcome::Failed(e)
            }
        },
    }
}

/// Parses the command line `s`, or gives back `None` on the lines on which the
/// parser would panic (an empty line, a line that ends in an operator, and some
/// lines holding non-ASCII characters, among others).
pub fn try_parse_ysh(s: String) -> (r: Option<Result<Ysh, String>>)
    ensures
        match parse_line(s@) {
            LineV::Accepted(y) => r matches Some(Ok(t)) && t@ == y,
            LineV::Rejected(e) => r matches Some(Err(m)) && m@ == e,
            LineV::Panic => r is None,
        },
{
    let v = joined_lines(s.as_str());
    assert(v@.skip(0) =~= v@);
    match p_a(&v, 0) {
        Outcome::Parsed(y, r) => {
            if r == v.len() {
                Some(Ok(y))
            } else {
                let mut e = string_of(&v, r, v.len());
                e.append(" remains untaken");
                assert(v@.subrange(r as int, v@.len() as int) =~= v@.skip(r as int));
                Some(Err(e))
            }
        },
        Outcome::Failed(e) => Some(Err(e)),
        Outcome::Panicked => None,
    }
}

/// Parses the command line `s`: its lines are joined, read by `p_a`, and the
/// text must be used up.  It is not to be called on the lines on which the
/// parser panics; `try_parse_ysh` tells them apart.
pub fn parse_ysh(s: String) -> (r: Result<Ysh, String>)
    requires
        !(parse_line(s@) is Panic),
    ensures
        match parse_line(s@) {
            LineV::Accepted(y) => r matches Ok(t) && t@ == y,
            LineV::Rejected(e) => r matches Err(m) && m@ == e,
            LineV::Panic => false,
        },
{
    match try_parse_ysh(s) {
        Some(r) => r,
        None => Err(String::new()),
    }
}

} // verus!
