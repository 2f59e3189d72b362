//! Printing a tree and parsing the text again succeeds, and gives a tree that
//! prints as the same text; the parser reads from the front and stops only at
//! the end of the text or at a `)`.
//!
//! The text of a tree is a sequence of items (a command or a group), each
//! followed by redirections and joined by operators; the parser reads every
//! such text.  The proof follows the parser along a text split as
//! `print(y) + render(ps) + c`: the tree being read, the pieces that the
//! enclosing trees put after it, and what closes the enclosing group.
use crate::text::{
    is_reserved, is_ws, join_lines, lemma_plain_len, lemma_word_len, lemma_ws_len, plain_len,
    skip_ws, utf8_len, word_len, words, words_acc, ws_len,
};
use crate::yparser::{
    after_item, bin, combine, command_of, parse_a, parse_b, parse_line, parse_t, parse_x, take_com_spec,
    take_string_spec, BinOp, LineV, ParseV,
};
use crate::ysh::{print, valid_command, YshV};
use vstd::prelude::*;

verus! {

/// Every character of `w` is whitespace.
pub open spec fn all_ws(w: Seq<char>) -> bool {
    forall|k: int| 0 <= k < w.len() ==> is_ws(#[trigger] w[k])
}

/// `f` is a non-empty word without whitespace or reserved characters, as a
/// file name must be to be read back.
pub open spec fn is_name(f: Seq<char>) -> bool {
    &&& f.len() > 0
    &&& forall|k: int| 0 <= k < f.len() ==> !is_ws(#[trigger] f[k]) && !is_reserved(f[k])
}

/// The commands of `y` are built-in commands and its file names are words.
pub open spec fn wf(y: YshV) -> bool
    decreases y,
{
    match y {
        YshV::Command(c, _) => valid_command(c),
        YshV::Sequence(l, r) => wf(*l) && wf(*r),
        YshV::And(l, r) => wf(*l) && wf(*r),
        YshV::Or(l, r) => wf(*l) && wf(*r),
        YshV::Pipe(l, r) => wf(*l) && wf(*r),
        YshV::In(l, f) => wf(*l) && is_name(f),
        YshV::Out(l, f) => wf(*l) && is_name(f),
        YshV::Sub(z) => wf(*z),
    }
}

/// Every tree that is well formed, written out by `print`, parses without error,
/// into a tree that is written out as the same text.
pub proof fn lemma_print_parses(y: YshV)
    requires
        wf(y),
    ensures
        parse_line(print(y)) matches LineV::Accepted(t) && print(t) == print(y),
{
    lemma_print_no_newline(y);
    lemma_join_lines_id(print(y));
    let ps: Seq<Piece> = seq![];
    let c: Seq<char> = seq![];
    assert(print(y) + render(ps) + c =~= print(y));
    assert(print(y) + render(ps) =~= print(y));
    lemma_parse_a(y, ps, c, print(y));
}

/// A piece that an enclosing tree puts after the tree being read.
pub enum Piece {
    Op(BinOp, YshV),
    Redir(bool, Seq<char>),
}

pub open spec fn op_text(op: BinOp) -> Seq<char> {
    match op {
        BinOp::Sequence => seq![' ', ';', ' '],
        BinOp::And => seq![' ', '&', '&', ' '],
        BinOp::Or => seq![' ', '|', '|', ' '],
        BinOp::Pipe => seq![' ', '|', ' '],
    }
}

pub open spec fn redir_text(out: bool) -> Seq<char> {
    if out {
        seq![' ', '>', ' ']
    } else {
        seq![' ', '<', ' ']
    }
}

pub open spec fn piece_text(p: Piece) -> Seq<char> {
    match p {
        Piece::Op(o, y) => op_text(o) + print(y),
        Piece::Redir(out, f) => redir_text(out) + f,
    }
}

pub open spec fn render(ps: Seq<Piece>) -> Seq<char>
    decreases ps.len(),
{
    if ps.len() == 0 {
        seq![]
    } else {
        piece_text(ps[0]) + render(ps.drop_first())
    }
}

pub open spec fn size(y: YshV) -> nat
    decreases y,
{
    match y {
        YshV::Command(_, _) => 1,
        YshV::Sequence(l, r) => size(*l) + size(*r) + 2,
        YshV::And(l, r) => size(*l) + size(*r) + 2,
        YshV::Or(l, r) => size(*l) + size(*r) + 2,
        YshV::Pipe(l, r) => size(*l) + size(*r) + 2,
        YshV::In(l, _) => size(*l) + 2,
        YshV::Out(l, _) => size(*l) + 2,
        YshV::Sub(z) => size(*z) + 1,
    }
}

pub open spec fn piece_weight(p: Piece) -> nat {
    match p {
        Piece::Op(_, y) => size(y) + 1,
        Piece::Redir(_, _) => 1,
    }
}

pub open spec fn weight(ps: Seq<Piece>) -> nat
    decreases ps.len(),
{
    if ps.len() == 0 {
        0
    } else {
        piece_weight(ps[0]) + weight(ps.drop_first())
    }
}

pub open spec fn wf_piece(p: Piece) -> bool {
    match p {
        Piece::Op(_, y) => wf(y),
        Piece::Redir(_, f) => is_name(f),
    }
}

pub open spec fn wf_pieces(ps: Seq<Piece>) -> bool {
    forall|i: int| 0 <= i < ps.len() ==> wf_piece(#[trigger] ps[i])
}

/// What closes the enclosing group: nothing, or `)` after whitespace, followed
/// by a one-byte character if anything.
pub open spec fn closer_ok(c: Seq<char>) -> bool {
    let t = skip_ws(c);
    t.len() == 0 || (t[0] == ')' && (t.len() == 1 || utf8_len(t[1]) == 1))
}

proof fn lemma_size_pos(y: YshV)
    ensures
        size(y) >= 1,
{
}

proof fn lemma_skip_ws_start(x: Seq<char>)
    requires
        x.len() > 0,
        !is_ws(x[0]),
    ensures
        skip_ws(x) == x,
{
    assert(ws_len(x) == 0);
    assert(x.skip(0) =~= x);
}

proof fn lemma_skip_ws_after_ws(w: Seq<char>, x: Seq<char>)
    requires
        all_ws(w),
    ensures
        skip_ws(w + x) == skip_ws(x),
    decreases w.len(),
{
    if w.len() == 0 {
        assert(w + x =~= x);
    } else {
        let wx = w + x;
        assert(wx[0] == w[0]);
        assert(wx.drop_first() =~= w.drop_first() + x);
        assert(is_ws(w[0]));
        lemma_skip_ws_after_ws(w.drop_first(), x);
        assert(ws_len(wx) == 1 + ws_len(wx.drop_first()));
        lemma_ws_len(wx.drop_first());
        assert(wx.skip(1 + ws_len(wx.drop_first()) as int) =~= wx.drop_first().skip(
            ws_len(wx.drop_first()) as int,
        ));
    }
}

proof fn lemma_skip_ws_idem(s: Seq<char>)
    ensures
        skip_ws(skip_ws(s)) == skip_ws(s),
{
    lemma_ws_len(s);
    if ws_len(s) < s.len() {
        lemma_skip_ws_start(skip_ws(s));
    } else {
        assert(skip_ws(s).len() == 0);
        assert(ws_len(skip_ws(s)) == 0);
        assert(skip_ws(s).skip(0) =~= skip_ws(s));
    }
}

/// Whitespace skipping splits `s` into its whitespace prefix and the rest.
proof fn lemma_ws_split(s: Seq<char>)
    ensures
        s == s.take(ws_len(s) as int) + skip_ws(s),
        all_ws(s.take(ws_len(s) as int)),
{
    lemma_ws_len(s);
    assert(s =~= s.take(ws_len(s) as int) + skip_ws(s));
}

proof fn lemma_skip_ws_len_suffix(a: Seq<char>, b: Seq<char>)
    ensures
        skip_ws(a + b).len() >= skip_ws(b).len(),
    decreases a.len(),
{
    lemma_ws_len(b);
    if a.len() == 0 {
        assert(a + b =~= b);
    } else if is_ws(a[0]) {
        let w = seq![a[0]];
        assert(a + b =~= w + (a.drop_first() + b));
        lemma_skip_ws_after_ws(w, a.drop_first() + b);
        lemma_skip_ws_len_suffix(a.drop_first(), b);
    } else {
        assert((a + b)[0] == a[0]);
        lemma_skip_ws_start(a + b);
    }
}

proof fn lemma_plain_len_prefix(a: Seq<char>, b: Seq<char>)
    requires
        forall|k: int| 0 <= k < a.len() ==> !is_reserved(#[trigger] a[k]),
    ensures
        plain_len(a + b) == a.len() + plain_len(b),
    decreases a.len(),
{
    if a.len() == 0 {
        assert(a + b =~= b);
    } else {
        assert((a + b)[0] == a[0]);
        assert((a + b).drop_first() =~= a.drop_first() + b);
        assert forall|k: int| 0 <= k < a.drop_first().len() implies !is_reserved(
            #[trigger] a.drop_first()[k],
        ) by {
            assert(a.drop_first()[k] == a[k + 1]);
        }
        lemma_plain_len_prefix(a.drop_first(), b);
    }
}

proof fn lemma_word_len_prefix(a: Seq<char>, b: Seq<char>)
    requires
        forall|k: int| 0 <= k < a.len() ==> !is_reserved(#[trigger] a[k]) && !is_ws(a[k]),
    ensures
        word_len(a + b) == a.len() + word_len(b),
    decreases a.len(),
{
    if a.len() == 0 {
        assert(a + b =~= b);
    } else {
        assert((a + b)[0] == a[0]);
        assert((a + b).drop_first() =~= a.drop_first() + b);
        assert forall|k: int| 0 <= k < a.drop_first().len() implies !is_reserved(
            #[trigger] a.drop_first()[k],
        ) && !is_ws(a.drop_first()[k]) by {
            assert(a.drop_first()[k] == a[k + 1]);
        }
        lemma_word_len_prefix(a.drop_first(), b);
    }
}

proof fn lemma_words_acc_word(a: Seq<char>, x: Seq<char>, cur: Seq<char>)
    requires
        forall|k: int| 0 <= k < a.len() ==> !is_ws(#[trigger] a[k]),
    ensures
        words_acc(a + x, cur) == words_acc(x, cur + a),
    decreases a.len(),
{
    if a.len() == 0 {
        assert(a + x =~= x);
        assert(cur + a =~= cur);
    } else {
        assert((a + x)[0] == a[0]);
        assert((a + x).drop_first() =~= a.drop_first() + x);
        assert(!is_ws(a[0]));
        assert forall|k: int| 0 <= k < a.drop_first().len() implies !is_ws(
            #[trigger] a.drop_first()[k],
        ) by {
            assert(a.drop_first()[k] == a[k + 1]);
        }
        lemma_words_acc_word(a.drop_first(), x, cur.push(a[0]));
        assert(cur.push(a[0]) + a.drop_first() =~= cur + a);
    }
}

proof fn lemma_words_acc_ws(w: Seq<char>, cur: Seq<char>)
    requires
        all_ws(w),
    ensures
        words_acc(w, cur) == (if cur.len() > 0 {
            seq![cur]
        } else {
            Seq::<Seq<char>>::empty()
        }),
    decreases w.len(),
{
    if w.len() > 0 {
        assert(is_ws(w[0]));
        assert forall|k: int| 0 <= k < w.drop_first().len() implies is_ws(
            #[trigger] w.drop_first()[k],
        ) by {
            assert(w.drop_first()[k] == w[k + 1]);
        }
        lemma_words_acc_ws(w.drop_first(), seq![]);
        let done: Seq<Seq<char>> = if cur.len() > 0 {
            seq![cur]
        } else {
            seq![]
        };
        assert(done + Seq::<Seq<char>>::empty() =~= done);
    }
}

/// The words of a name followed by whitespace: the name alone.
proof fn lemma_words_name(a: Seq<char>, w: Seq<char>)
    requires
        is_name(a),
        all_ws(w),
    ensures
        words(a + w) == seq![a],
{
    lemma_words_acc_word(a, w, seq![]);
    assert(Seq::<char>::empty() + a =~= a);
    lemma_words_acc_ws(w, a);
}

/// The built-in command names are words.
proof fn lemma_valid_is_name(c: Seq<char>)
    requires
        valid_command(c),
    ensures
        is_name(c),
{
    reveal_strlit("mv");
    reveal_strlit("expr");
    reveal_strlit("date");
    reveal_strlit("ls");
    reveal_strlit("cat");
    reveal_strlit("pwd");
    reveal_strlit("ps");
    reveal_strlit("echo");
    reveal_strlit("cp");
    reveal_strlit("mkdir");
    reveal_strlit("sleep");
    reveal_strlit("sample");
    reveal_strlit("history");
}

pub open spec fn no_newline(s: Seq<char>) -> bool {
    forall|k: int| 0 <= k < s.len() ==> #[trigger] s[k] != '\n'
}

proof fn lemma_no_newline_add(a: Seq<char>, b: Seq<char>)
    requires
        no_newline(a),
        no_newline(b),
    ensures
        no_newline(a + b),
{
    assert forall|k: int| 0 <= k < (a + b).len() implies #[trigger] (a + b)[k] != '\n' by {
        if k < a.len() {
            assert((a + b)[k] == a[k]);
        } else {
            assert((a + b)[k] == b[k - a.len()]);
        }
    }
}

proof fn lemma_name_no_newline(f: Seq<char>)
    requires
        is_name(f),
    ensures
        no_newline(f),
{
    assert forall|k: int| 0 <= k < f.len() implies #[trigger] f[k] != '\n' by {
        assert(!is_ws(f[k]));
    }
}

proof fn lemma_print_no_newline(y: YshV)
    requires
        wf(y),
    ensures
        no_newline(print(y)),
    decreases y,
{
    match y {
        YshV::Command(c, _) => {
            lemma_valid_is_name(c);
            lemma_name_no_newline(c);
        },
        YshV::Sequence(l, r) => {
            lemma_print_no_newline(*l);
            lemma_print_no_newline(*r);
            lemma_no_newline_add(print(*l), seq![' ', ';', ' ']);
            lemma_no_newline_add(print(*l) + seq![' ', ';', ' '], print(*r));
        },
        YshV::And(l, r) => {
            lemma_print_no_newline(*l);
            lemma_print_no_newline(*r);
            lemma_no_newline_add(print(*l), seq![' ', '&', '&', ' ']);
            lemma_no_newline_add(print(*l) + seq![' ', '&', '&', ' '], print(*r));
        },
        YshV::Or(l, r) => {
            lemma_print_no_newline(*l);
            lemma_print_no_newline(*r);
            lemma_no_newline_add(print(*l), seq![' ', '|', '|', ' ']);
            lemma_no_newline_add(print(*l) + seq![' ', '|', '|', ' '], print(*r));
        },
        YshV::Pipe(l, r) => {
            lemma_print_no_newline(*l);
            lemma_print_no_newline(*r);
            lemma_no_newline_add(print(*l), seq![' ', '|', ' ']);
            lemma_no_newline_add(print(*l) + seq![' ', '|', ' '], print(*r));
        },
        YshV::In(l, f) => {
            lemma_print_no_newline(*l);
            lemma_name_no_newline(f);
            lemma_no_newline_add(print(*l), seq![' ', '<', ' ']);
            lemma_no_newline_add(print(*l) + seq![' ', '<', ' '], f);
        },
        YshV::Out(l, f) => {
            lemma_print_no_newline(*l);
            lemma_name_no_newline(f);
            lemma_no_newline_add(print(*l), seq![' ', '>', ' ']);
            lemma_no_newline_add(print(*l) + seq![' ', '>', ' '], f);
        },
        YshV::Sub(z) => {
            lemma_print_no_newline(*z);
            lemma_no_newline_add(seq![' ', '('], print(*z));
            lemma_no_newline_add(seq![' ', '('] + print(*z), seq![')', ' ']);
        },
    }
}

proof fn lemma_join_lines_id(s: Seq<char>)
    requires
        no_newline(s),
    ensures
        join_lines(s) == s,
    decreases s.len(),
{
    if s.len() > 0 {
        assert(s[0] != '\n');
        assert(s.len() >= 2 ==> s[1] != '\n');
        assert(no_newline(s.drop_first())) by {
            assert forall|k: int| 0 <= k < s.drop_first().len() implies #[trigger] s.drop_first()[k]
                != '\n' by {
                assert(s.drop_first()[k] == s[k + 1]);
            }
        }
        lemma_join_lines_id(s.drop_first());
        assert(seq![s[0]] + s.drop_first() =~= s);
    } else {
        assert(s =~= Seq::<char>::empty());
    }
}

/// The text of the pieces `ps` then `c`, split at the first piece.
proof fn lemma_render_first(ps: Seq<Piece>, c: Seq<char>)
    requires
        ps.len() > 0,
    ensures
        render(ps) + c == piece_text(ps[0]) + (render(ps.drop_first()) + c),
{
    assert(render(ps) + c =~= piece_text(ps[0]) + (render(ps.drop_first()) + c));
}

proof fn lemma_wf_pieces_tail(ps: Seq<Piece>)
    requires
        wf_pieces(ps),
        ps.len() > 0,
    ensures
        wf_pieces(ps.drop_first()),
        wf_piece(ps[0]),
{
    assert forall|i: int| 0 <= i < ps.drop_first().len() implies wf_piece(
        #[trigger] ps.drop_first()[i],
    ) by {
        assert(ps.drop_first()[i] == ps[i + 1]);
    }
}

/// After whitespace, the text of pieces `ps` then `c` begins with the reserved
/// character of the first piece, followed by a one-byte character; the text
/// of `ps` (when there is a piece) begins with a space.
proof fn lemma_pieces_head(ps: Seq<Piece>, c: Seq<char>)
    requires
        ps.len() > 0,
        wf_pieces(ps),
    ensures
        ({
            let x = render(ps) + c;
            &&& x.len() >= 3
            &&& x[0] == ' '
            &&& skip_ws(x) == x.drop_first()
            &&& is_reserved(x[1])
            &&& utf8_len(x[1]) == 1
            &&& utf8_len(x[2]) == 1
        }),
{
    lemma_render_first(ps, c);
    let x = render(ps) + c;
    let rest = render(ps.drop_first()) + c;
    match ps[0] {
        Piece::Op(o, y) => {
            assert(x =~= op_text(o) + (print(y) + rest));
        },
        Piece::Redir(out, f) => {
            assert(x =~= redir_text(out) + (f + rest));
        },
    }
    assert(x =~= seq![x[0]] + x.drop_first());
    lemma_skip_ws_after_ws(seq![x[0]], x.drop_first());
    lemma_skip_ws_start(x.drop_first());
}

/// Reading the text `print(y) + render(ps) + c`, `p_a` takes all of it up to
/// the closer.
proof fn lemma_parse_a(y: YshV, ps: Seq<Piece>, c: Seq<char>, s: Seq<char>)
    requires
        wf(y),
        wf_pieces(ps),
        closer_ok(c),
        skip_ws(s) == skip_ws(print(y) + render(ps) + c),
    ensures
        parse_a(s) matches ParseV::Parsed(t, r) && r == skip_ws(c) && print(t) == print(y)
            + render(ps),
    decreases size(y) + weight(ps), 3int,
{
    lemma_size_pos(y);
    match y {
        YshV::Sequence(l, r) => lemma_parse_a_bin(BinOp::Sequence, *l, *r, ps, c, s),
        YshV::And(l, r) => lemma_parse_a_bin(BinOp::And, *l, *r, ps, c, s),
        YshV::Or(l, r) => lemma_parse_a_bin(BinOp::Or, *l, *r, ps, c, s),
        YshV::Pipe(l, r) => lemma_parse_a_bin(BinOp::Pipe, *l, *r, ps, c, s),
        YshV::In(l, f) => lemma_parse_a_redir(false, *l, f, ps, c, s),
        YshV::Out(l, f) => lemma_parse_a_redir(true, *l, f, ps, c, s),
        YshV::Command(name, _) => lemma_parse_a_command(name, ps, c, s),
        YshV::Sub(z) => lemma_parse_a_sub(*z, ps, c, s),
    }
}

proof fn lemma_parse_a_bin(
    op: BinOp,
    l: YshV,
    r: YshV,
    ps: Seq<Piece>,
    c: Seq<char>,
    s: Seq<char>,
)
    requires
        wf(l),
        wf(r),
        wf_pieces(ps),
        closer_ok(c),
        skip_ws(s) == skip_ws(print(bin(op, l, r)) + render(ps) + c),
    ensures
        parse_a(s) matches ParseV::Parsed(t, rest) && rest == skip_ws(c) && print(t) == print(
            bin(op, l, r),
        ) + render(ps),
    decreases size(l) + size(r) + 2 + weight(ps), 2int,
{
    let p = Piece::Op(op, r);
    let ps2 = seq![p] + ps;
    assert(ps2[0] == p);
    assert(ps2.drop_first() =~= ps);
    assert(wf_pieces(ps2)) by {
        assert forall|i: int| 0 <= i < ps2.len() implies wf_piece(#[trigger] ps2[i]) by {
            if i > 0 {
                assert(ps2[i] == ps[i - 1]);
            }
        }
    }
    assert(print(bin(op, l, r)) + render(ps) + c =~= print(l) + render(ps2) + c);
    assert(print(bin(op, l, r)) + render(ps) =~= print(l) + render(ps2));
    lemma_parse_a(l, ps2, c, s);
}

proof fn lemma_parse_a_redir(
    out: bool,
    l: YshV,
    f: Seq<char>,
    ps: Seq<Piece>,
    c: Seq<char>,
    s: Seq<char>,
)
    requires
        wf(l),
        is_name(f),
        wf_pieces(ps),
        closer_ok(c),
        skip_ws(s) == skip_ws(
            print(
                if out {
                    YshV::Out(Box::new(l), f)
                } else {
                    YshV::In(Box::new(l), f)
                },
            ) + render(ps) + c,
        ),
    ensures
        parse_a(s) matches ParseV::Parsed(t, rest) && rest == skip_ws(c) && print(t) == print(
            if out {
                YshV::Out(Box::new(l), f)
            } else {
                YshV::In(Box::new(l), f)
            },
        ) + render(ps),
    decreases size(l) + 2 + weight(ps), 2int,
{
    let p = Piece::Redir(out, f);
    let ps2 = seq![p] + ps;
    assert(ps2[0] == p);
    assert(ps2.drop_first() =~= ps);
    assert(wf_pieces(ps2)) by {
        assert forall|i: int| 0 <= i < ps2.len() implies wf_piece(#[trigger] ps2[i]) by {
            if i > 0 {
                assert(ps2[i] == ps[i - 1]);
            }
        }
    }
    let y = if out {
        YshV::Out(Box::new(l), f)
    } else {
        YshV::In(Box::new(l), f)
    };
    assert(print(y) + render(ps) + c =~= print(l) + render(ps2) + c);
    assert(print(y) + render(ps) =~= print(l) + render(ps2));
    lemma_parse_a(l, ps2, c, s);
}

/// What `take_com` and `take_string` leave after a word `a`: the text of the
/// pieces and the closer, and how far the reading of the word reaches.
proof fn lemma_after_word(a: Seq<char>, ps: Seq<Piece>, c: Seq<char>)
    requires
        is_name(a),
        wf_pieces(ps),
        closer_ok(c),
    ensures
        ({
            let x = a + (render(ps) + c);
            let k = plain_len(x);
            let rest = if k < x.len() {
                x.skip(k as int)
            } else {
                Seq::<char>::empty()
            };
            &&& k >= a.len()
            &&& x.take(k as int) == a + x.take(k as int).skip(a.len() as int)
            &&& all_ws(x.take(k as int).skip(a.len() as int))
            &&& skip_ws(rest) == skip_ws(render(ps) + c)
            &&& rest.len() <= x.len()
        }),
        ({
            let x = a + (render(ps) + c);
            let k = word_len(x);
            &&& k == a.len()
            &&& (if k < x.len() {
                x.skip(k as int)
            } else {
                Seq::<char>::empty()
            }) == render(ps) + c
        }),
{
    let tail = render(ps) + c;
    let x = a + tail;
    assert forall|k: int| 0 <= k < a.len() implies !is_reserved(#[trigger] a[k]) by {}
    lemma_plain_len_prefix(a, tail);
    lemma_word_len_prefix(a, tail);
    lemma_plain_len(tail);
    assert(x.skip(a.len() as int) =~= tail);
    if ps.len() > 0 {
        lemma_pieces_head(ps, c);
        // a space, then a reserved character
        assert(tail.drop_first()[0] == tail[1]);
        assert(plain_len(tail.drop_first()) == 0);
        assert(plain_len(tail) == 1);
        assert(word_len(tail) == 0);
        let k = plain_len(x);
        assert(x.take(k as int).skip(a.len() as int) =~= seq![' ']);
        assert(x.take(k as int) =~= a + seq![' ']);
        assert(x.skip(k as int) =~= tail.drop_first());
        assert(tail =~= seq![' '] + tail.drop_first());
        lemma_skip_ws_after_ws(seq![' '], tail.drop_first());
    } else {
        assert(render(ps) =~= Seq::<char>::empty());
        assert(tail =~= c);
        lemma_ws_split(c);
        lemma_ws_len(c);
        let w = c.take(ws_len(c) as int);
        assert forall|k: int| 0 <= k < w.len() implies !is_reserved(#[trigger] w[k]) by {
            assert(is_ws(w[k]));
        }
        lemma_plain_len_prefix(w, skip_ws(c));
        if skip_ws(c).len() == 0 {
            assert(plain_len(skip_ws(c)) == 0);
            assert(c =~= w);
            assert(plain_len(x) == x.len());
            assert(x.take(x.len() as int) =~= x);
            assert(x.skip(a.len() as int) =~= c);
            lemma_skip_ws_after_ws(w, Seq::<char>::empty());
            assert(w + Seq::<char>::empty() =~= c);
        } else {
            assert(skip_ws(c)[0] == ')');
            assert(plain_len(skip_ws(c)) == 0);
            let k = plain_len(x);
            assert(k == a.len() + w.len());
            assert(x.take(k as int).skip(a.len() as int) =~= w);
            assert(x.take(k as int) =~= a + w);
            assert(x.skip(k as int) =~= skip_ws(c));
            lemma_skip_ws_idem(c);
        }
        // the word ends where the closer begins
        if c.len() > 0 {
            if ws_len(c) > 0 {
                assert(is_ws(c[0]));
            } else {
                assert(c[0] == skip_ws(c)[0]);
            }
            assert(word_len(c) == 0);
        }
    }
}

proof fn lemma_parse_a_command(name: Seq<char>, ps: Seq<Piece>, c: Seq<char>, s: Seq<char>)
    requires
        valid_command(name),
        wf_pieces(ps),
        closer_ok(c),
        skip_ws(s) == skip_ws(name + render(ps) + c),
    ensures
        parse_a(s) matches ParseV::Parsed(t, rest) && rest == skip_ws(c) && print(t) == name
            + render(ps),
    decreases 1 + weight(ps), 2int,
{
    lemma_valid_is_name(name);
    let x = name + (render(ps) + c);
    assert(name + render(ps) + c =~= x);
    assert(x[0] == name[0]);
    lemma_skip_ws_start(x);
    lemma_ws_len(s);
    lemma_after_word(name, ps, c);
    let k = plain_len(x);
    let rest = if k < x.len() {
        x.skip(k as int)
    } else {
        Seq::<char>::empty()
    };
    let w = x.take(k as int).skip(name.len() as int);
    lemma_words_name(name, w);
    let ws = if k < x.len() {
        words(x.take(k as int))
    } else {
        words(x)
    };
    lemma_plain_len(x);
    if k >= x.len() {
        assert(x.take(k as int) =~= x);
    }
    assert(ws == seq![name]);
    assert(ws.drop_first() =~= Seq::<Seq<char>>::empty());
    assert(take_com_spec(x) == command_of(ws, rest));
    let b = YshV::Command(name, Seq::<Seq<char>>::empty());
    assert(parse_b(x) == ParseV::Parsed(b, rest));
    lemma_after_item(b, ps, c, rest);
}

proof fn lemma_parse_a_sub(z: YshV, ps: Seq<Piece>, c: Seq<char>, s: Seq<char>)
    requires
        wf(z),
        wf_pieces(ps),
        closer_ok(c),
        skip_ws(s) == skip_ws(print(YshV::Sub(Box::new(z))) + render(ps) + c),
    ensures
        parse_a(s) matches ParseV::Parsed(t, rest) && rest == skip_ws(c) && print(t) == print(
            YshV::Sub(Box::new(z)),
        ) + render(ps),
    decreases size(z) + 1 + weight(ps), 2int,
{
    let tail = render(ps) + c;
    let c2 = seq![')', ' '] + tail;
    let x = seq!['('] + print(z) + c2;
    assert(print(YshV::Sub(Box::new(z))) + render(ps) + c =~= seq![' '] + x);
    lemma_skip_ws_after_ws(seq![' '], x);
    lemma_skip_ws_start(x);
    lemma_ws_len(s);
    // the group's inner text
    assert(x.skip(1) =~= print(z) + render(Seq::<Piece>::empty()) + c2);
    lemma_skip_ws_start(c2);
    assert(closer_ok(c2));
    lemma_parse_a(z, Seq::<Piece>::empty(), c2, x.skip(1));
    let a = parse_a(x.skip(1))->Parsed_0;
    assert(print(z) + render(Seq::<Piece>::empty()) =~= print(z));
    assert(c2.skip(1) =~= seq![' '] + tail);
    let b = YshV::Sub(Box::new(a));
    assert(parse_b(x) == ParseV::Parsed(b, c2.skip(1)));
    lemma_skip_ws_after_ws(seq![' '], tail);
    lemma_after_item(b, ps, c, c2.skip(1));
}

/// After an item, `p_a` reads the pieces `ps` and stops at the closer.
proof fn lemma_after_item(b: YshV, ps: Seq<Piece>, c: Seq<char>, r: Seq<char>)
    requires
        wf_pieces(ps),
        closer_ok(c),
        skip_ws(r) == skip_ws(render(ps) + c),
    ensures
        after_item(b, r) matches ParseV::Parsed(t, rest) && rest == skip_ws(c) && print(t)
            == print(b) + render(ps),
    decreases weight(ps), 1int,
{
    let t = skip_ws(r);
    if ps.len() == 0 {
        assert(render(ps) + c =~= c);
        if t.len() > 0 {
            lemma_skip_ws_idem(c);
            lemma_parse_x(b, ps, c, t);
        }
    } else {
        lemma_pieces_head(ps, c);
        lemma_render_first(ps, c);
        lemma_wf_pieces_tail(ps);
        let x = render(ps) + c;
        let rest2 = render(ps.drop_first()) + c;
        assert(t == x.drop_first());
        match ps[0] {
            Piece::Op(o, y2) => {
                let u = print(y2) + render(ps.drop_first()) + c;
                assert(x =~= op_text(o) + (print(y2) + rest2));
                assert(u =~= print(y2) + rest2);
                match o {
                    BinOp::And => {
                        assert(t.skip(2) =~= seq![' '] + u);
                        lemma_skip_ws_after_ws(seq![' '], u);
                        lemma_parse_t(y2, ps.drop_first(), c, t.skip(2));
                    },
                    BinOp::Or => {
                        assert(t.skip(2) =~= seq![' '] + u);
                        lemma_skip_ws_after_ws(seq![' '], u);
                        lemma_parse_t(y2, ps.drop_first(), c, t.skip(2));
                    },
                    BinOp::Sequence => {
                        assert(t.skip(1) =~= seq![' '] + u);
                        lemma_skip_ws_after_ws(seq![' '], u);
                        lemma_parse_t(y2, ps.drop_first(), c, t.skip(1));
                    },
                    BinOp::Pipe => {
                        assert(t.skip(1) =~= seq![' '] + u);
                        lemma_skip_ws_after_ws(seq![' '], u);
                        lemma_parse_t(y2, ps.drop_first(), c, t.skip(1));
                    },
                }
            },
            Piece::Redir(out, f) => {
                assert(x =~= redir_text(out) + (f + rest2));
                lemma_skip_ws_idem(x);
                lemma_parse_x(b, ps, c, t);
            },
        }
    }
}

/// `p_t` on the text `print(y) + render(ps) + c` reads it up to the closer.
proof fn lemma_parse_t(y: YshV, ps: Seq<Piece>, c: Seq<char>, s: Seq<char>)
    requires
        wf(y),
        wf_pieces(ps),
        closer_ok(c),
        skip_ws(s) == skip_ws(print(y) + render(ps) + c),
    ensures
        parse_t(s) matches ParseV::Parsed(t, rest) && rest == skip_ws(c) && print(t) == print(y)
            + render(ps),
    decreases size(y) + weight(ps), 4int,
{
    lemma_skip_ws_idem(s);
    lemma_parse_a(y, ps, c, skip_ws(s));
    lemma_ws_len(s);
    lemma_skip_ws_len_suffix(print(y) + render(ps), c);
    lemma_ws_len(c);
    lemma_skip_ws_idem(c);
    lemma_parse_x_done(parse_a(skip_ws(s))->Parsed_0, c);
}

/// `p_x` stops at once at a closer.
proof fn lemma_parse_x_done(y: YshV, c: Seq<char>)
    requires
        closer_ok(c),
    ensures
        parse_x(y, skip_ws(c)) == ParseV::Parsed(y, skip_ws(c)),
{
    lemma_skip_ws_idem(c);
}

/// `take_string` on a file name followed by the text of pieces and a closer
/// takes the name.
proof fn lemma_take_string_word(f: Seq<char>, ps: Seq<Piece>, c: Seq<char>)
    requires
        is_name(f),
        wf_pieces(ps),
        closer_ok(c),
    ensures
        take_string_spec(f + (render(ps) + c)) == Ok::<(Seq<char>, Seq<char>), Seq<char>>(
            (f, render(ps) + c),
        ),
{
    let s1 = f + (render(ps) + c);
    assert(s1[0] == f[0]);
    lemma_after_word(f, ps, c);
    lemma_skip_ws_start(s1);
    if word_len(s1) < s1.len() {
        assert(s1.take(f.len() as int) =~= f);
    } else {
        assert(s1 =~= f);
    }
}

/// `p_x` on redirections (`ps` is empty or begins with one) reads them and what
/// follows, up to the closer.
#[verifier::rlimit(60)]
proof fn lemma_parse_x(y0: YshV, ps: Seq<Piece>, c: Seq<char>, s: Seq<char>)
    requires
        wf_pieces(ps),
        closer_ok(c),
        ps.len() == 0 || ps[0] is Redir,
        skip_ws(s) == skip_ws(render(ps) + c),
    ensures
        parse_x(y0, s) matches ParseV::Parsed(t, rest) && rest == skip_ws(c) && print(t) == print(
            y0,
        ) + render(ps),
    decreases weight(ps), 0int,
{
    if ps.len() == 0 {
        assert(render(ps) + c =~= c);
        assert(print(y0) + render(ps) =~= print(y0));
    } else {
        lemma_pieces_head(ps, c);
        lemma_render_first(ps, c);
        lemma_wf_pieces_tail(ps);
        let out = ps[0]->Redir_0;
        let f = ps[0]->Redir_1;
        let ps1 = ps.drop_first();
        let rest2 = render(ps1) + c;
        let x = render(ps) + c;
        assert(x =~= redir_text(out) + (f + rest2));
        let s0 = skip_ws(s);
        assert(s0 == x.drop_first());
        assert(s0.skip(1) =~= seq![' '] + (f + rest2));
        lemma_skip_ws_after_ws(seq![' '], f + rest2);
        assert((f + rest2)[0] == f[0]);
        lemma_skip_ws_start(f + rest2);
        let s1 = skip_ws(s0.skip(1));
        assert(s1 == f + rest2);
        lemma_take_string_word(f, ps1, c);
        let r = if out {
            YshV::Out(Box::new(y0), f)
        } else {
            YshV::In(Box::new(y0), f)
        };
        let t = skip_ws(rest2);
        assert(print(r) == print(y0) + redir_text(out) + f);
        assert(render(ps) == redir_text(out) + f + render(ps1));
        if ps1.len() == 0 {
            assert(rest2 =~= c);
            assert(print(y0) + render(ps) =~= print(r));
        } else {
            lemma_pieces_head(ps1, c);
            lemma_render_first(ps1, c);
            lemma_wf_pieces_tail(ps1);
            assert(t == rest2.drop_first());
            let rest3 = render(ps1.drop_first()) + c;
            assert(weight(ps) == 1 + weight(ps1));
            match ps1[0] {
                Piece::Op(o, y2) => {
                    assert(weight(ps1) == size(y2) + 1 + weight(ps1.drop_first()));
                    let u = print(y2) + render(ps1.drop_first()) + c;
                    assert(rest2 =~= op_text(o) + (print(y2) + rest3));
                    assert(u =~= print(y2) + rest3);
                    assert(render(ps1) == op_text(o) + print(y2) + render(ps1.drop_first()));
                    assert(print(r) + op_text(o) + (print(y2) + render(ps1.drop_first()))
                        =~= print(y0) + render(ps));
                    let v = if o is And || o is Or {
                        t.skip(2)
                    } else {
                        skip_ws(t.skip(1))
                    };
                    lemma_print_bin(o, r, parse_t(v)->Parsed_0);
                    match o {
                        BinOp::And => {
                            assert(t.skip(2) =~= seq![' '] + u);
                            lemma_skip_ws_after_ws(seq![' '], u);
                            lemma_parse_t(y2, ps1.drop_first(), c, t.skip(2));
                        },
                        BinOp::Or => {
                            assert(t.skip(2) =~= seq![' '] + u);
                            lemma_skip_ws_after_ws(seq![' '], u);
                            lemma_parse_t(y2, ps1.drop_first(), c, t.skip(2));
                        },
                        BinOp::Sequence => {
                            assert(t.skip(1) =~= seq![' '] + u);
                            lemma_skip_ws_after_ws(seq![' '], u);
                            lemma_skip_ws_idem(t.skip(1));
                            lemma_parse_t(y2, ps1.drop_first(), c, skip_ws(t.skip(1)));
                        },
                        BinOp::Pipe => {
                            assert(t.skip(1) =~= seq![' '] + u);
                            lemma_skip_ws_after_ws(seq![' '], u);
                            lemma_skip_ws_idem(t.skip(1));
                            lemma_parse_t(y2, ps1.drop_first(), c, skip_ws(t.skip(1)));
                        },
                    }
                },
                Piece::Redir(out2, f2) => {
                    assert(rest2 =~= redir_text(out2) + (f2 + rest3));
                    lemma_skip_ws_idem(rest2);
                    lemma_parse_x(r, ps1, c, t);
                    assert(print(r) + render(ps1) =~= print(y0) + render(ps));
                },
            }
        }
    }
}

proof fn lemma_print_bin(op: BinOp, l: YshV, r: YshV)
    ensures
        print(bin(op, l, r)) == print(l) + op_text(op) + print(r),
{
}

/// The text `t` is used up, or what is left begins with `)`.
pub open spec fn stops_at_close(t: Seq<char>) -> bool {
    t.len() == 0 || t[0] == ')'
}

/// When `p_a` succeeds, the text it leaves is empty or begins with `)`: it reads
/// as far as it can and stops only at the end or at a closing parenthesis.
pub proof fn lemma_parse_a_stops(s: Seq<char>)
    ensures
        parse_a(s) matches ParseV::Parsed(_, r) ==> stops_at_close(r),
    decreases s.len(), 3int,
{
    lemma_ws_len(s);
    if let ParseV::Parsed(b, r) = parse_b(skip_ws(s)) {
        if r.len() <= s.len() {
            lemma_after_item_stops(b, r);
        }
    }
}

/// As `lemma_parse_a_stops`, for the part of `p_a` after its item.
pub proof fn lemma_after_item_stops(b: YshV, r: Seq<char>)
    ensures
        after_item(b, r) matches ParseV::Parsed(_, rest) ==> stops_at_close(rest),
    decreases r.len(), 2int,
{
    lemma_ws_len(r);
    let t = skip_ws(r);
    if t.len() >= 2 {
        lemma_parse_t_stops(t.skip(2));
    }
    if t.len() >= 1 {
        lemma_parse_t_stops(t.skip(1));
    }
    lemma_parse_x_stops(b, t);
}

/// As `lemma_parse_a_stops`, for `p_t`.
pub proof fn lemma_parse_t_stops(s: Seq<char>)
    ensures
        parse_t(s) matches ParseV::Parsed(_, r) ==> stops_at_close(r),
    decreases s.len(), 4int,
{
    lemma_ws_len(s);
    if let ParseV::Parsed(a, r) = parse_a(skip_ws(s)) {
        if r.len() <= s.len() {
            lemma_parse_x_stops(a, r);
        }
    }
}

/// As `lemma_parse_a_stops`, for `p_x`.
pub proof fn lemma_parse_x_stops(y: YshV, s: Seq<char>)
    ensures
        parse_x(y, s) matches ParseV::Parsed(_, r) ==> stops_at_close(r),
    decreases s.len(), 1int,
{
    lemma_ws_len(s);
    let s0 = skip_ws(s);
    if s0.len() > 0 && (s0[0] == '>' || s0[0] == '<') {
        let s1 = skip_ws(s0.skip(1));
        lemma_ws_len(s0.skip(1));
        lemma_ws_len(s1);
        lemma_word_len(skip_ws(s1));
        if let Ok((f, rest)) = take_string_spec(s1) {
            let r = if s0[0] == '>' {
                YshV::Out(Box::new(y), f)
            } else {
                YshV::In(Box::new(y), f)
            };
            lemma_ws_len(rest);
            let t = skip_ws(rest);
            lemma_ws_len(t.skip(1));
            if t.len() >= 2 {
                lemma_parse_t_stops(t.skip(2));
            }
            if t.len() >= 1 {
                lemma_parse_t_stops(skip_ws(t.skip(1)));
            }
            if t.len() < s.len() {
                lemma_parse_x_stops(r, t);
            }
        }
    }
}

/// `r` is what is left of `s` after reading some of it from the front.
pub open spec fn is_suffix(r: Seq<char>, s: Seq<char>) -> bool {
    r.len() <= s.len() && r == s.skip(s.len() - r.len())
}

proof fn lemma_suffix_trans(a: Seq<char>, b: Seq<char>, c: Seq<char>)
    requires
        is_suffix(a, b),
        is_suffix(b, c),
    ensures
        is_suffix(a, c),
{
    assert(c.skip(c.len() - b.len()).skip(b.len() - a.len()) =~= c.skip(c.len() - a.len()));
}

proof fn lemma_suffix_skip(s: Seq<char>, k: int)
    requires
        0 <= k <= s.len(),
    ensures
        is_suffix(s.skip(k), s),
{
}

proof fn lemma_skip_ws_suffix(s: Seq<char>)
    ensures
        is_suffix(skip_ws(s), s),
{
    lemma_ws_len(s);
}

proof fn lemma_take_com_suffix(s: Seq<char>)
    ensures
        take_com_spec(s) matches ParseV::Parsed(_, r) ==> is_suffix(r, s),
{
    let s0 = skip_ws(s);
    lemma_skip_ws_suffix(s);
    lemma_plain_len(s0);
    let k = plain_len(s0);
    if k < s0.len() {
        lemma_suffix_trans(s0.skip(k as int), s0, s);
    } else {
        assert(s.skip(s.len() as int) =~= Seq::<char>::empty());
    }
}

/// What `p_a` leaves of its text is a suffix of it: it reads from the front and
/// never hands back more than it was given.
pub proof fn lemma_parse_a_suffix(s: Seq<char>)
    ensures
        parse_a(s) matches ParseV::Parsed(_, r) ==> is_suffix(r, s),
    decreases s.len(), 3int,
{
    lemma_skip_ws_suffix(s);
    lemma_parse_b_suffix(skip_ws(s));
    if let ParseV::Parsed(b, r) = parse_b(skip_ws(s)) {
        lemma_suffix_trans(r, skip_ws(s), s);
        lemma_after_item_suffix(b, r);
        if let ParseV::Parsed(_, r2) = after_item(b, r) {
            lemma_suffix_trans(r2, r, s);
        }
    }
}

/// As `lemma_parse_a_suffix`, for `p_b`.
pub proof fn lemma_parse_b_suffix(s: Seq<char>)
    ensures
        parse_b(s) matches ParseV::Parsed(_, r) ==> is_suffix(r, s),
    decreases s.len(), 1int,
{
    lemma_skip_ws_suffix(s);
    let s0 = skip_ws(s);
    if s0.len() > 0 && s0[0] == '(' {
        lemma_parse_a_suffix(s0.skip(1));
        if let ParseV::Parsed(a, r) = parse_a(s0.skip(1)) {
            if r.len() > 0 && r[0] == ')' {
                lemma_suffix_trans(r.skip(1), r, s0.skip(1));
                lemma_suffix_trans(r.skip(1), s0.skip(1), s0);
                lemma_suffix_trans(r.skip(1), s0, s);
            }
        }
    } else {
        lemma_take_com_suffix(s0);
        if let ParseV::Parsed(_, r) = take_com_spec(s0) {
            lemma_suffix_trans(r, s0, s);
        }
    }
}

/// As `lemma_parse_a_suffix`, for the part of `p_a` after its item.
pub proof fn lemma_after_item_suffix(b: YshV, r: Seq<char>)
    ensures
        after_item(b, r) matches ParseV::Parsed(_, rest) ==> is_suffix(rest, r),
    decreases r.len(), 2int,
{
    lemma_skip_ws_suffix(r);
    let t = skip_ws(r);
    if t.len() >= 2 {
        lemma_parse_t_suffix(t.skip(2));
        if let ParseV::Parsed(_, x) = parse_t(t.skip(2)) {
            lemma_suffix_trans(x, t.skip(2), t);
            lemma_suffix_trans(x, t, r);
        }
    }
    if t.len() >= 1 {
        lemma_parse_t_suffix(t.skip(1));
        if let ParseV::Parsed(_, x) = parse_t(t.skip(1)) {
            lemma_suffix_trans(x, t.skip(1), t);
            lemma_suffix_trans(x, t, r);
        }
    }
    if t.len() == 0 {
        assert(r.skip(r.len() as int) =~= Seq::<char>::empty());
    }
    lemma_parse_x_suffix(b, t);
    if let ParseV::Parsed(_, x) = parse_x(b, t) {
        lemma_suffix_trans(x, t, r);
    }
}

/// As `lemma_parse_a_suffix`, for `p_t`.
pub proof fn lemma_parse_t_suffix(s: Seq<char>)
    ensures
        parse_t(s) matches ParseV::Parsed(_, r) ==> is_suffix(r, s),
    decreases s.len(), 4int,
{
    lemma_skip_ws_suffix(s);
    lemma_parse_a_suffix(skip_ws(s));
    if let ParseV::Parsed(a, r) = parse_a(skip_ws(s)) {
        lemma_suffix_trans(r, skip_ws(s), s);
        lemma_parse_x_suffix(a, r);
        if let ParseV::Parsed(_, x) = parse_x(a, r) {
            lemma_suffix_trans(x, r, s);
        }
    }
}

/// As `lemma_parse_a_suffix`, for `p_x`.
#[verifier::rlimit(60)]
pub proof fn lemma_parse_x_suffix(y: YshV, s: Seq<char>)
    ensures
        parse_x(y, s) matches ParseV::Parsed(_, r) ==> is_suffix(r, s),
    decreases s.len(), 1int,
{
    lemma_skip_ws_suffix(s);
    let s0 = skip_ws(s);
    if s0.len() > 0 && (s0[0] == '>' || s0[0] == '<') {
        let s1 = skip_ws(s0.skip(1));
        lemma_skip_ws_suffix(s0.skip(1));
        lemma_suffix_trans(s1, s0.skip(1), s0);
        lemma_suffix_trans(s1, s0, s);
        lemma_skip_ws_suffix(s1);
        lemma_word_len(skip_ws(s1));
        if let Ok((f, rest)) = take_string_spec(s1) {
            let s2 = skip_ws(s1);
            if word_len(s2) < s2.len() {
                lemma_suffix_trans(rest, s2, s1);
            } else {
                assert(s1.skip(s1.len() as int) =~= Seq::<char>::empty());
            }
            lemma_suffix_trans(rest, s1, s);
            let r = if s0[0] == '>' {
                YshV::Out(Box::new(y), f)
            } else {
                YshV::In(Box::new(y), f)
            };
            lemma_skip_ws_suffix(rest);
            let t = skip_ws(rest);
            lemma_suffix_trans(t, rest, s);
            if t.len() >= 2 {
                lemma_parse_t_suffix(t.skip(2));
                if let ParseV::Parsed(_, x) = parse_t(t.skip(2)) {
                    lemma_suffix_trans(x, t.skip(2), t);
                    lemma_suffix_trans(x, t, s);
                }
            }
            if t.len() >= 1 {
                lemma_skip_ws_suffix(t.skip(1));
                lemma_suffix_trans(skip_ws(t.skip(1)), t.skip(1), t);
                lemma_parse_t_suffix(skip_ws(t.skip(1)));
                if let ParseV::Parsed(_, x) = parse_t(skip_ws(t.skip(1))) {
                    lemma_suffix_trans(x, skip_ws(t.skip(1)), t);
                    lemma_suffix_trans(x, t, s);
                }
            }
            if t.len() < s.len() {
                lemma_parse_x_suffix(r, t);
                if let ParseV::Parsed(_, x) = parse_x(r, t) {
                    lemma_suffix_trans(x, t, s);
                }
            }
        }
    }
}

/// The file name that `take_string` takes is a word.
proof fn lemma_take_string_name(s: Seq<char>)
    ensures
        take_string_spec(s) matches Ok((f, _)) ==> is_name(f),
{
    let s0 = skip_ws(s);
    lemma_word_len(s0);
    let k = word_len(s0);
    if k > 0 && k < s0.len() {
        assert forall|j: int| 0 <= j < s0.take(k as int).len() implies !is_ws(
            #[trigger] s0.take(k as int)[j],
        ) && !is_reserved(s0.take(k as int)[j]) by {
            assert(s0.take(k as int)[j] == s0[j]);
        }
    }
}

/// Every tree that `p_a` reads is well formed.
pub proof fn lemma_parse_a_wf(s: Seq<char>)
    ensures
        parse_a(s) matches ParseV::Parsed(t, _) ==> wf(t),
    decreases s.len(), 3int,
{
    lemma_ws_len(s);
    lemma_parse_b_wf(skip_ws(s));
    if let ParseV::Parsed(b, r) = parse_b(skip_ws(s)) {
        if r.len() <= s.len() {
            lemma_after_item_wf(b, r);
        }
    }
}

/// As `lemma_parse_a_wf`, for `p_b`.
pub proof fn lemma_parse_b_wf(s: Seq<char>)
    ensures
        parse_b(s) matches ParseV::Parsed(t, _) ==> wf(t),
    decreases s.len(), 1int,
{
    lemma_ws_len(s);
    let s0 = skip_ws(s);
    if s0.len() > 0 && s0[0] == '(' {
        lemma_parse_a_wf(s0.skip(1));
    }
}

/// As `lemma_parse_a_wf`, for the part of `p_a` after a well-formed item.
pub proof fn lemma_after_item_wf(b: YshV, r: Seq<char>)
    requires
        wf(b),
    ensures
        after_item(b, r) matches ParseV::Parsed(t, _) ==> wf(t),
    decreases r.len(), 2int,
{
    lemma_ws_len(r);
    let t = skip_ws(r);
    if t.len() >= 2 {
        lemma_parse_t_wf(t.skip(2));
    }
    if t.len() >= 1 {
        lemma_parse_t_wf(t.skip(1));
    }
    lemma_parse_x_wf(b, t);
}

/// As `lemma_parse_a_wf`, for `p_t`.
pub proof fn lemma_parse_t_wf(s: Seq<char>)
    ensures
        parse_t(s) matches ParseV::Parsed(t, _) ==> wf(t),
    decreases s.len(), 4int,
{
    lemma_ws_len(s);
    lemma_parse_a_wf(skip_ws(s));
    if let ParseV::Parsed(a, r) = parse_a(skip_ws(s)) {
        if r.len() <= s.len() {
            lemma_parse_x_wf(a, r);
        }
    }
}

/// As `lemma_parse_a_wf`, for `p_x` with a well-formed tree.
pub proof fn lemma_parse_x_wf(y: YshV, s: Seq<char>)
    requires
        wf(y),
    ensures
        parse_x(y, s) matches ParseV::Parsed(t, _) ==> wf(t),
    decreases s.len(), 1int,
{
    lemma_ws_len(s);
    let s0 = skip_ws(s);
    if s0.len() > 0 && (s0[0] == '>' || s0[0] == '<') {
        let s1 = skip_ws(s0.skip(1));
        lemma_ws_len(s0.skip(1));
        lemma_ws_len(s1);
        lemma_word_len(skip_ws(s1));
        lemma_take_string_name(s1);
        if let Ok((f, rest)) = take_string_spec(s1) {
            let r = if s0[0] == '>' {
                YshV::Out(Box::new(y), f)
            } else {
                YshV::In(Box::new(y), f)
            };
            assert(wf(r));
            lemma_ws_len(rest);
            let t = skip_ws(rest);
            lemma_ws_len(t.skip(1));
            if t.len() >= 2 {
                lemma_parse_t_wf(t.skip(2));
            }
            if t.len() >= 1 {
                lemma_parse_t_wf(skip_ws(t.skip(1)));
            }
            if t.len() < s.len() {
                lemma_parse_x_wf(r, t);
            }
        }
    }
}

/// Every tree that a line parses into is well formed: its commands are
/// built-in commands and its file names are non-empty words.
pub proof fn lemma_parsed_wf(s: Seq<char>)
    ensures
        parse_line(s) matches LineV::Accepted(y) ==> wf(y),
{
    lemma_parse_a_wf(join_lines(s));
}

/// The tree that a line parses into, written out by `print`, parses again, into
/// a tree that is written out as the same text.
pub proof fn lemma_parsed_reprints(s: Seq<char>)
    ensures
        parse_line(s) matches LineV::Accepted(y) ==> (parse_line(print(y)) matches LineV::Accepted(
            z,
        ) && print(z) == print(y)),
{
    lemma_parsed_wf(s);
    if let LineV::Accepted(y) = parse_line(s) {
        lemma_print_parses(y);
    }
}

/// `p_a` gives the same on a text and on that text without its leading
/// whitespace.
pub proof fn lemma_parse_a_skips_ws(s: Seq<char>)
    ensures
        parse_a(skip_ws(s)) == parse_a(s),
{
    lemma_skip_ws_idem(s);
    lemma_ws_len(s);
    lemma_parse_b_suffix(skip_ws(s));
}

/// `p_t` gives what `p_a` gives: the redirections it reads after `p_a` are
/// never there, since `p_a` has read them already.
pub proof fn lemma_parse_t_is_parse_a(s: Seq<char>)
    ensures
        parse_t(s) == parse_a(s),
{
    lemma_ws_len(s);
    lemma_parse_a_skips_ws(s);
    lemma_parse_a_stops(skip_ws(s));
    lemma_parse_a_suffix(skip_ws(s));
    if let ParseV::Parsed(a, r) = parse_a(skip_ws(s)) {
        if r.len() > 0 {
            lemma_skip_ws_start(r);
        } else {
            assert(ws_len(r) == 0);
            assert(r.skip(0) =~= r);
        }
    }
}

/// The command at the far left of a tree: the first command of its text.
pub open spec fn leftmost(y: YshV) -> YshV
    decreases y,
{
    match y {
        YshV::Command(_, _) => y,
        YshV::Sequence(l, _) => leftmost(*l),
        YshV::And(l, _) => leftmost(*l),
        YshV::Or(l, _) => leftmost(*l),
        YshV::Pipe(l, _) => leftmost(*l),
        YshV::In(l, _) => leftmost(*l),
        YshV::Out(l, _) => leftmost(*l),
        YshV::Sub(z) => leftmost(*z),
    }
}

/// Redirections and operators read after a tree keep it at the far left.
proof fn lemma_parse_x_leftmost(y: YshV, s: Seq<char>)
    ensures
        parse_x(y, s) matches ParseV::Parsed(t, _) ==> leftmost(t) == leftmost(y),
    decreases s.len(),
{
    lemma_ws_len(s);
    let s0 = skip_ws(s);
    if s0.len() > 0 && (s0[0] == '>' || s0[0] == '<') {
        let s1 = skip_ws(s0.skip(1));
        lemma_ws_len(s0.skip(1));
        lemma_ws_len(s1);
        lemma_word_len(skip_ws(s1));
        if let Ok((f, rest)) = take_string_spec(s1) {
            let r = if s0[0] == '>' {
                YshV::Out(Box::new(y), f)
            } else {
                YshV::In(Box::new(y), f)
            };
            assert(leftmost(r) == leftmost(y));
            lemma_ws_len(rest);
            let t = skip_ws(rest);
            if t.len() < s.len() {
                lemma_parse_x_leftmost(r, t);
            }
        }
    }
}

/// What `p_a` reads after its item keeps the item at the far left.
proof fn lemma_after_item_leftmost(b: YshV, r: Seq<char>)
    ensures
        after_item(b, r) matches ParseV::Parsed(t, _) ==> leftmost(t) == leftmost(b),
{
    lemma_parse_x_leftmost(b, skip_ws(r));
}

/// The first command of a line keeps all its arguments: when the text (after
/// whitespace) does not open a group, the command at the far left of the tree
/// that `p_a` reads is named by the first word before the first reserved
/// character, and its arguments are all the other words there, whatever
/// operator or redirection follows.
pub proof fn lemma_first_command(s: Seq<char>)
    requires
        skip_ws(s).len() > 0,
        skip_ws(s)[0] != '(',
    ensures
        ({
            let t0 = skip_ws(s);
            let ws = words(t0.take(plain_len(t0) as int));
            parse_a(s) matches ParseV::Parsed(y, _) ==> ws.len() > 0 && leftmost(y)
                == YshV::Command(ws[0], ws.drop_first())
        }),
{
    let t0 = skip_ws(s);
    lemma_skip_ws_idem(s);
    lemma_ws_len(s);
    lemma_plain_len(t0);
    if plain_len(t0) == t0.len() {
        assert(t0.take(t0.len() as int) =~= t0);
    }
    if let ParseV::Parsed(b, r) = parse_b(t0) {
        if r.len() <= s.len() {
            lemma_after_item_leftmost(b, r);
        }
    }
}

/// After an item, an operator is recognised whatever whitespace comes before or
/// after it: `&&` and `||` always, `;` and `|` when a one-byte character (other
/// than a second `|`, for `|`) or nothing follows.  The right operand is what
/// `p_a` reads from the rest of the text.
pub proof fn lemma_operator_after_item(b: YshV, w: Seq<char>, x: Seq<char>)
    requires
        all_ws(w),
    ensures
        after_item(b, w + seq!['&', '&'] + x) == combine(BinOp::And, b, parse_a(x)),
        after_item(b, w + seq!['|', '|'] + x) == combine(BinOp::Or, b, parse_a(x)),
        x.len() == 0 || utf8_len(x[0]) == 1 ==> after_item(b, w + seq![';'] + x) == combine(
            BinOp::Sequence,
            b,
            parse_a(x),
        ),
        x.len() == 0 || (utf8_len(x[0]) == 1 && x[0] != '|') ==> after_item(b, w + seq!['|'] + x)
            == combine(BinOp::Pipe, b, parse_a(x)),
{
    lemma_parse_t_is_parse_a(x);
    let ops: Seq<Seq<char>> = seq![seq!['&', '&'], seq!['|', '|'], seq![';'], seq!['|']];
    assert forall|j: int| 0 <= j < 4 implies skip_ws(w + #[trigger] ops[j] + x) == ops[j] + x by {
        let o = ops[j];
        assert(w + o + x =~= w + (o + x));
        lemma_skip_ws_after_ws(w, o + x);
        assert((o + x)[0] == o[0]);
        lemma_skip_ws_start(o + x);
    }
    assert(ops[0] == seq!['&', '&']);
    assert(ops[1] == seq!['|', '|']);
    assert(ops[2] == seq![';']);
    assert(ops[3] == seq!['|']);
    assert((seq!['&', '&'] + x).skip(2) =~= x);
    assert((seq!['|', '|'] + x).skip(2) =~= x);
    assert((seq![';'] + x).skip(1) =~= x);
    assert((seq!['|'] + x).skip(1) =~= x);
    if x.len() > 0 {
        assert((seq![';'] + x)[1] == x[0]);
        assert((seq!['|'] + x)[1] == x[0]);
    }
}

} // verus!
