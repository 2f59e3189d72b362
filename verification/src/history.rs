//! The `history` command: its options, and which of the saved lines it shows
//! and keeps.
use crate::text::chars_of;
use vstd::prelude::*;

verus! {

/// At most this many lines are kept in the history file.
pub const MAX_HISTORY: usize = 100;

/// The options of `history`.
pub struct Opt {
    /// How many of the last lines to show.
    pub nlines: usize,
}

/// `c` is an ASCII digit.
pub open spec fn is_digit(c: char) -> bool {
    '0' <= c && c <= '9'
}

/// The number written in decimal by the digits `s`.
pub open spec fn digits_value(s: Seq<char>) -> nat
    decreases s.len(),
{
    if s.len() == 0 {
        0
    } else {
        digits_value(s.drop_last()) * 10 + ((s.last() as int) - ('0' as int)) as nat
    }
}

/// `s` without a leading `+`.
pub open spec fn unsigned_digits(s: Seq<char>) -> Seq<char> {
    if s.len() > 0 && s[0] == '+' {
        s.drop_first()
    } else {
        s
    }
}

/// Every character of `d` is a digit.
pub open spec fn all_digits(d: Seq<char>) -> bool {
    forall|k: int| 0 <= k < d.len() ==> is_digit(#[trigger] d[k])
}

/// What `s.parse::<usize>()` gives: an optional `+`, then one or more decimal
/// digits whose value fits in a `usize`.
pub open spec fn parse_usize_spec(s: Seq<char>) -> Option<usize> {
    let d = unsigned_digits(s);
    if d.len() > 0 && all_digits(d) && digits_value(d) <= usize::MAX {
        Some(digits_value(d) as usize)
    } else {
        None
    }
}

/// `s` with every space removed (`s.replace(" ", "")`).
pub open spec fn no_spaces(s: Seq<char>) -> Seq<char>
    decreases s.len(),
{
    if s.len() == 0 {
        seq![]
    } else if s.last() == ' ' {
        no_spaces(s.drop_last())
    } else {
        no_spaces(s.drop_last()).push(s.last())
    }
}

/// The options read from the arguments `args[i..]`, starting from `nlines == n`:
/// the final number of lines, and the messages about the arguments that could
/// not be used, in order.
pub open spec fn opts_from(args: Seq<Seq<char>>, i: int, n: usize) -> (usize, Seq<Seq<char>>)
    decreases args.len() - i,
{
    if i < 0 || i >= args.len() {
        (n, seq![])
    } else if no_spaces(args[i]) == "-n"@ {
        if i + 1 >= args.len() {
            let (m, msgs) = opts_from(args, i + 1, n);
            (m, seq!["args for option -n is not given"@] + msgs)
        } else {
            match parse_usize_spec(args[i + 1]) {
                Some(k) => opts_from(args, i + 2, k),
                None => {
                    let (m, msgs) = opts_from(args, i + 1, n);
                    (m, seq!["args for option -n must be an integer"@] + msgs)
                },
            }
        }
    } else {
        let (m, msgs) = opts_from(args, i + 1, n);
        (m, seq!["option "@ + no_spaces(args[i]) + " is not supported"@] + msgs)
    }
}

proof fn lemma_digits_value_prefix(s: Seq<char>, k: int)
    requires
        0 <= k <= s.len(),
        forall|j: int| 0 <= j < s.len() ==> is_digit(#[trigger] s[j]),
    ensures
        digits_value(s.take(k)) <= digits_value(s),
    decreases s.len(),
{
    if k < s.len() {
        assert(s.drop_last().take(k) =~= s.take(k));
        assert forall|j: int| 0 <= j < s.drop_last().len() implies is_digit(
            #[trigger] s.drop_last()[j],
        ) by {
            assert(s.drop_last()[j] == s[j]);
        }
        lemma_digits_value_prefix(s.drop_last(), k);
        assert(is_digit(s.last()));
    } else {
        assert(s.take(k) =~= s);
    }
}

/// `s.parse::<usize>()`, as an `Option`.
pub fn parse_usize(s: &str) -> (r: Option<usize>)
    ensures
        r == parse_usize_spec(s@),
{
    let v = chars_of(s);
    let start: usize = if v.len() > 0 && v[0] == '+' {
        1
    } else {
        0
    };
    let ghost d = v@.skip(start as int);
    proof {
        if start == 1 {
            assert(d =~= s@.drop_first());
        } else {
            assert(d =~= s@);
        }
    }
    if start >= v.len() {
        return None;
    }
    let mut k = start;
    while k < v.len()
        invariant
            start <= k <= v.len(),
            v@ == s@,
            d == v@.skip(start as int),
            d == unsigned_digits(s@),
            forall|j: int| 0 <= j < k - start ==> is_digit(#[trigger] d[j]),
        decreases v.len() - k,
    {
        if !('0' <= v[k] && v[k] <= '9') {
            assert(!is_digit(d[k - start]));
            assert(!all_digits(d));
            return None;
        }
        k = k + 1;
    }
    let mut acc: usize = 0;
    let mut k = start;
    while k < v.len()
        invariant
            start <= k <= v.len(),
            v@ == s@,
            d == v@.skip(start as int),
            d == unsigned_digits(s@),
            forall|j: int| 0 <= j < d.len() ==> is_digit(#[trigger] d[j]),
            acc == digits_value(d.take(k - start)),
        decreases v.len() - k,
    {
        let c = v[k];
        assert(is_digit(d[k - start]));
        let dig = (c as u32 - '0' as u32) as usize;
        let ghost t = d.take(k - start + 1);
        assert(t.drop_last() =~= d.take(k - start));
        assert(t.last() == c);
        match acc.checked_mul(10) {
            Some(m) => match m.checked_add(dig) {
                Some(a) => {
                    acc = a;
                },
                None => {
                    proof {
                        lemma_digits_value_prefix(d, k - start + 1);
                    }
                    return None;
                },
            },
            None => {
                proof {
                    lemma_digits_value_prefix(d, k - start + 1);
                }
                return None;
            },
        }
        k = k + 1;
    }
    assert(d.take(d.len() as int) =~= d);
    Some(acc)
}

/// `s` with every space removed.
pub fn remove_spaces(s: &str) -> (r: Vec<char>)
    ensures
        r@ == no_spaces(s@),
{
    let v = chars_of(s);
    let mut r: Vec<char> = Vec::new();
    let mut k: usize = 0;
    while k < v.len()
        invariant
            k <= v.len(),
            v@ == s@,
            r@ == no_spaces(v@.take(k as int)),
        decreases v.len() - k,
    {
        assert(v@.take(k + 1).drop_last() =~= v@.take(k as int));
        if v[k] != ' ' {
            r.push(v[k]);
        }
        k = k + 1;
    }
    assert(v@.take(v.len() as int) =~= v@);
    r
}

/// Whether the characters `v` spell `-n`.
fn is_n_flag(v: &Vec<char>) -> (r: bool)
    ensures
        r == (v@ == "-n"@),
{
    proof {
        reveal_strlit("-n");
    }
    let r = v.len() == 2 && v[0] == '-' && v[1] == 'n';
    proof {
        if v@ == "-n"@ {
            assert(v@[0] == '-' && v@[1] == 'n');
        }
        if r {
            assert(v@ =~= "-n"@);
        }
    }
    r
}

impl Opt {
    /// Five lines.
    pub fn default() -> (r: Opt)
        ensures
            r.nlines == 5,
    {
        Opt { nlines: 5 }
    }

    /// Reads the options from the command-line arguments `opt` (the first is the
    /// program and is skipped): `-n N` sets the number of lines.  Gives back the
    /// options and the messages about arguments that could not be used.
    pub fn parse(opt: &Vec<String>) -> (r: (Opt, Vec<String>))
        ensures
            r.0.nlines == opts_from(opt.deep_view(), 1, 5).0,
            r.1.deep_view() == opts_from(opt.deep_view(), 1, 5).1,
    {
        let ghost args = opt.deep_view();
        let mut ret = Opt::default();
        let mut msgs: Vec<String> = Vec::new();
        let mut i: usize = 1;
        while i < opt.len()
            invariant
                args == opt.deep_view(),
                1 <= i,
                i <= opt.len() + 1,
                opts_from(args, 1, 5).0 == opts_from(args, i as int, ret.nlines).0,
                opts_from(args, 1, 5).1 == msgs.deep_view() + opts_from(
                    args,
                    i as int,
                    ret.nlines,
                ).1,
            decreases opt.len() + 1 - i,
        {
            let ghost before = msgs.deep_view();
            let ghost n0 = ret.nlines;
            let name = remove_spaces(opt[i].as_str());
            assert(args[i as int] == opt[i as int]@);
            let mut step: usize = 1;
            if is_n_flag(&name) {
                if i + 1 >= opt.len() {
                    msgs.push(String::from_str("args for option -n is not given"));
                    assert(msgs.deep_view() =~= before.push("args for option -n is not given"@));
                } else {
                    assert(args[i + 1] == opt[i + 1 as int]@);
                    match parse_usize(opt[i + 1].as_str()) {
                        Some(n) => {
                            ret.nlines = n;
                            step = 2;
                        },
                        None => {
                            msgs.push(String::from_str("args for option -n must be an integer"));
                            assert(msgs.deep_view() =~= before.push(
                                "args for option -n must be an integer"@,
                            ));
                        },
                    }
                }
            } else {
                let mut m = String::from_str("option ");
                let mut k: usize = 0;
                while k < name.len()
                    invariant
                        k <= name.len(),
                        m@ == "option "@ + name@.take(k as int),
                    decreases name.len() - k,
                {
                    m.push(name[k]);
                    assert(name@.take(k + 1) =~= name@.take(k as int).push(name@[k as int]));
                    k = k + 1;
                }
                assert(name@.take(name.len() as int) =~= name@);
                m.append(" is not supported");
                msgs.push(m);
                assert(msgs.deep_view() =~= before.push(
                    "option "@ + no_spaces(args[i as int]) + " is not supported"@,
                ));
            }
            proof {
                let next = opts_from(args, i + step, ret.nlines);
                if step == 1 {
                    let msg = msgs.deep_view().last();
                    assert(msgs.deep_view() =~= before.push(msg));
                    assert(opts_from(args, i as int, n0) == (next.0, seq![msg] + next.1));
                    assert(before + (seq![msg] + next.1) =~= msgs.deep_view() + next.1);
                } else {
                    assert(opts_from(args, i as int, n0) == next);
                }
            }
            i = i + step;
        }
        (ret, msgs)
    }
}

/// Where the last `nlines` of `total` saved lines begin.
pub fn first_shown(total: usize, nlines: usize) -> (r: usize)
    ensures
        r == (if total > nlines {
            total - nlines
        } else {
            0
        }),
{
    if total > nlines {
        total - nlines
    } else {
        0
    }
}

/// Where the lines kept when the file is written again begin: with at most
/// `MAX_HISTORY` lines, all of them are kept.
pub fn first_kept(total: usize) -> (r: usize)
    requires
        total <= MAX_HISTORY,
    ensures
        r == 0,
{
    if total < MAX_HISTORY {
        0
    } else {
        MAX_HISTORY - total
    }
}

/// Every character of `no_spaces(a)` is a character of `a`.
proof fn lemma_no_spaces_chars(a: Seq<char>)
    ensures
        forall|j: int|
            0 <= j < no_spaces(a).len() ==> exists|k: int|
                0 <= k < a.len() && a[k] == #[trigger] no_spaces(a)[j],
    decreases a.len(),
{
    if a.len() > 0 {
        lemma_no_spaces_chars(a.drop_last());
        let p = a.drop_last();
        assert forall|j: int| 0 <= j < no_spaces(a).len() implies exists|k: int|
            0 <= k < a.len() && a[k] == #[trigger] no_spaces(a)[j] by {
            if j < no_spaces(p).len() {
                assert(no_spaces(a)[j] == no_spaces(p)[j]);
                let k = choose|k: int| 0 <= k < p.len() && p[k] == no_spaces(p)[j];
                assert(a[k] == p[k]);
            } else {
                assert(a[a.len() - 1] == no_spaces(a)[j]);
            }
        }
    }
}

/// An argument that is `-n` once its spaces are removed is no number.
proof fn lemma_flag_is_no_number(a: Seq<char>)
    requires
        no_spaces(a) == "-n"@,
    ensures
        parse_usize_spec(a) is None,
{
    reveal_strlit("-n");
    lemma_no_spaces_chars(a);
    assert(no_spaces(a)[0] == '-');
    let k = choose|k: int| 0 <= k < a.len() && a[k] == no_spaces(a)[0];
    let d = unsigned_digits(a);
    if a.len() > 0 && a[0] == '+' {
        assert(k >= 1);
        assert(d[k - 1] == a[k]);
        assert(!is_digit(d[k - 1]));
    } else {
        assert(d[k] == a[k]);
        assert(!is_digit(d[k]));
    }
}

proof fn lemma_last_n_from(args: Seq<Seq<char>>, i: int, n: usize, k: usize)
    requires
        2 <= args.len(),
        0 <= i <= args.len() - 2,
        no_spaces(args[args.len() - 2]) == "-n"@,
        parse_usize_spec(args[args.len() - 1]) == Some(k),
    ensures
        opts_from(args, i, n).0 == k,
    decreases args.len() - i,
{
    let last = args.len() - 2;
    lemma_flag_is_no_number(args[last]);
    if i < last {
        if no_spaces(args[i]) == "-n"@ {
            if let Some(m) = parse_usize_spec(args[i + 1]) {
                assert(i + 1 != last);
                lemma_last_n_from(args, i + 2, m, k);
            } else {
                lemma_last_n_from(args, i + 1, n, k);
            }
        } else {
            lemma_last_n_from(args, i + 1, n, k);
        }
    } else {
        assert(opts_from(args, i + 2, k) == (k, Seq::<Seq<char>>::empty()));
        assert(opts_from(args, i, n) == opts_from(args, i + 2, k));
    }
}

/// Every `-n N` is read, so the last one wins: when the arguments end with
/// `-n N` for a number `N`, `history` shows `N` lines, whatever comes before.
pub proof fn lemma_last_n_wins(args: Seq<Seq<char>>, k: usize)
    requires
        args.len() >= 3,
        no_spaces(args[args.len() - 2]) == "-n"@,
        parse_usize_spec(args[args.len() - 1]) == Some(k),
    ensures
        opts_from(args, 1, 5).0 == k,
{
    lemma_last_n_from(args, 1, 5, k);
}

/// The message about an argument that is not an option.
pub open spec fn unsupported(a: Seq<char>) -> Seq<char> {
    "option "@ + no_spaces(a) + " is not supported"@
}

proof fn lemma_unknown_options_from(args: Seq<Seq<char>>, i: int, n: usize)
    requires
        0 <= i <= args.len(),
        forall|j: int| i <= j < args.len() ==> no_spaces(#[trigger] args[j]) != "-n"@,
    ensures
        opts_from(args, i, n) == (n, Seq::new(
            (args.len() - i) as nat,
            |j: int| unsupported(args[i + j]),
        )),
    decreases args.len() - i,
{
    if i < args.len() {
        lemma_unknown_options_from(args, i + 1, n);
        assert(no_spaces(args[i]) != "-n"@);
        let rest = Seq::new((args.len() - (i + 1)) as nat, |j: int| unsupported(args[i + 1 + j]));
        assert(seq![unsupported(args[i])] + rest =~= Seq::new(
            (args.len() - i) as nat,
            |j: int| unsupported(args[i + j]),
        ));
    } else {
        assert(Seq::new((args.len() - i) as nat, |j: int| unsupported(args[i + j])) =~= Seq::<
            Seq<char>,
        >::empty());
    }
}

/// When no argument after the program is `-n`, `history` keeps five lines and
/// reports every argument, in order, as an option it does not support.
pub proof fn lemma_unknown_options(args: Seq<Seq<char>>)
    requires
        args.len() >= 1,
        forall|j: int| 1 <= j < args.len() ==> no_spaces(#[trigger] args[j]) != "-n"@,
    ensures
        opts_from(args, 1, 5).0 == 5,
        opts_from(args, 1, 5).1.len() == args.len() - 1,
        forall|j: int|
            1 <= j < args.len() ==> #[trigger] opts_from(args, 1, 5).1[j - 1] == "option "@
                + no_spaces(args[j]) + " is not supported"@,
{
    lemma_unknown_options_from(args, 1, 5);
    assert forall|j: int| 1 <= j < args.len() implies #[trigger] opts_from(args, 1, 5).1[j - 1]
        == "option "@ + no_spaces(args[j]) + " is not supported"@ by {
        assert(1 + (j - 1) == j);
    }
}

} // verus!
