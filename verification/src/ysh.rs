//! The syntax tree of a command line, its abstract value, the built-in commands
//! it may name, and the printer that writes a tree back as text.
use vstd::prelude::*;

verus! {

/// The characters the shell reserves for its operators.
pub const RESERVED_CHARS: &'static str = ";&|<>()";

/// Where the shell keeps the lines it has read.
pub const HISTORY_PATH: &'static str = "./command_history.txt";

/// The commands the shell knows.
pub const VALID_COMMAND: [&'static str; 13] = [
    "mv",
    "expr",
    "date",
    "ls",
    "cat",
    "pwd",
    "ps",
    "echo",
    "cp",
    "mkdir",
    "sleep",
    "sample",
    "history",
];

/// `c` is one of the commands of `VALID_COMMAND`.
pub open spec fn valid_command(c: Seq<char>) -> bool {
    ||| c == "mv"@
    ||| c == "expr"@
    ||| c == "date"@
    ||| c == "ls"@
    ||| c == "cat"@
    ||| c == "pwd"@
    ||| c == "ps"@
    ||| c == "echo"@
    ||| c == "cp"@
    ||| c == "mkdir"@
    ||| c == "sleep"@
    ||| c == "sample"@
    ||| c == "history"@
}

/// What the `Debug` formatting of a `str` writes: the text in double quotes,
/// with its special characters escaped.
pub uninterp spec fn str_debug(s: Seq<char>) -> Seq<char>;

/// A character that `Debug` formatting of a `str` writes as it is: printable
/// ASCII other than `"` and `\`.
pub open spec fn debug_plain(c: char) -> bool {
    ' ' <= c && c <= '~' && c != '"' && c != '\\'
}

/// `format!("{:?}", s)` for a `str`: the result is `str_debug` of `s`, which is
/// `s` in double quotes when all its characters are written as they are.
#[verifier::external_body]
fn debug_str(s: &str) -> (r: String)
    ensures
        r@ == str_debug(s@),
        (forall|k: int| 0 <= k < s@.len() ==> debug_plain(#[trigger] s@[k])) ==> r@ == seq!['"']
            + s@ + seq!['"'],
{
    format!("{:?}", s)
}

/// The entries of a `Debug`-formatted list of strings, separated by `", "`.
pub open spec fn debug_items(a: Seq<Seq<char>>) -> Seq<char>
    decreases a.len(),
{
    if a.len() == 0 {
        seq![]
    } else if a.len() == 1 {
        str_debug(a[0])
    } else {
        debug_items(a.drop_last()) + ", "@ + str_debug(a.last())
    }
}

/// What `format!("{:?}", v)` writes for a `Vec<String>` holding `a`.
pub open spec fn debug_list(a: Seq<Seq<char>>) -> Seq<char> {
    "["@ + debug_items(a) + "]"@
}

/// `format!("{:?}", v)` of a list of strings.
pub fn debug_strings(v: &Vec<String>) -> (r: String)
    ensures
        r@ == debug_list(v.deep_view()),
{
    let mut r = String::from_str("[");
    let mut i: usize = 0;
    while i < v.len()
        invariant
            i <= v.len(),
            r@ == "["@ + debug_items(v.deep_view().take(i as int)),
        decreases v.len() - i,
    {
        let ghost a = v.deep_view();
        let ghost before = r@;
        if i > 0 {
            r.append(", ");
        }
        let d = debug_str(v[i].as_str());
        r.append(d.as_str());
        proof {
            let t = a.take(i + 1);
            assert(t.drop_last() =~= a.take(i as int));
            assert(t.last() == a[i as int]);
            if i == 0 {
                assert(t.len() == 1);
                assert(before =~= "["@ + Seq::<char>::empty());
            }
            assert(r@ =~= "["@ + debug_items(t));
        }
        i = i + 1;
    }
    assert(v.deep_view().take(v.len() as int) =~= v.deep_view());
    r.append("]");
    r
}

/// Whether `a` and `b` hold the same text.
pub fn same_text(a: &str, b: &str) -> (r: bool)
    ensures
        r == (a@ == b@),
{
    let x = crate::text::chars_of(a);
    let y = crate::text::chars_of(b);
    if x.len() != y.len() {
        assert(x@.len() != y@.len());
        return false;
    }
    let mut i: usize = 0;
    while i < x.len()
        invariant
            i <= x.len() == y.len(),
            x@ == a@,
            y@ == b@,
            x@.take(i as int) == y@.take(i as int),
        decreases x.len() - i,
    {
        if x[i] != y[i] {
            proof {
                if x@ == y@ {
                    assert(x@[i as int] == y@[i as int]);
                }
            }
            return false;
        }
        assert(x@.take(i + 1) =~= x@.take(i as int).push(x@[i as int]));
        assert(y@.take(i + 1) =~= y@.take(i as int).push(y@[i as int]));
        i = i + 1;
    }
    assert(x@ =~= x@.take(i as int));
    assert(y@ =~= y@.take(i as int));
    true
}

/// Whether `com` names one of the commands of `VALID_COMMAND`.
pub fn is_valid_command(com: &str) -> (r: bool)
    ensures
        r == valid_command(com@),
{
    same_text(com, "mv") || same_text(com, "expr") || same_text(com, "date") || same_text(com, "ls")
        || same_text(com, "cat") || same_text(com, "pwd") || same_text(com, "ps") || same_text(
        com,
        "echo",
    ) || same_text(com, "cp") || same_text(com, "mkdir") || same_text(com, "sleep") || same_text(
        com,
        "sample",
    ) || same_text(com, "history")
}

/// A copy of a list of strings.
pub fn copy_strings(v: &Vec<String>) -> (r: Vec<String>)
    ensures
        r.deep_view() == v.deep_view(),
{
    let mut r: Vec<String> = Vec::new();
    let mut i: usize = 0;
    while i < v.len()
        invariant
            i <= v.len(),
            r.deep_view() == v.deep_view().take(i as int),
        decreases v.len() - i,
    {
        let s = v[i].clone();
        let ghost before = r.deep_view();
        r.push(s);
        assert(r.deep_view() =~= before.push(v.deep_view()[i as int]));
        assert(v.deep_view().take(i + 1) =~= v.deep_view().take(i as int).push(
            v.deep_view()[i as int],
        ));
        i = i + 1;
    }
    assert(v.deep_view().take(v.len() as int) =~= v.deep_view());
    r
}

/// A command of the shell: something that can describe itself.
pub trait Command {
    /// The name the command is written with.
    spec fn name_text(&self) -> Seq<char>;

    /// The text of its description for debugging.
    spec fn debug_text(&self) -> Seq<char>;

    /// A description of the command for debugging.
    fn debug(&self) -> (r: String)
        ensures
            r@ == self.debug_text(),
    ;

    /// The command as it is written in a command line.
    fn to_string(&self) -> (r: String)
        ensures
            r@ == self.name_text(),
    ;
}

/// A built-in command with its arguments.
pub struct MyCommand {
    com: String,
    args: Vec<String>,
}

impl View for MyCommand {
    type V = (Seq<char>, Seq<Seq<char>>);

    closed spec fn view(&self) -> (Seq<char>, Seq<Seq<char>>) {
        (self.com@, self.args.deep_view())
    }
}

impl MyCommand {
    /// A command named `com` with arguments `args`, if `com` is a built-in command.
    pub fn new(com: String, args: Vec<String>) -> (r: Result<MyCommand, String>)
        ensures
            r matches Ok(c) ==> valid_command(com@) && c@ == (com@, args.deep_view()),
            r matches Err(e) ==> !valid_command(com@) && e@ == com@ + "(arg:"@ + debug_list(
                args.deep_view(),
            ) + ") this is not a built in command"@,
    {
        if is_valid_command(com.as_str()) {
            Ok(MyCommand { com, args })
        } else {
            let mut e = com.clone();
            e.append("(arg:");
            let d = debug_strings(&args);
            e.append(d.as_str());
            e.append(") this is not a built in command");
            Err(e)
        }
    }

    /// The name of the command.
    pub fn com(&self) -> (r: &String)
        ensures
            r@ == self@.0,
    {
        &self.com
    }

    /// The arguments of the command.
    pub fn args(&self) -> (r: &Vec<String>)
        ensures
            r.deep_view() == self@.1,
    {
        &self.args
    }
}

impl Command for MyCommand {
    open spec fn name_text(&self) -> Seq<char> {
        self@.0
    }

    open spec fn debug_text(&self) -> Seq<char> {
        "MyCom["@ + self@.0 + ","@ + debug_list(self@.1) + "]"@
    }

    fn debug(&self) -> (r: String) {
        let mut r = String::from_str("MyCom[");
        r.append(self.com.as_str());
        r.append(",");
        let d = debug_strings(&self.args);
        r.append(d.as_str());
        r.append("]");
        r
    }

    fn to_string(&self) -> (r: String) {
        self.com.clone()
    }
}

/// The abstract value of a command line: commands, how they are combined, and
/// the files their input and output are redirected to.
pub enum YshV {
    /// A command name with its arguments.
    Command(Seq<char>, Seq<Seq<char>>),
    /// `A ; B`
    Sequence(Box<YshV>, Box<YshV>),
    /// `A && B`
    And(Box<YshV>, Box<YshV>),
    /// `A || B`
    Or(Box<YshV>, Box<YshV>),
    /// `A | B`
    Pipe(Box<YshV>, Box<YshV>),
    /// `A < file`
    In(Box<YshV>, Seq<char>),
    /// `A > file`
    Out(Box<YshV>, Seq<char>),
    /// `(A)`
    Sub(Box<YshV>),
}

/// A parsed command line.
pub enum Ysh {
    Command(MyCommand),
    Sequence(Box<Ysh>, Box<Ysh>),  // A; B
    And(Box<Ysh>, Box<Ysh>),  // A && B
    Or(Box<Ysh>, Box<Ysh>),  // A || B
    Pipe(Box<Ysh>, Box<Ysh>),  // A | B
    In(Box<Ysh>, String),  // A < file
    Out(Box<Ysh>, String),  // A > file
    Sub(Box<Ysh>),  // (A)
}

/// The abstract value of a tree.
pub open spec fn ysh_view(y: Ysh) -> YshV
    decreases y,
{
    match y {
        Ysh::Command(c) => YshV::Command(c@.0, c@.1),
        Ysh::Sequence(l, r) => YshV::Sequence(Box::new(ysh_view(*l)), Box::new(ysh_view(*r))),
        Ysh::And(l, r) => YshV::And(Box::new(ysh_view(*l)), Box::new(ysh_view(*r))),
        Ysh::Or(l, r) => YshV::Or(Box::new(ysh_view(*l)), Box::new(ysh_view(*r))),
        Ysh::Pipe(l, r) => YshV::Pipe(Box::new(ysh_view(*l)), Box::new(ysh_view(*r))),
        Ysh::In(l, f) => YshV::In(Box::new(ysh_view(*l)), f@),
        Ysh::Out(l, f) => YshV::Out(Box::new(ysh_view(*l)), f@),
        Ysh::Sub(y) => YshV::Sub(Box::new(ysh_view(*y))),
    }
}

impl View for Ysh {
    type V = YshV;

    open spec fn view(&self) -> YshV {
        ysh_view(*self)
    }
}

/// The text of a tree: commands by their names alone (their arguments are not
/// written), operators and redirections between spaces, groups as ` (A) `.
pub open spec fn print(y: YshV) -> Seq<char>
    decreases y,
{
    match y {
        YshV::Command(c, _) => c,
        YshV::Sequence(l, r) => print(*l) + seq![' ', ';', ' '] + print(*r),
        YshV::And(l, r) => print(*l) + seq![' ', '&', '&', ' '] + print(*r),
        YshV::Or(l, r) => print(*l) + seq![' ', '|', '|', ' '] + print(*r),
        YshV::Pipe(l, r) => print(*l) + seq![' ', '|', ' '] + print(*r),
        YshV::In(l, f) => print(*l) + seq![' ', '<', ' '] + f,
        YshV::Out(l, f) => print(*l) + seq![' ', '>', ' '] + f,
        YshV::Sub(z) => seq![' ', '('] + print(*z) + seq![')', ' '],
    }
}

/// The tree drawn one node per line, each line led by `pre` and then by `--`
/// for every level below the root: commands as their debug text, operators by
/// their names, redirections with their file on a line of its own.
pub open spec fn debug_at(y: YshV, pre: Seq<char>) -> Seq<char>
    decreases y,
{
    let deeper = pre + "--"@;
    match y {
        YshV::Command(c, a) => pre + ("MyCom["@ + c + ","@ + debug_list(a) + "]"@) + seq!['\n'],
        YshV::Sequence(l, r) => pre + "Seq\n"@ + debug_at(*l, deeper) + debug_at(*r, deeper),
        YshV::And(l, r) => pre + "And\n"@ + debug_at(*l, deeper) + debug_at(*r, deeper),
        YshV::Or(l, r) => pre + "Or\n"@ + debug_at(*l, deeper) + debug_at(*r, deeper),
        YshV::Pipe(l, r) => pre + "Pipe\n"@ + debug_at(*l, deeper) + debug_at(*r, deeper),
        YshV::In(l, f) => pre + "In\n"@ + debug_at(*l, deeper) + deeper + f + seq!['\n'],
        YshV::Out(l, f) => pre + "Out\n"@ + debug_at(*l, deeper) + deeper + f + seq!['\n'],
        YshV::Sub(z) => pre + "Sub\n"@ + debug_at(*z, deeper),
    }
}

/// Appends the drawing of `y`, with every line led by `pre`, to `out`.
fn debug_into(y: &Ysh, pre: &String, out: &mut String)
    ensures
        final(out)@ == old(out)@ + debug_at(y@, pre@),
    decreases y,
{
    let ghost start = out@;
    out.append(pre.as_str());
    let mut deeper = pre.clone();
    deeper.append("--");
    match y {
        Ysh::Command(c) => {
            let d = c.debug();
            out.append(d.as_str());
            out.push('\n');
            assert(out@ =~= start + debug_at(y@, pre@));
        },
        Ysh::Sequence(l, r) => {
            out.append("Seq\n");
            debug_into(l, &deeper, out);
            debug_into(r, &deeper, out);
            assert(out@ =~= start + debug_at(y@, pre@));
        },
        Ysh::And(l, r) => {
            out.append("And\n");
            debug_into(l, &deeper, out);
            debug_into(r, &deeper, out);
            assert(out@ =~= start + debug_at(y@, pre@));
        },
        Ysh::Or(l, r) => {
            out.append("Or\n");
            debug_into(l, &deeper, out);
            debug_into(r, &deeper, out);
            assert(out@ =~= start + debug_at(y@, pre@));
        },
        Ysh::Pipe(l, r) => {
            out.append("Pipe\n");
            debug_into(l, &deeper, out);
            debug_into(r, &deeper, out);
            assert(out@ =~= start + debug_at(y@, pre@));
        },
        Ysh::In(l, f) => {
            out.append("In\n");
            debug_into(l, &deeper, out);
            out.append(deeper.as_str());
            out.append(f.as_str());
            out.push('\n');
            assert(out@ =~= start + debug_at(y@, pre@));
        },
        Ysh::Out(l, f) => {
            out.append("Out\n");
            debug_into(l, &deeper, out);
            out.append(deeper.as_str());
            out.append(f.as_str());
            out.push('\n');
            assert(out@ =~= start + debug_at(y@, pre@));
        },
        Ysh::Sub(z) => {
            out.append("Sub\n");
            debug_into(z, &deeper, out);
            assert(out@ =~= start + debug_at(y@, pre@));
        },
    }
}

/// `l`, then `mid`, then `r`, as one string.
fn join3(l: String, mid: &str, r: &str) -> (s: String)
    ensures
        s@ == l@ + mid@ + r@,
{
    let mut s = l;
    s.append(mid);
    s.append(r);
    s
}

impl Ysh {
    /// The tree drawn for debugging, one node per line, indented by its depth.
    pub fn debug(&self) -> (r: String)
        ensures
            r@ == debug_at(self@, seq![]),
    {
        let mut out = String::new();
        let pre = String::new();
        debug_into(self, &pre, &mut out);
        assert(out@ =~= debug_at(self@, seq![]));
        out
    }

    /// The tree written as a command line.
    pub fn to_string(&self) -> (r: String)
        ensures
            r@ == print(self@),
        decreases self,
    {
        proof {
            reveal_strlit(" ; ");
            reveal_strlit(" && ");
            reveal_strlit(" || ");
            reveal_strlit(" | ");
            reveal_strlit(" < ");
            reveal_strlit(" > ");
            reveal_strlit(" (");
            reveal_strlit(") ");
        }
        match self {
            Ysh::Command(c) => c.to_string(),
            Ysh::Sequence(l, r) => join3(l.to_string(), " ; ", r.to_string().as_str()),
            Ysh::And(l, r) => join3(l.to_string(), " && ", r.to_string().as_str()),
            Ysh::Or(l, r) => join3(l.to_string(), " || ", r.to_string().as_str()),
            Ysh::Pipe(l, r) => join3(l.to_string(), " | ", r.to_string().as_str()),
            Ysh::In(l, r) => join3(l.to_string(), " < ", r.as_str()),
            Ysh::Out(l, r) => join3(l.to_string(), " > ", r.as_str()),
            Ysh::Sub(y) => join3(String::from_str(" ("), y.to_string().as_str(), ") "),
        }
    }
}

/// A command tree for `com` with arguments `args`, if `com` is a built-in command.
pub fn y_com(com: &str, args: &Vec<String>) -> (r: Result<Ysh, String>)
    ensures
        r matches Ok(y) ==> valid_command(com@) && y@ == YshV::Command(com@, args.deep_view()),
        r matches Err(e) ==> !valid_command(com@) && e@ == com@ + "(args:"@ + debug_list(
            args.deep_view(),
        ) + ") is not a valid command"@,
{
    if let Ok(y) = MyCommand::new(String::from_str(com), copy_strings(args)) {
        Ok(Ysh::Command(y))
    } else {
        let mut e = String::from_str(com);
        e.append("(args:");
        let d = debug_strings(args);
        e.append(d.as_str());
        e.append(") is not a valid command");
        Err(e)
    }
}

/// `l ; r`
pub fn y_seq(l: Ysh, r: Ysh) -> (y: Ysh)
    ensures
        y@ == YshV::Sequence(Box::new(l@), Box::new(r@)),
{
    Ysh::Sequence(Box::new(l), Box::new(r))
}

/// `l && r`
pub fn y_and(l: Ysh, r: Ysh) -> (y: Ysh)
    ensures
        y@ == YshV::And(Box::new(l@), Box::new(r@)),
{
    Ysh::And(Box::new(l), Box::new(r))
}

/// `l || r`
pub fn y_or(l: Ysh, r: Ysh) -> (y: Ysh)
    ensures
        y@ == YshV::Or(Box::new(l@), Box::new(r@)),
{
    Ysh::Or(Box::new(l), Box::new(r))
}

/// `l | r`
pub fn y_pipe(l: Ysh, r: Ysh) -> (y: Ysh)
    ensures
        y@ == YshV::Pipe(Box::new(l@), Box::new(r@)),
{
    Ysh::Pipe(Box::new(l), Box::new(r))
}

/// `l < s`
pub fn y_in(l: Ysh, s: &str) -> (y: Ysh)
    ensures
        y@ == YshV::In(Box::new(l@), s@),
{
    Ysh::In(Box::new(l), String::from_str(s))
}

/// `l > s`
pub fn y_out(l: Ysh, s: &str) -> (y: Ysh)
    ensures
        y@ == YshV::Out(Box::new(l@), s@),
{
    Ysh::Out(Box::new(l), String::from_str(s))
}

/// `(y)`
pub fn y_sub(y: Ysh) -> (r: Ysh)
    ensures
        r@ == YshV::Sub(Box::new(y@)),
{
    Ysh::Sub(Box::new(y))
}

/// The built-in commands are exactly the names listed in `VALID_COMMAND`: a
/// command tree is built for a name if and only if the list holds it.
pub proof fn lemma_valid_command_listed(c: Seq<char>)
    ensures
        valid_command(c) <==> exists|i: int| 0 <= i < 13 && c == (#[trigger] VALID_COMMAND[i])@,
{
}

/// The name of the node at the root of a tree, as its drawing writes it on the
/// first line.
pub open spec fn node_label(y: YshV) -> Seq<char> {
    match y {
        YshV::Command(c, a) => "MyCom["@ + c + ","@ + debug_list(a) + "]"@,
        YshV::Sequence(_, _) => "Seq"@,
        YshV::And(_, _) => "And"@,
        YshV::Or(_, _) => "Or"@,
        YshV::Pipe(_, _) => "Pipe"@,
        YshV::In(_, _) => "In"@,
        YshV::Out(_, _) => "Out"@,
        YshV::Sub(_) => "Sub"@,
    }
}

/// The drawing of a tree begins with a line that holds the prefix and the name
/// of the root node: `Out` for an output redirection, `In` for an input one,
/// `Seq`, `And`, `Or`, `Pipe`, `Sub`, or the command's debug text.
pub proof fn lemma_debug_first_line(y: YshV, pre: Seq<char>)
    ensures
        debug_at(y, pre).len() >= pre.len() + node_label(y).len() + 1,
        debug_at(y, pre).take((pre.len() + node_label(y).len() + 1) as int) == pre + node_label(y)
            + seq!['\n'],
{
    reveal_strlit("Seq\n");
    reveal_strlit("And\n");
    reveal_strlit("Or\n");
    reveal_strlit("Pipe\n");
    reveal_strlit("In\n");
    reveal_strlit("Out\n");
    reveal_strlit("Sub\n");
    reveal_strlit("Seq");
    reveal_strlit("And");
    reveal_strlit("Or");
    reveal_strlit("Pipe");
    reveal_strlit("In");
    reveal_strlit("Out");
    reveal_strlit("Sub");
    let d = debug_at(y, pre);
    let head = pre + node_label(y) + seq!['\n'];
    assert(d =~= head + d.skip(head.len() as int));
    assert(d.take(head.len() as int) =~= head);
}

} // verus!

