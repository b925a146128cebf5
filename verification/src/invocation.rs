use vstd::prelude::*;

use crate::text::{
    char_is_alphanumeric, chars_of, copy_str, is_alphanumeric, lines, push_char, split_lines,
    string_of, trim, trimmed, views,
};

verus! {

/// A fully-resolved command line.
///
/// Arguments are kept as a list and handed to the OS untouched. Nothing here is
/// ever re-parsed by a shell, so package names containing spaces, quotes or
/// glob characters cannot change the shape of the command.
#[derive(Debug)]
pub struct Invocation {
    pub program: String,
    pub args: Vec<String>,
    /// Escalate with `sudo` (or `$MPM_SUDO`) before running.
    pub needs_root: bool,
}

pub struct InvocationView {
    pub program: Seq<char>,
    pub args: Seq<Seq<char>>,
    pub needs_root: bool,
}

pub open spec fn texts(v: Seq<String>) -> Seq<Seq<char>> {
    v.map_values(|s: String| s@)
}

pub open spec fn str_texts(v: Seq<&str>) -> Seq<Seq<char>> {
    v.map_values(|s: &str| s@)
}

impl View for Invocation {
    type V = InvocationView;

    open spec fn view(&self) -> InvocationView {
        InvocationView { program: self.program@, args: texts(self.args@), needs_root: self.needs_root }
    }
}

pub open spec fn invocation_views(v: Seq<Invocation>) -> Seq<InvocationView> {
    v.map_values(|i: Invocation| i@)
}

/// A copy of a list of strings.
pub fn clone_strings(v: &[String]) -> (r: Vec<String>)
    ensures
        texts(r@) == texts(v@),
{
    let mut r: Vec<String> = Vec::new();
    let mut i: usize = 0;
    while i < v.len()
        invariant
            i <= v.len(),
            texts(r@) == texts(v@).take(i as int),
        decreases v.len() - i,
    {
        let x = v[i].clone();
        let ghost before = r@;
        r.push(x);
        assert(texts(r@) =~= texts(before).push(x@));
        assert(texts(v@).take(i + 1) =~= texts(v@).take(i as int).push(v@[i as int]@));
        i += 1;
    }
    assert(texts(v@).take(i as int) =~= texts(v@));
    r
}

/// Owned copies of a list of string slices.
pub fn owned_strings(v: &[&str]) -> (r: Vec<String>)
    ensures
        texts(r@) == str_texts(v@),
{
    let mut r: Vec<String> = Vec::new();
    let mut i: usize = 0;
    while i < v.len()
        invariant
            i <= v.len(),
            texts(r@) == str_texts(v@).take(i as int),
        decreases v.len() - i,
    {
        let x = copy_str(v[i]);
        let ghost before = r@;
        r.push(x);
        assert(texts(r@) =~= texts(before).push(x@));
        assert(str_texts(v@).take(i + 1) =~= str_texts(v@).take(i as int).push(v@[i as int]@));
        i += 1;
    }
    assert(str_texts(v@).take(i as int) =~= str_texts(v@));
    r
}

impl Clone for Invocation {
    fn clone(&self) -> (r: Self)
        ensures
            r@ == self@,
    {
        Invocation {
            program: self.program.clone(),
            args: clone_strings(&self.args),
            needs_root: self.needs_root,
        }
    }
}

/// Whether a program is found on `$PATH`, as `which::which` finds it. What is
/// installed where is the machine's business, so nothing is promised about
/// the answer.
#[verifier::external_body]
pub(crate) fn on_path(name: &str) -> bool {
    which::which(name).is_ok()
}

/// The privilege elevator named by a `$MPM_SUDO` setting: `sudo` when unset.
pub open spec fn elevator_name(setting: Option<Seq<char>>) -> Seq<char> {
    match setting {
        Some(value) => trim(value),
        None => "sudo"@,
    }
}

/// The elevator a setting selects, `found` saying whether that program is on
/// `$PATH`: none when the name is empty or not found.
pub open spec fn elevator_choice(setting: Option<Seq<char>>, found: bool) -> Option<Seq<char>> {
    if elevator_name(setting).len() == 0 || !found {
        None
    } else {
        Some(elevator_name(setting))
    }
}

fn elevator_name_of(setting: Option<&str>) -> (r: String)
    ensures
        r@ == elevator_name(setting.deep_view()),
{
    match setting {
        Some(value) => {
            let t = trimmed(&chars_of(value));
            let s = string_of(&t, 0, t.len());
            assert(t@.subrange(0, t@.len() as int) =~= t@);
            s
        },
        None => copy_str("sudo"),
    }
}

/// The elevator to use, given whether the program the setting names was
/// found on `$PATH`.
pub fn elevator_found(setting: Option<&str>, found: bool) -> (r: Option<String>)
    ensures
        r.deep_view() == elevator_choice(setting.deep_view(), found),
{
    let name = elevator_name_of(setting);
    if name.as_str().unicode_len() == 0 || !found {
        None
    } else {
        Some(name)
    }
}

/// The privilege elevator to use, or `None` to run directly.
///
/// `setting` is the value of `$MPM_SUDO`, if set: it selects an alternative
/// (`doas`, `run0`); setting it empty opts out of escalation entirely. An
/// elevator that is not on `$PATH` is not used; whether it is, is the
/// machine's answer.
pub fn elevator(setting: Option<&str>) -> (r: Option<String>)
    ensures
        exists|found: bool| r.deep_view() == elevator_choice(setting.deep_view(), found),
        elevator_name(setting.deep_view()).len() == 0 ==> r is None,
        r matches Some(name) ==> name@ == elevator_name(setting.deep_view()),
{
    let name = elevator_name_of(setting);
    if name.as_str().unicode_len() == 0 {
        let r = elevator_found(setting, false);
        return r;
    }
    let found = on_path(name.as_str());
    elevator_found(setting, found)
}

/// The program and arguments actually executed, given the elevator in use.
pub open spec fn resolved(inv: InvocationView, elevator: Option<Seq<char>>) -> (Seq<char>, Seq<Seq<char>>) {
    match elevator {
        Some(e) if inv.needs_root => (e, seq![inv.program] + inv.args),
        _ => (inv.program, inv.args),
    }
}

/// Whether a character may appear unquoted in a shell word.
pub open spec fn plain_char(c: char) -> bool {
    is_alphanumeric(c) || c == '-' || c == '_' || c == '.' || c == '/' || c == '=' || c == '@'
        || c == ':' || c == '+' || c == ','
}

pub open spec fn all_plain(t: Seq<char>) -> bool {
    forall|i: int| 0 <= i < t.len() ==> plain_char(#[trigger] t[i])
}

/// `t` with every `'` spelled `'\''`, so it can sit inside single quotes.
pub open spec fn escape_quotes(t: Seq<char>) -> Seq<char>
    decreases t.len(),
{
    if t.len() == 0 {
        seq![]
    } else {
        let rest = escape_quotes(t.drop_last());
        if t.last() == '\'' {
            rest + seq!['\'', '\\', '\'', '\'']
        } else {
            rest.push(t.last())
        }
    }
}

/// A word quoted well enough to be pasted into a shell.
pub open spec fn quoted(t: Seq<char>) -> Seq<char> {
    if t.len() > 0 && all_plain(t) {
        t
    } else {
        seq!['\''] + escape_quotes(t) + seq!['\'']
    }
}

fn is_plain(c: char) -> (r: bool)
    ensures
        r == plain_char(c),
{
    char_is_alphanumeric(c) || c == '-' || c == '_' || c == '.' || c == '/' || c == '=' || c == '@'
        || c == ':' || c == '+' || c == ','
}

pub fn quote(text: &str) -> (r: String)
    ensures
        r@ == quoted(text@),
{
    let chars = chars_of(text);
    let mut safe = chars.len() > 0;
    let mut i: usize = 0;
    while i < chars.len()
        invariant
            i <= chars.len(),
            chars@ == text@,
            safe == (chars.len() > 0 && forall|k: int| 0 <= k < i ==> plain_char(#[trigger] chars@[k])),
        decreases chars.len() - i,
    {
        safe = safe && is_plain(chars[i]);
        i += 1;
    }
    if safe {
        return copy_str(text);
    }
    let mut out = String::new();
    push_char(&mut out, '\'');
    let mut j: usize = 0;
    while j < chars.len()
        invariant
            j <= chars.len(),
            chars@ == text@,
            out@ == seq!['\''] + escape_quotes(chars@.take(j as int)),
        decreases chars.len() - j,
    {
        let c = chars[j];
        assert(chars@.take(j + 1).drop_last() =~= chars@.take(j as int));
        assert(chars@.take(j + 1).last() == c);
        if c == '\'' {
            push_char(&mut out, '\'');
            push_char(&mut out, '\\');
            push_char(&mut out, '\'');
            push_char(&mut out, '\'');
        } else {
            push_char(&mut out, c);
        }
        j += 1;
        assert(out@ =~= seq!['\''] + escape_quotes(chars@.take(j as int)));
    }
    assert(chars@.take(j as int) =~= chars@);
    push_char(&mut out, '\'');
    out
}

/// The rendering of a command line: each word quoted, separated by spaces.
pub open spec fn command_line(program: Seq<char>, args: Seq<Seq<char>>) -> Seq<char>
    decreases args.len(),
{
    if args.len() == 0 {
        quoted(program)
    } else {
        command_line(program, args.drop_last()) + seq![' '] + quoted(args.last())
    }
}

impl Invocation {
    pub fn new(program: &str) -> (r: Self)
        ensures
            r@ == (InvocationView { program: program@, args: seq![], needs_root: false }),
    {
        let r = Invocation { program: copy_str(program), args: Vec::new(), needs_root: false };
        assert(texts(r.args@) =~= Seq::<Seq<char>>::empty());
        r
    }

    pub fn arg(self, arg: &str) -> (r: Self)
        ensures
            r@ == (InvocationView { args: self@.args.push(arg@), ..self@ }),
    {
        let Invocation { program, mut args, needs_root } = self;
        let ghost before = args@;
        args.push(copy_str(arg));
        assert(texts(args@) =~= texts(before).push(arg@));
        Invocation { program, args, needs_root }
    }

    pub fn args(self, more: &[&str]) -> (r: Self)
        ensures
            r@ == (InvocationView { args: self@.args + str_texts(more@), ..self@ }),
    {
        self.extend(owned_strings(more))
    }

    /// Append owned arguments.
    pub fn extend(self, more: Vec<String>) -> (r: Self)
        ensures
            r@ == (InvocationView { args: self@.args + texts(more@), ..self@ }),
    {
        let Invocation { program, mut args, needs_root } = self;
        let ghost before = args@;
        let ghost added = more@;
        let mut more = more;
        args.append(&mut more);
        assert(texts(args@) =~= texts(before) + texts(added)) by {
            assert(args@ == before + added);
        };
        Invocation { program, args, needs_root }
    }

    pub fn as_root(self) -> (r: Self)
        ensures
            r@ == (InvocationView { needs_root: true, ..self@ }),
    {
        let Invocation { program, args, needs_root: _ } = self;
        Invocation { program, args, needs_root: true }
    }

    /// The program and arguments actually executed, given the elevator in use.
    ///
    /// When already running as root the elevator is still used if present;
    /// `sudo` is a no-op passthrough for root, so this needs no uid check.
    pub fn resolve(&self, elevator: &Option<String>) -> (r: (String, Vec<String>))
        ensures
            (r.0@, texts(r.1@)) == resolved(self@, elevator.deep_view()),
    {
        if self.needs_root {
            if let Some(elevator) = elevator {
                let mut args: Vec<String> = Vec::new();
                args.push(self.program.clone());
                let mut rest = clone_strings(&self.args);
                let ghost head = args@;
                let ghost tail = rest@;
                args.append(&mut rest);
                assert(texts(args@) =~= seq![self.program@] + texts(self.args@)) by {
                    assert(args@ == head + tail);
                    assert(texts(head) =~= seq![self.program@]);
                };
                return (elevator.clone(), args);
            }
        }
        (self.program.clone(), clone_strings(&self.args))
    }

    /// Human-readable rendering, quoted well enough to be pasted into a shell.
    pub fn display(&self, elevator: &Option<String>) -> (r: String)
        ensures
            r@ == command_line(resolved(self@, elevator.deep_view()).0, resolved(self@, elevator.deep_view()).1),
    {
        let (program, args) = self.resolve(elevator);
        let mut out = quote(program.as_str());
        let mut i: usize = 0;
        while i < args.len()
            invariant
                i <= args.len(),
                out@ == command_line(program@, texts(args@).take(i as int)),
            decreases args.len() - i,
        {
            push_char(&mut out, ' ');
            let q = quote(args[i].as_str());
            out.append(q.as_str());
            assert(texts(args@).take(i + 1).drop_last() =~= texts(args@).take(i as int));
            assert(texts(args@).take(i + 1).last() == args@[i as int]@);
            i += 1;
        }
        assert(texts(args@).take(i as int) =~= texts(args@));
        out
    }
}

/// The last non-blank line of `s`, trimmed.
pub open spec fn last_nonblank(ls: Seq<Seq<char>>) -> Option<Seq<char>>
    decreases ls.len(),
{
    if ls.len() == 0 {
        None
    } else if trim(ls.last()).len() > 0 {
        Some(trim(ls.last()))
    } else {
        last_nonblank(ls.drop_last())
    }
}

/// What a failing command is summarised by.
pub open spec fn complaint(stderr: Seq<char>) -> Seq<char> {
    match last_nonblank(lines(stderr)) {
        Some(line) => line,
        None => "no output on stderr"@,
    }
}

/// The most specific line a failing command wrote to stderr.
///
/// Tools put warnings first and the real complaint last, so without this the
/// reason a manager could not be read is thrown away.
pub fn last_line(stderr: &str) -> (r: String)
    ensures
        r@ == complaint(stderr@),
{
    let all = split_lines(&chars_of(stderr));
    let mut i = all.len();
    assert(views(all@).take(i as int) =~= views(all@));
    while i > 0
        invariant
            i <= all.len(),
            views(all@) == lines(stderr@),
            last_nonblank(lines(stderr@)) == last_nonblank(views(all@).take(i as int)),
        decreases i,
    {
        let t = trimmed(&all[i - 1]);
        assert(views(all@).take(i as int).last() == all@[i - 1]@);
        assert(views(all@).take(i as int).drop_last() =~= views(all@).take(i - 1));
        if t.len() > 0 {
            let r = string_of(&t, 0, t.len());
            assert(t@.subrange(0, t@.len() as int) =~= t@);
            return r;
        }
        i -= 1;
    }
    copy_str("no output on stderr")
}

} // verus!
