use vstd::prelude::*;

use crate::manifest::grammar::{
    PackageSpec, PackageView, SpecError, SpecErrorView, comment_of, declaration_of, line_outcome,
    parse_line, parse_manifest_line, spec_error_text, spec_text, split_comment,
};
use crate::text::{
    chars_of, copy_str, decimal, decimal_string, lines, push_char, split_lines, str_eq, string_of,
    trim_end, trim_end_len, views,
};

verus! {

/// One physical line, kept verbatim so comments, spacing and ordering survive
/// an edit. Anything mpm does not understand is passed through untouched.
#[derive(Debug)]
enum Line {
    Other(String),
    Declared { spec: PackageSpec, raw: String },
}

/// What a line holds: its text, and the package it declares if it declares one.
pub enum LineView {
    Other(Seq<char>),
    Declared(PackageView, Seq<char>),
}

pub open spec fn raw_of(l: LineView) -> Seq<char> {
    match l {
        LineView::Other(raw) => raw,
        LineView::Declared(_, raw) => raw,
    }
}

impl Line {
    closed spec fn view(&self) -> LineView {
        match self {
            Line::Other(raw) => LineView::Other(raw@),
            Line::Declared { spec, raw } => LineView::Declared(spec@, raw@),
        }
    }

    fn raw(&self) -> (r: &str)
        ensures
            r@ == raw_of(self.view()),
    {
        match self {
            Line::Other(raw) => raw.as_str(),
            Line::Declared { raw, .. } => raw.as_str(),
        }
    }

    fn duplicate(&self) -> (r: Line)
        ensures
            r.view() == self.view(),
    {
        match self {
            Line::Other(raw) => Line::Other(raw.clone()),
            Line::Declared { spec, raw } => Line::Declared { spec: spec.clone(), raw: raw.clone() },
        }
    }
}

closed spec fn line_views(v: Seq<Line>) -> Seq<LineView> {
    v.map_values(|l: Line| l.view())
}

/// A single manifest layer, read from `path`.
#[derive(Debug)]
pub struct ManifestFile {
    path: String,
    existed: bool,
    lines: Vec<Line>,
}

pub struct ManifestView {
    pub path: Seq<char>,
    pub existed: bool,
    pub lines: Seq<LineView>,
}

impl View for ManifestFile {
    type V = ManifestView;

    closed spec fn view(&self) -> ManifestView {
        ManifestView { path: self.path@, existed: self.existed, lines: line_views(self.lines@) }
    }
}

/// The lines of a manifest, or the first one that cannot be read: its index
/// and why.
pub open spec fn read_lines(ls: Seq<Seq<char>>) -> Result<Seq<LineView>, (int, SpecErrorView)>
    decreases ls.len(),
{
    if ls.len() == 0 {
        Ok(seq![])
    } else {
        match read_lines(ls.drop_last()) {
            Err(e) => Err(e),
            Ok(prev) => match parse_manifest_line(ls.last()) {
                Err(e) => Err((ls.len() - 1, e)),
                Ok(None) => Ok(prev.push(LineView::Other(ls.last()))),
                Ok(Some(p)) => Ok(prev.push(LineView::Declared(p, ls.last()))),
            },
        }
    }
}

/// The packages a manifest declares, in file order.
pub open spec fn declared_specs(ls: Seq<LineView>) -> Seq<PackageView>
    decreases ls.len(),
{
    if ls.len() == 0 {
        seq![]
    } else {
        let rest = declared_specs(ls.drop_last());
        match ls.last() {
            LineView::Declared(p, _) => rest.push(p),
            LineView::Other(_) => rest,
        }
    }
}

/// Whether line `l` declares the package named `name`.
pub open spec fn declares_name(l: LineView, name: Seq<char>) -> bool {
    match l {
        LineView::Declared(p, _) => p.name == name,
        LineView::Other(_) => false,
    }
}

/// The first line declaring `name` at or after `i`, or the number of lines.
pub open spec fn first_declaring(ls: Seq<LineView>, name: Seq<char>, i: int) -> int
    decreases ls.len() - i,
{
    if i < 0 || i >= ls.len() || declares_name(ls[i], name) {
        i
    } else {
        first_declaring(ls, name, i + 1)
    }
}

/// The whitespace between a line's declaration and its comment.
pub open spec fn gap_of(raw: Seq<char>) -> Seq<char> {
    let d = declaration_of(raw);
    d.subrange(trim_end(d).len() as int, d.len() as int)
}

/// A line rewritten to declare `spec`, keeping its comment in its column.
pub open spec fn rewritten(raw: Seq<char>, spec: PackageView) -> Seq<char> {
    match comment_of(raw) {
        Some(c) => spec_text(spec) + gap_of(raw) + c,
        None => spec_text(spec),
    }
}

/// Declaring `wanted`: a no-op when it is already declared exactly so, a
/// rewrite of the first line that declares its name otherwise, and a new last
/// line when nothing declares it.
pub open spec fn declare_lines(ls: Seq<LineView>, wanted: PackageView) -> (Seq<LineView>, bool) {
    let i = first_declaring(ls, wanted.name, 0);
    if 0 <= i < ls.len() {
        match ls[i] {
            LineView::Declared(p, raw) => if p == wanted {
                (ls, false)
            } else {
                (ls.update(i, LineView::Declared(wanted, rewritten(raw, wanted))), true)
            },
            LineView::Other(_) => (ls, false),
        }
    } else {
        (ls.push(LineView::Declared(wanted, spec_text(wanted))), true)
    }
}

/// The lines that do not declare `name`, in order.
pub open spec fn without_name(ls: Seq<LineView>, name: Seq<char>) -> Seq<LineView>
    decreases ls.len(),
{
    if ls.len() == 0 {
        seq![]
    } else {
        let rest = without_name(ls.drop_last(), name);
        if declares_name(ls.last(), name) {
            rest
        } else {
            rest.push(ls.last())
        }
    }
}

/// The file text: every line followed by a newline.
pub open spec fn file_text(ls: Seq<LineView>) -> Seq<char>
    decreases ls.len(),
{
    if ls.len() == 0 {
        seq![]
    } else {
        file_text(ls.drop_last()) + raw_of(ls.last()) + seq!['\n']
    }
}

/// A manifest line that could not be read: where, and why.
#[derive(Debug)]
pub struct ManifestError {
    pub path: String,
    /// The line number, counting from 1.
    pub line: usize,
    pub cause: SpecError,
}

pub open spec fn manifest_error_text(path: Seq<char>, line: nat, cause: SpecErrorView) -> Seq<char> {
    path + seq![':'] + decimal(line) + ": "@ + spec_error_text(cause)
}

impl ManifestError {
    /// The error with its file and line, as `path:line: cause`.
    pub fn to_string(&self) -> (r: String)
        ensures
            r@ == manifest_error_text(self.path@, self.line as nat, self.cause@),
    {
        let mut r = self.path.clone();
        push_char(&mut r, ':');
        let n = decimal_string(self.line);
        r.append(n.as_str());
        r.append(": ");
        let cause = self.cause.to_string();
        r.append(cause.as_str());
        r
    }
}

fn rewrite(raw: &str, spec: &PackageSpec) -> (r: String)
    ensures
        r@ == rewritten(raw@, spec@),
{
    let (declaration, comment) = split_comment(raw);
    match comment {
        // Reusing the whitespace that trailed the declaration keeps the
        // comment in its original column.
        Some(comment) => {
            let d = chars_of(declaration);
            let keep = trim_end_len(&d);
            let gap = string_of(&d, keep, d.len());
            let mut r = spec.to_string();
            r.append(gap.as_str());
            r.append(comment);
            r
        },
        None => spec.to_string(),
    }
}

impl ManifestFile {
    /// Read a manifest from its text; `None` is a file that does not exist,
    /// which is an empty manifest, not an error.
    ///
    /// A malformed entry *is* an error, reported with its line number: a line
    /// mpm cannot read is intent it cannot honour.
    pub fn load(path: &str, contents: Option<&str>) -> (r: Result<Self, ManifestError>)
        ensures
            contents is None ==> (r matches Ok(m) && m@ == (ManifestView {
                path: path@,
                existed: false,
                lines: seq![],
            })),
            contents is Some ==> match read_lines(lines(contents->0@)) {
                Ok(ls) => r matches Ok(m) && m@ == (ManifestView { path: path@, existed: true, lines: ls }),
                Err((i, e)) => r matches Err(err) && err.path@ == path@ && err.line == i + 1
                    && err.cause@ == e,
            },
    {
        let mut out: Vec<Line> = Vec::new();
        let text = match contents {
            None => {
                let m = ManifestFile { path: copy_str(path), existed: false, lines: out };
                assert(line_views(m.lines@) =~= Seq::<LineView>::empty());
                return Ok(m);
            },
            Some(text) => text,
        };
        let rows = split_lines(&chars_of(text));
        let ghost ls = views(rows@);
        let mut i: usize = 0;
        assert(ls.take(0) =~= Seq::<Seq<char>>::empty());
        assert(line_views(out@) =~= Seq::<LineView>::empty());
        while i < rows.len()
            invariant
                i <= rows.len(),
                ls == views(rows@),
                ls == lines(text@),
                contents is Some,
                contents->0@ == text@,
                read_lines(ls.take(i as int)) == Ok::<Seq<LineView>, (int, SpecErrorView)>(line_views(out@)),
            decreases rows.len() - i,
        {
            assert(ls.take(i + 1).drop_last() =~= ls.take(i as int));
            assert(ls.take(i + 1).last() == rows@[i as int]@);
            let raw = string_of(&rows[i], 0, rows[i].len());
            assert(rows@[i as int]@.subrange(0, rows@[i as int]@.len() as int) =~= rows@[i as int]@);
            let parsed = parse_line(raw.as_str());
            let ghost before = out@;
            match parsed {
                Err(cause) => {
                    proof {
                        assert(parse_manifest_line(ls.take(i + 1).last()) == Err::<Option<PackageView>, SpecErrorView>(cause@));
                        assert(read_lines(ls.take(i + 1)) == Err::<Seq<LineView>, (int, SpecErrorView)>((i as int, cause@)));
                        lemma_read_error_sticks(ls, i + 1, ls.len() as int);
                        assert(ls.take(ls.len() as int) =~= ls);
                    }
                    return Err(ManifestError { path: copy_str(path), line: i + 1, cause });
                },
                Ok(Some(spec)) => {
                    let line = Line::Declared { spec, raw };
                    out.push(line);
                    assert(line_views(out@) =~= line_views(before).push(line.view()));
                },
                Ok(None) => {
                    let line = Line::Other(raw);
                    out.push(line);
                    assert(line_views(out@) =~= line_views(before).push(line.view()));
                },
            }
            i += 1;
        }
        assert(ls.take(i as int) =~= ls);
        Ok(ManifestFile { path: copy_str(path), existed: true, lines: out })
    }

    /// Whether the file existed when it was read.
    pub fn existed(&self) -> (r: bool)
        ensures
            r == self@.existed,
    {
        self.existed
    }

    pub fn path(&self) -> (r: &str)
        ensures
            r@ == self@.path,
    {
        self.path.as_str()
    }

    /// The packages this layer declares, in file order.
    pub fn specs(&self) -> (r: Vec<PackageSpec>)
        ensures
            crate::package_map::spec_views(r@) == declared_specs(self@.lines),
    {
        let ghost ls = self@.lines;
        let mut out: Vec<PackageSpec> = Vec::new();
        let mut i: usize = 0;
        while i < self.lines.len()
            invariant
                i <= self.lines.len(),
                ls == self@.lines,
                ls == line_views(self.lines@),
                crate::package_map::spec_views(out@) == declared_specs(ls.take(i as int)),
            decreases self.lines.len() - i,
        {
            assert(ls.take(i + 1).drop_last() =~= ls.take(i as int));
            assert(ls.take(i + 1).last() == self.lines@[i as int].view());
            match &self.lines[i] {
                Line::Declared { spec, .. } => {
                    let ghost before = out@;
                    out.push(spec.clone());
                    assert(crate::package_map::spec_views(out@) =~= crate::package_map::spec_views(before).push(spec@));
                },
                Line::Other(_) => {},
            }
            i += 1;
        }
        assert(ls.take(i as int) =~= ls);
        out
    }

    /// Where the first line declaring `name` is, or the number of lines.
    fn find(&self, name: &str) -> (r: usize)
        ensures
            r == first_declaring(self@.lines, name@, 0),
            r <= self@.lines.len(),
    {
        let ghost ls = self@.lines;
        let mut i: usize = 0;
        while i < self.lines.len()
            invariant
                i <= self.lines.len(),
                ls == self@.lines,
                ls == line_views(self.lines@),
                first_declaring(ls, name@, 0) == first_declaring(ls, name@, i as int),
            decreases self.lines.len() - i,
        {
            assert(ls[i as int] == self.lines@[i as int].view());
            let hit = match &self.lines[i] {
                Line::Declared { spec, .. } => str_eq(spec.name.as_str(), name),
                Line::Other(_) => false,
            };
            if hit {
                return i;
            }
            i += 1;
        }
        i
    }

    pub fn declares(&self, name: &str) -> (r: bool)
        ensures
            r == exists|i: int| 0 <= i < self@.lines.len() && declares_name(self@.lines[i], name@),
    {
        let i = self.find(name);
        proof {
            lemma_first_declaring(self@.lines, name@, 0);
        }
        i < self.lines.len()
    }

    /// Declare a package, or update its version if it is already declared.
    ///
    /// Returns whether anything changed. New packages are appended rather than
    /// sorted into place, so any grouping the user has built up is preserved,
    /// and rewriting an existing line keeps its trailing comment.
    pub fn declare(&mut self, wanted: &PackageSpec) -> (r: bool)
        ensures
            final(self)@.path == old(self)@.path,
            final(self)@.existed == old(self)@.existed,
            (final(self)@.lines, r) == declare_lines(old(self)@.lines, wanted@),
    {
        let i = self.find(wanted.name.as_str());
        proof {
            lemma_first_declaring(self@.lines, wanted@.name, 0);
        }
        let ghost ls = self@.lines;
        if i < self.lines.len() {
            assert(ls[i as int] == self.lines@[i as int].view());
            let replacement = match &self.lines[i] {
                Line::Declared { spec, raw } => {
                    if spec.same_as(wanted) {
                        return false;
                    }
                    Line::Declared { spec: wanted.clone(), raw: rewrite(raw.as_str(), wanted) }
                },
                Line::Other(_) => {
                    return false;
                },
            };
            let ghost before = self.lines@;
            self.lines.set(i, replacement);
            assert(line_views(self.lines@) =~= ls.update(i as int, replacement.view()));
            true
        } else {
            let line = Line::Declared { spec: wanted.clone(), raw: wanted.to_string() };
            let ghost before = self.lines@;
            self.lines.push(line);
            assert(line_views(self.lines@) =~= ls.push(line.view()));
            true
        }
    }

    /// Withdraw a package from this layer. Returns whether anything changed.
    pub fn undeclare(&mut self, name: &str) -> (r: bool)
        ensures
            final(self)@.path == old(self)@.path,
            final(self)@.existed == old(self)@.existed,
            final(self)@.lines == without_name(old(self)@.lines, name@),
            r == (final(self)@.lines.len() != old(self)@.lines.len()),
    {
        let ghost ls = self@.lines;
        let mut kept: Vec<Line> = Vec::new();
        let mut i: usize = 0;
        while i < self.lines.len()
            invariant
                i <= self.lines.len(),
                ls == line_views(self.lines@),
                line_views(kept@) == without_name(ls.take(i as int), name@),
            decreases self.lines.len() - i,
        {
            assert(ls.take(i + 1).drop_last() =~= ls.take(i as int));
            assert(ls.take(i + 1).last() == self.lines@[i as int].view());
            let hit = match &self.lines[i] {
                Line::Declared { spec, .. } => str_eq(spec.name.as_str(), name),
                Line::Other(_) => false,
            };
            if !hit {
                let line = self.lines[i].duplicate();
                let ghost before = kept@;
                kept.push(line);
                assert(line_views(kept@) =~= line_views(before).push(line.view()));
            }
            i += 1;
        }
        assert(ls.take(i as int) =~= ls);
        let before = self.lines.len();
        self.lines = kept;
        self.lines.len() != before
    }

    /// The text to write back: every line verbatim, each ending in a newline.
    pub fn text(&self) -> (r: String)
        ensures
            r@ == file_text(self@.lines),
    {
        let ghost ls = self@.lines;
        let mut out = String::new();
        let mut i: usize = 0;
        while i < self.lines.len()
            invariant
                i <= self.lines.len(),
                ls == self@.lines,
                ls == line_views(self.lines@),
                out@ == file_text(ls.take(i as int)),
            decreases self.lines.len() - i,
        {
            assert(ls.take(i + 1).drop_last() =~= ls.take(i as int));
            assert(ls.take(i + 1).last() == self.lines@[i as int].view());
            out.append(self.lines[i].raw());
            push_char(&mut out, '\n');
            i += 1;
        }
        assert(ls.take(i as int) =~= ls);
        out
    }
}

pub proof fn lemma_read_error_sticks(ls: Seq<Seq<char>>, i: int, j: int)
    requires
        0 <= i <= j <= ls.len(),
        read_lines(ls.take(i)) is Err,
    ensures
        read_lines(ls.take(j)) == read_lines(ls.take(i)),
    decreases j - i,
{
    if j > i {
        lemma_read_error_sticks(ls, i, j - 1);
        assert(ls.take(j).drop_last() =~= ls.take(j - 1));
    }
}

pub proof fn lemma_first_declaring(ls: Seq<LineView>, name: Seq<char>, i: int)
    requires
        0 <= i <= ls.len(),
    ensures
        i <= first_declaring(ls, name, i) <= ls.len(),
        first_declaring(ls, name, i) < ls.len() ==> declares_name(ls[first_declaring(ls, name, i)], name),
        forall|k: int| i <= k < first_declaring(ls, name, i) ==> !declares_name(#[trigger] ls[k], name),
    decreases ls.len() - i,
{
    if i < ls.len() && !declares_name(ls[i], name) {
        lemma_first_declaring(ls, name, i + 1);
    }
}


// ------------------------------------------------------------------ laws

/// Whether line `l` declares exactly `p`.
pub open spec fn declares_exactly(l: LineView, p: PackageView) -> bool {
    match l {
        LineView::Declared(q, _) => q == p,
        LineView::Other(_) => false,
    }
}

/// After declaring `wanted`, the first line that declares its name declares
/// exactly `wanted`; declaring it again changes nothing; and every other line
/// is left as it was, in its place -- comments, blank lines and ordering survive.
pub proof fn law_declare(ls: Seq<LineView>, wanted: PackageView)
    ensures
        ({
            let (after, _) = declare_lines(ls, wanted);
            let i = first_declaring(after, wanted.name, 0);
            &&& 0 <= i < after.len()
            &&& declares_exactly(after[i], wanted)
        }),
        declare_lines(declare_lines(ls, wanted).0, wanted) == (declare_lines(ls, wanted).0, false),
        ({
            let (after, changed) = declare_lines(ls, wanted);
            let i = first_declaring(ls, wanted.name, 0);
            &&& after.len() == (if i < ls.len() { ls.len() } else { ls.len() + 1 })
            &&& forall|k: int| 0 <= k < ls.len() && k != i ==> #[trigger] after[k] == ls[k]
            &&& changed == !(i < ls.len() && declares_exactly(ls[i], wanted))
        }),
{
    lemma_first_declaring(ls, wanted.name, 0);
    let i = first_declaring(ls, wanted.name, 0);
    let (after, _) = declare_lines(ls, wanted);
    if i < ls.len() {
        assert forall|k: int| 0 <= k < i implies !declares_name(#[trigger] after[k], wanted.name) by {
            assert(after[k] == ls[k]);
        }
        lemma_first_declaring_at(after, wanted.name, i);
    } else {
        assert forall|k: int| 0 <= k < ls.len() implies !declares_name(#[trigger] after[k], wanted.name) by {
            assert(after[k] == ls[k]);
        }
        lemma_first_declaring_at(after, wanted.name, ls.len() as int);
    }
}

/// The first declaring line is `i` when no earlier line declares the name and
/// line `i` does.
proof fn lemma_first_declaring_at(ls: Seq<LineView>, name: Seq<char>, i: int)
    requires
        0 <= i < ls.len(),
        forall|k: int| 0 <= k < i ==> !declares_name(#[trigger] ls[k], name),
        declares_name(ls[i], name),
    ensures
        first_declaring(ls, name, 0) == i,
{
    lemma_first_declaring_from(ls, name, 0, i);
}

proof fn lemma_first_declaring_from(ls: Seq<LineView>, name: Seq<char>, j: int, i: int)
    requires
        0 <= j <= i < ls.len(),
        forall|k: int| j <= k < i ==> !declares_name(#[trigger] ls[k], name),
        declares_name(ls[i], name),
    ensures
        first_declaring(ls, name, j) == i,
    decreases i - j,
{
    if j < i {
        lemma_first_declaring_from(ls, name, j + 1, i);
    }
}

/// Withdrawing a package leaves no line declaring it, and keeps every other
/// line, in order.
pub proof fn law_undeclare(ls: Seq<LineView>, name: Seq<char>)
    ensures
        forall|k: int| 0 <= k < without_name(ls, name).len() ==> !declares_name(#[trigger] without_name(ls, name)[k], name),
        forall|k: int| 0 <= k < ls.len() && !declares_name(#[trigger] ls[k], name) ==> without_name(ls, name).contains(ls[k]),
        (forall|k: int| 0 <= k < ls.len() ==> !declares_name(#[trigger] ls[k], name)) ==> without_name(ls, name) == ls,
    decreases ls.len(),
{
    if ls.len() > 0 {
        let t = ls.drop_last();
        law_undeclare(t, name);
        let w = without_name(ls, name);
        let wt = without_name(t, name);
        assert forall|k: int| 0 <= k < w.len() implies !declares_name(#[trigger] w[k], name) by {
            if k < wt.len() {
                assert(w[k] == wt[k]);
            }
        }
        assert forall|k: int| 0 <= k < ls.len() && !declares_name(#[trigger] ls[k], name) implies w.contains(ls[k]) by {
            if k < ls.len() - 1 {
                assert(t[k] == ls[k]);
                assert(wt.contains(t[k]));
                let m = choose|m: int| 0 <= m < wt.len() && wt[m] == t[k];
                assert(w[m] == wt[m]);
            } else {
                assert(w[w.len() - 1] == ls[k]);
            }
        }
        if forall|k: int| 0 <= k < ls.len() ==> !declares_name(#[trigger] ls[k], name) {
            assert forall|k: int| 0 <= k < t.len() implies !declares_name(#[trigger] t[k], name) by {
                assert(t[k] == ls[k]);
            }
            assert(!declares_name(ls[ls.len() - 1], name));
            assert(w =~= ls);
        }
    }
}


/// The reading a line's text gives.
pub open spec fn expected_reading(l: LineView) -> Result<Option<PackageView>, SpecErrorView> {
    match l {
        LineView::Other(_) => Ok(None),
        LineView::Declared(p, _) => Ok(Some(p)),
    }
}

/// A single line of text: no newline in it, and no carriage return at its end.
pub open spec fn one_line(t: Seq<char>) -> bool {
    &&& forall|k: int| 0 <= k < t.len() ==> #[trigger] t[k] != '\n'
    &&& (t.len() == 0 || t.last() != '\r')
}

/// A line whose text, written out and read back, means what the line says.
pub open spec fn faithful(l: LineView) -> bool {
    one_line(raw_of(l)) && parse_manifest_line(raw_of(l)) == expected_reading(l)
}

pub open spec fn all_faithful(ls: Seq<LineView>) -> bool {
    forall|i: int| 0 <= i < ls.len() ==> faithful(#[trigger] ls[i])
}

/// A package whose manifest spelling reads back as itself, and holds no `#`.
pub open spec fn writable(p: PackageView) -> bool {
    &&& parse_manifest_line(spec_text(p)) == Ok::<Option<PackageView>, SpecErrorView>(Some(p))
    &&& forall|k: int| 0 <= k < spec_text(p).len() ==> #[trigger] spec_text(p)[k] != '#'
}

proof fn lemma_no_hash(t: Seq<char>)
    requires
        forall|k: int| 0 <= k < t.len() ==> #[trigger] t[k] != '#',
    ensures
        declaration_of(t) == t,
        comment_of(t) is None,
{
    crate::manifest::grammar::lemma_comment_at(t, 0);
    assert(t.subrange(0, t.len() as int) =~= t);
}

/// What a writable package's spelling is made of.
proof fn lemma_writable_text(p: PackageView)
    requires
        writable(p),
    ensures
        spec_text(p).len() > 0,
        one_line(spec_text(p)),
        !crate::text::is_space(spec_text(p).last()),
        declaration_of(spec_text(p)) == spec_text(p),
        crate::manifest::grammar::parse_entry(spec_text(p)) == Ok::<PackageView, SpecErrorView>(p),
{
    let t = spec_text(p);
    lemma_no_hash(t);
    assert(crate::manifest::grammar::parse_entry(t) == Ok::<PackageView, SpecErrorView>(p));
    let fields = crate::text::words(t);
    crate::text::lemma_words_are_words(t, 0);
    assert(crate::text::is_word(fields[0]));
    assert(p.name == fields[0]);
    match p.version {
        Some(v) => {
            assert(crate::text::is_word(fields[1]));
            assert(v == fields[1]);
            assert(t == p.name + seq![' '] + v);
            assert forall|k: int| 0 <= k < t.len() implies #[trigger] t[k] != '\n' by {
                if k < p.name.len() {
                    assert(t[k] == p.name[k]);
                } else if k > p.name.len() {
                    assert(t[k] == v[k - p.name.len() - 1]);
                }
            }
            assert(t.last() == v.last());
            assert(!crate::text::is_space(v[v.len() - 1]));
        },
        None => {
            assert(t == p.name);
            assert(!crate::text::is_space(p.name[p.name.len() - 1]));
        },
    }
}

/// Rewriting a line for a writable package keeps the line's comment, and the
/// new line reads back as exactly that package.
pub proof fn law_rewrite_keeps_comment(raw: Seq<char>, wanted: PackageView)
    requires
        writable(wanted),
        one_line(raw),
    ensures
        comment_of(rewritten(raw, wanted)) == comment_of(raw),
        parse_manifest_line(rewritten(raw, wanted)) == Ok::<Option<PackageView>, SpecErrorView>(Some(wanted)),
        one_line(rewritten(raw, wanted)),
{
    let t = spec_text(wanted);
    lemma_writable_text(wanted);
    lemma_no_hash(t);
    crate::manifest::grammar::lemma_comment_at(raw, 0);
    match comment_of(raw) {
        None => {},
        Some(c) => {
            let d = declaration_of(raw);
            let ca = crate::manifest::grammar::comment_at(raw, 0);
            crate::text::lemma_back_space(d, d.len() as int);
            let g = gap_of(raw);
            let r = t + g + c;
            assert(r == rewritten(raw, wanted));
            assert(c[0] == '#');
            // Where the comment starts in the rewritten line.
            assert forall|k: int| 0 <= k < t.len() + g.len() implies #[trigger] r[k] != '#' by {
                if k < t.len() {
                    assert(r[k] == t[k]);
                } else {
                    assert(r[k] == g[k - t.len()]);
                    assert(g[k - t.len()] == d[crate::text::back_space(d, d.len() as int) + k - t.len()]);
                    assert(d[crate::text::back_space(d, d.len() as int) + k - t.len()] == raw[crate::text::back_space(d, d.len() as int) + k - t.len()]);
                }
            }
            assert(r[t.len() + g.len() as int] == '#');
            crate::manifest::grammar::lemma_comment_at(r, 0);
            let rc = crate::manifest::grammar::comment_at(r, 0);
            if rc < t.len() + g.len() {
                assert(r[rc] == '#');
            }
            assert(rc == t.len() + g.len());
            assert(r.subrange(rc, r.len() as int) =~= c);
            assert(declaration_of(r) =~= t + g);
            // The gap is whitespace, so the declaration still reads as `wanted`.
            assert forall|k: int| 0 <= k < g.len() implies crate::text::is_space(#[trigger] g[k]) by {
                assert(g[k] == d[crate::text::back_space(d, d.len() as int) + k]);
            }
            crate::text::lemma_words_trailing_space(t, g);
            assert(crate::text::words(t + g) == crate::text::words(t));
            crate::text::lemma_skip_space(t, 0);
            crate::text::lemma_skip_space(t + g, 0);
            crate::text::lemma_trim_bounds(t);
            crate::text::lemma_trim_bounds(t + g);
            crate::text::lemma_back_space(t + g, (t + g).len() as int);
            assert((t + g)[t.len() - 1] == t.last());
            assert(crate::text::skip_space(t + g, 0) < (t + g).len()) by {
                if crate::text::skip_space(t + g, 0) >= (t + g).len() {
                    assert(crate::text::is_space((t + g)[t.len() - 1]));
                    assert(false);
                }
            }
            assert(crate::text::trim(t + g).len() > 0);
            assert(crate::manifest::grammar::parse_entry(t + g) == crate::manifest::grammar::parse_entry(t));
            // Still a single line.
            assert forall|k: int| 0 <= k < r.len() implies #[trigger] r[k] != '\n' by {
                if k < t.len() {
                    assert(r[k] == t[k]);
                } else if k < t.len() + g.len() {
                    assert(r[k] == g[k - t.len()]);
                } else {
                    assert(r[k] == c[k - t.len() - g.len()]);
                    assert(c[k - t.len() - g.len()] == raw[ca + k - t.len() - g.len()]);
                }
            }
            assert(r.last() == c.last());
            assert(c.last() == raw.last());
        },
    }
}

/// Edits keep a manifest faithful: declaring a writable package, or
/// withdrawing any, leaves every line reading back as what it says.
pub proof fn law_edits_stay_faithful(ls: Seq<LineView>, wanted: PackageView, name: Seq<char>)
    requires
        all_faithful(ls),
        writable(wanted),
    ensures
        all_faithful(declare_lines(ls, wanted).0),
        all_faithful(without_name(ls, name)),
{
    lemma_first_declaring(ls, wanted.name, 0);
    let i = first_declaring(ls, wanted.name, 0);
    let after = declare_lines(ls, wanted).0;
    lemma_writable_text(wanted);
    lemma_no_hash(spec_text(wanted));
    if i < ls.len() {
        assert(faithful(ls[i]));
        match ls[i] {
            LineView::Declared(p, raw) => {
                if p != wanted {
                    law_rewrite_keeps_comment(raw, wanted);
                }
            },
            LineView::Other(_) => {},
        }
    }
    assert forall|k: int| 0 <= k < after.len() implies faithful(#[trigger] after[k]) by {
        if k < ls.len() && k != i {
            assert(after[k] == ls[k]);
        } else if k < ls.len() {
            assert(faithful(ls[k]));
        }
    }
    lemma_without_name_faithful(ls, name);
}

proof fn lemma_without_name_faithful(ls: Seq<LineView>, name: Seq<char>)
    requires
        all_faithful(ls),
    ensures
        all_faithful(without_name(ls, name)),
    decreases ls.len(),
{
    if ls.len() > 0 {
        let t = ls.drop_last();
        assert forall|k: int| 0 <= k < t.len() implies faithful(#[trigger] t[k]) by {
            assert(t[k] == ls[k]);
        }
        lemma_without_name_faithful(t, name);
        assert(faithful(ls[ls.len() - 1]));
    }
}

proof fn lemma_file_text_cons(ls: Seq<LineView>)
    requires
        ls.len() > 0,
    ensures
        file_text(ls) == raw_of(ls[0]) + seq!['\n'] + file_text(ls.drop_first()),
    decreases ls.len(),
{
    if ls.len() == 1 {
        assert(ls.drop_last() =~= Seq::<LineView>::empty());
        assert(ls.drop_first() =~= Seq::<LineView>::empty());
        assert(file_text(ls.drop_last()) == Seq::<char>::empty());
        assert(ls.last() == ls[0]);
        assert(file_text(ls) =~= raw_of(ls[0]) + seq!['\n']);
        assert(raw_of(ls[0]) + seq!['\n'] + Seq::<char>::empty() =~= raw_of(ls[0]) + seq!['\n']);
    } else {
        let t = ls.drop_last();
        lemma_file_text_cons(t);
        assert(t.drop_first() =~= ls.drop_first().drop_last());
        assert(ls.drop_first().last() == ls.last());
        assert(t[0] == ls[0]);
        assert(file_text(ls) =~= raw_of(ls[0]) + seq!['\n'] + file_text(ls.drop_first()));
    }
}

proof fn lemma_lines_of_file_text(ls: Seq<LineView>)
    requires
        forall|i: int| 0 <= i < ls.len() ==> one_line(raw_of(#[trigger] ls[i])),
    ensures
        lines(file_text(ls)) == ls.map_values(|l: LineView| raw_of(l)),
    decreases ls.len(),
{
    if ls.len() == 0 {
        assert(lines(Seq::<char>::empty()) == Seq::<Seq<char>>::empty());
        assert(ls.map_values(|l: LineView| raw_of(l)) =~= Seq::<Seq<char>>::empty());
    } else {
        let rest = ls.drop_first();
        assert forall|i: int| 0 <= i < rest.len() implies one_line(raw_of(#[trigger] rest[i])) by {
            assert(rest[i] == ls[i + 1]);
        }
        lemma_lines_of_file_text(rest);
        lemma_file_text_cons(ls);
        assert(one_line(raw_of(ls[0])));
        crate::text::lemma_lines_cons(raw_of(ls[0]), file_text(rest));
        assert(ls.map_values(|l: LineView| raw_of(l)) =~= seq![raw_of(ls[0])] + rest.map_values(
            |l: LineView| raw_of(l),
        ));
    }
}

proof fn lemma_read_faithful(ls: Seq<LineView>)
    requires
        all_faithful(ls),
    ensures
        read_lines(ls.map_values(|l: LineView| raw_of(l))) == Ok::<Seq<LineView>, (int, SpecErrorView)>(ls),
    decreases ls.len(),
{
    let raws = ls.map_values(|l: LineView| raw_of(l));
    if ls.len() == 0 {
        assert(raws =~= Seq::<Seq<char>>::empty());
        assert(ls =~= Seq::<LineView>::empty());
    } else {
        let t = ls.drop_last();
        assert forall|k: int| 0 <= k < t.len() implies faithful(#[trigger] t[k]) by {
            assert(t[k] == ls[k]);
        }
        lemma_read_faithful(t);
        assert(raws.drop_last() =~= t.map_values(|l: LineView| raw_of(l)));
        assert(raws.last() == raw_of(ls.last()));
        assert(faithful(ls[ls.len() - 1]));
        assert(read_lines(raws.drop_last()) == Ok::<Seq<LineView>, (int, SpecErrorView)>(t));
        assert(parse_manifest_line(raws.last()) == expected_reading(ls.last()));
        match ls.last() {
            LineView::Other(raw) => {
                assert(t.push(LineView::Other(raw)) =~= ls);
                assert(read_lines(raws) == Ok::<Seq<LineView>, (int, SpecErrorView)>(t.push(LineView::Other(raw))));
            },
            LineView::Declared(p, raw) => {
                assert(t.push(LineView::Declared(p, raw)) =~= ls);
                assert(read_lines(raws) == Ok::<Seq<LineView>, (int, SpecErrorView)>(t.push(LineView::Declared(p, raw))));
            },
        }
    }
}

/// What a read gives back of a write: the text `ManifestFile::text` produces,
/// read again by `ManifestFile::load`, gives back the very same lines.
pub proof fn law_saved_text_reads_back(ls: Seq<LineView>)
    requires
        all_faithful(ls),
    ensures
        read_lines(lines(file_text(ls))) == Ok::<Seq<LineView>, (int, SpecErrorView)>(ls),
{
    assert forall|i: int| 0 <= i < ls.len() implies one_line(raw_of(#[trigger] ls[i])) by {
        assert(faithful(ls[i]));
    }
    lemma_lines_of_file_text(ls);
    lemma_read_faithful(ls);
}

/// A manifest read from text whose lines carry no stray carriage return is
/// faithful: every line it holds would be written back as it was read.
pub proof fn law_loaded_lines_are_faithful(raws: Seq<Seq<char>>)
    requires
        read_lines(raws) is Ok,
        forall|i: int| 0 <= i < raws.len() ==> one_line(#[trigger] raws[i]),
    ensures
        all_faithful(read_lines(raws)->Ok_0),
        read_lines(raws)->Ok_0.map_values(|l: LineView| raw_of(l)) == raws,
    decreases raws.len(),
{
    if raws.len() > 0 {
        let t = raws.drop_last();
        assert forall|i: int| 0 <= i < t.len() implies one_line(#[trigger] t[i]) by {
            assert(t[i] == raws[i]);
        }
        law_loaded_lines_are_faithful(t);
        assert(one_line(raws[raws.len() - 1]));
        let prev = read_lines(t)->Ok_0;
        let now = read_lines(raws)->Ok_0;
        assert(now.drop_last() == prev);
        assert forall|i: int| 0 <= i < now.len() implies faithful(#[trigger] now[i]) by {
            if i < prev.len() {
                assert(now[i] == prev[i]);
            }
        }
        assert(t == prev.map_values(|l: LineView| raw_of(l)));
        let nm = now.map_values(|l: LineView| raw_of(l));
        assert forall|i: int| 0 <= i < raws.len() implies #[trigger] nm[i] == raws[i] by {
            if i < prev.len() {
                assert(now[i] == prev[i]);
                assert(raws[i] == t[i]);
                assert(t[i] == raw_of(prev[i]));
            } else {
                assert(raw_of(now[i]) == raws.last());
            }
        }
        assert(now.map_values(|l: LineView| raw_of(l)) =~= raws);
    } else {
        assert(read_lines(raws)->Ok_0.map_values(|l: LineView| raw_of(l)) =~= raws);
    }
}

} // verus!
