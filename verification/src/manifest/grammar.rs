use vstd::prelude::*;

use crate::text::{
    is_word, lemma_words_are_words, lemma_words_pair, lemma_words_single, chars_of, copy_str, is_blank, push_char, split_words, str_eq, string_of, trim, trimmed, views,
    words,
};

verus! {

/// A package as named in a manifest: a name, optionally pinned to a version.
#[derive(Debug)]
pub struct PackageSpec {
    pub name: String,
    pub version: Option<String>,
}

/// What a `PackageSpec` says: a name and, when pinned, a version.
pub struct PackageView {
    pub name: Seq<char>,
    pub version: Option<Seq<char>>,
}

impl View for PackageSpec {
    type V = PackageView;

    open spec fn view(&self) -> PackageView {
        PackageView { name: self.name@, version: self.version.deep_view() }
    }
}

/// Why a package entry was refused.
#[derive(Debug, Clone)]
pub enum SpecError {
    /// Nothing but whitespace.
    Empty,
    /// `//` used as a comment marker; carries the trimmed entry.
    CommentMarker { entry: String },
    /// A name that would read as an option; carries the trimmed entry.
    LeadingDash { entry: String },
    /// More than two fields; carries the trimmed entry and the third field.
    ExtraField { entry: String, extra: String },
}

pub enum SpecErrorView {
    Empty,
    CommentMarker { entry: Seq<char> },
    LeadingDash { entry: Seq<char> },
    ExtraField { entry: Seq<char>, extra: Seq<char> },
}

impl View for SpecError {
    type V = SpecErrorView;

    open spec fn view(&self) -> SpecErrorView {
        match self {
            SpecError::Empty => SpecErrorView::Empty,
            SpecError::CommentMarker { entry } => SpecErrorView::CommentMarker { entry: entry@ },
            SpecError::LeadingDash { entry } => SpecErrorView::LeadingDash { entry: entry@ },
            SpecError::ExtraField { entry, extra } => SpecErrorView::ExtraField {
                entry: entry@,
                extra: extra@,
            },
        }
    }
}

/// The abstract outcome of a parse.
pub open spec fn outcome(r: Result<PackageSpec, SpecError>) -> Result<PackageView, SpecErrorView> {
    match r {
        Ok(p) => Ok(p@),
        Err(e) => Err(e@),
    }
}

pub open spec fn starts_with_comment_marker(w: Seq<char>) -> bool {
    w.len() >= 2 && w[0] == '/' && w[1] == '/'
}

pub open spec fn starts_with_dash(w: Seq<char>) -> bool {
    w.len() >= 1 && w[0] == '-'
}

/// What a package entry means: `<name>` or `<name> <version>`, separated by
/// whitespace and nothing else.
pub open spec fn parse_entry(text: Seq<char>) -> Result<PackageView, SpecErrorView> {
    let fields = words(text);
    if fields.len() == 0 {
        Err(SpecErrorView::Empty)
    } else if starts_with_comment_marker(fields[0]) {
        Err(SpecErrorView::CommentMarker { entry: trim(text) })
    } else if starts_with_dash(fields[0]) {
        Err(SpecErrorView::LeadingDash { entry: trim(text) })
    } else if fields.len() > 2 {
        Err(SpecErrorView::ExtraField { entry: trim(text), extra: fields[2] })
    } else if fields.len() == 2 {
        Ok(PackageView { name: fields[0], version: Some(fields[1]) })
    } else {
        Ok(PackageView { name: fields[0], version: None })
    }
}

/// The manifest spelling of a package: `name` or `name version`.
pub open spec fn spec_text(p: PackageView) -> Seq<char> {
    match p.version {
        Some(v) => p.name + seq![' '] + v,
        None => p.name,
    }
}

/// Rendering a parsed entry and parsing the rendering again gives back the
/// same package: the manifest spelling is faithful to what was read.
pub proof fn law_entry_text_round_trips(text: Seq<char>)
    requires
        parse_entry(text) is Ok,
    ensures
        parse_entry(spec_text(parse_entry(text)->Ok_0)) == parse_entry(text),
{
    let fields = words(text);
    lemma_words_are_words(text, 0);
    assert(is_word(fields[0]));
    if fields.len() == 2 {
        assert(is_word(fields[1]));
        lemma_words_pair(fields[0], fields[1]);
    } else {
        lemma_words_single(fields[0]);
    }
}

/// The message an entry error is reported with.
pub open spec fn spec_error_text(e: SpecErrorView) -> Seq<char> {
    match e {
        SpecErrorView::Empty => "empty package entry"@,
        SpecErrorView::CommentMarker { entry } => "`"@ + entry + "`: comments start with `#`"@,
        SpecErrorView::LeadingDash { entry } => "`"@ + entry
            + "`: a package name cannot start with `-`"@,
        SpecErrorView::ExtraField { entry, extra } => "`"@ + entry
            + "`: expected `<name>` or `<name> <version>`, found `"@ + extra + "`"@,
    }
}

impl SpecError {
    /// The error as a sentence.
    pub fn to_string(&self) -> (r: String)
        ensures
            r@ == spec_error_text(self@),
    {
        match self {
            SpecError::Empty => copy_str("empty package entry"),
            SpecError::CommentMarker { entry } => {
                let mut r = copy_str("`");
                r.append(entry.as_str());
                r.append("`: comments start with `#`");
                r
            },
            SpecError::LeadingDash { entry } => {
                let mut r = copy_str("`");
                r.append(entry.as_str());
                r.append("`: a package name cannot start with `-`");
                r
            },
            SpecError::ExtraField { entry, extra } => {
                let mut r = copy_str("`");
                r.append(entry.as_str());
                r.append("`: expected `<name>` or `<name> <version>`, found `");
                r.append(extra.as_str());
                r.append("`");
                r
            },
        }
    }
}

fn string_of_chars(v: &Vec<char>) -> (r: String)
    ensures
        r@ == v@,
{
    let r = string_of(v, 0, v.len());
    assert(v@.subrange(0, v@.len() as int) =~= v@);
    r
}

impl PackageSpec {
    pub fn new(name: &str) -> (r: Self)
        ensures
            r@ == (PackageView { name: name@, version: None }),
    {
        PackageSpec { name: copy_str(name), version: None }
    }

    pub fn pinned(name: &str, version: &str) -> (r: Self)
        ensures
            r@ == (PackageView { name: name@, version: Some(version@) }),
    {
        PackageSpec { name: copy_str(name), version: Some(copy_str(version)) }
    }

    /// Parse `<name>` or `<name> <version>`.
    ///
    /// Whitespace is the only separator, because it is the one character no
    /// package manager allows inside a package name. Names are therefore
    /// opaque: `node@20` is a Homebrew formula, not a pinned `node`.
    pub fn parse(text: &str) -> (r: Result<Self, SpecError>)
        ensures
            outcome(r) == parse_entry(text@),
    {
        let chars = chars_of(text);
        let fields = split_words(&chars);
        proof {
            assert(views(fields@) == words(text@));
            assert(forall|i: int| 0 <= i < fields.len() ==> fields@[i]@ == #[trigger] words(text@)[i]);
        }
        if fields.len() == 0 {
            return Err(SpecError::Empty);
        }
        let name = &fields[0];
        if name.len() >= 2 && name[0] == '/' && name[1] == '/' {
            return Err(SpecError::CommentMarker { entry: string_of_chars(&trimmed(&chars)) });
        }
        // Such a name would reach the package manager as an option. Building
        // commands as argv stops a name changing the shape of a command; it
        // does not stop one being read as a flag.
        if name.len() >= 1 && name[0] == '-' {
            return Err(SpecError::LeadingDash { entry: string_of_chars(&trimmed(&chars)) });
        }
        if fields.len() > 2 {
            return Err(
                SpecError::ExtraField {
                    entry: string_of_chars(&trimmed(&chars)),
                    extra: string_of_chars(&fields[2]),
                },
            );
        }
        if fields.len() == 2 {
            Ok(
                PackageSpec {
                    name: string_of_chars(name),
                    version: Some(string_of_chars(&fields[1])),
                },
            )
        } else {
            Ok(PackageSpec { name: string_of_chars(name), version: None })
        }
    }

    /// The manifest spelling: `name` or `name version`.
    pub fn to_string(&self) -> (r: String)
        ensures
            r@ == spec_text(self@),
    {
        match &self.version {
            Some(version) => {
                let mut r = self.name.clone();
                push_char(&mut r, ' ');
                r.append(version.as_str());
                r
            },
            None => self.name.clone(),
        }
    }

    /// Whether two specs name the same package at the same version.
    pub fn same_as(&self, other: &PackageSpec) -> (r: bool)
        ensures
            r == (self@ == other@),
    {
        let names = str_eq(self.name.as_str(), other.name.as_str());
        let versions = match (&self.version, &other.version) {
            (None, None) => true,
            (Some(a), Some(b)) => str_eq(a.as_str(), b.as_str()),
            _ => false,
        };
        names && versions
    }
}

impl Clone for PackageSpec {
    fn clone(&self) -> (r: Self)
        ensures
            r@ == self@,
    {
        let version = match &self.version {
            Some(v) => Some(v.clone()),
            None => None,
        };
        PackageSpec { name: self.name.clone(), version }
    }
}

impl PartialEq for PackageSpec {
    fn eq(&self, other: &Self) -> (r: bool) {
        self.same_as(other)
    }
}

impl vstd::std_specs::cmp::PartialEqSpecImpl for PackageSpec {
    open spec fn obeys_eq_spec() -> bool {
        true
    }

    open spec fn eq_spec(&self, other: &PackageSpec) -> bool {
        self@ == other@
    }
}

impl Eq for PackageSpec {}

/// Where a line's comment starts: the first `#`, or the end of the line.
pub open spec fn comment_at(s: Seq<char>, i: int) -> int
    decreases s.len() - i,
{
    if i < 0 || i >= s.len() || s[i] == '#' {
        i
    } else {
        comment_at(s, i + 1)
    }
}

pub proof fn lemma_comment_at(s: Seq<char>, i: int)
    requires
        0 <= i <= s.len(),
    ensures
        i <= comment_at(s, i) <= s.len(),
        comment_at(s, i) < s.len() ==> s[comment_at(s, i)] == '#',
        forall|k: int| i <= k < comment_at(s, i) ==> #[trigger] s[k] != '#',
    decreases s.len() - i,
{
    if i < s.len() && s[i] != '#' {
        lemma_comment_at(s, i + 1);
    }
}

/// The declaration part of a line: everything before its first `#`.
pub open spec fn declaration_of(s: Seq<char>) -> Seq<char> {
    s.subrange(0, comment_at(s, 0))
}

/// The comment of a line, from its first `#` on, if it has one.
pub open spec fn comment_of(s: Seq<char>) -> Option<Seq<char>> {
    if comment_at(s, 0) < s.len() {
        Some(s.subrange(comment_at(s, 0), s.len() as int))
    } else {
        None
    }
}

/// Split a line into its declaration and its trailing comment.
///
/// The comment keeps its `#` and the declaration keeps the whitespace that
/// separated them, so a line can be rewritten without disturbing its layout.
pub fn split_comment(line: &str) -> (r: (&str, Option<&str>))
    ensures
        r.0@ == declaration_of(line@),
        r.1.deep_view() == comment_of(line@),
        r.0@ + (match r.1 { Some(c) => c@, None => Seq::<char>::empty() }) == line@,
{
    let chars = chars_of(line);
    let mut at: usize = 0;
    proof {
        lemma_comment_at(line@, 0);
    }
    while at < chars.len() && chars[at] != '#'
        invariant
            chars@ == line@,
            at <= chars.len(),
            comment_at(line@, 0) == comment_at(line@, at as int),
        decreases chars.len() - at,
    {
        at += 1;
    }
    if at < chars.len() {
        let declaration = line.substring_char(0, at);
        let comment = line.substring_char(at, chars.len());
        assert(declaration@ + comment@ =~= line@);
        (declaration, Some(comment))
    } else {
        assert(line@.subrange(0, at as int) =~= line@);
        let declaration = line.substring_char(0, at);
        assert(declaration@ + Seq::<char>::empty() =~= line@);
        (declaration, None)
    }
}

/// What one manifest line declares: nothing for blank and comment-only lines.
pub open spec fn parse_manifest_line(line: Seq<char>) -> Result<Option<PackageView>, SpecErrorView> {
    let declaration = declaration_of(line);
    if trim(declaration).len() == 0 {
        Ok(None)
    } else {
        match parse_entry(declaration) {
            Ok(p) => Ok(Some(p)),
            Err(e) => Err(e),
        }
    }
}

pub open spec fn line_outcome(r: Result<Option<PackageSpec>, SpecError>) -> Result<
    Option<PackageView>,
    SpecErrorView,
> {
    match r {
        Ok(Some(p)) => Ok(Some(p@)),
        Ok(None) => Ok(None),
        Err(e) => Err(e@),
    }
}

/// Parse one manifest line. `Ok(None)` for blank and comment-only lines.
pub fn parse_line(line: &str) -> (r: Result<Option<PackageSpec>, SpecError>)
    ensures
        line_outcome(r) == parse_manifest_line(line@),
{
    let (declaration, _) = split_comment(line);
    if is_blank(&chars_of(declaration)) {
        return Ok(None);
    }
    match PackageSpec::parse(declaration) {
        Ok(spec) => Ok(Some(spec)),
        Err(e) => Err(e),
    }
}

} // verus!
