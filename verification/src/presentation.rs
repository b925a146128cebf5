use vstd::prelude::*;

use crate::manifest::grammar::{PackageView, SpecErrorView, law_entry_text_round_trips, parse_entry, spec_text};
use crate::reconcile::{Reconciliation, ReconciliationView, RepinView, plan_has_work};
use crate::text::{
    copy_str, decimal, decimal_string, is_word, join, joined, lemma_words_are_words, lines, push_char,
};

verus! {

/// `text` wrapped in an ANSI SGR code when colour is on.
pub open spec fn painted(code: Seq<char>, text: Seq<char>, colored: bool) -> Seq<char> {
    if colored {
        seq!['\u{1b}', '['] + code + seq!['m'] + text + seq!['\u{1b}', '[', '0', 'm']
    } else {
        text
    }
}

fn paint(code: &str, text: &str, colored: bool) -> (r: String)
    ensures
        r@ == painted(code@, text@, colored),
{
    if colored {
        let mut r = String::new();
        push_char(&mut r, '\u{1b}');
        push_char(&mut r, '[');
        r.append(code);
        push_char(&mut r, 'm');
        r.append(text);
        push_char(&mut r, '\u{1b}');
        push_char(&mut r, '[');
        push_char(&mut r, '0');
        push_char(&mut r, 'm');
        r
    } else {
        copy_str(text)
    }
}

pub fn bold(text: &str, colored: bool) -> (r: String)
    ensures
        r@ == painted("1"@, text@, colored),
{
    paint("1", text, colored)
}

pub fn dim(text: &str, colored: bool) -> (r: String)
    ensures
        r@ == painted("2"@, text@, colored),
{
    paint("2", text, colored)
}

/// A line that must not read as reassurance.
pub fn problem(text: &str, colored: bool) -> (r: String)
    ensures
        r@ == painted("33"@, text@, colored),
{
    paint("33", text, colored)
}

fn green(text: &str, colored: bool) -> (r: String)
    ensures
        r@ == painted("32"@, text@, colored),
{
    paint("32", text, colored)
}

fn red(text: &str, colored: bool) -> (r: String)
    ensures
        r@ == painted("31"@, text@, colored),
{
    paint("31", text, colored)
}

fn yellow(text: &str, colored: bool) -> (r: String)
    ensures
        r@ == painted("33"@, text@, colored),
{
    paint("33", text, colored)
}

pub open spec fn install_lines(s: Seq<PackageView>, colored: bool) -> Seq<char>
    decreases s.len(),
{
    if s.len() == 0 {
        seq![]
    } else {
        install_lines(s.drop_last(), colored) + "  "@ + painted("32"@, "+"@, colored) + " "@
            + spec_text(s.last()) + "\n"@
    }
}

pub open spec fn repin_lines(s: Seq<RepinView>, colored: bool) -> Seq<char>
    decreases s.len(),
{
    if s.len() == 0 {
        seq![]
    } else {
        repin_lines(s.drop_last(), colored) + "  "@ + painted("33"@, "~"@, colored) + " "@
            + spec_text(s.last().spec) + " "@ + painted(
            "2"@,
            "(installed "@ + s.last().installed + ")"@,
            colored,
        ) + "\n"@
    }
}

pub open spec fn remove_lines(s: Seq<Seq<char>>, colored: bool) -> Seq<char>
    decreases s.len(),
{
    if s.len() == 0 {
        seq![]
    } else {
        remove_lines(s.drop_last(), colored) + "  "@ + painted("31"@, "-"@, colored) + " "@
            + s.last() + "\n"@
    }
}

/// A plan as text: its manager, then one line per change.
pub open spec fn rendering(c: ReconciliationView, colored: bool) -> Seq<char> {
    if !plan_has_work(c) {
        seq![]
    } else {
        painted("1"@, c.manager, colored) + "\n"@ + install_lines(c.install, colored) + repin_lines(
            c.repin,
            colored,
        ) + remove_lines(c.remove, colored)
    }
}

/// Render a plan as the list of changes it represents.
///
/// Returns an empty string when there is nothing at all to say, so callers can
/// stay silent on a clean machine.
#[verifier::rlimit(40)]
pub fn render(changes: &Reconciliation, colored: bool) -> (r: String)
    ensures
        r@ == rendering(changes@, colored),
{
    if !changes.has_work() {
        return String::new();
    }
    let ghost c = changes@;
    let mut out = bold(changes.manager.as_str(), colored);
    out.append("\n");
    let ghost start = out@;
    let mut i: usize = 0;
    while i < changes.install.len()
        invariant
            i <= changes.install.len(),
            c == changes@,
            out@ == start + install_lines(c.install.take(i as int), colored),
        decreases changes.install.len() - i,
    {
        out.append("  ");
        let plus = green("+", colored);
        out.append(plus.as_str());
        out.append(" ");
        let t = changes.install[i].to_string();
        out.append(t.as_str());
        out.append("\n");
        assert(c.install.take(i + 1).drop_last() =~= c.install.take(i as int));
        assert(c.install.take(i + 1).last() == changes.install@[i as int]@);
        i += 1;
        assert(out@ =~= start + install_lines(c.install.take(i as int), colored));
    }
    assert(c.install.take(i as int) =~= c.install);
    let ghost mid = out@;
    let mut j: usize = 0;
    while j < changes.repin.len()
        invariant
            j <= changes.repin.len(),
            c == changes@,
            out@ == mid + repin_lines(c.repin.take(j as int), colored),
        decreases changes.repin.len() - j,
    {
        let change = &changes.repin[j];
        out.append("  ");
        let tilde = yellow("~", colored);
        out.append(tilde.as_str());
        out.append(" ");
        let t = change.spec.to_string();
        out.append(t.as_str());
        out.append(" ");
        let mut note = copy_str("(installed ");
        note.append(change.installed.as_str());
        note.append(")");
        let d = dim(note.as_str(), colored);
        out.append(d.as_str());
        out.append("\n");
        assert(c.repin.take(j + 1).drop_last() =~= c.repin.take(j as int));
        assert(c.repin.take(j + 1).last() == change@);
        j += 1;
        assert(out@ =~= mid + repin_lines(c.repin.take(j as int), colored));
    }
    assert(c.repin.take(j as int) =~= c.repin);
    let ghost late = out@;
    let mut k: usize = 0;
    while k < changes.remove.len()
        invariant
            k <= changes.remove.len(),
            c == changes@,
            out@ == late + remove_lines(c.remove.take(k as int), colored),
        decreases changes.remove.len() - k,
    {
        out.append("  ");
        let minus = red("-", colored);
        out.append(minus.as_str());
        out.append(" ");
        out.append(changes.remove[k].as_str());
        out.append("\n");
        assert(c.remove.take(k + 1).drop_last() =~= c.remove.take(k as int));
        assert(c.remove.take(k + 1).last() == changes.remove@[k as int]@);
        k += 1;
        assert(out@ =~= late + remove_lines(c.remove.take(k as int), colored));
    }
    assert(c.remove.take(k as int) =~= c.remove);
    out
}

pub open spec fn plan_views(v: Seq<Reconciliation>) -> Seq<ReconciliationView> {
    v.map_values(|r: Reconciliation| r@)
}

pub open spec fn total_install(s: Seq<ReconciliationView>) -> int
    decreases s.len(),
{
    if s.len() == 0 { 0 } else { total_install(s.drop_last()) + s.last().install.len() }
}

pub open spec fn total_repin(s: Seq<ReconciliationView>) -> int
    decreases s.len(),
{
    if s.len() == 0 { 0 } else { total_repin(s.drop_last()) + s.last().repin.len() }
}

pub open spec fn total_remove(s: Seq<ReconciliationView>) -> int
    decreases s.len(),
{
    if s.len() == 0 { 0 } else { total_remove(s.drop_last()) + s.last().remove.len() }
}

proof fn lemma_totals_grow(s: Seq<ReconciliationView>, i: int)
    requires
        0 <= i <= s.len(),
    ensures
        total_install(s.take(i)) <= total_install(s),
        total_repin(s.take(i)) <= total_repin(s),
        total_remove(s.take(i)) <= total_remove(s),
        total_install(s.take(i)) >= 0,
        total_repin(s.take(i)) >= 0,
        total_remove(s.take(i)) >= 0,
    decreases s.len() - i,
{
    if i < s.len() {
        lemma_totals_grow(s, i + 1);
        assert(s.take(i + 1).drop_last() =~= s.take(i));
    } else {
        assert(s.take(i) =~= s);
    }
    lemma_totals_nonneg(s.take(i));
}

proof fn lemma_totals_nonneg(s: Seq<ReconciliationView>)
    ensures
        total_install(s) >= 0,
        total_repin(s) >= 0,
        total_remove(s) >= 0,
    decreases s.len(),
{
    if s.len() > 0 {
        lemma_totals_nonneg(s.drop_last());
    }
}

/// The parts of a summary, in order: installs, changes, removals, each only
/// when there is at least one.
pub open spec fn summary_parts(install: nat, repin: nat, remove: nat, colored: bool) -> Seq<Seq<char>> {
    (if install > 0 { seq![painted("32"@, decimal(install) + " to install"@, colored)] } else { seq![] })
        + (if repin > 0 { seq![painted("33"@, decimal(repin) + " to change"@, colored)] } else { seq![] })
        + (if remove > 0 { seq![painted("31"@, decimal(remove) + " to remove"@, colored)] } else { seq![] })
}

/// A one-line summary of what a set of plans adds up to.
pub open spec fn summary(s: Seq<ReconciliationView>, colored: bool) -> Seq<char> {
    let parts = summary_parts(
        total_install(s) as nat,
        total_repin(s) as nat,
        total_remove(s) as nat,
        colored,
    );
    if parts.len() == 0 {
        painted("32"@, "everything matches your manifests"@, colored)
    } else {
        joined(parts, ", "@)
    }
}

/// One-line summary of what a set of plans adds up to.
pub fn summarize(sets: &[Reconciliation], colored: bool) -> (r: String)
    requires
        total_install(plan_views(sets@)) <= usize::MAX,
        total_repin(plan_views(sets@)) <= usize::MAX,
        total_remove(plan_views(sets@)) <= usize::MAX,
    ensures
        r@ == summary(plan_views(sets@), colored),
{
    let ghost s = plan_views(sets@);
    let mut install: usize = 0;
    let mut repin: usize = 0;
    let mut remove: usize = 0;
    let mut i: usize = 0;
    while i < sets.len()
        invariant
            i <= sets.len(),
            s == plan_views(sets@),
            total_install(s) <= usize::MAX,
            total_repin(s) <= usize::MAX,
            total_remove(s) <= usize::MAX,
            install == total_install(s.take(i as int)),
            repin == total_repin(s.take(i as int)),
            remove == total_remove(s.take(i as int)),
        decreases sets.len() - i,
    {
        proof {
            lemma_totals_grow(s, i + 1);
            assert(s.take(i + 1).drop_last() =~= s.take(i as int));
            assert(s.take(i + 1).last() == sets@[i as int]@);
        }
        install = install + sets[i].install.len();
        repin = repin + sets[i].repin.len();
        remove = remove + sets[i].remove.len();
        i += 1;
    }
    assert(s.take(i as int) =~= s);
    let mut parts: Vec<String> = Vec::new();
    if install > 0 {
        let mut t = decimal_string(install);
        t.append(" to install");
        parts.push(green(t.as_str(), colored));
    }
    if repin > 0 {
        let mut t = decimal_string(repin);
        t.append(" to change");
        parts.push(yellow(t.as_str(), colored));
    }
    if remove > 0 {
        let mut t = decimal_string(remove);
        t.append(" to remove");
        parts.push(red(t.as_str(), colored));
    }
    assert(parts@.map_values(|x: String| x@) =~= summary_parts(
        install as nat,
        repin as nat,
        remove as nat,
        colored,
    ));
    if parts.len() == 0 {
        return green("everything matches your manifests", colored);
    }
    join(&parts, ", ")
}

// ------------------------------------------------------------------ laws

/// A package read from a manifest entry has a name, and a version if any,
/// that are single words.
proof fn lemma_entry_words(t: Seq<char>)
    requires
        parse_entry(t) is Ok,
    ensures
        is_word(parse_entry(t)->Ok_0.name),
        parse_entry(t)->Ok_0.version is Some ==> is_word(parse_entry(t)->Ok_0.version->0),
{
    lemma_words_are_words(t, 0);
}

/// The install lines of a plan, without colour, are one line per package.
proof fn lemma_install_lines(s: Seq<PackageView>, rest: Seq<char>)
    requires
        forall|k: int|
            0 <= k < s.len() ==> is_word((#[trigger] s[k]).name) && (s[k].version is Some ==> is_word(
                s[k].version->0,
            )),
    ensures
        lines(install_lines(s, false) + rest) == s.map_values(|p: PackageView| "  + "@ + spec_text(p))
            + lines(rest),
    decreases s.len(),
{
    reveal_strlit("  ");
    reveal_strlit("+");
    reveal_strlit(" ");
    reveal_strlit("  + ");
    reveal_strlit("\n");
    if s.len() == 0 {
        assert(install_lines(s, false) + rest =~= rest);
        assert(s.map_values(|p: PackageView| "  + "@ + spec_text(p)) + lines(rest) =~= lines(rest));
    } else {
        let t = s.drop_last();
        let p = s.last();
        assert(s[s.len() - 1] == p);
        assert forall|k: int| 0 <= k < t.len() implies is_word((#[trigger] t[k]).name) && (t[k].version is Some
            ==> is_word(t[k].version->0)) by {
            assert(t[k] == s[k]);
        }
        let line = "  + "@ + spec_text(p);
        assert("  "@ + painted("32"@, "+"@, false) + " "@ + spec_text(p) =~= line);
        assert forall|k: int| 0 <= k < line.len() implies #[trigger] line[k] != '\n' by {
            if k >= 4 {
                let j = k - 4;
                assert(line[k] == spec_text(p)[j]);
                match p.version {
                    Some(v) => {
                        if j < p.name.len() {
                            assert(spec_text(p)[j] == p.name[j]);
                        } else if j > p.name.len() {
                            assert(spec_text(p)[j] == v[j - p.name.len() - 1]);
                        }
                    },
                    None => {},
                }
            }
        }
        match p.version {
            Some(v) => {
                assert(line.last() == v.last());
            },
            None => {
                assert(line.last() == p.name.last());
            },
        }
        let tail = line + seq!['\n'] + rest;
        assert(install_lines(s, false) + rest =~= install_lines(t, false) + tail);
        lemma_install_lines(t, tail);
        crate::text::lemma_lines_cons(line, rest);
        assert(s.map_values(|p: PackageView| "  + "@ + spec_text(p)) =~= t.map_values(
            |p: PackageView| "  + "@ + spec_text(p),
        ).push(line));
        assert(s.map_values(|p: PackageView| "  + "@ + spec_text(p)) + lines(rest) =~= t.map_values(
            |p: PackageView| "  + "@ + spec_text(p),
        ) + (seq![line] + lines(rest)));
    }
}

/// In a plan's listing, each package to install has a line of its own,
/// `  + ` and then the package as a manifest spells it -- name, and version
/// when pinned -- so reading that text back as a manifest entry gives the
/// package the plan will install.
pub proof fn law_rendered_installs_read_back(c: ReconciliationView)
    requires
        forall|k: int|
            #![trigger c.install[k]]
            0 <= k < c.install.len() ==> exists|t: Seq<char>|
                #[trigger] parse_entry(t) == Ok::<PackageView, SpecErrorView>(c.install[k]),
        forall|k: int| 0 <= k < c.manager.len() ==> #[trigger] c.manager[k] != '\n',
        c.manager.len() == 0 || c.manager.last() != '\r',
    ensures
        c.install.len() > 0 ==> lines(rendering(c, false)).len() > c.install.len(),
        forall|k: int|
            0 <= k < c.install.len() ==> lines(rendering(c, false))[k + 1].len() >= 4
                && lines(rendering(c, false))[k + 1].take(4) == "  + "@ && parse_entry(
                lines(rendering(c, false))[k + 1].skip(4),
            ) == Ok::<PackageView, SpecErrorView>(#[trigger] c.install[k]),
{
    reveal_strlit("  + ");
    reveal_strlit("\n");
    if c.install.len() > 0 {
        assert forall|k: int| 0 <= k < c.install.len() implies is_word((#[trigger] c.install[k]).name) && (
        c.install[k].version is Some ==> is_word(c.install[k].version->0)) by {
            let t = choose|t: Seq<char>| parse_entry(t) == Ok::<PackageView, SpecErrorView>(c.install[k]);
            lemma_entry_words(t);
        }
        let rest = repin_lines(c.repin, false) + remove_lines(c.remove, false);
        let x = install_lines(c.install, false) + rest;
        assert(rendering(c, false) =~= c.manager + seq!['\n'] + x);
        crate::text::lemma_lines_cons(c.manager, x);
        lemma_install_lines(c.install, rest);
        let ls = lines(rendering(c, false));
        let m = c.install.map_values(|p: PackageView| "  + "@ + spec_text(p));
        assert(ls == seq![c.manager] + (m + lines(rest)));
        assert forall|k: int| 0 <= k < c.install.len() implies ls[k + 1].len() >= 4 && ls[k + 1].take(4)
            == "  + "@ && parse_entry(ls[k + 1].skip(4)) == Ok::<PackageView, SpecErrorView>(
            #[trigger] c.install[k],
        ) by {
            let p = c.install[k];
            assert(ls[k + 1] == m[k]);
            assert(m[k] == "  + "@ + spec_text(p));
            assert(ls[k + 1].take(4) =~= "  + "@);
            assert(ls[k + 1].skip(4) =~= spec_text(p));
            let t = choose|t: Seq<char>| parse_entry(t) == Ok::<PackageView, SpecErrorView>(p);
            law_entry_text_round_trips(t);
        }
    }
}

/// The count of every package across all plans, by concatenating their lists.
pub open spec fn all_installs(s: Seq<ReconciliationView>) -> Seq<PackageView> {
    s.map_values(|c: ReconciliationView| c.install).flatten()
}

/// The summary counts packages, not plans: its totals are the numbers of
/// entries in all the plans' lists together, and a summary with anything to
/// install opens with that number, `N to install`.
pub proof fn law_summary_counts_every_package(s: Seq<ReconciliationView>)
    ensures
        total_install(s) == all_installs(s).len(),
        total_repin(s) == s.map_values(|c: ReconciliationView| c.repin).flatten().len(),
        total_remove(s) == s.map_values(|c: ReconciliationView| c.remove).flatten().len(),
        all_installs(s).len() > 0 ==> summary(s, false).len() >= (decimal(all_installs(s).len()) + " to install"@).len()
            && summary(s, false).take((decimal(all_installs(s).len()) + " to install"@).len() as int)
            == decimal(all_installs(s).len()) + " to install"@,
    decreases s.len(),
{
    if s.len() > 0 {
        let t = s.drop_last();
        law_summary_counts_every_package(t);
        let c = s.last();
        assert(s.map_values(|c: ReconciliationView| c.install) =~= t.map_values(
            |c: ReconciliationView| c.install,
        ).push(c.install));
        assert(s.map_values(|c: ReconciliationView| c.repin) =~= t.map_values(|c: ReconciliationView| c.repin).push(
            c.repin,
        ));
        assert(s.map_values(|c: ReconciliationView| c.remove) =~= t.map_values(
            |c: ReconciliationView| c.remove,
        ).push(c.remove));
        t.map_values(|c: ReconciliationView| c.install).lemma_flatten_push(c.install);
        t.map_values(|c: ReconciliationView| c.repin).lemma_flatten_push(c.repin);
        t.map_values(|c: ReconciliationView| c.remove).lemma_flatten_push(c.remove);
    } else {
        assert(s.map_values(|c: ReconciliationView| c.install) =~= Seq::<Seq<PackageView>>::empty());
        assert(s.map_values(|c: ReconciliationView| c.repin) =~= Seq::<Seq<RepinView>>::empty());
        assert(s.map_values(|c: ReconciliationView| c.remove) =~= Seq::<Seq<Seq<char>>>::empty());
    }
    let n = all_installs(s).len();
    if n > 0 {
        let parts = summary_parts(total_install(s) as nat, total_repin(s) as nat, total_remove(s) as nat, false);
        let first = decimal(n) + " to install"@;
        assert(parts[0] == first);
        lemma_joined_opens_with_first(parts, ", "@);
    }
}

proof fn lemma_joined_opens_with_first(parts: Seq<Seq<char>>, sep: Seq<char>)
    requires
        parts.len() > 0,
    ensures
        joined(parts, sep).len() >= parts[0].len(),
        joined(parts, sep).take(parts[0].len() as int) == parts[0],
    decreases parts.len(),
{
    if parts.len() == 1 {
        assert(parts[0].take(parts[0].len() as int) =~= parts[0]);
    } else {
        let t = parts.drop_last();
        lemma_joined_opens_with_first(t, sep);
        assert(t[0] == parts[0]);
        let j = joined(t, sep);
        assert((j + sep + parts.last()).take(parts[0].len() as int) =~= j.take(parts[0].len() as int));
    }
}

} // verus!
