use vstd::prelude::*;

verus! {

// ------------------------------------------------------------ characters

/// Whether `c` has the Unicode `White_Space` property.
pub open spec fn is_space(c: char) -> bool {
    ||| c == '\t' || c == '\n' || c == '\u{0B}' || c == '\u{0C}' || c == '\r'
    ||| c == ' ' || c == '\u{85}' || c == '\u{A0}' || c == '\u{1680}'
    ||| ('\u{2000}' <= c && c <= '\u{200A}')
    ||| c == '\u{2028}' || c == '\u{2029}' || c == '\u{202F}' || c == '\u{205F}'
    ||| c == '\u{3000}'
}

/// Whether `c` is whitespace, as `char::is_whitespace` decides it: the
/// characters with the Unicode `White_Space` property.
pub fn char_is_space(c: char) -> (r: bool)
    ensures
        r == is_space(c),
{
    c == '\t' || c == '\n' || c == '\u{0B}' || c == '\u{0C}' || c == '\r' || c == ' ' || c == '\u{85}'
        || c == '\u{A0}' || c == '\u{1680}' || ('\u{2000}' <= c && c <= '\u{200A}') || c == '\u{2028}'
        || c == '\u{2029}' || c == '\u{202F}' || c == '\u{205F}' || c == '\u{3000}'
}

/// Whether `c` is alphabetic or numeric in the Unicode sense. The tables behind
/// it are not restated here.
pub uninterp spec fn is_alphanumeric(c: char) -> bool;

/// `char::is_alphanumeric`: its result is `is_alphanumeric(c)`; for ASCII
/// letters and digits it is true, as the documentation shows.
#[verifier::external_body]
pub fn char_is_alphanumeric(c: char) -> (r: bool)
    ensures
        r == is_alphanumeric(c),
        ('a' <= c <= 'z' || 'A' <= c <= 'Z' || '0' <= c <= '9') ==> r,
{
    c.is_alphanumeric()
}

pub open spec fn is_ascii_digit(c: char) -> bool {
    '0' <= c && c <= '9'
}

// ------------------------------------------------------------ building text

/// `String::push`: appends one character.
#[verifier::external_body]
pub fn push_char(s: &mut String, c: char)
    ensures
        final(s)@ == old(s)@.push(c),
{
    s.push(c)
}

/// The characters of `s`, in order.
pub fn chars_of(s: &str) -> (v: Vec<char>)
    ensures
        v@ == s@,
{
    let mut v: Vec<char> = Vec::new();
    for c in it: s.chars()
        invariant
            v@ == it.seq().take(it.index() as int),
            it.seq() == s@,
    {
        v.push(c);
    }
    v
}

/// The text `v[from..to]` as a `String`.
pub fn string_of(v: &Vec<char>, from: usize, to: usize) -> (r: String)
    requires
        from <= to <= v.len(),
    ensures
        r@ == v@.subrange(from as int, to as int),
{
    let mut r = String::new();
    let mut i = from;
    while i < to
        invariant
            from <= i <= to <= v.len(),
            r@ == v@.subrange(from as int, i as int),
        decreases to - i,
    {
        push_char(&mut r, v[i]);
        i += 1;
        assert(r@ =~= v@.subrange(from as int, i as int));
    }
    r
}

/// The characters `v[from..to]` as a vector.
pub fn chars_range(v: &Vec<char>, from: usize, to: usize) -> (r: Vec<char>)
    requires
        from <= to <= v.len(),
    ensures
        r@ == v@.subrange(from as int, to as int),
{
    let mut r: Vec<char> = Vec::new();
    let mut i = from;
    while i < to
        invariant
            from <= i <= to <= v.len(),
            r@ == v@.subrange(from as int, i as int),
        decreases to - i,
    {
        r.push(v[i]);
        i += 1;
        assert(r@ =~= v@.subrange(from as int, i as int));
    }
    r
}

/// Whether two character sequences are equal.
pub fn chars_eq(a: &Vec<char>, b: &Vec<char>) -> (r: bool)
    ensures
        r == (a@ == b@),
{
    if a.len() != b.len() {
        return false;
    }
    let mut i: usize = 0;
    while i < a.len()
        invariant
            a.len() == b.len(),
            i <= a.len(),
            a@.take(i as int) == b@.take(i as int),
        decreases a.len() - i,
    {
        if a[i] != b[i] {
            assert(a@.take(i as int + 1)[i as int] != b@.take(i as int + 1)[i as int]);
            assert(a@ != b@) by {
                if a@ == b@ {
                    assert(a@[i as int] == b@[i as int]);
                }
            }
            return false;
        }
        assert(a@.take(i as int + 1) =~= a@.take(i as int).push(a@[i as int]));
        assert(b@.take(i as int + 1) =~= b@.take(i as int).push(b@[i as int]));
        i += 1;
    }
    assert(a@ =~= a@.take(i as int));
    assert(b@ =~= b@.take(i as int));
    true
}

/// Whether two strings are equal.
pub fn str_eq(a: &str, b: &str) -> (r: bool)
    ensures
        r == (a@ == b@),
{
    let va = chars_of(a);
    let vb = chars_of(b);
    chars_eq(&va, &vb)
}

/// A copy of `s`.
pub fn copy_str(s: &str) -> (r: String)
    ensures
        r@ == s@,
{
    s.to_owned()
}

// ------------------------------------------------------------ words

/// The texts of a list of character vectors.
pub open spec fn views(v: Seq<Vec<char>>) -> Seq<Seq<char>> {
    v.map_values(|x: Vec<char>| x@)
}

/// The end of the run of non-space characters starting at `i`.
pub open spec fn word_end(s: Seq<char>, i: int) -> int
    decreases s.len() - i,
{
    if i < 0 || i >= s.len() || is_space(s[i]) {
        i
    } else {
        word_end(s, i + 1)
    }
}

pub proof fn lemma_word_end(s: Seq<char>, i: int)
    requires
        0 <= i <= s.len(),
    ensures
        i <= word_end(s, i) <= s.len(),
        forall|k: int| i <= k < word_end(s, i) ==> !is_space(#[trigger] s[k]),
        word_end(s, i) < s.len() ==> is_space(s[word_end(s, i)]),
    decreases s.len() - i,
{
    if i < s.len() && !is_space(s[i]) {
        lemma_word_end(s, i + 1);
    }
}

/// The whitespace-separated words of `s[i..]`, as `str::split_whitespace` yields them.
pub open spec fn words_from(s: Seq<char>, i: int) -> Seq<Seq<char>>
    decreases s.len() - i, 1int,
{
    if i < 0 || i >= s.len() {
        seq![]
    } else if is_space(s[i]) {
        words_from(s, i + 1)
    } else {
        words_at_word(s, i)
    }
}

pub open spec fn words_at_word(s: Seq<char>, i: int) -> Seq<Seq<char>>
    decreases s.len() - i, 0int,
{
    if 0 <= i < s.len() && !is_space(s[i]) {
        let e = word_end(s, i + 1);
        if i < e <= s.len() {
            seq![s.subrange(i, e)] + words_from(s, e)
        } else {
            seq![]
        }
    } else {
        seq![]
    }
}

/// The whitespace-separated words of `s`.
pub open spec fn words(s: Seq<char>) -> Seq<Seq<char>> {
    words_from(s, 0)
}

/// The words of `s`, in order.
pub fn split_words(s: &Vec<char>) -> (r: Vec<Vec<char>>)
    ensures
        views(r@) == words(s@),
{
    let mut r: Vec<Vec<char>> = Vec::new();
    let mut i: usize = 0;
    while i < s.len()
        invariant
            i <= s.len(),
            words(s@) == views(r@) + words_from(s@, i as int),
        decreases s.len() - i,
    {
        if char_is_space(s[i]) {
            i += 1;
        } else {
            let start = i;
            proof {
                lemma_word_end(s@, start as int + 1);
            }
            i += 1;
            while i < s.len() && !char_is_space(s[i])
                invariant
                    start < i <= s.len(),
                    word_end(s@, start as int + 1) == word_end(s@, i as int),
                decreases s.len() - i,
            {
                i += 1;
            }
            let word = chars_range(s, start, i);
            let ghost before = views(r@);
            assert(words_from(s@, start as int) == words_at_word(s@, start as int));
            r.push(word);
            assert(views(r@) =~= before.push(s@.subrange(start as int, i as int)));
            assert(words_from(s@, start as int) == seq![s@.subrange(start as int, i as int)]
                + words_from(s@, i as int));
            assert(views(r@) + words_from(s@, i as int) =~= before + (seq![
                s@.subrange(start as int, i as int),
            ] + words_from(s@, i as int)));
        }
    }
    assert(views(r@) + words_from(s@, i as int) =~= views(r@));
    r
}

/// A word: non-empty and free of whitespace.
pub open spec fn is_word(w: Seq<char>) -> bool {
    w.len() > 0 && forall|k: int| 0 <= k < w.len() ==> !is_space(#[trigger] w[k])
}

pub proof fn lemma_word_end_at(s: Seq<char>, i: int, j: int)
    requires
        0 <= i <= j <= s.len(),
        forall|k: int| i <= k < j ==> !is_space(#[trigger] s[k]),
        j == s.len() || is_space(s[j]),
    ensures
        word_end(s, i) == j,
    decreases j - i,
{
    if i < j {
        lemma_word_end_at(s, i + 1, j);
    }
}

/// Every word `split_words` yields is non-empty and free of whitespace.
pub proof fn lemma_words_are_words(s: Seq<char>, i: int)
    requires
        0 <= i <= s.len(),
    ensures
        forall|k: int| 0 <= k < words_from(s, i).len() ==> is_word(#[trigger] words_from(s, i)[k]),
    decreases s.len() - i, 1int,
{
    if i < s.len() {
        if is_space(s[i]) {
            lemma_words_are_words(s, i + 1);
            assert(words_from(s, i) == words_from(s, i + 1));
        } else {
            lemma_word_end(s, i + 1);
            let e = word_end(s, i + 1);
            lemma_words_are_words(s, e);
            let rest = words_from(s, e);
            let all = words_from(s, i);
            assert(all == words_at_word(s, i));
            assert(all == seq![s.subrange(i, e)] + rest);
            assert forall|k: int| 0 <= k < all.len() implies is_word(#[trigger] all[k]) by {
                if k == 0 {
                    assert(all[0] == s.subrange(i, e));
                    assert forall|m: int| 0 <= m < all[0].len() implies !is_space(
                        #[trigger] all[0][m],
                    ) by {
                        assert(all[0][m] == s[i + m]);
                    }
                } else {
                    assert(all[k] == rest[k - 1]);
                }
            }
        }
    } else {
        assert(words_from(s, i).len() == 0);
    }
}

/// A single word splits into itself.
pub proof fn lemma_words_single(w: Seq<char>)
    requires
        is_word(w),
    ensures
        words(w) == seq![w],
{
    lemma_word_end_at(w, 1, w.len() as int);
    assert(w.subrange(0, w.len() as int) =~= w);
    assert(words_from(w, 0) == words_at_word(w, 0));
    assert(words_from(w, w.len() as int) == Seq::<Seq<char>>::empty());
    assert(seq![w] + Seq::<Seq<char>>::empty() =~= seq![w]);
}

/// Two words joined by a space split back into the two words.
pub proof fn lemma_words_pair(a: Seq<char>, b: Seq<char>)
    requires
        is_word(a),
        is_word(b),
    ensures
        words(a + seq![' '] + b) == seq![a, b],
{
    let s = a + seq![' '] + b;
    let n = a.len() as int;
    assert forall|k: int| 1 <= k < n implies !is_space(#[trigger] s[k]) by {
        assert(s[k] == a[k]);
    }
    assert(is_space(s[n]));
    lemma_word_end_at(s, 1, n);
    assert(s.subrange(0, n) =~= a);
    assert(words_from(s, 0) == words_at_word(s, 0));
    assert(words_from(s, 0) == seq![a] + words_from(s, n));
    assert(words_from(s, n) == words_from(s, n + 1));
    assert forall|k: int| n + 2 <= k < s.len() implies !is_space(#[trigger] s[k]) by {
        assert(s[k] == b[k - n - 1]);
    }
    assert(s[n + 1] == b[0]);
    lemma_word_end_at(s, n + 2, s.len() as int);
    assert(s.subrange(n + 1, s.len() as int) =~= b);
    assert(words_from(s, n + 1) == words_at_word(s, n + 1));
    assert(words_from(s, n + 1) == seq![b] + words_from(s, s.len() as int));
    assert(words_from(s, s.len() as int) == Seq::<Seq<char>>::empty());
    assert(seq![a] + (seq![b] + Seq::<Seq<char>>::empty()) =~= seq![a, b]);
}

/// Two words joined by a space, then text that starts with whitespace (or
/// nothing): those two words come first.
pub proof fn lemma_words_pair_then(a: Seq<char>, b: Seq<char>, rest: Seq<char>)
    requires
        is_word(a),
        is_word(b),
        rest.len() == 0 || is_space(rest[0]),
    ensures
        words(a + seq![' '] + b + rest).len() >= 2,
        words(a + seq![' '] + b + rest)[0] == a,
        words(a + seq![' '] + b + rest)[1] == b,
{
    let s = a + seq![' '] + b + rest;
    let n = a.len() as int;
    let e = n + 1 + b.len();
    assert forall|k: int| 1 <= k < n implies !is_space(#[trigger] s[k]) by {
        assert(s[k] == a[k]);
    }
    assert(s[0] == a[0]);
    assert(is_space(s[n]));
    lemma_word_end_at(s, 1, n);
    assert(s.subrange(0, n) =~= a);
    assert(words_from(s, 0) == words_at_word(s, 0));
    assert(words_from(s, 0) == seq![a] + words_from(s, n));
    assert(words_from(s, n) == words_from(s, n + 1));
    assert forall|k: int| n + 2 <= k < e implies !is_space(#[trigger] s[k]) by {
        assert(s[k] == b[k - n - 1]);
    }
    assert(s[n + 1] == b[0]);
    if rest.len() > 0 {
        assert(s[e] == rest[0]);
    }
    lemma_word_end_at(s, n + 2, e);
    assert(s.subrange(n + 1, e) =~= b);
    assert(words_from(s, n + 1) == words_at_word(s, n + 1));
    assert(words_from(s, n + 1) == seq![b] + words_from(s, e));
    assert(words_from(s, 0) == seq![a] + (seq![b] + words_from(s, e)));
}

// ------------------------------------------------------------ trimming

/// The first index at or after `i` that holds a non-space, or the length.
pub open spec fn skip_space(s: Seq<char>, i: int) -> int
    decreases s.len() - i,
{
    if i < 0 || i >= s.len() || !is_space(s[i]) {
        i
    } else {
        skip_space(s, i + 1)
    }
}

/// The end of `s[..j]` once trailing spaces are dropped.
pub open spec fn back_space(s: Seq<char>, j: int) -> int
    decreases j,
{
    if j <= 0 || j > s.len() || !is_space(s[j - 1]) {
        j
    } else {
        back_space(s, j - 1)
    }
}

pub proof fn lemma_skip_space(s: Seq<char>, i: int)
    requires
        0 <= i <= s.len(),
    ensures
        i <= skip_space(s, i) <= s.len(),
        forall|k: int| i <= k < skip_space(s, i) ==> is_space(#[trigger] s[k]),
        skip_space(s, i) < s.len() ==> !is_space(s[skip_space(s, i)]),
    decreases s.len() - i,
{
    if i < s.len() && is_space(s[i]) {
        lemma_skip_space(s, i + 1);
    }
}

pub proof fn lemma_back_space(s: Seq<char>, j: int)
    requires
        0 <= j <= s.len(),
    ensures
        0 <= back_space(s, j) <= j,
        forall|k: int| back_space(s, j) <= k < j ==> is_space(#[trigger] s[k]),
        back_space(s, j) > 0 ==> !is_space(s[back_space(s, j) - 1]),
    decreases j,
{
    if j > 0 && is_space(s[j - 1]) {
        lemma_back_space(s, j - 1);
    }
}

/// `s` without leading and trailing whitespace, as `str::trim` gives it.
pub open spec fn trim(s: Seq<char>) -> Seq<char> {
    let a = skip_space(s, 0);
    if a >= s.len() {
        seq![]
    } else {
        s.subrange(a, back_space(s, s.len() as int))
    }
}

/// `s` without trailing whitespace, as `str::trim_end` gives it.
pub open spec fn trim_end(s: Seq<char>) -> Seq<char> {
    s.subrange(0, back_space(s, s.len() as int))
}

pub proof fn lemma_trim_bounds(s: Seq<char>)
    ensures
        skip_space(s, 0) < s.len() ==> skip_space(s, 0) < back_space(s, s.len() as int),
{
    lemma_skip_space(s, 0);
    lemma_back_space(s, s.len() as int);
    if skip_space(s, 0) < s.len() {
        let a = skip_space(s, 0);
        let b = back_space(s, s.len() as int);
        if b <= a {
            assert(is_space(s[a]));
        }
    }
}

/// Where `trim` starts and ends, as indices into `s`.
pub fn trim_bounds(s: &Vec<char>) -> (r: (usize, usize))
    ensures
        r.0 <= r.1 <= s.len(),
        s@.subrange(r.0 as int, r.1 as int) == trim(s@),
        r.1 == back_space(s@, s@.len() as int) || r.0 == r.1,
{
    let mut a: usize = 0;
    while a < s.len() && char_is_space(s[a])
        invariant
            a <= s.len(),
            skip_space(s@, 0) == skip_space(s@, a as int),
        decreases s.len() - a,
    {
        a += 1;
    }
    if a >= s.len() {
        assert(s@.subrange(a as int, a as int) =~= seq![]);
        return (a, a);
    }
    let mut b: usize = s.len();
    proof {
        lemma_trim_bounds(s@);
    }
    while b > a && char_is_space(s[b - 1])
        invariant
            a < s.len(),
            a <= b <= s.len(),
            skip_space(s@, 0) == a,
            back_space(s@, s@.len() as int) == back_space(s@, b as int),
            a < back_space(s@, s@.len() as int),
        decreases b,
    {
        b -= 1;
    }
    proof {
        lemma_back_space(s@, b as int);
    }
    (a, b)
}

/// `trim(s)` as a vector.
pub fn trimmed(s: &Vec<char>) -> (r: Vec<char>)
    ensures
        r@ == trim(s@),
{
    let (a, b) = trim_bounds(s);
    chars_range(s, a, b)
}

/// `s` without leading or trailing whitespace.
pub fn trim_str(s: &str) -> (r: String)
    ensures
        r@ == trim(s@),
{
    let t = trimmed(&chars_of(s));
    string_of(&t, 0, t.len())
}

/// Whether `s` is empty or all whitespace.
pub fn is_blank(s: &Vec<char>) -> (r: bool)
    ensures
        r == (trim(s@).len() == 0),
{
    let (a, b) = trim_bounds(s);
    a == b
}

/// The length of `trim_end(s)`.
pub fn trim_end_len(s: &Vec<char>) -> (r: usize)
    ensures
        r <= s.len(),
        r == back_space(s@, s@.len() as int),
        s@.subrange(0, r as int) == trim_end(s@),
{
    let mut b: usize = s.len();
    while b > 0 && char_is_space(s[b - 1])
        invariant
            b <= s.len(),
            back_space(s@, s@.len() as int) == back_space(s@, b as int),
        decreases b,
    {
        b -= 1;
    }
    b
}

// ------------------------------------------------------------ lines

/// The first `'\n'` at or after `i`, or the length.
pub open spec fn newline_at(s: Seq<char>, i: int) -> int
    decreases s.len() - i,
{
    if i < 0 || i >= s.len() || s[i] == '\n' {
        i
    } else {
        newline_at(s, i + 1)
    }
}

pub proof fn lemma_newline_at(s: Seq<char>, i: int)
    requires
        0 <= i <= s.len(),
    ensures
        i <= newline_at(s, i) <= s.len(),
        newline_at(s, i) < s.len() ==> s[newline_at(s, i)] == '\n',
        forall|k: int| i <= k < newline_at(s, i) ==> #[trigger] s[k] != '\n',
    decreases s.len() - i,
{
    if i < s.len() && s[i] != '\n' {
        lemma_newline_at(s, i + 1);
    }
}

/// A line's text: a `'\r'` right before its `'\n'` belongs to the line ending.
pub open spec fn line_text(s: Seq<char>, i: int, e: int) -> Seq<char> {
    if e < s.len() && i < e && s[e - 1] == '\r' {
        s.subrange(i, e - 1)
    } else {
        s.subrange(i, e)
    }
}

/// The lines of `s[i..]`, as `str::lines` yields them.
pub open spec fn lines_from(s: Seq<char>, i: int) -> Seq<Seq<char>>
    decreases s.len() - i,
{
    if i < 0 || i >= s.len() {
        seq![]
    } else {
        let e = newline_at(s, i);
        if e < i || e > s.len() {
            seq![]
        } else if e == s.len() {
            seq![line_text(s, i, e)]
        } else {
            seq![line_text(s, i, e)] + lines_from(s, e + 1)
        }
    }
}

pub open spec fn lines(s: Seq<char>) -> Seq<Seq<char>> {
    lines_from(s, 0)
}

/// The lines of `s`, in order.
pub fn split_lines(s: &Vec<char>) -> (r: Vec<Vec<char>>)
    ensures
        views(r@) == lines(s@),
{
    let mut r: Vec<Vec<char>> = Vec::new();
    let mut i: usize = 0;
    while i < s.len()
        invariant
            i <= s.len(),
            lines(s@) == views(r@) + lines_from(s@, i as int),
        decreases s.len() - i,
    {
        let start = i;
        proof {
            lemma_newline_at(s@, start as int);
        }
        while i < s.len() && s[i] != '\n'
            invariant
                start <= i <= s.len(),
                newline_at(s@, start as int) == newline_at(s@, i as int),
            decreases s.len() - i,
        {
            i += 1;
        }
        let end = if i < s.len() && start < i && s[i - 1] == '\r' {
            i - 1
        } else {
            i
        };
        let line = chars_range(s, start, end);
        let ghost before = views(r@);
        r.push(line);
        assert(views(r@) =~= before.push(line_text(s@, start as int, i as int)));
        if i < s.len() {
            i += 1;
            assert(lines_from(s@, start as int) == seq![line_text(s@, start as int, i - 1)]
                + lines_from(s@, i as int));
            assert(views(r@) + lines_from(s@, i as int) =~= before + lines_from(
                s@,
                start as int,
            ));
        } else {
            assert(lines_from(s@, start as int) == seq![line_text(s@, start as int, i as int)]);
            assert(lines_from(s@, i as int) =~= seq![]);
            assert(views(r@) + lines_from(s@, i as int) =~= before + lines_from(
                s@,
                start as int,
            ));
        }
    }
    assert(views(r@) + lines_from(s@, i as int) =~= views(r@));
    r
}

// ------------------------------------------------------------ numbers

pub open spec fn digit_char(d: nat) -> char {
    if d == 0 { '0' }
    else if d == 1 { '1' }
    else if d == 2 { '2' }
    else if d == 3 { '3' }
    else if d == 4 { '4' }
    else if d == 5 { '5' }
    else if d == 6 { '6' }
    else if d == 7 { '7' }
    else if d == 8 { '8' }
    else { '9' }
}

/// The decimal spelling of `n`.
pub open spec fn decimal(n: nat) -> Seq<char>
    decreases n,
{
    if n < 10 {
        seq![digit_char(n)]
    } else {
        decimal(n / 10).push(digit_char(n % 10))
    }
}

fn digit_of(d: usize) -> (c: char)
    requires
        d < 10,
    ensures
        c == digit_char(d as nat),
{
    if d == 0 { '0' }
    else if d == 1 { '1' }
    else if d == 2 { '2' }
    else if d == 3 { '3' }
    else if d == 4 { '4' }
    else if d == 5 { '5' }
    else if d == 6 { '6' }
    else if d == 7 { '7' }
    else if d == 8 { '8' }
    else { '9' }
}

/// `n` written in decimal.
pub fn decimal_string(n: usize) -> (r: String)
    ensures
        r@ == decimal(n as nat),
    decreases n,
{
    if n < 10 {
        let mut r = String::new();
        push_char(&mut r, digit_of(n));
        assert(r@ =~= seq![digit_char(n as nat)]);
        r
    } else {
        let mut r = decimal_string(n / 10);
        push_char(&mut r, digit_of(n % 10));
        r
    }
}


// ------------------------------------------------------------ joining

/// `parts` joined by `sep`.
pub open spec fn joined(parts: Seq<Seq<char>>, sep: Seq<char>) -> Seq<char>
    decreases parts.len(),
{
    if parts.len() == 0 {
        seq![]
    } else if parts.len() == 1 {
        parts[0]
    } else {
        joined(parts.drop_last(), sep) + sep + parts.last()
    }
}

/// `parts` joined by `sep`.
pub fn join(parts: &Vec<String>, sep: &str) -> (r: String)
    ensures
        r@ == joined(parts@.map_values(|s: String| s@), sep@),
{
    let ghost ps = parts@.map_values(|s: String| s@);
    let mut r = String::new();
    let mut i: usize = 0;
    while i < parts.len()
        invariant
            i <= parts.len(),
            ps == parts@.map_values(|s: String| s@),
            r@ == joined(ps.take(i as int), sep@),
        decreases parts.len() - i,
    {
        assert(ps.take(i + 1).drop_last() =~= ps.take(i as int));
        assert(ps.take(i + 1).last() == parts@[i as int]@);
        if i > 0 {
            r.append(sep);
        } else {
            assert(ps.take(i as int) =~= Seq::<Seq<char>>::empty());
        }
        r.append(parts[i].as_str());
        if i == 0 {
            assert(ps.take(1) =~= seq![ps[0]]);
            assert(r@ =~= joined(ps.take(1), sep@));
        }
        i += 1;
    }
    assert(ps.take(i as int) =~= ps);
    r
}


/// What a sequence holds after a push.
pub proof fn lemma_push_contains<A>(s: Seq<A>, v: A)
    ensures
        forall|a: A| #[trigger] s.push(v).contains(a) <==> s.contains(a) || a == v,
        s.push(v).to_set() == s.to_set().insert(v),
{
    assert forall|a: A| #[trigger] s.push(v).contains(a) <==> s.contains(a) || a == v by {
        if s.push(v).contains(a) {
            let i = choose|i: int| 0 <= i < s.push(v).len() && s.push(v)[i] == a;
            if i < s.len() {
                assert(s[i] == a);
            }
        }
        if s.contains(a) {
            let i = choose|i: int| 0 <= i < s.len() && s[i] == a;
            assert(s.push(v)[i] == a);
        }
        if a == v {
            assert(s.push(v)[s.len() as int] == v);
        }
    }
    assert(s.push(v).to_set() =~= s.to_set().insert(v));
}


// ------------------------------------------------------------ lines of joined text

pub proof fn lemma_newline_at_is(s: Seq<char>, i: int, j: int)
    requires
        0 <= i <= j <= s.len(),
        forall|k: int| i <= k < j ==> #[trigger] s[k] != '\n',
        j == s.len() || s[j] == '\n',
    ensures
        newline_at(s, i) == j,
    decreases j - i,
{
    if i < j {
        lemma_newline_at_is(s, i + 1, j);
    }
}

pub proof fn lemma_newline_at_shift(p: Seq<char>, q: Seq<char>, i: int)
    requires
        0 <= i <= q.len(),
    ensures
        newline_at(p + q, p.len() + i) == p.len() + newline_at(q, i),
    decreases q.len() - i,
{
    if i < q.len() {
        assert((p + q)[p.len() + i] == q[i]);
        if q[i] != '\n' {
            lemma_newline_at_shift(p, q, i + 1);
        }
    }
}

pub proof fn lemma_lines_shift(p: Seq<char>, q: Seq<char>, i: int)
    requires
        0 <= i <= q.len(),
    ensures
        lines_from(p + q, p.len() + i) == lines_from(q, i),
    decreases q.len() - i,
{
    let s = p + q;
    if i < q.len() {
        lemma_newline_at_shift(p, q, i);
        lemma_newline_at(q, i);
        let e = newline_at(q, i);
        assert(s.subrange(p.len() + i, p.len() + e) =~= q.subrange(i, e));
        if e > i {
            assert(s[p.len() + e - 1] == q[e - 1]);
            assert(s.subrange(p.len() + i, p.len() + e - 1) =~= q.subrange(i, e - 1));
        }
        assert(line_text(s, p.len() + i, p.len() + e) == line_text(q, i, e));
        if e < q.len() {
            lemma_lines_shift(p, q, e + 1);
        }
    }
}

/// A line that holds no newline and does not end in a carriage return, then a
/// newline, reads back as that line followed by the lines of what comes after.
pub proof fn lemma_lines_cons(line: Seq<char>, rest: Seq<char>)
    requires
        forall|k: int| 0 <= k < line.len() ==> #[trigger] line[k] != '\n',
        line.len() == 0 || line.last() != '\r',
    ensures
        lines(line + seq!['\n'] + rest) == seq![line] + lines(rest),
{
    let head = line + seq!['\n'];
    let s = head + rest;
    let n = line.len() as int;
    assert forall|k: int| 0 <= k < n implies #[trigger] s[k] != '\n' by {
        assert(s[k] == line[k]);
    }
    assert(s[n] == '\n');
    lemma_newline_at_is(s, 0, n);
    assert(s.subrange(0, n) =~= line);
    if n > 0 {
        assert(s[n - 1] == line.last());
    }
    assert(line_text(s, 0, n) == line);
    lemma_lines_shift(head, rest, 0);
    assert(lines_from(s, n + 1) == lines_from(rest, 0));
    assert(lines_from(s, 0) == seq![line] + lines_from(s, n + 1));
}

/// The lines of text made only of whitespace after a point: no words there.
pub proof fn lemma_words_of_spaces(s: Seq<char>, i: int)
    requires
        0 <= i <= s.len(),
        forall|k: int| i <= k < s.len() ==> is_space(#[trigger] s[k]),
    ensures
        words_from(s, i) == Seq::<Seq<char>>::empty(),
    decreases s.len() - i,
{
    if i < s.len() {
        lemma_words_of_spaces(s, i + 1);
    }
}

/// Trailing whitespace adds no words.
pub proof fn lemma_words_trailing_space(x: Seq<char>, g: Seq<char>)
    requires
        forall|k: int| 0 <= k < g.len() ==> is_space(#[trigger] g[k]),
    ensures
        words(x + g) == words(x),
{
    lemma_words_prefix(x, g, 0);
}

proof fn lemma_words_prefix(x: Seq<char>, g: Seq<char>, i: int)
    requires
        0 <= i <= x.len(),
        forall|k: int| 0 <= k < g.len() ==> is_space(#[trigger] g[k]),
    ensures
        words_from(x + g, i) == words_from(x, i),
    decreases x.len() - i, 1int,
{
    let s = x + g;
    if i == x.len() {
        assert forall|k: int| x.len() <= k < s.len() implies is_space(#[trigger] s[k]) by {
            assert(s[k] == g[k - x.len()]);
        }
        lemma_words_of_spaces(s, i);
    } else {
        assert(s[i] == x[i]);
        if is_space(x[i]) {
            lemma_words_prefix(x, g, i + 1);
        } else {
            lemma_word_end(x, i + 1);
            let e = word_end(x, i + 1);
            assert forall|k: int| i + 1 <= k < e implies !is_space(#[trigger] s[k]) by {
                assert(s[k] == x[k]);
            }
            if e < x.len() {
                assert(s[e] == x[e]);
            } else if g.len() > 0 {
                assert(s[e] == g[0]);
            }
            lemma_word_end_at(s, i + 1, e);
            assert(s.subrange(i, e) =~= x.subrange(i, e));
            lemma_words_prefix(x, g, e);
            assert(words_from(s, i) == words_at_word(s, i));
            assert(words_from(x, i) == words_at_word(x, i));
        }
    }
}

} // verus!
