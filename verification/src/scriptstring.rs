//! Script templates: a script string is split into literal fragments and the
//! placeholder expressions found between `${` and `}` delimiters, scanned
//! left to right.  Once every placeholder has been resolved to a literal
//! value, the template renders the final script text and normalizes its
//! indentation.

use vstd::prelude::*;

use crate::errors::BuildError;

verus! {

/// A script split at its interpolation placeholders.  There is always one
/// more fragment than there are placeholders, and rendering interleaves the
/// two lists, starting and ending with a fragment.
pub struct ScriptString {
    pub string_fragments: Vec<String>,
    pub interpolations: Vec<String>,
}

/// The index of the first `${` opening at or after `i`, or `s.len()` if
/// there is none.
pub open spec fn spec_find_open(s: Seq<char>, i: int) -> int
    decreases s.len() - i,
{
    if i < 0 || i + 1 >= s.len() {
        s.len() as int
    } else if s[i] == '$' && s[i + 1] == '{' {
        i
    } else {
        spec_find_open(s, i + 1)
    }
}

/// The index of the first `}` at or after `i`, or `s.len()` if there is
/// none.
pub open spec fn spec_find_close(s: Seq<char>, i: int) -> int
    decreases s.len() - i,
{
    if i < 0 || i >= s.len() {
        s.len() as int
    } else if s[i] == '}' {
        i
    } else {
        spec_find_close(s, i + 1)
    }
}

/// Splits `s` at its placeholders: the literal fragments around them, and
/// the placeholder expressions between the delimiters.  Text with no
/// remaining complete `${`...`}` region is a single final fragment.
pub open spec fn spec_parse(s: Seq<char>) -> (Seq<Seq<char>>, Seq<Seq<char>>)
    decreases s.len(),
    via spec_parse_decreases
{
    let a = spec_find_open(s, 0);
    if a == s.len() {
        (seq![s], Seq::empty())
    } else {
        let b = spec_find_close(s, a + 2);
        if b == s.len() {
            (seq![s], Seq::empty())
        } else {
            let tail = spec_parse(s.subrange(b + 1, s.len() as int));
            (seq![s.subrange(0, a)] + tail.0, seq![s.subrange(a + 2, b)] + tail.1)
        }
    }
}

#[via_fn]
proof fn spec_parse_decreases(s: Seq<char>) {
    lemma_find_open_bounds(s, 0);
    let a = spec_find_open(s, 0);
    if a < s.len() {
        lemma_find_close_bounds(s, a + 2);
    }
}

proof fn lemma_find_open_bounds(s: Seq<char>, i: int)
    requires
        0 <= i <= s.len(),
    ensures
        i <= spec_find_open(s, i) <= s.len(),
        spec_find_open(s, i) < s.len() ==> spec_find_open(s, i) + 1 < s.len(),
    decreases s.len() - i,
{
    if i + 1 >= s.len() {
    } else if s[i] == '$' && s[i + 1] == '{' {
    } else {
        lemma_find_open_bounds(s, i + 1);
    }
}

proof fn lemma_find_close_bounds(s: Seq<char>, i: int)
    requires
        0 <= i <= s.len(),
    ensures
        i <= spec_find_close(s, i) <= s.len(),
    decreases s.len() - i,
{
    if i >= s.len() {
    } else if s[i] == '}' {
    } else {
        lemma_find_close_bounds(s, i + 1);
    }
}

/// Parsing always yields exactly one more fragment than placeholders.
pub proof fn lemma_parse_counts(s: Seq<char>)
    ensures
        spec_parse(s).0.len() == spec_parse(s).1.len() + 1,
    decreases s.len(),
{
    let a = spec_find_open(s, 0);
    lemma_find_open_bounds(s, 0);
    if a < s.len() {
        let b = spec_find_close(s, a + 2);
        lemma_find_close_bounds(s, a + 2);
        if b < s.len() {
            lemma_parse_counts(s.subrange(b + 1, s.len() as int));
        }
    }
}

/// Finds the next `${` at or after `i`, returning `n` (the character length
/// of `s`) if there is none.
fn find_open_at(s: &str, n: usize, i: usize) -> (r: usize)
    requires
        n == s@.len(),
        i <= n,
    ensures
        r == spec_find_open(s@, i as int),
    decreases n - i,
{
    if n - i <= 1 {
        n
    } else {
        let c = s.get_char(i);
        if c == '$' && s.get_char(i + 1) == '{' {
            i
        } else {
            find_open_at(s, n, i + 1)
        }
    }
}

/// Finds the next `}` at or after `i`, returning `n` (the character length
/// of `s`) if there is none.
fn find_close_at(s: &str, n: usize, i: usize) -> (r: usize)
    requires
        n == s@.len(),
        i <= n,
    ensures
        r == spec_find_close(s@, i as int),
    decreases n - i,
{
    if i >= n {
        n
    } else if s.get_char(i) == '}' {
        i
    } else {
        find_close_at(s, n, i + 1)
    }
}

/// Appends the fragments and placeholders of `s` to the two vectors.
fn parse_append(s: &str, frags: &mut Vec<String>, interps: &mut Vec<String>)
    ensures
        final(frags).deep_view() == old(frags).deep_view() + spec_parse(s@).0,
        final(interps).deep_view() == old(interps).deep_view() + spec_parse(s@).1,
    decreases s@.len(),
{
    let n = s.unicode_len();
    proof {
        lemma_find_open_bounds(s@, 0);
    }
    let a = find_open_at(s, n, 0);
    if a == n {
        frags.push(String::from_str(s));
        proof {
            assert(frags.deep_view() =~= old(frags).deep_view() + spec_parse(s@).0);
            assert(interps.deep_view() =~= old(interps).deep_view() + spec_parse(s@).1);
        }
        return;
    }
    proof {
        lemma_find_close_bounds(s@, a + 2);
    }
    let b = find_close_at(s, n, a + 2);
    if b == n {
        frags.push(String::from_str(s));
        proof {
            assert(frags.deep_view() =~= old(frags).deep_view() + spec_parse(s@).0);
            assert(interps.deep_view() =~= old(interps).deep_view() + spec_parse(s@).1);
        }
        return;
    }
    let frag = s.substring_char(0, a);
    let expr = s.substring_char(a + 2, b);
    frags.push(String::from_str(frag));
    interps.push(String::from_str(expr));
    let ghost frags_mid = frags.deep_view();
    let ghost interps_mid = interps.deep_view();
    let rest = s.substring_char(b + 1, n);
    parse_append(rest, frags, interps);
    proof {
        assert(frags_mid =~= old(frags).deep_view() + seq![s@.subrange(0, a as int)]);
        assert(interps_mid =~= old(interps).deep_view() + seq![s@.subrange(a + 2, b as int)]);
        assert(frags.deep_view() =~= old(frags).deep_view() + spec_parse(s@).0);
        assert(interps.deep_view() =~= old(interps).deep_view() + spec_parse(s@).1);
    }
}

/// Whitespace that can make up a line's indentation.
pub open spec fn is_space(c: char) -> bool {
    c == ' ' || c == '\t' || c == '\r' || c == '\u{000B}' || c == '\u{000C}'
}

/// The index of the first `'\n'` at or after `i`, or `s.len()` if there is
/// none.
pub open spec fn spec_find_nl(s: Seq<char>, i: int) -> int
    decreases s.len() - i,
{
    if i < 0 || i >= s.len() {
        s.len() as int
    } else if s[i] == '\n' {
        i
    } else {
        spec_find_nl(s, i + 1)
    }
}

proof fn lemma_find_nl_bounds(s: Seq<char>, i: int)
    requires
        0 <= i <= s.len(),
    ensures
        i <= spec_find_nl(s, i) <= s.len(),
        spec_find_nl(s, i) < s.len() ==> s[spec_find_nl(s, i)] == '\n',
        forall|m: int| i <= m < spec_find_nl(s, i) ==> s[m] != '\n',
    decreases s.len() - i,
{
    if i >= s.len() {
    } else if s[i] == '\n' {
    } else {
        lemma_find_nl_bounds(s, i + 1);
    }
}

/// `s` split on `'\n'`: the final fragment is the text after the last
/// newline, so a trailing newline yields a trailing empty line.
pub open spec fn spec_lines(s: Seq<char>) -> Seq<Seq<char>>
    decreases s.len(),
    via spec_lines_decreases
{
    let k = spec_find_nl(s, 0);
    if k == s.len() {
        seq![s]
    } else {
        seq![s.subrange(0, k)] + spec_lines(s.subrange(k + 1, s.len() as int))
    }
}

#[via_fn]
proof fn spec_lines_decreases(s: Seq<char>) {
    lemma_find_nl_bounds(s, 0);
}

/// Lines joined back together with `'\n'` between them.
pub open spec fn spec_join(ls: Seq<Seq<char>>) -> Seq<char>
    decreases ls.len(),
{
    if ls.len() == 0 {
        Seq::empty()
    } else if ls.len() == 1 {
        ls[0]
    } else {
        ls[0] + seq!['\n'] + spec_join(ls.drop_first())
    }
}

/// The index of the first non-whitespace character of `l` at or after `i`,
/// or `l.len()` if the rest is all whitespace.
pub open spec fn spec_ws_end(l: Seq<char>, i: int) -> int
    decreases l.len() - i,
{
    if i < 0 || i >= l.len() {
        l.len() as int
    } else if is_space(l[i]) {
        spec_ws_end(l, i + 1)
    } else {
        i
    }
}

proof fn lemma_ws_end_bounds(l: Seq<char>, i: int)
    requires
        0 <= i <= l.len(),
    ensures
        i <= spec_ws_end(l, i) <= l.len(),
    decreases l.len() - i,
{
    if i >= l.len() {
    } else if is_space(l[i]) {
        lemma_ws_end_bounds(l, i + 1);
    }
}

/// The leading whitespace of a line.
pub open spec fn spec_leading_ws(l: Seq<char>) -> Seq<char> {
    l.subrange(0, spec_ws_end(l, 0))
}

/// The index of the first non-empty element of `ls` at or after `i`, or
/// `ls.len()` if the rest are all empty.
pub open spec fn spec_first_nonempty(ls: Seq<Seq<char>>, i: int) -> int
    decreases ls.len() - i,
{
    if i < 0 || i >= ls.len() {
        ls.len() as int
    } else if ls[i].len() > 0 {
        i
    } else {
        spec_first_nonempty(ls, i + 1)
    }
}

proof fn lemma_first_nonempty_bounds(ls: Seq<Seq<char>>, i: int)
    requires
        0 <= i <= ls.len(),
    ensures
        i <= spec_first_nonempty(ls, i) <= ls.len(),
    decreases ls.len() - i,
{
    if i >= ls.len() {
    } else if ls[i].len() > 0 {
    } else {
        lemma_first_nonempty_bounds(ls, i + 1);
    }
}

/// `l` with the prefix `p` removed when `l` starts with exactly `p`, and
/// unchanged otherwise.
pub open spec fn spec_strip(l: Seq<char>, p: Seq<char>) -> Seq<char> {
    if p.len() <= l.len() && l.subrange(0, p.len() as int) == p {
        l.skip(p.len() as int)
    } else {
        l
    }
}

/// The common indentation of a script's lines: the leading whitespace of
/// the first non-empty line after the reserved first line, or nothing when
/// every such line is empty.
pub open spec fn spec_common_indent(ls: Seq<Seq<char>>) -> Seq<char> {
    let j = spec_first_nonempty(ls, 1);
    if j == ls.len() {
        Seq::empty()
    } else {
        spec_leading_ws(ls[j])
    }
}

/// Whether indentation normalization is possible: at least one line remains
/// after the reserved first line.
pub open spec fn spec_indentable(s: Seq<char>) -> bool {
    spec_lines(s).len() > 1
}

/// The normalized script text: the reserved first line is dropped, and the
/// common indentation is stripped from every remaining line that has it;
/// lines without that exact prefix pass through unchanged.
pub open spec fn spec_indent(s: Seq<char>) -> Seq<char> {
    let ls = spec_lines(s);
    let ind = spec_common_indent(ls);
    spec_join(Seq::new((ls.len() - 1) as nat, |i: int| spec_strip(ls[i + 1], ind)))
}

/// Finds the next `'\n'` at or after `i`, returning `n` (the character
/// length of `s`) if there is none.
fn find_nl_at(s: &str, n: usize, i: usize) -> (r: usize)
    requires
        n == s@.len(),
        i <= n,
    ensures
        r == spec_find_nl(s@, i as int),
    decreases n - i,
{
    if i >= n {
        n
    } else if s.get_char(i) == '\n' {
        i
    } else {
        find_nl_at(s, n, i + 1)
    }
}

/// Appends the lines of `s` to `out`.
fn split_lines_append(s: &str, out: &mut Vec<String>)
    ensures
        final(out).deep_view() == old(out).deep_view() + spec_lines(s@),
    decreases s@.len(),
{
    let n = s.unicode_len();
    proof {
        lemma_find_nl_bounds(s@, 0);
    }
    let k = find_nl_at(s, n, 0);
    if k == n {
        out.push(String::from_str(s));
        proof {
            assert(out.deep_view() =~= old(out).deep_view() + spec_lines(s@));
        }
        return;
    }
    out.push(String::from_str(s.substring_char(0, k)));
    let ghost mid = out.deep_view();
    split_lines_append(s.substring_char(k + 1, n), out);
    proof {
        assert(mid =~= old(out).deep_view() + seq![s@.subrange(0, k as int)]);
        assert(out.deep_view() =~= old(out).deep_view() + spec_lines(s@));
    }
}

/// Whether `c` can make up a line's indentation.
fn is_space_char(c: char) -> (r: bool)
    ensures
        r == is_space(c),
{
    c == ' ' || c == '\t' || c == '\r' || c == '\u{000B}' || c == '\u{000C}'
}

/// Finds the first non-whitespace character of `l` at or after `i`.
fn ws_end_at(l: &str, n: usize, i: usize) -> (r: usize)
    requires
        n == l@.len(),
        i <= n,
    ensures
        r == spec_ws_end(l@, i as int),
    decreases n - i,
{
    if i >= n {
        n
    } else if is_space_char(l.get_char(i)) {
        ws_end_at(l, n, i + 1)
    } else {
        i
    }
}

/// Finds the first non-empty line at or after index `i`.
fn first_nonempty_at(lines: &Vec<String>, i: usize) -> (r: usize)
    requires
        i <= lines@.len(),
    ensures
        r == spec_first_nonempty(lines.deep_view(), i as int),
        i <= r <= lines@.len(),
    decreases lines@.len() - i,
{
    if i >= lines.len() {
        lines.len()
    } else if !lines[i].as_str().is_empty() {
        i
    } else {
        first_nonempty_at(lines, i + 1)
    }
}

/// Whether `l` starts with exactly the characters of `p`.
fn is_char_prefix(p: &str, l: &str) -> (r: bool)
    ensures
        r == (p@.len() <= l@.len() && l@.subrange(0, p@.len() as int) == p@),
{
    let pn = p.unicode_len();
    let ln = l.unicode_len();
    if pn > ln {
        return false;
    }
    let mut i: usize = 0;
    while i < pn
        invariant
            pn == p@.len(),
            ln == l@.len(),
            pn <= ln,
            i <= pn,
            forall|k: int| 0 <= k < i ==> p@[k] == l@[k],
        decreases pn - i,
    {
        if p.get_char(i) != l.get_char(i) {
            proof {
                assert(l@.subrange(0, pn as int)[i as int] != p@[i as int]);
            }
            return false;
        }
        i = i + 1;
    }
    proof {
        assert(l@.subrange(0, pn as int) =~= p@);
    }
    true
}

/// `spec_join` grows by a newline and the new line when a line is appended
/// to a non-empty list.
proof fn lemma_join_push(ls: Seq<Seq<char>>, l: Seq<char>)
    ensures
        spec_join(ls.push(l)) == if ls.len() == 0 {
            l
        } else {
            spec_join(ls) + seq!['\n'] + l
        },
    decreases ls.len(),
{
    if ls.len() == 0 {
        assert(ls.push(l)[0] == l);
        assert(spec_join(ls.push(l)) == l);
    } else if ls.len() == 1 {
        assert(ls.push(l).drop_first() =~= seq![l]);
        assert(ls.push(l)[0] == ls[0]);
        assert(seq![l][0] == l);
        assert(spec_join(seq![l]) == l);
        assert(spec_join(ls.push(l)) == ls[0] + seq!['\n'] + l);
        assert(spec_join(ls) == ls[0]);
    } else {
        assert(ls.push(l).drop_first() =~= ls.drop_first().push(l));
        lemma_join_push(ls.drop_first(), l);
        assert(spec_join(ls) + seq!['\n'] + l =~= ls[0] + seq!['\n'] + (spec_join(ls.drop_first())
            + seq!['\n'] + l));
    }
}

/// Joins lines with `'\n'` between them.
fn join_lines(lines: &Vec<String>) -> (r: String)
    ensures
        r@ == spec_join(lines.deep_view()),
{
    let ghost ld = lines.deep_view();
    if lines.len() == 0 {
        return String::new();
    }
    let mut s = lines[0].clone();
    let mut i: usize = 1;
    proof {
        assert(ld.take(1) =~= seq![ld[0]]);
    }
    while i < lines.len()
        invariant
            ld == lines.deep_view(),
            ld.len() == lines@.len(),
            1 <= i <= ld.len(),
            s@ == spec_join(ld.take(i as int)),
        decreases ld.len() - i,
    {
        s.append("\n");
        s.append(lines[i].as_str());
        proof {
            reveal_strlit("\n");
            assert("\n"@ =~= seq!['\n']);
            lemma_join_push(ld.take(i as int), ld[i as int]);
            assert(ld.take(i + 1) =~= ld.take(i as int).push(ld[i as int]));
        }
        i = i + 1;
    }
    proof {
        assert(ld.take(ld.len() as int) =~= ld);
    }
    s
}

/// Normalizes a script's indentation: the first line is reserved for an
/// interpreter annotation and dropped from the analysis; the leading
/// whitespace of the first remaining non-empty line is stripped from every
/// remaining line that starts with it, and lines without that exact prefix
/// pass through unchanged.  Fails when no lines remain after the first.
pub fn indent_string(s: String) -> (r: Result<String, BuildError>)
    ensures
        spec_indentable(s@) <==> r is Ok,
        r is Err ==> r == Result::<String, BuildError>::Err(BuildError::EmptyScript),
        r matches Ok(t) ==> t@ == spec_indent(s@),
{
    let mut lines: Vec<String> = Vec::new();
    split_lines_append(s.as_str(), &mut lines);
    let ghost ls = lines.deep_view();
    if lines.len() <= 1 {
        return Err(BuildError::EmptyScript);
    }
    let j = first_nonempty_at(&lines, 1);
    let ind: String = if j == lines.len() {
        String::new()
    } else {
        let line = &lines[j];
        let n = line.as_str().unicode_len();
        proof {
            lemma_ws_end_bounds(ls[j as int], 0);
        }
        let e = ws_end_at(line.as_str(), n, 0);
        String::from_str(line.as_str().substring_char(0, e))
    };
    proof {
        assert(ind@ == spec_common_indent(ls));
    }
    let mut out: Vec<String> = Vec::new();
    let mut i: usize = 1;
    while i < lines.len()
        invariant
            ls == lines.deep_view(),
            ls.len() == lines@.len(),
            1 <= i <= ls.len(),
            ind@ == spec_common_indent(ls),
            out.deep_view() =~= Seq::new((i - 1) as nat, |k: int| spec_strip(ls[k + 1], ind@)),
        decreases ls.len() - i,
    {
        let line = &lines[i];
        let ghost before = out.deep_view();
        if is_char_prefix(ind.as_str(), line.as_str()) {
            let ln = line.as_str().unicode_len();
            let il = ind.as_str().unicode_len();
            let stripped = String::from_str(line.as_str().substring_char(il, ln));
            proof {
                assert(stripped@ =~= spec_strip(ls[i as int], ind@));
            }
            out.push(stripped);
        } else {
            out.push(line.clone());
        }
        proof {
            assert(out.deep_view() =~= before.push(spec_strip(ls[i as int], ind@)));
            assert(out.deep_view() =~= Seq::new(
                i as nat,
                |k: int| spec_strip(ls[k + 1], ind@),
            ));
        }
        i = i + 1;
    }
    let t = join_lines(&out);
    proof {
        assert(out.deep_view() =~= Seq::new(
            (ls.len() - 1) as nat,
            |k: int| spec_strip(ls[k + 1], ind@),
        ));
    }
    Ok(t)
}

/// The tail of a rendering: resolved values interleaved with the remaining
/// fragments, until either list runs out.
pub open spec fn spec_render_tail(frags: Seq<Seq<char>>, vals: Seq<Seq<char>>) -> Seq<char>
    decreases vals.len(),
{
    if vals.len() == 0 || frags.len() == 0 {
        Seq::empty()
    } else {
        vals[0] + frags[0] + spec_render_tail(frags.drop_first(), vals.drop_first())
    }
}

/// The rendered script text: `frags[0], vals[0], frags[1], vals[1], ...`.
/// Meaningful only when there is at least one fragment.
pub open spec fn spec_render(frags: Seq<Seq<char>>, vals: Seq<Seq<char>>) -> Seq<char> {
    frags[0] + spec_render_tail(frags.drop_first(), vals)
}

impl ScriptString {
    /// Splits `script` into its literal fragments and placeholder
    /// expressions, scanned left to right.
    pub fn new(script: String) -> (r: ScriptString)
        ensures
            r.string_fragments.deep_view() == spec_parse(script@).0,
            r.interpolations.deep_view() == spec_parse(script@).1,
            r.string_fragments@.len() == r.interpolations@.len() + 1,
    {
        let mut frags: Vec<String> = Vec::new();
        let mut interps: Vec<String> = Vec::new();
        parse_append(script.as_str(), &mut frags, &mut interps);
        proof {
            lemma_parse_counts(script@);
            assert(frags.deep_view() =~= spec_parse(script@).0);
            assert(interps.deep_view() =~= spec_parse(script@).1);
        }
        ScriptString { string_fragments: frags, interpolations: interps }
    }

    /// Concatenates the fragments with the resolved interpolation values
    /// interleaved between them.  Fails when there is no fragment at all.
    pub fn render(&self) -> (r: Result<String, BuildError>)
        ensures
            self.string_fragments@.len() == 0 <==> r is Err,
            r is Err ==> r == Result::<String, BuildError>::Err(BuildError::EmptyScript),
            r matches Ok(t) ==> t@ == spec_render(
                self.string_fragments.deep_view(),
                self.interpolations.deep_view(),
            ),
    {
        let ghost frags = self.string_fragments.deep_view();
        let ghost vals = self.interpolations.deep_view();
        if self.string_fragments.len() == 0 {
            return Err(BuildError::EmptyScript);
        }
        let mut s = self.string_fragments[0].clone();
        let mut i: usize = 0;
        proof {
            assert(frags.skip(1) =~= frags.drop_first());
            assert(vals.skip(0) =~= vals);
        }
        while i < self.interpolations.len() && i + 1 < self.string_fragments.len()
            invariant
                frags == self.string_fragments.deep_view(),
                vals == self.interpolations.deep_view(),
                frags.len() == self.string_fragments@.len(),
                vals.len() == self.interpolations@.len(),
                frags.len() > 0,
                i <= vals.len(),
                i + 1 <= frags.len(),
                spec_render(frags, vals) == s@ + spec_render_tail(
                    frags.skip(i + 1),
                    vals.skip(i as int),
                ),
            decreases vals.len() - i,
        {
            proof {
                assert(frags.skip(i + 1).drop_first() =~= frags.skip(i + 2));
                assert(vals.skip(i as int).drop_first() =~= vals.skip(i + 1));
                assert(frags.skip(i + 1)[0] == frags[i + 1]);
                assert(vals.skip(i as int)[0] == vals[i as int]);
            }
            s.append(self.interpolations[i].as_str());
            s.append(self.string_fragments[i + 1].as_str());
            i = i + 1;
        }
        proof {
            assert(spec_render_tail(frags.skip(i + 1), vals.skip(i as int)) =~= Seq::<
                char,
            >::empty());
            assert(s@ =~= spec_render(frags, vals));
        }
        Ok(s)
    }

    /// The rendered script before indentation normalization.
    pub open spec fn spec_rendered(&self) -> Seq<char> {
        spec_render(self.string_fragments.deep_view(), self.interpolations.deep_view())
    }

    /// Whether the final script text exists: there is a fragment to render,
    /// and a line remains after the reserved first line.
    pub open spec fn is_renderable(&self) -> bool {
        self.string_fragments@.len() > 0 && spec_indentable(self.spec_rendered())
    }

    /// The final script text: the rendering, indentation-normalized.
    pub open spec fn spec_text(&self) -> Seq<char> {
        spec_indent(self.spec_rendered())
    }

    /// The final script text: fragments interleaved with the resolved
    /// interpolation values, then indentation-normalized.
    pub fn to_string(&self) -> (r: Result<String, BuildError>)
        ensures
            self.is_renderable() <==> r is Ok,
            r is Err ==> r == Result::<String, BuildError>::Err(BuildError::EmptyScript),
            r matches Ok(t) ==> t@ == self.spec_text(),
    {
        match self.render() {
            Ok(rendered) => indent_string(rendered),
            Err(e) => Err(e),
        }
    }
}

/// No line produced by `spec_lines` contains a newline.
proof fn lemma_lines_no_nl(s: Seq<char>)
    ensures
        forall|i: int, k: int|
            0 <= i < spec_lines(s).len() && 0 <= k < spec_lines(s)[i].len() ==> spec_lines(
                s,
            )[i][k] != '\n',
    decreases s.len(),
{
    lemma_find_nl_bounds(s, 0);
    let k0 = spec_find_nl(s, 0);
    if k0 < s.len() {
        let rest = s.subrange(k0 + 1, s.len() as int);
        lemma_lines_no_nl(rest);
        assert forall|i: int, k: int|
            0 <= i < spec_lines(s).len() && 0 <= k < spec_lines(s)[i].len() implies spec_lines(
            s,
        )[i][k] != '\n' by {
            if i == 0 {
                assert(spec_lines(s)[0] == s.subrange(0, k0));
            } else {
                assert(spec_lines(s)[i] == spec_lines(rest)[i - 1]);
            }
        }
    }
}

/// Joining lines that contain no newline and splitting again returns the
/// same lines.
proof fn lemma_lines_join_inverse(ls: Seq<Seq<char>>)
    requires
        ls.len() >= 1,
        forall|i: int, k: int| 0 <= i < ls.len() && 0 <= k < ls[i].len() ==> ls[i][k] != '\n',
    ensures
        spec_lines(spec_join(ls)) == ls,
    decreases ls.len(),
{
    let j = spec_join(ls);
    lemma_find_nl_bounds(j, 0);
    let f = spec_find_nl(j, 0);
    if ls.len() == 1 {
        assert(j == ls[0]);
        if f < j.len() {
            assert(j[f] != '\n');
        }
        assert(f == j.len());
        assert(spec_lines(j) =~= ls);
    } else {
        let rest = ls.drop_first();
        assert(j == ls[0] + seq!['\n'] + spec_join(rest));
        assert(j[ls[0].len() as int] == '\n');
        assert forall|m: int| 0 <= m < ls[0].len() implies j[m] != '\n' by {
            assert(j[m] == ls[0][m]);
        }
        if f < ls[0].len() {
            assert(j[f] != '\n');
            assert(false);
        }
        if f > ls[0].len() {
            assert(j[ls[0].len() as int] != '\n');
            assert(false);
        }
        assert(f == ls[0].len());
        assert(j.subrange(0, f) =~= ls[0]);
        assert(j.subrange(f + 1, j.len() as int) =~= spec_join(rest));
        assert forall|i: int, k: int|
            0 <= i < rest.len() && 0 <= k < rest[i].len() implies rest[i][k] != '\n' by {
            assert(rest[i] == ls[i + 1]);
        }
        lemma_lines_join_inverse(rest);
        assert(spec_lines(j) =~= seq![ls[0]] + rest);
        assert(seq![ls[0]] + rest =~= ls);
    }
}

/// Indentation normalization, line by line: the normalized text has one
/// line per line after the reserved first one, the common indentation is
/// stripped from each line that has that exact prefix, and lines without
/// the prefix are unchanged.
pub proof fn lemma_indent_normalization(s: Seq<char>)
    requires
        spec_indentable(s),
    ensures
        spec_lines(spec_indent(s)).len() == spec_lines(s).len() - 1,
        forall|i: int|
            0 <= i < spec_lines(s).len() - 1 ==> spec_lines(spec_indent(s))[i] == spec_strip(
                spec_lines(s)[i + 1],
                spec_common_indent(spec_lines(s)),
            ),
{
    let ls = spec_lines(s);
    let ind = spec_common_indent(ls);
    let mapped = Seq::new((ls.len() - 1) as nat, |i: int| spec_strip(ls[i + 1], ind));
    lemma_lines_no_nl(s);
    assert forall|i: int, k: int|
        0 <= i < mapped.len() && 0 <= k < mapped[i].len() implies mapped[i][k] != '\n' by {
        let l = ls[i + 1];
        if ind.len() <= l.len() && l.subrange(0, ind.len() as int) == ind {
            assert(mapped[i][k] == l[k + ind.len()]);
        } else {
            assert(mapped[i][k] == l[k]);
        }
    }
    lemma_lines_join_inverse(mapped);
}

} // verus!
