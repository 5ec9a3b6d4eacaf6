//! The filter file: one path to a line, with `#` for comments.
//!
//! A line ends with `\n` or `\r\n`. What stands before a `#` is the path, without the
//! blanks before it and the white space behind it. Reading stops at a `\r` that no `\n`
//! follows.

use vstd::prelude::*;

verus! {

/// `String::push` of std appends the character.
pub assume_specification[ String::push ](s: &mut String, c: char)
    ensures
        final(s)@ == old(s)@.push(c),
;

/// A character that is skipped at the start of a line.
pub open spec fn is_blank(c: char) -> bool {
    c == ' ' || c == '\t'
}

/// A character with the Unicode property `White_Space`.
pub open spec fn is_white_space(c: char) -> bool {
    let n = c as u32;
    ||| 0x9 <= n <= 0xd
    ||| n == 0x20
    ||| n == 0x85
    ||| n == 0xa0
    ||| n == 0x1680
    ||| 0x2000 <= n <= 0x200a
    ||| n == 0x2028
    ||| n == 0x2029
    ||| n == 0x202f
    ||| n == 0x205f
    ||| n == 0x3000
}

/// A character that is part of a line ending.
pub open spec fn is_break(c: char) -> bool {
    c == '\r' || c == '\n'
}

/// The text without the blanks that it starts with.
pub open spec fn skip_blanks(s: Seq<char>) -> Seq<char>
    decreases s.len(),
{
    if s.len() > 0 && is_blank(s[0]) {
        skip_blanks(s.drop_first())
    } else {
        s
    }
}

/// The text without the white space that it ends with.
pub open spec fn trim_end(s: Seq<char>) -> Seq<char>
    decreases s.len(),
{
    if s.len() > 0 && is_white_space(s.last()) {
        trim_end(s.drop_last())
    } else {
        s
    }
}

/// How many characters stand before the first line ending character, and before the
/// first `#` too if `hash` says so.
pub open spec fn plain_len(s: Seq<char>, hash: bool) -> nat
    decreases s.len(),
{
    if s.len() == 0 || is_break(s[0]) || (hash && s[0] == '#') {
        0
    } else {
        1 + plain_len(s.drop_first(), hash)
    }
}

/// The length of the line ending that the text starts with; 0 if it starts with none.
pub open spec fn break_len(s: Seq<char>) -> nat {
    if s.len() > 0 && s[0] == '\n' {
        1
    } else if s.len() > 1 && s[0] == '\r' && s[1] == '\n' {
        2
    } else {
        0
    }
}

/// What follows the comment that the text starts with. A comment reaches to the end of
/// its line; where a stray `\r` stops it there is none.
pub open spec fn after_comment(s: Seq<char>) -> Seq<char> {
    let rest = s.skip(plain_len(s, false) as int);
    if s.len() > 0 && s[0] == '#' && (rest.len() == 0 || break_len(rest) > 0) {
        rest
    } else {
        s
    }
}

/// The path on the line that the text starts with, if there is one.
pub open spec fn line_path(s: Seq<char>) -> Option<Seq<char>> {
    let a = skip_blanks(s);
    let n = plain_len(a, true);
    if n > 0 {
        Some(trim_end(a.take(n as int)))
    } else {
        None
    }
}

/// What follows the path and the comment on the line that the text starts with.
pub open spec fn line_rest(s: Seq<char>) -> Seq<char> {
    let a = skip_blanks(s);
    after_comment(a.skip(plain_len(a, true) as int))
}

/// An optional path as a list.
pub open spec fn as_list(path: Option<Seq<char>>) -> Seq<Seq<char>> {
    match path {
        Some(p) => seq![p],
        None => Seq::empty(),
    }
}

/// The paths in the text.
pub open spec fn text_paths(s: Seq<char>) -> Seq<Seq<char>>
    decreases s.len(),
{
    let rest = line_rest(s);
    let n = break_len(rest);
    proof {
        lemma_line_rest(s);
    }
    if n == 0 {
        as_list(line_path(s))
    } else {
        as_list(line_path(s)) + text_paths(rest.skip(n as int))
    }
}

proof fn lemma_skip_blanks(s: Seq<char>)
    ensures
        skip_blanks(s).len() <= s.len(),
        skip_blanks(s) == s.skip(s.len() - skip_blanks(s).len()),
        skip_blanks(s).len() > 0 ==> !is_blank(skip_blanks(s)[0]),
    decreases s.len(),
{
    assert(s.skip(0) =~= s);
    if s.len() > 0 && is_blank(s[0]) {
        lemma_skip_blanks(s.drop_first());
        let r = skip_blanks(s);
        assert(s.skip(s.len() - r.len()) =~= s.drop_first().skip(s.len() - 1 - r.len()));
    }
}

proof fn lemma_plain_len(s: Seq<char>, hash: bool)
    ensures
        plain_len(s, hash) <= s.len(),
        plain_len(s, hash) < s.len() ==> is_break(s[plain_len(s, hash) as int]) || (hash && s[plain_len(
            s,
            hash,
        ) as int] == '#'),
        forall|i: int|
            0 <= i < plain_len(s, hash) ==> !is_break(#[trigger] s[i]) && (hash ==> s[i] != '#'),
    decreases s.len(),
{
    if s.len() > 0 && !is_break(s[0]) && !(hash && s[0] == '#') {
        lemma_plain_len(s.drop_first(), hash);
        assert forall|i: int| 0 <= i < plain_len(s, hash) implies !is_break(#[trigger] s[i]) && (hash
            ==> s[i] != '#') by {
            if i > 0 {
                assert(s[i] == s.drop_first()[i - 1]);
            }
        }
    }
}

/// What follows a line is no longer than what it is read from.
pub proof fn lemma_line_rest(s: Seq<char>)
    ensures
        line_rest(s).len() <= s.len(),
{
    let a = skip_blanks(s);
    lemma_skip_blanks(s);
    lemma_plain_len(a, true);
    let b = a.skip(plain_len(a, true) as int);
    lemma_plain_len(b, false);
}

/// The strings of a list, as characters.
pub open spec fn strings(list: Seq<String>) -> Seq<Seq<char>> {
    Seq::new(list.len(), |i: int| list[i]@)
}

fn is_white_space_char(c: char) -> (r: bool)
    ensures
        r == is_white_space(c),
{
    let n = c as u32;
    (0x9 <= n && n <= 0xd) || n == 0x20 || n == 0x85 || n == 0xa0 || n == 0x1680 || (0x2000 <= n && n
        <= 0x200a) || n == 0x2028 || n == 0x2029 || n == 0x202f || n == 0x205f || n == 0x3000
}

/// The index behind the blanks that stand at `from`.
fn space0(text: &Vec<char>, from: usize) -> (to: usize)
    requires
        from <= text@.len(),
    ensures
        from <= to <= text@.len(),
        text@.skip(to as int) == skip_blanks(text@.skip(from as int)),
{
    let mut to: usize = from;
    while to < text.len() && (text[to] == ' ' || text[to] == '\t')
        invariant
            from <= to <= text@.len(),
            skip_blanks(text@.skip(to as int)) == skip_blanks(text@.skip(from as int)),
        decreases text@.len() - to,
    {
        assert(text@.skip(to as int).drop_first() =~= text@.skip(to + 1));
        to = to + 1;
    }
    to
}

/// The index behind the plain text that stands at `from`.
fn plain_end(text: &Vec<char>, from: usize, hash: bool) -> (to: usize)
    requires
        from <= text@.len(),
    ensures
        from <= to <= text@.len(),
        to == from + plain_len(text@.skip(from as int), hash),
{
    let mut to: usize = from;
    while to < text.len() && text[to] != '\r' && text[to] != '\n' && !(hash && text[to] == '#')
        invariant
            from <= to <= text@.len(),
            from + plain_len(text@.skip(from as int), hash) == to + plain_len(
                text@.skip(to as int),
                hash,
            ),
        decreases text@.len() - to,
    {
        assert(text@.skip(to as int).drop_first() =~= text@.skip(to + 1));
        to = to + 1;
    }
    to
}

/// The length of the line ending at `from`; 0 if there is none.
fn line_ending(text: &Vec<char>, from: usize) -> (n: usize)
    requires
        from <= text@.len(),
    ensures
        n == break_len(text@.skip(from as int)),
        from + n <= text@.len(),
{
    if from < text.len() && text[from] == '\n' {
        1
    } else if text.len() - from > 1 && text[from] == '\r' && text[from + 1] == '\n' {
        2
    } else {
        0
    }
}

/// The index behind the comment that stands at `from`.
fn comment(text: &Vec<char>, from: usize) -> (to: usize)
    requires
        from <= text@.len(),
    ensures
        from <= to <= text@.len(),
        text@.skip(to as int) == after_comment(text@.skip(from as int)),
{
    if from < text.len() && text[from] == '#' {
        let to = plain_end(text, from, false);
        assert(text@.skip(from as int).skip(to - from) =~= text@.skip(to as int));
        if to == text.len() || line_ending(text, to) > 0 {
            return to;
        }
    }
    from
}

/// The path between two indices, without the white space at its end.
fn path(text: &Vec<char>, from: usize, to: usize) -> (r: String)
    requires
        from <= to <= text@.len(),
    ensures
        r@ == trim_end(text@.subrange(from as int, to as int)),
{
    let mut end: usize = to;
    while end > from && is_white_space_char(text[end - 1])
        invariant
            from <= end <= to <= text@.len(),
            trim_end(text@.subrange(from as int, end as int)) == trim_end(
                text@.subrange(from as int, to as int),
            ),
        decreases end,
    {
        assert(text@.subrange(from as int, end as int).drop_last() =~= text@.subrange(
            from as int,
            end - 1,
        ));
        end = end - 1;
    }
    let mut r = String::new();
    let mut i: usize = from;
    while i < end
        invariant
            from <= i <= end <= text@.len(),
            r@ == text@.subrange(from as int, i as int),
        decreases end - i,
    {
        r.push(text[i]);
        assert(text@.subrange(from as int, i + 1) =~= text@.subrange(from as int, i as int).push(
            text@[i as int],
        ));
        i = i + 1;
    }
    r
}

/// The path on the line at `from`, and the index behind its path and comment.
fn line(text: &Vec<char>, from: usize) -> (r: (Option<String>, usize))
    requires
        from <= text@.len(),
    ensures
        from <= r.1 <= text@.len(),
        text@.skip(r.1 as int) == line_rest(text@.skip(from as int)),
        match r.0 {
            Some(p) => line_path(text@.skip(from as int)) == Some(p@),
            None => line_path(text@.skip(from as int)) is None,
        },
{
    let start = space0(text, from);
    let end = plain_end(text, start, true);
    proof {
        let a = text@.skip(start as int);
        assert(a.take(end - start) =~= text@.subrange(start as int, end as int));
        assert(a.skip(end - start) =~= text@.skip(end as int));
    }
    let p = if end > start {
        Some(path(text, start, end))
    } else {
        None
    };
    (p, comment(text, end))
}

/// The characters of a text.
fn chars(text: &str) -> (r: Vec<char>)
    ensures
        r@ == text@,
{
    let mut r: Vec<char> = Vec::new();
    for c in it: text.chars()
        invariant
            r@ == it.seq().take(it.index()),
            it.seq() == text@,
    {
        r.push(c);
        assert(it.seq().take(it.index() + 1) =~= it.seq().take(it.index()).push(c));
    }
    assert(text@.take(text@.len() as int) =~= text@);
    r
}

/// The paths in the text of a filter file.
pub fn parser(text: &str) -> (paths: Vec<String>)
    ensures
        strings(paths@) == text_paths(text@),
{
    let s = chars(text);
    let mut paths: Vec<String> = Vec::new();
    let mut from: usize = 0;
    assert(s@.skip(0) =~= s@);
    assert(strings(paths@) =~= Seq::empty());
    loop
        invariant
            s@ == text@,
            from <= s@.len(),
            text_paths(text@) == strings(paths@) + text_paths(s@.skip(from as int)),
        decreases s@.len() - from,
    {
        let (p, end) = line(&s, from);
        let ghost before = strings(paths@);
        let ghost here = s@.skip(from as int);
        if let Some(path) = p {
            paths.push(path);
            assert(strings(paths@) =~= before.push(path@));
        }
        assert(strings(paths@) =~= before + as_list(line_path(here)));
        let n = line_ending(&s, end);
        if n == 0 {
            return paths;
        }
        assert(s@.skip(end as int).skip(n as int) =~= s@.skip(end + n));
        assert(strings(paths@) + text_paths(s@.skip(end + n)) =~= before + (as_list(line_path(here))
            + text_paths(s@.skip(end + n))));
        assert(end + n <= s.len());
        from = end + n;
    }
}

/// The filter paths of a file, and what those already looked up have been resolved to.
pub struct Filters {
    pub paths: Vec<String>,
    pub resolved: Vec<Vec<u8>>,
}

/// What is to be done next with the filter paths.
pub enum FilterStep {
    /// Resolve this path, and add what comes of it.
    Canonicalize(String),
    /// Give up: this path is not absolute.
    NotAbsolute(String),
    /// All paths are resolved.
    Done,
}

/// What is to be done next with the filter paths, as values.
pub enum StepView {
    Canonicalize(Seq<char>),
    NotAbsolute(Seq<char>),
    Done,
}

impl View for FilterStep {
    type V = StepView;

    open spec fn view(&self) -> StepView {
        match self {
            FilterStep::Canonicalize(path) => StepView::Canonicalize(path@),
            FilterStep::NotAbsolute(path) => StepView::NotAbsolute(path@),
            FilterStep::Done => StepView::Done,
        }
    }
}

/// A path that starts with `/`.
pub open spec fn is_absolute_text(path: Seq<char>) -> bool {
    path.len() > 0 && path[0] == '/'
}

/// What is to be done once the first `done` paths are resolved: the next path is resolved,
/// unless it is not absolute.
pub open spec fn next_step(paths: Seq<Seq<char>>, done: int) -> StepView {
    if done >= paths.len() {
        StepView::Done
    } else if is_absolute_text(paths[done]) {
        StepView::Canonicalize(paths[done])
    } else {
        StepView::NotAbsolute(paths[done])
    }
}

/// Reads a filter file: its paths, none of them resolved.
pub fn parse_filter(text: &str) -> (r: Filters)
    ensures
        strings(r.paths@) == text_paths(text@),
        r.resolved@.len() == 0,
{
    Filters { paths: parser(text), resolved: Vec::new() }
}

impl Filters {
    /// What is to be done next: the paths are resolved in order, and the first that is
    /// not absolute ends it.
    pub fn step(&self) -> (r: FilterStep)
        ensures
            r@ == next_step(strings(self.paths@), self.resolved@.len() as int),
    {
        let next = self.resolved.len();
        if next >= self.paths.len() {
            return FilterStep::Done;
        }
        let path = self.paths[next].clone();
        let first = path.as_str().chars().next();
        if first == Some('/') {
            FilterStep::Canonicalize(path)
        } else {
            FilterStep::NotAbsolute(path)
        }
    }

    /// Adds what the next path has been resolved to.
    pub fn add_resolved(&mut self, canonical: Vec<u8>)
        ensures
            final(self).paths == old(self).paths,
            final(self).resolved@ == old(self).resolved@.push(canonical),
    {
        self.resolved.push(canonical);
    }
}

/// How a run over the filter paths ends.
pub enum FilterEnd {
    /// All paths are resolved, to these.
    Resolved(Seq<Seq<u8>>),
    /// This path is not absolute.
    NotAbsolute(Seq<char>),
    /// This path could not be resolved.
    Unresolved(Seq<char>),
}

/// How a run ends that has got as far as `resolved`: step by step, where `outcomes` holds
/// for each path what it resolves to, or `None` where it does not.
pub open spec fn filter_run(
    paths: Seq<Seq<char>>,
    outcomes: Seq<Option<Seq<u8>>>,
    resolved: Seq<Seq<u8>>,
) -> FilterEnd
    decreases paths.len() - resolved.len(),
{
    match next_step(paths, resolved.len() as int) {
        StepView::Done => FilterEnd::Resolved(resolved),
        StepView::NotAbsolute(path) => FilterEnd::NotAbsolute(path),
        StepView::Canonicalize(path) => match outcomes[resolved.len() as int] {
            Some(canonical) => filter_run(paths, outcomes, resolved.push(canonical)),
            None => FilterEnd::Unresolved(path),
        },
    }
}

/// The path is absolute and resolves.
pub open spec fn is_usable(
    paths: Seq<Seq<char>>,
    outcomes: Seq<Option<Seq<u8>>>,
    i: int,
) -> bool {
    is_absolute_text(paths[i]) && outcomes[i] is Some
}

/// What the first `k` paths resolve to.
pub open spec fn results(outcomes: Seq<Option<Seq<u8>>>, k: int) -> Seq<Seq<u8>> {
    Seq::new(k as nat, |i: int| outcomes[i]->0)
}

/// With the first `k` paths usable, a run gets behind them.
proof fn lemma_run_gets_to(paths: Seq<Seq<char>>, outcomes: Seq<Option<Seq<u8>>>, k: int)
    requires
        0 <= k <= paths.len(),
        forall|i: int| 0 <= i < k ==> #[trigger] is_usable(paths, outcomes, i),
    ensures
        filter_run(paths, outcomes, Seq::empty()) == filter_run(
            paths,
            outcomes,
            results(outcomes, k),
        ),
    decreases k,
{
    if k == 0 {
        assert(results(outcomes, 0) =~= Seq::empty());
    } else {
        lemma_run_gets_to(paths, outcomes, k - 1);
        assert(is_usable(paths, outcomes, k - 1));
        assert(results(outcomes, k - 1).push(outcomes[k - 1]->0) =~= results(outcomes, k));
    }
}

/// A run over the filter paths ends well just if every path is absolute and resolves. Its
/// result is then what each path resolves to, in the order of the file, none left out.
pub proof fn law_usable_filters_are_resolved_in_order(
    paths: Seq<Seq<char>>,
    outcomes: Seq<Option<Seq<u8>>>,
)
    ensures
        filter_run(paths, outcomes, Seq::empty()) is Resolved <==> forall|i: int|
            0 <= i < paths.len() ==> (#[trigger] paths[i]).len() > 0 && paths[i][0] == '/'
                && outcomes[i] is Some,
        filter_run(paths, outcomes, Seq::empty()) matches FilterEnd::Resolved(resolved) ==> {
            &&& resolved.len() == paths.len()
            &&& forall|i: int|
                0 <= i < paths.len() ==> outcomes[i] == Some(#[trigger] resolved[i])
        },
{
    let n = paths.len() as int;
    if forall|i: int| 0 <= i < n ==> #[trigger] is_usable(paths, outcomes, i) {
        lemma_run_gets_to(paths, outcomes, n);
        assert forall|i: int| 0 <= i < n implies (#[trigger] paths[i]).len() > 0 && paths[i][0]
            == '/' && outcomes[i] is Some by {
            assert(is_usable(paths, outcomes, i));
        }
        assert forall|i: int| 0 <= i < n implies outcomes[i] == Some(
            #[trigger] results(outcomes, n)[i],
        ) by {
            assert(is_usable(paths, outcomes, i));
        }
    } else {
        let i = choose|i: int| 0 <= i < n && !#[trigger] is_usable(paths, outcomes, i);
        assert(!(paths[i].len() > 0 && paths[i][0] == '/' && outcomes[i] is Some));
        let k = first_unusable(paths, outcomes, i);
        assert forall|j: int| 0 <= j < k implies (#[trigger] paths[j]).len() > 0 && paths[j][0]
            == '/' && outcomes[j] is Some by {
            assert(is_usable(paths, outcomes, j));
        }
        law_first_unusable_filter_ends_the_run(paths, outcomes, k);
    }
}

/// The first path that cannot be used, up to one that cannot.
proof fn first_unusable(paths: Seq<Seq<char>>, outcomes: Seq<Option<Seq<u8>>>, i: int) -> (k: int)
    requires
        0 <= i,
        !is_usable(paths, outcomes, i),
    ensures
        0 <= k <= i,
        !is_usable(paths, outcomes, k),
        forall|j: int| 0 <= j < k ==> #[trigger] is_usable(paths, outcomes, j),
    decreases i,
{
    if forall|j: int| 0 <= j < i ==> #[trigger] is_usable(paths, outcomes, j) {
        i
    } else {
        let j = choose|j: int| 0 <= j < i && !#[trigger] is_usable(paths, outcomes, j);
        first_unusable(paths, outcomes, j)
    }
}

/// The first path that is not absolute, or does not resolve, ends the run with the error
/// for that path.
pub proof fn law_first_unusable_filter_ends_the_run(
    paths: Seq<Seq<char>>,
    outcomes: Seq<Option<Seq<u8>>>,
    k: int,
)
    requires
        0 <= k < paths.len(),
        !(paths[k].len() > 0 && paths[k][0] == '/' && outcomes[k] is Some),
        forall|i: int|
            0 <= i < k ==> (#[trigger] paths[i]).len() > 0 && paths[i][0] == '/' && outcomes[i] is Some,
    ensures
        filter_run(paths, outcomes, Seq::empty()) == if paths[k].len() > 0 && paths[k][0] == '/' {
            FilterEnd::Unresolved(paths[k])
        } else {
            FilterEnd::NotAbsolute(paths[k])
        },
{
    lemma_run_gets_to(paths, outcomes, k);
}

/// Every `\r` in the text, but for one at its end, is followed by `\n`.
pub open spec fn no_stray_return(s: Seq<char>) -> bool {
    forall|i: int| 0 <= i < s.len() - 1 && #[trigger] s[i] == '\r' ==> s[i + 1] == '\n'
}

/// The text, a line ending, and another text.
pub open spec fn joined(a: Seq<char>, b: Seq<char>) -> Seq<char> {
    a + seq!['\n'] + b
}

proof fn lemma_joined_blanks(a: Seq<char>, b: Seq<char>)
    ensures
        skip_blanks(joined(a, b)) == joined(skip_blanks(a), b),
    decreases a.len(),
{
    let s = joined(a, b);
    if a.len() > 0 {
        assert(s.drop_first() =~= joined(a.drop_first(), b));
        lemma_joined_blanks(a.drop_first(), b);
    }
}

proof fn lemma_joined_plain(a: Seq<char>, b: Seq<char>, hash: bool)
    ensures
        plain_len(joined(a, b), hash) == plain_len(a, hash),
    decreases a.len(),
{
    let s = joined(a, b);
    if a.len() > 0 {
        assert(s.drop_first() =~= joined(a.drop_first(), b));
        lemma_joined_plain(a.drop_first(), b, hash);
    }
}

proof fn lemma_joined_skip(a: Seq<char>, b: Seq<char>, n: int)
    requires
        0 <= n <= a.len(),
    ensures
        joined(a, b).skip(n) == joined(a.skip(n), b),
{
    assert(joined(a, b).skip(n) =~= joined(a.skip(n), b));
}

/// The line that `a` starts with, read with more text behind `a`: the same path; and
/// either a line ending in `a` follows it, or the one behind `a`.
proof fn lemma_joined_line(a: Seq<char>, b: Seq<char>)
    requires
        no_stray_return(a),
    ensures
        line_path(joined(a, b)) == line_path(a),
        ({
            let ra = line_rest(a);
            let rs = line_rest(joined(a, b));
            if break_len(ra) > 0 {
                &&& rs == joined(ra, b)
                &&& break_len(rs) == break_len(ra)
                &&& ra == a.skip(a.len() - ra.len())
                &&& ra.len() <= a.len()
            } else {
                break_len(rs) > 0 && rs.skip(break_len(rs) as int) == b
            }
        }),
{
    let s = joined(a, b);
    let a1 = skip_blanks(a);
    let n = plain_len(a1, true) as int;
    lemma_skip_blanks(a);
    lemma_joined_blanks(a, b);
    lemma_plain_len(a1, true);
    lemma_joined_plain(a1, b, true);
    lemma_joined_skip(a1, b, n);
    assert(joined(a1, b).take(n) =~= a1.take(n));
    let a2 = a1.skip(n);
    assert(a2 =~= a.skip(a.len() - a2.len()));
    let s2 = joined(a2, b);
    let m = plain_len(a2, false) as int;
    lemma_plain_len(a2, false);
    lemma_joined_plain(a2, b, false);
    lemma_joined_skip(a2, b, m);
    let a3 = a2.skip(m);
    assert(a3 =~= a.skip(a.len() - a3.len()));
    assert forall|i: int| 0 <= i < a2.len() - 1 && #[trigger] a2[i] == '\r' implies a2[i + 1] == '\n' by {
        assert(a2[i] == a[a.len() - a2.len() + i]);
        assert(a2[i + 1] == a[a.len() - a2.len() + i + 1]);
    }
    if a2.len() == 0 {
        assert(s2 =~= seq!['\n'] + b);
        assert(s2.skip(1) =~= b);
    } else if a2[0] == '#' {
        let s3 = joined(a3, b);
        assert(after_comment(s2) == if break_len(s3) > 0 {
            s3
        } else {
            s2
        });
        if a3.len() == 0 {
            assert(s3.skip(1) =~= b);
        } else {
            assert(a3[0] == a2[m]);
            if a3.len() == 1 {
                if a3[0] == '\r' {
                    assert(s3.skip(2) =~= b);
                }
            } else {
                assert(a3[1] == a2[m + 1]);
                assert(s3[1] == a3[1]);
            }
        }
    } else {
        assert(is_break(a2[0]));
        if a2.len() == 1 {
            if a2[0] == '\r' {
                assert(s2.skip(2) =~= b);
            }
        } else {
            assert(s2[1] == a2[1]);
        }
    }
}

/// Lines are read one by one: the paths of two texts with a line ending between them are
/// those of the one, then those of the other.
pub proof fn law_lines_are_independent(a: Seq<char>, b: Seq<char>)
    requires
        forall|i: int| 0 <= i < a.len() - 1 && #[trigger] a[i] == '\r' ==> a[i + 1] == '\n',
    ensures
        text_paths(a + seq!['\n'] + b) == text_paths(a) + text_paths(b),
    decreases a.len(),
{
    let s = joined(a, b);
    let ra = line_rest(a);
    let rs = line_rest(s);
    let n = break_len(ra) as int;
    lemma_joined_line(a, b);
    if n > 0 {
        let rest = ra.skip(n);
        lemma_joined_skip(ra, b, n);
        assert forall|i: int| 0 <= i < rest.len() - 1 && #[trigger] rest[i] == '\r' implies rest[i + 1]
            == '\n' by {
            let off = a.len() - ra.len() + n;
            assert(rest[i] == a[off + i]);
            assert(rest[i + 1] == a[off + i + 1]);
        }
        law_lines_are_independent(rest, b);
        assert(text_paths(s) =~= text_paths(a) + text_paths(b));
    } else {
        assert(text_paths(s) =~= text_paths(a) + text_paths(b));
    }
}

/// A comment changes nothing: a line has the path that stands before its `#`.
pub proof fn law_comments_are_skipped(p: Seq<char>, c: Seq<char>)
    requires
        forall|i: int|
            0 <= i < p.len() ==> #[trigger] p[i] != '\r' && p[i] != '\n' && p[i] != '#',
        forall|i: int| 0 <= i < c.len() ==> #[trigger] c[i] != '\r' && c[i] != '\n',
    ensures
        text_paths(p + seq!['#'] + c) == text_paths(p),
{
    let s = p + seq!['#'] + c;
    lemma_before_hash_blanks(p, c);
    let a = skip_blanks(p);
    lemma_skip_blanks(p);
    let t = a + seq!['#'] + c;
    lemma_plain_len(a, true);
    lemma_plain_len(t, true);
    assert(plain_len(a, true) == a.len()) by {
        if plain_len(a, true) < a.len() {
            let k = plain_len(a, true) as int;
            assert(a[k] == p[p.len() - a.len() + k]);
        }
    }
    assert(plain_len(t, true) == a.len()) by {
        let k = plain_len(t, true) as int;
        if k < a.len() {
            assert(t[k] == a[k]);
            assert(a[k] == p[p.len() - a.len() + k]);
        }
        assert(t[a.len() as int] == '#');
    }
    let rest = t.skip(a.len() as int);
    assert(t.take(a.len() as int) =~= a);
    assert(a.take(a.len() as int) =~= a);
    assert(rest =~= seq!['#'] + c);
    lemma_plain_len(rest, false);
    assert(plain_len(rest, false) == rest.len()) by {
        let k = plain_len(rest, false) as int;
        if k < rest.len() {
            if k > 0 {
                assert(rest[k] == c[k - 1]);
            }
        }
    }
    assert(line_rest(s).len() == 0);
    assert(line_rest(p).len() == 0);
}

proof fn lemma_before_hash_blanks(p: Seq<char>, c: Seq<char>)
    ensures
        skip_blanks(p + seq!['#'] + c) == skip_blanks(p) + seq!['#'] + c,
    decreases p.len(),
{
    let s = p + seq!['#'] + c;
    if p.len() > 0 {
        assert(s.drop_first() =~= p.drop_first() + seq!['#'] + c);
        lemma_before_hash_blanks(p.drop_first(), c);
    }
}

proof fn lemma_all_plain(s: Seq<char>, hash: bool)
    requires
        forall|i: int| 0 <= i < s.len() ==> !is_break(#[trigger] s[i]) && !(hash && s[i] == '#'),
    ensures
        plain_len(s, hash) == s.len(),
{
    lemma_plain_len(s, hash);
}

proof fn lemma_blanks_in_front(b: Seq<char>, s: Seq<char>)
    requires
        forall|i: int| 0 <= i < b.len() ==> is_blank(#[trigger] b[i]),
    ensures
        skip_blanks(b + s) == skip_blanks(s),
    decreases b.len(),
{
    if b.len() == 0 {
        assert(b + s =~= s);
    } else {
        assert((b + s).drop_first() =~= b.drop_first() + s);
        lemma_blanks_in_front(b.drop_first(), s);
    }
}

proof fn lemma_white_space_behind(p: Seq<char>, w: Seq<char>)
    requires
        forall|i: int| 0 <= i < w.len() ==> is_white_space(#[trigger] w[i]),
        p.len() > 0 ==> !is_white_space(p.last()),
    ensures
        trim_end(p + w) == p,
    decreases w.len(),
{
    if w.len() == 0 {
        assert(p + w =~= p);
    } else {
        assert((p + w).drop_last() =~= p + w.drop_last());
        assert((p + w).last() == w.last());
        lemma_white_space_behind(p, w.drop_last());
    }
}

/// A line with nothing in it that ends the path: the path is what is left of the line.
proof fn lemma_plain_line(b: Seq<char>, s: Seq<char>)
    requires
        forall|i: int| 0 <= i < b.len() ==> is_blank(#[trigger] b[i]),
        forall|i: int| 0 <= i < s.len() ==> !is_break(#[trigger] s[i]) && s[i] != '#',
        s.len() > 0 ==> !is_blank(s[0]),
    ensures
        text_paths(b + s) == if s.len() > 0 {
            seq![trim_end(s)]
        } else {
            Seq::<Seq<char>>::empty()
        },
{
    lemma_blanks_in_front(b, s);
    assert(skip_blanks(s) == s);
    lemma_all_plain(s, true);
    assert(s.take(s.len() as int) =~= s);
    assert(s.skip(s.len() as int) =~= Seq::empty());
    assert(line_rest(b + s).len() == 0);
}

/// A line holds one path, whole, whatever its length: all that stands between the blanks at
/// its start and the white space at its end.
pub proof fn law_a_line_is_its_path(b: Seq<char>, p: Seq<char>, w: Seq<char>)
    requires
        forall|i: int| 0 <= i < b.len() ==> #[trigger] b[i] == ' ' || b[i] == '\t',
        p.len() > 0,
        forall|i: int|
            0 <= i < p.len() ==> #[trigger] p[i] != '\r' && p[i] != '\n' && p[i] != '#',
        p[0] != ' ' && p[0] != '\t',
        !is_white_space(p.last()),
        forall|i: int|
            0 <= i < w.len() ==> is_white_space(#[trigger] w[i]) && w[i] != '\r' && w[i] != '\n',
    ensures
        text_paths(b + p + w) == seq![p],
        text_paths(p) == seq![p],
{
    let s = p + w;
    assert(b + p + w =~= b + s);
    assert forall|i: int| 0 <= i < s.len() implies !is_break(#[trigger] s[i]) && s[i] != '#' by {
        if i >= p.len() {
            assert(s[i] == w[i - p.len()]);
        }
    }
    assert(s[0] == p[0]);
    lemma_plain_line(b, s);
    lemma_white_space_behind(p, w);
    let none = Seq::<char>::empty();
    assert(none + p =~= p);
    lemma_plain_line(none, p);
    lemma_white_space_behind(p, none);
    assert(p + none =~= p);
}

/// A line of blanks holds no path.
pub proof fn law_blank_lines_hold_no_path(b: Seq<char>)
    requires
        forall|i: int| 0 <= i < b.len() ==> #[trigger] b[i] == ' ' || b[i] == '\t',
    ensures
        text_paths(b).len() == 0,
{
    let none = Seq::<char>::empty();
    assert(b + none =~= b);
    lemma_plain_line(b, none);
}

/// A line of white space that is more than blanks holds an empty path.
pub proof fn law_other_white_space_is_an_empty_path(b: Seq<char>, w: Seq<char>)
    requires
        forall|i: int| 0 <= i < b.len() ==> #[trigger] b[i] == ' ' || b[i] == '\t',
        w.len() > 0,
        w[0] != ' ' && w[0] != '\t',
        forall|i: int|
            0 <= i < w.len() ==> is_white_space(#[trigger] w[i]) && w[i] != '\r' && w[i] != '\n',
    ensures
        text_paths(b + w) == seq![Seq::<char>::empty()],
{
    let none = Seq::<char>::empty();
    lemma_plain_line(b, w);
    lemma_white_space_behind(none, w);
    assert(none + w =~= w);
}

proof fn lemma_stop_blanks(a: Seq<char>, x: Seq<char>)
    requires
        x.len() > 0,
        x[0] == '\r',
    ensures
        skip_blanks(a + x) == skip_blanks(a) + x,
    decreases a.len(),
{
    if a.len() > 0 {
        assert((a + x).drop_first() =~= a.drop_first() + x);
        lemma_stop_blanks(a.drop_first(), x);
    } else {
        assert(a + x =~= x);
    }
}

proof fn lemma_stop_plain(a: Seq<char>, x: Seq<char>, hash: bool)
    requires
        x.len() > 0,
        x[0] == '\r',
    ensures
        plain_len(a + x, hash) == plain_len(a, hash),
    decreases a.len(),
{
    if a.len() > 0 {
        assert((a + x).drop_first() =~= a.drop_first() + x);
        lemma_stop_plain(a.drop_first(), x, hash);
    } else {
        assert(a + x =~= x);
    }
}

/// The line that `a` starts with, read with a stray `\r` behind `a`.
proof fn lemma_stop_line(a: Seq<char>, x: Seq<char>)
    requires
        x.len() > 0,
        x[0] == '\r',
        x.len() > 1 ==> x[1] != '\n',
        forall|i: int|
            0 <= i < a.len() && #[trigger] a[i] == '\r' ==> i + 1 < a.len() && a[i + 1] == '\n',
    ensures
        line_path(a + x) == line_path(a),
        line_rest(a).len() <= a.len(),
        line_rest(a) == a.skip(a.len() - line_rest(a).len()),
        break_len(line_rest(a)) > 0 ==> line_rest(a + x) == line_rest(a) + x,
        break_len(line_rest(a + x)) == break_len(line_rest(a)),
{
    let a1 = skip_blanks(a);
    let n = plain_len(a1, true) as int;
    lemma_skip_blanks(a);
    lemma_stop_blanks(a, x);
    lemma_plain_len(a1, true);
    lemma_stop_plain(a1, x, true);
    assert((a1 + x).take(n) =~= a1.take(n));
    let a2 = a1.skip(n);
    assert((a1 + x).skip(n) =~= a2 + x);
    assert(a2 =~= a.skip(a.len() - a2.len()));
    let s2 = a2 + x;
    let m = plain_len(a2, false) as int;
    lemma_plain_len(a2, false);
    lemma_stop_plain(a2, x, false);
    let a3 = a2.skip(m);
    assert(s2.skip(m) =~= a3 + x);
    assert(a3 =~= a.skip(a.len() - a3.len()));
    assert forall|i: int| 0 <= i < a2.len() && #[trigger] a2[i] == '\r' implies i + 1 < a2.len()
        && a2[i + 1] == '\n' by {
        assert(a2[i] == a[a.len() - a2.len() + i]);
    }
    if a2.len() == 0 {
        assert(s2 =~= x);
    } else if a2[0] == '#' {
        if a3.len() == 0 {
            assert(a3 + x =~= x);
        } else {
            assert(a3[0] == a2[m]);
            if a3[0] == '\r' {
                assert(a3[1] == a2[m + 1]);
            }
            assert((a3 + x)[0] == a3[0]);
        }
    } else {
        assert(is_break(a2[0]));
        assert(s2[0] == a2[0]);
    }
}

/// Reading stops at a `\r` that no `\n` follows: what stands before it is read, and nothing
/// behind it.
pub proof fn law_reading_stops_at_a_stray_return(a: Seq<char>, tail: Seq<char>)
    requires
        forall|i: int|
            0 <= i < a.len() && #[trigger] a[i] == '\r' ==> i + 1 < a.len() && a[i + 1] == '\n',
        tail.len() > 0 ==> tail[0] != '\n',
    ensures
        text_paths(a + seq!['\r'] + tail) == text_paths(a),
    decreases a.len(),
{
    let x = seq!['\r'] + tail;
    let s = a + seq!['\r'] + tail;
    assert(s =~= a + x);
    lemma_stop_line(a, x);
    let ra = line_rest(a);
    let n = break_len(ra) as int;
    if n > 0 {
        let rest = ra.skip(n);
        assert((ra + x).skip(n) =~= rest + seq!['\r'] + tail);
        assert forall|i: int| 0 <= i < rest.len() && #[trigger] rest[i] == '\r' implies i + 1
            < rest.len() && rest[i + 1] == '\n' by {
            let off = a.len() - ra.len() + n;
            assert(rest[i] == a[off + i]);
        }
        law_reading_stops_at_a_stray_return(rest, tail);
    }
}

/// Lines can end with `\r\n` as well: the paths of two texts with that between them are those
/// of the one, then those of the other.
pub proof fn law_lines_can_end_with_a_return(a: Seq<char>, b: Seq<char>)
    requires
        forall|i: int|
            0 <= i < a.len() && #[trigger] a[i] == '\r' ==> i + 1 < a.len() && a[i + 1] == '\n',
    ensures
        text_paths(a + seq!['\r', '\n'] + b) == text_paths(a) + text_paths(b),
{
    let none = Seq::<char>::empty();
    let r = a + seq!['\r'];
    law_reading_stops_at_a_stray_return(a, none);
    assert(a + seq!['\r'] + none =~= r);
    assert forall|i: int| 0 <= i < r.len() - 1 && #[trigger] r[i] == '\r' implies r[i + 1] == '\n' by {
        assert(a[i] == '\r');
    }
    law_lines_are_independent(r, b);
    assert(r + seq!['\n'] + b =~= a + seq!['\r', '\n'] + b);
}

/// The next path is resolved if it starts with a slash, and else refused; with none left the
/// run is over.
pub proof fn law_paths_are_taken_by_their_first_character(paths: Seq<Seq<char>>, done: int)
    requires
        0 <= done,
    ensures
        done >= paths.len() ==> next_step(paths, done) == StepView::Done,
        done < paths.len() && paths[done].len() > 0 && paths[done][0] == '/' ==> next_step(
            paths,
            done,
        ) == StepView::Canonicalize(paths[done]),
        done < paths.len() && (paths[done].len() == 0 || paths[done][0] != '/') ==> next_step(
            paths,
            done,
        ) == StepView::NotAbsolute(paths[done]),
{
}

/// The strings of a list are its characters, one by one and in order.
pub proof fn law_strings_are_their_characters(list: Seq<String>, i: int)
    requires
        0 <= i < list.len(),
    ensures
        strings(list).len() == list.len(),
        strings(list)[i] == list[i]@,
{
}

} // verus!
