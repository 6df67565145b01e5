use vstd::prelude::*;

verus! {

/// Whether a character counts as indentation inside a block string: a space or a tab.
pub open spec fn spec_is_whitespace(c: char) -> bool {
    c == ' ' || c == '\t'
}

/// Whether every character of a line is a space or a tab.
pub open spec fn spec_is_blank(line: Seq<char>) -> bool {
    forall|i: int| 0 <= i < line.len() ==> spec_is_whitespace(#[trigger] line[i])
}

/// The number of spaces and tabs a line starts with.
pub open spec fn spec_indent(line: Seq<char>) -> nat
    decreases line.len(),
{
    if line.len() == 0 {
        0
    } else if spec_is_whitespace(line[0]) {
        1 + spec_indent(line.drop_first())
    } else {
        0
    }
}

/// The number of characters before the first line feed, or the length when there is none.
pub open spec fn spec_line_length(s: Seq<char>) -> nat
    decreases s.len(),
{
    if s.len() == 0 {
        0
    } else if s[0] == '\n' {
        0
    } else {
        1 + spec_line_length(s.drop_first())
    }
}

/// A line without the carriage return that preceded its line feed.
pub open spec fn spec_strip_carriage_return(line: Seq<char>) -> Seq<char> {
    if line.len() > 0 && line.last() == '\r' {
        line.drop_last()
    } else {
        line
    }
}

/// The lines of a text, as `str::lines` reads them: split at each line feed, a carriage return
/// right before a line feed dropped with it, and no empty line after a final line feed.
pub open spec fn spec_lines(s: Seq<char>) -> Seq<Seq<char>>
    decreases s.len(),
{
    if s.len() == 0 {
        seq![]
    } else {
        let n = spec_line_length(s);
        if n >= s.len() {
            seq![s]
        } else {
            seq![spec_strip_carriage_return(s.take(n as int))] + spec_lines(s.skip((n + 1) as int))
        }
    }
}

/// The smallest indent among the lines that hold something besides spaces and tabs.
pub open spec fn spec_min_indent(lines: Seq<Seq<char>>) -> Option<nat>
    decreases lines.len(),
{
    if lines.len() == 0 {
        None
    } else {
        let previous = spec_min_indent(lines.drop_last());
        let line = lines.last();
        if spec_is_blank(line) {
            previous
        } else {
            match previous {
                None => Some(spec_indent(line)),
                Some(p) => if spec_indent(line) < p {
                    Some(spec_indent(line))
                } else {
                    Some(p)
                },
            }
        }
    }
}

/// The indent common to every line after the first that is not blank; 0 when there is none.
pub open spec fn spec_common_indent(source: Seq<char>) -> nat {
    spec_indent_after_first(spec_lines(source))
}

/// The smallest indent among the non-blank lines after the first; 0 when there is none.
pub open spec fn spec_indent_after_first(lines: Seq<Seq<char>>) -> nat {
    if lines.len() == 0 {
        0
    } else {
        match spec_min_indent(lines.skip(1)) {
            Some(n) => n,
            None => 0,
        }
    }
}

/// A line with its first `n` characters removed (all of them when it is shorter).
pub open spec fn spec_skip_chars(line: Seq<char>, n: nat) -> Seq<char> {
    if n >= line.len() {
        seq![]
    } else {
        line.skip(n as int)
    }
}

/// Every line but the first dedented by `indent`.
pub open spec fn spec_dedent(lines: Seq<Seq<char>>, indent: nat) -> Seq<Seq<char>> {
    Seq::new(
        lines.len(),
        |i: int|
            if i == 0 {
                lines[i]
            } else {
                spec_skip_chars(lines[i], indent)
            },
    )
}

/// The number of blank lines a list of lines starts with.
pub open spec fn spec_leading_blank(lines: Seq<Seq<char>>) -> nat
    decreases lines.len(),
{
    if lines.len() == 0 {
        0
    } else if spec_is_blank(lines[0]) {
        1 + spec_leading_blank(lines.drop_first())
    } else {
        0
    }
}

/// The number of blank lines a list of lines ends with.
pub open spec fn spec_trailing_blank(lines: Seq<Seq<char>>) -> nat
    decreases lines.len(),
{
    if lines.len() == 0 {
        0
    } else if spec_is_blank(lines.last()) {
        1 + spec_trailing_blank(lines.drop_last())
    } else {
        0
    }
}

/// The lines without the blank lines at their start, then without those at their end.
pub open spec fn spec_trim_blank(lines: Seq<Seq<char>>) -> Seq<Seq<char>> {
    let rest = lines.skip(spec_leading_blank(lines) as int);
    rest.take(rest.len() - spec_trailing_blank(rest))
}

proof fn lemma_leading_blank(lines: Seq<Seq<char>>)
    ensures
        spec_leading_blank(lines) <= lines.len(),
        forall|i: int| 0 <= i < spec_leading_blank(lines) ==> spec_is_blank(#[trigger] lines[i]),
        spec_leading_blank(lines) < lines.len() ==> !spec_is_blank(lines[spec_leading_blank(lines) as int]),
    decreases lines.len(),
{
    if lines.len() > 0 && spec_is_blank(lines[0]) {
        lemma_leading_blank(lines.drop_first());
        assert forall|i: int| 0 <= i < spec_leading_blank(lines) implies spec_is_blank(#[trigger] lines[i]) by {
            if i > 0 {
                assert(lines[i] == lines.drop_first()[i - 1]);
            }
        }
        if spec_leading_blank(lines) < lines.len() {
            assert(lines[spec_leading_blank(lines) as int] == lines.drop_first()[spec_leading_blank(lines.drop_first()) as int]);
        }
    }
}

proof fn lemma_trailing_blank(lines: Seq<Seq<char>>)
    ensures
        spec_trailing_blank(lines) <= lines.len(),
        forall|i: int| lines.len() - spec_trailing_blank(lines) <= i < lines.len() ==> spec_is_blank(#[trigger] lines[i]),
        spec_trailing_blank(lines) < lines.len() ==> !spec_is_blank(lines[lines.len() - 1 - spec_trailing_blank(lines)]),
    decreases lines.len(),
{
    if lines.len() > 0 && spec_is_blank(lines.last()) {
        lemma_trailing_blank(lines.drop_last());
        assert forall|i: int| lines.len() - spec_trailing_blank(lines) <= i < lines.len() implies spec_is_blank(#[trigger] lines[i]) by {
            if i < lines.len() - 1 {
                assert(lines[i] == lines.drop_last()[i]);
            }
        }
        if spec_trailing_blank(lines) < lines.len() {
            assert(lines[lines.len() - 1 - spec_trailing_blank(lines)] == lines.drop_last()[lines.drop_last().len() - 1
                - spec_trailing_blank(lines.drop_last())]);
        }
    }
}

/// Trimming keeps exactly the lines from the first non-blank one to the last non-blank one, in
/// order, and nothing when every line is blank.
pub proof fn law_trim_keeps_first_to_last_non_blank(lines: Seq<Seq<char>>)
    ensures
        (forall|i: int| 0 <= i < lines.len() ==> spec_is_blank(#[trigger] lines[i])) ==> spec_trim_blank(lines) == Seq::<Seq<char>>::empty(),
        (exists|i: int| 0 <= i < lines.len() && !spec_is_blank(#[trigger] lines[i])) ==> exists|a: int, b: int|
            #![trigger lines[a], lines[b]]
            0 <= a <= b < lines.len() && !spec_is_blank(lines[a]) && !spec_is_blank(lines[b]) && (forall|i: int|
                0 <= i < a ==> spec_is_blank(#[trigger] lines[i])) && (forall|i: int| b < i < lines.len() ==> spec_is_blank(#[trigger] lines[i]))
                && spec_trim_blank(lines) == lines.subrange(a, b + 1),
{
    lemma_leading_blank(lines);
    let a = spec_leading_blank(lines) as int;
    let rest = lines.skip(a);
    lemma_trailing_blank(rest);
    let t = spec_trailing_blank(rest) as int;
    if forall|i: int| 0 <= i < lines.len() ==> spec_is_blank(#[trigger] lines[i]) {
        if a < lines.len() {
            assert(spec_is_blank(lines[a]));
        }
        assert(rest.len() == 0);
        assert(spec_trim_blank(lines) =~= Seq::<Seq<char>>::empty());
    }
    if exists|i: int| 0 <= i < lines.len() && !spec_is_blank(#[trigger] lines[i]) {
        let w = choose|i: int| 0 <= i < lines.len() && !spec_is_blank(#[trigger] lines[i]);
        assert(a <= w);
        assert(a < lines.len());
        assert(rest[0] == lines[a]);
        assert(t < rest.len()) by {
            if t >= rest.len() {
                assert(spec_is_blank(rest[0]));
            }
        }
        let b = a + rest.len() - 1 - t;
        assert(rest[rest.len() - 1 - t] == lines[b]);
        assert forall|i: int| b < i < lines.len() implies spec_is_blank(#[trigger] lines[i]) by {
            assert(lines[i] == rest[i - a]);
        }
        assert(spec_trim_blank(lines) =~= lines.subrange(a, b + 1));
        assert(0 <= a <= b < lines.len() && !spec_is_blank(lines[a]) && !spec_is_blank(lines[b]) && (forall|i: int|
            0 <= i < a ==> spec_is_blank(#[trigger] lines[i])) && (forall|i: int| b < i < lines.len() ==> spec_is_blank(#[trigger] lines[i]))
            && spec_trim_blank(lines) == lines.subrange(a, b + 1));
    }
}

/// The lines with every line after the first prefixed by `prefix`.
pub open spec fn indent_lines_after_first(lines: Seq<Seq<char>>, prefix: Seq<char>) -> Seq<Seq<char>> {
    Seq::new(lines.len(), |i: int| if i == 0 { lines[0] } else { prefix + lines[i] })
}

/// What a block string's lines become: those after the first dedented by their common indent,
/// blank lines dropped at both ends, joined by line feeds.
pub open spec fn spec_clean_lines(lines: Seq<Seq<char>>) -> Seq<char> {
    spec_join_lines(spec_trim_blank(spec_dedent(lines, spec_indent_after_first(lines))))
}

proof fn lemma_prefix_indent(prefix: Seq<char>, line: Seq<char>)
    requires
        spec_is_blank(prefix),
    ensures
        spec_indent(prefix + line) == prefix.len() + spec_indent(line),
        spec_is_blank(prefix + line) == spec_is_blank(line),
    decreases prefix.len(),
{
    if prefix.len() > 0 {
        assert((prefix + line).drop_first() =~= prefix.drop_first() + line);
        assert(spec_is_whitespace(prefix[0]));
        lemma_prefix_indent(prefix.drop_first(), line);
        if spec_is_blank(line) {
            assert forall|i: int| 0 <= i < (prefix + line).len() implies spec_is_whitespace(#[trigger] (prefix + line)[i]) by {
                if i < prefix.len() {
                    assert((prefix + line)[i] == prefix[i]);
                } else {
                    assert((prefix + line)[i] == line[i - prefix.len()]);
                }
            }
        }
        if spec_is_blank(prefix + line) {
            assert forall|i: int| 0 <= i < line.len() implies spec_is_whitespace(#[trigger] line[i]) by {
                assert((prefix + line)[i + prefix.len()] == line[i]);
            }
        }
    } else {
        assert(prefix + line =~= line);
    }
}

proof fn lemma_min_indent_prefixed(lines: Seq<Seq<char>>, prefix: Seq<char>)
    requires
        spec_is_blank(prefix),
    ensures
        spec_min_indent(Seq::new(lines.len(), |i: int| prefix + lines[i])) == match spec_min_indent(lines) {
            Some(n) => Some((n + prefix.len()) as nat),
            None => None::<nat>,
        },
    decreases lines.len(),
{
    let q = Seq::new(lines.len(), |i: int| prefix + lines[i]);
    if lines.len() > 0 {
        lemma_min_indent_prefixed(lines.drop_last(), prefix);
        assert(q.drop_last() =~= Seq::new(lines.drop_last().len(), |i: int| prefix + lines.drop_last()[i]));
        lemma_prefix_indent(prefix, lines.last());
        assert(q.last() == prefix + lines.last());
    }
}

proof fn lemma_skip_prefixed(prefix: Seq<char>, line: Seq<char>, n: nat)
    ensures
        spec_skip_chars(prefix + line, (n + prefix.len()) as nat) == spec_skip_chars(line, n),
{
    if n < line.len() {
        assert((prefix + line).skip((n + prefix.len()) as int) =~= line.skip(n as int));
    }
}

/// Indenting every line after the first by the same run of spaces and tabs leaves a block
/// string's value unchanged.
pub proof fn law_common_indent_is_removed(lines: Seq<Seq<char>>, prefix: Seq<char>)
    requires
        spec_is_blank(prefix),
    ensures
        spec_clean_lines(indent_lines_after_first(lines, prefix)) == spec_clean_lines(lines),
{
    let t = indent_lines_after_first(lines, prefix);
    if lines.len() > 0 {
        let rest = lines.skip(1);
        lemma_min_indent_prefixed(rest, prefix);
        assert(t.skip(1) =~= Seq::new(rest.len(), |i: int| prefix + rest[i]));
        let dt = spec_dedent(t, spec_indent_after_first(t));
        let ds = spec_dedent(lines, spec_indent_after_first(lines));
        match spec_min_indent(rest) {
            Some(n) => {
                assert forall|i: int| 0 <= i < lines.len() implies #[trigger] dt[i] == ds[i] by {
                    if i > 0 {
                        lemma_skip_prefixed(prefix, lines[i], n);
                    }
                }
                assert(dt =~= ds);
            },
            None => {
                assert forall|i: int| 1 <= i < lines.len() implies spec_is_blank(#[trigger] dt[i]) && spec_is_blank(ds[i]) by {
                    assert(rest[i - 1] == lines[i]);
                    lemma_min_indent_is_least(rest);
                    lemma_prefix_indent(prefix, lines[i]);
                    assert(dt[i] == prefix + lines[i]);
                    assert(ds[i] == lines[i]);
                    if !spec_is_blank(lines[i]) {
                        assert(!spec_is_blank(rest[i - 1]));
                    }
                }
                assert forall|i: int| 1 <= i < lines.len() implies spec_is_blank(#[trigger] ds[i]) by {
                    assert(spec_is_blank(dt[i]) && spec_is_blank(ds[i]));
                }
                law_trim_keeps_first_to_last_non_blank(dt);
                law_trim_keeps_first_to_last_non_blank(ds);
                assert(dt[0] == ds[0]);
                if spec_is_blank(ds[0]) {
                    assert(spec_trim_blank(dt) == Seq::<Seq<char>>::empty());
                    assert(spec_trim_blank(ds) == Seq::<Seq<char>>::empty());
                } else {
                    assert(!spec_is_blank(dt[0]));
                    assert(spec_trim_blank(dt) =~= dt.subrange(0, 1));
                    assert(spec_trim_blank(ds) =~= ds.subrange(0, 1));
                    assert(dt.subrange(0, 1) =~= ds.subrange(0, 1));
                }
            },
        }
    } else {
        assert(t =~= lines);
    }
}

/// Lines joined by line feeds.
pub open spec fn spec_join_lines(lines: Seq<Seq<char>>) -> Seq<char>
    decreases lines.len(),
{
    if lines.len() == 0 {
        seq![]
    } else if lines.len() == 1 {
        lines[0]
    } else {
        spec_join_lines(lines.drop_last()) + seq!['\n'] + lines.last()
    }
}

/// The value of a block string whose interior is `source`: every line after the first dedented
/// by the common indent, blank lines at both ends dropped, the rest joined by line feeds.
pub open spec fn spec_clean_block_string(source: Seq<char>) -> Seq<char> {
    spec_join_lines(
        spec_trim_blank(spec_dedent(spec_lines(source), spec_common_indent(source))),
    )
}

proof fn lemma_indent_is(line: Seq<char>, j: int)
    requires
        0 <= j <= line.len(),
        forall|k: int| 0 <= k < j ==> spec_is_whitespace(#[trigger] line[k]),
        j == line.len() || !spec_is_whitespace(line[j]),
    ensures
        spec_indent(line) == j,
    decreases j,
{
    if j > 0 {
        let t = line.drop_first();
        assert forall|k: int| 0 <= k < j - 1 implies spec_is_whitespace(#[trigger] t[k]) by {
            assert(t[k] == line[k + 1]);
        }
        lemma_indent_is(t, j - 1);
    }
}

proof fn lemma_line_length_is(s: Seq<char>, j: int)
    requires
        0 <= j <= s.len(),
        forall|k: int| 0 <= k < j ==> #[trigger] s[k] != '\n',
        j == s.len() || s[j] == '\n',
    ensures
        spec_line_length(s) == j,
    decreases j,
{
    if j > 0 {
        let t = s.drop_first();
        assert forall|k: int| 0 <= k < j - 1 implies #[trigger] t[k] != '\n' by {
            assert(t[k] == s[k + 1]);
        }
        lemma_line_length_is(t, j - 1);
    }
}

proof fn lemma_indent_bound(line: Seq<char>)
    ensures
        spec_indent(line) <= line.len(),
        spec_indent(line) == line.len() <==> spec_is_blank(line),
        spec_indent(line) < line.len() ==> !spec_is_whitespace(line[spec_indent(line) as int]),
        forall|k: int| 0 <= k < spec_indent(line) ==> spec_is_whitespace(#[trigger] line[k]),
    decreases line.len(),
{
    if line.len() > 0 && spec_is_whitespace(line[0]) {
        let t = line.drop_first();
        lemma_indent_bound(t);
        assert forall|k: int| 0 <= k < spec_indent(line) implies spec_is_whitespace(
            #[trigger] line[k],
        ) by {
            if k > 0 {
                assert(line[k] == t[k - 1]);
            }
        }
        if spec_is_blank(t) {
            assert forall|i: int| 0 <= i < line.len() implies spec_is_whitespace(
                #[trigger] line[i],
            ) by {
                if i > 0 {
                    assert(line[i] == t[i - 1]);
                }
            }
        }
        if spec_is_blank(line) {
            assert forall|i: int| 0 <= i < t.len() implies spec_is_whitespace(#[trigger] t[i]) by {
                assert(t[i] == line[i + 1]);
            }
        }
    }
}

/// The characters of a string, in order.
pub fn chars_of(s: &str) -> (v: Vec<char>)
    ensures
        v@ == s@,
{
    let mut v: Vec<char> = Vec::new();
    for c in it: s.chars()
        invariant
            v@ == it.seq().take(it.index() as int),
    {
        v.push(c);
    }
    v
}

/// Appends `c` to `s`.
///
/// Calls `String::push` of std, whose documentation says it appends the given char to the end
/// of the string; the contract claims exactly that of the string's characters.
#[verifier::external_body]
fn push_char(s: &mut String, c: char)
    ensures
        final(s)@ == old(s)@.push(c),
{
    s.push(c)
}

/// Whether `c` is neither a space nor a tab.
pub fn is_not_whitespace(c: char) -> (b: bool)
    ensures
        b == !spec_is_whitespace(c),
{
    c != ' ' && c != '\t'
}

fn chars_are_blank(line: &Vec<char>) -> (b: bool)
    ensures
        b == spec_is_blank(line@),
{
    let mut i: usize = 0;
    while i < line.len()
        invariant
            i <= line.len(),
            forall|k: int| 0 <= k < i ==> spec_is_whitespace(#[trigger] line@[k]),
        decreases line.len() - i,
    {
        if is_not_whitespace(line[i]) {
            return false;
        }
        i += 1;
    }
    true
}

/// Whether every character of `line` is a space or a tab.
pub fn line_is_whitespace(line: &str) -> (b: bool)
    ensures
        b == spec_is_blank(line@),
{
    let chars = chars_of(line);
    chars_are_blank(&chars)
}

fn indent_of(line: &Vec<char>) -> (n: usize)
    ensures
        n == spec_indent(line@),
{
    let mut j: usize = 0;
    while j < line.len() && !is_not_whitespace(line[j])
        invariant
            j <= line.len(),
            forall|k: int| 0 <= k < j ==> spec_is_whitespace(#[trigger] line@[k]),
        decreases line.len() - j,
    {
        j += 1;
    }
    proof {
        lemma_indent_is(line@, j as int);
    }
    j
}

/// The views of a list of character vectors.
pub open spec fn views(lines: Seq<Vec<char>>) -> Seq<Seq<char>> {
    lines.map_values(|l: Vec<char>| l@)
}

/// The text of a range of characters.
pub fn string_from_chars(chars: &Vec<char>, from: usize, to: usize) -> (r: String)
    requires
        from <= to <= chars.len(),
    ensures
        r@ == chars@.subrange(from as int, to as int),
{
    let mut r = String::new();
    let mut i = from;
    while i < to
        invariant
            from <= i <= to <= chars.len(),
            r@ == chars@.subrange(from as int, i as int),
        decreases to - i,
    {
        push_char(&mut r, chars[i]);
        proof {
            assert(chars@.subrange(from as int, i + 1) =~= chars@.subrange(from as int, i as int).push(chars@[i as int]));
        }
        i += 1;
    }
    r
}

fn copy_range(chars: &Vec<char>, from: usize, to: usize) -> (v: Vec<char>)
    requires
        from <= to <= chars.len(),
    ensures
        v@ == chars@.subrange(from as int, to as int),
{
    let mut v: Vec<char> = Vec::new();
    let mut i = from;
    while i < to
        invariant
            from <= i <= to <= chars.len(),
            v@ == chars@.subrange(from as int, i as int),
        decreases to - i,
    {
        v.push(chars[i]);
        i += 1;
    }
    v
}

fn split_lines(chars: &Vec<char>) -> (lines: Vec<Vec<char>>)
    ensures
        views(lines@) == spec_lines(chars@),
{
    let n = chars.len();
    let mut lines: Vec<Vec<char>> = Vec::new();
    let mut start: usize = 0;
    proof {
        assert(chars@.skip(0) =~= chars@);
        assert(views(lines@) + spec_lines(chars@) =~= spec_lines(chars@));
    }
    while start < n
        invariant
            n == chars.len(),
            start <= n,
            views(lines@) + spec_lines(chars@.skip(start as int)) == spec_lines(chars@),
        decreases n - start,
    {
        let ghost t = chars@.skip(start as int);
        let mut j = start;
        while j < n && chars[j] != '\n'
            invariant
                start <= j <= n,
                n == chars.len(),
                forall|k: int| start <= k < j ==> #[trigger] chars@[k] != '\n',
            decreases n - j,
        {
            j += 1;
        }
        proof {
            assert forall|k: int| 0 <= k < j - start implies #[trigger] t[k] != '\n' by {
                assert(t[k] == chars@[start + k]);
            }
            lemma_line_length_is(t, j - start);
        }
        let ghost old_lines = views(lines@);
        if j < n {
            let end = if j > start && chars[j - 1] == '\r' {
                j - 1
            } else {
                j
            };
            let line = copy_range(chars, start, end);
            proof {
                assert(t.take(j - start) =~= chars@.subrange(start as int, j as int));
                assert(line@ == spec_strip_carriage_return(t.take(j - start)));
                assert(t.skip(j - start + 1) =~= chars@.skip(j + 1));
            }
            lines.push(line);
            proof {
                assert(views(lines@) =~= old_lines.push(line@));
                assert(views(lines@) + spec_lines(chars@.skip(j + 1)) =~= old_lines
                    + spec_lines(t));
            }
            start = j + 1;
        } else {
            let line = copy_range(chars, start, n);
            proof {
                assert(line@ =~= t);
                assert(chars@.skip(n as int) =~= Seq::<char>::empty());
            }
            lines.push(line);
            proof {
                assert(views(lines@) =~= old_lines.push(line@));
                assert(views(lines@) + spec_lines(chars@.skip(n as int)) =~= old_lines
                    + spec_lines(t));
            }
            start = n;
        }
    }
    proof {
        assert(chars@.skip(start as int) =~= Seq::<char>::empty());
        assert(views(lines@) + seq![] =~= views(lines@));
    }
    lines
}

fn min_indent_after_first(lines: &Vec<Vec<char>>) -> (r: usize)
    ensures
        r == spec_indent_after_first(views(lines@)),
{
    let ghost vs = views(lines@);
    if lines.len() == 0 {
        return 0;
    }
    let mut common: Option<usize> = None;
    let mut i: usize = 1;
    proof {
        if lines.len() >= 1 {
            assert(vs.subrange(1, 1) =~= Seq::<Seq<char>>::empty());
        }
    }
    while i < lines.len()
        invariant
            1 <= i,
            lines.len() >= 1 ==> i <= lines.len(),
            vs == views(lines@),
            lines.len() >= 1 ==> (match spec_min_indent(vs.subrange(1, i as int)) {
                Some(n) => common is Some && common.unwrap() == n,
                None => common is None,
            }),
        decreases lines.len() - i,
    {
        let line = &lines[i];
        let blank = chars_are_blank(line);
        proof {
            assert(vs.subrange(1, i + 1).drop_last() =~= vs.subrange(1, i as int));
            assert(vs.subrange(1, i + 1).last() == line@);
            lemma_indent_bound(line@);
        }
        if !blank {
            let ind = indent_of(line);
            match common {
                None => {
                    common = Some(ind);
                },
                Some(c) => {
                    if ind < c {
                        common = Some(ind);
                    }
                },
            }
        }
        i += 1;
    }
    proof {
        assert(vs.len() == lines@.len());
        if lines.len() >= 1 {
            assert(i == lines.len());
            assert(vs.subrange(1, lines.len() as int) =~= vs.skip(1));
        }
    }
    match common {
        Some(c) => c,
        None => 0,
    }
}

/// The indent common to every line after the first that holds more than spaces and tabs.
pub fn get_common_indent(source: &str) -> (n: usize)
    ensures
        n == spec_common_indent(source@),
{
    let chars = chars_of(source);
    let lines = split_lines(&chars);
    min_indent_after_first(&lines)
}

proof fn lemma_leading_blank_is(lines: Seq<Seq<char>>, a: int)
    requires
        0 <= a <= lines.len(),
        forall|k: int| 0 <= k < a ==> spec_is_blank(#[trigger] lines[k]),
        a == lines.len() || !spec_is_blank(lines[a]),
    ensures
        spec_leading_blank(lines) == a,
    decreases a,
{
    if a > 0 {
        let t = lines.drop_first();
        assert forall|k: int| 0 <= k < a - 1 implies spec_is_blank(#[trigger] t[k]) by {
            assert(t[k] == lines[k + 1]);
        }
        lemma_leading_blank_is(t, a - 1);
    }
}

proof fn lemma_trailing_blank_is(lines: Seq<Seq<char>>, b: int)
    requires
        0 <= b <= lines.len(),
        forall|k: int| lines.len() - b <= k < lines.len() ==> spec_is_blank(#[trigger] lines[k]),
        b == lines.len() || !spec_is_blank(lines[lines.len() - 1 - b]),
    ensures
        spec_trailing_blank(lines) == b,
    decreases b,
{
    if b > 0 {
        let t = lines.drop_last();
        assert forall|k: int| t.len() - (b - 1) <= k < t.len() implies spec_is_blank(
            #[trigger] t[k],
        ) by {
            assert(t[k] == lines[k]);
        }
        if b - 1 < t.len() {
            assert(t[t.len() - 1 - (b - 1)] == lines[lines.len() - 1 - b]);
        }
        lemma_trailing_blank_is(t, b - 1);
    }
}

fn dedent_lines(lines: &Vec<Vec<char>>, indent: usize) -> (out: Vec<Vec<char>>)
    ensures
        views(out@) == spec_dedent(views(lines@), indent as nat),
{
    let mut out: Vec<Vec<char>> = Vec::new();
    let mut i: usize = 0;
    while i < lines.len()
        invariant
            i <= lines.len(),
            out@.len() == i,
            forall|k: int| 0 <= k < i ==> (#[trigger] out@[k])@ == (if k == 0 {
                lines@[k]@
            } else {
                spec_skip_chars(lines@[k]@, indent as nat)
            }),
        decreases lines.len() - i,
    {
        let line = &lines[i];
        let copied = if i == 0 {
            copy_range(line, 0, line.len())
        } else if indent >= line.len() {
            Vec::new()
        } else {
            copy_range(line, indent, line.len())
        };
        proof {
            assert(line@.subrange(0, line@.len() as int) =~= line@);
            assert(line@.subrange(indent as int, line@.len() as int) =~= line@.skip(indent as int));
            if i != 0 && indent >= line.len() {
                assert(copied@ =~= spec_skip_chars(line@, indent as nat));
            }
        }
        out.push(copied);
        i += 1;
    }
    proof {
        assert(views(out@) =~= spec_dedent(views(lines@), indent as nat));
    }
    out
}

/// The interior of a block string, cleaned: every line after the first dedented by the
/// common indent, blank lines at both ends dropped, the rest joined by line feeds.
pub fn clean_block_string(source: &str) -> (r: String)
    ensures
        r@ == spec_clean_block_string(source@),
{
    let chars = chars_of(source);
    let lines = split_lines(&chars);
    let indent = min_indent_after_first(&lines);
    let formatted = dedent_lines(&lines, indent);
    let ghost ls = views(formatted@);
    let n = formatted.len();
    let mut a: usize = 0;
    while a < n && chars_are_blank(&formatted[a])
        invariant
            a <= n,
            n == formatted.len(),
            ls == views(formatted@),
            forall|k: int| 0 <= k < a ==> spec_is_blank(#[trigger] ls[k]),
        decreases n - a,
    {
        a += 1;
    }
    proof {
        lemma_leading_blank_is(ls, a as int);
    }
    let ghost rest = ls.skip(a as int);
    let mut b: usize = 0;
    while b < n - a && chars_are_blank(&formatted[n - 1 - b])
        invariant
            a <= n,
            b <= n - a,
            n == formatted.len(),
            ls == views(formatted@),
            rest == ls.skip(a as int),
            forall|k: int| rest.len() - b <= k < rest.len() ==> spec_is_blank(#[trigger] rest[k]),
        decreases n - a - b,
    {
        proof {
            assert(rest[rest.len() - 1 - b] == ls[n - 1 - b]);
        }
        b += 1;
    }
    proof {
        if b < n - a {
            assert(rest[rest.len() - 1 - b] == ls[n - 1 - b]);
        }
        lemma_trailing_blank_is(rest, b as int);
    }
    let ghost kept = rest.take(rest.len() - b);
    let mut out = String::new();
    let mut i = a;
    let end = n - b;
    while i < end
        invariant
            a <= i <= end,
            end == n - b,
            end <= n,
            n == formatted.len(),
            ls == views(formatted@),
            kept == ls.subrange(a as int, end as int),
            out@ == spec_join_lines(ls.subrange(a as int, i as int)),
        decreases end - i,
    {
        let line = &formatted[i];
        let ghost before = out@;
        if i > a {
            push_char(&mut out, '\n');
        }
        let mut j: usize = 0;
        while j < line.len()
            invariant
                j <= line.len(),
                out@ == (if i > a {
                    before + seq!['\n']
                } else {
                    before
                }) + line@.subrange(0, j as int),
            decreases line.len() - j,
        {
            push_char(&mut out, line[j]);
            proof {
                assert(line@.subrange(0, j + 1) =~= line@.subrange(0, j as int).push(line@[j as int]));
            }
            j += 1;
        }
        proof {
            let sub = ls.subrange(a as int, i + 1);
            assert(line@.subrange(0, line@.len() as int) =~= line@);
            assert(sub.last() == ls[i as int]);
            assert(ls[i as int] == line@);
            if i > a {
                assert(sub.drop_last() =~= ls.subrange(a as int, i as int));
            } else {
                assert(sub.len() == 1);
                assert(before =~= Seq::<char>::empty());
                assert(out@ =~= line@);
            }
        }
        i += 1;
    }
    proof {
        assert(kept =~= ls.subrange(a as int, end as int));
    }
    out
}

proof fn lemma_min_indent_is_least(lines: Seq<Seq<char>>)
    ensures
        forall|i: int| 0 <= i < lines.len() && !spec_is_blank(lines[i]) ==> (spec_min_indent(lines) matches Some(m) && m <= spec_indent(#[trigger] lines[i])),
        spec_min_indent(lines) matches Some(m) ==> exists|i: int| 0 <= i < lines.len() && !spec_is_blank(lines[i]) && spec_indent(#[trigger] lines[i]) == m,
        spec_min_indent(lines) is None ==> forall|i: int| 0 <= i < lines.len() ==> spec_is_blank(#[trigger] lines[i]),
    decreases lines.len(),
{
    if lines.len() > 0 {
        let rest = lines.drop_last();
        lemma_min_indent_is_least(rest);
        assert forall|i: int| 0 <= i < rest.len() implies #[trigger] rest[i] == lines[i] by {}
        assert forall|i: int| 0 <= i < lines.len() && !spec_is_blank(lines[i]) implies (spec_min_indent(lines) matches Some(m) && m <= spec_indent(#[trigger] lines[i])) by {
            if i < rest.len() {
                assert(rest[i] == lines[i]);
            } else {
                assert(lines[i] == lines.last());
            }
        }
        assert forall|i: int| spec_min_indent(lines) is None && 0 <= i < lines.len() implies spec_is_blank(#[trigger] lines[i]) by {
            if i < rest.len() {
                assert(rest[i] == lines[i]);
            } else {
                assert(lines[i] == lines.last());
            }
        }
        if spec_min_indent(lines) is Some {
            let m = spec_min_indent(lines)->Some_0;
            if spec_min_indent(rest) is Some {
                let p = spec_min_indent(rest)->Some_0;
                if m == p {
                    let i = choose|i: int| 0 <= i < rest.len() && !spec_is_blank(rest[i]) && spec_indent(#[trigger] rest[i]) == p;
                    assert(lines[i] == rest[i]);
                } else {
                    assert(lines[lines.len() - 1] == lines.last());
                }
            } else {
                assert(lines[lines.len() - 1] == lines.last());
            }
        }
    }
}

/// The common indent of a block string is the least indent among its non-blank lines after the
/// first, and 0 when every line after the first is blank: no such line has a smaller indent,
/// and, when there is one, some such line has exactly that indent.
pub proof fn law_common_indent_is_the_least(source: Seq<char>)
    ensures
        forall|i: int|
            1 <= i < spec_lines(source).len() && !spec_is_blank(spec_lines(source)[i]) ==> spec_common_indent(source)
                <= spec_indent(#[trigger] spec_lines(source)[i]),
        (exists|i: int| 1 <= i < spec_lines(source).len() && !spec_is_blank(#[trigger] spec_lines(source)[i])) ==> exists|i: int|
            1 <= i < spec_lines(source).len() && !spec_is_blank(#[trigger] spec_lines(source)[i]) && spec_indent(spec_lines(source)[i])
                == spec_common_indent(source),
        !(exists|i: int| 1 <= i < spec_lines(source).len() && !spec_is_blank(#[trigger] spec_lines(source)[i])) ==> spec_common_indent(source)
            == 0,
{
    let ls = spec_lines(source);
    if ls.len() > 0 {
        let after = ls.skip(1);
        lemma_min_indent_is_least(after);
        assert forall|i: int| 1 <= i < ls.len() implies #[trigger] ls[i] == after[i - 1] by {}
        if exists|i: int| 1 <= i < ls.len() && !spec_is_blank(#[trigger] ls[i]) {
            let i = choose|i: int| 1 <= i < ls.len() && !spec_is_blank(#[trigger] ls[i]);
            assert(!spec_is_blank(after[i - 1]));
            let m = spec_min_indent(after)->Some_0;
            let k = choose|k: int| 0 <= k < after.len() && !spec_is_blank(after[k]) && spec_indent(#[trigger] after[k]) == m;
            assert(ls[k + 1] == after[k]);
        }
        assert forall|i: int| 1 <= i < ls.len() && !spec_is_blank(ls[i]) implies spec_common_indent(source) <= spec_indent(#[trigger] ls[i]) by {
            assert(ls[i] == after[i - 1]);
        }
    }
}

/// The text with `prefix` put after every line feed.
pub open spec fn indent_text(s: Seq<char>, prefix: Seq<char>) -> Seq<char>
    decreases s.len(),
{
    if s.len() == 0 {
        seq![]
    } else if s[0] == '\n' {
        seq!['\n'] + prefix + indent_text(s.drop_first(), prefix)
    } else {
        seq![s[0]] + indent_text(s.drop_first(), prefix)
    }
}

pub open spec fn no_line_feed(s: Seq<char>) -> bool {
    forall|i: int| 0 <= i < s.len() ==> #[trigger] s[i] != '\n'
}

proof fn lemma_indent_text_plain(s: Seq<char>, prefix: Seq<char>)
    requires
        no_line_feed(s),
    ensures
        indent_text(s, prefix) == s,
    decreases s.len(),
{
    if s.len() > 0 {
        assert(no_line_feed(s.drop_first())) by {
            assert forall|i: int| 0 <= i < s.drop_first().len() implies #[trigger] s.drop_first()[i] != '\n' by {
                assert(s.drop_first()[i] == s[i + 1]);
            }
        }
        lemma_indent_text_plain(s.drop_first(), prefix);
        assert(s[0] != '\n');
        assert(seq![s[0]] + s.drop_first() =~= s);
    }
}

proof fn lemma_indent_text_concat(a: Seq<char>, b: Seq<char>, prefix: Seq<char>)
    ensures
        indent_text(a + b, prefix) == indent_text(a, prefix) + indent_text(b, prefix),
    decreases a.len(),
{
    if a.len() > 0 {
        lemma_indent_text_concat(a.drop_first(), b, prefix);
        assert((a + b).drop_first() =~= a.drop_first() + b);
        assert((a + b)[0] == a[0]);
        if a[0] == '\n' {
            assert(seq!['\n'] + prefix + (indent_text(a.drop_first(), prefix) + indent_text(b, prefix)) =~= seq!['\n'] + prefix
                + indent_text(a.drop_first(), prefix) + indent_text(b, prefix));
        } else {
            assert(seq![a[0]] + (indent_text(a.drop_first(), prefix) + indent_text(b, prefix)) =~= seq![a[0]] + indent_text(
                a.drop_first(),
                prefix,
            ) + indent_text(b, prefix));
        }
    } else {
        assert(a + b =~= b);
    }
}

proof fn lemma_line_length(s: Seq<char>)
    ensures
        spec_line_length(s) <= s.len(),
        no_line_feed(s.take(spec_line_length(s) as int)),
        spec_line_length(s) < s.len() ==> s[spec_line_length(s) as int] == '\n',
        spec_line_length(s) == s.len() ==> no_line_feed(s),
    decreases s.len(),
{
    if s.len() > 0 && s[0] != '\n' {
        lemma_line_length(s.drop_first());
        let n = spec_line_length(s);
        assert forall|i: int| 0 <= i < s.take(n as int).len() implies #[trigger] s.take(n as int)[i] != '\n' by {
            if i > 0 {
                assert(s.take(n as int)[i] == s.drop_first().take(spec_line_length(s.drop_first()) as int)[i - 1]);
            }
        }
        if n < s.len() {
            assert(s[n as int] == s.drop_first()[n - 1]);
        }
        if n == s.len() {
            assert forall|i: int| 0 <= i < s.len() implies #[trigger] s[i] != '\n' by {
                if i > 0 {
                    assert(s[i] == s.drop_first()[i - 1]);
                }
            }
        }
    }
}

proof fn lemma_line_length_prefixed(a: Seq<char>, b: Seq<char>)
    requires
        no_line_feed(a),
    ensures
        spec_line_length(a + b) == a.len() + spec_line_length(b),
    decreases a.len(),
{
    if a.len() > 0 {
        assert((a + b)[0] == a[0]);
        assert((a + b).drop_first() =~= a.drop_first() + b);
        assert(no_line_feed(a.drop_first())) by {
            assert forall|i: int| 0 <= i < a.drop_first().len() implies #[trigger] a.drop_first()[i] != '\n' by {
                assert(a.drop_first()[i] == a[i + 1]);
            }
        }
        lemma_line_length_prefixed(a.drop_first(), b);
    } else {
        assert(a + b =~= b);
    }
}

/// The lines of `q` followed by the indented text: the first line prefixed by `q`, each later one
/// by `prefix`, and one more line, `prefix` itself, after a final line feed.
pub open spec fn indented_lines(s: Seq<char>, q: Seq<char>, prefix: Seq<char>) -> Seq<Seq<char>>
    decreases s.len(),
{
    if s.len() == 0 {
        if q.len() == 0 {
            seq![]
        } else {
            seq![q]
        }
    } else if spec_line_length(s) >= s.len() {
        seq![q + s]
    } else {
        let n = spec_line_length(s);
        seq![q + spec_strip_carriage_return(s.take(n as int))] + indented_lines(s.skip((n + 1) as int), prefix, prefix)
    }
}

proof fn lemma_lines_of_indented(s: Seq<char>, q: Seq<char>, prefix: Seq<char>)
    requires
        spec_is_blank(q),
        spec_is_blank(prefix),
    ensures
        spec_lines(q + indent_text(s, prefix)) == indented_lines(s, q, prefix),
    decreases s.len(),
{
    assert(no_line_feed(q)) by {
        assert forall|i: int| 0 <= i < q.len() implies #[trigger] q[i] != '\n' by {
            assert(spec_is_whitespace(q[i]));
        }
    }
    if s.len() == 0 {
        assert(q + indent_text(s, prefix) =~= q);
        if q.len() > 0 {
            lemma_line_length_prefixed(q, seq![]);
            assert(q + seq![] =~= q);
        }
    } else {
        lemma_line_length(s);
        let n = spec_line_length(s);
        if n >= s.len() {
            lemma_indent_text_plain(s, prefix);
            lemma_line_length_prefixed(q, s);
            assert(no_line_feed(s));
            assert(spec_line_length(s) == s.len());
        } else {
            let x = s.take(n as int);
            let rest = s.skip((n + 1) as int);
            assert(s =~= x + (seq!['\n'] + rest));
            lemma_indent_text_concat(x, seq!['\n'] + rest, prefix);
            lemma_indent_text_plain(x, prefix);
            assert((seq!['\n'] + rest).drop_first() =~= rest);
            assert(indent_text(seq!['\n'] + rest, prefix) == seq!['\n'] + prefix + indent_text(rest, prefix));
            let t = q + indent_text(s, prefix);
            assert(t =~= (q + x) + (seq!['\n'] + (prefix + indent_text(rest, prefix))));
            assert(no_line_feed(q + x)) by {
                assert forall|i: int| 0 <= i < (q + x).len() implies #[trigger] (q + x)[i] != '\n' by {
                    if i < q.len() {
                        assert((q + x)[i] == q[i]);
                    } else {
                        assert((q + x)[i] == x[i - q.len()]);
                    }
                }
            }
            lemma_line_length_prefixed(q + x, seq!['\n'] + (prefix + indent_text(rest, prefix)));
            assert(spec_line_length(t) == q.len() + n);
            assert(t.take((q.len() + n) as int) =~= q + x);
            assert(t.skip((q.len() + n + 1) as int) =~= prefix + indent_text(rest, prefix));
            lemma_lines_of_indented(rest, prefix, prefix);
            if x.len() > 0 {
                assert(spec_strip_carriage_return(q + x) =~= q + spec_strip_carriage_return(x));
            } else {
                assert(q + x =~= q);
                if q.len() > 0 {
                    assert(spec_is_whitespace(q[q.len() - 1]));
                }
                assert(spec_strip_carriage_return(q + x) =~= q + spec_strip_carriage_return(x));
            }
        }
    }
}

/// `indented_lines` is the lines of the text, the first prefixed by `q` and the rest by
/// `prefix`, with `prefix` as one more line after a final line feed when it is not empty.
proof fn lemma_indented_lines_shape(s: Seq<char>, q: Seq<char>, prefix: Seq<char>)
    requires
        s.len() > 0,
    ensures
        indented_lines(s, q, prefix) == Seq::new(
            spec_lines(s).len(),
            |i: int| if i == 0 { q + spec_lines(s)[0] } else { prefix + spec_lines(s)[i] },
        ) + (if s.last() == '\n' && prefix.len() > 0 {
            seq![prefix]
        } else {
            Seq::<Seq<char>>::empty()
        }),
        spec_lines(s).len() > 0,
    decreases s.len(),
{
    lemma_line_length(s);
    let n = spec_line_length(s);
    let shaped = Seq::new(spec_lines(s).len(), |i: int| if i == 0 { q + spec_lines(s)[0] } else { prefix + spec_lines(s)[i] });
    if n >= s.len() {
        assert(no_line_feed(s));
        assert(s[s.len() - 1] != '\n');
        assert(indented_lines(s, q, prefix) =~= shaped + Seq::<Seq<char>>::empty());
    } else {
        let rest = s.skip((n + 1) as int);
        let first = spec_strip_carriage_return(s.take(n as int));
        if rest.len() == 0 {
            assert(s.last() == s[n as int]);
            assert(spec_lines(rest) =~= Seq::<Seq<char>>::empty());
            assert(spec_lines(s) == seq![first] + spec_lines(rest));
            assert(spec_lines(s) =~= seq![first]);
            assert(shaped =~= seq![q + first]);
            assert(indented_lines(s, q, prefix) == seq![q + first] + indented_lines(rest, prefix, prefix));
            if prefix.len() > 0 {
                assert(indented_lines(s, q, prefix) =~= shaped + seq![prefix]);
            } else {
                assert(indented_lines(s, q, prefix) =~= shaped + Seq::<Seq<char>>::empty());
            }
        } else {
            lemma_indented_lines_shape(rest, prefix, prefix);
            assert(s.last() == rest.last());
            assert(spec_lines(s) =~= seq![first] + spec_lines(rest));
            let rshaped = Seq::new(
                spec_lines(rest).len(),
                |i: int| if i == 0 { prefix + spec_lines(rest)[0] } else { prefix + spec_lines(rest)[i] },
            );
            assert(shaped =~= seq![q + first] + rshaped);
            let tail = if s.last() == '\n' && prefix.len() > 0 {
                seq![prefix]
            } else {
                Seq::<Seq<char>>::empty()
            };
            assert(indented_lines(s, q, prefix) =~= seq![q + first] + (rshaped + tail));
            assert(seq![q + first] + (rshaped + tail) =~= shaped + tail);
        }
    }
}

proof fn lemma_clean_lines_trailing_blank(lines: Seq<Seq<char>>, b: Seq<char>)
    requires
        lines.len() > 0,
        spec_is_blank(b),
    ensures
        spec_clean_lines(lines + seq![b]) == spec_clean_lines(lines),
{
    let l2 = lines + seq![b];
    assert(l2.skip(1).drop_last() =~= lines.skip(1));
    assert(l2.skip(1).last() == b);
    assert(spec_indent_after_first(l2) == spec_indent_after_first(lines));
    let c = spec_indent_after_first(lines);
    let d = spec_dedent(lines, c);
    let d2 = spec_dedent(l2, c);
    let sb = spec_skip_chars(b, c);
    assert(spec_is_blank(sb)) by {
        if c < b.len() {
            assert forall|i: int| 0 <= i < sb.len() implies spec_is_whitespace(#[trigger] sb[i]) by {
                assert(sb[i] == b[i + c]);
            }
        }
    }
    assert(d2 =~= d + seq![sb]);
    law_trim_keeps_first_to_last_non_blank(d);
    law_trim_keeps_first_to_last_non_blank(d2);
    if exists|i: int| 0 <= i < d.len() && !spec_is_blank(#[trigger] d[i]) {
        let (a, z) = choose|a: int, z: int|
            #![trigger d[a], d[z]]
            0 <= a <= z < d.len() && !spec_is_blank(d[a]) && !spec_is_blank(d[z]) && (forall|i: int|
                0 <= i < a ==> spec_is_blank(#[trigger] d[i])) && (forall|i: int| z < i < d.len() ==> spec_is_blank(#[trigger] d[i]))
                && spec_trim_blank(d) == d.subrange(a, z + 1);
        assert(d2[a] == d[a] && d2[z] == d[z]);
        assert forall|i: int| 0 <= i < a implies spec_is_blank(#[trigger] d2[i]) by {
            assert(d2[i] == d[i]);
        }
        assert forall|i: int| z < i < d2.len() implies spec_is_blank(#[trigger] d2[i]) by {
            if i < d.len() {
                assert(d2[i] == d[i]);
            }
        }
        let (a2, z2) = choose|a: int, z: int|
            #![trigger d2[a], d2[z]]
            0 <= a <= z < d2.len() && !spec_is_blank(d2[a]) && !spec_is_blank(d2[z]) && (forall|i: int|
                0 <= i < a ==> spec_is_blank(#[trigger] d2[i])) && (forall|i: int| z < i < d2.len() ==> spec_is_blank(#[trigger] d2[i]))
                && spec_trim_blank(d2) == d2.subrange(a, z + 1);
        assert(a2 == a) by {
            if a2 < a {
                assert(spec_is_blank(d2[a2]));
            }
            if a < a2 {
                assert(spec_is_blank(d2[a]));
            }
        }
        assert(z2 == z) by {
            if z2 < z {
                assert(spec_is_blank(d2[z]));
            }
            if z < z2 {
                assert(spec_is_blank(d2[z2]));
            }
        }
        assert(d2.subrange(a, z + 1) =~= d.subrange(a, z + 1));
    } else {
        assert forall|i: int| 0 <= i < d2.len() implies spec_is_blank(#[trigger] d2[i]) by {
            if i < d.len() {
                assert(d2[i] == d[i]);
            }
        }
    }
}

/// Putting the same run of spaces and tabs after every line feed of a block string leaves its
/// value unchanged.
pub proof fn law_indenting_after_line_feeds_keeps_the_value(source: Seq<char>, prefix: Seq<char>)
    requires
        spec_is_blank(prefix),
    ensures
        spec_clean_block_string(indent_text(source, prefix)) == spec_clean_block_string(source),
{
    if source.len() == 0 {
        assert(indent_text(source, prefix) =~= source);
    } else {
        let t = indent_text(source, prefix);
        assert(Seq::<char>::empty() + t =~= t);
        lemma_lines_of_indented(source, Seq::<char>::empty(), prefix);
        lemma_indented_lines_shape(source, Seq::<char>::empty(), prefix);
        let ls = spec_lines(source);
        let shaped = Seq::new(ls.len(), |i: int| if i == 0 { Seq::<char>::empty() + ls[0] } else { prefix + ls[i] });
        assert(shaped =~= indent_lines_after_first(ls, prefix));
        law_common_indent_is_removed(ls, prefix);
        if source.last() == '\n' && prefix.len() > 0 {
            lemma_clean_lines_trailing_blank(indent_lines_after_first(ls, prefix), prefix);
        } else {
            assert(shaped + Seq::<Seq<char>>::empty() =~= shaped);
        }
        assert(spec_clean_block_string(t) == spec_clean_lines(spec_lines(t)));
        assert(spec_clean_block_string(source) == spec_clean_lines(ls));
    }
}

} // verus!
