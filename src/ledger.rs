use vstd::prelude::*;

use crate::bump::{bump_from_name, bump_name, VersionBump};
use vstd::std_specs::iter::IteratorSpec;

verus! {

/// A pending change: the bump requested for each named package, and the
/// text that describes the change. A package may be named more than once;
/// the greatest of its bumps is the one that counts.
///
/// On disk a change record is this project's own front-matter format: a
/// `---` line, one `"name": bump` line per package, a `---` line, then the
/// description (see `ChangelogEntry::from_string` and `to_string`).
#[derive(Debug)]
pub struct ChangelogEntry {
    pub frontmatter: Vec<(String, VersionBump)>,
    pub body: String,
}

impl View for ChangelogEntry {
    type V = (Seq<(Seq<char>, VersionBump)>, Seq<char>);

    open spec fn view(&self) -> Self::V {
        (entry_pairs(self.frontmatter@), self.body@)
    }
}

/// The package names and bumps of a header, as text.
pub open spec fn entry_pairs(fm: Seq<(String, VersionBump)>) -> Seq<(Seq<char>, VersionBump)> {
    fm.map_values(|p: (String, VersionBump)| (p.0@, p.1))
}

/// Why a change record could not be read.
#[derive(Clone, Copy, Debug, PartialEq, Eq, Structural)]
pub enum EntryError {
    /// The text does not open with a `---` line.
    MissingHeader,
    /// No `---` line closes the header.
    Unterminated,
    /// The header line that starts at this character offset names no package.
    InvalidLine { offset: usize },
    /// The header line that starts at this character offset asks for no known bump.
    InvalidSeverity { offset: usize },
}

pub open spec fn is_space(c: char) -> bool {
    c == ' ' || c == '\t' || c == '\r' || c == '\n'
}

/// The end of the line that starts at `i`: the next line break, or the end.
pub open spec fn line_end(t: Seq<char>, i: int) -> int
    decreases t.len() - i,
{
    if i >= t.len() || i < 0 {
        t.len() as int
    } else if t[i] == '\n' {
        i
    } else {
        line_end(t, i + 1)
    }
}

/// The first position in `[i, j)` that holds no white space, or `j`.
pub open spec fn skip_space(t: Seq<char>, i: int, j: int) -> int
    decreases j - i,
{
    if i >= j {
        j
    } else if is_space(t[i]) {
        skip_space(t, i + 1, j)
    } else {
        i
    }
}

/// The end of `[i, j)` once trailing white space is cut off.
pub open spec fn back_space(t: Seq<char>, i: int, j: int) -> int
    decreases j - i,
{
    if j <= i {
        i
    } else if is_space(t[j - 1]) {
        back_space(t, i, j - 1)
    } else {
        j
    }
}

/// The text of `[i, j)` without white space at either end.
pub open spec fn trimmed(t: Seq<char>, i: int, j: int) -> Seq<char> {
    let a = skip_space(t, i, j);
    t.subrange(a, back_space(t, a, j))
}

/// The first `ch` in `[i, j)`, or `j`.
pub open spec fn find_char(t: Seq<char>, i: int, j: int, ch: char) -> int
    decreases j - i,
{
    if i >= j {
        j
    } else if t[i] == ch {
        i
    } else {
        find_char(t, i + 1, j, ch)
    }
}

pub open spec fn delimiter() -> Seq<char> {
    seq!['-', '-', '-']
}

/// The bump token after the colon at `c`, for the header line `[i, j)`.
pub open spec fn line_bump(t: Seq<char>, i: int, c: int, j: int, name: Seq<char>) -> Result<
    (Seq<char>, VersionBump),
    EntryError,
> {
    match bump_from_name(trimmed(t, c + 1, j)) {
        Some(b) => Ok((name, b)),
        None => Err(EntryError::InvalidSeverity { offset: i as usize }),
    }
}

/// The character that an escape `\c` inside a double-quoted name stands
/// for: `\"`, `\\` and `\n`; any other escape is refused.
pub open spec fn unescaped(c: char) -> Option<char> {
    if c == '"' {
        Some('"')
    } else if c == '\\' {
        Some('\\')
    } else if c == 'n' {
        Some('\n')
    } else {
        None
    }
}

/// Reads the rest of a double-quoted name from `i` on, within `[i, j)`: the
/// characters it stands for, escapes undone, and where its closing quote
/// stands; `None` where no closing quote comes or an escape is unknown.
pub open spec fn read_quoted(t: Seq<char>, i: int, j: int) -> Option<(Seq<char>, int)>
    decreases j - i,
{
    if i >= j {
        None
    } else if t[i] == '"' {
        Some((Seq::empty(), i))
    } else if t[i] == '\\' {
        if i + 1 >= j {
            None
        } else {
            match unescaped(t[i + 1]) {
                None => None,
                Some(ch) => match read_quoted(t, i + 2, j) {
                    Some((rest, k)) => Some((seq![ch] + rest, k)),
                    None => None,
                },
            }
        }
    } else {
        match read_quoted(t, i + 1, j) {
            Some((rest, k)) => Some((seq![t[i]] + rest, k)),
            None => None,
        }
    }
}

/// Reads the header line `[i, j)`: a package name, a colon, a bump token.
/// A name in double quotes runs to the closing quote, with `\"`, `\\` and
/// `\n` standing for a quote, a backslash and a line break; a name in single
/// quotes runs to the next single quote, unchanged, and is not empty; a bare
/// name runs to the first colon, is trimmed, and is not empty.
pub open spec fn parse_line(t: Seq<char>, i: int, j: int) -> Result<
    (Seq<char>, VersionBump),
    EntryError,
> {
    let a = skip_space(t, i, j);
    if a < j && t[a] == '"' {
        match read_quoted(t, a + 1, j) {
            None => Err(EntryError::InvalidLine { offset: i as usize }),
            Some((name, close)) => {
                let c = skip_space(t, close + 1, j);
                if c >= j || t[c] != ':' {
                    Err(EntryError::InvalidLine { offset: i as usize })
                } else {
                    line_bump(t, i, c, j, name)
                }
            },
        }
    } else if a < j && t[a] == '\'' {
        let close = find_char(t, a + 1, j, '\'');
        let c = skip_space(t, close + 1, j);
        if close >= j || c >= j || t[c] != ':' || close == a + 1 {
            Err(EntryError::InvalidLine { offset: i as usize })
        } else {
            line_bump(t, i, c, j, t.subrange(a + 1, close))
        }
    } else {
        let c = find_char(t, i, j, ':');
        let name = trimmed(t, i, c);
        if c >= j || name.len() == 0 {
            Err(EntryError::InvalidLine { offset: i as usize })
        } else {
            line_bump(t, i, c, j, name)
        }
    }
}

/// A line ends at or after its start, and within the text.
pub proof fn lemma_line_end_bounds(t: Seq<char>, i: int)
    requires
        0 <= i <= t.len(),
    ensures
        i <= line_end(t, i) <= t.len(),
    decreases t.len() - i,
{
    if i < t.len() && t[i] != '\n' {
        lemma_line_end_bounds(t, i + 1);
    }
}

/// Reads header lines from `i` on, after the lines already read into `acc`,
/// up to the closing `---` line; the body is what follows, trimmed. Blank
/// lines are passed over.
pub open spec fn header_from(
    t: Seq<char>,
    i: int,
    acc: Seq<(Seq<char>, VersionBump)>,
) -> Result<(Seq<(Seq<char>, VersionBump)>, Seq<char>), EntryError>
    decreases t.len() + 1 - i,
{
    if i >= t.len() || i < 0 {
        Err(EntryError::Unterminated)
    } else {
        let e = line_end(t, i);
        proof {
            lemma_line_end_bounds(t, i);
        }
        if trimmed(t, i, e) == delimiter() {
            Ok((acc, trimmed(t, e, t.len() as int)))
        } else if skip_space(t, i, e) == e {
            header_from(t, e + 1, acc)
        } else {
            match parse_line(t, i, e) {
                Ok(p) => header_from(t, e + 1, acc.push(p)),
                Err(err) => Err(err),
            }
        }
    }
}

/// What a change record holds: after any leading white space, a `---` line,
/// one `name: bump` line per package, a closing `---` line, then the body.
pub open spec fn parse_entry(t: Seq<char>) -> Result<
    (Seq<(Seq<char>, VersionBump)>, Seq<char>),
    EntryError,
> {
    let s = skip_space(t, 0, t.len() as int);
    let e = line_end(t, s);
    if s >= t.len() || trimmed(t, s, e) != delimiter() {
        Err(EntryError::MissingHeader)
    } else {
        header_from(t, e + 1, Seq::empty())
    }
}

/// How one character of a name is written between double quotes.
pub open spec fn escaped_char(c: char) -> Seq<char> {
    if c == '"' {
        seq!['\\', '"']
    } else if c == '\\' {
        seq!['\\', '\\']
    } else if c == '\n' {
        seq!['\\', 'n']
    } else {
        seq![c]
    }
}

/// A name as written between double quotes: quotes, backslashes and line
/// breaks escaped.
pub open spec fn escape(s: Seq<char>) -> Seq<char>
    decreases s.len(),
{
    if s.len() == 0 {
        Seq::empty()
    } else {
        escaped_char(s[0]) + escape(s.drop_first())
    }
}

/// The header line written for one package.
pub open spec fn header_line(p: (Seq<char>, VersionBump)) -> Seq<char> {
    seq!['"'] + escape(p.0) + seq!['"', ':', ' '] + bump_name(p.1) + seq!['\n']
}

pub open spec fn header_lines(fm: Seq<(Seq<char>, VersionBump)>) -> Seq<char>
    decreases fm.len(),
{
    if fm.len() == 0 {
        Seq::empty()
    } else {
        header_lines(fm.drop_last()) + header_line(fm.last())
    }
}

/// The text of a change record.
pub open spec fn render_entry(e: (Seq<(Seq<char>, VersionBump)>, Seq<char>)) -> Seq<char> {
    delimiter() + seq!['\n'] + header_lines(e.0) + delimiter() + seq!['\n', '\n'] + e.1
}

/// A description that reads back unchanged: empty, or without white space
/// at either end.
pub open spec fn writable_body(b: Seq<char>) -> bool {
    b.len() == 0 || (!is_space(b[0]) && !is_space(b.last()))
}

proof fn lemma_line_end_at(t: Seq<char>, i: int, k: int)
    requires
        0 <= i <= k < t.len(),
        t[k] == '\n',
        forall|m: int| i <= m < k ==> #[trigger] t[m] != '\n',
    ensures
        line_end(t, i) == k,
    decreases k - i,
{
    if i < k {
        lemma_line_end_at(t, i + 1, k);
    }
}

proof fn lemma_bump_name_shape(b: VersionBump)
    ensures
        bump_name(b).len() == 5,
        forall|k: int|
            0 <= k < 5 ==> #[trigger] bump_name(b)[k] != ':' && bump_name(b)[k] != '\n'
                && !is_space(bump_name(b)[k]) && bump_name(b)[k] != '-',
        bump_from_name(bump_name(b)) == Some(b),
{
    let n = bump_name(b);
    assert forall|k: int| 0 <= k < 5 implies #[trigger] n[k] != ':' && n[k] != '\n' && !is_space(
        n[k],
    ) && n[k] != '-' by {
        if k == 0 {
        } else if k == 1 {
        } else if k == 2 {
        } else if k == 3 {
        } else {
        }
    }
    let major = bump_name(VersionBump::Major);
    let minor = bump_name(VersionBump::Minor);
    let patch = bump_name(VersionBump::Patch);
    assert(major[1] != minor[1]);
    assert(major[0] != patch[0]);
    assert(minor[0] != patch[0]);
}

proof fn lemma_header_lines_front(fm: Seq<(Seq<char>, VersionBump)>)
    requires
        fm.len() > 0,
    ensures
        header_lines(fm) == header_line(fm[0]) + header_lines(fm.drop_first()),
    decreases fm.len(),
{
    if fm.len() == 1 {
        assert(fm.drop_first() =~= Seq::<(Seq<char>, VersionBump)>::empty());
        assert(fm.drop_last() =~= Seq::<(Seq<char>, VersionBump)>::empty());
        assert(header_lines(fm.drop_last()) =~= Seq::<char>::empty());
        assert(fm.last() == fm[0]);
        assert(header_lines(fm) =~= header_line(fm[0]));
        assert(header_line(fm[0]) + header_lines(fm.drop_first()) =~= header_line(fm[0]));
    } else {
        let dl = fm.drop_last();
        lemma_header_lines_front(dl);
        assert(fm.drop_first().drop_last() =~= dl.drop_first());
        assert(fm.drop_first().last() == fm.last());
        assert(dl[0] == fm[0]);
        assert(header_lines(fm) =~= header_line(fm[0]) + header_lines(fm.drop_first()));
    }
}

/// Writing a name with one more character at its end appends that
/// character's written form.
proof fn lemma_escape_push(s: Seq<char>, c: char)
    ensures
        escape(s.push(c)) == escape(s) + escaped_char(c),
    decreases s.len(),
{
    if s.len() == 0 {
        assert(s.push(c).drop_first() =~= Seq::<char>::empty());
        assert(s.push(c)[0] == c);
        assert(escape(s.push(c).drop_first()).len() == 0);
        assert(escape(s.push(c)) =~= escaped_char(c));
        assert(escape(s) + escaped_char(c) =~= escaped_char(c));
    } else {
        assert(s.push(c).drop_first() =~= s.drop_first().push(c));
        lemma_escape_push(s.drop_first(), c);
        assert(escape(s.push(c)) =~= escape(s) + escaped_char(c));
    }
}

/// A written name holds no line break.
proof fn lemma_escape_no_break(s: Seq<char>)
    ensures
        forall|k: int| 0 <= k < escape(s).len() ==> #[trigger] escape(s)[k] != '\n',
    decreases s.len(),
{
    if s.len() > 0 {
        lemma_escape_no_break(s.drop_first());
        let a = escaped_char(s[0]);
        let b = escape(s.drop_first());
        assert forall|k: int| 0 <= k < escape(s).len() implies #[trigger] escape(s)[k] != '\n' by {
            if k < a.len() {
                assert(escape(s)[k] == a[k]);
            } else {
                assert(escape(s)[k] == b[k - a.len()]);
            }
        }
    }
}

/// A written name followed by a closing quote reads back as the name.
proof fn lemma_read_escaped(t: Seq<char>, i: int, j: int, name: Seq<char>)
    requires
        0 <= i,
        i + escape(name).len() < j <= t.len(),
        t.subrange(i, i + escape(name).len()) == escape(name),
        t[i + escape(name).len()] == '"',
    ensures
        read_quoted(t, i, j) == Some((name, i + escape(name).len())),
    decreases name.len(),
{
    let en = escape(name);
    if name.len() == 0 {
        assert(name =~= Seq::<char>::empty());
    } else {
        let c = name[0];
        let rest = name.drop_first();
        let a = escaped_char(c);
        let l = a.len() as int;
        assert(en == a + escape(rest));
        assert(t.subrange(i + l, i + l + escape(rest).len()) =~= escape(rest)) by {
            assert forall|m: int| 0 <= m < escape(rest).len() implies t.subrange(
                i + l,
                i + l + escape(rest).len(),
            )[m] == escape(rest)[m] by {
                assert(t.subrange(i, i + en.len())[l + m] == en[l + m]);
            }
        }
        lemma_read_escaped(t, i + l, j, rest);
        assert(t[i] == a[0]) by {
            assert(t.subrange(i, i + en.len())[0] == en[0]);
        }
        if l == 2 {
            assert(t[i + 1] == a[1]) by {
                assert(t.subrange(i, i + en.len())[1] == en[1]);
            }
        }
        assert(seq![c] + rest =~= name);
    }
}

/// The header line written for `p` at `pos` reads back as `p`.
proof fn lemma_read_line(t: Seq<char>, pos: int, p: (Seq<char>, VersionBump))
    requires
        0 <= pos,
        pos + escape(p.0).len() + 10 < t.len(),
        forall|m: int|
            0 <= m < escape(p.0).len() + 10 ==> #[trigger] t[pos + m] == header_line(p)[m],
    ensures
        line_end(t, pos) == pos + escape(p.0).len() + 9,
        skip_space(t, pos, pos + escape(p.0).len() + 9) == pos,
        trimmed(t, pos, pos + escape(p.0).len() + 9) != delimiter(),
        parse_line(t, pos, pos + escape(p.0).len() + 9) == Ok::<
            (Seq<char>, VersionBump),
            EntryError,
        >(p),
{
    let en = escape(p.0);
    let nl = en.len() as int;
    let line = header_line(p);
    lemma_bump_name_shape(p.1);
    lemma_escape_no_break(p.0);
    assert(line.len() == nl + 10);
    assert(t[pos] == '"') by {
        assert(t[pos + 0] == line[0]);
    }
    assert forall|k: int| 0 <= k < nl implies #[trigger] t[pos + 1 + k] == en[k] by {
        assert(t[pos + (1 + k)] == line[1 + k]);
    }
    assert(t.subrange(pos + 1, pos + 1 + nl) =~= en) by {
        assert forall|k: int| 0 <= k < nl implies t.subrange(pos + 1, pos + 1 + nl)[k] == en[k] by {
            assert(t[pos + 1 + k] == en[k]);
        }
    }
    assert(t[pos + nl + 1] == '"') by {
        assert(t[pos + (nl + 1)] == line[nl + 1]);
    }
    assert(t[pos + nl + 2] == ':') by {
        assert(t[pos + (nl + 2)] == line[nl + 2]);
    }
    assert(t[pos + nl + 3] == ' ') by {
        assert(t[pos + (nl + 3)] == line[nl + 3]);
    }
    assert forall|k: int| 0 <= k < 5 implies #[trigger] t[pos + nl + 4 + k] == bump_name(p.1)[k] by {
        assert(t[pos + (nl + 4 + k)] == line[nl + 4 + k]);
    }
    let e = pos + nl + 9;
    assert(t[e] == '\n') by {
        assert(t[pos + (nl + 9)] == line[nl + 9]);
    }
    assert forall|m: int| pos <= m < e implies #[trigger] t[m] != '\n' by {
        let o = m - pos;
        if o == 0 {
        } else if o <= nl {
            assert(t[pos + 1 + (o - 1)] == en[o - 1]);
        } else if o <= nl + 3 {
        } else {
            assert(t[pos + nl + 4 + (o - nl - 4)] == bump_name(p.1)[o - nl - 4]);
        }
    }
    lemma_line_end_at(t, pos, e);
    lemma_parse_written_line(t, pos, p);
}

/// A written header line, character by character, parses back.
proof fn lemma_parse_written_line(t: Seq<char>, pos: int, p: (Seq<char>, VersionBump))
    requires
        0 <= pos,
        pos + escape(p.0).len() + 10 < t.len(),
        t[pos] == '"',
        t.subrange(pos + 1, pos + 1 + escape(p.0).len()) == escape(p.0),
        t[pos + escape(p.0).len() + 1] == '"',
        t[pos + escape(p.0).len() + 2] == ':',
        t[pos + escape(p.0).len() + 3] == ' ',
        forall|k: int|
            0 <= k < 5 ==> #[trigger] t[pos + escape(p.0).len() + 4 + k] == bump_name(p.1)[k],
    ensures
        skip_space(t, pos, pos + escape(p.0).len() + 9) == pos,
        trimmed(t, pos, pos + escape(p.0).len() + 9) != delimiter(),
        parse_line(t, pos, pos + escape(p.0).len() + 9) == Ok::<
            (Seq<char>, VersionBump),
            EntryError,
        >(p),
{
    let nl = escape(p.0).len() as int;
    let e = pos + nl + 9;
    lemma_bump_name_shape(p.1);
    let close = pos + nl + 1;
    let c = pos + nl + 2;
    lemma_read_escaped(t, pos + 1, e, p.0);
    assert(skip_space(t, pos, e) == pos);
    assert(skip_space(t, close + 1, e) == c);
    assert(trimmed(t, c + 1, e) =~= bump_name(p.1)) by {
        assert(skip_space(t, c + 2, e) == c + 2) by {
            assert(t[c + 2] == bump_name(p.1)[0]) by {
                assert(t[pos + nl + 4 + 0] == bump_name(p.1)[0]);
            }
        }
        assert(skip_space(t, c + 1, e) == c + 2);
        assert(back_space(t, c + 2, e) == e) by {
            assert(t[e - 1] == bump_name(p.1)[4]) by {
                assert(t[pos + nl + 4 + 4] == bump_name(p.1)[4]);
            }
        }
        assert forall|k: int| 0 <= k < 5 implies t.subrange(c + 2, e)[k] == bump_name(p.1)[k] by {
            assert(t[pos + nl + 4 + k] == bump_name(p.1)[k]);
        }
    }
    assert(parse_line(t, pos, e) == Ok::<(Seq<char>, VersionBump), EntryError>(p));
    assert(trimmed(t, pos, e) != delimiter()) by {
        assert(back_space(t, pos, e) == e) by {
            assert(t[e - 1] == bump_name(p.1)[4]) by {
                assert(t[pos + nl + 4 + 4] == bump_name(p.1)[4]);
            }
        }
        assert(trimmed(t, pos, e)[0] == '"');
    }
}

/// Reading the header lines that `fm.subrange(j, ..)` was written to, from
/// `pos` on, picks up each of those pairs in turn.
proof fn lemma_read_header_lines(
    t: Seq<char>,
    pos: int,
    fm: Seq<(Seq<char>, VersionBump)>,
    j: int,
)
    requires
        0 <= j <= fm.len(),
        0 <= pos,
        pos + header_lines(fm.subrange(j, fm.len() as int)).len() + 4 < t.len(),
        t.subrange(pos, pos + header_lines(fm.subrange(j, fm.len() as int)).len())
            == header_lines(fm.subrange(j, fm.len() as int)),
    ensures
        header_from(t, pos, fm.subrange(0, j)) == header_from(
            t,
            pos + header_lines(fm.subrange(j, fm.len() as int)).len(),
            fm,
        ),
    decreases fm.len() - j,
{
    let rest = fm.subrange(j, fm.len() as int);
    if j == fm.len() {
        assert(fm.subrange(0, j) =~= fm);
        assert(rest =~= Seq::<(Seq<char>, VersionBump)>::empty());
    } else {
        let p = fm[j];
        let name = p.0;
        let nl = escape(name).len() as int;
        let line = header_line(p);
        lemma_header_lines_front(rest);
        assert(rest[0] == p);
        assert(rest.drop_first() =~= fm.subrange(j + 1, fm.len() as int));
        let tail = header_lines(fm.subrange(j + 1, fm.len() as int));
        let all = header_lines(rest);
        assert(all == line + tail);
        lemma_bump_name_shape(p.1);
        let len = nl + 10;
        assert(line.len() == len);
        assert forall|m: int| 0 <= m < len implies #[trigger] t[pos + m] == line[m] by {
            assert(t.subrange(pos, pos + all.len())[m] == all[m]);
        }
        assert(t.subrange(pos + len, pos + len + tail.len()) =~= tail) by {
            assert forall|m: int| 0 <= m < tail.len() implies t.subrange(
                pos + len,
                pos + len + tail.len(),
            )[m] == tail[m] by {
                assert(t.subrange(pos, pos + all.len())[len + m] == all[len + m]);
            }
        }
        lemma_read_line(t, pos, p);
        let e = pos + nl + 9;
        assert(fm.subrange(0, j).push(p) =~= fm.subrange(0, j + 1));
        assert(header_from(t, pos, fm.subrange(0, j)) == header_from(t, e + 1, fm.subrange(0, j + 1)));
        lemma_read_header_lines(t, pos + len, fm, j + 1);
    }
}

proof fn lemma_opening_line(t: Seq<char>)
    requires
        t.len() >= 4,
        t[0] == '-' && t[1] == '-' && t[2] == '-' && t[3] == '\n',
    ensures
        parse_entry(t) == header_from(t, 4, Seq::empty()),
{
    assert(skip_space(t, 0, t.len() as int) == 0);
    lemma_line_end_at(t, 0, 3);
    assert(skip_space(t, 0, 3) == 0);
    assert(back_space(t, 0, 3) == 3);
    assert(trimmed(t, 0, 3) =~= delimiter());
}

proof fn lemma_closing_line(
    t: Seq<char>,
    q: int,
    fm: Seq<(Seq<char>, VersionBump)>,
    body: Seq<char>,
)
    requires
        0 <= q,
        t.len() == q + 5 + body.len(),
        t[q] == '-' && t[q + 1] == '-' && t[q + 2] == '-' && t[q + 3] == '\n' && t[q + 4] == '\n',
        t.subrange(q + 5, t.len() as int) == body,
        writable_body(body),
    ensures
        header_from(t, q, fm) == Ok::<(Seq<(Seq<char>, VersionBump)>, Seq<char>), EntryError>(
            (fm, body),
        ),
{
    let n = t.len() as int;
    lemma_line_end_at(t, q, q + 3);
    assert(skip_space(t, q, q + 3) == q);
    assert(back_space(t, q, q + 3) == q + 3);
    assert(trimmed(t, q, q + 3) =~= delimiter());
    if body.len() > 0 {
        assert(t[q + 5] == body[0]) by {
            assert(t.subrange(q + 5, n)[0] == t[q + 5]);
        }
        assert(skip_space(t, q + 5, n) == q + 5);
        assert(skip_space(t, q + 4, n) == q + 5);
        assert(skip_space(t, q + 3, n) == q + 5);
        assert(t[n - 1] == body.last()) by {
            assert(t.subrange(q + 5, n)[body.len() - 1] == t[n - 1]);
        }
        assert(back_space(t, q + 5, n) == n);
    } else {
        assert(skip_space(t, q + 5, n) == n);
        assert(skip_space(t, q + 4, n) == n);
        assert(skip_space(t, q + 3, n) == n);
    }
    assert(trimmed(t, q + 3, n) =~= body);
}

/// Reading a written change record gives back its packages, bumps and
/// description, whatever the names, where the description has no white space
/// at either end.
pub proof fn lemma_entry_round_trip(e: (Seq<(Seq<char>, VersionBump)>, Seq<char>))
    requires
        writable_body(e.1),
    ensures
        parse_entry(render_entry(e)) == Ok::<
            (Seq<(Seq<char>, VersionBump)>, Seq<char>),
            EntryError,
        >(e),
{
    let fm = e.0;
    let body = e.1;
    let h = header_lines(fm);
    let t = render_entry(e);
    let pre = seq!['-', '-', '-', '\n'];
    let mid = seq!['-', '-', '-', '\n', '\n'];
    let q: int = 4 + h.len() as int;
    let n: int = t.len() as int;
    assert(t =~= pre + h + mid + body);
    assert(t.subrange(0, 4) =~= pre);
    assert(t.subrange(4, q) =~= h);
    assert(t.subrange(q, q + 5) =~= mid);
    assert(t.subrange(q + 5, n) =~= body);
    assert(t[0] == '-' && t[1] == '-' && t[2] == '-' && t[3] == '\n') by {
        assert(t.subrange(0, 4)[0] == t[0]);
        assert(t.subrange(0, 4)[1] == t[1]);
        assert(t.subrange(0, 4)[2] == t[2]);
        assert(t.subrange(0, 4)[3] == t[3]);
    }
    assert(t[q] == '-' && t[q + 1] == '-' && t[q + 2] == '-' && t[q + 3] == '\n' && t[q + 4]
        == '\n') by {
        assert(t.subrange(q, q + 5)[0] == t[q]);
        assert(t.subrange(q, q + 5)[1] == t[q + 1]);
        assert(t.subrange(q, q + 5)[2] == t[q + 2]);
        assert(t.subrange(q, q + 5)[3] == t[q + 3]);
        assert(t.subrange(q, q + 5)[4] == t[q + 4]);
    }
    lemma_opening_line(t);
    assert(fm.subrange(0, fm.len() as int) =~= fm);
    assert(fm.subrange(0, 0) =~= Seq::<(Seq<char>, VersionBump)>::empty());
    lemma_read_header_lines(t, 4, fm, 0);
    lemma_closing_line(t, q, fm, body);
}

/// The characters of `s`, one by one.
pub fn chars_of(s: &str) -> (r: Vec<char>)
    ensures
        r@ == s@,
{
    broadcast use vstd::string::axiom_spec_iter, vstd::string::next_postcondition;

    let mut r: Vec<char> = Vec::new();
    let mut it = s.chars();
    assert(it.remaining() == s@);
    loop
        invariant
            r@ + it.remaining() == s@,
            it.decrease() is Some,
        decreases it.decrease()->0,
    {
        match it.next() {
            Some(c) => {
                r.push(c);
            },
            None => {
                assert(r@ =~= s@);
                return r;
            },
        }
    }
}

fn is_space_char(c: char) -> (r: bool)
    ensures
        r == is_space(c),
{
    c == ' ' || c == '\t' || c == '\r' || c == '\n'
}

fn line_end_at(t: &Vec<char>, i: usize) -> (r: usize)
    requires
        i <= t@.len(),
    ensures
        r == line_end(t@, i as int),
        i <= r <= t@.len(),
{
    let mut k = i;
    while k < t.len() && t[k] != '\n'
        invariant
            i <= k <= t@.len(),
            line_end(t@, k as int) == line_end(t@, i as int),
        decreases t@.len() - k,
    {
        k += 1;
    }
    k
}

fn skip_space_at(t: &Vec<char>, i: usize, j: usize) -> (r: usize)
    requires
        i <= j <= t@.len(),
    ensures
        r == skip_space(t@, i as int, j as int),
        i <= r <= j,
{
    let mut k = i;
    while k < j && is_space_char(t[k])
        invariant
            i <= k <= j,
            j <= t@.len(),
            skip_space(t@, k as int, j as int) == skip_space(t@, i as int, j as int),
        decreases j - k,
    {
        k += 1;
    }
    k
}

fn back_space_at(t: &Vec<char>, i: usize, j: usize) -> (r: usize)
    requires
        i <= j <= t@.len(),
    ensures
        r == back_space(t@, i as int, j as int),
        i <= r <= j,
{
    let mut k = j;
    while k > i && is_space_char(t[k - 1])
        invariant
            i <= k <= j,
            j <= t@.len(),
            back_space(t@, i as int, k as int) == back_space(t@, i as int, j as int),
        decreases k - i,
    {
        k -= 1;
    }
    k
}

fn find_char_at(t: &Vec<char>, i: usize, j: usize, ch: char) -> (r: usize)
    requires
        i <= j <= t@.len(),
    ensures
        r == find_char(t@, i as int, j as int, ch),
        i <= r <= j,
{
    let mut k = i;
    while k < j && t[k] != ch
        invariant
            i <= k <= j,
            j <= t@.len(),
            find_char(t@, k as int, j as int, ch) == find_char(t@, i as int, j as int, ch),
        decreases j - k,
    {
        k += 1;
    }
    k
}

/// The trimmed bounds of `[i, j)`.
fn trim_at(t: &Vec<char>, i: usize, j: usize) -> (r: (usize, usize))
    requires
        i <= j <= t@.len(),
    ensures
        i <= r.0 <= r.1 <= j,
        t@.subrange(r.0 as int, r.1 as int) == trimmed(t@, i as int, j as int),
{
    let a = skip_space_at(t, i, j);
    let b = back_space_at(t, a, j);
    (a, b)
}

/// Whether `[a, b)` holds exactly the characters of `word`.
pub(crate) fn holds_at(t: &Vec<char>, a: usize, b: usize, word: &Vec<char>) -> (r: bool)
    requires
        a <= b <= t@.len(),
    ensures
        r == (t@.subrange(a as int, b as int) == word@),
{
    if b - a != word.len() {
        return false;
    }
    let mut k: usize = 0;
    while k < word.len()
        invariant
            b - a == word@.len(),
            a <= b <= t@.len(),
            k <= word@.len(),
            forall|m: int| 0 <= m < k ==> t@[a + m] == word@[m],
        decreases word@.len() - k,
    {
        if t[a + k] != word[k] {
            assert(t@.subrange(a as int, b as int)[k as int] != word@[k as int]);
            return false;
        }
        k += 1;
    }
    assert(t@.subrange(a as int, b as int) =~= word@);
    true
}

fn is_delimiter_at(t: &Vec<char>, i: usize, j: usize) -> (r: bool)
    requires
        i <= j <= t@.len(),
    ensures
        r == (trimmed(t@, i as int, j as int) == delimiter()),
{
    let (a, b) = trim_at(t, i, j);
    let word = vec!['-', '-', '-'];
    assert(word@ == delimiter()) by {
        assert(word@ =~= delimiter());
    }
    holds_at(t, a, b, &word)
}

fn bump_at(t: &Vec<char>, a: usize, b: usize) -> (r: Option<VersionBump>)
    requires
        a <= b <= t@.len(),
    ensures
        r == bump_from_name(t@.subrange(a as int, b as int)),
{
    let major = vec!['m', 'a', 'j', 'o', 'r'];
    let minor = vec!['m', 'i', 'n', 'o', 'r'];
    let patch = vec!['p', 'a', 't', 'c', 'h'];
    assert(major@ =~= bump_name(VersionBump::Major));
    assert(minor@ =~= bump_name(VersionBump::Minor));
    assert(patch@ =~= bump_name(VersionBump::Patch));
    if holds_at(t, a, b, &major) {
        Some(VersionBump::Major)
    } else if holds_at(t, a, b, &minor) {
        Some(VersionBump::Minor)
    } else if holds_at(t, a, b, &patch) {
        Some(VersionBump::Patch)
    } else {
        None
    }
}

/// The text of `[a, b)` as a string.
pub(crate) fn text_at(s: &str, t: &Vec<char>, a: usize, b: usize) -> (r: String)
    requires
        t@ == s@,
        a <= b <= t@.len(),
    ensures
        r@ == t@.subrange(a as int, b as int),
{
    String::from_str(s.substring_char(a, b))
}

/// `r` with `pre` put in front of the characters it read.
pub open spec fn with_prefix(r: Option<(Seq<char>, int)>, pre: Seq<char>) -> Option<
    (Seq<char>, int),
> {
    match r {
        Some((s, k)) => Some((pre + s, k)),
        None => None,
    }
}

proof fn lemma_with_prefix(r: Option<(Seq<char>, int)>, a: Seq<char>, b: Seq<char>)
    ensures
        with_prefix(with_prefix(r, b), a) == with_prefix(r, a + b),
{
    if let Some((s, k)) = r {
        assert(a + (b + s) =~= (a + b) + s);
    }
}

/// Reads a double-quoted name from `i`, just past its opening quote: the
/// name, escapes undone, and the position of its closing quote.
fn read_quoted_at(s: &str, t: &Vec<char>, i: usize, j: usize) -> (r: Option<(String, usize)>)
    requires
        t@ == s@,
        i <= j <= t@.len(),
    ensures
        r is None <==> read_quoted(t@, i as int, j as int) is None,
        r matches Some((name, k)) ==> read_quoted(t@, i as int, j as int) == Some(
            (name@, k as int),
        ) && k < j,
{
    let mut out = String::new();
    let mut k = i;
    assert(with_prefix(read_quoted(t@, i as int, j as int), Seq::empty()) =~= read_quoted(
        t@,
        i as int,
        j as int,
    )) by {
        if let Some((x, e)) = read_quoted(t@, i as int, j as int) {
            assert(Seq::<char>::empty() + x =~= x);
        }
    }
    while k < j
        invariant
            t@ == s@,
            i <= k <= j,
            j <= t@.len(),
            with_prefix(read_quoted(t@, k as int, j as int), out@) == read_quoted(
                t@,
                i as int,
                j as int,
            ),
        decreases j - k,
    {
        proof {
            reveal_strlit("\"");
            reveal_strlit("\\");
            reveal_strlit("\n");
        }
        let ghost before = out@;
        let c = t[k];
        if c == '"' {
            assert(before + Seq::<char>::empty() =~= before);
            return Some((out, k));
        } else if c == '\\' {
            if k + 1 >= j {
                return None;
            }
            let d = t[k + 1];
            let piece: &str = if d == '"' {
                "\""
            } else if d == '\\' {
                "\\"
            } else if d == 'n' {
                "\n"
            } else {
                return None;
            };
            proof {
                let ch = unescaped(d)->0;
                assert(piece@ =~= seq![ch]);
                lemma_with_prefix(read_quoted(t@, k + 2, j as int), before, seq![ch]);
            }
            out.append(piece);
            k = k + 2;
        } else {
            let piece = s.substring_char(k, k + 1);
            proof {
                assert(piece@ =~= seq![c]);
                lemma_with_prefix(read_quoted(t@, k + 1, j as int), before, seq![c]);
            }
            out.append(piece);
            k = k + 1;
        }
    }
    None
}

/// Appends `name` as written between double quotes.
fn append_escaped(out: &mut String, name: &String)
    ensures
        final(out)@ == old(out)@ + escape(name@),
{
    let t = chars_of(name.as_str());
    let ghost start = out@;
    let mut k: usize = 0;
    assert(escape(name@.subrange(0, 0)) =~= Seq::<char>::empty()) by {
        assert(name@.subrange(0, 0) =~= Seq::<char>::empty());
    }
    assert(start + escape(name@.subrange(0, 0)) =~= start);
    while k < t.len()
        invariant
            t@ == name@,
            k <= t@.len(),
            start == old(out)@,
            out@ == start + escape(name@.subrange(0, k as int)),
        decreases t@.len() - k,
    {
        proof {
            reveal_strlit("\\\"");
            reveal_strlit("\\\\");
            reveal_strlit("\\n");
        }
        let c = t[k];
        let ghost before = out@;
        if c == '"' {
            out.append("\\\"");
        } else if c == '\\' {
            out.append("\\\\");
        } else if c == '\n' {
            out.append("\\n");
        } else {
            out.append(name.as_str().substring_char(k, k + 1));
        }
        proof {
            assert(out@ =~= before + escaped_char(c));
            assert(name@.subrange(0, k + 1) =~= name@.subrange(0, k as int).push(c));
            lemma_escape_push(name@.subrange(0, k as int), c);
            assert(out@ =~= start + escape(name@.subrange(0, k + 1)));
        }
        k += 1;
    }
    assert(name@.subrange(0, k as int) =~= name@);
}

fn parse_line_at(s: &str, t: &Vec<char>, i: usize, j: usize) -> (r: Result<
    (String, VersionBump),
    EntryError,
>)
    requires
        t@ == s@,
        i <= j <= t@.len(),
    ensures
        r matches Ok(p) ==> parse_line(t@, i as int, j as int) == Ok::<
            (Seq<char>, VersionBump),
            EntryError,
        >((p.0@, p.1)),
        r matches Err(e) ==> parse_line(t@, i as int, j as int) == Err::<
            (Seq<char>, VersionBump),
            EntryError,
        >(e),
{
    let a = skip_space_at(t, i, j);
    if a < j && t[a] == '"' {
        match read_quoted_at(s, t, a + 1, j) {
            None => Err(EntryError::InvalidLine { offset: i }),
            Some((name, close)) => {
                let c = skip_space_at(t, close + 1, j);
                if c >= j || t[c] != ':' {
                    return Err(EntryError::InvalidLine { offset: i });
                }
                let (sa, sb) = trim_at(t, c + 1, j);
                match bump_at(t, sa, sb) {
                    Some(bump) => Ok((name, bump)),
                    None => Err(EntryError::InvalidSeverity { offset: i }),
                }
            },
        }
    } else if a < j && t[a] == '\'' {
        let close = find_char_at(t, a + 1, j, '\'');
        if close >= j {
            return Err(EntryError::InvalidLine { offset: i });
        }
        let c = skip_space_at(t, close + 1, j);
        if c >= j || t[c] != ':' || close == a + 1 {
            return Err(EntryError::InvalidLine { offset: i });
        }
        let (sa, sb) = trim_at(t, c + 1, j);
        match bump_at(t, sa, sb) {
            Some(bump) => Ok((text_at(s, t, a + 1, close), bump)),
            None => Err(EntryError::InvalidSeverity { offset: i }),
        }
    } else {
        let c = find_char_at(t, i, j, ':');
        let (a0, b0) = trim_at(t, i, c);
        if c >= j || a0 == b0 {
            return Err(EntryError::InvalidLine { offset: i });
        }
        let (sa, sb) = trim_at(t, c + 1, j);
        match bump_at(t, sa, sb) {
            Some(bump) => Ok((text_at(s, t, a0, b0), bump)),
            None => Err(EntryError::InvalidSeverity { offset: i }),
        }
    }
}

impl ChangelogEntry {
    /// Reads a change record: a `---` line (after any leading white space),
    /// one `"name": bump` line per package (double, single or no quotes; blank lines
    /// allowed), a closing `---` line, then the description, trimmed.
    pub fn from_string(contents: &str) -> (r: Result<ChangelogEntry, EntryError>)
        ensures
            r matches Ok(e) ==> parse_entry(contents@) == Ok::<
                (Seq<(Seq<char>, VersionBump)>, Seq<char>),
                EntryError,
            >(e@),
            r matches Err(err) ==> parse_entry(contents@) == Err::<
                (Seq<(Seq<char>, VersionBump)>, Seq<char>),
                EntryError,
            >(err),
    {
        let t = chars_of(contents);
        let n = t.len();
        let s = skip_space_at(&t, 0, n);
        let e = line_end_at(&t, s);
        if s >= n || !is_delimiter_at(&t, s, e) {
            return Err(EntryError::MissingHeader);
        }
        let mut frontmatter: Vec<(String, VersionBump)> = Vec::new();
        let mut i: usize = if e < n {
            e + 1
        } else {
            n
        };
        let ghost whole = parse_entry(contents@);
        assert(header_from(t@, i as int, Seq::empty()) == whole);
        assert(entry_pairs(frontmatter@) =~= Seq::<
            (Seq<char>, VersionBump),
        >::empty());
        while i < n
            invariant
                t@ == contents@,
                n == t@.len(),
                i <= n,
                whole == parse_entry(contents@),
                header_from(t@, i as int, entry_pairs(frontmatter@)) == whole,
            decreases n - i,
        {
            let ghost acc = entry_pairs(frontmatter@);
            let e = line_end_at(&t, i);
            let next: usize = if e < n {
                e + 1
            } else {
                n
            };
            proof {
                if e >= n {
                    assert(header_from(t@, next as int, acc) == header_from(t@, e + 1, acc));
                }
            }
            assert(header_from(t@, i as int, acc) == if trimmed(t@, i as int, e as int)
                == delimiter() {
                Ok((acc, trimmed(t@, e as int, n as int)))
            } else if skip_space(t@, i as int, e as int) == e {
                header_from(t@, e + 1, acc)
            } else {
                match parse_line(t@, i as int, e as int) {
                    Ok(p) => header_from(t@, e + 1, acc.push(p)),
                    Err(err) => Err(err),
                }
            });
            if is_delimiter_at(&t, i, e) {
                let (a, b) = trim_at(&t, e, n);
                let body = text_at(contents, &t, a, b);
                let entry = ChangelogEntry { frontmatter, body };
                return Ok(entry);
            }
            if skip_space_at(&t, i, e) == e {
                i = next;
            } else {
                match parse_line_at(contents, &t, i, e) {
                    Ok(p) => {
                        let ghost v = (p.0@, p.1);
                        frontmatter.push(p);
                        assert(entry_pairs(frontmatter@)
                            =~= acc.push(v));
                        proof {
                            if e >= n {
                                assert(header_from(t@, next as int, acc.push(v)) == header_from(
                                    t@,
                                    e + 1,
                                    acc.push(v),
                                ));
                            }
                        }
                        i = next;
                    },
                    Err(err) => {
                        return Err(err);
                    },
                }
            }
        }
        Err(EntryError::Unterminated)
    }

    /// Writes the change record: a `---` line, one `"name": bump` line per
    /// package (quotes, backslashes and line breaks in the name escaped), a
    /// `---` line, a blank line, then the description.
    pub fn to_string(&self) -> (r: String)
        ensures
            r@ == render_entry(self@),
    {
        proof {
            reveal_strlit("---\n");
            reveal_strlit("\"");
            reveal_strlit("\": ");
            reveal_strlit("\n");
            reveal_strlit("---\n\n");
        }
        let mut out = String::from_str("---\n");
        let mut k: usize = 0;
        let ghost fm = self@.0;
        while k < self.frontmatter.len()
            invariant
                fm == self@.0,
                k <= self.frontmatter@.len(),
                out@ == delimiter() + seq!['\n'] + header_lines(fm.subrange(0, k as int)),
            decreases self.frontmatter@.len() - k,
        {
            let (name, bump) = &self.frontmatter[k];
            proof {
                reveal_strlit("\"");
                reveal_strlit("\": ");
                reveal_strlit("\n");
            }
            let ghost before = out@;
            out.append("\"");
            assert(out@ =~= before + seq!['"']);
            append_escaped(&mut out, name);
            out.append("\": ");
            assert(out@ =~= before + seq!['"'] + escape(name@) + seq!['"', ':', ' ']);
            out.append(bump.as_str());
            out.append("\n");
            assert(out@ =~= before + header_line((name@, *bump)));
            proof {
                let pre = fm.subrange(0, k as int);
                let now = fm.subrange(0, k + 1);
                assert(now.drop_last() =~= pre);
                assert(now.last() == (name@, *bump));
                assert(header_lines(now) == header_lines(pre) + header_line((name@, *bump)));
                assert(out@ =~= delimiter() + seq!['\n'] + header_lines(now));
            }
            k += 1;
        }
        assert(fm.subrange(0, k as int) =~= fm);
        out.append("---\n\n");
        out.append(self.body.as_str());
        assert(out@ =~= render_entry(self@));
        out
    }
}

/// The name of the file that holds a change record written on `date` under
/// the chosen `name`: `date-name.md`.
pub fn entry_file_name(date: &str, name: &str) -> (r: String)
    ensures
        r@ == date@ + seq!['-'] + name@ + seq!['.', 'm', 'd'],
{
    proof {
        reveal_strlit("-");
        reveal_strlit(".md");
    }
    let mut out = String::from_str(date);
    out.append("-");
    out.append(name);
    out.append(".md");
    out
}

} // verus!
