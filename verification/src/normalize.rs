//! Text normalization: line endings, byte-order mark, white space, indentation
//! and Unicode punctuation.

use crate::text::{
    blank, contains_char, find_chars, from_chars, index_from, is_blank, is_white, join, joined,
    law_pieces_clean, law_pieces_join, lemma_before_first, lemma_index_after, lemma_index_from,
    lemma_pieces_nonempty, lemma_replaced_absent, lemma_replaced_gone, lemma_trimmed_lead,
    lemma_trimmed_solid, lemma_untrimmed, occurs_at, pieces, replace, replaced, same, split_on,
    to_chars, trim, trim_start, trimmed, trimmed_start, views,
};
use vstd::prelude::*;
use vstd::string::*;

verus! {

/// The line-ending style of a text.
#[derive(Debug, Clone, Copy, PartialEq, Eq, Structural)]
pub enum LineEnding {
    /// Lines end with a line feed.
    Lf,
    /// Lines end with a carriage return and a line feed.
    Crlf,
}

/// The line-ending style of a text: that of its first line feed.
pub open spec fn line_ending(s: Seq<char>) -> LineEnding {
    match index_from(s, seq!['\n'], 0) {
        Some(i) => if i > 0 && s[i - 1] == '\r' {
            LineEnding::Crlf
        } else {
            LineEnding::Lf
        },
        None => LineEnding::Lf,
    }
}

/// Detects the line ending of `content`.
///
/// The answer is [`LineEnding::Crlf`] where the first line feed follows a
/// carriage return, and [`LineEnding::Lf`] otherwise.
pub fn detect_line_ending(content: &str) -> (r: LineEnding)
    ensures
        r == line_ending(content@),
{
    let v = to_chars(content);
    let lf: Vec<char> = vec!['\n'];
    assert(lf@ == seq!['\n']);
    match find_chars(&v, &lf, 0) {
        Some(i) => if i > 0 && v[i - 1] == '\r' {
            LineEnding::Crlf
        } else {
            LineEnding::Lf
        },
        None => LineEnding::Lf,
    }
}

/// `s` with each `\r\n`, and then each `\r` that is left, replaced by `\n`.
pub open spec fn with_lf(s: Seq<char>) -> Seq<char> {
    replaced(replaced(s, "\r\n"@, "\n"@), "\r"@, "\n"@)
}

/// Something is left of a text that holds something.
pub proof fn lemma_lf_nonempty(s: Seq<char>)
    requires
        s.len() > 0,
    ensures
        with_lf(s).len() > 0,
{
    reveal_strlit("\n");
    assert(replaced(s, "\r\n"@, "\n"@).len() > 0);
}

/// Replaces `\r\n` and lone `\r` with `\n`.
pub fn normalize_to_lf(text: &str) -> (r: String)
    ensures
        r@ == with_lf(text@),
{
    proof {
        reveal_strlit("\r\n");
        reveal_strlit("\r");
    }
    let s = replace(text, "\r\n", "\n");
    replace(s.as_str(), "\r", "\n")
}

/// `s` with its line feeds written as `ending` has them.
pub open spec fn with_ending(s: Seq<char>, ending: LineEnding) -> Seq<char> {
    match ending {
        LineEnding::Lf => s,
        LineEnding::Crlf => replaced(s, "\n"@, "\r\n"@),
    }
}

/// Restores line endings. With [`LineEnding::Lf`] the text is unchanged.
pub fn restore_line_endings(text: &str, ending: LineEnding) -> (r: String)
    ensures
        r@ == with_ending(text@, ending),
{
    proof {
        reveal_strlit("\n");
    }
    match ending {
        LineEnding::Lf => text.to_owned(),
        LineEnding::Crlf => replace(text, "\n", "\r\n"),
    }
}

/// A text in two parts: the byte-order mark, if any, and what follows it.
#[derive(Debug, Clone, Copy, PartialEq, Eq)]
pub struct BomResult<'a> {
    /// The byte-order mark if there is one, otherwise empty.
    pub bom: &'a str,
    /// The text after it.
    pub text: &'a str,
}

/// Whether `s` begins with a byte-order mark.
pub open spec fn has_bom(s: Seq<char>) -> bool {
    s.len() > 0 && s[0] == '\u{FEFF}'
}

/// The byte-order mark of `s`, or nothing.
pub open spec fn bom_of(s: Seq<char>) -> Seq<char> {
    if has_bom(s) {
        seq!['\u{FEFF}']
    } else {
        Seq::empty()
    }
}

/// `s` without its byte-order mark.
pub open spec fn without_bom(s: Seq<char>) -> Seq<char> {
    if has_bom(s) {
        s.skip(1)
    } else {
        s
    }
}

/// Strips a leading byte-order mark (`U+FEFF`).
pub fn strip_bom(content: &str) -> (r: BomResult<'_>)
    ensures
        r.bom@ == bom_of(content@),
        r.text@ == without_bom(content@),
{
    if !content.is_empty() && content.get_char(0) == '\u{FEFF}' {
        let n = content.unicode_len();
        let bom = content.substring_char(0, 1);
        let text = content.substring_char(1, n);
        assert(bom@ == bom_of(content@));
        assert(text@ == content@.skip(1));
        BomResult { bom, text }
    } else {
        let bom = content.substring_char(0, 0);
        assert(bom@ == Seq::<char>::empty());
        BomResult { bom, text: content }
    }
}

/// Whether `c` is a space or a tab.
pub open spec fn is_indent(c: char) -> bool {
    c == ' ' || c == '\t'
}

/// The number of leading spaces and tabs.
pub open spec fn indent_len(s: Seq<char>) -> nat
    decreases s.len(),
{
    if s.len() > 0 && is_indent(s[0]) {
        1 + indent_len(s.skip(1))
    } else {
        0
    }
}

/// The leading spaces and tabs.
pub open spec fn indent_of(s: Seq<char>) -> Seq<char> {
    s.take(indent_len(s) as int)
}

/// The leading spaces and tabs are the longest prefix made of such.
pub proof fn lemma_indent_len(s: Seq<char>)
    ensures
        indent_len(s) <= s.len(),
        forall|i: int| 0 <= i < indent_len(s) ==> is_indent(#[trigger] s[i]),
        indent_len(s) < s.len() ==> !is_indent(s[indent_len(s) as int]),
    decreases s.len(),
{
    if s.len() > 0 && is_indent(s[0]) {
        let t = s.skip(1);
        lemma_indent_len(t);
        assert forall|i: int| 0 <= i < indent_len(s) implies is_indent(#[trigger] s[i]) by {
            if i > 0 {
                assert(s[i] == t[i - 1]);
            }
        }
    }
}

/// Counts the leading spaces and tabs of `line`.
pub fn count_leading_whitespace(line: &str) -> (r: usize)
    ensures
        r == indent_len(line@),
        r <= line@.len(),
{
    let v = to_chars(line);
    let mut i: usize = 0;
    assert(line@.skip(0) == line@);
    while i < v.len() && (v[i] == ' ' || v[i] == '\t')
        invariant
            v@ == line@,
            i <= v@.len(),
            i + indent_len(line@.skip(i as int)) == indent_len(line@),
        decreases v@.len() - i,
    {
        assert(line@.skip(i as int).skip(1) == line@.skip(i + 1));
        i = i + 1;
    }
    i
}

/// The leading spaces and tabs of `line`.
pub fn get_leading_whitespace(line: &str) -> (r: &str)
    ensures
        r@ == indent_of(line@),
        r@.len() == indent_len(line@),
{
    let n = count_leading_whitespace(line);
    let r = line.substring_char(0, n);
    assert(r@ == indent_of(line@));
    r
}

/// The lines that hold more than white space.
pub open spec fn solid(lines: Seq<Seq<char>>) -> Seq<Seq<char>>
    decreases lines.len(),
{
    if lines.len() == 0 {
        Seq::empty()
    } else {
        let before = solid(lines.drop_last());
        if is_blank(lines.last()) {
            before
        } else {
            before.push(lines.last())
        }
    }
}

/// The least indentation of `lines`; none where there is no line.
pub open spec fn least_indent(lines: Seq<Seq<char>>) -> Option<nat>
    decreases lines.len(),
{
    if lines.len() == 0 {
        None
    } else {
        let n = indent_len(lines.last());
        match least_indent(lines.drop_last()) {
            Some(m) if m <= n => Some(m),
            _ => Some(n),
        }
    }
}

/// The lines of a text, as it is split at each line feed.
pub open spec fn lines_of(s: Seq<char>) -> Seq<Seq<char>> {
    pieces(s, '\n')
}

/// The least indentation of the lines that hold more than white space; zero
/// where there is none.
pub open spec fn base_of(lines: Seq<Seq<char>>) -> nat {
    match least_indent(solid(lines)) {
        Some(n) => n,
        None => 0,
    }
}

/// The least indentation of the lines that hold more than white space.
pub(crate) fn least_of(lines: &[String]) -> (r: usize)
    ensures
        r == base_of(views(lines@)),
{
    let mut best: Option<usize> = None;
    let mut i: usize = 0;
    let ghost all = views(lines@);
    assert(all.take(0) =~= Seq::empty());
    while i < lines.len()
        invariant
            i <= lines@.len(),
            views(lines@) == all,
            match best {
                Some(b) => least_indent(solid(all.take(i as int))) == Some(b as nat),
                None => least_indent(solid(all.take(i as int))) is None,
            },
        decreases lines@.len() - i,
    {
        proof {
            assert(all.take(i + 1).drop_last() == all.take(i as int));
            assert(all.take(i + 1).last() == lines@[i as int]@);
        }
        let line = lines[i].as_str();
        if !blank(line) {
            let n = count_leading_whitespace(line);
            proof {
                let before = solid(all.take(i as int));
                assert(before.push(line@).drop_last() == before);
            }
            best = match best {
                Some(b) => if b <= n {
                    Some(b)
                } else {
                    Some(n)
                },
                None => Some(n),
            };
        }
        i = i + 1;
    }
    assert(all.take(i as int) == all);
    match best {
        Some(b) => b,
        None => 0,
    }
}

/// The least indentation of the lines of `text` that hold more than white
/// space.
///
/// Returns `0` if there is no such line.
pub fn min_indent(text: &str) -> (r: usize)
    ensures
        r == base_of(lines_of(text@)),
{
    least_of(&split_on(text, '\n'))
}

/// The first character of the first indentation in `lines`.
pub open spec fn first_indent(lines: Seq<Seq<char>>) -> Option<char>
    decreases lines.len(),
{
    if lines.len() == 0 {
        None
    } else {
        match first_indent(lines.drop_last()) {
            Some(c) => Some(c),
            None => if indent_len(lines.last()) > 0 {
                Some(lines.last()[0])
            } else {
                None
            },
        }
    }
}

/// The character that `lines` are indented with; a space by default.
pub open spec fn lead_char(lines: Seq<Seq<char>>) -> char {
    match first_indent(lines) {
        Some(c) => c,
        None => ' ',
    }
}

/// The character that `s` indents with.
pub open spec fn indent_char(s: Seq<char>) -> char {
    lead_char(lines_of(s))
}

/// An indentation found early is found in the whole.
proof fn lemma_first_indent(lines: Seq<Seq<char>>, k: int)
    requires
        0 <= k <= lines.len(),
        first_indent(lines.take(k)) is Some,
    ensures
        first_indent(lines) == first_indent(lines.take(k)),
    decreases lines.len() - k,
{
    if k < lines.len() {
        assert(lines.take(k + 1).drop_last() == lines.take(k));
        lemma_first_indent(lines, k + 1);
    } else {
        assert(lines.take(k) == lines);
    }
}

/// The first character of the first indentation, or a space.
pub(crate) fn leading_char(lines: &[String]) -> (r: char)
    ensures
        r == lead_char(views(lines@)),
{
    let mut i: usize = 0;
    let ghost all = views(lines@);
    while i < lines.len()
        invariant
            i <= lines@.len(),
            views(lines@) == all,
            first_indent(all.take(i as int)) is None,
        decreases lines@.len() - i,
    {
        proof {
            assert(all.take(i + 1).drop_last() == all.take(i as int));
            assert(all.take(i + 1).last() == lines@[i as int]@);
            lemma_indent_len(lines@[i as int]@);
        }
        let line = lines[i].as_str();
        if count_leading_whitespace(line) > 0 {
            proof {
                lemma_first_indent(all, i + 1);
            }
            return line.get_char(0);
        }
        i = i + 1;
    }
    assert(all.take(i as int) == all);
    ' '
}

/// Detects the character that `text` indents with: the first character of the
/// first indentation, or a space.
pub fn detect_indent_char(text: &str) -> (r: char)
    ensures
        r == indent_char(text@),
{
    leading_char(&split_on(text, '\n'))
}

/// `n` spaces.
pub open spec fn spaces(n: nat) -> Seq<char> {
    Seq::new(n, |i: int| ' ')
}

/// A line whose indentation is all tabs, with `per_tab` spaces for each of
/// them; any other line as it is.
pub open spec fn untabbed_line(line: Seq<char>, per_tab: nat) -> Seq<char> {
    let lead = indent_of(line);
    if trimmed_start(line).len() == 0 || !lead.contains('\t') || lead.contains(' ') {
        line
    } else {
        spaces(lead.len() * per_tab) + trimmed_start(line)
    }
}

/// A text with the leading tabs of its lines replaced by spaces.
pub open spec fn untabbed(s: Seq<char>, per_tab: nat) -> Seq<char> {
    if per_tab == 0 {
        s
    } else {
        joined(lines_of(s).map_values(|l: Seq<char>| untabbed_line(l, per_tab)), "\n"@)
    }
}

/// Appends `n` times `c`.
pub fn push_times(s: &mut String, c: char, n: usize)
    ensures
        final(s)@ == old(s)@ + Seq::new(n as nat, |i: int| c),
{
    let mut i: usize = 0;
    let ghost start = s@;
    assert(start + Seq::new(0, |i: int| c) == start);
    while i < n
        invariant
            i <= n,
            s@ == start + Seq::new(i as nat, |i: int| c),
        decreases n - i,
    {
        s.push(c);
        assert(s@ == start + Seq::new((i + 1) as nat, |i: int| c));
        i = i + 1;
    }
}

fn untab_line(line: &str, per_tab: usize) -> (r: String)
    ensures
        r@ == untabbed_line(line@, per_tab as nat),
{
    let rest = trim_start(line);
    if rest.is_empty() {
        return line.to_owned();
    }
    let lead = get_leading_whitespace(line);
    if !contains_char(lead, '\t') || contains_char(lead, ' ') {
        return line.to_owned();
    }
    let n = count_leading_whitespace(line);
    let mut r: String = String::new();
    let mut i: usize = 0;
    while i < n
        invariant
            i <= n,
            r@ == spaces((i * per_tab) as nat),
        decreases n - i,
    {
        push_times(&mut r, ' ', per_tab);
        proof {
            assert((i + 1) * per_tab == i * per_tab + per_tab) by (nonlinear_arith);
            assert(spaces(((i + 1) * per_tab) as nat) == spaces((i * per_tab) as nat) + Seq::new(
                per_tab as nat,
                |i: int| ' ',
            ));
        }
        i = i + 1;
    }
    r.append(rest);
    r
}

/// Replaces leading tabs with spaces (`spaces_per_tab` for each tab).
///
/// Only lines whose leading white space is purely tabs are converted.
pub fn convert_leading_tabs_to_spaces(text: &str, spaces_per_tab: usize) -> (r: String)
    ensures
        r@ == untabbed(text@, spaces_per_tab as nat),
{
    if spaces_per_tab == 0 {
        return text.to_owned();
    }
    let lines = split_on(text, '\n');
    let mut out: Vec<String> = Vec::new();
    let mut i: usize = 0;
    let ghost target = lines_of(text@).map_values(
        |l: Seq<char>| untabbed_line(l, spaces_per_tab as nat),
    );
    while i < lines.len()
        invariant
            i <= lines@.len(),
            views(lines@) == lines_of(text@),
            target == lines_of(text@).map_values(
                |l: Seq<char>| untabbed_line(l, spaces_per_tab as nat),
            ),
            views(out@) == target.take(i as int),
        decreases lines@.len() - i,
    {
        let ghost before = out@;
        let l = untab_line(lines[i].as_str(), spaces_per_tab);
        let ghost lv = l@;
        out.push(l);
        proof {
            assert(lines_of(text@)[i as int] == lines@[i as int]@);
            assert(views(out@) == views(before).push(lv));
            assert(target.take(i + 1) == target.take(i as int).push(target[i as int]));
        }
        i = i + 1;
    }
    assert(target.take(i as int) == target);
    join(&out, "\n")
}

/// The plain form of a character of fancy punctuation.
pub open spec fn plain(c: char) -> Seq<char> {
    if '\u{2010}' <= c <= '\u{2015}' || c == '\u{2212}' {
        seq!['-']
    } else if '\u{2018}' <= c <= '\u{201B}' {
        seq!['\'']
    } else if '\u{201C}' <= c <= '\u{201F}' {
        seq!['"']
    } else if c == '\u{00A0}' || '\u{2002}' <= c <= '\u{200A}' || c == '\u{202F}' || c == '\u{205F}'
        || c == '\u{3000}' {
        seq![' ']
    } else if c == '\u{2260}' {
        seq!['!', '=']
    } else if c == '\u{00BD}' {
        seq!['1', '/', '2']
    } else if '\u{200B}' <= c <= '\u{200D}' || c == '\u{FEFF}' {
        Seq::empty()
    } else {
        seq![c]
    }
}

/// The plain forms of the characters of `s`.
pub open spec fn plain_all(s: Seq<char>) -> Seq<char>
    decreases s.len(),
{
    if s.len() == 0 {
        Seq::empty()
    } else {
        plain_all(s.drop_last()) + plain(s.last())
    }
}

/// `s` trimmed, with fancy punctuation replaced by its plain form.
pub open spec fn unicode_plain(s: Seq<char>) -> Seq<char> {
    plain_all(trimmed(s))
}

/// Trims `s`, replaces fancy Unicode punctuation with ASCII equivalents and
/// drops zero-width characters.
pub fn normalize_unicode(s: &str) -> (r: String)
    ensures
        r@ == unicode_plain(s@),
{
    let v = to_chars(trim(s));
    let mut out: Vec<char> = Vec::new();
    let mut i: usize = 0;
    assert(v@.take(0) == Seq::<char>::empty());
    while i < v.len()
        invariant
            i <= v@.len(),
            out@ == plain_all(v@.take(i as int)),
        decreases v@.len() - i,
    {
        let c = v[i];
        let ghost before = out@;
        proof {
            assert(v@.take(i + 1).drop_last() == v@.take(i as int));
            assert(v@.take(i + 1).last() == c);
        }
        if ('\u{2010}' <= c && c <= '\u{2015}') || c == '\u{2212}' {
            out.push('-');
        } else if '\u{2018}' <= c && c <= '\u{201B}' {
            out.push('\'');
        } else if '\u{201C}' <= c && c <= '\u{201F}' {
            out.push('"');
        } else if c == '\u{00A0}' || ('\u{2002}' <= c && c <= '\u{200A}') || c == '\u{202F}' || c
            == '\u{205F}' || c == '\u{3000}' {
            out.push(' ');
        } else if c == '\u{2260}' {
            out.push('!');
            out.push('=');
        } else if c == '\u{00BD}' {
            out.push('1');
            out.push('/');
            out.push('2');
        } else if ('\u{200B}' <= c && c <= '\u{200D}') || c == '\u{FEFF}' {
        } else {
            out.push(c);
        }
        assert(out@ == before + plain(c));
        i = i + 1;
    }
    assert(v@.take(i as int) == v@);
    from_chars(&out)
}

/// The form in which a character is compared.
pub open spec fn comparable(c: char) -> char {
    if c == '\u{201C}' || c == '\u{201D}' || c == '\u{201E}' || c == '\u{201F}' || c == '\u{00AB}'
        || c == '\u{00BB}' {
        '"'
    } else if c == '\u{2018}' || c == '\u{2019}' || c == '\u{201A}' || c == '\u{201B}' || c == '`'
        || c == '\u{00B4}' {
        '\''
    } else if c == '\u{2010}' || c == '\u{2011}' || c == '\u{2012}' || c == '\u{2013}' || c
        == '\u{2014}' || c == '\u{2212}' {
        '-'
    } else {
        c
    }
}

/// `s` with each run of spaces and tabs written as one space and every other
/// character in the form in which it is compared.
pub open spec fn collapsed(s: Seq<char>) -> Seq<char>
    decreases s.len(),
{
    if s.len() == 0 {
        Seq::empty()
    } else {
        let before = collapsed(s.drop_last());
        if is_indent(s.last()) {
            if s.len() > 1 && is_indent(s[s.len() - 2]) {
                before
            } else {
                before.push(' ')
            }
        } else {
            before.push(comparable(s.last()))
        }
    }
}

/// The form in which a line is compared.
pub open spec fn fuzzy_form(s: Seq<char>) -> Seq<char> {
    collapsed(trimmed(s))
}

fn comparable_char(c: char) -> (r: char)
    ensures
        r == comparable(c),
{
    if c == '\u{201C}' || c == '\u{201D}' || c == '\u{201E}' || c == '\u{201F}' || c == '\u{00AB}'
        || c == '\u{00BB}' {
        '"'
    } else if c == '\u{2018}' || c == '\u{2019}' || c == '\u{201A}' || c == '\u{201B}' || c == '`'
        || c == '\u{00B4}' {
        '\''
    } else if c == '\u{2010}' || c == '\u{2011}' || c == '\u{2012}' || c == '\u{2013}' || c
        == '\u{2014}' || c == '\u{2212}' {
        '-'
    } else {
        c
    }
}

/// Normalizes a line for fuzzy comparison.
///
/// Trims white space, collapses interior runs of spaces and tabs to a single
/// space, and writes fancy quotes and dashes in ASCII.
pub fn normalize_for_fuzzy(line: &str) -> (r: String)
    ensures
        r@ == fuzzy_form(line@),
{
    let v = to_chars(trim(line));
    let mut out: Vec<char> = Vec::new();
    let mut i: usize = 0;
    assert(v@.take(0) == Seq::<char>::empty());
    while i < v.len()
        invariant
            i <= v@.len(),
            out@ == collapsed(v@.take(i as int)),
        decreases v@.len() - i,
    {
        let c = v[i];
        proof {
            let t = v@.take(i + 1);
            assert(t.drop_last() == v@.take(i as int));
            assert(t.last() == c);
            if i > 0 {
                assert(t[t.len() - 2] == v@[i - 1]);
            }
        }
        if c == ' ' || c == '\t' {
            if i > 0 && (v[i - 1] == ' ' || v[i - 1] == '\t') {
            } else {
                out.push(' ');
            }
        } else {
            out.push(comparable_char(c));
        }
        i = i + 1;
    }
    assert(v@.take(i as int) == v@);
    from_chars(&out)
}

/// The greatest common divisor; that of a number and zero is the number.
pub open spec fn common_divisor(a: nat, b: nat) -> nat
    decreases b,
{
    if b == 0 {
        a
    } else {
        common_divisor(b, a % b)
    }
}

fn gcd(a: usize, b: usize) -> (r: usize)
    ensures
        r == common_divisor(a as nat, b as nat),
{
    let mut x: usize = a;
    let mut y: usize = b;
    while y != 0
        invariant
            common_divisor(x as nat, y as nat) == common_divisor(a as nat, b as nat),
        decreases y,
    {
        let t: usize = y;
        y = x % y;
        x = t;
    }
    x
}

/// How a block of text is indented.
pub ghost struct Profile {
    /// The number of lines that hold more than white space.
    pub count: nat,
    /// The first character of the first indentation.
    pub lead: Option<char>,
    /// Whether no tab is used to indent.
    pub space_only: bool,
    /// Whether no space is used to indent.
    pub tab_only: bool,
    /// Whether both are used.
    pub mixed: bool,
    /// The common divisor of the indentations, zero where there is none.
    pub step: nat,
}

/// How `lines`, none of them blank, are indented.
pub open spec fn profile(lines: Seq<Seq<char>>) -> Profile
    decreases lines.len(),
{
    if lines.len() == 0 {
        Profile {
            count: 0,
            lead: None,
            space_only: true,
            tab_only: true,
            mixed: false,
            step: 0,
        }
    } else {
        let p = profile(lines.drop_last());
        let line = lines.last();
        let indent = indent_of(line);
        let n = indent_len(line);
        Profile {
            count: p.count + 1,
            lead: if p.lead is None && n > 0 {
                Some(line[0])
            } else {
                p.lead
            },
            space_only: p.space_only && !indent.contains('\t'),
            tab_only: p.tab_only && !indent.contains(' '),
            mixed: p.mixed || (indent.contains(' ') && indent.contains('\t')) || (n > 0
                && p.lead is Some && p.lead != Some(line[0])),
            step: if n == 0 {
                p.step
            } else if p.step == 0 {
                n
            } else {
                common_divisor(p.step, n)
            },
        }
    }
}

/// How a text is indented.
pub open spec fn text_profile(s: Seq<char>) -> Profile {
    profile(solid(lines_of(s)))
}

/// The unit of indentation: one tab, or the common divisor of the numbers of
/// spaces; zero where it cannot be told.
pub open spec fn indent_unit(p: Profile) -> nat {
    if p.count == 0 {
        0
    } else if p.tab_only {
        1
    } else if p.space_only {
        p.step
    } else {
        0
    }
}

struct IndentProfile {
    lines: Vec<String>,
    lead: Option<char>,
    space_only: bool,
    tab_only: bool,
    mixed: bool,
    unit: usize,
    non_empty_count: usize,
}

fn build_indent_profile(text: &str) -> (r: IndentProfile)
    ensures
        views(r.lines@) == lines_of(text@),
        r.lead == text_profile(text@).lead,
        r.space_only == text_profile(text@).space_only,
        r.tab_only == text_profile(text@).tab_only,
        r.mixed == text_profile(text@).mixed,
        r.unit == indent_unit(text_profile(text@)),
        r.non_empty_count == text_profile(text@).count,
{
    let lines = split_on(text, '\n');
    let mut lead: Option<char> = None;
    let mut space_only = true;
    let mut tab_only = true;
    let mut mixed = false;
    let mut count: usize = 0;
    let mut step: usize = 0;
    let mut i: usize = 0;
    let ghost all = lines_of(text@);
    assert(all.take(0) =~= Seq::empty());
    while i < lines.len()
        invariant
            i <= lines@.len(),
            count <= i,
            views(lines@) == all,
            profile(solid(all.take(i as int))) == (Profile {
                count: count as nat,
                lead,
                space_only,
                tab_only,
                mixed,
                step: step as nat,
            }),
        decreases lines@.len() - i,
    {
        proof {
            assert(all.take(i + 1).drop_last() == all.take(i as int));
            assert(all.take(i + 1).last() == lines@[i as int]@);
        }
        let line = lines[i].as_str();
        if !blank(line) {
            let indent = get_leading_whitespace(line);
            let n = count_leading_whitespace(line);
            proof {
                let before = solid(all.take(i as int));
                assert(before.push(line@).drop_last() == before);
                lemma_indent_len(line@);
            }
            let has_space = contains_char(indent, ' ');
            let has_tab = contains_char(indent, '\t');
            count = count + 1;
            if has_space {
                tab_only = false;
            }
            if has_tab {
                space_only = false;
            }
            if has_space && has_tab {
                mixed = true;
            }
            if n > 0 {
                let c = line.get_char(0);
                match lead {
                    None => {
                        lead = Some(c);
                    },
                    Some(first) => {
                        if first != c {
                            mixed = true;
                        }
                    },
                }
                step = if step == 0 {
                    n
                } else {
                    gcd(step, n)
                };
            }
        }
        i = i + 1;
    }
    assert(all.take(i as int) == all);
    let unit: usize = if count == 0 {
        0
    } else if tab_only {
        1
    } else if space_only {
        step
    } else {
        0
    };
    IndentProfile { lines, lead, space_only, tab_only, mixed, unit, non_empty_count: count }
}

/// Whether the two texts differ in indentation alone.
pub open spec fn same_but_indent(a: Seq<Seq<char>>, b: Seq<Seq<char>>) -> bool {
    a.len() == b.len() && forall|i: int|
        0 <= i < a.len() ==> trimmed(#[trigger] a[i]) == trimmed(b[i])
}

/// Whether, line by line, each tab of `old` is `per_tab` spaces in `actual`.
pub open spec fn tabs_match(old: Seq<Seq<char>>, actual: Seq<Seq<char>>, per_tab: nat) -> bool {
    forall|i: int|
        0 <= i < old.len() && i < actual.len() && !is_blank(#[trigger] old[i]) && !is_blank(
            actual[i],
        ) && indent_len(old[i]) > 0 ==> indent_len(actual[i]) == indent_len(old[i]) * per_tab
}

/// By how much each line of `old` is moved in `actual`, up to line `n`.
pub open spec fn shifts(old: Seq<Seq<char>>, actual: Seq<Seq<char>>, n: int) -> Seq<int>
    decreases n,
{
    if n <= 0 {
        Seq::empty()
    } else {
        let before = shifts(old, actual, n - 1);
        let i = n - 1;
        if i >= old.len() || i >= actual.len() || is_blank(old[i]) || is_blank(actual[i]) {
            before
        } else {
            before.push(indent_len(actual[i]) - indent_len(old[i]))
        }
    }
}

/// Whether `d` holds one number, at least once.
pub open spec fn is_constant(d: Seq<int>) -> bool {
    d.len() > 0 && forall|i: int| 0 <= i < d.len() ==> #[trigger] d[i] == d[0]
}

/// The shift that all lines have in common.
pub open spec fn common_shift(old: Seq<Seq<char>>, actual: Seq<Seq<char>>) -> Option<int> {
    let n = if old.len() <= actual.len() {
        old.len()
    } else {
        actual.len()
    };
    let d = shifts(old, actual, n as int);
    if is_constant(d) {
        Some(d[0])
    } else {
        None
    }
}

/// A line moved by `shift`: to the right with `c`, or to the left as far as its
/// indentation goes. A blank line stays as it is.
pub open spec fn shifted_line(line: Seq<char>, shift: int, c: char) -> Seq<char> {
    if is_blank(line) {
        line
    } else if shift > 0 {
        Seq::new(shift as nat, |i: int| c) + line
    } else if -shift <= indent_len(line) {
        line.skip(-shift)
    } else {
        line.skip(indent_len(line) as int)
    }
}

/// `new` moved as `actual` is moved against `old`.
pub open spec fn adjusted(old: Seq<char>, actual: Seq<char>, new: Seq<char>) -> Seq<char> {
    let a = text_profile(old);
    let b = text_profile(actual);
    let c = text_profile(new);
    if old == actual || same_but_indent(lines_of(old), lines_of(new)) || a.count == 0 || b.count == 0
        || c.count == 0 || a.mixed || b.mixed || c.mixed {
        new
    } else if a.lead is Some && b.lead is Some && a.lead != b.lead {
        if b.space_only && a.tab_only && c.tab_only && indent_unit(b) > 0 && tabs_match(
            lines_of(old),
            lines_of(actual),
            indent_unit(b),
        ) {
            untabbed(new, indent_unit(b))
        } else {
            new
        }
    } else {
        match common_shift(lines_of(old), lines_of(actual)) {
            None => new,
            Some(d) => if d == 0 || (c.lead is Some && b.lead is Some && c.lead != b.lead) {
                new
            } else {
                let by = if b.lead is Some {
                    b.lead->0
                } else if a.lead is Some {
                    a.lead->0
                } else {
                    indent_char(actual)
                };
                joined(lines_of(new).map_values(|l: Seq<char>| shifted_line(l, d, by)), "\n"@)
            },
        }
    }
}

pub(crate) fn same_trimmed(a: &[String], b: &[String]) -> (r: bool)
    ensures
        r == same_but_indent(views(a@), views(b@)),
{
    if a.len() != b.len() {
        return false;
    }
    let mut i: usize = 0;
    while i < a.len()
        invariant
            i <= a@.len(),
            a@.len() == b@.len(),
            forall|j: int| 0 <= j < i ==> trimmed(#[trigger] views(a@)[j]) == trimmed(views(b@)[j]),
        decreases a@.len() - i,
    {
        if !same(trim(a[i].as_str()), trim(b[i].as_str())) {
            assert(trimmed(views(a@)[i as int]) != trimmed(views(b@)[i as int]));
            return false;
        }
        i = i + 1;
    }
    true
}

pub(crate) fn tabs_consistent(old: &[String], actual: &[String], per_tab: usize) -> (r: bool)
    ensures
        r == tabs_match(views(old@), views(actual@), per_tab as nat),
{
    let ghost o = views(old@);
    let ghost a = views(actual@);
    let mut i: usize = 0;
    while i < old.len() && i < actual.len()
        invariant
            i <= old@.len(),
            i <= actual@.len(),
            o == views(old@),
            a == views(actual@),
            forall|j: int|
                0 <= j < i && !is_blank(#[trigger] o[j]) && !is_blank(a[j]) && indent_len(o[j]) > 0
                    ==> indent_len(a[j]) == indent_len(o[j]) * per_tab,
        decreases old@.len() - i,
    {
        let ol = old[i].as_str();
        let al = actual[i].as_str();
        assert(ol@ == o[i as int] && al@ == a[i as int]);
        if !blank(ol) && !blank(al) {
            let n = count_leading_whitespace(ol);
            let m = count_leading_whitespace(al);
            if n > 0 {
                assert(n * per_tab <= 0xFFFF_FFFF_FFFF_FFFF * 0xFFFF_FFFF_FFFF_FFFF)
                    by (nonlinear_arith)
                    requires
                        n <= 0xFFFF_FFFF_FFFF_FFFF,
                        per_tab <= 0xFFFF_FFFF_FFFF_FFFF,
                ;
                let product: u128 = (n as u128) * (per_tab as u128);
                if m as u128 != product {
                    assert(!is_blank(o[i as int]));
                    return false;
                }
            }
        }
        i = i + 1;
    }
    true
}

pub(crate) fn uniform_shift(old: &[String], actual: &[String]) -> (r: Option<i128>)
    ensures
        match r {
            Some(d) => common_shift(views(old@), views(actual@)) == Some(d as int),
            None => common_shift(views(old@), views(actual@)) is None,
        },
        r is Some ==> -0xFFFF_FFFF_FFFF_FFFF <= r->0 <= 0xFFFF_FFFF_FFFF_FFFF,
{
    let ghost o = views(old@);
    let ghost a = views(actual@);
    let n: usize = if old.len() <= actual.len() {
        old.len()
    } else {
        actual.len()
    };
    let mut ds: Vec<i128> = Vec::new();
    let mut i: usize = 0;
    while i < n
        invariant
            i <= n,
            n <= old@.len(),
            n <= actual@.len(),
            o == views(old@),
            a == views(actual@),
            shifts(o, a, i as int) == Seq::new(ds@.len(), |k: int| ds@[k] as int),
            forall|k: int|
                0 <= k < ds@.len() ==> -0xFFFF_FFFF_FFFF_FFFF <= #[trigger] ds@[k]
                    <= 0xFFFF_FFFF_FFFF_FFFF,
        decreases n - i,
    {
        let ol = old[i].as_str();
        let al = actual[i].as_str();
        assert(ol@ == o[i as int] && al@ == a[i as int]);
        if !blank(ol) && !blank(al) {
            let x = count_leading_whitespace(al);
            let y = count_leading_whitespace(ol);
            let ghost before = ds@;
            ds.push(x as i128 - y as i128);
            assert(Seq::new(ds@.len(), |k: int| ds@[k] as int) == Seq::new(
                before.len(),
                |k: int| before[k] as int,
            ).push(x - y));
        }
        i = i + 1;
    }
    let ghost d = shifts(o, a, n as int);
    assert(d == Seq::new(ds@.len(), |k: int| ds@[k] as int));
    if ds.len() == 0 {
        return None;
    }
    let first = ds[0];
    assert(d[0] == first);
    let mut j: usize = 0;
    while j < ds.len()
        invariant
            j <= ds@.len(),
            ds@.len() > 0,
            first == ds@[0],
            d == Seq::new(ds@.len(), |k: int| ds@[k] as int),
            d == shifts(o, a, n as int),
            n == (if o.len() <= a.len() {
                o.len()
            } else {
                a.len()
            }),
            o == views(old@),
            a == views(actual@),
            forall|k: int| 0 <= k < j ==> ds@[k] == first,
        decreases ds@.len() - j,
    {
        if ds[j] != first {
            assert(d[j as int] != d[0]);
            assert(!is_constant(d));
            return None;
        }
        j = j + 1;
    }
    assert(is_constant(d));
    Some(first)
}

pub(crate) fn shift_line(line: &str, shift: i128, c: char) -> (r: String)
    requires
        -0xFFFF_FFFF_FFFF_FFFF <= shift <= 0xFFFF_FFFF_FFFF_FFFF,
    ensures
        r@ == shifted_line(line@, shift as int, c),
{
    if blank(line) {
        return line.to_owned();
    }
    if shift > 0 {
        let mut r: String = String::new();
        let mut i: i128 = 0;
        while i < shift
            invariant
                0 <= i <= shift,
                r@ == Seq::new(i as nat, |k: int| c),
            decreases shift - i,
        {
            r.push(c);
            assert(r@ == Seq::new((i + 1) as nat, |k: int| c));
            i = i + 1;
        }
        r.append(line);
        return r;
    }
    let n = count_leading_whitespace(line);
    let back: i128 = -shift;
    let k: usize = if back <= n as i128 {
        back as usize
    } else {
        n
    };
    let r = line.substring_char(k, line.unicode_len());
    assert(r@ == line@.skip(k as int));
    r.to_owned()
}

fn shift_lines(lines: &[String], shift: i128, c: char) -> (r: Vec<String>)
    requires
        -0xFFFF_FFFF_FFFF_FFFF <= shift <= 0xFFFF_FFFF_FFFF_FFFF,
    ensures
        views(r@) == views(lines@).map_values(|l: Seq<char>| shifted_line(l, shift as int, c)),
{
    let ghost target = views(lines@).map_values(|l: Seq<char>| shifted_line(l, shift as int, c));
    let mut out: Vec<String> = Vec::new();
    let mut i: usize = 0;
    while i < lines.len()
        invariant
            i <= lines@.len(),
            -0xFFFF_FFFF_FFFF_FFFF <= shift <= 0xFFFF_FFFF_FFFF_FFFF,
            target == views(lines@).map_values(|l: Seq<char>| shifted_line(l, shift as int, c)),
            views(out@) == target.take(i as int),
        decreases lines@.len() - i,
    {
        let ghost before = out@;
        let l = shift_line(lines[i].as_str(), shift, c);
        let ghost lv = l@;
        out.push(l);
        proof {
            assert(views(lines@)[i as int] == lines@[i as int]@);
            assert(views(out@) == views(before).push(lv));
            assert(target.take(i + 1) == target.take(i as int).push(target[i as int]));
        }
        i = i + 1;
    }
    assert(target.take(i as int) == target);
    out
}

/// Adjusts the indentation of `new_text` to the difference between `old_text`
/// and `actual_text`.
///
/// When a caller gives `old_text` at one indentation level but the file has
/// `actual_text` at a different level, `new_text` is moved by the difference,
/// so that the replacement aligns with the surrounding code.
///
/// Returns `new_text` unchanged when:
/// - `old_text == actual_text`
/// - the change is purely one of indentation (same trimmed lines)
/// - any text has mixed indent characters
/// - the differences are not the same on all lines
/// - any text has no line that holds more than white space
pub fn adjust_indentation(old_text: &str, actual_text: &str, new_text: &str) -> (r: String)
    ensures
        r@ == adjusted(old_text@, actual_text@, new_text@),
{
    if same(old_text, actual_text) {
        return new_text.to_owned();
    }
    let old = build_indent_profile(old_text);
    let actual = build_indent_profile(actual_text);
    let new = build_indent_profile(new_text);
    if same_trimmed(&old.lines, &new.lines) {
        return new_text.to_owned();
    }
    if new.non_empty_count == 0 || old.non_empty_count == 0 || actual.non_empty_count == 0 {
        return new_text.to_owned();
    }
    if old.mixed || actual.mixed || new.mixed {
        return new_text.to_owned();
    }
    let differ = match (old.lead, actual.lead) {
        (Some(x), Some(y)) => x != y,
        _ => false,
    };
    if differ {
        if actual.space_only && old.tab_only && new.tab_only && actual.unit > 0 && tabs_consistent(
            &old.lines,
            &actual.lines,
            actual.unit,
        ) {
            return convert_leading_tabs_to_spaces(new_text, actual.unit);
        }
        return new_text.to_owned();
    }
    match uniform_shift(&old.lines, &actual.lines) {
        None => new_text.to_owned(),
        Some(d) => {
            let other = match (new.lead, actual.lead) {
                (Some(x), Some(y)) => x != y,
                _ => false,
            };
            if d == 0 || other {
                return new_text.to_owned();
            }
            let by = match actual.lead {
                Some(c) => c,
                None => match old.lead {
                    Some(c) => c,
                    None => detect_indent_char(actual_text),
                },
            };
            let out = shift_lines(&new.lines, d, by);
            join(&out, "\n")
        },
    }
}

/// Normalized text holds no carriage return.
pub proof fn law_lf_only(s: Seq<char>)
    ensures
        !with_lf(s).contains('\r'),
{
    reveal_strlit("\r");
    reveal_strlit("\n");
    assert("\r"@ =~= seq!['\r']);
    lemma_replaced_gone(replaced(s, "\r\n"@, "\n"@), '\r', "\n"@);
}

/// Text without carriage returns is normalized already.
pub proof fn law_lf_keeps(s: Seq<char>)
    requires
        !s.contains('\r'),
    ensures
        with_lf(s) == s,
{
    reveal_strlit("\r");
    reveal_strlit("\r\n");
    lemma_replaced_absent(s, "\r\n"@, "\n"@);
    lemma_replaced_absent(s, "\r"@, "\n"@);
}

/// To normalize twice is to normalize once.
pub proof fn law_lf_idempotent(s: Seq<char>)
    ensures
        with_lf(with_lf(s)) == with_lf(s),
{
    law_lf_only(s);
    law_lf_keeps(with_lf(s));
}

/// Line feeds that are written as `\r\n` and read again are line feeds.
proof fn lemma_crlf_back(t: Seq<char>)
    requires
        !t.contains('\r'),
    ensures
        replaced(replaced(t, "\n"@, "\r\n"@), "\r\n"@, "\n"@) == t,
    decreases t.len(),
{
    reveal_strlit("\n");
    reveal_strlit("\r\n");
    assert("\n"@ =~= seq!['\n']);
    assert("\r\n"@[0] == '\r');
    let written = replaced(t, "\n"@, "\r\n"@);
    match index_from(t, "\n"@, 0) {
        Some(k) => {
            lemma_before_first(t, '\n', k);
            let a = t.take(k);
            let rest = t.skip(k + 1);
            assert forall|i: int| 0 <= i < a.len() implies a[i] != '\r' by {
                assert(t.contains(t[i]));
            }
            assert forall|i: int| 0 <= i < rest.len() implies rest[i] != '\r' by {
                assert(t.contains(t[k + 1 + i]));
            }
            lemma_crlf_back(rest);
            let tail = replaced(rest, "\n"@, "\r\n"@);
            assert(written == a + "\r\n"@ + tail);
            lemma_index_after(a, "\r\n"@, tail);
            assert(written.take(a.len() as int) =~= a);
            assert(written.skip(a.len() + 2int) =~= tail);
            assert(replaced(written, "\r\n"@, "\n"@) =~= a + "\n"@ + rest);
        },
        None => {
            lemma_replaced_absent(t, "\r\n"@, "\n"@);
        },
    }
}

/// What is written with any line ending reads as it was, once normalized.
pub proof fn law_ending_round_trip(t: Seq<char>, ending: LineEnding)
    requires
        !t.contains('\r'),
    ensures
        with_lf(with_ending(t, ending)) == t,
{
    match ending {
        LineEnding::Lf => {
            law_lf_keeps(t);
        },
        LineEnding::Crlf => {
            lemma_crlf_back(t);
            reveal_strlit("\r");
            lemma_replaced_absent(t, "\r"@, "\n"@);
        },
    }
}

/// The line ending that a text of more than one line is written with is
/// detected.
pub proof fn law_ending_detected(t: Seq<char>, ending: LineEnding)
    requires
        !t.contains('\r'),
        t.contains('\n'),
    ensures
        line_ending(with_ending(t, ending)) == ending,
{
    reveal_strlit("\n");
    reveal_strlit("\r\n");
    assert("\n"@ =~= seq!['\n']);
    lemma_index_from(t, seq!['\n'], 0);
    let j = choose|j: int| 0 <= j < t.len() && t[j] == '\n';
    assert(t.subrange(j, j + 1) =~= seq!['\n']);
    assert(occurs_at(t, seq!['\n'], j));
    let k = index_from(t, seq!['\n'], 0)->0;
    lemma_before_first(t, '\n', k);
    match ending {
        LineEnding::Lf => {
            if k > 0 {
                assert(t.contains(t[k - 1]));
            }
        },
        LineEnding::Crlf => {
            let a = t.take(k) + seq!['\r'];
            let tail = replaced(t.skip(k + 1), "\n"@, "\r\n"@);
            let w = with_ending(t, ending);
            assert(w == t.take(k) + "\r\n"@ + tail);
            assert(w =~= a + seq!['\n'] + tail);
            assert forall|i: int| 0 <= i < a.len() implies a[i] != '\n' by {
                if i < k {
                    assert(t.take(k).contains(t.take(k)[i]));
                }
            }
            lemma_index_after(a, seq!['\n'], tail);
        },
    }
}

/// The byte-order mark and what follows it are the text.
pub proof fn law_bom_split(s: Seq<char>)
    ensures
        bom_of(s) + without_bom(s) == s,
{
    assert(bom_of(s) + without_bom(s) =~= s);
}

/// Collapsed text is collapsed, keeps the kind of its last character, and begins
/// with its first character in the form in which that is compared.
proof fn lemma_collapsed(s: Seq<char>)
    ensures
        collapsed(collapsed(s)) == collapsed(s),
        s.len() > 0 ==> {
            &&& collapsed(s).len() > 0
            &&& is_indent(collapsed(s).last()) == is_indent(s.last())
            &&& !is_indent(s.last()) ==> collapsed(s).last() == comparable(s.last())
            &&& !is_indent(s[0]) ==> collapsed(s)[0] == comparable(s[0])
        },
    decreases s.len(),
{
    if s.len() > 0 {
        let head = s.drop_last();
        lemma_collapsed(head);
        let before = collapsed(head);
        let all = collapsed(s);
        if all.len() == before.len() + 1 {
            assert(all.drop_last() =~= before);
            if before.len() > 0 {
                assert(all[all.len() - 2] == before.last());
                if s.len() > 1 {
                    assert(head.last() == s[s.len() - 2]);
                }
            }
        }
    }
}

/// The form in which a line is compared is compared as it is.
pub proof fn law_fuzzy_form_settles(s: Seq<char>)
    ensures
        fuzzy_form(fuzzy_form(s)) == fuzzy_form(s),
{
    let t = trimmed(s);
    lemma_trimmed_solid(s);
    lemma_collapsed(t);
    if t.len() > 0 {
        let c = collapsed(t);
        assert(!is_white(c[0]) && !is_white(c.last()));
        assert(trimmed(c) == c);
    } else {
        assert(trimmed(collapsed(t)) =~= collapsed(t));
    }
}

/// `k` times the character `c`.
pub open spec fn times(c: char, k: nat) -> Seq<char> {
    Seq::new(k, |i: int| c)
}

/// A line with more indentation is indented by that much more, and holds the same
/// text.
pub proof fn lemma_indented_line(line: Seq<char>, c: char, k: nat)
    requires
        is_indent(c),
    ensures
        indent_len(times(c, k) + line) == k + indent_len(line),
        indent_of(times(c, k) + line) == times(c, k) + indent_of(line),
        trimmed(times(c, k) + line) == trimmed(line),
        is_blank(times(c, k) + line) == is_blank(line),
    decreases k,
{
    if k == 0 {
        assert(times(c, 0) + line =~= line);
        assert(times(c, 0) + indent_of(line) =~= indent_of(line));
    } else {
        let m = (k - 1) as nat;
        let inner = times(c, m) + line;
        lemma_indented_line(line, c, m);
        assert(times(c, k) + line =~= seq![c] + inner);
        assert((seq![c] + inner).skip(1) =~= inner);
        lemma_trimmed_lead(c, inner);
        lemma_indent_len(line);
        assert(indent_of(times(c, k) + line) =~= times(c, k) + indent_of(line));
    }
}

/// Whether all lines that hold something are indented with `c` alone.
pub open spec fn is_indented_by(lines: Seq<Seq<char>>, c: char) -> bool {
    forall|i: int, j: int|
        0 <= i < lines.len() && !is_blank(lines[i]) && 0 <= j < indent_len(lines[i])
            ==> #[trigger] lines[i][j] == c
}

/// Whether some line holds something.
pub open spec fn has_solid(lines: Seq<Seq<char>>) -> bool {
    exists|i: int| 0 <= i < lines.len() && !is_blank(#[trigger] lines[i])
}

/// Whether `actual` is `old` with each line that holds something moved to the right
/// by `k` times `c`.
pub open spec fn is_moved(old: Seq<Seq<char>>, actual: Seq<Seq<char>>, c: char, k: nat) -> bool {
    old.len() == actual.len() && forall|i: int|
        0 <= i < old.len() ==> if is_blank(#[trigger] old[i]) {
            is_blank(actual[i])
        } else {
            actual[i] == times(c, k) + old[i]
        }
}

/// The lines that hold something are among the lines.
proof fn lemma_solid(lines: Seq<Seq<char>>)
    ensures
        forall|i: int|
            0 <= i < solid(lines).len() ==> lines.contains(#[trigger] solid(lines)[i]) && !is_blank(
                solid(lines)[i],
            ),
        has_solid(lines) ==> solid(lines).len() > 0,
    decreases lines.len(),
{
    if lines.len() > 0 {
        let rest = lines.drop_last();
        lemma_solid(rest);
        assert forall|i: int| 0 <= i < solid(lines).len() implies lines.contains(
            #[trigger] solid(lines)[i],
        ) && !is_blank(solid(lines)[i]) by {
            if i < solid(rest).len() {
                assert(solid(lines)[i] == solid(rest)[i]);
                let k = choose|k: int| 0 <= k < rest.len() && rest[k] == solid(rest)[i];
                assert(lines[k] == solid(lines)[i]);
            } else {
                assert(lines[lines.len() - 1] == solid(lines)[i]);
            }
        }
        if has_solid(lines) && is_blank(lines.last()) {
            let i = choose|i: int| 0 <= i < lines.len() && !is_blank(#[trigger] lines[i]);
            assert(!is_blank(rest[i]));
        }
    }
}

/// How lines are indented of which each is indented with `c` alone.
proof fn lemma_profile(lines: Seq<Seq<char>>, c: char)
    requires
        is_indent(c),
        forall|i: int, j: int|
            0 <= i < lines.len() && 0 <= j < indent_len(lines[i]) ==> #[trigger] lines[i][j] == c,
    ensures
        ({
            let p = profile(lines);
            &&& p.count == lines.len()
            &&& !p.mixed
            &&& p.lead is None || p.lead == Some(c)
            &&& (exists|i: int| 0 <= i < lines.len() && indent_len(#[trigger] lines[i]) > 0)
                ==> p.lead == Some(c)
        }),
    decreases lines.len(),
{
    if lines.len() > 0 {
        let rest = lines.drop_last();
        assert forall|i: int, j: int|
            0 <= i < rest.len() && 0 <= j < indent_len(rest[i]) implies #[trigger] rest[i][j]
            == c by {
            assert(rest[i][j] == lines[i][j]);
        }
        lemma_profile(rest, c);
        let line = lines.last();
        let n = lines.len() - 1;
        lemma_indent_len(line);
        assert forall|j: int| 0 <= j < indent_of(line).len() implies #[trigger] indent_of(line)[j]
            == c by {
            assert(lines[n][j] == c);
        }
        if indent_len(line) > 0 {
            assert(lines[n][0] == c);
        }
        if exists|i: int| 0 <= i < lines.len() && indent_len(#[trigger] lines[i]) > 0 {
            let i = choose|i: int| 0 <= i < lines.len() && indent_len(#[trigger] lines[i]) > 0;
            if i < n {
                assert(indent_len(rest[i]) > 0);
            }
        }
    }
}

/// How a text is indented whose lines are indented with `c` alone.
proof fn lemma_text_profile(s: Seq<char>, c: char)
    requires
        is_indent(c),
        is_indented_by(lines_of(s), c),
        has_solid(lines_of(s)),
    ensures
        text_profile(s).count > 0,
        !text_profile(s).mixed,
        text_profile(s).lead is None || text_profile(s).lead == Some(c),
        (forall|i: int|
            0 <= i < lines_of(s).len() && !is_blank(#[trigger] lines_of(s)[i]) ==> indent_len(
                lines_of(s)[i],
            ) > 0) ==> text_profile(s).lead == Some(c),
{
    let lines = lines_of(s);
    let kept = solid(lines);
    lemma_solid(lines);
    assert forall|i: int, j: int| 0 <= i < kept.len() && 0 <= j < indent_len(kept[i]) implies
        #[trigger] kept[i][j] == c by {
        let k = choose|k: int| 0 <= k < lines.len() && lines[k] == kept[i];
        assert(lines[k][j] == c);
    }
    lemma_profile(kept, c);
    if forall|i: int|
        0 <= i < lines.len() && !is_blank(#[trigger] lines[i]) ==> indent_len(lines[i]) > 0 {
        let k = choose|k: int| 0 <= k < lines.len() && lines[k] == kept[0];
        assert(indent_len(lines[k]) > 0);
        assert(indent_len(kept[0]) > 0);
    }
}

/// Lines that are all moved alike have that shift in common.
pub proof fn lemma_common_shift(old: Seq<Seq<char>>, actual: Seq<Seq<char>>, d: int)
    requires
        old.len() == actual.len(),
        has_solid(old),
        forall|i: int|
            0 <= i < old.len() ==> if is_blank(#[trigger] old[i]) {
                is_blank(actual[i])
            } else {
                !is_blank(actual[i]) && indent_len(actual[i]) - indent_len(old[i]) == d
            },
    ensures
        common_shift(old, actual) == Some(d),
{
    lemma_shifts(old, actual, d, old.len() as int);
}

proof fn lemma_shifts(old: Seq<Seq<char>>, actual: Seq<Seq<char>>, d: int, n: int)
    requires
        old.len() == actual.len(),
        0 <= n <= old.len(),
        forall|i: int|
            0 <= i < old.len() ==> if is_blank(#[trigger] old[i]) {
                is_blank(actual[i])
            } else {
                !is_blank(actual[i]) && indent_len(actual[i]) - indent_len(old[i]) == d
            },
    ensures
        forall|i: int|
            0 <= i < shifts(old, actual, n).len() ==> #[trigger] shifts(old, actual, n)[i] == d,
        (exists|i: int| 0 <= i < n && !is_blank(#[trigger] old[i])) ==> shifts(
            old,
            actual,
            n,
        ).len() > 0,
    decreases n,
{
    if n > 0 {
        lemma_shifts(old, actual, d, n - 1);
        assert(is_blank(old[n - 1]) || !is_blank(old[n - 1]));
    }
}

/// Where a text stands in a file with every line moved to the right by `k` times
/// `c`, the new text for it is moved likewise: each of its lines that holds something
/// gets `k` times `c` before it, and no other line changes.
pub proof fn law_moved_right(
    old: Seq<char>,
    actual: Seq<char>,
    new: Seq<char>,
    c: char,
    k: nat,
)
    requires
        is_indent(c),
        k > 0,
        is_moved(lines_of(old), lines_of(actual), c, k),
        is_indented_by(lines_of(old), c),
        is_indented_by(lines_of(new), c),
        has_solid(lines_of(old)),
        has_solid(lines_of(new)),
        !same_but_indent(lines_of(old), lines_of(new)),
    ensures
        ({
            let made = lines_of(adjusted(old, actual, new));
            let lines = lines_of(new);
            &&& made.len() == lines.len()
            &&& forall|i: int|
                0 <= i < lines.len() ==> #[trigger] made[i] == (if is_blank(lines[i]) {
                    lines[i]
                } else {
                    times(c, k) + lines[i]
                })
        }),
{
    let o = lines_of(old);
    let a = lines_of(actual);
    let n = lines_of(new);
    assert forall|i: int| 0 <= i < o.len() implies if is_blank(#[trigger] o[i]) {
        is_blank(a[i])
    } else {
        !is_blank(a[i]) && indent_len(a[i]) - indent_len(o[i]) == k
    } by {
        lemma_indented_line(o[i], c, k);
    }
    let x = choose|i: int| 0 <= i < o.len() && !is_blank(#[trigger] o[i]);
    assert(a[x].len() == k + o[x].len());
    assert(!is_blank(a[x]));
    assert(is_indented_by(a, c)) by {
        assert forall|i: int, j: int|
            0 <= i < a.len() && !is_blank(a[i]) && 0 <= j < indent_len(a[i]) implies
            #[trigger] a[i][j] == c by {
            assert(!is_blank(o[i]));
            lemma_indented_line(o[i], c, k);
            lemma_indent_len(o[i]);
            assert(a[i] == times(c, k) + o[i]);
            if j >= k {
                assert(o[i][j - k] == c);
                assert(a[i][j] == o[i][j - k]);
            } else {
                assert(a[i][j] == times(c, k)[j]);
            }
        }
    }
    lemma_text_profile(old, c);
    lemma_text_profile(new, c);
    assert forall|i: int| 0 <= i < a.len() && !is_blank(#[trigger] a[i]) implies indent_len(a[i])
        > 0 by {
        assert(!is_blank(o[i]));
        lemma_indented_line(o[i], c, k);
    }
    lemma_text_profile(actual, c);
    lemma_common_shift(o, a, k as int);
    let f = |l: Seq<char>| shifted_line(l, k as int, c);
    lemma_each_line(new, f, |i: int| if is_blank(n[i]) {
        n[i]
    } else {
        times(c, k) + n[i]
    });
}

/// Lines changed one by one, none of which gets a line feed, are the lines of the
/// text that they make.
proof fn lemma_each_line(
    s: Seq<char>,
    f: spec_fn(Seq<char>) -> Seq<char>,
    g: spec_fn(int) -> Seq<char>,
)
    requires
        forall|i: int|
            0 <= i < lines_of(s).len() ==> #[trigger] g(i) =~= f(lines_of(s)[i]),
        forall|i: int, j: int|
            0 <= i < lines_of(s).len() && 0 <= j < g(i).len() ==> #[trigger] g(i)[j] == ' ' || g(
                i,
            )[j] == '\t' || lines_of(s)[i].contains(g(i)[j]),
    ensures
        ({
            let made = lines_of(joined(lines_of(s).map_values(f), "\n"@));
            &&& made.len() == lines_of(s).len()
            &&& forall|i: int| 0 <= i < made.len() ==> #[trigger] made[i] == g(i)
        }),
{
    let n = lines_of(s);
    let parts = n.map_values(f);
    reveal_strlit("\n");
    assert("\n"@ =~= seq!['\n']);
    lemma_pieces_nonempty(s, '\n');
    law_pieces_clean(s, '\n');
    assert forall|i: int| 0 <= i < parts.len() implies !(#[trigger] parts[i]).contains('\n') by {
        assert(parts[i] == f(n[i]));
        assert(g(i) =~= f(n[i]));
        if parts[i].contains('\n') {
            let j = choose|j: int| 0 <= j < parts[i].len() && parts[i][j] == '\n';
            assert(g(i)[j] == '\n');
            assert(n[i].contains('\n'));
        }
    }
    law_pieces_join(parts, '\n');
    assert forall|i: int| 0 <= i < parts.len() implies #[trigger] parts[i] == g(i) by {
        assert(g(i) =~= f(n[i]));
    }
}

/// Where a text stands in a file with every line moved to the left by `k` times `c`,
/// the new text for it is moved likewise: each of its lines that holds something
/// loses `k` characters of its indentation, or all where it has fewer.
pub proof fn law_moved_left(
    old: Seq<char>,
    actual: Seq<char>,
    new: Seq<char>,
    c: char,
    k: nat,
)
    requires
        is_indent(c),
        k > 0,
        is_moved(lines_of(actual), lines_of(old), c, k),
        is_indented_by(lines_of(actual), c),
        is_indented_by(lines_of(new), c),
        has_solid(lines_of(actual)),
        has_solid(lines_of(new)),
        !same_but_indent(lines_of(old), lines_of(new)),
    ensures
        ({
            let made = lines_of(adjusted(old, actual, new));
            let lines = lines_of(new);
            &&& made.len() == lines.len()
            &&& forall|i: int|
                0 <= i < lines.len() ==> #[trigger] made[i] == (if is_blank(lines[i]) {
                    lines[i]
                } else if k <= indent_len(lines[i]) {
                    lines[i].skip(k as int)
                } else {
                    lines[i].skip(indent_len(lines[i]) as int)
                })
        }),
{
    let o = lines_of(old);
    let a = lines_of(actual);
    let n = lines_of(new);
    assert forall|i: int| 0 <= i < o.len() implies is_blank(#[trigger] o[i]) == is_blank(a[i]) && (
    !is_blank(a[i]) ==> indent_len(a[i]) - indent_len(o[i]) == -k) by {
        lemma_indented_line(a[i], c, k);
        assert(is_blank(a[i]) || !is_blank(a[i]));
    }
    let x = choose|i: int| 0 <= i < a.len() && !is_blank(#[trigger] a[i]);
    assert(o[x].len() == k + a[x].len());
    assert(!is_blank(o[x]));
    assert(is_indented_by(o, c)) by {
        assert forall|i: int, j: int|
            0 <= i < o.len() && !is_blank(o[i]) && 0 <= j < indent_len(o[i]) implies
            #[trigger] o[i][j] == c by {
            assert(!is_blank(a[i]));
            lemma_indented_line(a[i], c, k);
            lemma_indent_len(a[i]);
            assert(o[i] == times(c, k) + a[i]);
            if j >= k {
                assert(a[i][j - k] == c);
                assert(o[i][j] == a[i][j - k]);
            } else {
                assert(o[i][j] == times(c, k)[j]);
            }
        }
    }
    lemma_text_profile(actual, c);
    lemma_text_profile(new, c);
    assert(has_solid(o));
    lemma_text_profile(old, c);
    lemma_common_shift(o, a, -(k as int));
    let by = if text_profile(actual).lead is Some {
        text_profile(actual).lead->0
    } else if text_profile(old).lead is Some {
        text_profile(old).lead->0
    } else {
        indent_char(actual)
    };
    let f = |l: Seq<char>| shifted_line(l, -(k as int), by);
    let g = |i: int|
        if is_blank(n[i]) {
            n[i]
        } else if k <= indent_len(n[i]) {
            n[i].skip(k as int)
        } else {
            n[i].skip(indent_len(n[i]) as int)
        };
    assert forall|i: int, j: int| 0 <= i < n.len() && 0 <= j < g(i).len() implies #[trigger] g(i)[j]
        == ' ' || g(i)[j] == '\t' || n[i].contains(g(i)[j]) by {
        lemma_indent_len(n[i]);
        if is_blank(n[i]) {
            assert(n[i][j] == g(i)[j]);
        } else if k <= indent_len(n[i]) {
            assert(n[i][j + k] == g(i)[j]);
        } else {
            assert(n[i][j + indent_len(n[i])] == g(i)[j]);
        }
    }
    lemma_each_line(new, f, g);
}

/// The least indentation is that of a line that holds something, and no such line has
/// less. Where there is none, it is zero.
pub proof fn law_least_indent(lines: Seq<Seq<char>>)
    ensures
        forall|i: int|
            0 <= i < lines.len() && !is_blank(#[trigger] lines[i]) ==> base_of(lines) <= indent_len(
                lines[i],
            ),
        has_solid(lines) ==> exists|i: int|
            0 <= i < lines.len() && !is_blank(#[trigger] lines[i]) && base_of(lines) == indent_len(
                lines[i],
            ),
        !has_solid(lines) ==> base_of(lines) == 0,
    decreases lines.len(),
{
    if lines.len() > 0 {
        let before = lines.drop_last();
        law_least_indent(before);
        let last = lines.last();
        assert(lines[lines.len() - 1] == last);
        let kept = solid(before);
        if is_blank(last) {
            assert(solid(lines) == kept);
        } else {
            assert(solid(lines).drop_last() =~= kept);
            assert(solid(lines).last() == last);
        }
        lemma_least_none(before);
        assert forall|i: int| 0 <= i < lines.len() && !is_blank(#[trigger] lines[i]) implies base_of(
            lines,
        ) <= indent_len(lines[i]) by {
            if i < before.len() {
                assert(before[i] == lines[i]);
            }
        }
        if has_solid(before) {
            let i = choose|i: int|
                0 <= i < before.len() && !is_blank(#[trigger] before[i]) && base_of(before)
                    == indent_len(before[i]);
            assert(lines[i] == before[i]);
        }
        if has_solid(lines) && is_blank(last) {
            let i = choose|i: int| 0 <= i < lines.len() && !is_blank(#[trigger] lines[i]);
            assert(before[i] == lines[i]);
            assert(has_solid(before));
        }
    }
}

/// There is a least indentation where a line holds something, and only there.
proof fn lemma_least_none(lines: Seq<Seq<char>>)
    ensures
        least_indent(solid(lines)) is Some <==> has_solid(lines),
    decreases lines.len(),
{
    if lines.len() > 0 {
        let before = lines.drop_last();
        lemma_least_none(before);
        assert(lines[lines.len() - 1] == lines.last());
        if has_solid(before) {
            let i = choose|i: int| 0 <= i < before.len() && !is_blank(#[trigger] before[i]);
            assert(lines[i] == before[i]);
        }
        if has_solid(lines) {
            let i = choose|i: int| 0 <= i < lines.len() && !is_blank(#[trigger] lines[i]);
            if i < before.len() {
                assert(before[i] == lines[i]);
            }
        }
    }
}

/// Whether a character is one of the quotation marks that are compared as `"`.
pub open spec fn is_double_quote(c: char) -> bool {
    c == '\u{201C}' || c == '\u{201D}' || c == '\u{201E}' || c == '\u{201F}' || c == '\u{AB}' || c
        == '\u{BB}'
}

/// Whether a character is one of the quotation marks that are compared as `'`.
pub open spec fn is_single_quote(c: char) -> bool {
    c == '\u{2018}' || c == '\u{2019}' || c == '\u{201A}' || c == '\u{201B}' || c == '`' || c
        == '\u{B4}'
}

/// Whether a character is one of the dashes that are compared as `-`.
pub open spec fn is_dash(c: char) -> bool {
    '\u{2010}' <= c <= '\u{2014}' || c == '\u{2212}'
}

/// Lines that differ in the kind of a quotation mark or of a dash, or in the number of
/// spaces and tabs in one place, are compared alike.
pub proof fn law_compared_alike(a: Seq<char>, c: char, b: Seq<char>)
    requires
        a.len() > 0 && !is_white(a[0]) && !is_indent(a.last()),
        b.len() > 0 && !is_white(b.last()) && !is_indent(b[0]),
    ensures
        is_double_quote(c) ==> fuzzy_form(a + seq![c] + b) == fuzzy_form(a + seq!['"'] + b),
        is_single_quote(c) ==> fuzzy_form(a + seq![c] + b) == fuzzy_form(a + seq!['\''] + b),
        is_dash(c) ==> fuzzy_form(a + seq![c] + b) == fuzzy_form(a + seq!['-'] + b),
        is_indent(c) ==> fuzzy_form(a + seq![c] + b) == fuzzy_form(a + seq![' '] + b),
        is_indent(c) ==> fuzzy_form(a + seq![' ', c] + b) == fuzzy_form(a + seq![' '] + b),
{
    assert forall|s: Seq<char>| s.len() > 0 implies #[trigger] trimmed(a + s + b) == a + s + b by {
        let t = a + s + b;
        assert(t[0] == a[0] && t.last() == b.last());
        lemma_untrimmed(t);
    }
    if is_double_quote(c) {
        lemma_collapsed_alike(a, c, '"', b);
    }
    if is_single_quote(c) {
        lemma_collapsed_alike(a, c, '\'', b);
    }
    if is_dash(c) {
        lemma_collapsed_alike(a, c, '-', b);
    }
    if is_indent(c) {
        lemma_collapsed_runs(a, seq![c], seq![' '], b);
        assert(a + seq![' ', c] + b =~= a + (seq![' '] + seq![c]) + b);
        lemma_collapsed_runs(a, seq![' ', c], seq![' '], b);
    }
}

/// Two characters of one form are compared alike wherever they stand.
proof fn lemma_collapsed_alike(a: Seq<char>, c: char, d: char, b: Seq<char>)
    requires
        comparable(c) == comparable(d),
        !is_indent(c),
        !is_indent(d),
    ensures
        collapsed(a + seq![c] + b) == collapsed(a + seq![d] + b),
    decreases b.len(),
{
    let x = a + seq![c] + b;
    let y = a + seq![d] + b;
    if b.len() == 0 {
        assert(x.drop_last() =~= a);
        assert(y.drop_last() =~= a);
    } else {
        let e = b.drop_last();
        lemma_collapsed_alike(a, c, d, e);
        assert(x.drop_last() =~= a + seq![c] + e);
        assert(y.drop_last() =~= a + seq![d] + e);
        assert(x.last() == y.last());
        if e.len() > 0 {
            assert(x[x.len() - 2] == e.last());
            assert(y[y.len() - 2] == e.last());
        } else {
            assert(x[x.len() - 2] == c);
            assert(y[y.len() - 2] == d);
        }
    }
}

/// Two runs of spaces and tabs are compared alike.
proof fn lemma_collapsed_runs(a: Seq<char>, s: Seq<char>, t: Seq<char>, b: Seq<char>)
    requires
        1 <= s.len() <= 2,
        t.len() == 1,
        a.len() > 0,
        !is_indent(a.last()),
        forall|i: int| 0 <= i < s.len() ==> is_indent(#[trigger] s[i]),
        is_indent(t[0]),
    ensures
        collapsed(a + s + b) == collapsed(a + t + b),
    decreases b.len(),
{
    let x = a + s + b;
    let y = a + t + b;
    if b.len() == 0 {
        assert(y.drop_last() =~= a);
        assert(y.last() == t[0]);
        assert(y[y.len() - 2] == a.last());
        assert(collapsed(y) == collapsed(a).push(' '));
        assert(x.last() == s[s.len() - 1]);
        if s.len() == 1 {
            assert(x.drop_last() =~= a);
            assert(x[x.len() - 2] == a.last());
        } else {
            let z = a.push(s[0]);
            assert(x.drop_last() =~= z);
            assert(z.drop_last() =~= a);
            assert(z[z.len() - 2] == a.last());
            assert(collapsed(z) == collapsed(a).push(' '));
            assert(x[x.len() - 2] == s[0]);
        }
    } else {
        let e = b.drop_last();
        lemma_collapsed_runs(a, s, t, e);
        assert(x.drop_last() =~= a + s + e);
        assert(y.drop_last() =~= a + t + e);
        assert(x.last() == y.last());
        if e.len() > 0 {
            assert(x[x.len() - 2] == e.last());
            assert(y[y.len() - 2] == e.last());
        } else {
            assert(x[x.len() - 2] == s[s.len() - 1]);
            assert(y[y.len() - 2] == t[0]);
        }
    }
}

/// Fancy punctuation within a line is written plainly: dashes, quotation marks, spaces of
/// any width, the sign for unequal, one half, and characters without a width.
pub proof fn law_punctuation(a: Seq<char>, c: char, b: Seq<char>)
    requires
        a.len() > 0 && !is_white(a[0]) && !is_white(a.last()),
        b.len() > 0 && !is_white(b[0]) && !is_white(b.last()),
    ensures
        ({
            let whole = unicode_plain(a + seq![c] + b);
            let left = unicode_plain(a);
            let right = unicode_plain(b);
            &&& '\u{2010}' <= c <= '\u{2015}' || c == '\u{2212}' ==> whole == left + seq!['-']
                + right
            &&& '\u{2018}' <= c <= '\u{201B}' ==> whole == left + seq!['\''] + right
            &&& '\u{201C}' <= c <= '\u{201F}' ==> whole == left + seq!['"'] + right
            &&& c == '\u{A0}' || '\u{2002}' <= c <= '\u{200A}' || c == '\u{202F}' || c == '\u{205F}'
                || c == '\u{3000}' ==> whole == left + seq![' '] + right
            &&& c == '\u{2260}' ==> whole == left + seq!['!', '='] + right
            &&& c == '\u{BD}' ==> whole == left + seq!['1', '/', '2'] + right
            &&& '\u{200B}' <= c <= '\u{200D}' || c == '\u{FEFF}' ==> whole == left + right
            &&& c as int <= 0x7F ==> whole == left + seq![c] + right
        }),
{
    let t = a + seq![c] + b;
    assert(t[0] == a[0] && t.last() == b.last());
    lemma_untrimmed(t);
    lemma_untrimmed(a);
    lemma_untrimmed(b);
    lemma_plain_add(a + seq![c], b);
    lemma_plain_add(a, seq![c]);
    assert(seq![c].drop_last() =~= Seq::<char>::empty());
    assert(plain_all(Seq::<char>::empty()).len() == 0);
    assert(seq![c].last() == c);
    assert(plain_all(seq![c]) == plain_all(seq![c].drop_last()) + plain(c));
    assert(plain_all(seq![c]) =~= plain(c));
    assert(plain_all(a) + Seq::<char>::empty() =~= plain_all(a));
}

/// The plain form of two texts in a row is that of both.
proof fn lemma_plain_add(a: Seq<char>, b: Seq<char>)
    ensures
        plain_all(a + b) == plain_all(a) + plain_all(b),
    decreases b.len(),
{
    if b.len() == 0 {
        assert(a + b =~= a);
        assert(plain_all(a) + plain_all(b) =~= plain_all(a));
    } else {
        lemma_plain_add(a, b.drop_last());
        assert((a + b).drop_last() =~= a + b.drop_last());
        assert(plain_all(a + b) =~= plain_all(a) + plain_all(b));
    }
}

} // verus!
