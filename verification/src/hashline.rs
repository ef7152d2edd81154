//! Hashline edit mode: a line-addressable edit format using text hashes.
//!
//! Each line in a file is identified by its 1-indexed line number and a short
//! hash derived from the normalized line text (CRC32, truncated to 2 chars
//! from a custom nibble alphabet).
//!
//! The combined `LINE#ID` reference acts as both an address and a staleness
//! check: if the file has changed since the caller last read it, hash
//! mismatches are caught before any mutation occurs.
//!
//! Displayed format: `LINENUM#HASH:TEXT`
//! Reference format: `"LINENUM#HASH"` (e.g. `"5#ZP"`)

use crate::error::{
    EditError, ErrorView, HashMismatch, MismatchView, mismatch_views, outcome, status,
};
use crate::normalize::{lines_of, push_times};
use crate::text::{
    begins, blank, bytes, capped, contains, contains_char, copy_texts, decimal, index_from,
    is_blank, is_digit, is_white, join, joined, law_decimal_round_trip, law_join_pieces,
    law_pieces_clean, law_pieces_join, lemma_before_first, lemma_decimal, lemma_index_after,
    lemma_index_from, lemma_pieces_nonempty, lemma_replaced_absent, lemma_replaced_add,
    lemma_replaced_gone, lemma_trimmed_end_add, number, occurs, opt_nat, parse, push_text, replace,
    replaced, same, show, splice, spliced, split_on, split_once, to_chars, to_refs, trim, trim_end,
    trim_start, trimmed, trimmed_end, trimmed_start, views,
};
use vstd::prelude::*;
use vstd::string::*;

verus! {

/// What `char::is_alphanumeric` says of a character.
pub uninterp spec fn alphanumeric(c: char) -> bool;

/// `char::is_alphanumeric` depends on the character alone: it says whether the
/// character is alphabetic or numeric. White space is neither.
pub assume_specification[ char::is_alphanumeric ](c: char) -> (r: bool)
    ensures
        r == alphanumeric(c),
        is_white(c) ==> !r,
;

/// A CRC-32 register, `n` bits on: the lowest bit leaves it, and where that is
/// set, the reversed polynomial of IEEE 802.3 is added.
pub open spec fn crc_shifted(c: u32, n: nat) -> u32
    decreases n,
{
    if n == 0 {
        c
    } else {
        let d = crc_shifted(c, (n - 1) as nat);
        if d & 1 == 1 {
            (d >> 1) ^ 0xEDB8_8320
        } else {
            d >> 1
        }
    }
}

/// A CRC-32 register after some bytes.
pub open spec fn crc_fed(c: u32, data: Seq<u8>) -> u32
    decreases data.len(),
{
    if data.len() == 0 {
        c
    } else {
        crc_shifted(crc_fed(c, data.drop_last()) ^ (data.last() as u32), 8)
    }
}

/// The CRC-32 (IEEE) of some bytes, going on from a checksum.
pub open spec fn crc32_of(seed: u32, data: Seq<u8>) -> u32 {
    !crc_fed(!seed, data)
}

/// `crc32fast::Hasher`, made with an initial state, fed once and finalized,
/// gives the CRC-32 (IEEE) of the bytes, going on from that state.
#[verifier::external_body]
fn crc32(seed: u32, data: &[u8]) -> (r: u32)
    ensures
        r == crc32_of(seed, data@),
{
    let mut hasher = crc32fast::Hasher::new_with_initial(seed);
    hasher.update(data);
    hasher.finalize()
}

/// The alphabet of hashes, one character for each half of a byte.
pub const NIBBLE_STR: &'static str = "ZPMQVRWSNKTXJBYH";

/// The alphabet of hashes.
pub open spec fn nibbles() -> Seq<char> {
    NIBBLE_STR@
}

/// The character for a number below sixteen.
pub open spec fn nibble(n: int) -> char {
    nibbles()[n]
}

/// The hash that a checksum gives: that of its lowest byte.
pub open spec fn checksum_hash(crc: u32) -> Seq<char> {
    let b = crc as int % 256;
    seq![nibble(b / 16), nibble(b % 16)]
}

/// The hash that a checksum gives.
pub fn hash_of_checksum(crc: u32) -> (r: String)
    ensures
        r@ == checksum_hash(crc),
{
    proof {
        reveal_strlit("ZPMQVRWSNKTXJBYH");
    }
    let b: u32 = crc % 256;
    let letters = NIBBLE_STR;
    let mut r: String = String::new();
    r.push(letters.get_char((b / 16) as usize));
    r.push(letters.get_char((b % 16) as usize));
    assert(r@ =~= checksum_hash(crc));
    r
}

/// Whether `s` holds a letter or a digit.
pub open spec fn is_significant(s: Seq<char>) -> bool {
    exists|i: int| 0 <= i < s.len() && alphanumeric(#[trigger] s[i])
}

/// Whether `line` contains at least one Unicode letter or digit. None of its white
/// space is one.
fn has_significant_char(line: &str) -> (r: bool)
    ensures
        r == is_significant(line@),
        forall|i: int|
            0 <= i < line@.len() && is_white(#[trigger] line@[i]) ==> !alphanumeric(line@[i]),
{
    let v = to_chars(line);
    let mut found = false;
    let mut i: usize = 0;
    while i < v.len()
        invariant
            v@ == line@,
            i <= v@.len(),
            found == exists|k: int| 0 <= k < i && alphanumeric(#[trigger] v@[k]),
            forall|k: int| 0 <= k < i && is_white(#[trigger] v@[k]) ==> !alphanumeric(v@[k]),
        decreases v@.len() - i,
    {
        if v[i].is_alphanumeric() {
            found = true;
            assert(alphanumeric(v@[i as int]));
        }
        i = i + 1;
    }
    found
}

/// The part of a line that is hashed: without carriage returns and trailing
/// white space.
pub open spec fn hashed_text(line: Seq<char>) -> Seq<char> {
    trimmed_end(replaced(line, "\r"@, ""@))
}

/// The initial state for a line: the line number where the line holds no letter
/// or digit.
pub open spec fn hash_seed(idx: nat, text: Seq<char>) -> u32 {
    if is_significant(text) {
        0
    } else {
        (idx % 0x1_0000_0000) as u32
    }
}

/// The hash of line `idx`.
pub open spec fn line_hash(idx: nat, line: Seq<char>) -> Seq<char> {
    let text = hashed_text(line);
    checksum_hash(crc32_of(hash_seed(idx, text), bytes(text)))
}

/// Whether `s` is white space.
pub open spec fn all_white(s: Seq<char>) -> bool {
    forall|i: int| 0 <= i < s.len() ==> is_white(#[trigger] s[i])
}

/// Dropping a character drops no other.
proof fn lemma_dropped_holds(s: Seq<char>, c: char, x: char)
    requires
        x != c,
    ensures
        replaced(s, seq![c], Seq::empty()).contains(x) <==> s.contains(x),
    decreases s.len(),
{
    lemma_index_from(s, seq![c], 0);
    if let Some(k) = index_from(s, seq![c], 0) {
        lemma_before_first(s, c, k);
        let head = s.take(k);
        let rest = s.skip(k + 1);
        let left = replaced(rest, seq![c], Seq::empty());
        lemma_dropped_holds(rest, c, x);
        let r = replaced(s, seq![c], Seq::empty());
        assert(r =~= head + left);
        if r.contains(x) {
            let j = choose|j: int| 0 <= j < r.len() && r[j] == x;
            if j < k {
                assert(s[j] == x);
            } else {
                assert(left[j - k] == x);
                let i = choose|i: int| 0 <= i < rest.len() && rest[i] == x;
                assert(s[k + 1 + i] == x);
            }
        }
        if s.contains(x) {
            let j = choose|j: int| 0 <= j < s.len() && s[j] == x;
            if j < k {
                assert(r[j] == x);
            } else {
                assert(rest[j - k - 1] == x);
                let i = choose|i: int| 0 <= i < left.len() && left[i] == x;
                assert(r[k + i] == x);
            }
        }
    }
}

/// Trimming the end drops white space only.
proof fn lemma_trimmed_end_holds(s: Seq<char>, x: char)
    ensures
        trimmed_end(s).contains(x) ==> s.contains(x),
        !is_white(x) && s.contains(x) ==> trimmed_end(s).contains(x),
    decreases s.len(),
{
    if s.len() > 0 && is_white(s.last()) {
        let t = s.drop_last();
        lemma_trimmed_end_holds(t, x);
        if trimmed_end(t).contains(x) {
            let j = choose|j: int| 0 <= j < t.len() && t[j] == x;
            assert(s[j] == x);
        }
        if !is_white(x) && s.contains(x) {
            let j = choose|j: int| 0 <= j < s.len() && s[j] == x;
            assert(t[j] == x);
        }
    }
}

/// The part that is hashed has the letters and digits of the line.
proof fn lemma_significant(line: Seq<char>)
    requires
        forall|i: int|
            0 <= i < line.len() && is_white(#[trigger] line[i]) ==> !alphanumeric(line[i]),
    ensures
        is_significant(hashed_text(line)) == is_significant(line),
{
    reveal_strlit("\r");
    reveal_strlit("");
    assert("\r"@ =~= seq!['\r']);
    assert(""@ =~= Seq::<char>::empty());
    let kept = replaced(line, "\r"@, ""@);
    let text = hashed_text(line);
    if is_significant(line) {
        let i = choose|i: int| 0 <= i < line.len() && alphanumeric(#[trigger] line[i]);
        let x = line[i];
        assert(line.contains(x));
        lemma_dropped_holds(line, '\r', x);
        lemma_trimmed_end_holds(kept, x);
        let j = choose|j: int| 0 <= j < text.len() && text[j] == x;
        assert(alphanumeric(text[j]));
    }
    if is_significant(text) {
        let i = choose|i: int| 0 <= i < text.len() && alphanumeric(#[trigger] text[i]);
        let x = text[i];
        assert(text.contains(x));
        lemma_trimmed_end_holds(kept, x);
        lemma_replaced_gone(line, '\r', ""@);
        lemma_dropped_holds(line, '\r', x);
        let j = choose|j: int| 0 <= j < line.len() && line[j] == x;
        assert(alphanumeric(line[j]));
    }
}

/// Computes a short hash of a single line.
///
/// Uses CRC32 on the line without trailing white space and carriage returns,
/// truncated to 2 chars of the nibble alphabet. For lines containing no
/// alphanumeric characters, the line index is mixed in as the seed to reduce
/// hash collisions; for all others neither the index nor white space at the end
/// matters.
///
/// `idx` is the 1-indexed line number. The line should not include a trailing
/// newline.
pub fn compute_line_hash(idx: usize, line: &str) -> (r: String)
    ensures
        r@ == line_hash(idx as nat, line@),
        r@.len() == 2,
        nibbles().contains(r@[0]) && nibbles().contains(r@[1]),
        is_significant(line@) ==> forall|i: nat, w: Seq<char>|
            all_white(w) ==> r@ == #[trigger] line_hash(i, line@ + w),
{
    proof {
        reveal_strlit("\r");
        reveal_strlit("ZPMQVRWSNKTXJBYH");
    }
    let cleaned = replace(line, "\r", "");
    let text = trim_end(cleaned.as_str());
    let significant = has_significant_char(line);
    proof {
        lemma_significant(line@);
    }
    let seed: u32 = if significant {
        0
    } else {
        (idx as u64 % 0x1_0000_0000) as u32
    };
    let crc = crc32(seed, text.as_bytes());
    let r = hash_of_checksum(crc);
    proof {
        let b = crc as int % 256;
        assert(nibbles()[b / 16] == r@[0] && nibbles()[b % 16] == r@[1]);
        if is_significant(line@) {
            assert forall|i: nat, w: Seq<char>| all_white(w) implies r@ == #[trigger] line_hash(
                i,
                line@ + w,
            ) by {
                law_hash_ignores_trailing(i, line@, w);
                law_hash_of_significant(i, idx as nat, line@);
            }
        }
    }
    r
}

/// A tag: the line number, `#` and the hash.
pub open spec fn line_tag(n: nat, line: Seq<char>) -> Seq<char> {
    decimal(n) + "#"@ + line_hash(n, line)
}

/// Formats a tag for display: the line number, `#` and the hash.
pub fn format_line_tag(line_num: usize, line_text: &str) -> (r: String)
    ensures
        r@ == line_tag(line_num as nat, line_text@),
{
    let mut r = show(line_num);
    r.append("#");
    r.append(compute_line_hash(line_num, line_text).as_str());
    r
}

/// A line with its tag.
pub open spec fn tagged_line(n: nat, line: Seq<char>) -> Seq<char> {
    line_tag(n, line) + ":"@ + line
}

/// Lines with their tags, numbered from `start`.
pub open spec fn tagged_lines(lines: Seq<Seq<char>>, start: nat) -> Seq<Seq<char>> {
    Seq::new(lines.len(), |i: int| tagged_line((start + i) as nat, lines[i]))
}

fn format_tagged_line(n: usize, line: &str) -> (r: String)
    ensures
        r@ == tagged_line(n as nat, line@),
{
    let mut r = format_line_tag(n, line);
    r.append(":");
    r.append(line);
    r
}

/// Formats file text with hashline prefixes for display.
///
/// Each line becomes `LINENUM#HASH:TEXT` where LINENUM is 1-indexed.
pub fn format_hash_lines(text: &str, start_line: usize) -> (r: String)
    requires
        start_line + lines_of(text@).len() - 1 <= usize::MAX,
    ensures
        r@ == joined(tagged_lines(lines_of(text@), start_line as nat), "\n"@),
{
    let lines = split_on(text, '\n');
    let ghost target = tagged_lines(lines_of(text@), start_line as nat);
    let mut out: Vec<String> = Vec::new();
    let mut i: usize = 0;
    assert(views(lines@).len() == lines@.len());
    while i < lines.len()
        invariant
            views(lines@) == lines_of(text@),
            lines@.len() == lines_of(text@).len(),
            start_line + lines_of(text@).len() - 1 <= usize::MAX,
            target == tagged_lines(lines_of(text@), start_line as nat),
            i <= lines@.len(),
            views(out@) == target.take(i as int),
        decreases lines@.len() - i,
    {
        let line = lines[i].as_str();
        assert(lines_of(text@)[i as int] == line@);
        let l = format_tagged_line(start_line + i, line);
        push_text(&mut out, l.as_str());
        assert(target.take(i + 1) =~= target.take(i as int).push(target[i as int]));
        i = i + 1;
    }
    assert(target.take(i as int) =~= target);
    join(&out, "\n")
}

/// A parsed line reference: 1-indexed line number + 2-char hash.
#[derive(Debug, PartialEq, Eq)]
pub struct Anchor {
    /// 1-indexed line number.
    pub line: usize,
    /// 2-char hash from the nibble alphabet.
    pub hash: String,
}

/// A line reference, by its contents.
#[verifier::ext_equal]
pub ghost struct AnchorView {
    /// The line number.
    pub line: nat,
    /// The hash.
    pub hash: Seq<char>,
}

impl View for Anchor {
    type V = AnchorView;

    open spec fn view(&self) -> AnchorView {
        AnchorView { line: self.line as nat, hash: self.hash@ }
    }
}

impl Clone for Anchor {
    fn clone(&self) -> (r: Anchor)
        ensures
            r@ == self@,
    {
        Anchor { line: self.line, hash: self.hash.clone() }
    }
}

/// Whether `c` marks a line of a diff.
pub open spec fn is_sign(c: char) -> bool {
    c == '+' || c == '-' || c == '>'
}

/// `s` without leading signs.
pub open spec fn without_signs(s: Seq<char>) -> Seq<char>
    decreases s.len(),
{
    if s.len() > 0 && is_sign(s[0]) {
        without_signs(s.skip(1))
    } else {
        s
    }
}

/// The reference that `raw` writes: after signs and white space, a line number
/// from one on, `#`, and a hash.
pub open spec fn tag_of(raw: Seq<char>) -> Option<AnchorView> {
    let s = trimmed_start(without_signs(trimmed_start(raw)));
    match index_from(s, seq!['#'], 0) {
        None => None,
        Some(i) => match number(trimmed(s.take(i))) {
            None => None,
            Some(n) => {
                let rest = trimmed_start(s.skip(i + 1));
                if n < 1 || rest.len() < 2 || !nibbles().contains(rest[0]) || !nibbles().contains(
                    rest[1],
                ) {
                    None
                } else {
                    Some(AnchorView { line: n, hash: rest.take(2) })
                }
            },
        },
    }
}

/// The view of an optional reference.
pub open spec fn opt_anchor(a: Option<Anchor>) -> Option<AnchorView> {
    match a {
        Some(x) => Some(x@),
        None => None,
    }
}

fn skip_signs(s: &str) -> (r: &str)
    ensures
        r@ == without_signs(s@),
{
    let v = to_chars(s);
    let mut i: usize = 0;
    assert(s@.skip(0) == s@);
    while i < v.len() && (v[i] == '+' || v[i] == '-' || v[i] == '>')
        invariant
            v@ == s@,
            i <= v@.len(),
            without_signs(s@.skip(i as int)) == without_signs(s@),
        decreases v@.len() - i,
    {
        assert(s@.skip(i as int).skip(1) == s@.skip(i + 1));
        i = i + 1;
    }
    let r = s.substring_char(i, v.len());
    assert(r@ == s@.skip(i as int));
    r
}

/// Like [`parse_tag`] but returns `None` instead of an error.
pub fn try_parse_tag(raw: &str) -> (r: Option<Anchor>)
    ensures
        opt_anchor(r) == tag_of(raw@),
{
    let s = trim_start(skip_signs(trim_start(raw)));
    match split_once(s, '#') {
        None => None,
        Some((a, b)) => match parse(trim(a)) {
            None => None,
            Some(n) => {
                let rest = trim_start(b);
                if n < 1 {
                    return None;
                }
                let v = to_chars(rest);
                if v.len() < 2 || !contains_char(NIBBLE_STR, v[0]) || !contains_char(NIBBLE_STR, v[1]) {
                    return None;
                }
                let hash = rest.substring_char(0, 2).to_owned();
                assert(hash@ == rest@.take(2));
                Some(Anchor { line: n, hash })
            },
        },
    }
}

/// The error for a reference that cannot be read.
pub open spec fn bad_tag(raw: Seq<char>) -> ErrorView {
    ErrorView::ParseError {
        message: "Invalid line reference \""@ + raw
            + "\". Expected format \"LINE#ID\" (e.g. \"5#ZP\")."@,
        line_number: None,
    }
}

/// Parses a line reference string like `"5#XX"` into an [`Anchor`].
///
/// Accepts optional leading `>+-` and whitespace, optional surrounding spaces
/// around `#`, and optional trailing `:...` suffix. Returns
/// [`EditError::ParseError`] on failure.
pub fn parse_tag(raw: &str) -> (r: Result<Anchor, EditError>)
    ensures
        match tag_of(raw@) {
            Some(a) => outcome(r) == Ok::<AnchorView, ErrorView>(a),
            None => outcome(r) == Err::<AnchorView, ErrorView>(bad_tag(raw@)),
        },
{
    match try_parse_tag(raw) {
        Some(a) => Ok(a),
        None => {
            let mut message = "Invalid line reference \"".to_owned();
            message.append(raw);
            message.append("\". Expected format \"LINE#ID\" (e.g. \"5#ZP\").");
            Err(EditError::ParseError { message, line_number: None })
        },
    }
}

/// What a reference to a line of `lines` comes to: it names no line, it is
/// stale, or neither.
pub open spec fn anchor_check(a: AnchorView, lines: Seq<Seq<char>>) -> Result<
    Option<MismatchView>,
    ErrorView,
> {
    if a.line < 1 || a.line > lines.len() {
        Err(
            ErrorView::ApplyError {
                message: "Line "@ + decimal(a.line) + " does not exist (file has "@ + decimal(
                    lines.len(),
                ) + " lines)"@,
            },
        )
    } else {
        let actual = line_hash(a.line, lines[a.line - 1]);
        if actual == a.hash {
            Ok(None)
        } else {
            Ok(Some(MismatchView { line: a.line, expected: a.hash, actual }))
        }
    }
}

/// The view of an optional stale reference.
pub open spec fn opt_mismatch(m: Option<HashMismatch>) -> Option<MismatchView> {
    match m {
        Some(x) => Some(x@),
        None => None,
    }
}

/// The view of a checked reference.
pub open spec fn check_outcome(r: Result<Option<HashMismatch>, EditError>) -> Result<
    Option<MismatchView>,
    ErrorView,
> {
    match r {
        Ok(None) => Ok(None),
        Ok(Some(m)) => Ok(Some(m@)),
        Err(e) => Err(e@),
    }
}

fn check_anchor(anchor: &Anchor, lines: &[&str]) -> (r: Result<Option<HashMismatch>, EditError>)
    ensures
        check_outcome(r) == anchor_check(anchor@, views(lines@)),
{
    if anchor.line < 1 || anchor.line > lines.len() {
        let mut message = "Line ".to_owned();
        message.append(show(anchor.line).as_str());
        message.append(" does not exist (file has ");
        message.append(show(lines.len()).as_str());
        message.append(" lines)");
        return Err(EditError::ApplyError { message });
    }
    assert(views(lines@)[anchor.line - 1] == lines@[anchor.line - 1]@);
    let actual = compute_line_hash(anchor.line, lines[anchor.line - 1]);
    if same(actual.as_str(), anchor.hash.as_str()) {
        Ok(None)
    } else {
        Ok(Some(HashMismatch { line: anchor.line, expected: anchor.hash.clone(), actual }))
    }
}

/// Whether line `k` is stale.
pub open spec fn is_stale(ms: Seq<MismatchView>, k: int) -> bool {
    exists|i: int| 0 <= i < ms.len() && (#[trigger] ms[i]).line == k
}

/// Number of context lines shown above and below each mismatched line.
pub const MISMATCH_CONTEXT: usize = 2;

/// Whether line `k` is shown: a stale line is at most two lines away.
pub open spec fn is_near(ms: Seq<MismatchView>, k: int) -> bool {
    exists|i: int|
        0 <= i < ms.len() && k - MISMATCH_CONTEXT <= (#[trigger] ms[i]).line <= k
            + MISMATCH_CONTEXT
}

/// The last line up to `k` that is shown; zero where there is none.
pub open spec fn last_near(ms: Seq<MismatchView>, k: int) -> int
    decreases k,
{
    if k <= 0 {
        0
    } else if is_near(ms, k) {
        k
    } else {
        last_near(ms, k - 1)
    }
}

/// The lines up to `k` as they are shown: stale lines are marked, and gaps are
/// shown as dots.
pub open spec fn stale_report(ms: Seq<MismatchView>, lines: Seq<Seq<char>>, k: int) -> Seq<
    Seq<char>,
>
    decreases k,
{
    if k <= 0 {
        Seq::empty()
    } else {
        let before = stale_report(ms, lines, k - 1);
        if !is_near(ms, k) {
            before
        } else {
            let prev = last_near(ms, k - 1);
            let gap = if prev > 0 && k > prev + 1 {
                before.push("    ..."@)
            } else {
                before
            };
            gap.push(
                (if is_stale(ms, k) {
                    ">>> "@
                } else {
                    "    "@
                }) + tagged_line(k as nat, lines[k - 1]),
            )
        }
    }
}

/// The first line of the report.
pub open spec fn stale_title(n: nat) -> Seq<char> {
    decimal(n) + " line"@ + (if n > 1 {
        "s have"@
    } else {
        " has"@
    })
        + " changed since last read. Use the updated LINE#ID references shown below (>>> marks changed lines)."@
}

/// The report on stale lines.
pub open spec fn stale_message(ms: Seq<MismatchView>, lines: Seq<Seq<char>>) -> Seq<char> {
    joined(
        seq![stale_title(ms.len()), Seq::<char>::empty()] + stale_report(
            ms,
            lines,
            lines.len() as int,
        ),
        "\n"@,
    )
}

fn stale_or_near(mismatches: &[HashMismatch], k: usize) -> (r: (bool, bool))
    ensures
        r.0 == is_stale(mismatch_views(mismatches@), k as int),
        r.1 == is_near(mismatch_views(mismatches@), k as int),
{
    let ghost ms = mismatch_views(mismatches@);
    let mut stale = false;
    let mut near = false;
    let mut i: usize = 0;
    while i < mismatches.len()
        invariant
            ms == mismatch_views(mismatches@),
            i <= mismatches@.len(),
            stale <==> exists|j: int| 0 <= j < i && (#[trigger] ms[j]).line == k,
            near <==> exists|j: int|
                0 <= j < i && k - MISMATCH_CONTEXT <= (#[trigger] ms[j]).line <= k
                    + MISMATCH_CONTEXT,
        decreases mismatches@.len() - i,
    {
        let n: usize = mismatches[i].line;
        assert(ms[i as int].line == n);
        if n == k {
            stale = true;
        }
        let far: usize = if n >= k {
            n - k
        } else {
            k - n
        };
        if far <= MISMATCH_CONTEXT {
            near = true;
        }
        i = i + 1;
    }
    (stale, near)
}

/// Formats a report with `>>>` markers on mismatched lines.
///
/// Shows surrounding context lines so the caller can fix all stale references
/// at once.
pub fn format_hash_mismatch_error(mismatches: &[HashMismatch], file_lines: &[&str]) -> (r: String)
    ensures
        r@ == stale_message(mismatch_views(mismatches@), views(file_lines@)),
{
    let ghost ms = mismatch_views(mismatches@);
    let ghost lines = views(file_lines@);
    let mut out: Vec<String> = Vec::new();
    let mut title = show(mismatches.len());
    title.append(" line");
    title.append(
        if mismatches.len() > 1 {
            "s have"
        } else {
            " has"
        },
    );
    title.append(
        " changed since last read. Use the updated LINE#ID references shown below (>>> marks changed lines).",
    );
    push_text(&mut out, title.as_str());
    let empty: String = String::new();
    push_text(&mut out, empty.as_str());
    let ghost head = seq![stale_title(ms.len()), Seq::<char>::empty()];
    proof {
        assert(views(out@) =~= head);
        assert(head + stale_report(ms, lines, 0) =~= head);
    }
    let mut prev: usize = 0;
    let mut k: usize = 0;
    while k < file_lines.len()
        invariant
            ms == mismatch_views(mismatches@),
            lines == views(file_lines@),
            k <= file_lines@.len(),
            prev == last_near(ms, k as int),
            prev <= k,
            views(out@) == head + stale_report(ms, lines, k as int),
        decreases file_lines@.len() - k,
    {
        let ghost before = stale_report(ms, lines, k as int);
        let n: usize = k + 1;
        let (stale, near) = stale_or_near(mismatches, n);
        if near {
            if prev > 0 && n > prev + 1 {
                push_text(&mut out, "    ...");
                assert(views(out@) =~= head + before.push("    ..."@));
            }
            let ghost gap = if prev > 0 && n > prev + 1 {
                before.push("    ..."@)
            } else {
                before
            };
            let mut l = if stale {
                ">>> ".to_owned()
            } else {
                "    ".to_owned()
            };
            assert(lines[k as int] == file_lines@[k as int]@);
            l.append(format_tagged_line(n, file_lines[k]).as_str());
            push_text(&mut out, l.as_str());
            assert(views(out@) =~= head + gap.push(l@));
            prev = n;
        }
        k = k + 1;
    }
    join(&out, "\n")
}

/// What a reference comes to: an error where it names no line or is stale.
pub open spec fn ref_status(a: AnchorView, lines: Seq<Seq<char>>) -> Result<(), ErrorView> {
    match anchor_check(a, lines) {
        Err(e) => Err(e),
        Ok(None) => Ok(()),
        Ok(Some(m)) => Err(
            ErrorView::HashMismatch {
                mismatches: seq![m],
                context: stale_message(seq![m], lines),
            },
        ),
    }
}

/// Validates that a line reference points to an existing line with a matching
/// hash.
///
/// Returns [`EditError::HashMismatch`] with formatted context on mismatch, or
/// [`EditError::ApplyError`] if the line is out of range.
pub fn validate_line_ref(anchor: &Anchor, file_lines: &[&str]) -> (r: Result<(), EditError>)
    ensures
        status(r) == ref_status(anchor@, views(file_lines@)),
{
    match check_anchor(anchor, file_lines) {
        Err(e) => Err(e),
        Ok(None) => Ok(()),
        Ok(Some(m)) => {
            let ghost mv = m@;
            let mismatches: Vec<HashMismatch> = vec![m];
            assert(mismatch_views(mismatches@) =~= seq![mv]);
            let context = format_hash_mismatch_error(&mismatches, file_lines);
            Err(EditError::HashMismatch { mismatches, context })
        },
    }
}

/// A single hashline edit operation.
#[derive(Debug, Clone)]
pub enum HashlineEdit {
    /// Replace exactly one line.
    ReplaceLine { pos: Anchor, lines: Vec<String> },
    /// Replace an inclusive range of lines.
    ReplaceRange { pos: Anchor, end: Anchor, lines: Vec<String> },
    /// Insert lines after the anchor.
    AppendAt { pos: Anchor, lines: Vec<String> },
    /// Insert lines before the anchor.
    PrependAt { pos: Anchor, lines: Vec<String> },
    /// Append lines at end of file.
    AppendFile { lines: Vec<String> },
    /// Prepend lines at start of file.
    PrependFile { lines: Vec<String> },
}

/// The kind of an edit.
#[derive(Debug, Clone, Copy, PartialEq, Eq, Structural)]
pub enum EditKind {
    /// One line is replaced.
    ReplaceLine,
    /// A range of lines is replaced.
    ReplaceRange,
    /// Lines are inserted after a line.
    AppendAt,
    /// Lines are inserted before a line.
    PrependAt,
    /// Lines are appended to the file.
    AppendFile,
    /// Lines are put before the file.
    PrependFile,
}

/// An edit, by its contents. Where a kind has no end, the end is its position;
/// where it has no position, both are line zero.
#[verifier::ext_equal]
pub ghost struct EditView {
    /// The kind.
    pub kind: EditKind,
    /// The first line that it refers to.
    pub pos: AnchorView,
    /// The last line that it refers to.
    pub end: AnchorView,
    /// The new lines.
    pub lines: Seq<Seq<char>>,
}

/// The reference of an edit that refers to no line.
pub open spec fn no_anchor() -> AnchorView {
    AnchorView { line: 0, hash: Seq::empty() }
}

impl View for HashlineEdit {
    type V = EditView;

    open spec fn view(&self) -> EditView {
        match self {
            HashlineEdit::ReplaceLine { pos, lines } => EditView {
                kind: EditKind::ReplaceLine,
                pos: pos@,
                end: pos@,
                lines: views(lines@),
            },
            HashlineEdit::ReplaceRange { pos, end, lines } => EditView {
                kind: EditKind::ReplaceRange,
                pos: pos@,
                end: end@,
                lines: views(lines@),
            },
            HashlineEdit::AppendAt { pos, lines } => EditView {
                kind: EditKind::AppendAt,
                pos: pos@,
                end: pos@,
                lines: views(lines@),
            },
            HashlineEdit::PrependAt { pos, lines } => EditView {
                kind: EditKind::PrependAt,
                pos: pos@,
                end: pos@,
                lines: views(lines@),
            },
            HashlineEdit::AppendFile { lines } => EditView {
                kind: EditKind::AppendFile,
                pos: no_anchor(),
                end: no_anchor(),
                lines: views(lines@),
            },
            HashlineEdit::PrependFile { lines } => EditView {
                kind: EditKind::PrependFile,
                pos: no_anchor(),
                end: no_anchor(),
                lines: views(lines@),
            },
        }
    }
}

/// The edits, by their contents.
pub open spec fn edit_views(edits: Seq<HashlineEdit>) -> Seq<EditView> {
    Seq::new(edits.len(), |i: int| edits[i]@)
}

/// Describes an edit that was a no-op because the content already matched.
#[derive(Debug)]
pub struct NoopEdit {
    /// Index of the edit in the array of edits that was given.
    pub edit_index: usize,
    /// Location string (e.g. `"5#ZP"` or `"EOF"`).
    pub loc: String,
    /// Current content at that location.
    pub current: String,
}

/// An edit that changed nothing, by its contents.
pub ghost struct NoopView {
    /// Its index.
    pub index: nat,
    /// Its location.
    pub loc: Seq<char>,
    /// The content there.
    pub current: Seq<char>,
}

impl View for NoopEdit {
    type V = NoopView;

    open spec fn view(&self) -> NoopView {
        NoopView { index: self.edit_index as nat, loc: self.loc@, current: self.current@ }
    }
}

/// The edits that changed nothing, by their contents.
pub open spec fn noop_views(v: Seq<NoopEdit>) -> Seq<NoopView> {
    Seq::new(v.len(), |i: int| v[i]@)
}

/// Result of applying hashline edits.
#[derive(Debug)]
pub struct HashlineEditResult {
    /// The resulting file text.
    pub text: String,
    /// 1-indexed line number of the first change, if any.
    pub first_changed_line: Option<usize>,
    /// Warnings generated during application.
    pub warnings: Vec<String>,
    /// Edits that were no-ops (content already matched).
    pub noop_edits: Vec<NoopEdit>,
}

/// The result of edits, by its contents.
#[verifier::ext_equal]
pub ghost struct EditedView {
    /// The text.
    pub text: Seq<char>,
    /// The first changed line.
    pub first: Option<nat>,
    /// The warnings.
    pub warnings: Seq<Seq<char>>,
    /// The edits that changed nothing.
    pub noops: Seq<NoopView>,
}

impl View for HashlineEditResult {
    type V = EditedView;

    open spec fn view(&self) -> EditedView {
        EditedView {
            text: self.text@,
            first: opt_nat(self.first_changed_line),
            warnings: views(self.warnings@),
            noops: noop_views(self.noop_edits@),
        }
    }
}

/// Options that influence hashline edit application behavior.
#[derive(Debug, Clone, Copy)]
pub struct HashlineApplyOptions {
    /// Whether escaped tab indentation (`\\t`) should be auto-corrected to real
    /// tabs when no real tabs are present.
    pub autocorrect_escaped_tabs: bool,
}

/// Whether escaped tabs are corrected, given the setting of the environment:
/// they are unless it is `0`.
pub fn is_escaped_tab_autocorrect_enabled(setting: Option<&str>) -> (r: bool)
    ensures
        r == !(setting matches Some(v) && v@ == "0"@),
{
    match setting {
        Some(v) => !same(v, "0"),
        None => true,
    }
}

impl Default for HashlineApplyOptions {
    fn default() -> (r: HashlineApplyOptions)
        ensures
            r.autocorrect_escaped_tabs,
    {
        HashlineApplyOptions { autocorrect_escaped_tabs: is_escaped_tab_autocorrect_enabled(None) }
    }
}

/// One or none.
pub open spec fn some_of(m: Option<MismatchView>) -> Seq<MismatchView> {
    match m {
        Some(x) => seq![x],
        None => Seq::empty(),
    }
}

/// The stale references of one edit, or what is wrong with it.
pub open spec fn edit_check(e: EditView, lines: Seq<Seq<char>>) -> Result<
    Seq<MismatchView>,
    ErrorView,
> {
    match e.kind {
        EditKind::AppendFile => Ok(Seq::empty()),
        EditKind::PrependFile => Ok(Seq::empty()),
        EditKind::ReplaceRange => match anchor_check(e.pos, lines) {
            Err(x) => Err(x),
            Ok(a) => match anchor_check(e.end, lines) {
                Err(x) => Err(x),
                Ok(b) => if a is None && b is None && e.pos.line > e.end.line {
                    Err(
                        ErrorView::ApplyError {
                            message: "Range start line "@ + decimal(e.pos.line)
                                + " must be <= end line "@ + decimal(e.end.line),
                        },
                    )
                } else {
                    Ok(some_of(a) + some_of(b))
                },
            },
        },
        _ => match anchor_check(e.pos, lines) {
            Err(x) => Err(x),
            Ok(a) => Ok(some_of(a)),
        },
    }
}

/// The stale references of the edits from `i` on, after those that are `found`.
pub open spec fn edits_check(
    edits: Seq<EditView>,
    lines: Seq<Seq<char>>,
    i: int,
    found: Seq<MismatchView>,
) -> Result<Seq<MismatchView>, ErrorView>
    decreases edits.len() - i,
{
    if i >= edits.len() {
        Ok(found)
    } else {
        match edit_check(edits[i], lines) {
            Err(x) => Err(x),
            Ok(ms) => edits_check(edits, lines, i + 1, found + ms),
        }
    }
}

/// The lines that an edit writes: an insertion of no line inserts an empty one.
pub open spec fn filled(e: EditView) -> Seq<Seq<char>> {
    if e.lines.len() == 0 && e.kind != EditKind::ReplaceLine && e.kind != EditKind::ReplaceRange {
        seq![Seq::<char>::empty()]
    } else {
        e.lines
    }
}

/// The number of leading `\t` that are written out.
pub open spec fn escaped_tabs(s: Seq<char>) -> nat
    decreases s.len(),
{
    if begins(s, "\\t"@) && s.len() >= 2 {
        1 + escaped_tabs(s.skip(2))
    } else {
        0
    }
}

/// A line with its leading `\t` turned into tabs.
pub open spec fn with_tabs(line: Seq<char>) -> Seq<char> {
    Seq::new(escaped_tabs(line), |i: int| '\t') + line.skip(2 * escaped_tabs(line) as int)
}

/// Whether a line has a `\t` that is written out.
pub open spec fn any_escaped(lines: Seq<Seq<char>>) -> bool {
    exists|i: int| 0 <= i < lines.len() && occurs(#[trigger] lines[i], "\\t"@)
}

/// Whether a line has a tab.
pub open spec fn any_tab(lines: Seq<Seq<char>>) -> bool {
    exists|i: int| 0 <= i < lines.len() && (#[trigger] lines[i]).contains('\t')
}

/// Whether a line begins with a `\t` that is written out.
pub open spec fn any_leading(lines: Seq<Seq<char>>) -> bool {
    exists|i: int| 0 <= i < lines.len() && escaped_tabs(#[trigger] lines[i]) > 0
}

/// Whether the tabs of some lines are corrected.
pub open spec fn is_corrected(lines: Seq<Seq<char>>, enabled: bool) -> bool {
    enabled && any_escaped(lines) && !any_tab(lines) && any_leading(lines)
}

/// The lines with their tabs corrected, where that is due.
pub open spec fn corrected(lines: Seq<Seq<char>>, enabled: bool) -> Seq<Seq<char>> {
    if is_corrected(lines, enabled) {
        Seq::new(lines.len(), |i: int| with_tabs(lines[i]))
    } else {
        lines
    }
}

/// An edit as it is applied.
pub open spec fn prepared(e: EditView, enabled: bool) -> EditView {
    EditView { lines: corrected(filled(e), enabled), ..e }
}

/// The edits as they are applied.
pub open spec fn prepared_all(edits: Seq<EditView>, enabled: bool) -> Seq<EditView> {
    Seq::new(edits.len(), |i: int| prepared(edits[i], enabled))
}

/// The warning for corrected tabs.
pub open spec fn tab_warning() -> Seq<char> {
    "Auto-corrected escaped tab indentation in edit: converted leading \\t sequence(s) to real tab characters"@
}

/// The warnings for corrected tabs, one for each edit up to `n`.
pub open spec fn tab_warnings(edits: Seq<EditView>, enabled: bool, n: int) -> Seq<Seq<char>>
    decreases n,
{
    if n <= 0 {
        Seq::empty()
    } else {
        let before = tab_warnings(edits, enabled, n - 1);
        if is_corrected(filled(edits[n - 1]), enabled) {
            before.push(tab_warning())
        } else {
            before
        }
    }
}

/// Whether some lines hold a placeholder for a Unicode escape.
pub open spec fn has_placeholder(lines: Seq<Seq<char>>) -> bool {
    exists|i: int|
        0 <= i < lines.len() && (occurs(#[trigger] lines[i], "\\uDDDD"@) || occurs(
            lines[i],
            "\\udddd"@,
        ))
}

/// Whether some edit holds one.
pub open spec fn any_placeholder(edits: Seq<EditView>) -> bool {
    exists|i: int| 0 <= i < edits.len() && has_placeholder((#[trigger] edits[i]).lines)
}

/// The warning for a placeholder, if there is one.
pub open spec fn placeholder_warnings(edits: Seq<EditView>) -> Seq<Seq<char>> {
    if any_placeholder(edits) {
        seq![
            "Detected literal \\uDDDD in edit content; no autocorrection applied. Verify whether this should be a real Unicode escape or plain text."@,
        ]
    } else {
        Seq::empty()
    }
}

/// Whether an edit replaces lines.
pub open spec fn is_replacement(e: EditView) -> bool {
    e.kind == EditKind::ReplaceLine || e.kind == EditKind::ReplaceRange
}

/// Whether the last line that a replacement writes is the line that follows it.
pub open spec fn repeats_next(e: EditView, lines: Seq<Seq<char>>) -> bool {
    is_replacement(e) && e.lines.len() > 0 && e.end.line < lines.len() && !is_blank(e.lines.last())
        && trimmed(e.lines.last()) == trimmed(lines[e.end.line as int])
}

/// The warning for such a replacement.
pub open spec fn repeat_warning(e: EditView, lines: Seq<Seq<char>>) -> Seq<char> {
    let tag = line_tag(e.end.line + 1, lines[e.end.line as int]);
    "Possible boundary duplication: your last replacement line `"@ + trimmed(e.lines.last())
        + "` is identical to the next surviving line "@ + tag
        + ". If you meant to replace the entire block, set `end` to "@ + tag + " instead."@
}

/// The warnings for such replacements among the edits up to `n`.
pub open spec fn repeat_warnings(edits: Seq<EditView>, lines: Seq<Seq<char>>, n: int) -> Seq<
    Seq<char>,
>
    decreases n,
{
    if n <= 0 {
        Seq::empty()
    } else {
        let before = repeat_warnings(edits, lines, n - 1);
        if repeats_next(edits[n - 1], lines) {
            before.push(repeat_warning(edits[n - 1], lines))
        } else {
            before
        }
    }
}

/// All warnings for some edits of a file.
pub open spec fn warnings_for(
    edits: Seq<EditView>,
    ready: Seq<EditView>,
    lines: Seq<Seq<char>>,
    enabled: bool,
) -> Seq<Seq<char>> {
    tab_warnings(edits, enabled, edits.len() as int) + placeholder_warnings(ready)
        + repeat_warnings(ready, lines, ready.len() as int)
}

/// An edit and its index among those that were given.
pub ghost struct EntryView {
    /// The index.
    pub index: nat,
    /// The edit.
    pub edit: EditView,
}

/// Whether two edits do the same: to the same lines, with the same text. No lines
/// at all are not the text of one empty line.
pub open spec fn same_effect(a: EditView, b: EditView) -> bool {
    &&& a.kind == b.kind
    &&& a.pos.line == b.pos.line
    &&& a.end.line == b.end.line
    &&& a.lines.len() == 0 <==> b.lines.len() == 0
    &&& joined(a.lines, "\n"@) == joined(b.lines, "\n"@)
}

/// Whether some edit does the same as `e`.
pub open spec fn repeats_earlier(entries: Seq<EntryView>, e: EditView) -> bool {
    exists|i: int| 0 <= i < entries.len() && same_effect((#[trigger] entries[i]).edit, e)
}

/// The edits, each effect once, with their indices.
pub open spec fn distinct_edits(edits: Seq<EditView>) -> Seq<EntryView>
    decreases edits.len(),
{
    if edits.len() == 0 {
        Seq::empty()
    } else {
        let before = distinct_edits(edits.drop_last());
        if repeats_earlier(before, edits.last()) {
            before
        } else {
            before.push(EntryView { index: (edits.len() - 1) as nat, edit: edits.last() })
        }
    }
}

/// The line by which an edit of a file with `n` lines is ordered.
pub open spec fn sort_line(e: EditView, n: int) -> int {
    match e.kind {
        EditKind::AppendFile => n + 1,
        EditKind::PrependFile => 0,
        _ => e.end.line as int,
    }
}

/// The order of edits on one line: replacements, what goes after, what goes
/// before.
pub open spec fn precedence(e: EditView) -> int {
    match e.kind {
        EditKind::ReplaceLine => 0,
        EditKind::ReplaceRange => 0,
        EditKind::AppendAt => 1,
        EditKind::AppendFile => 1,
        EditKind::PrependAt => 2,
        EditKind::PrependFile => 2,
    }
}

/// Whether `a` is applied before `b` whatever their places in the list: from the
/// bottom of the file upwards.
pub open spec fn goes_first(a: EditView, b: EditView, n: int) -> bool {
    sort_line(a, n) > sort_line(b, n) || (sort_line(a, n) == sort_line(b, n) && precedence(a)
        < precedence(b))
}

/// Where `e` goes among `sorted`: before the first that it goes before.
pub open spec fn slot(sorted: Seq<EntryView>, e: EditView, n: int, i: int) -> int
    decreases sorted.len() - i,
{
    if i >= sorted.len() || goes_first(e, sorted[i].edit, n) {
        i
    } else {
        slot(sorted, e, n, i + 1)
    }
}

/// The first `k` edits in the order in which they are applied.
pub open spec fn ordered(entries: Seq<EntryView>, n: int, k: int) -> Seq<EntryView>
    decreases k,
{
    if k <= 0 {
        Seq::empty()
    } else {
        let before = ordered(entries, n, k - 1);
        before.insert(slot(before, entries[k - 1].edit, n, 0), entries[k - 1])
    }
}

/// A file in the course of being edited.
#[verifier::ext_equal]
pub ghost struct ProgressView {
    /// Its lines.
    pub lines: Seq<Seq<char>>,
    /// The first changed line.
    pub first: Option<nat>,
    /// The edits that changed nothing.
    pub noops: Seq<NoopView>,
}

/// The lesser of the first changed line so far and `line`.
pub open spec fn first_of(first: Option<nat>, line: nat) -> Option<nat> {
    match first {
        Some(f) if f <= line => Some(f),
        _ => Some(line),
    }
}

/// The location of a reference.
pub open spec fn anchor_loc(a: AnchorView) -> Seq<char> {
    decimal(a.line) + "#"@ + a.hash
}

/// The lines that an edit removes: from the first to the second, the last not
/// counted.
pub open spec fn edit_span(e: EditView, len: int, only_empty: bool) -> (int, int) {
    match e.kind {
        EditKind::ReplaceLine => (e.pos.line - 1, e.pos.line as int),
        EditKind::ReplaceRange => (e.pos.line - 1, e.end.line as int),
        EditKind::AppendAt => (e.pos.line as int, e.pos.line as int),
        EditKind::PrependAt => (e.pos.line - 1, e.pos.line - 1),
        EditKind::AppendFile => if only_empty {
            (0, 1)
        } else {
            (len, len)
        },
        EditKind::PrependFile => if only_empty {
            (0, 1)
        } else {
            (0, 0)
        },
    }
}

/// The line that an edit changes first.
pub open spec fn edit_first(e: EditView, len: int, only_empty: bool) -> nat {
    match e.kind {
        EditKind::AppendAt => capped(e.pos.line as int + 1),
        EditKind::AppendFile => if only_empty {
            1
        } else {
            capped(len + 1)
        },
        EditKind::PrependFile => 1,
        _ => e.pos.line,
    }
}

/// What an edit does to a file whose lines were `original`. An edit of lines
/// that an earlier edit has removed cannot be applied.
pub open spec fn edit_applied(
    p: ProgressView,
    e: EntryView,
    original: Seq<Seq<char>>,
) -> Result<ProgressView, ErrorView> {
    let edit = e.edit;
    if edit.kind == EditKind::ReplaceLine && edit.lines == seq![original[edit.pos.line - 1]] {
        Ok(
            ProgressView {
                noops: p.noops.push(
                    NoopView {
                        index: e.index,
                        loc: anchor_loc(edit.pos),
                        current: original[edit.pos.line - 1],
                    },
                ),
                ..p
            },
        )
    } else {
        let only_empty = p.lines.len() == 1 && p.lines[0].len() == 0;
        let (a, b) = edit_span(edit, p.lines.len() as int, only_empty);
        if b > p.lines.len() {
            Err(
                ErrorView::ApplyError {
                    message: "Edit at line "@ + decimal(edit.pos.line)
                        + " overlaps another edit that removed the line"@,
                },
            )
        } else {
            Ok(
                ProgressView {
                    lines: spliced(p.lines, a, b, edit.lines),
                    first: first_of(
                        p.first,
                        edit_first(edit, p.lines.len() as int, only_empty),
                    ),
                    ..p
                },
            )
        }
    }
}

/// What the edits from `i` on do.
pub open spec fn edits_applied(
    p: ProgressView,
    entries: Seq<EntryView>,
    original: Seq<Seq<char>>,
    i: int,
) -> Result<ProgressView, ErrorView>
    decreases entries.len() - i,
{
    if i >= entries.len() {
        Ok(p)
    } else {
        match edit_applied(p, entries[i], original) {
            Err(x) => Err(x),
            Ok(q) => edits_applied(q, entries, original, i + 1),
        }
    }
}

/// The result of some edits of a text.
pub open spec fn edited(text: Seq<char>, edits: Seq<EditView>, enabled: bool) -> Result<
    EditedView,
    ErrorView,
> {
    let lines = lines_of(text);
    let n = lines.len() as int;
    if edits.len() == 0 {
        Ok(
            EditedView {
                text,
                first: None,
                warnings: Seq::empty(),
                noops: Seq::empty(),
            },
        )
    } else {
        match edits_check(edits, lines, 0, Seq::empty()) {
            Err(e) => Err(e),
            Ok(ms) => if ms.len() > 0 {
                Err(
                    ErrorView::HashMismatch {
                        mismatches: ms,
                        context: stale_message(ms, lines),
                    },
                )
            } else {
                let ready = prepared_all(edits, enabled);
                let once = distinct_edits(ready);
                let start = ProgressView { lines, first: None, noops: Seq::empty() };
                match edits_applied(start, ordered(once, n, once.len() as int), lines, 0) {
                    Err(e) => Err(e),
                    Ok(p) => Ok(
                        EditedView {
                            text: joined(p.lines, "\n"@),
                            first: p.first,
                            warnings: warnings_for(edits, ready, lines, enabled),
                            noops: p.noops,
                        },
                    ),
                }
            },
        }
    }
}

struct Task {
    kind: EditKind,
    pos: Anchor,
    end: Anchor,
    lines: Vec<String>,
}

impl View for Task {
    type V = EditView;

    closed spec fn view(&self) -> EditView {
        EditView {
            kind: self.kind,
            pos: self.pos@,
            end: self.end@,
            lines: views(self.lines@),
        }
    }
}

spec fn task_views(tasks: Seq<Task>) -> Seq<EditView> {
    Seq::new(tasks.len(), |i: int| tasks[i]@)
}

fn nowhere() -> (r: Anchor)
    ensures
        r@ == no_anchor(),
{
    let r = Anchor { line: 0, hash: String::new() };
    assert(r@ =~= no_anchor());
    r
}

fn task_of(e: &HashlineEdit) -> (r: Task)
    ensures
        r@ == e@,
{
    let r = match e {
        HashlineEdit::ReplaceLine { pos, lines } => Task {
            kind: EditKind::ReplaceLine,
            pos: pos.clone(),
            end: pos.clone(),
            lines: copy_texts(lines),
        },
        HashlineEdit::ReplaceRange { pos, end, lines } => Task {
            kind: EditKind::ReplaceRange,
            pos: pos.clone(),
            end: end.clone(),
            lines: copy_texts(lines),
        },
        HashlineEdit::AppendAt { pos, lines } => Task {
            kind: EditKind::AppendAt,
            pos: pos.clone(),
            end: pos.clone(),
            lines: copy_texts(lines),
        },
        HashlineEdit::PrependAt { pos, lines } => Task {
            kind: EditKind::PrependAt,
            pos: pos.clone(),
            end: pos.clone(),
            lines: copy_texts(lines),
        },
        HashlineEdit::AppendFile { lines } => Task {
            kind: EditKind::AppendFile,
            pos: nowhere(),
            end: nowhere(),
            lines: copy_texts(lines),
        },
        HashlineEdit::PrependFile { lines } => Task {
            kind: EditKind::PrependFile,
            pos: nowhere(),
            end: nowhere(),
            lines: copy_texts(lines),
        },
    };
    assert(r@ =~= e@);
    r
}

/// A result with stale references, by its contents.
pub open spec fn mismatches_outcome(r: Result<Vec<HashMismatch>, EditError>) -> Result<
    Seq<MismatchView>,
    ErrorView,
> {
    match r {
        Ok(v) => Ok(mismatch_views(v@)),
        Err(e) => Err(e@),
    }
}

fn note_mismatch(ms: &mut Vec<HashMismatch>, m: Option<HashMismatch>)
    ensures
        mismatch_views(final(ms)@) == mismatch_views(old(ms)@) + some_of(opt_mismatch(m)),
{
    let ghost ms0 = ms@;
    match m {
        Some(x) => {
            let ghost xv = x@;
            ms.push(x);
            assert(mismatch_views(ms@) =~= mismatch_views(ms0) + seq![xv]);
        },
        None => {
            assert(mismatch_views(ms@) =~= mismatch_views(ms0) + Seq::empty());
        },
    }
}

fn check_task(t: &Task, lines: &[&str], found: Vec<HashMismatch>) -> (r: Result<
    Vec<HashMismatch>,
    EditError,
>)
    ensures
        mismatches_outcome(r) == (match edit_check(t@, views(lines@)) {
            Ok(ms) => Ok(mismatch_views(found@) + ms),
            Err(e) => Err(e),
        }),
{
    let ghost found0 = mismatch_views(found@);
    let mut ms = found;
    match t.kind {
        EditKind::AppendFile => {
            assert(found0 + Seq::empty() =~= found0);
            Ok(ms)
        },
        EditKind::PrependFile => {
            assert(found0 + Seq::empty() =~= found0);
            Ok(ms)
        },
        EditKind::ReplaceRange => {
            let a = match check_anchor(&t.pos, lines) {
                Err(e) => {
                    return Err(e);
                },
                Ok(a) => a,
            };
            let b = match check_anchor(&t.end, lines) {
                Err(e) => {
                    return Err(e);
                },
                Ok(b) => b,
            };
            if a.is_none() && b.is_none() && t.pos.line > t.end.line {
                let mut message = "Range start line ".to_owned();
                message.append(show(t.pos.line).as_str());
                message.append(" must be <= end line ");
                message.append(show(t.end.line).as_str());
                return Err(EditError::ApplyError { message });
            }
            let ghost av = some_of(opt_mismatch(a));
            let ghost bv = some_of(opt_mismatch(b));
            note_mismatch(&mut ms, a);
            note_mismatch(&mut ms, b);
            assert((found0 + av) + bv =~= found0 + (av + bv));
            Ok(ms)
        },
        _ => {
            match check_anchor(&t.pos, lines) {
                Err(e) => Err(e),
                Ok(a) => {
                    note_mismatch(&mut ms, a);
                    Ok(ms)
                },
            }
        },
    }
}

fn check_tasks(tasks: &[Task], lines: &[&str]) -> (r: Result<Vec<HashMismatch>, EditError>)
    ensures
        mismatches_outcome(r) == edits_check(
            task_views(tasks@),
            views(lines@),
            0,
            Seq::empty(),
        ),
{
    let ghost es = task_views(tasks@);
    let ghost l = views(lines@);
    let mut ms: Vec<HashMismatch> = Vec::new();
    let mut i: usize = 0;
    assert(mismatch_views(ms@) =~= Seq::empty());
    while i < tasks.len()
        invariant
            es == task_views(tasks@),
            l == views(lines@),
            i <= tasks@.len(),
            edits_check(es, l, i as int, mismatch_views(ms@)) == edits_check(
                es,
                l,
                0,
                Seq::empty(),
            ),
        decreases tasks@.len() - i,
    {
        assert(es[i as int] == tasks@[i as int]@);
        match check_task(&tasks[i], lines, ms) {
            Err(e) => {
                return Err(e);
            },
            Ok(v) => {
                ms = v;
            },
        }
        i = i + 1;
    }
    Ok(ms)
}

fn count_escaped_tabs(s: &str) -> (r: usize)
    ensures
        r == escaped_tabs(s@),
        2 * r <= s@.len(),
{
    proof {
        reveal_strlit("\\t");
    }
    let v = to_chars(s);
    let mut n: usize = 0;
    let mut i: usize = 0;
    assert(s@.skip(0) =~= s@);
    while i < v.len() && v.len() - i >= 2 && v[i] == '\\' && v[i + 1] == 't'
        invariant
            v@ == s@,
            i <= v@.len(),
            i == 2 * n,
            "\\t"@.len() == 2,
            "\\t"@[0] == '\\',
            "\\t"@[1] == 't',
            n + escaped_tabs(s@.skip(i as int)) == escaped_tabs(s@),
        decreases v@.len() - i,
    {
        proof {
            let t = s@.skip(i as int);
            assert(t.subrange(0, 2) =~= "\\t"@);
            assert(t.skip(2) =~= s@.skip(i + 2));
        }
        n = n + 1;
        i = i + 2;
    }
    proof {
        let t = s@.skip(i as int);
        if begins(t, "\\t"@) {
            assert(t.subrange(0, 2)[0] == t[0] && t.subrange(0, 2)[1] == t[1]);
            assert(t[0] == v@[i as int] && t[1] == v@[i + 1]);
        }
    }
    n
}

fn any_line_escaped(lines: &[String]) -> (r: bool)
    ensures
        r == any_escaped(views(lines@)),
{
    let mut i: usize = 0;
    while i < lines.len()
        invariant
            i <= lines@.len(),
            forall|k: int| 0 <= k < i ==> !occurs(#[trigger] views(lines@)[k], "\\t"@),
        decreases lines@.len() - i,
    {
        if contains(lines[i].as_str(), "\\t") {
            assert(occurs(views(lines@)[i as int], "\\t"@));
            return true;
        }
        i = i + 1;
    }
    false
}

fn any_line_tab(lines: &[String]) -> (r: bool)
    ensures
        r == any_tab(views(lines@)),
{
    let mut i: usize = 0;
    while i < lines.len()
        invariant
            i <= lines@.len(),
            forall|k: int| 0 <= k < i ==> !(#[trigger] views(lines@)[k]).contains('\t'),
        decreases lines@.len() - i,
    {
        if contains_char(lines[i].as_str(), '\t') {
            assert(views(lines@)[i as int].contains('\t'));
            return true;
        }
        i = i + 1;
    }
    false
}

fn any_line_leading(lines: &[String]) -> (r: bool)
    ensures
        r == any_leading(views(lines@)),
{
    let mut i: usize = 0;
    while i < lines.len()
        invariant
            i <= lines@.len(),
            forall|k: int| 0 <= k < i ==> escaped_tabs(#[trigger] views(lines@)[k]) == 0,
        decreases lines@.len() - i,
    {
        if count_escaped_tabs(lines[i].as_str()) > 0 {
            assert(escaped_tabs(views(lines@)[i as int]) > 0);
            return true;
        }
        i = i + 1;
    }
    false
}

fn write_tabs(line: &str) -> (r: String)
    ensures
        r@ == with_tabs(line@),
{
    let n = count_escaped_tabs(line);
    let mut r: String = String::new();
    push_times(&mut r, '\t', n);
    assert(r@ =~= Seq::new(n as nat, |i: int| '\t'));
    let m: usize = line.unicode_len();
    let rest = line.substring_char(2 * n, m);
    assert(rest@ == line@.skip(2 * n as int));
    r.append(rest);
    r
}

/// Prepares an edit, and tells whether its tabs were corrected.
fn prepare(t: Task, enabled: bool) -> (r: (Task, bool))
    ensures
        r.0@ == prepared(t@, enabled),
        r.1 == is_corrected(filled(t@), enabled),
{
    let ghost tv = t@;
    let kind = t.kind;
    let mut lines = t.lines;
    if lines.len() == 0 && kind != EditKind::ReplaceLine && kind != EditKind::ReplaceRange {
        let empty: String = String::new();
        push_text(&mut lines, empty.as_str());
        assert(views(lines@) =~= filled(tv));
    }
    assert(views(lines@) =~= filled(tv));
    let due = enabled && any_line_escaped(&lines) && !any_line_tab(&lines) && any_line_leading(
        &lines,
    );
    if !due {
        let r = Task { kind, pos: t.pos, end: t.end, lines };
        assert(r@ =~= prepared(tv, enabled));
        return (r, false);
    }
    let ghost target = corrected(filled(tv), enabled);
    let mut out: Vec<String> = Vec::new();
    let mut i: usize = 0;
    while i < lines.len()
        invariant
            i <= lines@.len(),
            views(lines@) == filled(tv),
            target == Seq::new(views(lines@).len(), |i: int| with_tabs(views(lines@)[i])),
            views(out@) == target.take(i as int),
        decreases lines@.len() - i,
    {
        let l = write_tabs(lines[i].as_str());
        assert(views(lines@)[i as int] == lines@[i as int]@);
        push_text(&mut out, l.as_str());
        assert(target.take(i + 1) =~= target.take(i as int).push(target[i as int]));
        i = i + 1;
    }
    assert(target.take(i as int) =~= target);
    let r = Task { kind, pos: t.pos, end: t.end, lines: out };
    assert(r@ =~= prepared(tv, enabled));
    (r, true)
}

fn prepare_all(edits: &[HashlineEdit], enabled: bool) -> (r: (Vec<Task>, Vec<String>))
    ensures
        task_views(r.0@) == prepared_all(edit_views(edits@), enabled),
        views(r.1@) == tab_warnings(edit_views(edits@), enabled, edits@.len() as int),
{
    let ghost es = edit_views(edits@);
    let ghost target = prepared_all(es, enabled);
    let mut out: Vec<Task> = Vec::new();
    let mut warnings: Vec<String> = Vec::new();
    let mut i: usize = 0;
    assert(views(warnings@) =~= tab_warnings(es, enabled, 0));
    while i < edits.len()
        invariant
            es == edit_views(edits@),
            target == prepared_all(es, enabled),
            i <= edits@.len(),
            task_views(out@) == target.take(i as int),
            views(warnings@) == tab_warnings(es, enabled, i as int),
        decreases edits@.len() - i,
    {
        assert(es[i as int] == edits@[i as int]@);
        let (t, fixed) = prepare(task_of(&edits[i]), enabled);
        if fixed {
            push_text(
                &mut warnings,
                "Auto-corrected escaped tab indentation in edit: converted leading \\t sequence(s) to real tab characters",
            );
        }
        let ghost out0 = out@;
        let ghost tv = t@;
        out.push(t);
        proof {
            assert(task_views(out@) =~= task_views(out0).push(tv));
            assert(target.take(i + 1) =~= target.take(i as int).push(target[i as int]));
        }
        i = i + 1;
    }
    assert(target.take(i as int) =~= target);
    (out, warnings)
}

fn lines_have_placeholder(lines: &[String]) -> (r: bool)
    ensures
        r == has_placeholder(views(lines@)),
{
    let mut i: usize = 0;
    while i < lines.len()
        invariant
            i <= lines@.len(),
            forall|k: int|
                0 <= k < i ==> !occurs(#[trigger] views(lines@)[k], "\\uDDDD"@) && !occurs(
                    views(lines@)[k],
                    "\\udddd"@,
                ),
        decreases lines@.len() - i,
    {
        if contains(lines[i].as_str(), "\\uDDDD") || contains(lines[i].as_str(), "\\udddd") {
            assert(views(lines@)[i as int] == lines@[i as int]@);
            return true;
        }
        i = i + 1;
    }
    false
}

fn warn_suspicious_unicode(tasks: &[Task], warnings: &mut Vec<String>)
    ensures
        views(final(warnings)@) == views(old(warnings)@) + placeholder_warnings(
            task_views(tasks@),
        ),
{
    let ghost es = task_views(tasks@);
    let ghost w0 = views(warnings@);
    let mut i: usize = 0;
    while i < tasks.len()
        invariant
            es == task_views(tasks@),
            w0 == views(warnings@),
            w0 == views(old(warnings)@),
            i <= tasks@.len(),
            forall|k: int| 0 <= k < i ==> !has_placeholder((#[trigger] es[k]).lines),
        decreases tasks@.len() - i,
    {
        assert(es[i as int].lines == views(tasks@[i as int].lines@));
        if lines_have_placeholder(&tasks[i].lines) {
            push_text(
                warnings,
                "Detected literal \\uDDDD in edit content; no autocorrection applied. Verify whether this should be a real Unicode escape or plain text.",
            );
            proof {
                assert(has_placeholder(es[i as int].lines));
                assert(any_placeholder(es));
                assert(views(warnings@) =~= w0 + placeholder_warnings(es));
            }
            return;
        }
        i = i + 1;
    }
    assert(!any_placeholder(es));
    assert(w0 + placeholder_warnings(es) =~= w0);
}

fn warn_repeats(tasks: &[Task], lines: &[&str], warnings: &mut Vec<String>)
    ensures
        views(final(warnings)@) == views(old(warnings)@) + repeat_warnings(
            task_views(tasks@),
            views(lines@),
            tasks@.len() as int,
        ),
{
    let ghost es = task_views(tasks@);
    let ghost l = views(lines@);
    let ghost w0 = views(warnings@);
    let mut i: usize = 0;
    assert(w0 + repeat_warnings(es, l, 0) =~= w0);
    while i < tasks.len()
        invariant
            es == task_views(tasks@),
            l == views(lines@),
            i <= tasks@.len(),
            views(warnings@) == w0 + repeat_warnings(es, l, i as int),
            w0 == views(old(warnings)@),
        decreases tasks@.len() - i,
    {
        let t = &tasks[i];
        assert(es[i as int] == t@);
        let ghost before = repeat_warnings(es, l, i as int);
        let end: usize = t.end.line;
        if (t.kind == EditKind::ReplaceLine || t.kind == EditKind::ReplaceRange) && t.lines.len()
            > 0 && end < lines.len() {
            let last = t.lines[t.lines.len() - 1].as_str();
            let next = lines[end];
            proof {
                assert(t@.lines.last() == last@);
                assert(l[end as int] == next@);
            }
            if !blank(last) && same(trim(last), trim(next)) {
                let tag = format_line_tag(end + 1, next);
                let mut w =
                    "Possible boundary duplication: your last replacement line `".to_owned();
                w.append(trim(last));
                w.append("` is identical to the next surviving line ");
                w.append(tag.as_str());
                w.append(". If you meant to replace the entire block, set `end` to ");
                w.append(tag.as_str());
                w.append(" instead.");
                assert(w@ == repeat_warning(t@, l));
                push_text(warnings, w.as_str());
                assert(views(warnings@) =~= w0 + before.push(w@));
            }
        }
        i = i + 1;
    }
}

fn tasks_agree(a: &Task, b: &Task) -> (r: bool)
    ensures
        r == same_effect(a@, b@),
{
    if a.kind != b.kind || a.pos.line != b.pos.line || a.end.line != b.end.line {
        return false;
    }
    assert(a@.lines.len() == a.lines@.len() && b@.lines.len() == b.lines@.len());
    if (a.lines.len() == 0) != (b.lines.len() == 0) {
        return false;
    }
    same(join(&a.lines, "\n").as_str(), join(&b.lines, "\n").as_str())
}

struct Entry {
    index: usize,
    task: Task,
}

impl View for Entry {
    type V = EntryView;

    closed spec fn view(&self) -> EntryView {
        EntryView { index: self.index as nat, edit: self.task@ }
    }
}

spec fn entry_views(v: Seq<Entry>) -> Seq<EntryView> {
    Seq::new(v.len(), |i: int| v[i]@)
}

fn repeats_one(entries: &Vec<Entry>, t: &Task) -> (r: bool)
    ensures
        r == repeats_earlier(entry_views(entries@), t@),
{
    let ghost es = entry_views(entries@);
    let mut i: usize = 0;
    while i < entries.len()
        invariant
            es == entry_views(entries@),
            i <= entries@.len(),
            forall|k: int| 0 <= k < i ==> !same_effect((#[trigger] es[k]).edit, t@),
        decreases entries@.len() - i,
    {
        assert(es[i as int].edit == entries@[i as int].task@);
        if tasks_agree(&entries[i].task, t) {
            return true;
        }
        i = i + 1;
    }
    false
}

fn copy_task(t: &Task) -> (r: Task)
    ensures
        r@ == t@,
{
    Task {
        kind: t.kind,
        pos: t.pos.clone(),
        end: t.end.clone(),
        lines: copy_texts(&t.lines),
    }
}

fn keep_distinct(tasks: &[Task]) -> (r: Vec<Entry>)
    ensures
        entry_views(r@) == distinct_edits(task_views(tasks@)),
{
    let ghost es = task_views(tasks@);
    let mut out: Vec<Entry> = Vec::new();
    let mut i: usize = 0;
    assert(es.take(0).len() == 0);
    assert(entry_views(out@) =~= distinct_edits(es.take(0)));
    while i < tasks.len()
        invariant
            es == task_views(tasks@),
            i <= tasks@.len(),
            entry_views(out@) == distinct_edits(es.take(i as int)),
        decreases tasks@.len() - i,
    {
        proof {
            assert(es.take(i + 1).drop_last() =~= es.take(i as int));
            assert(es.take(i + 1).last() == tasks@[i as int]@);
        }
        if !repeats_one(&out, &tasks[i]) {
            let ghost out0 = out@;
            let x = Entry { index: i, task: copy_task(&tasks[i]) };
            let ghost xv = x@;
            out.push(x);
            assert(entry_views(out@) =~= entry_views(out0).push(xv));
        }
        i = i + 1;
    }
    assert(es.take(i as int) =~= es);
    out
}

fn order_line(t: &Task, n: usize) -> (r: u128)
    ensures
        r == sort_line(t@, n as int),
{
    match t.kind {
        EditKind::AppendFile => n as u128 + 1,
        EditKind::PrependFile => 0,
        _ => t.end.line as u128,
    }
}

fn order_rank(t: &Task) -> (r: u8)
    ensures
        r == precedence(t@),
{
    match t.kind {
        EditKind::ReplaceLine => 0,
        EditKind::ReplaceRange => 0,
        EditKind::AppendAt => 1,
        EditKind::AppendFile => 1,
        EditKind::PrependAt => 2,
        EditKind::PrependFile => 2,
    }
}

fn comes_first(a: &Task, b: &Task, n: usize) -> (r: bool)
    ensures
        r == goes_first(a@, b@, n as int),
{
    let x = order_line(a, n);
    let y = order_line(b, n);
    x > y || (x == y && order_rank(a) < order_rank(b))
}

proof fn lemma_slot(sorted: Seq<EntryView>, e: EditView, n: int, i: int)
    requires
        0 <= i <= sorted.len(),
    ensures
        i <= slot(sorted, e, n, i) <= sorted.len(),
    decreases sorted.len() - i,
{
    if i < sorted.len() && !goes_first(e, sorted[i].edit, n) {
        lemma_slot(sorted, e, n, i + 1);
    }
}

fn sort_entries(entries: &[Entry], n: usize) -> (r: Vec<Entry>)
    ensures
        entry_views(r@) == ordered(entry_views(entries@), n as int, entries@.len() as int),
{
    let ghost es = entry_views(entries@);
    let mut out: Vec<Entry> = Vec::new();
    let mut k: usize = 0;
    assert(entry_views(out@) =~= ordered(es, n as int, 0));
    while k < entries.len()
        invariant
            es == entry_views(entries@),
            k <= entries@.len(),
            entry_views(out@) == ordered(es, n as int, k as int),
        decreases entries@.len() - k,
    {
        let ghost before = entry_views(out@);
        let ghost e = es[k as int].edit;
        assert(e == entries@[k as int].task@);
        let mut i: usize = 0;
        while i < out.len() && !comes_first(&entries[k].task, &out[i].task, n)
            invariant
                k < entries@.len(),
                e == entries@[k as int].task@,
                before == entry_views(out@),
                i <= out@.len(),
                slot(before, e, n as int, i as int) == slot(before, e, n as int, 0),
            decreases out@.len() - i,
        {
            assert(before[i as int] == out@[i as int]@);
            i = i + 1;
        }
        proof {
            if i < out@.len() {
                assert(before[i as int] == out@[i as int]@);
            }
            assert(slot(before, e, n as int, 0) == i);
        }
        let x = Entry { index: entries[k].index, task: copy_task(&entries[k].task) };
        let ghost xv = x@;
        assert(xv == es[k as int]);
        out.insert(i, x);
        assert(entry_views(out@) =~= before.insert(i as int, xv));
        k = k + 1;
    }
    out
}

/// A file in the course of being edited.
struct Progress {
    lines: Vec<String>,
    first: Option<usize>,
    noops: Vec<NoopEdit>,
}

impl View for Progress {
    type V = ProgressView;

    closed spec fn view(&self) -> ProgressView {
        ProgressView {
            lines: views(self.lines@),
            first: opt_nat(self.first),
            noops: noop_views(self.noops@),
        }
    }
}

fn earliest(first: Option<usize>, line: usize) -> (r: Option<usize>)
    ensures
        opt_nat(r) == first_of(opt_nat(first), line as nat),
{
    match first {
        Some(f) => if f <= line {
            Some(f)
        } else {
            Some(line)
        },
        None => Some(line),
    }
}

/// What is known of an edit once all references have been checked.
pub open spec fn in_file(e: EditView, n: int) -> bool {
    match e.kind {
        EditKind::AppendFile => true,
        EditKind::PrependFile => true,
        EditKind::ReplaceRange => 1 <= e.pos.line <= e.end.line <= n,
        _ => 1 <= e.pos.line <= n && e.end.line == e.pos.line,
    }
}

fn apply_entry(p: Progress, e: &Entry, original: &[String]) -> (r: Result<Progress, EditError>)
    requires
        in_file(e@.edit, original@.len() as int),
    ensures
        outcome(r) == edit_applied(p@, e@, views(original@)),
{
    let ghost pv = p@;
    let ghost ev = e@;
    let ghost orig = views(original@);
    let t = &e.task;
    if t.kind == EditKind::ReplaceLine {
        let current = original[t.pos.line - 1].as_str();
        assert(orig[t.pos.line - 1] == current@);
        if t.lines.len() == 1 && same(t.lines[0].as_str(), current) {
            assert(views(t.lines@) =~= seq![current@]);
            let mut loc = show(t.pos.line);
            loc.append("#");
            loc.append(t.pos.hash.as_str());
            let x = NoopEdit { edit_index: e.index, loc, current: current.to_owned() };
            let ghost xv = x@;
            let mut q = p;
            let ghost n0 = q.noops@;
            q.noops.push(x);
            assert(noop_views(q.noops@) =~= noop_views(n0).push(xv));
            assert(q@ =~= edit_applied(pv, ev, orig)->Ok_0);
            return Ok(q);
        }
        proof {
            if views(t.lines@) == seq![current@] {
                assert(t.lines@.len() == views(t.lines@).len());
                assert(views(t.lines@)[0] == t.lines@[0]@);
            }
        }
    }
    let len: usize = p.lines.len();
    assert(pv.lines.len() == len);
    let only_empty = if len == 1 {
        assert(pv.lines[0] == p.lines@[0]@);
        p.lines[0].as_str().is_empty()
    } else {
        false
    };
    let line: usize = t.pos.line;
    let (a, b, first): (usize, usize, usize) = match t.kind {
        EditKind::ReplaceLine => (line - 1, line, line),
        EditKind::ReplaceRange => (line - 1, t.end.line, line),
        EditKind::AppendAt => (line, line, line.saturating_add(1)),
        EditKind::PrependAt => (line - 1, line - 1, line),
        EditKind::AppendFile => if only_empty {
            (0, 1, 1)
        } else {
            (len, len, len.saturating_add(1))
        },
        EditKind::PrependFile => if only_empty {
            (0, 1, 1)
        } else {
            (0, 0, 1)
        },
    };
    if b > len {
        let mut message = "Edit at line ".to_owned();
        message.append(show(line).as_str());
        message.append(" overlaps another edit that removed the line");
        return Err(EditError::ApplyError { message });
    }
    let lines = splice(&p.lines, a, b, &t.lines);
    let q = Progress { lines, first: earliest(p.first, first), noops: p.noops };
    assert(q@ =~= edit_applied(pv, ev, orig)->Ok_0);
    Ok(q)
}

fn apply_entries(start: Progress, entries: &[Entry], original: &[String]) -> (r: Result<
    Progress,
    EditError,
>)
    requires
        forall|i: int|
            0 <= i < entries@.len() ==> in_file((#[trigger] entries@[i])@.edit, original@.len() as int),
    ensures
        outcome(r) == edits_applied(start@, entry_views(entries@), views(original@), 0),
{
    let ghost es = entry_views(entries@);
    let ghost orig = views(original@);
    let ghost goal = edits_applied(start@, es, orig, 0);
    let mut p = start;
    let mut i: usize = 0;
    while i < entries.len()
        invariant
            es == entry_views(entries@),
            orig == views(original@),
            i <= entries@.len(),
            forall|i: int|
                0 <= i < entries@.len() ==> in_file(
                    (#[trigger] entries@[i])@.edit,
                    original@.len() as int,
                ),
            goal == edits_applied(start@, es, orig, 0),
            edits_applied(p@, es, orig, i as int) == goal,
        decreases entries@.len() - i,
    {
        assert(es[i as int] == entries@[i as int]@);
        match apply_entry(p, &entries[i], original) {
            Err(e) => {
                return Err(e);
            },
            Ok(q) => {
                p = q;
            },
        }
        i = i + 1;
    }
    Ok(p)
}

/// Whether an edit has an end of its own only where it replaces a range.
pub open spec fn is_edit(e: EditView) -> bool {
    e.kind != EditKind::ReplaceRange ==> e.end == e.pos
}

/// Checked edits are in the file.
proof fn lemma_checked(edits: Seq<EditView>, lines: Seq<Seq<char>>, i: int, found: Seq<MismatchView>)
    requires
        0 <= i,
        edits_check(edits, lines, i, found) matches Ok(ms) && ms.len() == 0,
        forall|k: int| 0 <= k < edits.len() ==> is_edit(#[trigger] edits[k]),
    ensures
        forall|k: int| i <= k < edits.len() ==> in_file(#[trigger] edits[k], lines.len() as int),
        found.len() == 0,
    decreases edits.len() - i,
{
    if i < edits.len() {
        let ms = edit_check(edits[i], lines)->Ok_0;
        lemma_checked(edits, lines, i + 1, found + ms);
    }
}

/// The distinct edits are among the edits, in their order, and every effect is
/// that of one of them.
pub proof fn law_distinct(edits: Seq<EditView>)
    ensures
        forall|k: int|
            0 <= k < distinct_edits(edits).len() ==> (#[trigger] distinct_edits(edits)[k]).index
                < edits.len() && distinct_edits(edits)[k].edit == edits[distinct_edits(
                edits,
            )[k].index as int],
        forall|i: int, j: int|
            0 <= i < j < distinct_edits(edits).len() ==> (#[trigger] distinct_edits(edits)[i]).index
                < (#[trigger] distinct_edits(edits)[j]).index && !same_effect(
                distinct_edits(edits)[i].edit,
                distinct_edits(edits)[j].edit,
            ),
        forall|i: int|
            0 <= i < edits.len() ==> repeats_earlier(distinct_edits(edits), #[trigger] edits[i]),
    decreases edits.len(),
{
    if edits.len() > 0 {
        let rest = edits.drop_last();
        let before = distinct_edits(rest);
        let all = distinct_edits(edits);
        law_distinct(rest);
        assert forall|k: int| 0 <= k < all.len() implies (#[trigger] all[k]).index < edits.len()
            && all[k].edit == edits[all[k].index as int] by {
            if k < before.len() {
                assert(all[k] == before[k]);
                assert(rest[before[k].index as int] == edits[before[k].index as int]);
            }
        }
        assert forall|i: int, j: int| 0 <= i < j < all.len() implies (#[trigger] all[i]).index < (
        #[trigger] all[j]).index && !same_effect(all[i].edit, all[j].edit) by {
            assert(all[i] == before[i]);
            if j < before.len() {
                assert(all[j] == before[j]);
            }
        }
        assert forall|i: int| 0 <= i < edits.len() implies repeats_earlier(
            all,
            #[trigger] edits[i],
        ) by {
            if i < rest.len() {
                assert(repeats_earlier(before, rest[i]));
                let k = choose|k: int|
                    0 <= k < before.len() && same_effect((#[trigger] before[k]).edit, rest[i]);
                assert(all[k] == before[k]);
            } else if !repeats_earlier(before, edits.last()) {
                assert(same_effect(all[all.len() - 1].edit, edits[i]));
            }
        }
    }
}

/// The ordered edits are the edits.
proof fn lemma_ordered_same(entries: Seq<EntryView>, n: int, k: int)
    requires
        0 <= k <= entries.len(),
    ensures
        ordered(entries, n, k).len() == k,
        ordered(entries, n, k).to_multiset() == entries.take(k).to_multiset(),
        forall|x: EntryView|
            ordered(entries, n, k).contains(x) <==> #[trigger] entries.take(k).contains(x),
    decreases k,
{
    broadcast use vstd::seq_lib::group_to_multiset_ensures;

    if k > 0 {
        lemma_ordered_same(entries, n, k - 1);
        let before = ordered(entries, n, k - 1);
        let e = entries[k - 1];
        let at = slot(before, e.edit, n, 0);
        lemma_slot(before, e.edit, n, 0);
        vstd::seq_lib::to_multiset_insert(before, at, e);
        assert(entries.take(k) =~= entries.take(k - 1).push(e));
        assert(ordered(entries, n, k).to_multiset() =~= entries.take(k).to_multiset());
    } else {
        assert(ordered(entries, n, k) =~= entries.take(k));
    }
    let all = ordered(entries, n, k);
    assert forall|x: EntryView| all.contains(x) <==> #[trigger] entries.take(k).contains(x) by {
        assert(all.to_multiset().count(x) == entries.take(k).to_multiset().count(x));
    }
}

fn tasks_of(edits: &[HashlineEdit]) -> (r: Vec<Task>)
    ensures
        task_views(r@) == edit_views(edits@),
{
    let ghost es = edit_views(edits@);
    let mut out: Vec<Task> = Vec::new();
    let mut i: usize = 0;
    while i < edits.len()
        invariant
            es == edit_views(edits@),
            i <= edits@.len(),
            task_views(out@) == es.take(i as int),
        decreases edits@.len() - i,
    {
        let t = task_of(&edits[i]);
        let ghost out0 = out@;
        let ghost tv = t@;
        out.push(t);
        proof {
            assert(task_views(out@) =~= task_views(out0).push(tv));
            assert(es.take(i + 1) =~= es.take(i as int).push(es[i as int]));
        }
        i = i + 1;
    }
    assert(es.take(i as int) =~= es);
    out
}

/// Edits that passed the check can be applied in the order in which they are
/// sorted.
proof fn lemma_entries_in_file(edits: Seq<EditView>, lines: Seq<Seq<char>>, enabled: bool)
    requires
        edits_check(edits, lines, 0, Seq::empty()) matches Ok(ms) && ms.len() == 0,
        forall|k: int| 0 <= k < edits.len() ==> is_edit(#[trigger] edits[k]),
    ensures
        ({
            let once = distinct_edits(prepared_all(edits, enabled));
            let entries = ordered(once, lines.len() as int, once.len() as int);
            forall|j: int|
                0 <= j < entries.len() ==> in_file(
                    (#[trigger] entries[j]).edit,
                    lines.len() as int,
                )
        }),
{
    let n = lines.len() as int;
    let ready = prepared_all(edits, enabled);
    let once = distinct_edits(ready);
    let entries = ordered(once, n, once.len() as int);
    lemma_checked(edits, lines, 0, Seq::empty());
    law_distinct(ready);
    lemma_ordered_same(once, n, once.len() as int);
    assert(once.take(once.len() as int) =~= once);
    assert forall|j: int| 0 <= j < entries.len() implies in_file(
        (#[trigger] entries[j]).edit,
        n,
    ) by {
        assert(entries.contains(entries[j]));
        assert(once.take(once.len() as int).contains(entries[j]));
        let a = choose|a: int| 0 <= a < once.len() && once[a] == entries[j];
        assert(in_file(edits[once[a].index as int], n));
    }
}

/// Applies hashline edits with explicit options.
///
/// Checks all hash references before anything is changed, corrects escaped
/// tabs, warns on boundary duplication, drops repeated edits, and applies the
/// rest from the bottom of the file upwards. An edit of lines that another edit
/// has removed is an [`EditError::ApplyError`].
pub fn apply_hashline_edits_with_options(
    text: &str,
    edits: &[HashlineEdit],
    options: HashlineApplyOptions,
) -> (r: Result<HashlineEditResult, EditError>)
    ensures
        outcome(r) == edited(text@, edit_views(edits@), options.autocorrect_escaped_tabs),
{
    let ghost es = edit_views(edits@);
    let ghost enabled = options.autocorrect_escaped_tabs;
    if edits.len() == 0 {
        let r = HashlineEditResult {
            text: text.to_owned(),
            first_changed_line: None,
            warnings: Vec::new(),
            noop_edits: Vec::new(),
        };
        assert(r@ =~= edited(text@, es, enabled)->Ok_0);
        return Ok(r);
    }
    let lines = split_on(text, '\n');
    let line_refs = to_refs(&lines);
    let ghost l = lines_of(text@);
    assert(l.len() == lines@.len());
    let tasks = tasks_of(edits);
    let mismatches = match check_tasks(&tasks, &line_refs) {
        Err(e) => {
            return Err(e);
        },
        Ok(ms) => ms,
    };
    assert(mismatch_views(mismatches@).len() == mismatches@.len());
    if mismatches.len() > 0 {
        let context = format_hash_mismatch_error(&mismatches, &line_refs);
        return Err(EditError::HashMismatch { mismatches, context });
    }
    let (ready, mut warnings) = prepare_all(edits, options.autocorrect_escaped_tabs);
    warn_suspicious_unicode(&ready, &mut warnings);
    warn_repeats(&ready, &line_refs, &mut warnings);
    assert(ready@.len() == task_views(ready@).len());
    assert(views(warnings@) == warnings_for(es, task_views(ready@), l, enabled));
    let once = keep_distinct(&ready);
    let n: usize = lines.len();
    assert(once@.len() == entry_views(once@).len());
    let entries = sort_entries(&once, n);
    proof {
        lemma_entries_in_file(es, l, enabled);
        assert forall|i: int| 0 <= i < entries@.len() implies in_file(
            (#[trigger] entries@[i])@.edit,
            n as int,
        ) by {
            assert(entry_views(entries@)[i] == entries@[i]@);
        }
    }
    let start = Progress { lines: copy_texts(&lines), first: None, noops: Vec::new() };
    assert(start@ =~= (ProgressView { lines: l, first: None, noops: Seq::empty() }));
    match apply_entries(start, &entries, &lines) {
        Err(e) => Err(e),
        Ok(p) => {
            let r = HashlineEditResult {
                text: join(&p.lines, "\n"),
                first_changed_line: p.first,
                warnings,
                noop_edits: p.noops,
            };
            assert(r@ =~= edited(text@, es, enabled)->Ok_0);
            Ok(r)
        },
    }
}

/// Applies an array of hashline edits to file content, with the default
/// options.
pub fn apply_hashline_edits(text: &str, edits: &[HashlineEdit]) -> (r: Result<
    HashlineEditResult,
    EditError,
>)
    ensures
        outcome(r) == edited(text@, edit_views(edits@), true),
{
    apply_hashline_edits_with_options(text, edits, HashlineApplyOptions::default())
}

/// A reference as it is displayed, whatever follows it, reads as the line number
/// and the hash of the line.
pub proof fn law_tag_round_trip(n: nat, line: Seq<char>, rest: Seq<char>)
    requires
        1 <= n <= usize::MAX,
    ensures
        tag_of(line_tag(n, line) + rest) == Some(AnchorView { line: n, hash: line_hash(n, line) }),
{
    reveal_strlit("#");
    reveal_strlit("ZPMQVRWSNKTXJBYH");
    assert("#"@ =~= seq!['#']);
    let d = decimal(n);
    let h = line_hash(n, line);
    let s = line_tag(n, line) + rest;
    let tail = h + rest;
    lemma_decimal(n);
    law_decimal_round_trip(n);
    assert(is_digit(d[0]));
    assert(is_digit(d[d.len() - 1]));
    assert(s =~= d + seq!['#'] + tail);
    assert(s[0] == d[0]);
    if d.contains('#') {
        let j = choose|j: int| 0 <= j < d.len() && d[j] == '#';
        assert(is_digit(d[j]));
    }
    lemma_index_after(d, seq!['#'], tail);
    assert(s.take(d.len() as int) =~= d);
    assert(s.skip(d.len() + 1int) =~= tail);
    let b = crc32_of(hash_seed(n, hashed_text(line)), bytes(hashed_text(line))) as int % 256;
    assert(0 <= b / 16 < 16 && 0 <= b % 16 < 16);
    assert(nibbles()[b / 16] == h[0]);
    assert(nibbles()[b % 16] == h[1]);
    assert(tail[0] == h[0] && tail[1] == h[1]);
    assert(tail.take(2) =~= h);
}

/// A reference with the hash of the line that it names is accepted.
pub proof fn law_fresh_reference(lines: Seq<Seq<char>>, n: nat)
    requires
        1 <= n <= lines.len(),
    ensures
        ref_status(AnchorView { line: n, hash: line_hash(n, lines[n - 1]) }, lines) == Ok::<
            (),
            ErrorView,
        >(()),
{
}

/// A reference with another hash than that of the line that it names is refused,
/// with the hash that was expected and the one that the line has.
pub proof fn law_stale_reference(lines: Seq<Seq<char>>, a: AnchorView)
    requires
        1 <= a.line <= lines.len(),
        a.hash != line_hash(a.line, lines[a.line - 1]),
    ensures
        ({
            let m = MismatchView {
                line: a.line,
                expected: a.hash,
                actual: line_hash(a.line, lines[a.line - 1]),
            };
            ref_status(a, lines) == Err::<(), ErrorView>(
                ErrorView::HashMismatch {
                    mismatches: seq![m],
                    context: stale_message(seq![m], lines),
                },
            )
        }),
{
}

/// A tag holds neither a colon nor a line feed.
pub proof fn lemma_tag_plain(n: nat, line: Seq<char>)
    ensures
        !line_tag(n, line).contains(':'),
        !line_tag(n, line).contains('\n'),
{
    reveal_strlit("#");
    reveal_strlit("ZPMQVRWSNKTXJBYH");
    let d = decimal(n);
    let h = line_hash(n, line);
    let tag = line_tag(n, line);
    lemma_decimal(n);
    let b = crc32_of(hash_seed(n, hashed_text(line)), bytes(hashed_text(line))) as int % 256;
    assert(h[0] == nibbles()[b / 16] && h[1] == nibbles()[b % 16]);
    assert forall|j: int| 0 <= j < tag.len() implies tag[j] != ':' && tag[j] != '\n' by {
        if j < d.len() {
            assert(is_digit(d[j]));
        }
    }
}

/// A displayed file has the lines that are displayed.
pub proof fn lemma_display_lines(text: Seq<char>, start: nat)
    ensures
        lines_of(joined(tagged_lines(lines_of(text), start), "\n"@)) == tagged_lines(
            lines_of(text),
            start,
        ),
{
    reveal_strlit("\n");
    reveal_strlit(":");
    assert("\n"@ =~= seq!['\n']);
    let lines = lines_of(text);
    let parts = tagged_lines(lines, start);
    law_pieces_clean(text, '\n');
    lemma_pieces_nonempty(text, '\n');
    assert forall|k: int| 0 <= k < parts.len() implies !(#[trigger] parts[k]).contains('\n') by {
        let tag = line_tag((start + k) as nat, lines[k]);
        lemma_tag_plain((start + k) as nat, lines[k]);
        assert(!lines[k].contains('\n'));
        if parts[k].contains('\n') {
            let j = choose|j: int| 0 <= j < parts[k].len() && parts[k][j] == '\n';
            if j < tag.len() {
                assert(tag[j] == '\n');
            } else {
                assert(lines[k][j - tag.len() - 1] == '\n');
            }
        }
    }
    law_pieces_join(parts, '\n');
}

/// Every line of a displayed file begins with a reference that the file accepts,
/// and there is one such line for each line of the file.
pub proof fn law_display_references(text: Seq<char>, i: int)
    requires
        0 <= i < lines_of(text).len(),
        lines_of(text).len() <= usize::MAX,
    ensures
        ({
            let shown = lines_of(joined(tagged_lines(lines_of(text), 1), "\n"@));
            &&& shown.len() == lines_of(text).len()
            &&& shown[i] == tagged_line((1 + i) as nat, lines_of(text)[i])
            &&& tag_of(shown[i]) matches Some(a) && ref_status(a, lines_of(text)) is Ok
        }),
{
    let lines = lines_of(text);
    lemma_display_lines(text, 1);
    let n = (1 + i) as nat;
    law_tag_round_trip(n, lines[i], ":"@ + lines[i]);
    assert(tagged_line(n, lines[i]) =~= line_tag(n, lines[i]) + (":"@ + lines[i]));
    law_fresh_reference(lines, n);
}

/// Carriage returns and trailing white space do not change the hash of a line.
pub proof fn law_hash_ignores_trailing(idx: nat, line: Seq<char>, space: Seq<char>)
    requires
        all_white(space),
    ensures
        line_hash(idx, line + space) == line_hash(idx, line),
        line_hash(idx, replaced(line, "\r"@, ""@)) == line_hash(idx, line),
{
    reveal_strlit("\r");
    reveal_strlit("");
    assert("\r"@ =~= seq!['\r']);
    let none = ""@;
    assert(none =~= Seq::<char>::empty());
    lemma_replaced_add(line, space, '\r', none);
    let left = replaced(space, seq!['\r'], none);
    lemma_dropped_white(space);
    lemma_trimmed_end_add(replaced(line, seq!['\r'], none), left);
    lemma_replaced_gone(line, '\r', none);
    lemma_replaced_absent(replaced(line, seq!['\r'], none), seq!['\r'], none);
}

/// White space without its carriage returns is white space.
proof fn lemma_dropped_white(space: Seq<char>)
    requires
        forall|i: int| 0 <= i < space.len() ==> is_white(#[trigger] space[i]),
    ensures
        forall|i: int|
            0 <= i < replaced(space, seq!['\r'], ""@).len() ==> is_white(
                #[trigger] replaced(space, seq!['\r'], ""@)[i],
            ),
    decreases space.len(),
{
    reveal_strlit("");
    lemma_index_from(space, seq!['\r'], 0);
    match index_from(space, seq!['\r'], 0) {
        Some(k) => {
            lemma_before_first(space, '\r', k);
            let rest = space.skip(k + 1);
            assert forall|i: int| 0 <= i < rest.len() implies is_white(#[trigger] rest[i]) by {
                assert(rest[i] == space[k + 1 + i]);
            }
            lemma_dropped_white(rest);
            let r = replaced(space, seq!['\r'], ""@);
            let tail = replaced(rest, seq!['\r'], ""@);
            assert(r =~= space.take(k) + tail);
            assert forall|i: int| 0 <= i < r.len() implies is_white(#[trigger] r[i]) by {
                if i < k {
                    assert(r[i] == space[i]);
                } else {
                    assert(r[i] == tail[i - k]);
                }
            }
        },
        None => {},
    }
}

/// The hash of a line with a letter or a digit does not depend on where the line
/// stands.
pub proof fn law_hash_of_significant(i: nat, j: nat, line: Seq<char>)
    requires
        is_significant(hashed_text(line)),
    ensures
        line_hash(i, line) == line_hash(j, line),
{
}

/// Where some edit has a reference that is stale or names no line, nothing is
/// edited.
pub proof fn law_stale_edits_refused(text: Seq<char>, edits: Seq<EditView>, enabled: bool, i: int)
    requires
        0 <= i < edits.len(),
        edit_check(edits[i], lines_of(text)) != Ok::<Seq<MismatchView>, ErrorView>(Seq::empty()),
    ensures
        edited(text, edits, enabled) is Err,
{
    let lines = lines_of(text);
    let checked = edits_check(edits, lines, 0, Seq::empty());
    lemma_checks(edits, lines, 0, Seq::empty());
    match checked {
        Err(_) => {},
        Ok(ms) => {
            let here = edit_check(edits[i], lines)->Ok_0;
            assert(edit_check(edits[i], lines) is Ok);
            if here.len() == 0 {
                assert(here =~= Seq::<MismatchView>::empty());
            }
            assert(ms.contains(edit_check(edits[i], lines)->Ok_0[0]));
            assert(ms.len() > 0);
        },
    }
}

/// Where every reference names a line and some are stale, the refusal reports
/// them, in the order of the edits.
pub proof fn law_stale_edits_reported(text: Seq<char>, edits: Seq<EditView>, enabled: bool, i: int)
    requires
        0 <= i < edits.len(),
        forall|k: int| 0 <= k < edits.len() ==> edit_check(#[trigger] edits[k], lines_of(text)) is Ok,
        edit_check(edits[i], lines_of(text))->Ok_0.len() > 0,
    ensures
        ({
            let found = edits_check(edits, lines_of(text), 0, Seq::empty())->Ok_0;
            &&& edited(text, edits, enabled) == Err::<EditedView, ErrorView>(
                ErrorView::HashMismatch {
                    mismatches: found,
                    context: stale_message(found, lines_of(text)),
                },
            )
            &&& forall|k: int, j: int|
                0 <= k < edits.len() && 0 <= j < edit_check(edits[k], lines_of(text))->Ok_0.len()
                    ==> found.contains(
                    #[trigger] edit_check(edits[k], lines_of(text))->Ok_0[j],
                )
        }),
{
    let lines = lines_of(text);
    lemma_checks(edits, lines, 0, Seq::empty());
    let found = edits_check(edits, lines, 0, Seq::empty())->Ok_0;
    let m = edit_check(edits[i], lines)->Ok_0[0];
    assert(found.contains(m));
}

/// What the check of some edits finds, and when it succeeds.
proof fn lemma_checks(edits: Seq<EditView>, lines: Seq<Seq<char>>, i: int, found: Seq<MismatchView>)
    requires
        0 <= i <= edits.len(),
    ensures
        edits_check(edits, lines, i, found) is Ok <==> forall|k: int|
            i <= k < edits.len() ==> edit_check(#[trigger] edits[k], lines) is Ok,
        edits_check(edits, lines, i, found) matches Ok(ms) ==> {
            &&& found.is_prefix_of(ms)
            &&& forall|k: int, j: int|
                i <= k < edits.len() && 0 <= j < edit_check(edits[k], lines)->Ok_0.len()
                    ==> ms.contains(#[trigger] edit_check(edits[k], lines)->Ok_0[j])
        },
    decreases edits.len() - i,
{
    if i < edits.len() {
        match edit_check(edits[i], lines) {
            Err(_) => {},
            Ok(here) => {
                lemma_checks(edits, lines, i + 1, found + here);
                if edits_check(edits, lines, i, found) is Ok {
                    let ms = edits_check(edits, lines, i, found)->Ok_0;
                    assert(found.is_prefix_of(found + here));
                    assert(found =~= ms.take(found.len() as int)) by {
                        assert((found + here).take(found.len() as int) =~= found);
                        assert(ms.take((found + here).len() as int).take(found.len() as int)
                            =~= ms.take(found.len() as int));
                    }
                    assert forall|k: int, j: int|
                        i <= k < edits.len() && 0 <= j < edit_check(edits[k], lines)->Ok_0.len()
                        implies ms.contains(#[trigger] edit_check(edits[k], lines)->Ok_0[j]) by {
                        if k == i {
                            assert((found + here)[found.len() + j] == here[j]);
                            assert(ms[found.len() + j] == here[j]);
                        }
                    }
                }
            },
        }
    }
}

/// Whether an edit writes the line that it replaces.
pub open spec fn keeps_line(e: EditView, original: Seq<Seq<char>>) -> bool {
    e.kind == EditKind::ReplaceLine && e.lines == seq![original[e.pos.line - 1]]
}

/// A single edit whose references are fresh replaces the lines of its span with
/// its own, and leaves all others as they are.
pub proof fn law_single_edit(text: Seq<char>, e: EditView, enabled: bool)
    requires
        edit_check(e, lines_of(text)) == Ok::<Seq<MismatchView>, ErrorView>(Seq::empty()),
    ensures
        ({
            let lines = lines_of(text);
            let ready = prepared(e, enabled);
            let only_empty = lines.len() == 1 && lines[0].len() == 0;
            let (a, b) = edit_span(ready, lines.len() as int, only_empty);
            edited(text, seq![e], enabled) matches Ok(r) && r.text == (if keeps_line(ready, lines) {
                text
            } else {
                joined(spliced(lines, a, b, ready.lines), "\n"@)
            })
        }),
{
    reveal_strlit("\n");
    assert("\n"@ =~= seq!['\n']);
    let lines = lines_of(text);
    let n = lines.len() as int;
    let edits = seq![e];
    let ready = prepared_all(edits, enabled);
    let once = distinct_edits(ready);
    law_join_pieces(text, '\n');
    lemma_pieces_nonempty(text, '\n');
    assert(Seq::<MismatchView>::empty() + Seq::<MismatchView>::empty() =~= Seq::<
        MismatchView,
    >::empty());
    assert(edits_check(edits, lines, 1, Seq::empty()) == Ok::<Seq<MismatchView>, ErrorView>(
        Seq::empty(),
    ));
    assert(edits_check(edits, lines, 0, Seq::empty()) == Ok::<Seq<MismatchView>, ErrorView>(
        Seq::empty(),
    ));
    assert(ready.len() == 1 && ready[0] == prepared(e, enabled));
    assert(ready.drop_last() =~= Seq::<EditView>::empty());
    assert(distinct_edits(Seq::<EditView>::empty()) =~= Seq::<EntryView>::empty());
    let entry = EntryView { index: 0, edit: ready[0] };
    assert(once =~= seq![entry]);
    let entries = ordered(once, n, 1);
    assert(ordered(once, n, 0) =~= Seq::<EntryView>::empty());
    assert(entries =~= seq![entry]);
    let start = ProgressView { lines, first: None, noops: Seq::empty() };
    let q = edit_applied(start, entry, lines);
    assert(edits_applied(q->Ok_0, entries, lines, 1) == Ok::<ProgressView, ErrorView>(q->Ok_0));
    if e.kind == EditKind::ReplaceRange {
        assert(anchor_check(e.pos, lines) is Ok && anchor_check(e.end, lines) is Ok);
        if e.pos.line > e.end.line {
            let a = anchor_check(e.pos, lines)->Ok_0;
            let b = anchor_check(e.end, lines)->Ok_0;
            assert(some_of(a) + some_of(b) =~= Seq::<MismatchView>::empty());
            assert(some_of(a).len() == 0 && some_of(b).len() == 0);
        }
    }
    assert(q is Ok);
}

/// The place of an edit in the order, once the earlier ones are in it.
proof fn lemma_slot_order(sorted: Seq<EntryView>, e: EditView, n: int, i: int)
    requires
        0 <= i <= sorted.len(),
        forall|j: int| 0 <= j < i ==> !goes_first(e, (#[trigger] sorted[j]).edit, n),
    ensures
        i <= slot(sorted, e, n, i) <= sorted.len(),
        forall|j: int|
            0 <= j < slot(sorted, e, n, i) ==> !goes_first(e, (#[trigger] sorted[j]).edit, n),
        slot(sorted, e, n, i) < sorted.len() ==> goes_first(
            e,
            sorted[slot(sorted, e, n, i)].edit,
            n,
        ),
    decreases sorted.len() - i,
{
    if i < sorted.len() && !goes_first(e, sorted[i].edit, n) {
        lemma_slot_order(sorted, e, n, i + 1);
    }
}

/// The same for the first `k` of edits whose indices ascend.
proof fn lemma_order(entries: Seq<EntryView>, n: int, k: int)
    requires
        0 <= k <= entries.len(),
        forall|i: int, j: int|
            0 <= i < j < entries.len() ==> (#[trigger] entries[i]).index < (
            #[trigger] entries[j]).index,
    ensures
        forall|i: int, j: int|
            0 <= i < j < k ==> comes_before(
                #[trigger] ordered(entries, n, k)[i],
                #[trigger] ordered(entries, n, k)[j],
                n,
            ),
    decreases k,
{
    if k > 0 {
        lemma_order(entries, n, k - 1);
        lemma_ordered_same(entries, n, k - 1);
        let before = ordered(entries, n, k - 1);
        let new = entries[k - 1];
        let at = slot(before, new.edit, n, 0);
        let all = ordered(entries, n, k);
        lemma_slot_order(before, new.edit, n, 0);
        assert(all == before.insert(at, new));
        assert forall|i: int| 0 <= i < before.len() implies (#[trigger] before[i]).index
            < new.index by {
            assert(before.contains(before[i]));
            assert(entries.take(k - 1).contains(before[i]));
        }
        assert forall|i: int, j: int| 0 <= i < j < k implies comes_before(
            #[trigger] all[i],
            #[trigger] all[j],
            n,
        ) by {
            if i < at {
                assert(all[i] == before[i]);
                if j < at {
                    assert(all[j] == before[j]);
                } else if j > at {
                    assert(all[j] == before[j - 1]);
                }
            } else if i == at {
                assert(all[j] == before[j - 1]);
                if j - 1 > at {
                    assert(comes_before(before[at], before[j - 1], n));
                }
            } else {
                assert(all[i] == before[i - 1]);
                assert(all[j] == before[j - 1]);
            }
        }
    }
}

/// Edits are applied from the bottom of the file upwards, each once; those on one
/// line by their precedence, and those of one precedence as they were given.
pub proof fn law_order(edits: Seq<EditView>, n: int)
    ensures
        ({
            let once = distinct_edits(edits);
            let all = ordered(once, n, once.len() as int);
            &&& all.to_multiset() == once.to_multiset()
            &&& forall|i: int, j: int|
                0 <= i < j < all.len() ==> comes_before(#[trigger] all[i], #[trigger] all[j], n)
        }),
{
    let once = distinct_edits(edits);
    law_distinct(edits);
    lemma_order(once, n, once.len() as int);
    lemma_ordered_same(once, n, once.len() as int);
    assert(once.take(once.len() as int) =~= once);
}

/// Whether `a` is applied before `b`.
pub open spec fn comes_before(a: EntryView, b: EntryView, n: int) -> bool {
    goes_first(a.edit, b.edit, n) || (!goes_first(b.edit, a.edit, n) && a.index < b.index)
}

/// The first `m` lines of a file with the edits from `i` on made at once: each
/// span replaced, and what stands between the spans kept.
pub open spec fn woven(
    original: Seq<Seq<char>>,
    entries: Seq<EntryView>,
    i: int,
    m: int,
) -> Seq<Seq<char>>
    decreases entries.len() - i,
{
    if i >= entries.len() {
        original.take(m)
    } else {
        let (a, b) = edit_span(entries[i].edit, original.len() as int, false);
        woven(original, entries, i + 1, a) + entries[i].edit.lines + original.subrange(b, m)
    }
}

/// Whether the spans of the edits from `i` on are lines of the file above line
/// `m`, each above the one before it.
pub open spec fn apart(original: Seq<Seq<char>>, entries: Seq<EntryView>, i: int, m: int) -> bool
    decreases entries.len() - i,
{
    if i >= entries.len() {
        0 <= m <= original.len()
    } else {
        let e = entries[i].edit;
        let (a, b) = edit_span(e, original.len() as int, false);
        &&& e.kind != EditKind::AppendFile
        &&& e.kind != EditKind::PrependFile
        &&& 0 <= a <= b <= m <= original.len()
        &&& apart(original, entries, i + 1, a)
    }
}

/// Edits whose spans do not overlap do not disturb one another: the result is
/// the file with all of them made at once.
#[verifier::spinoff_prover]
#[verifier::rlimit(40)]
pub proof fn law_edits_apart(
    p: ProgressView,
    original: Seq<Seq<char>>,
    entries: Seq<EntryView>,
    i: int,
    m: int,
)
    requires
        0 <= i,
        m <= p.lines.len(),
        apart(original, entries, i, m),
        p.lines.take(m) == original.take(m),
    ensures
        edits_applied(p, entries, original, i) matches Ok(q) && q.lines == woven(
            original,
            entries,
            i,
            m,
        ) + p.lines.skip(m),
    decreases entries.len() - i,
{
    if i >= entries.len() {
        assert(p.lines =~= p.lines.take(m) + p.lines.skip(m));
    } else {
        let e = entries[i].edit;
        let (a, b) = edit_span(e, original.len() as int, false);
        let q = edit_applied(p, entries[i], original)->Ok_0;
        assert(edit_applied(p, entries[i], original) is Ok);
        assert forall|k: int| 0 <= k < m implies p.lines[k] == original[k] by {
            assert(p.lines.take(m)[k] == original.take(m)[k]);
        }
        if keeps_line(e, original) {
            assert(e.lines =~= original.subrange(a, b));
            assert(q.lines =~= p.lines.take(a) + e.lines + p.lines.skip(b));
        }
        assert(q.lines =~= p.lines.take(a) + e.lines + p.lines.skip(b));
        assert(q.lines.take(a) =~= original.take(a));
        law_edits_apart(q, original, entries, i + 1, a);
        assert(q.lines.skip(a) =~= e.lines + original.subrange(b, m) + p.lines.skip(m));
        assert(woven(original, entries, i, m) + p.lines.skip(m) =~= woven(
            original,
            entries,
            i + 1,
            a,
        ) + q.lines.skip(a));
    }
}

/// So a file that is edited in places that do not overlap is the file with all
/// of the edits made at once.
pub proof fn law_edited_apart(text: Seq<char>, edits: Seq<EditView>, enabled: bool)
    requires
        edits.len() > 0,
        edits_check(edits, lines_of(text), 0, Seq::empty()) == Ok::<Seq<MismatchView>, ErrorView>(
            Seq::empty(),
        ),
        apart(
            lines_of(text),
            applied_order(text, edits, enabled),
            0,
            lines_of(text).len() as int,
        ),
    ensures
        edited(text, edits, enabled) matches Ok(r) && r.text == joined(
            woven(
                lines_of(text),
                applied_order(text, edits, enabled),
                0,
                lines_of(text).len() as int,
            ),
            "\n"@,
        ),
{
    let lines = lines_of(text);
    let start = ProgressView { lines, first: None, noops: Seq::empty() };
    let entries = applied_order(text, edits, enabled);
    law_edits_apart(start, lines, entries, 0, lines.len() as int);
    assert(woven(lines, entries, 0, lines.len() as int) + lines.skip(lines.len() as int) =~= woven(
        lines,
        entries,
        0,
        lines.len() as int,
    ));
}

/// The edits of a text in the order in which they are applied.
pub open spec fn applied_order(text: Seq<char>, edits: Seq<EditView>, enabled: bool) -> Seq<
    EntryView,
> {
    let once = distinct_edits(prepared_all(edits, enabled));
    ordered(once, lines_of(text).len() as int, once.len() as int)
}

/// What a display says of a line can be used to replace it: with the reference
/// at the beginning of the displayed line, that line gives way to the new ones,
/// and every other line stays.
pub proof fn law_edit_by_display(text: Seq<char>, i: int, new: Seq<Seq<char>>)
    requires
        0 <= i < lines_of(text).len(),
        lines_of(text).len() <= usize::MAX,
        new != seq![lines_of(text)[i]],
    ensures
        ({
            let shown = lines_of(joined(tagged_lines(lines_of(text), 1), "\n"@));
            let a = tag_of(shown[i])->0;
            let e = EditView { kind: EditKind::ReplaceLine, pos: a, end: a, lines: new };
            edited(text, seq![e], false) matches Ok(r) && r.text == joined(
                spliced(lines_of(text), i, i + 1, new),
                "\n"@,
            )
        }),
{
    reveal_strlit(":");
    let lines = lines_of(text);
    let n = (1 + i) as nat;
    let shown = lines_of(joined(tagged_lines(lines, 1), "\n"@));
    law_display_references(text, i);
    law_tag_round_trip(n, lines[i], ":"@ + lines[i]);
    assert(tagged_line(n, lines[i]) =~= line_tag(n, lines[i]) + (":"@ + lines[i]));
    let a = tag_of(shown[i])->0;
    assert(a == AnchorView { line: n, hash: line_hash(n, lines[i]) });
    let e = EditView { kind: EditKind::ReplaceLine, pos: a, end: a, lines: new };
    assert(edit_check(e, lines) == Ok::<Seq<MismatchView>, ErrorView>(Seq::empty()));
    law_single_edit(text, e, false);
    assert(prepared(e, false).lines == new);
}

/// Edits that all keep their line change nothing and are reported one by one; any
/// other edit has a first changed line.
proof fn lemma_applied_first(
    p: ProgressView,
    entries: Seq<EntryView>,
    original: Seq<Seq<char>>,
    i: int,
)
    requires
        0 <= i <= entries.len(),
        edits_applied(p, entries, original, i) is Ok,
    ensures
        ({
            let q = edits_applied(p, entries, original, i)->Ok_0;
            let kept = forall|k: int|
                i <= k < entries.len() ==> keeps_line((#[trigger] entries[k]).edit, original);
            &&& q.first is None <==> p.first is None && kept
            &&& kept ==> q.lines == p.lines && q.noops.len() == p.noops.len() + (entries.len() - i)
        }),
    decreases entries.len() - i,
{
    if i < entries.len() {
        let x = edit_applied(p, entries[i], original)->Ok_0;
        lemma_applied_first(x, entries, original, i + 1);
        let q = edits_applied(p, entries, original, i)->Ok_0;
        assert(q == edits_applied(x, entries, original, i + 1)->Ok_0);
        if keeps_line(entries[i].edit, original) {
            assert(x.first == p.first && x.lines == p.lines);
        } else {
            assert(x.first is Some);
            assert(q.first is Some);
        }
    }
}

/// The edits in the order in which they are applied are the edits, up to repeated
/// ones.
proof fn lemma_applied_order(text: Seq<char>, edits: Seq<EditView>, enabled: bool)
    ensures
        ({
            let entries = applied_order(text, edits, enabled);
            let ready = prepared_all(edits, enabled);
            &&& entries.len() == distinct_edits(ready).len()
            &&& forall|k: int|
                0 <= k < entries.len() ==> (#[trigger] entries[k]).index < edits.len()
                    && entries[k].edit == ready[entries[k].index as int]
            &&& forall|i: int| 0 <= i < ready.len() ==> repeats_earlier(entries, #[trigger] ready[i])
        }),
{
    let n = lines_of(text).len() as int;
    let ready = prepared_all(edits, enabled);
    let once = distinct_edits(ready);
    let entries = applied_order(text, edits, enabled);
    law_distinct(ready);
    lemma_ordered_same(once, n, once.len() as int);
    assert(once.take(once.len() as int) =~= once);
    assert forall|k: int| 0 <= k < entries.len() implies (#[trigger] entries[k]).index
        < edits.len() && entries[k].edit == ready[entries[k].index as int] by {
        assert(entries.contains(entries[k]));
        assert(once.take(once.len() as int).contains(entries[k]));
    }
    assert forall|i: int| 0 <= i < ready.len() implies repeats_earlier(
        entries,
        #[trigger] ready[i],
    ) by {
        assert(repeats_earlier(once, ready[i]));
        let k = choose|k: int|
            0 <= k < once.len() && same_effect((#[trigger] once[k]).edit, ready[i]);
        assert(once.take(once.len() as int).contains(once[k]));
        assert(entries.contains(once[k]));
        let j = choose|j: int| 0 <= j < entries.len() && entries[j] == once[k];
        assert(same_effect(entries[j].edit, ready[i]));
    }
}

/// An edit that does the same as one that keeps its line keeps it too.
proof fn lemma_keeps_alike(text: Seq<char>, edits: Seq<EditView>, j: int, b: EditView)
    requires
        edits_check(edits, lines_of(text), 0, Seq::empty()) matches Ok(ms) && ms.len() == 0,
        0 <= j < edits.len(),
        keeps_line(edits[j], lines_of(text)),
        same_effect(edits[j], b),
    ensures
        keeps_line(b, lines_of(text)),
{
    let a = edits[j];
    let lines = lines_of(text);
    lemma_clean_check(edits, lines, j);
    law_pieces_clean(text, '\n');
    reveal_strlit("\n");
    assert("\n"@ =~= seq!['\n']);
    assert(1 <= a.pos.line <= lines.len());
    let line = lines[a.pos.line - 1];
    assert(joined(a.lines, "\n"@) == line);
    if b.lines.len() == 1 {
        assert(b.lines =~= seq![line]);
    } else {
        let head = joined(b.lines.drop_last(), "\n"@);
        assert(line == head + "\n"@ + b.lines.last());
        assert(line[head.len() as int] == '\n');
    }
}

/// There is no first changed line where every edit writes the line that it
/// replaces, and only there; the text is then as it was, and something is
/// reported where there is an edit.
pub proof fn law_first_changed(text: Seq<char>, edits: Seq<EditView>)
    requires
        edited(text, edits, false) is Ok,
    ensures
        ({
            let r = edited(text, edits, false)->Ok_0;
            let kept = forall|i: int|
                0 <= i < edits.len() ==> keeps_line(#[trigger] edits[i], lines_of(text));
            &&& r.first is None <==> kept
            &&& kept ==> r.text == text
            &&& kept ==> (r.noops.len() == 0 <==> edits.len() == 0)
        }),
{
    if edits.len() > 0 {
        reveal_strlit("\n");
        assert("\n"@ =~= seq!['\n']);
        let lines = lines_of(text);
        let r = edited(text, edits, false)->Ok_0;
        let ready = prepared_all(edits, false);
        let entries = applied_order(text, edits, false);
        let start = ProgressView { lines, first: None, noops: Seq::empty() };
        lemma_applied_order(text, edits, false);
        assert(edits_applied(start, entries, lines, 0) is Ok);
        lemma_applied_first(start, entries, lines, 0);
        law_join_pieces(text, '\n');
        assert(repeats_earlier(entries, ready[0]));
        let all_kept = forall|k: int|
            0 <= k < entries.len() ==> keeps_line((#[trigger] entries[k]).edit, lines);
        if all_kept {
            assert forall|i: int| 0 <= i < edits.len() implies keeps_line(
                #[trigger] edits[i],
                lines,
            ) by {
                assert(repeats_earlier(entries, ready[i]));
                let k = choose|k: int|
                    0 <= k < entries.len() && same_effect((#[trigger] entries[k]).edit, ready[i]);
                assert(keeps_line(entries[k].edit, lines));
                lemma_keeps_alike(text, edits, entries[k].index as int, edits[i]);
            }
        } else {
            let k = choose|k: int|
                0 <= k < entries.len() && !keeps_line((#[trigger] entries[k]).edit, lines);
            assert(!keeps_line(edits[entries[k].index as int], lines));
        }
    }
}

/// Whether two edits refer to different lines of a file. Two edits of its end, or
/// of its beginning, do not.
pub open spec fn refers_elsewhere(a: EditView, b: EditView) -> bool {
    let a_file = a.kind == EditKind::AppendFile || a.kind == EditKind::PrependFile;
    let b_file = b.kind == EditKind::AppendFile || b.kind == EditKind::PrependFile;
    if a_file || b_file {
        a.kind != b.kind
    } else {
        a.end.line < b.pos.line || b.end.line < a.pos.line
    }
}

/// Whether no two edits refer to the same line.
pub open spec fn are_disjoint(edits: Seq<EditView>) -> bool {
    forall|i: int, j: int|
        0 <= i < j < edits.len() ==> refers_elsewhere(#[trigger] edits[i], #[trigger] edits[j])
}

/// Disjoint edits of a file have different lines by which they are ordered.
proof fn lemma_disjoint_lines(a: EditView, b: EditView, n: int)
    requires
        refers_elsewhere(a, b),
        in_file(a, n),
        in_file(b, n),
        n >= 0,
    ensures
        sort_line(a, n) != sort_line(b, n),
{
}

/// Disjoint edits are all kept.
proof fn lemma_disjoint_kept(edits: Seq<EditView>, enabled: bool, n: int)
    requires
        are_disjoint(edits),
        forall|i: int| 0 <= i < edits.len() ==> in_file(#[trigger] edits[i], n),
        n >= 0,
    ensures
        ({
            let ready = prepared_all(edits, enabled);
            &&& distinct_edits(ready).len() == edits.len()
            &&& forall|i: int|
                0 <= i < edits.len() ==> #[trigger] distinct_edits(ready)[i] == (EntryView {
                    index: i as nat,
                    edit: ready[i],
                })
            &&& forall|i: int, j: int|
                0 <= i < ready.len() && 0 <= j < ready.len() && i != j ==> sort_line(
                    #[trigger] ready[i],
                    n,
                ) != sort_line(#[trigger] ready[j], n)
        }),
{
    let ready = prepared_all(edits, enabled);
    assert forall|i: int, j: int|
        0 <= i < ready.len() && 0 <= j < ready.len() && i != j implies sort_line(
        #[trigger] ready[i],
        n,
    ) != sort_line(#[trigger] ready[j], n) by {
        if i < j {
            lemma_disjoint_lines(edits[i], edits[j], n);
        } else {
            lemma_disjoint_lines(edits[j], edits[i], n);
        }
    }
    assert forall|i: int, j: int|
        0 <= i < ready.len() && 0 <= j < ready.len() && i != j implies !same_effect(
        #[trigger] ready[i],
        #[trigger] ready[j],
    ) by {
        assert(sort_line(ready[i], n) != sort_line(ready[j], n));
    }
    lemma_all_distinct(ready);
}

/// Disjoint edits of a file are ordered by their lines alone.
proof fn lemma_disjoint_order(text: Seq<char>, edits: Seq<EditView>, enabled: bool)
    requires
        are_disjoint(edits),
        forall|i: int|
            0 <= i < edits.len() ==> in_file(#[trigger] edits[i], lines_of(text).len() as int),
    ensures
        ({
            let n = lines_of(text).len() as int;
            let entries = applied_order(text, edits, enabled);
            &&& entries.len() == edits.len()
            &&& forall|i: int, j: int|
                0 <= i < j < entries.len() ==> sort_line((#[trigger] entries[i]).edit, n)
                    > sort_line((#[trigger] entries[j]).edit, n)
        }),
{
    let n = lines_of(text).len() as int;
    let ready = prepared_all(edits, enabled);
    let entries = applied_order(text, edits, enabled);
    lemma_applied_order(text, edits, enabled);
    law_order(ready, n);
    lemma_disjoint_kept(edits, enabled, n);
    assert forall|i: int, j: int| 0 <= i < j < entries.len() implies sort_line(
        (#[trigger] entries[i]).edit,
        n,
    ) > sort_line((#[trigger] entries[j]).edit, n) by {
        assert(comes_before(entries[i], entries[j], n));
        let a = entries[i].index as int;
        let b = entries[j].index as int;
        assert(entries[i].edit == ready[a] && entries[j].edit == ready[b]);
        if a != b {
            assert(sort_line(ready[a], n) != sort_line(ready[b], n));
        }
    }
}

/// The edits that are applied are those that were given, where they are disjoint.
proof fn lemma_disjoint_held(text: Seq<char>, edits: Seq<EditView>, enabled: bool, x: EditView)
    requires
        are_disjoint(edits),
        forall|i: int|
            0 <= i < edits.len() ==> in_file(#[trigger] edits[i], lines_of(text).len() as int),
    ensures
        holds_edit(applied_order(text, edits, enabled), x) <==> exists|i: int|
            0 <= i < edits.len() && prepared(#[trigger] edits[i], enabled) == x,
{
    let n = lines_of(text).len() as int;
    let ready = prepared_all(edits, enabled);
    let once = distinct_edits(ready);
    let entries = applied_order(text, edits, enabled);
    lemma_applied_order(text, edits, enabled);
    lemma_disjoint_kept(edits, enabled, n);
    lemma_ordered_same(once, n, once.len() as int);
    assert(once.take(once.len() as int) =~= once);
    if holds_edit(entries, x) {
        let k = choose|k: int| 0 <= k < entries.len() && (#[trigger] entries[k]).edit == x;
        let i = entries[k].index as int;
        assert(ready[i] == x);
        assert(prepared(edits[i], enabled) == x);
    }
    if exists|i: int| 0 <= i < edits.len() && prepared(#[trigger] edits[i], enabled) == x {
        let i = choose|i: int| 0 <= i < edits.len() && prepared(#[trigger] edits[i], enabled) == x;
        assert(once[i].edit == ready[i]);
        assert(once.take(once.len() as int).contains(once[i]));
        assert(entries.contains(once[i]));
        let k = choose|k: int| 0 <= k < entries.len() && entries[k] == once[i];
        assert(entries[k].edit == x);
    }
}

/// Whether an edit is among the entries.
pub open spec fn holds_edit(entries: Seq<EntryView>, x: EditView) -> bool {
    exists|k: int| 0 <= k < entries.len() && (#[trigger] entries[k]).edit == x
}

/// Edits of which no two do the same are all kept.
proof fn lemma_all_distinct(edits: Seq<EditView>)
    requires
        forall|i: int, j: int|
            0 <= i < edits.len() && 0 <= j < edits.len() && i != j ==> !same_effect(
                #[trigger] edits[i],
                #[trigger] edits[j],
            ),
    ensures
        distinct_edits(edits).len() == edits.len(),
        forall|i: int|
            0 <= i < edits.len() ==> #[trigger] distinct_edits(edits)[i] == (EntryView {
                index: i as nat,
                edit: edits[i],
            }),
    decreases edits.len(),
{
    if edits.len() > 0 {
        let rest = edits.drop_last();
        assert forall|i: int, j: int|
            0 <= i < rest.len() && 0 <= j < rest.len() && i != j implies !same_effect(
            #[trigger] rest[i],
            #[trigger] rest[j],
        ) by {
            assert(!same_effect(edits[i], edits[j]));
        }
        lemma_all_distinct(rest);
        let before = distinct_edits(rest);
        if repeats_earlier(before, edits.last()) {
            let k = choose|k: int|
                0 <= k < before.len() && same_effect((#[trigger] before[k]).edit, edits.last());
            assert(same_effect(edits[k], edits[edits.len() - 1]));
        }
    }
}

/// Entries with the same edits in strictly descending order of their lines have
/// them in the same order.
proof fn lemma_descending(a: Seq<EntryView>, b: Seq<EntryView>, n: int, i: int)
    requires
        0 <= i <= a.len(),
        a.len() == b.len(),
        forall|j: int, k: int|
            0 <= j < k < a.len() ==> sort_line((#[trigger] a[j]).edit, n) > sort_line(
                (#[trigger] a[k]).edit,
                n,
            ),
        forall|j: int, k: int|
            0 <= j < k < b.len() ==> sort_line((#[trigger] b[j]).edit, n) > sort_line(
                (#[trigger] b[k]).edit,
                n,
            ),
        forall|x: EditView| holds_edit(a, x) <==> #[trigger] holds_edit(b, x),
    ensures
        forall|k: int| 0 <= k < i ==> (#[trigger] a[k]).edit == b[k].edit,
    decreases i,
{
    if i > 0 {
        lemma_descending(a, b, n, i - 1);
        let x = a[i - 1].edit;
        let y = b[i - 1].edit;
        assert(holds_edit(a, x));
        assert(holds_edit(b, x));
        let k = choose|k: int| 0 <= k < b.len() && (#[trigger] b[k]).edit == x;
        if k < i - 1 {
            assert(a[k].edit == b[k].edit);
            assert(sort_line(a[k].edit, n) > sort_line(a[i - 1].edit, n));
        }
        assert(holds_edit(b, y));
        assert(holds_edit(a, y));
        let j = choose|j: int| 0 <= j < a.len() && (#[trigger] a[j]).edit == y;
        if j < i - 1 {
            assert(a[j].edit == b[j].edit);
            assert(sort_line(b[j].edit, n) > sort_line(b[i - 1].edit, n));
        }
        if k > i - 1 {
            assert(sort_line(b[i - 1].edit, n) > sort_line(b[k].edit, n));
            if j > i - 1 {
                assert(sort_line(a[i - 1].edit, n) > sort_line(a[j].edit, n));
            }
        }
    }
}

/// The same edits do the same to the lines, whatever their indices.
proof fn lemma_same_edits(
    p: ProgressView,
    q: ProgressView,
    a: Seq<EntryView>,
    b: Seq<EntryView>,
    original: Seq<Seq<char>>,
    i: int,
)
    requires
        0 <= i <= a.len(),
        a.len() == b.len(),
        forall|k: int| 0 <= k < a.len() ==> (#[trigger] a[k]).edit == b[k].edit,
        p.lines == q.lines,
        p.first == q.first,
        edits_applied(p, a, original, i) is Ok,
    ensures
        edits_applied(q, b, original, i) is Ok,
        edits_applied(q, b, original, i)->Ok_0.lines == edits_applied(p, a, original, i)->Ok_0.lines,
        edits_applied(q, b, original, i)->Ok_0.first == edits_applied(p, a, original, i)->Ok_0.first,
    decreases a.len() - i,
{
    if i < a.len() {
        assert(a[i].edit == b[i].edit);
        let x = edit_applied(p, a[i], original)->Ok_0;
        let y = edit_applied(q, b[i], original)->Ok_0;
        assert(edit_applied(q, b[i], original) is Ok);
        lemma_same_edits(x, y, a, b, original, i + 1);
    }
}

/// References mean the lines as they were: edits of disjoint lines give the same
/// text and the same first changed line in whatever order they are given.
pub proof fn law_permuted(
    text: Seq<char>,
    edits: Seq<EditView>,
    permuted: Seq<EditView>,
    enabled: bool,
)
    requires
        forall|i: int| 0 <= i < edits.len() ==> is_edit(#[trigger] edits[i]),
        are_disjoint(edits),
        permuted.to_multiset() == edits.to_multiset(),
        edited(text, edits, enabled) is Ok,
    ensures
        edited(text, permuted, enabled) is Ok,
        edited(text, permuted, enabled)->Ok_0.text == edited(text, edits, enabled)->Ok_0.text,
        edited(text, permuted, enabled)->Ok_0.first == edited(text, edits, enabled)->Ok_0.first,
{
    broadcast use vstd::seq_lib::group_to_multiset_ensures;

    let lines = lines_of(text);
    let n = lines.len() as int;
    assert(permuted.len() == edits.len()) by {
        assert(permuted.to_multiset().len() == permuted.len());
        assert(edits.to_multiset().len() == edits.len());
    }
    if edits.len() > 0 {
        lemma_checked(edits, lines, 0, Seq::empty());
        assert forall|x: EditView| edits.contains(x) <==> #[trigger] permuted.contains(x) by {
            vstd::seq_lib::to_multiset_contains(edits, x);
            vstd::seq_lib::to_multiset_contains(permuted, x);
        }
        lemma_permuted_disjoint(edits, permuted, n);
        assert forall|i: int| 0 <= i < permuted.len() implies in_file(#[trigger] permuted[i], n)
            && edit_check(permuted[i], lines) == Ok::<Seq<MismatchView>, ErrorView>(
            Seq::empty(),
        ) by {
            assert(permuted.contains(permuted[i]));
            let k = choose|k: int| 0 <= k < edits.len() && edits[k] == permuted[i];
            assert(in_file(edits[k], n));
            lemma_clean_check(edits, lines, k);
        }
        lemma_check_clean(permuted, lines, 0);
        let a = applied_order(text, edits, enabled);
        let b = applied_order(text, permuted, enabled);
        lemma_disjoint_order(text, edits, enabled);
        lemma_disjoint_order(text, permuted, enabled);
        assert forall|x: EditView| holds_edit(a, x) <==> #[trigger] holds_edit(b, x) by {
            lemma_disjoint_held(text, edits, enabled, x);
            lemma_disjoint_held(text, permuted, enabled, x);
            if holds_edit(a, x) {
                let i = choose|i: int|
                    0 <= i < edits.len() && prepared(#[trigger] edits[i], enabled) == x;
                assert(edits.contains(edits[i]));
                assert(permuted.contains(edits[i]));
                let k = choose|k: int| 0 <= k < permuted.len() && permuted[k] == edits[i];
                assert(prepared(permuted[k], enabled) == x);
            }
            if holds_edit(b, x) {
                let i = choose|i: int|
                    0 <= i < permuted.len() && prepared(#[trigger] permuted[i], enabled) == x;
                assert(permuted.contains(permuted[i]));
                let k = choose|k: int| 0 <= k < edits.len() && edits[k] == permuted[i];
                assert(prepared(edits[k], enabled) == x);
            }
        }
        lemma_descending(a, b, n, a.len() as int);
        let start = ProgressView { lines, first: None, noops: Seq::empty() };
        lemma_same_edits(start, start, a, b, lines, 0);
    }
}

/// Where the check of edits finds nothing, none of them has a stale reference.
proof fn lemma_clean_check(edits: Seq<EditView>, lines: Seq<Seq<char>>, k: int)
    requires
        0 <= k < edits.len(),
        edits_check(edits, lines, 0, Seq::empty()) matches Ok(ms) && ms.len() == 0,
    ensures
        edit_check(edits[k], lines) == Ok::<Seq<MismatchView>, ErrorView>(Seq::empty()),
{
    lemma_checks(edits, lines, 0, Seq::empty());
    let found = edits_check(edits, lines, 0, Seq::empty())->Ok_0;
    assert(edit_check(edits[k], lines) is Ok);
    let ms = edit_check(edits[k], lines)->Ok_0;
    if ms.len() > 0 {
        assert(found.contains(edit_check(edits[k], lines)->Ok_0[0]));
    }
    assert(ms =~= Seq::<MismatchView>::empty());
}

/// Edits without a stale reference pass the check.
proof fn lemma_check_clean(edits: Seq<EditView>, lines: Seq<Seq<char>>, i: int)
    requires
        0 <= i <= edits.len(),
        forall|k: int|
            i <= k < edits.len() ==> edit_check(#[trigger] edits[k], lines) == Ok::<
                Seq<MismatchView>,
                ErrorView,
            >(Seq::empty()),
    ensures
        edits_check(edits, lines, i, Seq::empty()) == Ok::<Seq<MismatchView>, ErrorView>(
            Seq::empty(),
        ),
    decreases edits.len() - i,
{
    if i < edits.len() {
        lemma_check_clean(edits, lines, i + 1);
        assert(Seq::<MismatchView>::empty() + Seq::<MismatchView>::empty() =~= Seq::<
            MismatchView,
        >::empty());
    }
}

/// A permutation of disjoint edits is disjoint.
proof fn lemma_permuted_disjoint(edits: Seq<EditView>, permuted: Seq<EditView>, n: int)
    requires
        are_disjoint(edits),
        forall|i: int| 0 <= i < edits.len() ==> in_file(#[trigger] edits[i], n),
        permuted.to_multiset() == edits.to_multiset(),
    ensures
        are_disjoint(permuted),
{
    broadcast use vstd::seq_lib::group_to_multiset_ensures;

    assert(edits.no_duplicates()) by {
        assert forall|i: int, j: int|
            0 <= i < edits.len() && 0 <= j < edits.len() && i != j implies edits[i] != edits[j] by {
            if i < j {
                assert(refers_elsewhere(edits[i], edits[j]));
            } else {
                assert(refers_elsewhere(edits[j], edits[i]));
            }
            assert(in_file(edits[i], n));
        }
    }
    edits.lemma_multiset_has_no_duplicates();
    permuted.lemma_multiset_has_no_duplicates_conv();
    assert forall|i: int, j: int| 0 <= i < j < permuted.len() implies refers_elsewhere(
        #[trigger] permuted[i],
        #[trigger] permuted[j],
    ) by {
        assert(permuted.contains(permuted[i]) && permuted.contains(permuted[j]));
        assert(edits.to_multiset().count(permuted[i]) > 0);
        assert(edits.to_multiset().count(permuted[j]) > 0);
        let a = choose|a: int| 0 <= a < edits.len() && edits[a] == permuted[i];
        let b = choose|b: int| 0 <= b < edits.len() && edits[b] == permuted[j];
        assert(permuted[i] != permuted[j]);
        if a < b {
            assert(refers_elsewhere(edits[a], edits[b]));
        } else {
            assert(refers_elsewhere(edits[b], edits[a]));
        }
    }
}

/// The lines of a file after one edit with the lines `put`: inserted behind or before
/// the line that is referred to, in place of that line or of the lines from one
/// reference to another, or at an end of the file. An insertion into a file that is
/// empty is all that there is then.
pub open spec fn lines_with_edit(lines: Seq<Seq<char>>, e: EditView, put: Seq<Seq<char>>) -> Seq<
    Seq<char>,
> {
    let is_empty = lines.len() == 1 && lines[0].len() == 0;
    let l = e.pos.line as int;
    match e.kind {
        EditKind::AppendAt => lines.take(l) + put + lines.skip(l),
        EditKind::PrependAt => lines.take(l - 1) + put + lines.skip(l - 1),
        EditKind::ReplaceLine => lines.take(l - 1) + put + lines.skip(l),
        EditKind::ReplaceRange => lines.take(l - 1) + put + lines.skip(e.end.line as int),
        EditKind::AppendFile => if is_empty {
            put
        } else {
            lines + put
        },
        EditKind::PrependFile => if is_empty {
            put
        } else {
            put + lines
        },
    }
}

/// Whether lines are written as they are: their tabs are left alone, or they hold no
/// backslash.
pub open spec fn is_literal(put: Seq<Seq<char>>, enabled: bool) -> bool {
    !enabled || forall|i: int| 0 <= i < put.len() ==> !(#[trigger] put[i]).contains('\\')
}

/// Literal lines are not corrected.
proof fn lemma_literal(put: Seq<Seq<char>>, enabled: bool)
    requires
        is_literal(put, enabled),
    ensures
        corrected(put, enabled) == put,
{
    reveal_strlit("\\t");
    if enabled && any_escaped(put) {
        let i = choose|i: int| 0 <= i < put.len() && occurs(#[trigger] put[i], "\\t"@);
        lemma_index_from(put[i], "\\t"@, 0);
        let k = index_from(put[i], "\\t"@, 0)->0;
        assert(put[i].subrange(k, k + 2)[0] == put[i][k]);
        assert("\\t"@[0] == '\\');
        assert(put[i].contains('\\'));
    }
}

/// A single edit whose references are fresh puts its lines where it says, and leaves
/// all other lines as they are.
pub proof fn law_edit_placed(text: Seq<char>, e: EditView, enabled: bool)
    requires
        edit_check(e, lines_of(text)) == Ok::<Seq<MismatchView>, ErrorView>(Seq::empty()),
        is_literal(e.lines, enabled),
        e.lines.len() > 0 || e.kind == EditKind::ReplaceLine || e.kind == EditKind::ReplaceRange,
    ensures
        edited(text, seq![e], enabled) matches Ok(r) && r.text == joined(
            lines_with_edit(lines_of(text), e, e.lines),
            "\n"@,
        ),
{
    let lines = lines_of(text);
    law_single_edit(text, e, enabled);
    lemma_literal(e.lines, enabled);
    let ready = prepared(e, enabled);
    assert(ready.lines == e.lines);
    let made = lines_with_edit(lines, e, e.lines);
    reveal_strlit("\n");
    assert("\n"@ =~= seq!['\n']);
    law_join_pieces(text, '\n');
    lemma_pieces_nonempty(text, '\n');
    if keeps_line(ready, lines) {
        assert(made =~= lines);
    } else {
        let only_empty = lines.len() == 1 && lines[0].len() == 0;
        let (a, b) = edit_span(ready, lines.len() as int, only_empty);
        assert(spliced(lines, a, b, e.lines) =~= made);
    }
}

} // verus!
