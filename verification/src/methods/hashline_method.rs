//! Hashline edit method implementation.

use crate::applicator::{in_style_of, moved_in, restyle, write_or_move};
use crate::diff::{bare_line, generate_diff_string, strip_line_feed};
use crate::error::{EditError, ErrorView, MismatchView, outcome};
use crate::fs::{EditFs, Files, InMemoryFs};
use crate::fuzzy::min;
use crate::hashline::{
    AnchorView, EditKind, EditView, EditedView, HashlineApplyOptions, HashlineEdit,
    HashlineEditResult, NoopEdit, NoopView, anchor_check, apply_hashline_edits_with_options,
    bad_tag, edit_check, edit_views, edited, is_literal, law_edit_placed, law_tag_round_trip,
    lemma_display_lines, lemma_tag_plain, line_hash, line_tag, lines_with_edit, no_anchor,
    noop_views, parse_tag, tag_of, tagged_line, tagged_lines, try_parse_tag,
};
use crate::methods::patch_method::{invalid_input, own, patch_message, summarize};
use crate::methods::replace_method::numbered_text_diff;
use crate::normalize::{lines_of, normalize_to_lf, strip_bom, with_lf, without_bom};
use crate::splice::opt_lines;
use crate::text::{
    begins, ends, join, joined, law_join_pieces, law_pieces_join, lemma_index_after,
    lemma_joined_add, lemma_not_found, lemma_pieces_nonempty, lemma_replaced_absent, opt_nat,
    opt_view, parted, push_text, replace, replaced, same, splice, split_on, split_once,
    starts_with, views,
};
use crate::traits::{ChangeOp, ChangeView, EditMethod, EditResult, FileChange, ResultView};
use crate::value::Value;
use vstd::prelude::*;
use vstd::string::*;

verus! {

/// The prompt of the hashline method.
pub const HASHLINE_PROMPT: &'static str = "Applies precise file edits using `LINE#ID` anchors from read output.

Read the file first. Copy anchors exactly from the latest read output. Batch all edits for one file in one call. After any successful edit, re-read before editing that file again.

Operations:
- `path`: file path
- `move`: optional rename target
- `delete`: optional whole-file delete
- `edits`: array of `{ loc, content }`

`loc` values:
- `\"append\"` / `\"prepend\"`: insert at end/start of file
- `{ append: \"N#ID\" }` / `{ prepend: \"N#ID\" }`: insert after/before anchored line
- `{ line: \"N#ID\" }`: replace exactly one anchored line
- `{ block: { pos: \"N#ID\", end: \"N#ID\" } }`: replace inclusive range

Critical rules:
- Make the minimum exact edit.
- Use anchors exactly as `N#ID` from the latest read output.
- `block` edits require both `pos` and `end`.
- Do not duplicate boundary lines when replacing blocks.
- Do not target shared boundary lines such as `} else {`, `} catch (...) {`, or `}),`.
- `content` must be literal file content with matching indentation.
- Do not use this method to reformat unrelated code.
";

/// The schema of the input of the hashline method.
pub const HASHLINE_SCHEMA: &'static str = "{
  \"type\": \"object\",
  \"properties\": {
    \"path\": { \"type\": \"string\" },
    \"move\": { \"type\": \"string\" },
    \"delete\": { \"type\": \"boolean\" },
    \"autocorrectEscapedTabs\": { \"type\": \"boolean\" },
    \"edits\": { \"type\": \"array\", \"items\": { \"type\": \"object\", \"required\": [\"loc\"] } }
  },
  \"required\": [\"path\", \"edits\"]
}\n";

/// Hashline edit method.
#[derive(Debug, Clone, Copy)]
pub struct HashlineMethod;

/// Whether a line that holds something is tagged with a line reference and a
/// colon.
pub open spec fn has_tag(line: Seq<char>) -> bool {
    match parted(line, ':') {
        Some((head, _)) => tag_of(head) is Some,
        None => false,
    }
}

/// Whether a line is marked as added.
pub open spec fn is_added(line: Seq<char>) -> bool {
    line.len() > 0 && line[0] == '+' && !begins(line, "++"@)
}

/// How many lines hold something.
pub open spec fn filled_count(lines: Seq<Seq<char>>) -> nat
    decreases lines.len(),
{
    if lines.len() == 0 {
        0
    } else {
        filled_count(lines.drop_last()) + (if lines.last().len() > 0 {
            1nat
        } else {
            0nat
        })
    }
}

/// How many lines are marked as added.
pub open spec fn added_count(lines: Seq<Seq<char>>) -> nat
    decreases lines.len(),
{
    if lines.len() == 0 {
        0
    } else {
        added_count(lines.drop_last()) + (if is_added(lines.last()) {
            1nat
        } else {
            0nat
        })
    }
}

/// Whether all lines that hold something are tagged.
pub open spec fn all_tagged(lines: Seq<Seq<char>>) -> bool {
    forall|i: int| 0 <= i < lines.len() && (#[trigger] lines[i]).len() > 0 ==> has_tag(lines[i])
}

/// A line without what comes before its first colon.
pub open spec fn untagged(line: Seq<char>) -> Seq<char> {
    match parted(line, ':') {
        Some((_, rest)) => rest,
        None => line,
    }
}

/// A line without the mark of an added line.
pub open spec fn unmarked(line: Seq<char>) -> Seq<char> {
    if is_added(line) {
        line.skip(1)
    } else {
        line
    }
}

/// The lines without tags, where all have one, or without marks of added lines,
/// where at least half have one.
pub open spec fn without_prefixes(lines: Seq<Seq<char>>) -> Seq<Seq<char>> {
    if filled_count(lines) == 0 {
        lines
    } else if all_tagged(lines) {
        lines.map_values(|l: Seq<char>| untagged(l))
    } else if added_count(lines) * 2 >= filled_count(lines) {
        lines.map_values(|l: Seq<char>| unmarked(l))
    } else {
        lines
    }
}

/// The text of a value; none where it is not a text.
pub open spec fn text_or_empty(v: Value) -> Seq<char> {
    match v.text() {
        Some(s) => s,
        None => Seq::empty(),
    }
}

/// The lines that a value gives: the items of a list, or the lines of a text.
pub open spec fn value_lines(v: Option<Value>) -> Seq<Seq<char>> {
    match v {
        Some(Value::Array(items)) => Seq::new(
            items@.len(),
            |i: int| text_or_empty(items@[i]),
        ),
        Some(Value::Text(s)) => lines_of(replaced(bare_line(s@), "\r"@, ""@)),
        _ => Seq::empty(),
    }
}

/// The new lines of an edit.
pub open spec fn content_of(edit: Value) -> Seq<Seq<char>> {
    without_prefixes(value_lines(edit.field("content"@)))
}

/// An edit of one kind at the line that `tag` refers to.
pub open spec fn edit_at(kind: EditKind, tag: Seq<char>, lines: Seq<Seq<char>>) -> Result<
    EditView,
    ErrorView,
> {
    match tag_of(tag) {
        None => Err(bad_tag(tag)),
        Some(a) => Ok(EditView { kind, pos: a, end: a, lines }),
    }
}

/// An edit that refers to no line.
pub open spec fn edit_of_file(kind: EditKind, lines: Seq<Seq<char>>) -> EditView {
    EditView { kind, pos: no_anchor(), end: no_anchor(), lines }
}

/// An edit of the lines from one reference to another.
pub open spec fn edit_of_block(block: Value, lines: Seq<Seq<char>>) -> Result<EditView, ErrorView> {
    match block.text_field("pos"@) {
        None => Err(invalid_input("block missing 'pos'"@)),
        Some(pos) => match block.text_field("end"@) {
            None => Err(invalid_input("block missing 'end'"@)),
            Some(end) => match (tag_of(pos), tag_of(end)) {
                (None, _) => Err(bad_tag(pos)),
                (_, None) => Err(bad_tag(end)),
                (Some(a), Some(b)) => Ok(
                    EditView { kind: EditKind::ReplaceRange, pos: a, end: b, lines },
                ),
            },
        },
    }
}

/// The edit that a value describes.
pub open spec fn edit_of(edit: Value) -> Result<EditView, ErrorView> {
    let lines = content_of(edit);
    match edit.field("loc"@) {
        None => Err(invalid_input("edit missing 'loc'"@)),
        Some(loc) => match loc {
            Value::Text(kind) => if kind@ == "append"@ {
                Ok(edit_of_file(EditKind::AppendFile, lines))
            } else if kind@ == "prepend"@ {
                Ok(edit_of_file(EditKind::PrependFile, lines))
            } else {
                Err(invalid_input("unknown string loc: "@ + kind@))
            },
            Value::Object(_) => {
                let block = loc.field("block"@);
                if loc.text_field("append"@) is Some {
                    edit_at(EditKind::AppendAt, loc.text_field("append"@)->0, lines)
                } else if loc.text_field("prepend"@) is Some {
                    edit_at(EditKind::PrependAt, loc.text_field("prepend"@)->0, lines)
                } else if loc.text_field("line"@) is Some {
                    edit_at(EditKind::ReplaceLine, loc.text_field("line"@)->0, lines)
                } else if block is Some && block->0 is Object {
                    edit_of_block(block->0, lines)
                } else {
                    Err(invalid_input("unknown loc shape"@))
                }
            },
            _ => Err(invalid_input("invalid loc type"@)),
        },
    }
}

/// The edits that values describe.
pub open spec fn edits_of(edits: Seq<Value>) -> Result<Seq<EditView>, ErrorView>
    decreases edits.len(),
{
    if edits.len() == 0 {
        Ok(Seq::empty())
    } else {
        match edits_of(edits.drop_last()) {
            Err(e) => Err(e),
            Ok(before) => match edit_of(edits.last()) {
                Err(e) => Err(e),
                Ok(x) => Ok(before.push(x)),
            },
        }
    }
}

/// The edits, by their contents.
pub open spec fn edits_outcome(r: Result<Vec<HashlineEdit>, EditError>) -> Result<
    Seq<EditView>,
    ErrorView,
> {
    match r {
        Ok(v) => Ok(edit_views(v@)),
        Err(e) => Err(e@),
    }
}

fn line_tagged(line: &str) -> (r: bool)
    ensures
        r == has_tag(line@),
{
    match split_once(line, ':') {
        Some((head, _)) => try_parse_tag(head).is_some(),
        None => false,
    }
}

fn line_added(line: &str) -> (r: bool)
    ensures
        r == is_added(line@),
{
    !line.is_empty() && line.get_char(0) == '+' && !starts_with(line, "++")
}

fn untag_line(line: &str) -> (r: &str)
    ensures
        r@ == untagged(line@),
{
    match split_once(line, ':') {
        Some((_, rest)) => rest,
        None => line,
    }
}

fn unmark_line(line: &str) -> (r: &str)
    ensures
        r@ == unmarked(line@),
{
    if line_added(line) {
        let r = line.substring_char(1, line.unicode_len());
        assert(r@ =~= line@.skip(1));
        r
    } else {
        line
    }
}

/// Strips the prefixes of lines that were copied from a display or a diff.
pub fn strip_new_line_prefixes(lines: Vec<String>) -> (r: Vec<String>)
    ensures
        views(r@) == without_prefixes(views(lines@)),
{
    let ghost l = views(lines@);
    let total: usize = lines.len();
    let mut filled: usize = 0;
    let mut added: usize = 0;
    let mut tagged = true;
    let mut i: usize = 0;
    assert(l.take(0) =~= Seq::empty());
    while i < lines.len()
        invariant
            l == views(lines@),
            total == lines@.len(),
            i <= lines@.len(),
            added <= filled <= i,
            filled == filled_count(l.take(i as int)),
            added == added_count(l.take(i as int)),
            tagged == forall|k: int|
                0 <= k < i && (#[trigger] l[k]).len() > 0 ==> has_tag(l[k]),
        decreases lines@.len() - i,
    {
        let line = lines[i].as_str();
        proof {
            assert(l.take(i + 1).drop_last() =~= l.take(i as int));
            assert(l.take(i + 1).last() == line@);
            assert(l[i as int] == line@);
        }
        if !line.is_empty() {
            filled = filled + 1;
            if !line_tagged(line) {
                tagged = false;
            }
        }
        if line_added(line) {
            added = added + 1;
        }
        i = i + 1;
    }
    assert(l.take(i as int) =~= l);
    if filled == 0 {
        return lines;
    }
    if tagged {
        let mut out: Vec<String> = Vec::new();
        let ghost target = l.map_values(|l: Seq<char>| untagged(l));
        let mut k: usize = 0;
        while k < lines.len()
            invariant
                l == views(lines@),
                target == l.map_values(|l: Seq<char>| untagged(l)),
                k <= lines@.len(),
                views(out@) == target.take(k as int),
            decreases lines@.len() - k,
        {
            push_text(&mut out, untag_line(lines[k].as_str()));
            assert(target.take(k + 1) =~= target.take(k as int).push(target[k as int]));
            k = k + 1;
        }
        assert(target.take(k as int) =~= target);
        return out;
    }
    if added >= filled - added {
        let mut out: Vec<String> = Vec::new();
        let ghost target = l.map_values(|l: Seq<char>| unmarked(l));
        let mut k: usize = 0;
        while k < lines.len()
            invariant
                l == views(lines@),
                target == l.map_values(|l: Seq<char>| unmarked(l)),
                k <= lines@.len(),
                views(out@) == target.take(k as int),
            decreases lines@.len() - k,
        {
            push_text(&mut out, unmark_line(lines[k].as_str()));
            assert(target.take(k + 1) =~= target.take(k as int).push(target[k as int]));
            k = k + 1;
        }
        assert(target.take(k as int) =~= target);
        return out;
    }
    lines
}

fn read_lines(value: Option<&Value>) -> (r: Vec<String>)
    ensures
        views(r@) == value_lines(
            match value {
                Some(v) => Some(*v),
                None => None,
            },
        ),
{
    let mut out: Vec<String> = Vec::new();
    assert(views(out@) =~= Seq::empty());
    match value {
        Some(Value::Array(items)) => {
            let ghost target = Seq::new(items@.len(), |i: int| text_or_empty(items@[i]));
            let mut i: usize = 0;
            while i < items.len()
                invariant
                    target == Seq::new(items@.len(), |i: int| text_or_empty(items@[i])),
                    i <= items@.len(),
                    views(out@) == target.take(i as int),
                decreases items@.len() - i,
            {
                match items[i].as_str() {
                    Some(s) => {
                        push_text(&mut out, s);
                    },
                    None => {
                        proof {
                            reveal_strlit("");
                            assert(""@ =~= Seq::<char>::empty());
                        }
                        push_text(&mut out, "");
                    },
                }
                assert(target.take(i + 1) =~= target.take(i as int).push(target[i as int]));
                i = i + 1;
            }
            assert(target.take(i as int) =~= target);
            out
        },
        Some(Value::Text(s)) => {
            proof {
                reveal_strlit("\r");
            }
            let text = replace(strip_line_feed(s.as_str()), "\r", "");
            split_on(text.as_str(), '\n')
        },
        _ => out,
    }
}

/// Reads the new lines of an edit.
fn parse_content_lines(edit: &Value) -> (r: Vec<String>)
    ensures
        views(r@) == content_of(*edit),
{
    strip_new_line_prefixes(read_lines(edit.get("content")))
}

spec fn edit_outcome(r: Result<HashlineEdit, EditError>) -> Result<EditView, ErrorView> {
    match r {
        Ok(x) => Ok(x@),
        Err(e) => Err(e@),
    }
}

fn invalid(message: &str) -> (e: EditError)
    ensures
        e@ == invalid_input(message@),
{
    EditError::InvalidInput { message: message.to_owned() }
}

fn parse_block(block: &Value, lines: Vec<String>) -> (r: Result<HashlineEdit, EditError>)
    ensures
        edit_outcome(r) == edit_of_block(*block, views(lines@)),
{
    let pos = match block.get_str("pos") {
        Some(x) => x,
        None => {
            return Err(invalid("block missing 'pos'"));
        },
    };
    let end = match block.get_str("end") {
        Some(x) => x,
        None => {
            return Err(invalid("block missing 'end'"));
        },
    };
    let first = match parse_tag(pos) {
        Ok(x) => x,
        Err(e) => {
            return Err(e);
        },
    };
    let last = match parse_tag(end) {
        Ok(x) => x,
        Err(e) => {
            return Err(e);
        },
    };
    Ok(HashlineEdit::ReplaceRange { pos: first, end: last, lines })
}

fn parse_edit(edit: &Value) -> (r: Result<HashlineEdit, EditError>)
    ensures
        edit_outcome(r) == edit_of(*edit),
{
    let loc = match edit.get("loc") {
        Some(x) => x,
        None => {
            return Err(invalid("edit missing 'loc'"));
        },
    };
    let lines = parse_content_lines(edit);
    match loc.as_str() {
        Some(kind) => {
            if same(kind, "append") {
                return Ok(HashlineEdit::AppendFile { lines });
            }
            if same(kind, "prepend") {
                return Ok(HashlineEdit::PrependFile { lines });
            }
            let mut message = "unknown string loc: ".to_owned();
            message.append(kind);
            return Err(EditError::InvalidInput { message });
        },
        None => {},
    }
    if !loc.is_object() {
        return Err(invalid("invalid loc type"));
    }
    match loc.get_str("append") {
        Some(tag) => {
            return match parse_tag(tag) {
                Ok(pos) => Ok(HashlineEdit::AppendAt { pos, lines }),
                Err(e) => Err(e),
            };
        },
        None => {},
    }
    match loc.get_str("prepend") {
        Some(tag) => {
            return match parse_tag(tag) {
                Ok(pos) => Ok(HashlineEdit::PrependAt { pos, lines }),
                Err(e) => Err(e),
            };
        },
        None => {},
    }
    match loc.get_str("line") {
        Some(tag) => {
            return match parse_tag(tag) {
                Ok(pos) => Ok(HashlineEdit::ReplaceLine { pos, lines }),
                Err(e) => Err(e),
            };
        },
        None => {},
    }
    match loc.get("block") {
        Some(block) => {
            if block.is_object() {
                return parse_block(block, lines);
            }
        },
        None => {},
    }
    Err(invalid("unknown loc shape"))
}

/// An edit that is wrong makes all wrong.
proof fn lemma_edits_fail(edits: Seq<Value>, k: int)
    requires
        0 <= k <= edits.len(),
        edits_of(edits.take(k)) is Err,
    ensures
        edits_of(edits) == edits_of(edits.take(k)),
    decreases edits.len() - k,
{
    if k < edits.len() {
        assert(edits.take(k + 1).drop_last() =~= edits.take(k));
        lemma_edits_fail(edits, k + 1);
    } else {
        assert(edits.take(k) =~= edits);
    }
}

/// Reads the edits of an input.
pub fn parse_hashline_edits(edits: &[Value]) -> (r: Result<Vec<HashlineEdit>, EditError>)
    ensures
        edits_outcome(r) == edits_of(edits@),
{
    let mut parsed: Vec<HashlineEdit> = Vec::new();
    let mut i: usize = 0;
    proof {
        assert(edits@.take(0) =~= Seq::empty());
        assert(edit_views(parsed@) =~= Seq::empty());
    }
    while i < edits.len()
        invariant
            i <= edits@.len(),
            edits_of(edits@.take(i as int)) == Ok::<Seq<EditView>, ErrorView>(edit_views(parsed@)),
        decreases edits@.len() - i,
    {
        proof {
            assert(edits@.take(i + 1).drop_last() =~= edits@.take(i as int));
            assert(edits@.take(i + 1).last() == edits@[i as int]);
        }
        match parse_edit(&edits[i]) {
            Ok(x) => {
                let ghost xv = x@;
                let ghost before = parsed@;
                parsed.push(x);
                assert(edit_views(parsed@) =~= edit_views(before).push(xv));
            },
            Err(e) => {
                proof {
                    lemma_edits_fail(edits@, i + 1);
                }
                return Err(e);
            },
        }
        i = i + 1;
    }
    assert(edits@.take(i as int) =~= edits@);
    Ok(parsed)
}

/// A report without a diff.
pub open spec fn plain_report(message: Seq<char>, change: ChangeView, first: Option<nat>) -> ResultView {
    ResultView {
        message,
        change,
        changes: Seq::empty(),
        diff: None,
        first,
        warnings: Seq::empty(),
    }
}

/// What deleting a file answers, and the state that it leaves. A file that is
/// not there is deleted already.
pub open spec fn file_deleted<F: EditFs>(state: F::State, path: Seq<char>) -> (
    Result<ResultView, ErrorView>,
    F::State,
) {
    let done = |old: Option<Seq<char>>|
        plain_report(
            "Deleted "@ + path,
            ChangeView {
                op: ChangeOp::Delete,
                path,
                new_path: None,
                old_content: old,
                new_content: None,
            },
            None,
        );
    match F::exists_in(state, path) {
        Err(e) => (Err(e), state),
        Ok(false) => (Ok(done(None)), state),
        Ok(true) => match F::read_in(state, path) {
            Err(e) => (Err(e), state),
            Ok(content) => {
                let (r, after) = F::delete_in(state, path);
                match r {
                    Err(e) => (Err(e), after),
                    Ok(_) => (Ok(done(Some(content))), after),
                }
            },
        },
    }
}

/// What moving a file answers, and the state that it leaves.
pub open spec fn file_moved<F: EditFs>(state: F::State, path: Seq<char>, to: Seq<char>) -> (
    Result<ResultView, ErrorView>,
    F::State,
) {
    match F::exists_in(state, path) {
        Err(e) => (Err(e), state),
        Ok(false) => (Err(ErrorView::FileNotFound { path }), state),
        Ok(true) => match F::read_in(state, path) {
            Err(e) => (Err(e), state),
            Ok(content) => {
                let (r, after) = moved_in::<F>(state, path, Some(to), content);
                match r {
                    Err(e) => (Err(e), after),
                    Ok(_) => (
                        Ok(
                            plain_report(
                                "Moved "@ + path + " to "@ + to,
                                ChangeView {
                                    op: ChangeOp::Update,
                                    path,
                                    new_path: Some(to),
                                    old_content: Some(content),
                                    new_content: Some(content),
                                },
                                None,
                            ),
                        ),
                        after,
                    ),
                }
            },
        },
    }
}

/// The lines of a file that the edits make; none where one of them refers to a
/// line.
pub open spec fn lines_made(edits: Seq<EditView>) -> Option<Seq<Seq<char>>>
    decreases edits.len(),
{
    if edits.len() == 0 {
        Some(Seq::empty())
    } else {
        let e = edits.last();
        match lines_made(edits.drop_last()) {
            None => None,
            Some(lines) => match e.kind {
                EditKind::AppendFile => Some(lines + e.lines),
                EditKind::PrependFile => Some(e.lines + lines),
                _ => None,
            },
        }
    }
}

/// What creating a file from edits answers, and the state that it leaves.
pub open spec fn file_made<F: EditFs>(state: F::State, path: Seq<char>, edits: Seq<EditView>) -> (
    Result<ResultView, ErrorView>,
    F::State,
) {
    match lines_made(edits) {
        None => (Err(ErrorView::FileNotFound { path }), state),
        Some(lines) => {
            let content = joined(lines, "\n"@);
            let (r, after) = F::write_in(state, path, content);
            match r {
                Err(e) => (Err(e), after),
                Ok(_) => (
                    Ok(
                        plain_report(
                            "Created "@ + path,
                            ChangeView {
                                op: ChangeOp::Create,
                                path,
                                new_path: None,
                                old_content: None,
                                new_content: Some(content),
                            },
                            Some(1),
                        ),
                    ),
                    after,
                ),
            }
        },
    }
}

/// The first few edits that changed nothing, as an error shows them.
pub open spec fn noops_shown(noops: Seq<NoopView>) -> Seq<char> {
    let n = min(noops.len() as int, 3);
    joined(
        noops.take(n).map_values(|x: NoopView| x.loc + " => "@ + x.current),
        "; "@,
    )
}

/// The error for edits that changed nothing.
pub open spec fn nothing_changed(path: Seq<char>, noops: Seq<NoopView>) -> ErrorView {
    let base = " The edits produced identical content."@;
    ErrorView::NoChanges {
        file: path,
        detail: if noops.len() == 0 {
            base
        } else {
            base + " Current content: "@ + noops_shown(noops)
        },
    }
}

/// What a file with the content `raw` becomes by the edits.
pub open spec fn file_edited(
    raw: Seq<char>,
    path: Seq<char>,
    to: Option<Seq<char>>,
    edits: Seq<EditView>,
    enabled: bool,
) -> Result<EditedView, ErrorView> {
    let text = with_lf(without_bom(raw));
    match edited(text, edits, enabled) {
        Err(e) => Err(e),
        Ok(r) => if r.text == text && to is None {
            Err(nothing_changed(path, r.noops))
        } else {
            Ok(r)
        },
    }
}

/// What is reported of edits.
pub open spec fn edits_report(
    raw: Seq<char>,
    path: Seq<char>,
    to: Option<Seq<char>>,
    r: EditedView,
) -> ResultView {
    let text = with_lf(without_bom(raw));
    let d = numbered_text_diff(text, r.text, 4);
    ResultView {
        message: patch_message(ChangeOp::Update, path, to),
        change: ChangeView {
            op: ChangeOp::Update,
            path,
            new_path: to,
            old_content: Some(text),
            new_content: Some(r.text),
        },
        changes: Seq::empty(),
        diff: Some(d.diff),
        first: match r.first {
            Some(f) => Some(f),
            None => d.first,
        },
        warnings: r.warnings,
    }
}

/// What edits of a file that is there answer, and the state that they leave.
pub open spec fn file_updated<F: EditFs>(
    state: F::State,
    path: Seq<char>,
    to: Option<Seq<char>>,
    edits: Seq<EditView>,
    enabled: bool,
) -> (Result<ResultView, ErrorView>, F::State) {
    match F::read_in(state, path) {
        Err(e) => (Err(e), state),
        Ok(raw) => match file_edited(raw, path, to, edits, enabled) {
            Err(e) => (Err(e), state),
            Ok(r) => {
                let (w, after) = moved_in::<F>(state, path, to, in_style_of(raw, r.text));
                match w {
                    Err(e) => (Err(e), after),
                    Ok(_) => (Ok(edits_report(raw, path, to, r)), after),
                }
            },
        },
    }
}

/// What the hashline method answers, and the state that it leaves.
pub open spec fn hashline_applied<F: EditFs>(state: F::State, input: Value) -> (
    Result<ResultView, ErrorView>,
    F::State,
) {
    let path = input.text_field("path"@);
    let to = input.text_field("move"@);
    let items = match input.field("edits"@) {
        Some(v) => v.items(),
        None => None,
    };
    if path is None {
        (Err(invalid_input("missing 'path'"@)), state)
    } else if items is None {
        (Err(invalid_input("missing 'edits' array"@)), state)
    } else if to == path {
        (Err(ErrorView::SamePathRename), state)
    } else if input.truth_field("delete"@) == Some(true) {
        file_deleted::<F>(state, path->0)
    } else if to is Some && (items->0).len() == 0 {
        file_moved::<F>(state, path->0, to->0)
    } else {
        match edits_of(items->0) {
            Err(e) => (Err(e), state),
            Ok(edits) => match F::exists_in(state, path->0) {
                Err(e) => (Err(e), state),
                Ok(false) => file_made::<F>(state, path->0, edits),
                Ok(true) => file_updated::<F>(
                    state,
                    path->0,
                    to,
                    edits,
                    input.truth_field("autocorrectEscapedTabs"@) != Some(false),
                ),
            },
        }
    }
}

fn report(message: String, change: FileChange, first: Option<usize>) -> (r: EditResult)
    ensures
        r@ == plain_report(message@, change@, opt_nat(first)),
{
    let r = EditResult {
        message,
        change,
        changes: Vec::new(),
        diff: None,
        first_changed_line: first,
        warnings: Vec::new(),
    };
    assert(r@.changes =~= Seq::empty());
    assert(r@.warnings =~= Seq::empty());
    r
}

fn delete_file<F: EditFs>(fs: &mut F, path: &str) -> (r: Result<EditResult, EditError>)
    ensures
        (outcome(r), final(fs).state()) == file_deleted::<F>(old(fs).state(), path@),
{
    let there = match fs.file_exists(path) {
        Ok(b) => b,
        Err(e) => {
            return Err(e);
        },
    };
    let mut old_content: Option<String> = None;
    if there {
        match fs.read(path) {
            Ok(c) => {
                old_content = Some(c);
            },
            Err(e) => {
                return Err(e);
            },
        }
        match fs.delete(path) {
            Ok(_) => {},
            Err(e) => {
                return Err(e);
            },
        }
    }
    let mut message = "Deleted ".to_owned();
    message.append(path);
    Ok(
        report(
            message,
            FileChange {
                op: ChangeOp::Delete,
                path: path.to_owned(),
                new_path: None,
                old_content,
                new_content: None,
            },
            None,
        ),
    )
}

fn move_file<F: EditFs>(fs: &mut F, path: &str, to: &str) -> (r: Result<EditResult, EditError>)
    ensures
        (outcome(r), final(fs).state()) == file_moved::<F>(old(fs).state(), path@, to@),
{
    match fs.file_exists(path) {
        Ok(there) => {
            if !there {
                return Err(EditError::FileNotFound { path: path.to_owned() });
            }
        },
        Err(e) => {
            return Err(e);
        },
    }
    let content = match fs.read(path) {
        Ok(c) => c,
        Err(e) => {
            return Err(e);
        },
    };
    match write_or_move(fs, path, Some(to), content.as_str()) {
        Ok(_) => {},
        Err(e) => {
            return Err(e);
        },
    }
    let mut message = "Moved ".to_owned();
    message.append(path);
    message.append(" to ");
    message.append(to);
    let copy = content.clone();
    Ok(
        report(
            message,
            FileChange {
                op: ChangeOp::Update,
                path: path.to_owned(),
                new_path: Some(to.to_owned()),
                old_content: Some(content),
                new_content: Some(copy),
            },
            None,
        ),
    )
}

/// An edit that makes no lines makes that all make none.
proof fn lemma_made_none(edits: Seq<EditView>, k: int)
    requires
        0 <= k <= edits.len(),
        lines_made(edits.take(k)) is None,
    ensures
        lines_made(edits) is None,
    decreases edits.len() - k,
{
    if k < edits.len() {
        assert(edits.take(k + 1).drop_last() =~= edits.take(k));
        lemma_made_none(edits, k + 1);
    } else {
        assert(edits.take(k) =~= edits);
    }
}

fn make_lines(edits: &[HashlineEdit]) -> (r: Option<Vec<String>>)
    ensures
        opt_lines(r) == lines_made(edit_views(edits@)),
{
    let ghost es = edit_views(edits@);
    let mut lines: Vec<String> = Vec::new();
    let mut i: usize = 0;
    proof {
        assert(es.take(0) =~= Seq::empty());
        assert(views(lines@) =~= Seq::empty());
    }
    while i < edits.len()
        invariant
            es == edit_views(edits@),
            i <= edits@.len(),
            lines_made(es.take(i as int)) == Some(views(lines@)),
        decreases edits@.len() - i,
    {
        proof {
            assert(es.take(i + 1).drop_last() =~= es.take(i as int));
            assert(es.take(i + 1).last() == edits@[i as int]@);
        }
        let ghost before = views(lines@);
        match &edits[i] {
            HashlineEdit::AppendFile { lines: new } => {
                let n: usize = lines.len();
                assert(before.len() == n);
                lines = splice(&lines, n, n, new);
                assert(views(lines@) =~= before + views(new@));
            },
            HashlineEdit::PrependFile { lines: new } => {
                lines = splice(&lines, 0, 0, new);
                assert(views(lines@) =~= views(new@) + before);
            },
            _ => {
                proof {
                    lemma_made_none(es, i + 1);
                }
                return None;
            },
        }
        i = i + 1;
    }
    assert(es.take(i as int) =~= es);
    Some(lines)
}

fn make_file<F: EditFs>(fs: &mut F, path: &str, edits: &[HashlineEdit]) -> (r: Result<
    EditResult,
    EditError,
>)
    ensures
        (outcome(r), final(fs).state()) == file_made::<F>(
            old(fs).state(),
            path@,
            edit_views(edits@),
        ),
{
    let lines = match make_lines(edits) {
        Some(x) => x,
        None => {
            return Err(EditError::FileNotFound { path: path.to_owned() });
        },
    };
    let content = join(&lines, "\n");
    match fs.write(path, content.as_str()) {
        Ok(_) => {},
        Err(e) => {
            return Err(e);
        },
    }
    let mut message = "Created ".to_owned();
    message.append(path);
    Ok(
        report(
            message,
            FileChange {
                op: ChangeOp::Create,
                path: path.to_owned(),
                new_path: None,
                old_content: None,
                new_content: Some(content),
            },
            Some(1),
        ),
    )
}

fn report_unchanged(path: &str, noops: &[NoopEdit]) -> (e: EditError)
    ensures
        e@ == nothing_changed(path@, noop_views(noops@)),
{
    let ghost ns = noop_views(noops@);
    let mut detail = " The edits produced identical content.".to_owned();
    if noops.len() > 0 {
        let n: usize = if noops.len() <= 3 {
            noops.len()
        } else {
            3
        };
        let ghost f = |x: NoopView| x.loc + " => "@ + x.current;
        let ghost target = ns.take(n as int).map_values(f);
        let mut shown: Vec<String> = Vec::new();
        let mut i: usize = 0;
        while i < n
            invariant
                ns == noop_views(noops@),
                n <= noops@.len(),
                f == (|x: NoopView| x.loc + " => "@ + x.current),
                target == ns.take(n as int).map_values(f),
                i <= n,
                views(shown@) == target.take(i as int),
            decreases n - i,
        {
            let mut row = noops[i].loc.clone();
            row.append(" => ");
            row.append(noops[i].current.as_str());
            push_text(&mut shown, row.as_str());
            proof {
                assert(ns[i as int] == noops@[i as int]@);
                assert(target.take(i + 1) =~= target.take(i as int).push(target[i as int]));
            }
            i = i + 1;
        }
        assert(target.take(i as int) =~= target);
        detail.append(" Current content: ");
        detail.append(join(&shown, "; ").as_str());
    }
    EditError::NoChanges { file: path.to_owned(), detail }
}

/// Applies edits to a file, given as it was read.
fn edit_file(raw: &str, path: &str, to: Option<&str>, edits: &[HashlineEdit], enabled: bool) -> (r:
    Result<HashlineEditResult, EditError>)
    ensures
        outcome(r) == file_edited(raw@, path@, opt_view(to), edit_views(edits@), enabled),
{
    let bom = strip_bom(raw);
    let text = normalize_to_lf(bom.text);
    let options = HashlineApplyOptions { autocorrect_escaped_tabs: enabled };
    let r = match apply_hashline_edits_with_options(text.as_str(), edits, options) {
        Ok(x) => x,
        Err(e) => {
            return Err(e);
        },
    };
    if to.is_none() && same(r.text.as_str(), text.as_str()) {
        return Err(report_unchanged(path, &r.noop_edits));
    }
    Ok(r)
}

fn update_file<F: EditFs>(
    fs: &mut F,
    path: &str,
    to: Option<&str>,
    edits: &[HashlineEdit],
    enabled: bool,
) -> (r: Result<EditResult, EditError>)
    ensures
        (outcome(r), final(fs).state()) == file_updated::<F>(
            old(fs).state(),
            path@,
            opt_view(to),
            edit_views(edits@),
            enabled,
        ),
{
    let raw = match fs.read(path) {
        Ok(x) => x,
        Err(e) => {
            return Err(e);
        },
    };
    let result = match edit_file(raw.as_str(), path, to, edits, enabled) {
        Ok(x) => x,
        Err(e) => {
            return Err(e);
        },
    };
    let styled = restyle(raw.as_str(), result.text.as_str());
    match write_or_move(fs, path, to, styled.as_str()) {
        Ok(_) => {},
        Err(e) => {
            return Err(e);
        },
    }
    let bom = strip_bom(raw.as_str());
    let text = normalize_to_lf(bom.text);
    let diff = generate_diff_string(text.as_str(), result.text.as_str(), 4);
    let new_path = own(to);
    let message = summarize(ChangeOp::Update, path, &new_path);
    let first: Option<usize> = match result.first_changed_line {
        Some(f) => Some(f),
        None => diff.first_changed_line,
    };
    let r = EditResult {
        message,
        change: FileChange {
            op: ChangeOp::Update,
            path: path.to_owned(),
            new_path,
            old_content: Some(text),
            new_content: Some(result.text),
        },
        changes: Vec::new(),
        diff: Some(diff.diff),
        first_changed_line: first,
        warnings: result.warnings,
    };
    assert(r@.changes =~= Seq::empty());
    Ok(r)
}

impl EditMethod for HashlineMethod {
    open spec fn name_text(&self) -> Seq<char> {
        "hashline"@
    }

    open spec fn prompt_text(&self) -> Seq<char> {
        HASHLINE_PROMPT@
    }

    open spec fn schema_text(&self) -> Seq<char> {
        HASHLINE_SCHEMA@
    }

    open spec fn grammar_text(&self) -> Option<Seq<char>> {
        None
    }

    fn name(&self) -> (r: &str) {
        "hashline"
    }

    fn prompt(&self) -> (r: &str) {
        HASHLINE_PROMPT
    }

    fn schema(&self) -> (r: &str) {
        HASHLINE_SCHEMA
    }

    fn grammar(&self) -> (r: Option<&str>) {
        None
    }

    fn apply<F: EditFs>(&self, input: &Value, fs: &mut F) -> (r: Result<EditResult, EditError>)
        ensures
            (outcome(r), final(fs).state()) == hashline_applied::<F>(old(fs).state(), *input),
    {
        let path = match input.get_str("path") {
            Some(x) => x,
            None => {
                return Err(invalid("missing 'path'"));
            },
        };
        let to = input.get_str("move");
        let items = match input.get("edits") {
            Some(v) => match v.as_array() {
                Some(x) => x,
                None => {
                    return Err(invalid("missing 'edits' array"));
                },
            },
            None => {
                return Err(invalid("missing 'edits' array"));
            },
        };
        match to {
            Some(dest) => {
                if same(dest, path) {
                    return Err(EditError::SamePathRename);
                }
            },
            None => {},
        }
        let delete = match input.get_bool("delete") {
            Some(b) => b,
            None => false,
        };
        if delete {
            return delete_file(fs, path);
        }
        match to {
            Some(dest) => {
                if items.len() == 0 {
                    return move_file(fs, path, dest);
                }
            },
            None => {},
        }
        let edits = match parse_hashline_edits(items) {
            Ok(x) => x,
            Err(e) => {
                return Err(e);
            },
        };
        match fs.file_exists(path) {
            Err(e) => Err(e),
            Ok(there) => {
                if !there {
                    return make_file(fs, path, &edits);
                }
                let enabled = match input.get_bool("autocorrectEscapedTabs") {
                    Some(b) => b,
                    None => HashlineApplyOptions::default().autocorrect_escaped_tabs,
                };
                update_file(fs, path, to, &edits, enabled)
            },
        }
    }
}

/// A line that was displayed and is stripped of its tag is the line.
proof fn lemma_untagged(n: nat, line: Seq<char>)
    requires
        1 <= n <= usize::MAX,
    ensures
        tagged_line(n, line).len() > 0,
        has_tag(tagged_line(n, line)),
        untagged(tagged_line(n, line)) == line,
{
    reveal_strlit(":");
    assert(":"@ =~= seq![':']);
    let tag = line_tag(n, line);
    let shown = tagged_line(n, line);
    lemma_tag_plain(n, line);
    lemma_index_after(tag, seq![':'], line);
    assert(shown.take(tag.len() as int) =~= tag);
    assert(shown.skip(tag.len() + 1int) =~= line);
    law_tag_round_trip(n, line, Seq::empty());
    assert(tag + Seq::<char>::empty() =~= tag);
}

/// The prefixes of lines that were copied from a display are removed again, line
/// for line.
pub proof fn law_display_stripped(text: Seq<char>, start: nat)
    requires
        1 <= start,
        start + lines_of(text).len() - 1 <= usize::MAX,
    ensures
        without_prefixes(lines_of(joined(tagged_lines(lines_of(text), start), "\n"@))) == lines_of(
            text,
        ),
{
    let lines = lines_of(text);
    let shown = tagged_lines(lines, start);
    lemma_display_lines(text, start);
    lemma_pieces_nonempty(text, '\n');
    assert forall|i: int| 0 <= i < lines.len() implies (#[trigger] shown[i]).len() > 0 && has_tag(
        shown[i],
    ) && untagged(shown[i]) == lines[i] by {
        lemma_untagged((start + i) as nat, lines[i]);
    }
    assert(shown.last() == shown[shown.len() - 1]);
    assert(filled_count(shown) > 0);
    assert(shown.map_values(|l: Seq<char>| untagged(l)) =~= lines);
}

/// Whether an input asks for one edit of one file, and for nothing else.
pub open spec fn asks_one_edit(input: Value, path: Seq<char>, edit: Value) -> bool {
    &&& input.text_field("path"@) == Some(path)
    &&& input.text_field("move"@) is None
    &&& input.truth_field("delete"@) != Some(true)
    &&& input.field("edits"@) matches Some(v) && v.items() == Some(seq![edit])
}

/// Whether escaped tabs are corrected.
pub open spec fn corrects_tabs(input: Value) -> bool {
    input.truth_field("autocorrectEscapedTabs"@) != Some(false)
}

/// What the method answers to one edit that changes the file, and the files that it
/// leaves.
proof fn lemma_one_edit(
    files: Files,
    input: Value,
    path: Seq<char>,
    edit: Value,
    e: EditView,
    made: Seq<Seq<char>>,
)
    requires
        asks_one_edit(input, path, edit),
        files.contains_key(path),
        edit_of(edit) == Ok::<EditView, ErrorView>(e),
        ({
            let lines = lines_of(with_lf(without_bom(files[path])));
            &&& edit_check(e, lines) == Ok::<Seq<MismatchView>, ErrorView>(Seq::empty())
            &&& is_literal(e.lines, corrects_tabs(input))
            &&& e.lines.len() > 0 || e.kind == EditKind::ReplaceLine || e.kind
                == EditKind::ReplaceRange
            &&& made == lines_with_edit(lines, e, e.lines)
        }),
        joined(made, "\n"@) != with_lf(without_bom(files[path])),
    ensures
        ({
            let (r, after) = hashline_applied::<InMemoryFs>(files, input);
            &&& r is Ok
            &&& after == files.insert(path, in_style_of(files[path], joined(made, "\n"@)))
        }),
{
    let text = with_lf(without_bom(files[path]));
    let items = seq![edit];
    assert(items.drop_last() =~= Seq::<Value>::empty());
    assert(items.last() == edit);
    assert(edits_of(items.drop_last()) == Ok::<Seq<EditView>, ErrorView>(Seq::empty()));
    assert(Seq::<EditView>::empty().push(e) =~= seq![e]);
    assert(edits_of(items) == Ok::<Seq<EditView>, ErrorView>(seq![e]));
    law_edit_placed(text, e, corrects_tabs(input));
}

/// A reference as it is displayed is fresh.
proof fn lemma_fresh(lines: Seq<Seq<char>>, i: nat, rest: Seq<char>)
    requires
        1 <= i <= lines.len(),
        i <= usize::MAX,
    ensures
        ({
            let a = AnchorView { line: i, hash: line_hash(i, lines[i - 1]) };
            &&& tag_of(line_tag(i, lines[i - 1]) + rest) == Some(a)
            &&& anchor_check(a, lines) == Ok::<Option<MismatchView>, ErrorView>(None)
        }),
{
    law_tag_round_trip(i, lines[i - 1], rest);
}

/// The method with the single edit `{ loc: { append: reference }, content }`, where the
/// reference is that of line `i` as it is displayed, inserts the content behind that
/// line. Other files are as they were.
pub proof fn law_insert_behind(
    files: Files,
    input: Value,
    path: Seq<char>,
    edit: Value,
    loc: Value,
    i: nat,
    rest: Seq<char>,
)
    requires
        asks_one_edit(input, path, edit),
        files.contains_key(path),
        edit.field("loc"@) == Some(loc),
        ({
            let lines = lines_of(with_lf(without_bom(files[path])));
            &&& 1 <= i <= lines.len()
            &&& i <= usize::MAX
            &&& loc.text_field("append"@) == Some(line_tag(i, lines[i - 1]) + rest)
        }),
        content_of(edit).len() > 0,
        is_literal(content_of(edit), corrects_tabs(input)),
    ensures
        ({
            let lines = lines_of(with_lf(without_bom(files[path])));
            let (r, after) = hashline_applied::<InMemoryFs>(files, input);
            let i = i as int;
            &&& r is Ok
            &&& after == files.insert(
                path,
                in_style_of(
                    files[path],
                    joined(lines.take(i) + content_of(edit) + lines.skip(i), "\n"@),
                ),
            )
        }),
{
    let text = with_lf(without_bom(files[path]));
    let lines = lines_of(text);
    lemma_fresh(lines, i, rest);
    let a = AnchorView { line: i, hash: line_hash(i, lines[i - 1]) };
    let e = EditView { kind: EditKind::AppendAt, pos: a, end: a, lines: content_of(edit) };
    let made = lines.take(i as int) + content_of(edit) + lines.skip(i as int);
    lemma_longer(text, i as int, content_of(edit));
    lemma_one_edit(files, input, path, edit, e, made);
}

/// The method with the single edit `{ loc: { prepend: reference }, content }`, where the
/// reference is that of line `i` as it is displayed, inserts the content before that
/// line. Other files are as they were.
pub proof fn law_insert_before(
    files: Files,
    input: Value,
    path: Seq<char>,
    edit: Value,
    loc: Value,
    i: nat,
    rest: Seq<char>,
)
    requires
        asks_one_edit(input, path, edit),
        files.contains_key(path),
        edit.field("loc"@) == Some(loc),
        loc.text_field("append"@) is None,
        ({
            let lines = lines_of(with_lf(without_bom(files[path])));
            &&& 1 <= i <= lines.len()
            &&& i <= usize::MAX
            &&& loc.text_field("prepend"@) == Some(line_tag(i, lines[i - 1]) + rest)
        }),
        content_of(edit).len() > 0,
        is_literal(content_of(edit), corrects_tabs(input)),
    ensures
        ({
            let lines = lines_of(with_lf(without_bom(files[path])));
            let (r, after) = hashline_applied::<InMemoryFs>(files, input);
            &&& r is Ok
            &&& after == files.insert(
                path,
                in_style_of(
                    files[path],
                    joined(lines.take(i - 1) + content_of(edit) + lines.skip(i - 1), "\n"@),
                ),
            )
        }),
{
    let text = with_lf(without_bom(files[path]));
    let lines = lines_of(text);
    lemma_fresh(lines, i, rest);
    let a = AnchorView { line: i, hash: line_hash(i, lines[i - 1]) };
    let e = EditView { kind: EditKind::PrependAt, pos: a, end: a, lines: content_of(edit) };
    let made = lines.take(i - 1) + content_of(edit) + lines.skip(i - 1);
    lemma_longer(text, i - 1, content_of(edit));
    lemma_one_edit(files, input, path, edit, e, made);
}

/// The method with the single edit `{ loc: { line: reference }, content }`, where the
/// reference is that of line `i` as it is displayed, replaces that line with the
/// content, where that changes the text. Other files are as they were.
pub proof fn law_replace_line(
    files: Files,
    input: Value,
    path: Seq<char>,
    edit: Value,
    loc: Value,
    i: nat,
    rest: Seq<char>,
)
    requires
        asks_one_edit(input, path, edit),
        files.contains_key(path),
        edit.field("loc"@) == Some(loc),
        loc.text_field("append"@) is None,
        loc.text_field("prepend"@) is None,
        is_literal(content_of(edit), corrects_tabs(input)),
        ({
            let text = with_lf(without_bom(files[path]));
            let lines = lines_of(text);
            &&& 1 <= i <= lines.len()
            &&& i <= usize::MAX
            &&& loc.text_field("line"@) == Some(line_tag(i, lines[i - 1]) + rest)
            &&& joined(lines.take(i - 1) + content_of(edit) + lines.skip(i as int), "\n"@) != text
        }),
    ensures
        ({
            let lines = lines_of(with_lf(without_bom(files[path])));
            let (r, after) = hashline_applied::<InMemoryFs>(files, input);
            &&& r is Ok
            &&& after == files.insert(
                path,
                in_style_of(
                    files[path],
                    joined(lines.take(i - 1) + content_of(edit) + lines.skip(i as int), "\n"@),
                ),
            )
        }),
{
    let lines = lines_of(with_lf(without_bom(files[path])));
    lemma_fresh(lines, i, rest);
    let a = AnchorView { line: i, hash: line_hash(i, lines[i - 1]) };
    let e = EditView { kind: EditKind::ReplaceLine, pos: a, end: a, lines: content_of(edit) };
    let made = lines.take(i - 1) + content_of(edit) + lines.skip(i as int);
    lemma_one_edit(files, input, path, edit, e, made);
}

/// The method with the single edit `{ loc: { block: { pos, end } }, content }`, where the
/// references are those of lines `i` and `j` as they are displayed, replaces the lines
/// from the one to the other with the content, where that changes the text. Other files
/// are as they were.
pub proof fn law_replace_block(
    files: Files,
    input: Value,
    path: Seq<char>,
    edit: Value,
    loc: Value,
    block: Value,
    i: nat,
    j: nat,
    rest: Seq<char>,
)
    requires
        asks_one_edit(input, path, edit),
        files.contains_key(path),
        edit.field("loc"@) == Some(loc),
        loc.text_field("append"@) is None,
        loc.text_field("prepend"@) is None,
        loc.text_field("line"@) is None,
        loc.field("block"@) == Some(block),
        is_literal(content_of(edit), corrects_tabs(input)),
        ({
            let text = with_lf(without_bom(files[path]));
            let lines = lines_of(text);
            &&& 1 <= i <= j <= lines.len()
            &&& j <= usize::MAX
            &&& block.text_field("pos"@) == Some(line_tag(i, lines[i - 1]) + rest)
            &&& block.text_field("end"@) == Some(line_tag(j, lines[j - 1]) + rest)
            &&& joined(lines.take(i - 1) + content_of(edit) + lines.skip(j as int), "\n"@) != text
        }),
    ensures
        ({
            let lines = lines_of(with_lf(without_bom(files[path])));
            let (r, after) = hashline_applied::<InMemoryFs>(files, input);
            &&& r is Ok
            &&& after == files.insert(
                path,
                in_style_of(
                    files[path],
                    joined(lines.take(i - 1) + content_of(edit) + lines.skip(j as int), "\n"@),
                ),
            )
        }),
{
    let lines = lines_of(with_lf(without_bom(files[path])));
    lemma_fresh(lines, i, rest);
    lemma_fresh(lines, j, rest);
    let a = AnchorView { line: i, hash: line_hash(i, lines[i - 1]) };
    let b = AnchorView { line: j, hash: line_hash(j, lines[j - 1]) };
    let e = EditView { kind: EditKind::ReplaceRange, pos: a, end: b, lines: content_of(edit) };
    let made = lines.take(i - 1) + content_of(edit) + lines.skip(j as int);
    assert(Seq::<MismatchView>::empty() + Seq::<MismatchView>::empty() =~= Seq::<
        MismatchView,
    >::empty());
    lemma_one_edit(files, input, path, edit, e, made);
}

/// The method with the single edit `{ loc: "append", content }` puts the content at the
/// end of the file, and with `{ loc: "prepend", content }` at its beginning; a file that
/// is empty is then the content. Other files are as they were.
pub proof fn law_insert_at_ends(
    files: Files,
    input: Value,
    path: Seq<char>,
    edit: Value,
    loc: Value,
    at_end: bool,
)
    requires
        asks_one_edit(input, path, edit),
        files.contains_key(path),
        edit.field("loc"@) == Some(loc),
        loc.text() == Some(
            if at_end {
                "append"@
            } else {
                "prepend"@
            },
        ),
        content_of(edit).len() > 0,
        is_literal(content_of(edit), corrects_tabs(input)),
        with_lf(without_bom(files[path])).len() == 0 ==> joined(content_of(edit), "\n"@).len() > 0,
    ensures
        ({
            let text = with_lf(without_bom(files[path]));
            let lines = lines_of(text);
            let made = if text.len() == 0 {
                content_of(edit)
            } else if at_end {
                lines + content_of(edit)
            } else {
                content_of(edit) + lines
            };
            let (r, after) = hashline_applied::<InMemoryFs>(files, input);
            &&& r is Ok
            &&& after == files.insert(path, in_style_of(files[path], joined(made, "\n"@)))
        }),
{
    let text = with_lf(without_bom(files[path]));
    let lines = lines_of(text);
    let put = content_of(edit);
    let kind = if at_end {
        EditKind::AppendFile
    } else {
        EditKind::PrependFile
    };
    let e = edit_of_file(kind, put);
    reveal_strlit("append");
    reveal_strlit("prepend");
    assert("append"@.len() != "prepend"@.len());
    law_join_pieces(text, '\n');
    lemma_pieces_nonempty(text, '\n');
    reveal_strlit("\n");
    assert("\n"@ =~= seq!['\n']);
    let made = if text.len() == 0 {
        put
    } else if at_end {
        lines + put
    } else {
        put + lines
    };
    if text.len() == 0 {
        assert(lines.len() == 1 && lines[0].len() == 0);
    } else {
        assert(!(lines.len() == 1 && lines[0].len() == 0));
        if at_end {
            lemma_joined_add(lines, put, "\n"@);
        } else {
            lemma_joined_add(put, lines, "\n"@);
        }
    }
    assert(made == lines_with_edit(lines, e, put));
    lemma_one_edit(files, input, path, edit, e, made);
}

/// A text with more lines is longer.
proof fn lemma_longer(text: Seq<char>, k: int, put: Seq<Seq<char>>)
    requires
        0 <= k <= lines_of(text).len(),
        put.len() > 0,
    ensures
        joined(lines_of(text).take(k) + put + lines_of(text).skip(k), "\n"@).len() > text.len(),
{
    let lines = lines_of(text);
    let sep = "\n"@;
    reveal_strlit("\n");
    assert(sep =~= seq!['\n']);
    law_join_pieces(text, '\n');
    lemma_pieces_nonempty(text, '\n');
    let head = lines.take(k);
    let tail = lines.skip(k);
    assert(head + tail =~= lines);
    if k == 0 {
        assert(head + put + tail =~= put + tail);
        assert(tail =~= lines);
        lemma_joined_add(put, tail, sep);
    } else if k == lines.len() {
        assert(head + put + tail =~= head + put);
        assert(head =~= lines);
        lemma_joined_add(head, put, sep);
    } else {
        lemma_joined_add(head, tail, sep);
        lemma_joined_add(head, put, sep);
        lemma_joined_add(head + put, tail, sep);
    }
}

/// Where a line holds something, some do.
proof fn lemma_filled(lines: Seq<Seq<char>>, i: int)
    requires
        0 <= i < lines.len(),
        lines[i].len() > 0,
    ensures
        filled_count(lines) > 0,
    decreases lines.len(),
{
    if i < lines.len() - 1 {
        lemma_filled(lines.drop_last(), i);
    }
}

/// Where every line holds something, as many do as there are.
proof fn lemma_marked_count(lines: Seq<Seq<char>>)
    ensures
        filled_count(lines) <= lines.len(),
        (forall|i: int| 0 <= i < lines.len() ==> !is_added(#[trigger] lines[i])) ==> added_count(
            lines,
        ) == 0,
        (forall|i: int| 0 <= i < lines.len() ==> is_added(#[trigger] lines[i])) ==> added_count(
            lines,
        ) == lines.len(),
    decreases lines.len(),
{
    if lines.len() > 0 {
        let before = lines.drop_last();
        lemma_marked_count(before);
        assert(lines.last() == lines[lines.len() - 1]);
        assert forall|i: int| 0 <= i < before.len() implies before[i] == lines[i] by {}
        if forall|i: int| 0 <= i < lines.len() ==> !is_added(#[trigger] lines[i]) {
            assert forall|i: int| 0 <= i < before.len() implies !is_added(#[trigger] before[i]) by {
                assert(!is_added(lines[i]));
            }
        }
        if forall|i: int| 0 <= i < lines.len() ==> is_added(#[trigger] lines[i]) {
            assert forall|i: int| 0 <= i < before.len() implies is_added(#[trigger] before[i]) by {
                assert(is_added(lines[i]));
            }
        }
    }
}

/// A line without a colon has no tag.
proof fn lemma_no_tag(line: Seq<char>)
    requires
        !line.contains(':'),
    ensures
        !has_tag(line),
{
    assert forall|j: int| 0 <= j < line.len() implies #[trigger] line[j] != ':' by {
        assert(line.contains(line[j]));
    }
    lemma_not_found(line, seq![':'], 0);
}

/// Whether lines are taken as they are given: none begins with `+`, and one that holds
/// something has no colon, unless all are empty.
pub open spec fn are_plain(lines: Seq<Seq<char>>) -> bool {
    &&& forall|i: int| 0 <= i < lines.len() && (#[trigger] lines[i]).len() > 0 ==> lines[i][0] != '+'
    &&& (forall|i: int| 0 <= i < lines.len() ==> (#[trigger] lines[i]).len() == 0) || exists|i: int|
        0 <= i < lines.len() && (#[trigger] lines[i]).len() > 0 && !lines[i].contains(':')
}

proof fn lemma_plain_lines(lines: Seq<Seq<char>>)
    requires
        are_plain(lines),
    ensures
        without_prefixes(lines) == lines,
{
    lemma_marked_count(lines);
    assert forall|i: int| 0 <= i < lines.len() implies !is_added(#[trigger] lines[i]) by {}
    if filled_count(lines) > 0 {
        if forall|i: int| 0 <= i < lines.len() ==> (#[trigger] lines[i]).len() == 0 {
            lemma_all_empty(lines);
        }
        let i = choose|i: int|
            0 <= i < lines.len() && (#[trigger] lines[i]).len() > 0 && !lines[i].contains(':');
        lemma_no_tag(lines[i]);
        assert(!all_tagged(lines));
    }
}

proof fn lemma_all_empty(lines: Seq<Seq<char>>)
    requires
        forall|i: int| 0 <= i < lines.len() ==> (#[trigger] lines[i]).len() == 0,
    ensures
        filled_count(lines) == 0,
    decreases lines.len(),
{
    if lines.len() > 0 {
        let before = lines.drop_last();
        assert forall|i: int| 0 <= i < before.len() implies (#[trigger] before[i]).len() == 0 by {
            assert(before[i] == lines[i]);
        }
        lemma_all_empty(before);
        assert(lines.last() == lines[lines.len() - 1]);
    }
}

/// The new lines of an edit are those that its content lists, as they are given; marks
/// of added lines in front of all of them are taken away.
pub proof fn law_listed_content(edit: Value, items: Seq<Value>, lines: Seq<Seq<char>>)
    requires
        edit.field("content"@) matches Some(Value::Array(v)) && v@ == items,
        items.len() == lines.len(),
    ensures
        are_plain(lines) && (forall|i: int|
            0 <= i < items.len() ==> (#[trigger] items[i]).text() == Some(lines[i])) ==> content_of(
            edit,
        ) == lines,
        lines.len() > 0 && !lines[0].contains(':') && (forall|i: int|
            0 <= i < items.len() ==> (#[trigger] items[i]).text() == Some(seq!['+'] + lines[i]) && !(
            lines[i].len() > 0 && lines[i][0] == '+')) ==> content_of(edit) == lines,
{
    let given = value_lines(edit.field("content"@));
    if are_plain(lines) && (forall|i: int|
        0 <= i < items.len() ==> (#[trigger] items[i]).text() == Some(lines[i])) {
        assert forall|i: int| 0 <= i < given.len() implies #[trigger] given[i] == lines[i] by {
            assert(items[i].text() == Some(lines[i]));
        }
        assert(given =~= lines);
        lemma_plain_lines(lines);
    }
    if lines.len() > 0 && !lines[0].contains(':') && (forall|i: int|
        0 <= i < items.len() ==> (#[trigger] items[i]).text() == Some(seq!['+'] + lines[i]) && !(
        lines[i].len() > 0 && lines[i][0] == '+')) {
        reveal_strlit("++");
        assert forall|i: int| 0 <= i < given.len() implies #[trigger] given[i] == seq!['+']
            + lines[i] && is_added(given[i]) by {
            assert(items[i].text() == Some(seq!['+'] + lines[i]));
            let l = seq!['+'] + lines[i];
            if begins(l, "++"@) {
                assert(l.subrange(0, 2)[1] == l[1]);
                assert(l[1] == lines[i][0]);
            }
        }
        lemma_marked_count(given);
        assert(given[0].len() > 0);
        lemma_filled(given, 0);
        assert(!given[0].contains(':')) by {
            if given[0].contains(':') {
                let j = choose|j: int| 0 <= j < given[0].len() && given[0][j] == ':';
                assert(lines[0][j - 1] == ':');
            }
        }
        lemma_no_tag(given[0]);
        assert(!all_tagged(given));
        let back = given.map_values(|l: Seq<char>| unmarked(l));
        assert forall|i: int| 0 <= i < lines.len() implies #[trigger] back[i] == lines[i] by {
            assert(is_added(given[i]));
            assert(given[i].skip(1) =~= lines[i]);
        }
        assert(back =~= lines);
    }
}

/// The new lines of an edit whose content is a text are the lines of the text; one line
/// feed at its end does not count.
pub proof fn law_text_content(edit: Value, lines: Seq<Seq<char>>)
    requires
        lines.len() > 0,
        forall|i: int|
            0 <= i < lines.len() ==> !(#[trigger] lines[i]).contains('\n') && !lines[i].contains(
                '\r',
            ),
        are_plain(lines),
        edit.field("content"@) matches Some(Value::Text(s)) && (s@ == joined(lines, "\n"@) + "\n"@
            || (s@ == joined(lines, "\n"@) && lines.last().len() > 0)),
    ensures
        content_of(edit) == lines,
{
    reveal_strlit("\n");
    reveal_strlit("\r");
    assert("\n"@ =~= seq!['\n']);
    assert("\r"@ =~= seq!['\r']);
    let text = joined(lines, "\n"@);
    law_pieces_join(lines, '\n');
    assert(!text.contains('\r')) by {
        lemma_joined_without(lines, '\r');
    }
    lemma_replaced_absent(text, "\r"@, ""@);
    let s = edit.field("content"@)->0->Text_0;
    assert(bare_line(s@) == text) by {
        if s@ == text + "\n"@ {
            assert(s@.subrange(s@.len() - 1, s@.len() as int) =~= "\n"@);
            assert(s@.take(s@.len() - 1) =~= text);
        } else {
            let n = text.len() as int;
            assert(text.last() == lines.last().last());
            assert(lines.last() == lines[lines.len() - 1]);
            assert(lines.last().contains(text.last()));
            if ends(text, "\n"@) {
                assert(text.subrange(n - 1, n)[0] == text[n - 1]);
            }
        }
    }
    lemma_plain_lines(lines);
}

/// Lines without a character, joined by line feeds, do not hold it.
proof fn lemma_joined_without(lines: Seq<Seq<char>>, c: char)
    requires
        c != '\n',
        forall|i: int| 0 <= i < lines.len() ==> !(#[trigger] lines[i]).contains(c),
    ensures
        !joined(lines, "\n"@).contains(c),
    decreases lines.len(),
{
    reveal_strlit("\n");
    let text = joined(lines, "\n"@);
    if lines.len() == 1 {
        assert(text == lines[0]);
    } else if lines.len() > 1 {
        let before = lines.drop_last();
        assert forall|i: int| 0 <= i < before.len() implies !(#[trigger] before[i]).contains(c) by {
            assert(before[i] == lines[i]);
        }
        lemma_joined_without(before, c);
        let head = joined(before, "\n"@);
        let last = lines.last();
        assert(!lines[lines.len() - 1].contains(c));
        if text.contains(c) {
            let j = choose|j: int| 0 <= j < text.len() && text[j] == c;
            if j < head.len() {
                assert(head[j] == c);
            } else if j > head.len() {
                assert(last[j - head.len() - 1] == c);
            }
        }
    }
}

/// Whether an input names a file, and lists edits.
pub open spec fn asks_edits(input: Value, path: Seq<char>, items: Seq<Value>) -> bool {
    &&& input.text_field("path"@) == Some(path)
    &&& input.text_field("move"@) != Some(path)
    &&& input.field("edits"@) matches Some(v) && v.items() == Some(items)
}

/// With `delete` the method removes the file, whether it is there or not, and no other.
pub proof fn law_file_deleted(files: Files, input: Value, path: Seq<char>, items: Seq<Value>)
    requires
        asks_edits(input, path, items),
        input.truth_field("delete"@) == Some(true),
    ensures
        ({
            let (r, after) = hashline_applied::<InMemoryFs>(files, input);
            &&& after == files.remove(path)
            &&& r matches Ok(report) && report.message == "Deleted "@ + path && report.change.op
                == ChangeOp::Delete && report.change.path == path && report.change.new_content
                is None && report.change.old_content == (if files.contains_key(path) {
                Some(files[path])
            } else {
                None
            })
        }),
{
    if !files.contains_key(path) {
        assert(files.remove(path) =~= files);
    }
}

/// With a new path and no edits the method moves the file as it is. A file that is not
/// there is not moved.
pub proof fn law_file_moved(files: Files, input: Value, path: Seq<char>, to: Seq<char>)
    requires
        asks_edits(input, path, Seq::empty()),
        input.truth_field("delete"@) != Some(true),
        input.text_field("move"@) == Some(to),
    ensures
        ({
            let (r, after) = hashline_applied::<InMemoryFs>(files, input);
            if files.contains_key(path) {
                &&& after.contains_key(to) && after[to] == files[path]
                &&& !after.contains_key(path)
                &&& after == files.insert(to, files[path]).remove(path)
                &&& r matches Ok(report) && report.message == "Moved "@ + path + " to "@ + to
                    && report.change.path == path && report.change.new_path == Some(to)
            } else {
                r is Err && after == files
            }
        }),
{
}

/// Edits that refer to no line make a file that is not there: what is appended comes
/// last, and what is prepended first.
pub proof fn law_file_made(files: Files, input: Value, path: Seq<char>, a: Value, b: Value)
    requires
        asks_edits(input, path, seq![a, b]),
        input.truth_field("delete"@) != Some(true),
        !files.contains_key(path),
        a.field("loc"@) matches Some(Value::Text(s)) && s@ == "append"@,
        b.field("loc"@) matches Some(Value::Text(s)) && (s@ == "append"@ || s@ == "prepend"@),
    ensures
        ({
            let (r, after) = hashline_applied::<InMemoryFs>(files, input);
            let lines = if b.field("loc"@)->0->Text_0@ == "append"@ {
                content_of(a) + content_of(b)
            } else {
                content_of(b) + content_of(a)
            };
            &&& after == files.insert(path, joined(lines, "\n"@))
            &&& r matches Ok(report) && report.message == "Created "@ + path && report.change.op
                == ChangeOp::Create && report.change.new_content == Some(joined(lines, "\n"@))
        }),
{
    reveal_strlit("append");
    reveal_strlit("prepend");
    let items = seq![a, b];
    let one = items.drop_last();
    assert(one =~= seq![a]);
    assert(one.drop_last() =~= Seq::<Value>::empty());
    assert(items.last() == b && one.last() == a);
    let x = edit_of(a)->Ok_0;
    let y = edit_of(b)->Ok_0;
    assert(edits_of(one.drop_last()) == Ok::<Seq<EditView>, ErrorView>(Seq::empty()));
    assert(edits_of(one) == Ok::<Seq<EditView>, ErrorView>(Seq::empty().push(x)));
    let edits = Seq::empty().push(x).push(y);
    assert(edits_of(items) == Ok::<Seq<EditView>, ErrorView>(edits));
    assert(edits.drop_last() =~= Seq::empty().push(x));
    let first = edits.drop_last();
    assert(first.drop_last() =~= Seq::<EditView>::empty());
    assert(lines_made(first.drop_last()) == Some(Seq::<Seq<char>>::empty()));
    assert(Seq::<Seq<char>>::empty() + x.lines =~= x.lines);
    assert(lines_made(first) == Some(x.lines));
    assert("append"@.len() != "prepend"@.len());
}

} // verus!
