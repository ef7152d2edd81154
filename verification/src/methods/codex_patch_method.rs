//! Codex-style apply_patch method.

use crate::applicator::{
    drop_empty_last, ends_line, laced, law_made_at_once, moved_in, without_empty_last,
    write_or_move,
};
use crate::diff::DiffView;
use crate::double::Double;
use crate::error::{EditError, ErrorView, outcome, status};
use crate::fs::{EditFs, Files, InMemoryFs};
use crate::fuzzy::{DEFAULT_FUZZY_THRESHOLD, opt_int};
use crate::methods::patch_method::{
    change_diff, diff_change, invalid_input, opt_diff, opt_diff_first, opt_diff_text, own,
};
use crate::normalize::lines_of;
use crate::parser::{lemma_side_skip, side};
use crate::splice::{
    Replacement, ReplacementView, by_start, lemma_by_start_in_order, replace_back, replaced_back,
    replacement_views, sort_replacements,
};
use crate::text::{
    after_prefix, before_suffix, begins, blank, capped, copy_range, copy_texts, ends, ends_with,
    is_blank, is_white, join, joined, law_pieces_join, lemma_joined_add, lemma_untrimmed, opt_nat,
    opt_view, push_text, same, spliced, split_on, starts_with, strip_prefix, strip_suffix,
    to_chars, trim, trim_end, trimmed, trimmed_end, views,
};
use crate::traits::{
    ChangeOp, ChangeView, EditMethod, EditResult, FileChange, ResultView, change_views,
};
use crate::value::Value;
use vstd::prelude::*;
use vstd::string::*;

verus! {

/// The prompt of the method.
pub const CODEX_PROMPT: &'static str = "Applies a patch to one or more files.

The input is the raw patch text:
- `*** Begin Patch` and `*** End Patch` enclose the patch.
- `*** Add File: <path>`: each following line starts with `+`.
- `*** Delete File: <path>`: nothing follows.
- `*** Update File: <path>`: optionally `*** Move to: <path>`, then hunks.

Hunks:
- A hunk starts with `@@`, optionally followed by a line that precedes it.
- Each line starts with ` ` (context), `+` (added) or `-` (removed).
- `*** End of File` ends a hunk at the end of the file.\n";

/// The schema of the input of the method.
pub const CODEX_SCHEMA: &'static str = "{
  \"type\": \"string\"
}\n";

/// The grammar of a patch.
pub const CONTENT_FORMAT_LARK: &'static str = "start: begin_patch hunk+ end_patch
begin_patch: \"*** Begin Patch\" LF
end_patch: \"*** End Patch\" LF?

hunk: add_hunk | delete_hunk | update_hunk
add_hunk: \"*** Add File: \" filename LF add_line*
delete_hunk: \"*** Delete File: \" filename LF
update_hunk: \"*** Update File: \" filename LF change_move? change+

filename: /(.+)/
add_line: \"+\" /(.*)/ LF

change_move: \"*** Move to: \" filename LF
change: change_context? change_line+ eof_line?
change_context: (\"@@\" | \"@@ \" /(.+)/) LF
change_line: (\"+\" | \"-\" | \" \") /(.*)/ LF
eof_line: \"*** End of File\" LF

%import common.LF\n";

/// The first line of a patch.
pub const BEGIN_PATCH_MARKER: &'static str = "*** Begin Patch";

/// The last line of a patch.
pub const END_PATCH_MARKER: &'static str = "*** End Patch";

/// What comes before the path of a file that is added.
pub const ADD_FILE_MARKER: &'static str = "*** Add File: ";

/// What comes before the path of a file that is deleted.
pub const DELETE_FILE_MARKER: &'static str = "*** Delete File: ";

/// What comes before the path of a file that is updated.
pub const UPDATE_FILE_MARKER: &'static str = "*** Update File: ";

/// What comes before the path that a file is moved to.
pub const MOVE_TO_MARKER: &'static str = "*** Move to: ";

/// The line that ends a hunk at the end of the file.
pub const EOF_MARKER: &'static str = "*** End of File";

/// What comes before the context of a hunk.
pub const CHANGE_CONTEXT_MARKER: &'static str = "@@ ";

/// The first line of a hunk without context.
pub const EMPTY_CHANGE_CONTEXT_MARKER: &'static str = "@@";

/// A hunk of a file that is updated.
#[derive(Debug, PartialEq, Eq)]
pub struct CodexDiffHunk {
    /// The line that precedes it.
    pub change_context: Option<String>,
    /// Lines of the old file.
    pub old_lines: Vec<String>,
    /// Lines of the new file.
    pub new_lines: Vec<String>,
    /// Whether it ends the file.
    pub is_end_of_file: bool,
}

/// A hunk, by its contents.
#[verifier::ext_equal]
pub ghost struct CodexHunkView {
    /// The line that precedes it.
    pub context: Option<Seq<char>>,
    /// Lines of the old file.
    pub old: Seq<Seq<char>>,
    /// Lines of the new file.
    pub new: Seq<Seq<char>>,
    /// Whether it ends the file.
    pub eof: bool,
}

impl View for CodexDiffHunk {
    type V = CodexHunkView;

    open spec fn view(&self) -> CodexHunkView {
        CodexHunkView {
            context: opt_view(self.change_context),
            old: views(self.old_lines@),
            new: views(self.new_lines@),
            eof: self.is_end_of_file,
        }
    }
}

/// The hunks, by their contents.
pub open spec fn codex_hunk_views(v: Seq<CodexDiffHunk>) -> Seq<CodexHunkView> {
    Seq::new(v.len(), |i: int| v[i]@)
}

/// What a patch does with a file.
#[derive(Debug, PartialEq, Eq)]
pub enum CodexFileOp {
    /// The file is written.
    Add { path: String, contents: String },
    /// The file is deleted.
    Delete { path: String },
    /// The file is changed, and maybe moved.
    Update { path: String, move_to: Option<String>, hunks: Vec<CodexDiffHunk> },
}

/// What a patch does with a file, by its contents.
#[verifier::ext_equal]
pub ghost enum FileOpView {
    /// The file is written.
    Add { path: Seq<char>, contents: Seq<char> },
    /// The file is deleted.
    Delete { path: Seq<char> },
    /// The file is changed, and maybe moved.
    Update { path: Seq<char>, move_to: Option<Seq<char>>, hunks: Seq<CodexHunkView> },
}

impl View for CodexFileOp {
    type V = FileOpView;

    open spec fn view(&self) -> FileOpView {
        match self {
            CodexFileOp::Add { path, contents } => FileOpView::Add {
                path: path@,
                contents: contents@,
            },
            CodexFileOp::Delete { path } => FileOpView::Delete { path: path@ },
            CodexFileOp::Update { path, move_to, hunks } => FileOpView::Update {
                path: path@,
                move_to: opt_view(*move_to),
                hunks: codex_hunk_views(hunks@),
            },
        }
    }
}

/// The operations, by their contents.
pub open spec fn file_op_views(v: Seq<CodexFileOp>) -> Seq<FileOpView> {
    Seq::new(v.len(), |i: int| v[i]@)
}

/// An error in a patch at a line.
pub open spec fn patch_error(message: Seq<char>, line: Option<nat>) -> ErrorView {
    ErrorView::ParseError { message, line_number: line }
}

/// The lines of a text: each ends at a line feed, without a carriage return
/// before it, and there is none behind the last.
pub open spec fn text_lines(s: Seq<char>) -> Seq<Seq<char>> {
    let all = lines_of(s);
    let n = if all.last().len() == 0 {
        all.len() - 1
    } else {
        all.len() as int
    };
    Seq::new(
        n as nat,
        |i: int|
            if i < all.len() - 1 {
                without_return(all[i])
            } else {
                all[i]
            },
    )
}

/// A line without a carriage return at its end.
pub open spec fn without_return(line: Seq<char>) -> Seq<char> {
    match before_suffix(line, "\r"@) {
        Some(s) => s,
        None => line,
    }
}

/// Whether the first and the last line enclose a patch.
pub open spec fn boundaries(lines: Seq<Seq<char>>) -> Result<(), ErrorView> {
    if lines.len() > 0 && trimmed(lines[0]) != BEGIN_PATCH_MARKER@ {
        Err(patch_error("The first line of the patch must be '*** Begin Patch'"@, None))
    } else if lines.len() > 0 && trimmed(lines.last()) == END_PATCH_MARKER@ {
        Ok(())
    } else {
        Err(patch_error("The last line of the patch must be '*** End Patch'"@, None))
    }
}

/// Whether the lines are those of a here-document.
pub open spec fn is_heredoc(lines: Seq<Seq<char>>) -> bool {
    lines.len() >= 4 && (lines[0] == "<<EOF"@ || lines[0] == "<<'EOF'"@ || lines[0]
        == "<<\"EOF\""@) && ends(lines.last(), "EOF"@)
}

/// The lines of a patch, out of a here-document where they are in one.
pub open spec fn enclosed(lines: Seq<Seq<char>>) -> Result<Seq<Seq<char>>, ErrorView> {
    match boundaries(lines) {
        Ok(_) => Ok(lines),
        Err(e) => if is_heredoc(lines) {
            let inner = lines.subrange(1, lines.len() - 1);
            match boundaries(inner) {
                Ok(_) => Ok(inner),
                Err(f) => Err(f),
            }
        } else {
            Err(e)
        },
    }
}

/// The header of a hunk: its context, and how many lines it takes.
pub open spec fn chunk_head(line: Seq<char>, number: nat, allow_missing: bool) -> Result<
    (Option<Seq<char>>, int),
    ErrorView,
> {
    if line == EMPTY_CHANGE_CONTEXT_MARKER@ {
        Ok((None, 1))
    } else {
        match after_prefix(line, CHANGE_CONTEXT_MARKER@) {
            Some(context) => Ok((Some(context), 1)),
            None => if allow_missing {
                Ok((None, 0))
            } else {
                Err(
                    patch_error(
                        "Expected update hunk to start with a @@ context marker, got: '"@ + line
                            + "'"@,
                        Some(number),
                    ),
                )
            },
        }
    }
}

/// A hunk and the number of lines that it takes.
#[verifier::ext_equal]
pub ghost struct ChunkView {
    /// The hunk.
    pub hunk: CodexHunkView,
    /// Where it ends.
    pub end: int,
}

/// The error for a hunk without lines.
pub open spec fn empty_chunk(number: nat) -> ErrorView {
    patch_error("Update hunk does not contain any lines"@, Some(number))
}

/// A hunk with one more line; none where the line is no line of a hunk.
pub open spec fn with_chunk_line(h: CodexHunkView, line: Seq<char>) -> Option<CodexHunkView> {
    if line.len() == 0 {
        Some(CodexHunkView { old: h.old.push(line), new: h.new.push(line), ..h })
    } else if line[0] == ' ' {
        Some(CodexHunkView { old: h.old.push(line.skip(1)), new: h.new.push(line.skip(1)), ..h })
    } else if line[0] == '+' {
        Some(CodexHunkView { new: h.new.push(line.skip(1)), ..h })
    } else if line[0] == '-' {
        Some(CodexHunkView { old: h.old.push(line.skip(1)), ..h })
    } else {
        None
    }
}

/// The error for a line that is no line of a hunk.
pub open spec fn unexpected_line(line: Seq<char>, number: nat) -> ErrorView {
    patch_error(
        "Unexpected line found in update hunk: '"@ + line
            + "'. Every line should start with ' ' (context line), '+' (added line), or '-' (removed line)"@,
        Some(number),
    )
}

/// The lines of a hunk that begin at `start`, from `i` on.
pub open spec fn chunk_body(
    lines: Seq<Seq<char>>,
    start: int,
    i: int,
    number: nat,
    h: CodexHunkView,
) -> Result<ChunkView, ErrorView>
    decreases lines.len() - i,
{
    let line = lines[i];
    if i < 0 || i >= lines.len() {
        Ok(ChunkView { hunk: h, end: i })
    } else if line == EOF_MARKER@ {
        if i == start {
            Err(empty_chunk(capped(number + 1int)))
        } else {
            Ok(ChunkView { hunk: CodexHunkView { eof: true, ..h }, end: i + 1 })
        }
    } else {
        match with_chunk_line(h, line) {
            Some(more) => chunk_body(lines, start, i + 1, number, more),
            None => if i == start {
                Err(unexpected_line(line, capped(number + 1int)))
            } else {
                Ok(ChunkView { hunk: h, end: i })
            },
        }
    }
}

/// The hunk at the beginning of `lines`.
pub open spec fn chunk_of(lines: Seq<Seq<char>>, number: nat, allow_missing: bool) -> Result<
    ChunkView,
    ErrorView,
> {
    if lines.len() == 0 {
        Err(empty_chunk(number))
    } else {
        match chunk_head(lines[0], number, allow_missing) {
            Err(e) => Err(e),
            Ok((context, start)) => if start >= lines.len() {
                Err(empty_chunk(capped(number + 1int)))
            } else {
                chunk_body(
                    lines,
                    start,
                    start,
                    number,
                    CodexHunkView {
                        context,
                        old: Seq::empty(),
                        new: Seq::empty(),
                        eof: false,
                    },
                )
            },
        }
    }
}

/// Hunks and where they end.
#[verifier::ext_equal]
pub ghost struct ChunksView {
    /// The hunks.
    pub hunks: Seq<CodexHunkView>,
    /// Where they end.
    pub end: int,
}

/// The hunks from line `i` of `lines` on, after `done`. The first of `lines` has
/// the given number.
pub open spec fn chunks_from(
    lines: Seq<Seq<char>>,
    i: int,
    number: nat,
    done: Seq<CodexHunkView>,
) -> Result<ChunksView, ErrorView>
    decreases lines.len() - i,
{
    if i < 0 || i >= lines.len() {
        Ok(ChunksView { hunks: done, end: i })
    } else if is_blank(lines[i]) {
        chunks_from(lines, i + 1, number, done)
    } else if begins(lines[i], "***"@) {
        Ok(ChunksView { hunks: done, end: i })
    } else {
        match chunk_of(lines.skip(i), capped(number + i), done.len() == 0) {
            Err(e) => Err(e),
            Ok(c) => if 0 < c.end <= lines.len() - i {
                chunks_from(lines, i + c.end, number, done.push(c.hunk))
            } else {
                Ok(ChunksView { hunks: done, end: i })
            },
        }
    }
}

/// The text of the added lines from `i` on, and where they end.
pub open spec fn added_text(lines: Seq<Seq<char>>, i: int, done: Seq<char>) -> (Seq<char>, int)
    decreases lines.len() - i,
{
    if i < 0 || i >= lines.len() {
        (done, i)
    } else {
        match after_prefix(lines[i], "+"@) {
            Some(rest) => added_text(lines, i + 1, done + rest + "\n"@),
            None => (done, i),
        }
    }
}

/// An operation and where it ends.
#[verifier::ext_equal]
pub ghost struct ParsedOp {
    /// The operation.
    pub op: FileOpView,
    /// Where it ends.
    pub end: int,
}

/// The operation that updates a file, from its lines.
pub open spec fn update_op(lines: Seq<Seq<char>>, path: Seq<char>, number: nat) -> Result<
    ParsedOp,
    ErrorView,
> {
    let move_to = if lines.len() > 1 {
        after_prefix(lines[1], MOVE_TO_MARKER@)
    } else {
        None
    };
    let start = if move_to is Some {
        2
    } else {
        1int
    };
    match chunks_from(lines, start, number, Seq::empty()) {
        Err(e) => Err(e),
        Ok(c) => if c.hunks.len() == 0 {
            Err(patch_error("Update file hunk for path '"@ + path + "' is empty"@, Some(number)))
        } else {
            Ok(ParsedOp { op: FileOpView::Update { path, move_to, hunks: c.hunks }, end: c.end })
        },
    }
}

/// The operation at the beginning of `lines`.
pub open spec fn op_of(lines: Seq<Seq<char>>, number: nat) -> Result<ParsedOp, ErrorView> {
    if lines.len() == 0 {
        Err(patch_error("Patch body is empty"@, Some(number)))
    } else {
        let header = trimmed(lines[0]);
        let add = after_prefix(header, ADD_FILE_MARKER@);
        let delete = after_prefix(header, DELETE_FILE_MARKER@);
        let update = after_prefix(header, UPDATE_FILE_MARKER@);
        if add is Some {
            let (contents, end) = added_text(lines, 1, Seq::empty());
            Ok(ParsedOp { op: FileOpView::Add { path: add->0, contents }, end })
        } else if delete is Some {
            Ok(ParsedOp { op: FileOpView::Delete { path: delete->0 }, end: 1 })
        } else if update is Some {
            update_op(lines, update->0, number)
        } else {
            Err(
                patch_error(
                    "'"@ + header
                        + "' is not a valid hunk header. Valid hunk headers: '*** Add File: {path}', '*** Delete File: {path}', '*** Update File: {path}'"@,
                    Some(number),
                ),
            )
        }
    }
}

/// The operations from line `i` of the body of a patch on, after `done`. The
/// first line of the body is the second of the patch.
pub open spec fn ops_from(lines: Seq<Seq<char>>, i: int, done: Seq<FileOpView>) -> Result<
    Seq<FileOpView>,
    ErrorView,
>
    decreases lines.len() - i,
{
    if i < 0 || i >= lines.len() {
        Ok(done)
    } else {
        match op_of(lines.skip(i), capped(i + 2)) {
            Err(e) => Err(e),
            Ok(p) => if 0 < p.end <= lines.len() - i {
                ops_from(lines, i + p.end, done.push(p.op))
            } else {
                Ok(done)
            },
        }
    }
}

/// The operations of a patch.
pub open spec fn ops_of(patch: Seq<char>) -> Result<Seq<FileOpView>, ErrorView> {
    match enclosed(text_lines(trimmed(patch))) {
        Err(e) => Err(e),
        Ok(lines) => ops_from(lines.subrange(1, lines.len() - 1), 0, Seq::empty()),
    }
}

/// The operations, by their contents.
pub open spec fn ops_outcome(r: Result<Vec<CodexFileOp>, EditError>) -> Result<
    Seq<FileOpView>,
    ErrorView,
> {
    match r {
        Ok(v) => Ok(file_op_views(v@)),
        Err(e) => Err(e@),
    }
}

fn split_lines(s: &str) -> (r: Vec<String>)
    ensures
        views(r@) == text_lines(s@),
        r@.len() == views(r@).len(),
{
    let all = split_on(s, '\n');
    let ghost ls = lines_of(s@);
    assert(ls.len() == all@.len());
    assert(ls.last() == all@[all@.len() - 1]@);
    let last: usize = all.len() - 1;
    let n: usize = if all[last].as_str().is_empty() {
        last
    } else {
        all.len()
    };
    let ghost target = text_lines(s@);
    let mut out: Vec<String> = Vec::new();
    let mut i: usize = 0;
    assert(target.take(0) =~= Seq::empty());
    assert(views(out@) =~= Seq::empty());
    while i < n
        invariant
            views(all@) == ls,
            last == all@.len() - 1,
            n <= all@.len(),
            target.len() == n,
            forall|k: int|
                0 <= k < n ==> #[trigger] target[k] == (if k < ls.len() - 1 {
                    without_return(ls[k])
                } else {
                    ls[k]
                }),
            i <= n,
            views(out@) == target.take(i as int),
        decreases n - i,
    {
        let line = all[i].as_str();
        assert(ls[i as int] == line@);
        if i < last {
            match strip_suffix(line, "\r") {
                Some(rest) => {
                    push_text(&mut out, rest);
                },
                None => {
                    push_text(&mut out, line);
                },
            }
        } else {
            push_text(&mut out, line);
        }
        assert(target.take(i + 1) =~= target.take(i as int).push(target[i as int]));
        i = i + 1;
    }
    assert(target.take(i as int) =~= target);
    out
}

fn parse_failure_at(message: &str, line: Option<usize>) -> (e: EditError)
    ensures
        e@ == patch_error(message@, opt_nat(line)),
{
    EditError::ParseError { message: message.to_owned(), line_number: line }
}

fn check_patch_boundaries_strict(lines: &[String]) -> (r: Result<(), EditError>)
    ensures
        status(r) == boundaries(views(lines@)),
{
    let ghost l = views(lines@);
    let n: usize = lines.len();
    if n > 0 {
        assert(l[0] == lines@[0]@);
        assert(l.last() == lines@[n - 1]@);
        if !same(trim(lines[0].as_str()), BEGIN_PATCH_MARKER) {
            return Err(
                parse_failure_at("The first line of the patch must be '*** Begin Patch'", None),
            );
        }
        if same(trim(lines[n - 1].as_str()), END_PATCH_MARKER) {
            return Ok(());
        }
    }
    Err(parse_failure_at("The last line of the patch must be '*** End Patch'", None))
}

spec fn lines_outcome(r: Result<Vec<String>, EditError>) -> Result<Seq<Seq<char>>, ErrorView> {
    match r {
        Ok(v) => Ok(views(v@)),
        Err(e) => Err(e@),
    }
}

fn check_patch_boundaries_lenient(lines: &[String], original: EditError) -> (r: Result<
    Vec<String>,
    EditError,
>)
    requires
        boundaries(views(lines@)) == Err::<(), ErrorView>(original@),
    ensures
        lines_outcome(r) == enclosed(views(lines@)),
{
    let ghost l = views(lines@);
    let n: usize = lines.len();
    if n >= 4 {
        assert(l[0] == lines@[0]@);
        assert(l.last() == lines@[n - 1]@);
        let first = lines[0].as_str();
        if (same(first, "<<EOF") || same(first, "<<'EOF'") || same(first, "<<\"EOF\"")) && ends_with(
            lines[n - 1].as_str(),
            "EOF",
        ) {
            let inner = copy_range(lines, 1, n - 1);
            return match check_patch_boundaries_strict(&inner) {
                Ok(_) => Ok(inner),
                Err(e) => Err(e),
            };
        }
    }
    Err(original)
}

struct Chunk {
    hunk: CodexDiffHunk,
    end: usize,
}

spec fn chunk_outcome(r: Result<Chunk, EditError>) -> Result<ChunkView, ErrorView> {
    match r {
        Ok(c) => Ok(ChunkView { hunk: c.hunk@, end: c.end as int }),
        Err(e) => Err(e@),
    }
}

fn report_unexpected(line: &str, number: usize) -> (e: EditError)
    ensures
        e@ == unexpected_line(line@, number as nat),
{
    let mut message = "Unexpected line found in update hunk: '".to_owned();
    message.append(line);
    message.append(
        "'. Every line should start with ' ' (context line), '+' (added line), or '-' (removed line)",
    );
    EditError::ParseError { message, line_number: Some(number) }
}

/// Reads the lines of a hunk.
fn parse_chunk_body(
    lines: &[String],
    start: usize,
    number: usize,
    context: Option<String>,
) -> (r: Result<Chunk, EditError>)
    requires
        start < lines@.len(),
    ensures
        chunk_outcome(r) == chunk_body(
            views(lines@),
            start as int,
            start as int,
            number as nat,
            CodexHunkView {
                context: opt_view(context),
                old: Seq::empty(),
                new: Seq::empty(),
                eof: false,
            },
        ),
        r matches Ok(c) ==> start < c.end <= lines@.len(),
{
    let ghost l = views(lines@);
    let mut hunk = CodexDiffHunk {
        change_context: context,
        old_lines: Vec::new(),
        new_lines: Vec::new(),
        is_end_of_file: false,
    };
    let ghost first = CodexHunkView {
        context: opt_view(context),
        old: Seq::empty(),
        new: Seq::empty(),
        eof: false,
    };
    let ghost goal = chunk_body(l, start as int, start as int, number as nat, first);
    assert(hunk@ =~= first);
    let next: usize = number.saturating_add(1);
    let mut i: usize = start;
    while i < lines.len()
        invariant
            l == views(lines@),
            start <= i <= lines@.len(),
            next == capped(number + 1),
            goal == chunk_body(l, start as int, i as int, number as nat, hunk@),
            goal == chunk_body(l, start as int, start as int, number as nat, first),
            first == (CodexHunkView {
                context: opt_view(context),
                old: Seq::empty(),
                new: Seq::empty(),
                eof: false,
            }),
        decreases lines@.len() - i,
    {
        let line = lines[i].as_str();
        assert(l[i as int] == line@);
        let ghost before = hunk@;
        if same(line, EOF_MARKER) {
            if i == start {
                return Err(parse_failure_at("Update hunk does not contain any lines", Some(next)));
            }
            hunk.is_end_of_file = true;
            assert(hunk@ =~= (CodexHunkView { eof: true, ..before }));
            return Ok(Chunk { hunk, end: i + 1 });
        }
        if line.is_empty() {
            push_text(&mut hunk.old_lines, line);
            push_text(&mut hunk.new_lines, line);
            assert(Some(hunk@) == with_chunk_line(before, line@));
        } else {
            let c = line.get_char(0);
            let rest = line.substring_char(1, line.unicode_len());
            assert(rest@ =~= line@.skip(1));
            if c == ' ' {
                push_text(&mut hunk.old_lines, rest);
                push_text(&mut hunk.new_lines, rest);
                assert(Some(hunk@) == with_chunk_line(before, line@));
            } else if c == '+' {
                push_text(&mut hunk.new_lines, rest);
                assert(Some(hunk@) == with_chunk_line(before, line@));
            } else if c == '-' {
                push_text(&mut hunk.old_lines, rest);
                assert(Some(hunk@) == with_chunk_line(before, line@));
            } else {
                if i == start {
                    return Err(report_unexpected(line, next));
                }
                return Ok(Chunk { hunk, end: i });
            }
        }
        i = i + 1;
    }
    Ok(Chunk { hunk, end: i })
}

/// Reads the hunk at the beginning of `lines`.
fn parse_update_file_chunk(lines: &[String], number: usize, allow_missing_context: bool) -> (r:
    Result<Chunk, EditError>)
    ensures
        chunk_outcome(r) == chunk_of(views(lines@), number as nat, allow_missing_context),
        r matches Ok(c) ==> 0 < c.end <= lines@.len(),
{
    let ghost l = views(lines@);
    assert(l.len() == lines@.len());
    if lines.len() == 0 {
        return Err(parse_failure_at("Update hunk does not contain any lines", Some(number)));
    }
    let line = lines[0].as_str();
    assert(l[0] == line@);
    let (context, start): (Option<String>, usize) = if same(line, EMPTY_CHANGE_CONTEXT_MARKER) {
        (None, 1)
    } else {
        match strip_prefix(line, CHANGE_CONTEXT_MARKER) {
            Some(c) => (Some(c.to_owned()), 1),
            None => {
                if !allow_missing_context {
                    let mut message =
                        "Expected update hunk to start with a @@ context marker, got: '".to_owned();
                    message.append(line);
                    message.append("'");
                    return Err(EditError::ParseError { message, line_number: Some(number) });
                }
                (None, 0)
            },
        }
    };
    if start >= lines.len() {
        return Err(
            parse_failure_at(
                "Update hunk does not contain any lines",
                Some(number.saturating_add(1)),
            ),
        );
    }
    parse_chunk_body(lines, start, number, context)
}

struct Chunks {
    hunks: Vec<CodexDiffHunk>,
    end: usize,
}

spec fn chunks_outcome(r: Result<Chunks, EditError>) -> Result<ChunksView, ErrorView> {
    match r {
        Ok(c) => Ok(ChunksView { hunks: codex_hunk_views(c.hunks@), end: c.end as int }),
        Err(e) => Err(e@),
    }
}

fn parse_chunks(lines: &[String], start: usize, number: usize) -> (r: Result<Chunks, EditError>)
    requires
        start <= lines@.len(),
    ensures
        chunks_outcome(r) == chunks_from(
            views(lines@),
            start as int,
            number as nat,
            Seq::empty(),
        ),
        r matches Ok(c) ==> start <= c.end <= lines@.len(),
{
    let ghost l = views(lines@);
    let ghost goal = chunks_from(l, start as int, number as nat, Seq::empty());
    let n: usize = lines.len();
    let mut hunks: Vec<CodexDiffHunk> = Vec::new();
    let mut i: usize = start;
    assert(codex_hunk_views(hunks@) =~= Seq::empty());
    while i < n
        invariant
            n == lines@.len(),
            l == views(lines@),
            start <= i <= n,
            goal == chunks_from(l, i as int, number as nat, codex_hunk_views(hunks@)),
            goal == chunks_from(l, start as int, number as nat, Seq::empty()),
        decreases n - i,
    {
        let line = lines[i].as_str();
        assert(l[i as int] == line@);
        if blank(line) {
            i = i + 1;
            continue;
        }
        if starts_with(line, "***") {
            return Ok(Chunks { hunks, end: i });
        }
        let rest = vstd::slice::slice_subrange(lines, i, n);
        assert(views(rest@) =~= l.skip(i as int));
        assert(codex_hunk_views(hunks@).len() == hunks@.len());
        let missing = hunks.len() == 0;
        match parse_update_file_chunk(rest, number.saturating_add(i), missing) {
            Ok(c) => {
                let ghost before = hunks@;
                let ghost hv = c.hunk@;
                let end: usize = c.end;
                hunks.push(c.hunk);
                assert(codex_hunk_views(hunks@) =~= codex_hunk_views(before).push(hv));
                i = i + end;
            },
            Err(e) => {
                return Err(e);
            },
        }
    }
    Ok(Chunks { hunks, end: i })
}

struct Parsed {
    op: CodexFileOp,
    end: usize,
}

spec fn parsed_outcome(r: Result<Parsed, EditError>) -> Result<ParsedOp, ErrorView> {
    match r {
        Ok(p) => Ok(ParsedOp { op: p.op@, end: p.end as int }),
        Err(e) => Err(e@),
    }
}

fn parse_update(lines: &[String], path: &str, number: usize) -> (r: Result<Parsed, EditError>)
    requires
        lines@.len() > 0,
    ensures
        parsed_outcome(r) == update_op(views(lines@), path@, number as nat),
        r matches Ok(p) ==> 0 < p.end <= lines@.len(),
{
    let ghost l = views(lines@);
    assert(l.len() == lines@.len());
    let mut move_to: Option<String> = None;
    let mut start: usize = 1;
    if lines.len() > 1 {
        assert(l[1] == lines@[1]@);
        match strip_prefix(lines[1].as_str(), MOVE_TO_MARKER) {
            Some(to) => {
                move_to = Some(to.to_owned());
                start = 2;
            },
            None => {},
        }
    }
    let c = match parse_chunks(lines, start, number) {
        Ok(x) => x,
        Err(e) => {
            return Err(e);
        },
    };
    assert(codex_hunk_views(c.hunks@).len() == c.hunks@.len());
    if c.hunks.len() == 0 {
        let mut message = "Update file hunk for path '".to_owned();
        message.append(path);
        message.append("' is empty");
        return Err(EditError::ParseError { message, line_number: Some(number) });
    }
    Ok(
        Parsed {
            op: CodexFileOp::Update { path: path.to_owned(), move_to, hunks: c.hunks },
            end: c.end,
        },
    )
}

fn read_added(lines: &[String]) -> (r: (String, usize))
    requires
        lines@.len() > 0,
    ensures
        (r.0@, r.1 as int) == added_text(views(lines@), 1, Seq::empty()),
        0 < r.1 <= lines@.len(),
{
    let ghost l = views(lines@);
    let mut contents: String = String::new();
    let mut i: usize = 1;
    assert(contents@ =~= Seq::empty());
    while i < lines.len()
        invariant
            l == views(lines@),
            1 <= i <= lines@.len(),
            added_text(l, 1, Seq::empty()) == added_text(l, i as int, contents@),
        decreases lines@.len() - i,
    {
        assert(l[i as int] == lines@[i as int]@);
        match strip_prefix(lines[i].as_str(), "+") {
            Some(rest) => {
                contents.append(rest);
                contents.append("\n");
            },
            None => {
                return (contents, i);
            },
        }
        i = i + 1;
    }
    (contents, i)
}

/// Reads the operation at the beginning of `lines`.
fn parse_one_file_op(lines: &[String], number: usize) -> (r: Result<Parsed, EditError>)
    ensures
        parsed_outcome(r) == op_of(views(lines@), number as nat),
        r matches Ok(p) ==> 0 < p.end <= lines@.len(),
{
    let ghost l = views(lines@);
    assert(l.len() == lines@.len());
    if lines.len() == 0 {
        return Err(parse_failure_at("Patch body is empty", Some(number)));
    }
    assert(l[0] == lines@[0]@);
    let header = trim(lines[0].as_str());
    match strip_prefix(header, ADD_FILE_MARKER) {
        Some(path) => {
            let (contents, end) = read_added(lines);
            return Ok(Parsed { op: CodexFileOp::Add { path: path.to_owned(), contents }, end });
        },
        None => {},
    }
    match strip_prefix(header, DELETE_FILE_MARKER) {
        Some(path) => {
            return Ok(Parsed { op: CodexFileOp::Delete { path: path.to_owned() }, end: 1 });
        },
        None => {},
    }
    match strip_prefix(header, UPDATE_FILE_MARKER) {
        Some(path) => {
            return parse_update(lines, path, number);
        },
        None => {},
    }
    let mut message = "'".to_owned();
    message.append(header);
    message.append(
        "' is not a valid hunk header. Valid hunk headers: '*** Add File: {path}', '*** Delete File: {path}', '*** Update File: {path}'",
    );
    Err(EditError::ParseError { message, line_number: Some(number) })
}

/// Reads the operations of a patch.
pub fn parse_codex_patch(input: &str) -> (r: Result<Vec<CodexFileOp>, EditError>)
    ensures
        ops_outcome(r) == ops_of(input@),
{
    let raw = split_lines(trim(input));
    let lines = match check_patch_boundaries_strict(&raw) {
        Ok(_) => raw,
        Err(e) => match check_patch_boundaries_lenient(&raw, e) {
            Ok(inner) => inner,
            Err(f) => {
                return Err(f);
            },
        },
    };
    let ghost l = views(lines@);
    proof {
        assert(l.len() == lines@.len());
        assert(boundaries(l) is Ok);
        lemma_boundaries(l);
    }
    let last: usize = lines.len() - 1;
    let body = vstd::slice::slice_subrange(lines.as_slice(), 1, last);
    let ghost b = l.subrange(1, l.len() - 1);
    assert(views(body@) =~= b);
    let n: usize = body.len();
    let ghost goal = ops_from(b, 0, Seq::empty());
    let mut ops: Vec<CodexFileOp> = Vec::new();
    let mut i: usize = 0;
    assert(file_op_views(ops@) =~= Seq::empty());
    while i < n
        invariant
            n == body@.len(),
            views(body@) == b,
            i <= n,
            goal == ops_from(b, i as int, file_op_views(ops@)),
            goal == ops_of(input@),
        decreases n - i,
    {
        let rest = vstd::slice::slice_subrange(body, i, n);
        assert(views(rest@) =~= b.skip(i as int));
        match parse_one_file_op(rest, i.saturating_add(2)) {
            Ok(p) => {
                let ghost before = ops@;
                let ghost ov = p.op@;
                let end: usize = p.end;
                ops.push(p.op);
                assert(file_op_views(ops@) =~= file_op_views(before).push(ov));
                i = i + end;
            },
            Err(e) => {
                return Err(e);
            },
        }
    }
    Ok(ops)
}

/// The first and the last line of a patch are two.
proof fn lemma_boundaries(lines: Seq<Seq<char>>)
    requires
        boundaries(lines) is Ok,
    ensures
        lines.len() >= 2,
{
    reveal_strlit("*** Begin Patch");
    reveal_strlit("*** End Patch");
    if lines.len() == 1 {
        assert(BEGIN_PATCH_MARKER@.len() != END_PATCH_MARKER@.len());
    }
}

/// A rule by which a line of a file agrees with a line of a hunk.
#[derive(Debug, Clone, Copy, PartialEq, Eq, Structural)]
pub enum CodexRule {
    /// They are equal.
    Exact,
    /// They are equal without white space at the end.
    TrimEnd,
    /// They are equal when trimmed.
    Trim,
    /// They are equal with plain punctuation.
    Plain,
}

/// A character, with dashes, quotes and spaces made plain.
pub open spec fn plain_char(c: char) -> char {
    if '\u{2010}' <= c <= '\u{2015}' || c == '\u{2212}' {
        '-'
    } else if '\u{2018}' <= c <= '\u{201B}' {
        '\''
    } else if '\u{201C}' <= c <= '\u{201F}' {
        '"'
    } else if c == '\u{00A0}' || '\u{2002}' <= c <= '\u{200A}' || c == '\u{202F}' || c == '\u{205F}'
        || c == '\u{3000}' {
        ' '
    } else {
        c
    }
}

/// A trimmed line with plain characters.
pub open spec fn plain_line(line: Seq<char>) -> Seq<char> {
    trimmed(line).map_values(|c: char| plain_char(c))
}

/// Whether a line of a file agrees with a line of a hunk.
pub open spec fn rule_agrees(rule: CodexRule, a: Seq<char>, b: Seq<char>) -> bool {
    match rule {
        CodexRule::Exact => a == b,
        CodexRule::TrimEnd => trimmed_end(a) == trimmed_end(b),
        CodexRule::Trim => trimmed(a) == trimmed(b),
        CodexRule::Plain => plain_line(a) == plain_line(b),
    }
}

/// Whether the lines at `i` agree with the pattern.
pub open spec fn rule_holds_at(
    lines: Seq<Seq<char>>,
    pattern: Seq<Seq<char>>,
    rule: CodexRule,
    i: int,
) -> bool {
    forall|k: int|
        0 <= k < pattern.len() ==> rule_agrees(rule, lines[i + k], #[trigger] pattern[k])
}

/// The first place, from `i` on, where the lines agree with the pattern.
pub open spec fn rule_place(
    lines: Seq<Seq<char>>,
    pattern: Seq<Seq<char>>,
    rule: CodexRule,
    i: int,
) -> Option<int>
    decreases lines.len() - pattern.len() + 1 - i,
{
    if i + pattern.len() > lines.len() {
        None
    } else if rule_holds_at(lines, pattern, rule, i) {
        Some(i)
    } else {
        rule_place(lines, pattern, rule, i + 1)
    }
}

/// Where a sequence of lines is found: by equality, or else, where that is
/// allowed, without regard to white space at the end, to white space at both
/// ends, and to punctuation. At the end of the file only its last lines count.
pub open spec fn codex_place(
    lines: Seq<Seq<char>>,
    pattern: Seq<Seq<char>>,
    start: int,
    eof: bool,
    lenient: bool,
) -> Option<int> {
    let from = if eof {
        lines.len() - pattern.len()
    } else {
        start
    };
    let exact = rule_place(lines, pattern, CodexRule::Exact, from);
    let end = rule_place(lines, pattern, CodexRule::TrimEnd, from);
    let both = rule_place(lines, pattern, CodexRule::Trim, from);
    if pattern.len() == 0 {
        Some(start)
    } else if pattern.len() > lines.len() {
        None
    } else if exact is Some || !lenient {
        exact
    } else if end is Some {
        end
    } else if both is Some {
        both
    } else {
        rule_place(lines, pattern, CodexRule::Plain, from)
    }
}

fn make_plain(c: char) -> (r: char)
    ensures
        r == plain_char(c),
{
    if ('\u{2010}' <= c && c <= '\u{2015}') || c == '\u{2212}' {
        '-'
    } else if '\u{2018}' <= c && c <= '\u{201B}' {
        '\''
    } else if '\u{201C}' <= c && c <= '\u{201F}' {
        '"'
    } else if c == '\u{00A0}' || ('\u{2002}' <= c && c <= '\u{200A}') || c == '\u{202F}' || c
        == '\u{205F}' || c == '\u{3000}' {
        ' '
    } else {
        c
    }
}

fn normalize_codex_line(line: &str) -> (r: String)
    ensures
        r@ == plain_line(line@),
{
    let v = to_chars(trim(line));
    let ghost target = plain_line(line@);
    let mut r: String = String::new();
    let mut i: usize = 0;
    assert(r@ =~= target.take(0));
    while i < v.len()
        invariant
            v@ == trimmed(line@),
            target == plain_line(line@),
            i <= v@.len(),
            r@ == target.take(i as int),
        decreases v@.len() - i,
    {
        r.push(make_plain(v[i]));
        assert(target.take(i + 1) =~= target.take(i as int).push(target[i as int]));
        i = i + 1;
    }
    assert(target.take(i as int) =~= target);
    r
}

fn lines_agree(rule: CodexRule, a: &str, b: &str) -> (r: bool)
    ensures
        r == rule_agrees(rule, a@, b@),
{
    match rule {
        CodexRule::Exact => same(a, b),
        CodexRule::TrimEnd => same(trim_end(a), trim_end(b)),
        CodexRule::Trim => same(trim(a), trim(b)),
        CodexRule::Plain => same(
            normalize_codex_line(a).as_str(),
            normalize_codex_line(b).as_str(),
        ),
    }
}

fn seek_sequence_by(lines: &[String], pattern: &[String], start: usize, rule: CodexRule) -> (r:
    Option<usize>)
    requires
        pattern@.len() <= lines@.len(),
    ensures
        opt_int(r) == rule_place(views(lines@), views(pattern@), rule, start as int),
        r matches Some(i) ==> i + pattern@.len() <= lines@.len(),
{
    let ghost l = views(lines@);
    let ghost p = views(pattern@);
    let last: usize = lines.len() - pattern.len();
    let total: usize = lines.len();
    let mut i: usize = start;
    while i <= last
        invariant
            l == views(lines@),
            p == views(pattern@),
            last == lines@.len() - pattern@.len(),
            total == lines@.len(),
            rule_place(l, p, rule, start as int) == rule_place(l, p, rule, i as int),
        decreases last + 1 - i,
    {
        let mut k: usize = 0;
        let mut ok = true;
        while k < pattern.len() && ok
            invariant
                l == views(lines@),
                p == views(pattern@),
                last == lines@.len() - pattern@.len(),
                total == lines@.len(),
                i <= last,
                k <= pattern@.len(),
                ok ==> forall|j: int|
                    0 <= j < k ==> rule_agrees(rule, l[i + j], #[trigger] p[j]),
                !ok ==> !rule_holds_at(l, p, rule, i as int),
            decreases pattern@.len() - k, (if ok { 1int } else { 0int }),
        {
            assert(l[i + k] == lines@[i + k]@ && p[k as int] == pattern@[k as int]@);
            if lines_agree(rule, lines[i + k].as_str(), pattern[k].as_str()) {
                k = k + 1;
            } else {
                ok = false;
            }
        }
        if ok {
            return Some(i);
        }
        if i == usize::MAX {
            return None;
        }
        i = i + 1;
    }
    None
}

/// Finds a sequence of lines.
pub fn seek_codex_sequence(
    lines: &[String],
    pattern: &[String],
    start: usize,
    eof: bool,
    lenient: bool,
) -> (r: Option<usize>)
    ensures
        opt_int(r) == codex_place(views(lines@), views(pattern@), start as int, eof, lenient),
        pattern@.len() > 0 ==> (r matches Some(i) ==> i + pattern@.len() <= lines@.len()),
        pattern@.len() == 0 ==> r == Some(start),
{
    proof {
        assert(views(lines@).len() == lines@.len());
        assert(views(pattern@).len() == pattern@.len());
    }
    if pattern.len() == 0 {
        return Some(start);
    }
    if pattern.len() > lines.len() {
        return None;
    }
    let from: usize = if eof {
        lines.len() - pattern.len()
    } else {
        start
    };
    match seek_sequence_by(lines, pattern, from, CodexRule::Exact) {
        Some(i) => {
            return Some(i);
        },
        None => {},
    }
    if !lenient {
        return None;
    }
    match seek_sequence_by(lines, pattern, from, CodexRule::TrimEnd) {
        Some(i) => {
            return Some(i);
        },
        None => {},
    }
    match seek_sequence_by(lines, pattern, from, CodexRule::Trim) {
        Some(i) => {
            return Some(i);
        },
        None => {},
    }
    seek_sequence_by(lines, pattern, from, CodexRule::Plain)
}

/// What the hunks of a file so far have given.
#[verifier::ext_equal]
pub ghost struct CodexProgress {
    /// Their replacements.
    pub reps: Seq<ReplacementView>,
    /// The line from which the next one is searched.
    pub line: int,
}

/// The error for a context that is not found.
pub open spec fn codex_context_missing(path: Seq<char>, context: Seq<char>) -> ErrorView {
    ErrorView::ApplyError {
        message: "Failed to find context '"@ + context + "' in "@ + path,
    }
}

/// The error for old lines that are not found.
pub open spec fn codex_lines_missing(path: Seq<char>, old: Seq<Seq<char>>) -> ErrorView {
    ErrorView::ApplyError {
        message: "Failed to find expected lines in "@ + path + ":\n"@ + joined(old, "\n"@),
    }
}

/// Where the search for a hunk begins: behind its context, where it has one.
pub open spec fn codex_start(
    lines: Seq<Seq<char>>,
    path: Seq<char>,
    hunk: CodexHunkView,
    line: int,
    lenient: bool,
) -> Result<int, ErrorView> {
    match hunk.context {
        None => Ok(line),
        Some(context) => match codex_place(lines, seq![context], line, false, lenient) {
            Some(i) => Ok(i + 1),
            None => Err(codex_context_missing(path, context)),
        },
    }
}

/// What one more hunk gives. Without old lines, the new ones go to the end of
/// the file, before a last line that is empty. Old lines that are not found are
/// searched again without a last one that is empty.
pub open spec fn codex_step(
    lines: Seq<Seq<char>>,
    path: Seq<char>,
    hunk: CodexHunkView,
    lenient: bool,
    p: CodexProgress,
) -> Result<CodexProgress, ErrorView> {
    match codex_start(lines, path, hunk, p.line, lenient) {
        Err(e) => Err(e),
        Ok(line) => {
            let first = codex_place(lines, hunk.old, line, hunk.eof, lenient);
            let shorter = without_empty_last(hunk.old);
            let second = codex_place(lines, shorter, line, hunk.eof, lenient);
            if hunk.old.len() == 0 {
                Ok(
                    CodexProgress {
                        reps: p.reps.push(
                            ReplacementView {
                                start: without_empty_last(lines).len() as int,
                                len: 0,
                                new: hunk.new,
                            },
                        ),
                        line,
                    },
                )
            } else if first is Some {
                Ok(
                    CodexProgress {
                        reps: p.reps.push(
                            ReplacementView {
                                start: first->0,
                                len: hunk.old.len() as int,
                                new: hunk.new,
                            },
                        ),
                        line: first->0 + hunk.old.len(),
                    },
                )
            } else if shorter.len() < hunk.old.len() && second is Some {
                Ok(
                    CodexProgress {
                        reps: p.reps.push(
                            ReplacementView {
                                start: second->0,
                                len: shorter.len() as int,
                                new: without_empty_last(hunk.new),
                            },
                        ),
                        line: second->0 + shorter.len(),
                    },
                )
            } else {
                Err(codex_lines_missing(path, hunk.old))
            }
        },
    }
}

/// What the hunks of a file give.
pub open spec fn codex_done(
    lines: Seq<Seq<char>>,
    path: Seq<char>,
    hunks: Seq<CodexHunkView>,
    lenient: bool,
) -> Result<CodexProgress, ErrorView>
    decreases hunks.len(),
{
    if hunks.len() == 0 {
        Ok(CodexProgress { reps: Seq::empty(), line: 0 })
    } else {
        match codex_done(lines, path, hunks.drop_last(), lenient) {
            Err(e) => Err(e),
            Ok(p) => codex_step(lines, path, hunks.last(), lenient, p),
        }
    }
}

/// The lines with one that is empty at the end.
pub open spec fn with_empty_last(lines: Seq<Seq<char>>) -> Seq<Seq<char>> {
    if lines.len() > 0 && lines.last().len() == 0 {
        lines
    } else {
        lines.push(Seq::empty())
    }
}

/// The error for hunks of which one changes lines that another has removed.
pub open spec fn codex_overlap(path: Seq<char>) -> ErrorView {
    ErrorView::ApplyError { message: "Update hunks overlap in "@ + path }
}

/// What a text becomes when hunks are applied to it.
pub open spec fn codex_updated(
    content: Seq<char>,
    path: Seq<char>,
    hunks: Seq<CodexHunkView>,
    lenient: bool,
) -> Result<Seq<char>, ErrorView> {
    let lines = without_empty_last(lines_of(content));
    match codex_done(lines, path, hunks, lenient) {
        Err(e) => Err(e),
        Ok(p) => match replaced_back(lines, by_start(p.reps)) {
            None => Err(codex_overlap(path)),
            Some(made) => Ok(joined(with_empty_last(made), "\n"@)),
        },
    }
}

struct CodexState {
    replacements: Vec<Replacement>,
    line: usize,
}

impl CodexState {
    spec fn progress(&self) -> CodexProgress {
        CodexProgress { reps: replacement_views(self.replacements@), line: self.line as int }
    }
}

spec fn codex_outcome(r: Result<CodexState, EditError>) -> Result<CodexProgress, ErrorView> {
    match r {
        Ok(x) => Ok(x.progress()),
        Err(e) => Err(e@),
    }
}

fn add_replacement(
    p: CodexState,
    start: usize,
    old_len: usize,
    new_lines: Vec<String>,
    line: usize,
) -> (r: CodexState)
    ensures
        r.progress() == (CodexProgress {
            reps: p.progress().reps.push(
                ReplacementView {
                    start: start as int,
                    len: old_len as int,
                    new: views(new_lines@),
                },
            ),
            line: line as int,
        }),
        r.line == line,
{
    let mut replacements = p.replacements;
    let ghost before = replacements@;
    let rep = Replacement { start_index: start, old_len, new_lines };
    let ghost rv = rep@;
    replacements.push(rep);
    assert(replacement_views(replacements@) =~= replacement_views(before).push(rv));
    CodexState { replacements, line }
}

fn take_codex_hunk(
    lines: &[String],
    path: &str,
    hunk: &CodexDiffHunk,
    lenient: bool,
    p: CodexState,
) -> (r: Result<CodexState, EditError>)
    requires
        p.line <= lines@.len(),
    ensures
        codex_outcome(r) == codex_step(views(lines@), path@, hunk@, lenient, p.progress()),
        r matches Ok(x) ==> x.line <= lines@.len(),
{
    let ghost l = views(lines@);
    let n: usize = lines.len();
    proof {
        assert(l.len() == n);
        assert(hunk@.old.len() == hunk.old_lines@.len());
    }
    let mut line: usize = p.line;
    match &hunk.change_context {
        Some(context) => {
            let mut single: Vec<String> = Vec::new();
            push_text(&mut single, context.as_str());
            assert(views(single@) =~= seq![context@]);
            match seek_codex_sequence(lines, &single, line, false, lenient) {
                Some(i) => {
                    line = i + 1;
                },
                None => {
                    let mut message = "Failed to find context '".to_owned();
                    message.append(context.as_str());
                    message.append("' in ");
                    message.append(path);
                    return Err(EditError::ApplyError { message });
                },
            }
        },
        None => {},
    }
    assert(codex_start(l, path@, hunk@, p.progress().line, lenient) == Ok::<int, ErrorView>(
        line as int,
    ));
    if hunk.old_lines.len() == 0 {
        let body = drop_empty_last(lines);
        return Ok(add_replacement(p, body.len(), 0, copy_texts(&hunk.new_lines), line));
    }
    match seek_codex_sequence(lines, &hunk.old_lines, line, hunk.is_end_of_file, lenient) {
        Some(i) => {
            let len: usize = hunk.old_lines.len();
            return Ok(add_replacement(p, i, len, copy_texts(&hunk.new_lines), i + len));
        },
        None => {},
    }
    let shorter = drop_empty_last(&hunk.old_lines);
    if shorter.len() < hunk.old_lines.len() {
        match seek_codex_sequence(lines, &shorter, line, hunk.is_end_of_file, lenient) {
            Some(i) => {
                let len: usize = shorter.len();
                return Ok(add_replacement(p, i, len, drop_empty_last(&hunk.new_lines), i + len));
            },
            None => {},
        }
    }
    let mut message = "Failed to find expected lines in ".to_owned();
    message.append(path);
    message.append(":\n");
    message.append(join(&hunk.old_lines, "\n").as_str());
    Err(EditError::ApplyError { message })
}

/// A hunk that fails makes all fail.
proof fn lemma_codex_fail(
    lines: Seq<Seq<char>>,
    path: Seq<char>,
    hunks: Seq<CodexHunkView>,
    lenient: bool,
    k: int,
)
    requires
        0 <= k <= hunks.len(),
        codex_done(lines, path, hunks.take(k), lenient) is Err,
    ensures
        codex_done(lines, path, hunks, lenient) == codex_done(
            lines,
            path,
            hunks.take(k),
            lenient,
        ),
    decreases hunks.len() - k,
{
    if k < hunks.len() {
        assert(hunks.take(k + 1).drop_last() =~= hunks.take(k));
        lemma_codex_fail(lines, path, hunks, lenient, k + 1);
    } else {
        assert(hunks.take(k) =~= hunks);
    }
}

fn plan_codex(lines: &[String], path: &str, hunks: &[CodexDiffHunk], lenient: bool) -> (r: Result<
    CodexState,
    EditError,
>)
    ensures
        codex_outcome(r) == codex_done(views(lines@), path@, codex_hunk_views(hunks@), lenient),
{
    let ghost l = views(lines@);
    let ghost hs = codex_hunk_views(hunks@);
    let mut p = CodexState { replacements: Vec::new(), line: 0 };
    let mut i: usize = 0;
    proof {
        assert(hs.take(0) =~= Seq::empty());
        assert(p.progress() =~= (CodexProgress { reps: Seq::empty(), line: 0 }));
    }
    while i < hunks.len()
        invariant
            l == views(lines@),
            hs == codex_hunk_views(hunks@),
            i <= hunks@.len(),
            p.line <= lines@.len(),
            codex_done(l, path@, hs.take(i as int), lenient) == Ok::<CodexProgress, ErrorView>(
                p.progress(),
            ),
        decreases hunks@.len() - i,
    {
        proof {
            assert(hs.take(i + 1).drop_last() =~= hs.take(i as int));
            assert(hs.take(i + 1).last() == hunks@[i as int]@);
        }
        match take_codex_hunk(lines, path, &hunks[i], lenient, p) {
            Ok(x) => {
                p = x;
            },
            Err(e) => {
                proof {
                    lemma_codex_fail(l, path@, hs, lenient, i + 1);
                }
                return Err(e);
            },
        }
        i = i + 1;
    }
    assert(hs.take(i as int) =~= hs);
    Ok(p)
}

/// Applies hunks to the text of a file.
pub fn derive_updated_contents(
    original_content: &str,
    path: &str,
    hunks: &[CodexDiffHunk],
    lenient: bool,
) -> (r: Result<String, EditError>)
    ensures
        outcome(r) == codex_updated(original_content@, path@, codex_hunk_views(hunks@), lenient),
{
    let all = split_on(original_content, '\n');
    let lines = drop_empty_last(&all);
    let p = match plan_codex(&lines, path, hunks, lenient) {
        Ok(x) => x,
        Err(e) => {
            return Err(e);
        },
    };
    let sorted = sort_replacements(p.replacements);
    let mut made = match replace_back(&lines, &sorted) {
        Some(x) => x,
        None => {
            let mut message = "Update hunks overlap in ".to_owned();
            message.append(path);
            return Err(EditError::ApplyError { message });
        },
    };
    let n: usize = made.len();
    let ghost before = views(made@);
    assert(before.len() == n);
    let ended = if n > 0 {
        assert(before.last() == made@[n - 1]@);
        made[n - 1].as_str().is_empty()
    } else {
        false
    };
    if !ended {
        push_text(&mut made, "");
        proof {
            reveal_strlit("");
            assert(""@ =~= Seq::<char>::empty());
        }
    }
    Ok(join(&made, "\n"))
}

/// What writing a file answers, and the state that it leaves. A file that is
/// there is overwritten.
pub open spec fn codex_added<F: EditFs>(state: F::State, path: Seq<char>, contents: Seq<char>) -> (
    Result<ChangeView, ErrorView>,
    F::State,
) {
    let written = |old: Option<Seq<char>>|
        {
            let (r, after) = F::write_in(state, path, contents);
            match r {
                Err(e) => (Err(e), after),
                Ok(_) => (
                    Ok(
                        ChangeView {
                            op: ChangeOp::Create,
                            path,
                            new_path: None,
                            old_content: old,
                            new_content: Some(contents),
                        },
                    ),
                    after,
                ),
            }
        };
    match F::exists_in(state, path) {
        Err(e) => (Err(e), state),
        Ok(false) => written(None),
        Ok(true) => match F::read_in(state, path) {
            Err(e) => (Err(e), state),
            Ok(old) => written(Some(old)),
        },
    }
}

/// What deleting a file answers, and the state that it leaves.
pub open spec fn codex_deleted<F: EditFs>(state: F::State, path: Seq<char>) -> (
    Result<ChangeView, ErrorView>,
    F::State,
) {
    match F::exists_in(state, path) {
        Err(e) => (Err(e), state),
        Ok(false) => (Err(ErrorView::FileNotFound { path }), state),
        Ok(true) => match F::read_in(state, path) {
            Err(e) => (Err(e), state),
            Ok(old) => {
                let (r, after) = F::delete_in(state, path);
                match r {
                    Err(e) => (Err(e), after),
                    Ok(_) => (
                        Ok(
                            ChangeView {
                                op: ChangeOp::Delete,
                                path,
                                new_path: None,
                                old_content: Some(old),
                                new_content: None,
                            },
                        ),
                        after,
                    ),
                }
            },
        },
    }
}

/// What updating a file answers, and the state that it leaves.
pub open spec fn codex_file_updated<F: EditFs>(
    state: F::State,
    path: Seq<char>,
    move_to: Option<Seq<char>>,
    hunks: Seq<CodexHunkView>,
    lenient: bool,
) -> (Result<ChangeView, ErrorView>, F::State) {
    match F::exists_in(state, path) {
        Err(e) => (Err(e), state),
        Ok(false) => (Err(ErrorView::FileNotFound { path }), state),
        Ok(true) => match F::read_in(state, path) {
            Err(e) => (Err(e), state),
            Ok(old) => match codex_updated(old, path, hunks, lenient) {
                Err(e) => (Err(e), state),
                Ok(new) => {
                    let (r, after) = moved_in::<F>(state, path, move_to, new);
                    match r {
                        Err(e) => (Err(e), after),
                        Ok(_) => (
                            Ok(
                                ChangeView {
                                    op: ChangeOp::Update,
                                    path,
                                    new_path: move_to,
                                    old_content: Some(old),
                                    new_content: Some(new),
                                },
                            ),
                            after,
                        ),
                    }
                },
            },
        },
    }
}

/// What an operation answers, and the state that it leaves.
pub open spec fn op_applied<F: EditFs>(state: F::State, op: FileOpView, lenient: bool) -> (
    Result<ChangeView, ErrorView>,
    F::State,
) {
    match op {
        FileOpView::Add { path, contents } => codex_added::<F>(state, path, contents),
        FileOpView::Delete { path } => codex_deleted::<F>(state, path),
        FileOpView::Update { path, move_to, hunks } => codex_file_updated::<F>(
            state,
            path,
            move_to,
            hunks,
            lenient,
        ),
    }
}

/// What operations answer, one after the other, and the state that they leave.
/// Where one fails, the changes before it stay.
pub open spec fn ops_applied<F: EditFs>(state: F::State, ops: Seq<FileOpView>, lenient: bool) -> (
    Result<Seq<ChangeView>, ErrorView>,
    F::State,
)
    decreases ops.len(),
{
    if ops.len() == 0 {
        (Ok(Seq::empty()), state)
    } else {
        let (r, before) = ops_applied::<F>(state, ops.drop_last(), lenient);
        match r {
            Err(e) => (Err(e), before),
            Ok(changes) => {
                let (x, after) = op_applied::<F>(before, ops.last(), lenient);
                match x {
                    Err(e) => (Err(e), after),
                    Ok(c) => (Ok(changes.push(c)), after),
                }
            },
        }
    }
}

/// The lines of a summary for the changes of one kind.
pub open spec fn summary_lines(changes: Seq<ChangeView>, op: ChangeOp, mark: Seq<char>) -> Seq<
    Seq<char>,
>
    decreases changes.len(),
{
    if changes.len() == 0 {
        Seq::empty()
    } else {
        let before = summary_lines(changes.drop_last(), op, mark);
        let c = changes.last();
        if c.op == op {
            before.push(
                mark + (match c.new_path {
                    Some(p) => p,
                    None => c.path,
                }),
            )
        } else {
            before
        }
    }
}

/// The summary of changes: files that were added, modified and deleted.
pub open spec fn changes_summary(changes: Seq<ChangeView>) -> Seq<char> {
    joined(
        seq!["Success. Updated the following files:"@] + summary_lines(
            changes,
            ChangeOp::Create,
            "A "@,
        ) + summary_lines(changes, ChangeOp::Update, "M "@) + summary_lines(
            changes,
            ChangeOp::Delete,
            "D "@,
        ),
        "\n"@,
    )
}

/// The diff of the only change, where there is one and it is not empty.
pub open spec fn only_diff(changes: Seq<ChangeView>) -> Option<DiffView> {
    let d = change_diff(changes[0], 1);
    if changes.len() == 1 && d is Some && (d->0).diff.len() > 0 {
        d
    } else {
        None
    }
}

/// What is reported of changes.
pub open spec fn codex_report(changes: Seq<ChangeView>) -> ResultView {
    let d = only_diff(changes);
    ResultView {
        message: changes_summary(changes),
        change: changes[0],
        changes,
        diff: opt_diff_text(d),
        first: opt_diff_first(d),
        warnings: Seq::empty(),
    }
}

/// What the method answers, and the state that it leaves.
pub open spec fn codex_applied<F: EditFs>(state: F::State, input: Value, lenient: bool) -> (
    Result<ResultView, ErrorView>,
    F::State,
) {
    match input.text() {
        None => (
            Err(
                invalid_input(
                    "apply_patch expects the raw patch text as a JSON string; do not wrap it in an object"@,
                ),
            ),
            state,
        ),
        Some(patch) => match ops_of(patch) {
            Err(e) => (Err(e), state),
            Ok(ops) => if ops.len() == 0 {
                (Err(ErrorView::ApplyError { message: "No files were modified."@ }), state)
            } else {
                let (r, after) = ops_applied::<F>(state, ops, lenient);
                match r {
                    Err(e) => (Err(e), after),
                    Ok(changes) => (Ok(codex_report(changes)), after),
                }
            },
        },
    }
}

/// Codex `apply_patch` method.
///
/// The constructor has the `(allow_fuzzy, threshold)` shape of the other edit
/// methods, but there is no similarity threshold here. `allow_fuzzy` only
/// controls whether white space and Unicode punctuation may differ when lines
/// are located.
#[derive(Debug, Clone, Copy)]
pub struct CodexPatchMethod {
    /// Whether white space and punctuation may differ.
    pub allow_lenient_sequence_match: bool,
}

impl CodexPatchMethod {
    /// Creates a new method.
    pub fn new(allow_fuzzy: bool, _threshold: Double) -> (r: CodexPatchMethod)
        ensures
            r.allow_lenient_sequence_match == allow_fuzzy,
    {
        CodexPatchMethod { allow_lenient_sequence_match: allow_fuzzy }
    }
}

impl Default for CodexPatchMethod {
    fn default() -> (r: CodexPatchMethod)
        ensures
            r.allow_lenient_sequence_match,
    {
        CodexPatchMethod::new(true, Double::from_bits(DEFAULT_FUZZY_THRESHOLD))
    }
}

fn apply_add_file<F: EditFs>(path: &str, contents: &str, fs: &mut F) -> (r: Result<
    FileChange,
    EditError,
>)
    ensures
        (outcome(r), final(fs).state()) == codex_added::<F>(old(fs).state(), path@, contents@),
{
    let there = match fs.file_exists(path) {
        Ok(b) => b,
        Err(e) => {
            return Err(e);
        },
    };
    let old_content: Option<String> = if there {
        match fs.read(path) {
            Ok(c) => Some(c),
            Err(e) => {
                return Err(e);
            },
        }
    } else {
        None
    };
    match fs.write(path, contents) {
        Ok(_) => {},
        Err(e) => {
            return Err(e);
        },
    }
    Ok(
        FileChange {
            op: ChangeOp::Create,
            path: path.to_owned(),
            new_path: None,
            old_content,
            new_content: Some(contents.to_owned()),
        },
    )
}

fn apply_delete_file<F: EditFs>(path: &str, fs: &mut F) -> (r: Result<FileChange, EditError>)
    ensures
        (outcome(r), final(fs).state()) == codex_deleted::<F>(old(fs).state(), path@),
{
    match fs.file_exists(path) {
        Ok(there) => {
            if !there {
                return Err(EditError::FileNotFound { path: path.to_owned() });
            }
        },
        Err(e) => {
            return Err(e);
        },
    }
    let content = match fs.read(path) {
        Ok(c) => c,
        Err(e) => {
            return Err(e);
        },
    };
    match fs.delete(path) {
        Ok(_) => {},
        Err(e) => {
            return Err(e);
        },
    }
    Ok(
        FileChange {
            op: ChangeOp::Delete,
            path: path.to_owned(),
            new_path: None,
            old_content: Some(content),
            new_content: None,
        },
    )
}

fn apply_update_file<F: EditFs>(
    path: &str,
    move_to: Option<&str>,
    hunks: &[CodexDiffHunk],
    fs: &mut F,
    lenient: bool,
) -> (r: Result<FileChange, EditError>)
    ensures
        (outcome(r), final(fs).state()) == codex_file_updated::<F>(
            old(fs).state(),
            path@,
            opt_view(move_to),
            codex_hunk_views(hunks@),
            lenient,
        ),
{
    match fs.file_exists(path) {
        Ok(there) => {
            if !there {
                return Err(EditError::FileNotFound { path: path.to_owned() });
            }
        },
        Err(e) => {
            return Err(e);
        },
    }
    let original = match fs.read(path) {
        Ok(c) => c,
        Err(e) => {
            return Err(e);
        },
    };
    let patched = match derive_updated_contents(original.as_str(), path, hunks, lenient) {
        Ok(x) => x,
        Err(e) => {
            return Err(e);
        },
    };
    match write_or_move(fs, path, move_to, patched.as_str()) {
        Ok(_) => {},
        Err(e) => {
            return Err(e);
        },
    }
    Ok(
        FileChange {
            op: ChangeOp::Update,
            path: path.to_owned(),
            new_path: own(move_to),
            old_content: Some(original),
            new_content: Some(patched),
        },
    )
}

fn push_summary(out: &mut Vec<String>, changes: &[FileChange], op: ChangeOp, mark: &str)
    ensures
        views(final(out)@) == views(old(out)@) + summary_lines(change_views(changes@), op, mark@),
{
    let ghost start = views(out@);
    let ghost cs = change_views(changes@);
    let mut i: usize = 0;
    assert(cs.take(0) =~= Seq::empty());
    assert(start + summary_lines(cs.take(0), op, mark@) =~= start);
    while i < changes.len()
        invariant
            cs == change_views(changes@),
            i <= changes@.len(),
            views(out@) == start + summary_lines(cs.take(i as int), op, mark@),
        decreases changes@.len() - i,
    {
        let c = &changes[i];
        proof {
            assert(cs.take(i + 1).drop_last() =~= cs.take(i as int));
            assert(cs.take(i + 1).last() == c@);
        }
        if c.op == op {
            let mut line = mark.to_owned();
            match &c.new_path {
                Some(p) => {
                    line.append(p.as_str());
                },
                None => {
                    line.append(c.path.as_str());
                },
            }
            push_text(out, line.as_str());
            assert(views(out@) =~= start + summary_lines(cs.take(i + 1), op, mark@));
        }
        i = i + 1;
    }
    assert(cs.take(i as int) =~= cs);
}

fn summarize_changes(changes: &[FileChange]) -> (r: String)
    ensures
        r@ == changes_summary(change_views(changes@)),
{
    let mut lines: Vec<String> = Vec::new();
    push_text(&mut lines, "Success. Updated the following files:");
    assert(views(lines@) =~= seq!["Success. Updated the following files:"@]);
    push_summary(&mut lines, changes, ChangeOp::Create, "A ");
    push_summary(&mut lines, changes, ChangeOp::Update, "M ");
    push_summary(&mut lines, changes, ChangeOp::Delete, "D ");
    join(&lines, "\n")
}

/// An operation that fails makes all fail, and what was done stays.
proof fn lemma_ops_fail<F: EditFs>(state: F::State, ops: Seq<FileOpView>, lenient: bool, k: int)
    requires
        0 <= k <= ops.len(),
        ops_applied::<F>(state, ops.take(k), lenient).0 is Err,
    ensures
        ops_applied::<F>(state, ops, lenient) == ops_applied::<F>(state, ops.take(k), lenient),
    decreases ops.len() - k,
{
    if k < ops.len() {
        assert(ops.take(k + 1).drop_last() =~= ops.take(k));
        lemma_ops_fail::<F>(state, ops, lenient, k + 1);
    } else {
        assert(ops.take(k) =~= ops);
    }
}

/// The changes, by their contents.
pub open spec fn changes_outcome(r: Result<Vec<FileChange>, EditError>) -> Result<
    Seq<ChangeView>,
    ErrorView,
> {
    match r {
        Ok(v) => Ok(change_views(v@)),
        Err(e) => Err(e@),
    }
}

impl CodexPatchMethod {
    fn apply_file_op<F: EditFs>(&self, op: &CodexFileOp, fs: &mut F) -> (r: Result<
        FileChange,
        EditError,
    >)
        ensures
            (outcome(r), final(fs).state()) == op_applied::<F>(
                old(fs).state(),
                op@,
                self.allow_lenient_sequence_match,
            ),
    {
        match op {
            CodexFileOp::Add { path, contents } => apply_add_file(
                path.as_str(),
                contents.as_str(),
                fs,
            ),
            CodexFileOp::Delete { path } => apply_delete_file(path.as_str(), fs),
            CodexFileOp::Update { path, move_to, hunks } => {
                let to: Option<&str> = match move_to {
                    Some(p) => Some(p.as_str()),
                    None => None,
                };
                apply_update_file(
                    path.as_str(),
                    to,
                    hunks,
                    fs,
                    self.allow_lenient_sequence_match,
                )
            },
        }
    }

    /// Applies operations, one after the other.
    pub fn apply_file_ops<F: EditFs>(&self, ops: &[CodexFileOp], fs: &mut F) -> (r: Result<
        Vec<FileChange>,
        EditError,
    >)
        ensures
            (changes_outcome(r), final(fs).state()) == ops_applied::<F>(
                old(fs).state(),
                file_op_views(ops@),
                self.allow_lenient_sequence_match,
            ),
    {
        let ghost state = fs.state();
        let ghost os = file_op_views(ops@);
        let ghost lenient = self.allow_lenient_sequence_match;
        let mut changes: Vec<FileChange> = Vec::new();
        let mut i: usize = 0;
        proof {
            assert(os.take(0) =~= Seq::empty());
            assert(change_views(changes@) =~= Seq::empty());
        }
        while i < ops.len()
            invariant
                state == old(fs).state(),
                os == file_op_views(ops@),
                lenient == self.allow_lenient_sequence_match,
                i <= ops@.len(),
                ops_applied::<F>(state, os.take(i as int), lenient) == (
                    Ok::<Seq<ChangeView>, ErrorView>(change_views(changes@)),
                    fs.state(),
                ),
            decreases ops@.len() - i,
        {
            proof {
                assert(os.take(i + 1).drop_last() =~= os.take(i as int));
                assert(os.take(i + 1).last() == ops@[i as int]@);
            }
            match self.apply_file_op(&ops[i], fs) {
                Ok(c) => {
                    let ghost before = changes@;
                    let ghost cv = c@;
                    changes.push(c);
                    assert(change_views(changes@) =~= change_views(before).push(cv));
                },
                Err(e) => {
                    proof {
                        lemma_ops_fail::<F>(state, os, lenient, i + 1);
                    }
                    return Err(e);
                },
            }
            i = i + 1;
        }
        assert(os.take(i as int) =~= os);
        Ok(changes)
    }
}

/// As many changes are made as there are operations.
proof fn lemma_ops_count<F: EditFs>(state: F::State, ops: Seq<FileOpView>, lenient: bool)
    ensures
        ops_applied::<F>(state, ops, lenient).0 matches Ok(c) ==> c.len() == ops.len(),
    decreases ops.len(),
{
    if ops.len() > 0 {
        lemma_ops_count::<F>(state, ops.drop_last(), lenient);
    }
}

fn report_changes(changes: Vec<FileChange>) -> (r: EditResult)
    requires
        changes@.len() > 0,
    ensures
        r@ == codex_report(change_views(changes@)),
{
    let ghost cs = change_views(changes@);
    assert(cs.len() == changes@.len() && cs[0] == changes@[0]@);
    let message = summarize_changes(&changes);
    let change = changes[0].clone();
    let d = if changes.len() == 1 {
        match diff_change(&change, 1) {
            Some(d) => if d.diff.as_str().is_empty() {
                None
            } else {
                Some(d)
            },
            None => None,
        }
    } else {
        None
    };
    assert(opt_diff(d) == only_diff(cs));
    let (diff, first): (Option<String>, Option<usize>) = match d {
        Some(d) => (Some(d.diff), d.first_changed_line),
        None => (None, None),
    };
    let r = EditResult {
        message,
        change,
        changes,
        diff,
        first_changed_line: first,
        warnings: Vec::new(),
    };
    assert(r@.warnings =~= Seq::empty());
    r
}

impl EditMethod for CodexPatchMethod {
    open spec fn name_text(&self) -> Seq<char> {
        "apply_patch"@
    }

    open spec fn prompt_text(&self) -> Seq<char> {
        CODEX_PROMPT@
    }

    open spec fn schema_text(&self) -> Seq<char> {
        CODEX_SCHEMA@
    }

    open spec fn grammar_text(&self) -> Option<Seq<char>> {
        Some(CONTENT_FORMAT_LARK@)
    }

    fn name(&self) -> (r: &str) {
        "apply_patch"
    }

    fn prompt(&self) -> (r: &str) {
        CODEX_PROMPT
    }

    fn schema(&self) -> (r: &str) {
        CODEX_SCHEMA
    }

    fn grammar(&self) -> (r: Option<&str>) {
        Some(CONTENT_FORMAT_LARK)
    }

    fn apply<F: EditFs>(&self, input: &Value, fs: &mut F) -> (r: Result<EditResult, EditError>)
        ensures
            (outcome(r), final(fs).state()) == codex_applied::<F>(
                old(fs).state(),
                *input,
                self.allow_lenient_sequence_match,
            ),
    {
        let patch = match input.as_str() {
            Some(p) => p,
            None => {
                return Err(
                    EditError::InvalidInput {
                        message:
                            "apply_patch expects the raw patch text as a JSON string; do not wrap it in an object".to_owned(),
                    },
                );
            },
        };
        let ops = match parse_codex_patch(patch) {
            Ok(x) => x,
            Err(e) => {
                return Err(e);
            },
        };
        assert(file_op_views(ops@).len() == ops@.len());
        if ops.len() == 0 {
            return Err(EditError::ApplyError { message: "No files were modified.".to_owned() });
        }
        proof {
            lemma_ops_count::<F>(
                fs.state(),
                file_op_views(ops@),
                self.allow_lenient_sequence_match,
            );
        }
        match self.apply_file_ops(&ops, fs) {
            Ok(changes) => {
                assert(change_views(changes@).len() == changes@.len());
                Ok(report_changes(changes))
            },
            Err(e) => Err(e),
        }
    }
}

/// The grammar of the text that the method takes.
pub fn codex_patch_content_format_lark() -> (r: &'static str)
    ensures
        r@ == CONTENT_FORMAT_LARK@,
{
    CONTENT_FORMAT_LARK
}

/// The place by a rule is the first, from `i` on, where the lines agree.
proof fn lemma_rule_place(
    lines: Seq<Seq<char>>,
    pattern: Seq<Seq<char>>,
    rule: CodexRule,
    i: int,
    at: int,
)
    requires
        i <= at,
        at + pattern.len() <= lines.len(),
        rule_holds_at(lines, pattern, rule, at),
        forall|j: int| i <= j < at ==> !#[trigger] rule_holds_at(lines, pattern, rule, j),
    ensures
        rule_place(lines, pattern, rule, i) == Some(at),
    decreases at - i,
{
    if i < at {
        lemma_rule_place(lines, pattern, rule, i + 1, at);
    }
}

/// Lines that stand in a file as they are sought are found at the first such
/// place, lenient or not.
pub proof fn law_codex_exact_place(
    lines: Seq<Seq<char>>,
    pattern: Seq<Seq<char>>,
    start: int,
    lenient: bool,
    at: int,
)
    requires
        pattern.len() > 0,
        0 <= start <= at,
        at + pattern.len() <= lines.len(),
        lines.subrange(at, at + pattern.len()) == pattern,
        forall|j: int|
            start <= j < at ==> #[trigger] lines.subrange(j, j + pattern.len()) != pattern,
    ensures
        codex_place(lines, pattern, start, false, lenient) == Some(at),
{
    let n = pattern.len() as int;
    assert forall|k: int| 0 <= k < n implies rule_agrees(
        CodexRule::Exact,
        lines[at + k],
        #[trigger] pattern[k],
    ) by {
        assert(lines.subrange(at, at + n)[k] == lines[at + k]);
    }
    assert forall|j: int| start <= j < at implies !#[trigger] rule_holds_at(
        lines,
        pattern,
        CodexRule::Exact,
        j,
    ) by {
        if rule_holds_at(lines, pattern, CodexRule::Exact, j) {
            assert forall|k: int| 0 <= k < n implies #[trigger] lines.subrange(j, j + n)[k]
                == pattern[k] by {
                assert(rule_agrees(CodexRule::Exact, lines[j + k], pattern[k]));
            }
            assert(lines.subrange(j, j + n) =~= pattern);
        }
    }
    lemma_rule_place(lines, pattern, CodexRule::Exact, start, at);
}

/// An updated file that holds anything ends in a line feed.
pub proof fn law_codex_newline(
    content: Seq<char>,
    path: Seq<char>,
    hunks: Seq<CodexHunkView>,
    lenient: bool,
)
    ensures
        codex_updated(content, path, hunks, lenient) matches Ok(s) ==> s.len() == 0 || ends_line(s),
{
    reveal_strlit("\n");
    if let Ok(p) = codex_done(without_empty_last(lines_of(content)), path, hunks, lenient) {
        if let Some(made) = replaced_back(
            without_empty_last(lines_of(content)),
            by_start(p.reps),
        ) {
            let all = with_empty_last(made);
            let s = joined(all, "\n"@);
            assert(all.last().len() == 0);
            if all.len() == 1 {
                assert(s == all[0]);
            } else {
                assert(s =~= joined(all.drop_last(), "\n"@) + "\n"@);
            }
        }
    }
}

/// Where an operation fails, the files are as the operations before it left
/// them.
pub proof fn law_failed_operation(files: Files, ops: Seq<FileOpView>, lenient: bool) -> (k: int)
    requires
        ops_applied::<InMemoryFs>(files, ops, lenient).0 is Err,
    ensures
        0 <= k < ops.len(),
        ops_applied::<InMemoryFs>(files, ops.take(k), lenient).0 is Ok,
        ops_applied::<InMemoryFs>(files, ops, lenient).1 == ops_applied::<InMemoryFs>(
            files,
            ops.take(k),
            lenient,
        ).1,
        ops_applied::<InMemoryFs>(files, ops, lenient).0->Err_0 == op_applied::<InMemoryFs>(
            ops_applied::<InMemoryFs>(files, ops.take(k), lenient).1,
            ops[k],
            lenient,
        ).0->Err_0,
    decreases ops.len(),
{
    let rest = ops.drop_last();
    let (r, before) = ops_applied::<InMemoryFs>(files, rest, lenient);
    if r is Err {
        let k = law_failed_operation(files, rest, lenient);
        assert(ops.take(k) =~= rest.take(k));
        k
    } else {
        let k = ops.len() - 1;
        assert(ops.take(k) =~= rest);
        k
    }
}

/// A single hunk without context, whose old lines stand in the file, replaces them
/// at the first such place and leaves every other line as it is.
pub proof fn law_codex_exact_hunk(
    content: Seq<char>,
    path: Seq<char>,
    hunk: CodexHunkView,
    lenient: bool,
    at: int,
)
    requires
        hunk.context is None,
        !hunk.eof,
        hunk.old.len() > 0,
        0 <= at,
        at + hunk.old.len() <= without_empty_last(lines_of(content)).len(),
        without_empty_last(lines_of(content)).subrange(at, at + hunk.old.len()) == hunk.old,
        forall|j: int|
            0 <= j < at ==> #[trigger] without_empty_last(lines_of(content)).subrange(
                j,
                j + hunk.old.len(),
            ) != hunk.old,
    ensures
        codex_updated(content, path, seq![hunk], lenient) == Ok::<Seq<char>, ErrorView>(
            joined(
                with_empty_last(
                    spliced(
                        without_empty_last(lines_of(content)),
                        at,
                        at + hunk.old.len(),
                        hunk.new,
                    ),
                ),
                "\n"@,
            ),
        ),
{
    let lines = without_empty_last(lines_of(content));
    let hunks = seq![hunk];
    let start = CodexProgress { reps: Seq::empty(), line: 0 };
    law_codex_exact_place(lines, hunk.old, 0, lenient, at);
    assert(hunks.drop_last() =~= Seq::<CodexHunkView>::empty());
    assert(hunks.last() == hunk);
    assert(codex_done(lines, path, hunks.drop_last(), lenient) == Ok::<CodexProgress, ErrorView>(
        start,
    ));
    let r = ReplacementView { start: at, len: hunk.old.len() as int, new: hunk.new };
    let reps = Seq::<ReplacementView>::empty().push(r);
    assert(reps.drop_last() =~= Seq::<ReplacementView>::empty());
    assert(by_start(Seq::<ReplacementView>::empty()) =~= Seq::<ReplacementView>::empty());
    assert(by_start(reps) =~= reps);
    let made = spliced(lines, at, at + hunk.old.len(), hunk.new);
    assert(replaced_back(made, reps.drop_last()) == Some(made));
    assert(replaced_back(lines, reps) == Some(made));
}

/// Whether a hunk stands in a file, searched from line `from` on: its context, where
/// it has one, is line `c`, the first such line; and its old lines are those at `at`,
/// the first such place behind the context.
pub open spec fn stands_behind(
    lines: Seq<Seq<char>>,
    hunk: CodexHunkView,
    from: int,
    c: int,
    at: int,
) -> bool {
    let n = hunk.old.len();
    &&& n > 0
    &&& !hunk.eof
    &&& match hunk.context {
        None => c == from - 1,
        Some(context) => from <= c < lines.len() && lines[c] == context && forall|j: int|
            from <= j < c ==> #[trigger] lines[j] != context,
    }
    &&& c < at
    &&& at + n <= lines.len()
    &&& lines.subrange(at, at + n) == hunk.old
    &&& forall|j: int| c < j < at ==> #[trigger] lines.subrange(j, j + n) != hunk.old
}

/// A hunk that stands in a file replaces its old lines there, and the next hunk is
/// searched behind them.
proof fn lemma_codex_stands(
    lines: Seq<Seq<char>>,
    path: Seq<char>,
    hunk: CodexHunkView,
    lenient: bool,
    p: CodexProgress,
    c: int,
    at: int,
)
    requires
        0 <= p.line,
        stands_behind(lines, hunk, p.line, c, at),
    ensures
        codex_step(lines, path, hunk, lenient, p) == Ok::<CodexProgress, ErrorView>(
            CodexProgress {
                reps: p.reps.push(
                    ReplacementView { start: at, len: hunk.old.len() as int, new: hunk.new },
                ),
                line: at + hunk.old.len(),
            },
        ),
{
    if let Some(context) = hunk.context {
        let one = seq![context];
        assert(lines.subrange(c, c + 1) =~= one);
        assert forall|j: int| p.line <= j < c implies #[trigger] lines.subrange(j, j + one.len())
            != one by {
            assert(lines.subrange(j, j + 1)[0] == lines[j]);
            assert(one[0] == context);
        }
        law_codex_exact_place(lines, one, p.line, lenient, c);
    }
    assert(codex_start(lines, path, hunk, p.line, lenient) == Ok::<int, ErrorView>(c + 1));
    law_codex_exact_place(lines, hunk.old, c + 1, lenient, at);
}

/// A single hunk with a context, whose old lines stand in the file behind the first
/// line that is the context, replaces them at the first such place. Every other line
/// is as it was, the context and all before it among them.
pub proof fn law_codex_context_hunk(
    content: Seq<char>,
    path: Seq<char>,
    hunk: CodexHunkView,
    lenient: bool,
    c: int,
    at: int,
)
    requires
        hunk.context is Some,
        stands_behind(without_empty_last(lines_of(content)), hunk, 0, c, at),
    ensures
        ({
            let lines = without_empty_last(lines_of(content));
            &&& c < at
            &&& codex_updated(content, path, seq![hunk], lenient) == Ok::<Seq<char>, ErrorView>(
                joined(
                    with_empty_last(
                        lines.take(at) + hunk.new + lines.skip(at + hunk.old.len()),
                    ),
                    "\n"@,
                ),
            )
        }),
{
    let lines = without_empty_last(lines_of(content));
    let hunks = seq![hunk];
    let start = CodexProgress { reps: Seq::empty(), line: 0 };
    lemma_codex_stands(lines, path, hunk, lenient, start, c, at);
    assert(hunks.drop_last() =~= Seq::<CodexHunkView>::empty());
    assert(hunks.last() == hunk);
    assert(codex_done(lines, path, hunks.drop_last(), lenient) == Ok::<CodexProgress, ErrorView>(
        start,
    ));
    let r = ReplacementView { start: at, len: hunk.old.len() as int, new: hunk.new };
    let reps = Seq::<ReplacementView>::empty().push(r);
    lemma_by_start_in_order(reps);
    assert(reps.drop_last() =~= Seq::<ReplacementView>::empty());
    let made = spliced(lines, at, at + hunk.old.len(), hunk.new);
    assert(replaced_back(made, reps.drop_last()) == Some(made));
    assert(replaced_back(lines, reps) == Some(made));
}

/// Where the search for hunk `k` begins: where the old lines of the one before end.
pub open spec fn searched_from(hunks: Seq<CodexHunkView>, at: Seq<int>, k: int) -> int {
    if k <= 0 {
        0
    } else {
        at[k - 1] + hunks[k - 1].old.len()
    }
}

/// Hunks that stand in a file one behind the other, with or without contexts, each
/// replace their old lines where they stand, and every line between is as it was.
pub proof fn law_codex_hunks(
    content: Seq<char>,
    path: Seq<char>,
    hunks: Seq<CodexHunkView>,
    lenient: bool,
    c: Seq<int>,
    at: Seq<int>,
)
    requires
        c.len() == hunks.len(),
        at.len() == hunks.len(),
        forall|k: int|
            0 <= k < hunks.len() ==> stands_behind(
                without_empty_last(lines_of(content)),
                hunks[k],
                searched_from(hunks, at, k),
                #[trigger] c[k],
                at[k],
            ),
    ensures
        ({
            let lines = without_empty_last(lines_of(content));
            let reps = Seq::new(
                hunks.len(),
                |k: int|
                    ReplacementView {
                        start: at[k],
                        len: hunks[k].old.len() as int,
                        new: hunks[k].new,
                    },
            );
            codex_updated(content, path, hunks, lenient) == Ok::<Seq<char>, ErrorView>(
                joined(with_empty_last(laced(lines, reps, lines.len() as int)), "\n"@),
            )
        }),
{
    let lines = without_empty_last(lines_of(content));
    let reps = Seq::new(
        hunks.len(),
        |k: int|
            ReplacementView { start: at[k], len: hunks[k].old.len() as int, new: hunks[k].new },
    );
    lemma_codex_all_stand(lines, path, hunks, lenient, c, at, reps, hunks.len() as int);
    assert(hunks.take(hunks.len() as int) =~= hunks);
    assert(reps.take(hunks.len() as int) =~= reps);
    assert forall|i: int, j: int| 0 <= i < j < reps.len() implies (#[trigger] reps[i]).end() <= (
    #[trigger] reps[j]).start by {
        lemma_codex_ascend(lines, hunks, c, at, i, j);
    }
    assert forall|i: int| 0 <= i < reps.len() implies 0 <= (#[trigger] reps[i]).start && 0
        <= reps[i].len && reps[i].end() <= lines.len() by {
        lemma_codex_from(lines, hunks, c, at, i);
        assert(stands_behind(lines, hunks[i], searched_from(hunks, at, i), c[i], at[i]));
    }
    lemma_by_start_in_order(reps);
    law_made_at_once(lines, reps);
}

/// The search never begins before the file.
proof fn lemma_codex_from(
    lines: Seq<Seq<char>>,
    hunks: Seq<CodexHunkView>,
    c: Seq<int>,
    at: Seq<int>,
    k: int,
)
    requires
        0 <= k < hunks.len(),
        forall|k: int|
            0 <= k < hunks.len() ==> stands_behind(
                lines,
                hunks[k],
                searched_from(hunks, at, k),
                #[trigger] c[k],
                at[k],
            ),
    ensures
        0 <= searched_from(hunks, at, k) <= at[k],
        0 <= at[k],
    decreases k,
{
    assert(stands_behind(lines, hunks[k], searched_from(hunks, at, k), c[k], at[k]));
    if k > 0 {
        lemma_codex_from(lines, hunks, c, at, k - 1);
    }
}

/// A later hunk stands behind an earlier one.
proof fn lemma_codex_ascend(
    lines: Seq<Seq<char>>,
    hunks: Seq<CodexHunkView>,
    c: Seq<int>,
    at: Seq<int>,
    i: int,
    j: int,
)
    requires
        0 <= i < j < hunks.len(),
        forall|k: int|
            0 <= k < hunks.len() ==> stands_behind(
                lines,
                hunks[k],
                searched_from(hunks, at, k),
                #[trigger] c[k],
                at[k],
            ),
    ensures
        at[i] + hunks[i].old.len() <= at[j],
    decreases j - i,
{
    lemma_codex_from(lines, hunks, c, at, j);
    if i + 1 < j {
        lemma_codex_ascend(lines, hunks, c, at, i, j - 1);
    }
}

/// What the first `n` hunks give.
proof fn lemma_codex_all_stand(
    lines: Seq<Seq<char>>,
    path: Seq<char>,
    hunks: Seq<CodexHunkView>,
    lenient: bool,
    c: Seq<int>,
    at: Seq<int>,
    reps: Seq<ReplacementView>,
    n: int,
)
    requires
        0 <= n <= hunks.len(),
        reps.len() == hunks.len(),
        forall|k: int|
            0 <= k < hunks.len() ==> #[trigger] reps[k] == (ReplacementView {
                start: at[k],
                len: hunks[k].old.len() as int,
                new: hunks[k].new,
            }),
        forall|k: int|
            0 <= k < hunks.len() ==> stands_behind(
                lines,
                hunks[k],
                searched_from(hunks, at, k),
                #[trigger] c[k],
                at[k],
            ),
    ensures
        codex_done(lines, path, hunks.take(n), lenient) == Ok::<CodexProgress, ErrorView>(
            CodexProgress { reps: reps.take(n), line: searched_from(hunks, at, n) },
        ),
    decreases n,
{
    if n == 0 {
        assert(reps.take(0) =~= Seq::empty());
    } else {
        lemma_codex_all_stand(lines, path, hunks, lenient, c, at, reps, n - 1);
        let first = hunks.take(n);
        let p = CodexProgress { reps: reps.take(n - 1), line: searched_from(hunks, at, n - 1) };
        assert(first.drop_last() =~= hunks.take(n - 1));
        assert(first.last() == hunks[n - 1]);
        lemma_codex_from(lines, hunks, c, at, n - 1);
        lemma_codex_stands(lines, path, hunks[n - 1], lenient, p, c[n - 1], at[n - 1]);
        assert(reps.take(n) =~= reps.take(n - 1).push(reps[n - 1]));
    }
}

/// A hunk without old lines adds its new lines behind all others, whatever its
/// context, where that stands in the file.
pub proof fn law_codex_added_lines(
    content: Seq<char>,
    path: Seq<char>,
    hunk: CodexHunkView,
    lenient: bool,
    c: int,
)
    requires
        hunk.old.len() == 0,
        ({
            let lines = without_empty_last(lines_of(content));
            &&& lines.len() == 0 || lines.last().len() > 0
            &&& hunk.context matches Some(context) ==> 0 <= c < lines.len() && lines[c] == context
        }),
    ensures
        codex_updated(content, path, seq![hunk], lenient) == Ok::<Seq<char>, ErrorView>(
            joined(with_empty_last(without_empty_last(lines_of(content)) + hunk.new), "\n"@),
        ),
{
    let lines = without_empty_last(lines_of(content));
    let hunks = seq![hunk];
    let start = CodexProgress { reps: Seq::empty(), line: 0 };
    assert(hunks.drop_last() =~= Seq::<CodexHunkView>::empty());
    assert(hunks.last() == hunk);
    assert(codex_done(lines, path, hunks.drop_last(), lenient) == Ok::<CodexProgress, ErrorView>(
        start,
    ));
    if let Some(context) = hunk.context {
        let one = seq![context];
        assert(rule_holds_at(lines, one, CodexRule::Exact, c)) by {
            assert(rule_agrees(CodexRule::Exact, lines[c + 0], one[0]));
        }
        lemma_rule_somewhere(lines, one, CodexRule::Exact, 0, c);
    }
    assert(codex_start(lines, path, hunk, 0, lenient) is Ok);
    let r = ReplacementView { start: lines.len() as int, len: 0, new: hunk.new };
    let reps = Seq::<ReplacementView>::empty().push(r);
    lemma_by_start_in_order(reps);
    assert(reps.drop_last() =~= Seq::<ReplacementView>::empty());
    let made = spliced(lines, lines.len() as int, lines.len() as int, hunk.new);
    assert(made =~= lines + hunk.new);
    assert(replaced_back(made, reps.drop_last()) == Some(made));
    assert(replaced_back(lines, reps) == Some(made));
}

/// Lines that agree at some place are found.
proof fn lemma_rule_somewhere(
    lines: Seq<Seq<char>>,
    pattern: Seq<Seq<char>>,
    rule: CodexRule,
    i: int,
    at: int,
)
    requires
        0 <= i <= at,
        at + pattern.len() <= lines.len(),
        rule_holds_at(lines, pattern, rule, at),
    ensures
        rule_place(lines, pattern, rule, i) matches Some(k) && i <= k <= at && rule_holds_at(
            lines,
            pattern,
            rule,
            k,
        ),
    decreases at - i,
{
    if i < at && !rule_holds_at(lines, pattern, rule, i) {
        lemma_rule_somewhere(lines, pattern, rule, i + 1, at);
    }
}

/// A hunk at the end of a file, whose old lines are the last ones, replaces those,
/// wherever else they stand.
pub proof fn law_codex_end_hunk(
    content: Seq<char>,
    path: Seq<char>,
    hunk: CodexHunkView,
    lenient: bool,
)
    requires
        hunk.context is None,
        hunk.eof,
        hunk.old.len() > 0,
        ({
            let lines = without_empty_last(lines_of(content));
            hunk.old.len() <= lines.len() && lines.skip(lines.len() - hunk.old.len()) == hunk.old
        }),
    ensures
        ({
            let lines = without_empty_last(lines_of(content));
            codex_updated(content, path, seq![hunk], lenient) == Ok::<Seq<char>, ErrorView>(
                joined(
                    with_empty_last(lines.take(lines.len() - hunk.old.len()) + hunk.new),
                    "\n"@,
                ),
            )
        }),
{
    let lines = without_empty_last(lines_of(content));
    let hunks = seq![hunk];
    let n = hunk.old.len();
    let at = lines.len() - n;
    let start = CodexProgress { reps: Seq::empty(), line: 0 };
    assert(hunks.drop_last() =~= Seq::<CodexHunkView>::empty());
    assert(hunks.last() == hunk);
    assert(codex_done(lines, path, hunks.drop_last(), lenient) == Ok::<CodexProgress, ErrorView>(
        start,
    ));
    assert forall|k: int| 0 <= k < n implies rule_agrees(
        CodexRule::Exact,
        lines[at + k],
        #[trigger] hunk.old[k],
    ) by {
        assert(lines.skip(at)[k] == lines[at + k]);
    }
    lemma_rule_place(lines, hunk.old, CodexRule::Exact, at, at);
    let r = ReplacementView { start: at, len: n as int, new: hunk.new };
    let reps = Seq::<ReplacementView>::empty().push(r);
    lemma_by_start_in_order(reps);
    assert(reps.drop_last() =~= Seq::<ReplacementView>::empty());
    let made = spliced(lines, at, at + n, hunk.new);
    assert(made =~= lines.take(at) + hunk.new);
    assert(replaced_back(made, reps.drop_last()) == Some(made));
    assert(replaced_back(lines, reps) == Some(made));
}

/// A hunk whose context no line of the file agrees with makes the update fail.
pub proof fn law_codex_missing(
    content: Seq<char>,
    path: Seq<char>,
    hunk: CodexHunkView,
    lenient: bool,
)
    requires
        hunk.context matches Some(context) ==> forall|i: int|
            0 <= i < without_empty_last(lines_of(content)).len() ==> plain_line(
                #[trigger] without_empty_last(lines_of(content))[i],
            ) != plain_line(context) && trimmed(without_empty_last(lines_of(content))[i])
                != trimmed(context) && trimmed_end(without_empty_last(lines_of(content))[i])
                != trimmed_end(context) && without_empty_last(lines_of(content))[i] != context,
        hunk.context is Some,
    ensures
        codex_updated(content, path, seq![hunk], lenient) is Err,
{
    let lines = without_empty_last(lines_of(content));
    let hunks = seq![hunk];
    let one = seq![hunk.context->0];
    assert(hunks.drop_last() =~= Seq::<CodexHunkView>::empty());
    assert(hunks.last() == hunk);
    assert forall|r: CodexRule, i: int| 0 <= i < lines.len() implies !#[trigger] rule_holds_at(
        lines,
        one,
        r,
        i,
    ) by {
        if rule_holds_at(lines, one, r, i) {
            assert(rule_agrees(r, lines[i + 0], one[0]));
        }
    }
    lemma_rule_nowhere(lines, one, CodexRule::Exact, 0);
    lemma_rule_nowhere(lines, one, CodexRule::TrimEnd, 0);
    lemma_rule_nowhere(lines, one, CodexRule::Trim, 0);
    lemma_rule_nowhere(lines, one, CodexRule::Plain, 0);
    let start = CodexProgress { reps: Seq::empty(), line: 0 };
    assert(codex_start(lines, path, hunk, 0, lenient) is Err);
    assert(codex_done(lines, path, hunks.drop_last(), lenient) == Ok::<CodexProgress, ErrorView>(
        start,
    ));
    assert(codex_step(lines, path, hunk, lenient, start) is Err);
}

/// Lines that agree nowhere are not found.
proof fn lemma_rule_nowhere(
    lines: Seq<Seq<char>>,
    pattern: Seq<Seq<char>>,
    rule: CodexRule,
    i: int,
)
    requires
        0 <= i,
        pattern.len() > 0,
        forall|j: int| i <= j < lines.len() ==> !#[trigger] rule_holds_at(lines, pattern, rule, j),
    ensures
        rule_place(lines, pattern, rule, i) is None,
    decreases lines.len() - i,
{
    if i < lines.len() {
        lemma_rule_nowhere(lines, pattern, rule, i + 1);
    }
}

/// What an operation does to the files: a file that is added is there with its
/// contents, whether it was there or not; one that is deleted is gone; one that is
/// updated holds what its hunks make of it, at its new path where it is moved, and
/// is then gone from the old one. Every other file is as it was, and a file that is
/// not there is neither deleted nor updated.
pub proof fn law_codex_files(files: Files, op: FileOpView, lenient: bool, other: Seq<char>)
    ensures
        ({
            let (r, after) = op_applied::<InMemoryFs>(files, op, lenient);
            match op {
                FileOpView::Add { path, contents } => {
                    &&& r is Ok
                    &&& after.contains_key(path)
                    &&& after[path] == contents
                    &&& other != path ==> after.contains_key(other) == files.contains_key(other)
                        && after[other] == files[other]
                },
                FileOpView::Delete { path } => {
                    &&& r is Ok <==> files.contains_key(path)
                    &&& !after.contains_key(path)
                    &&& other != path ==> after.contains_key(other) == files.contains_key(other)
                        && after[other] == files[other]
                },
                FileOpView::Update { path, move_to, hunks } => {
                    let made = codex_updated(files[path], path, hunks, lenient);
                    let to = match move_to {
                        Some(x) => x,
                        None => path,
                    };
                    &&& !files.contains_key(path) ==> r is Err && after == files
                    &&& files.contains_key(path) && made is Err ==> r is Err && after == files
                    &&& files.contains_key(path) && made is Ok && move_to != Some(path) ==> {
                        &&& r is Ok
                        &&& after.contains_key(to)
                        &&& after[to] == made->Ok_0
                        &&& to != path ==> !after.contains_key(path)
                    }
                    &&& other != path && other != to ==> after.contains_key(other)
                        == files.contains_key(other) && after[other] == files[other]
                },
            }
        }),
{
}

/// Whether a text is part of one line.
pub open spec fn is_one_line(s: Seq<char>) -> bool {
    !s.contains('\n') && !s.contains('\r')
}

/// Whether a text can be the path in a header: it is part of one line, and does not end
/// in white space.
pub open spec fn is_plain_path(path: Seq<char>) -> bool {
    is_one_line(path) && path.len() > 0 && !is_white(path.last())
}

/// The text of a patch with the given lines between its first and its last one.
pub open spec fn patch_text(inner: Seq<Seq<char>>) -> Seq<char> {
    joined(seq!["*** Begin Patch"@] + inner + seq!["*** End Patch"@], "\n"@)
}

/// The operations of a patch are those of the lines between its first and its last one.
proof fn lemma_patch_text(inner: Seq<Seq<char>>)
    requires
        forall|k: int| 0 <= k < inner.len() ==> is_one_line(#[trigger] inner[k]),
    ensures
        ops_of(patch_text(inner)) == ops_from(inner, 0, Seq::empty()),
{
    let first = "*** Begin Patch"@;
    let last = "*** End Patch"@;
    let all = seq![first] + inner + seq![last];
    let text = patch_text(inner);
    let n = all.len() as int;
    reveal_strlit("*** Begin Patch");
    reveal_strlit("*** End Patch");
    reveal_strlit("\n");
    reveal_strlit("\r");
    assert("\n"@ =~= seq!['\n']);
    assert forall|k: int| 0 <= k < all.len() implies is_one_line(#[trigger] all[k]) by {
        if 0 < k < n - 1 {
            assert(all[k] == inner[k - 1]);
        }
    }
    law_pieces_join(all, '\n');
    assert(text =~= joined(all.drop_last(), "\n"@) + "\n"@ + last);
    assert(all.drop_last() =~= seq![first] + inner);
    if inner.len() > 0 {
        lemma_joined_add(seq![first], inner, "\n"@);
    } else {
        assert(all.drop_last() =~= seq![first]);
    }
    assert(text[0] == first[0]);
    assert(text.last() == last.last());
    lemma_untrimmed(text);
    lemma_untrimmed(first);
    lemma_untrimmed(last);
    let lines = text_lines(text);
    assert(lines =~= all) by {
        assert forall|k: int| 0 <= k < n - 1 implies without_return(#[trigger] all[k])
            == all[k] by {
            if ends(all[k], "\r"@) {
                let l = all[k];
                assert(l.subrange(l.len() - 1, l.len() as int)[0] == l[l.len() - 1]);
                assert("\r"@[0] == '\r');
                assert(l.contains('\r'));
            }
        }
    }
    assert(enclosed(lines) == Ok::<Seq<Seq<char>>, ErrorView>(all));
    assert(all.subrange(1, n - 1) =~= inner);
}

/// Whether every line carries the mark of a hunk.
pub open spec fn all_marked(body: Seq<Seq<char>>) -> bool {
    forall|k: int|
        0 <= k < body.len() ==> (#[trigger] body[k]).len() > 0 && (body[k][0] == ' ' || body[k][0]
            == '+' || body[k][0] == '-')
}

/// What marked lines give, from `i` on, behind the first `start`.
proof fn lemma_chunk_sides(lines: Seq<Seq<char>>, start: int, i: int, number: nat, h: CodexHunkView)
    requires
        0 <= start <= i <= lines.len(),
        forall|k: int|
            i <= k < lines.len() ==> (#[trigger] lines[k]).len() > 0 && (lines[k][0] == ' '
                || lines[k][0] == '+' || lines[k][0] == '-'),
    ensures
        chunk_body(lines, start, i, number, h) == Ok::<ChunkView, ErrorView>(
            ChunkView {
                hunk: CodexHunkView {
                    old: h.old + side(lines, i, '-'),
                    new: h.new + side(lines, i, '+'),
                    ..h
                },
                end: lines.len() as int,
            },
        ),
    decreases lines.len() - i,
{
    if i < lines.len() {
        reveal_strlit("*** End of File");
        let line = lines[i];
        assert(EOF_MARKER@[0] == '*');
        let more = with_chunk_line(h, line)->0;
        lemma_chunk_sides(lines, start, i + 1, number, more);
        let rest = line.skip(1);
        assert(h.old.push(rest) + side(lines, i + 1, '-') =~= h.old + (seq![rest] + side(
            lines,
            i + 1,
            '-',
        )));
        assert(h.new.push(rest) + side(lines, i + 1, '+') =~= h.new + (seq![rest] + side(
            lines,
            i + 1,
            '+',
        )));
    } else {
        assert(h.old + side(lines, i, '-') =~= h.old);
        assert(h.new + side(lines, i, '+') =~= h.new);
    }
}

/// What a header is, and what it is not.
proof fn lemma_header(marker: Seq<char>, path: Seq<char>)
    requires
        is_plain_path(path),
        marker.len() > 4,
        marker[0] == '*',
    ensures
        trimmed(marker + path) == marker + path,
        after_prefix(marker + path, marker) == Some(path),
        forall|other: Seq<char>|
            other.len() > 4 && other[4] != marker[4] ==> #[trigger] after_prefix(
                marker + path,
                other,
            ) is None,
{
    let line = marker + path;
    assert(line.last() == path.last());
    lemma_untrimmed(line);
    assert(line.subrange(0, marker.len() as int) =~= marker);
    assert(line.skip(marker.len() as int) =~= path);
    assert forall|other: Seq<char>| other.len() > 4 && other[4] != marker[4] implies
        #[trigger] after_prefix(line, other) is None by {
        if begins(line, other) {
            assert(line.subrange(0, other.len() as int)[4] == other[4]);
        }
    }
}

/// The text of a patch that updates a file, maybe moves it, and has one hunk under a
/// context reads as that: the old lines of the hunk are those marked with a space or
/// `-`, and the new lines those marked with a space or `+`, in their order.
pub proof fn law_codex_update_text(
    path: Seq<char>,
    move_to: Option<Seq<char>>,
    context: Option<Seq<char>>,
    body: Seq<Seq<char>>,
)
    requires
        is_plain_path(path),
        move_to matches Some(to) ==> is_one_line(to),
        context matches Some(c) ==> is_one_line(c),
        body.len() > 0,
        all_marked(body),
        forall|k: int| 0 <= k < body.len() ==> is_one_line(#[trigger] body[k]),
    ensures
        ({
            let moved = match move_to {
                Some(to) => seq!["*** Move to: "@ + to],
                None => Seq::empty(),
            };
            let head = match context {
                Some(c) => "@@ "@ + c,
                None => "@@"@,
            };
            let inner = seq!["*** Update File: "@ + path] + moved + seq![head] + body;
            ops_of(patch_text(inner)) == Ok::<Seq<FileOpView>, ErrorView>(
                seq![
                    FileOpView::Update {
                        path,
                        move_to,
                        hunks: seq![
                            CodexHunkView {
                                context,
                                old: side(body, 0, '-'),
                                new: side(body, 0, '+'),
                                eof: false,
                            },
                        ],
                    },
                ],
            )
        }),
{
    reveal_strlit("*** Update File: ");
    reveal_strlit("*** Add File: ");
    reveal_strlit("*** Delete File: ");
    reveal_strlit("*** Move to: ");
    reveal_strlit("@@ ");
    reveal_strlit("@@");
    reveal_strlit("***");
    let moved = match move_to {
        Some(to) => seq!["*** Move to: "@ + to],
        None => Seq::empty(),
    };
    let head = match context {
        Some(c) => "@@ "@ + c,
        None => "@@"@,
    };
    let first = "*** Update File: "@ + path;
    let inner = seq![first] + moved + seq![head] + body;
    let m = moved.len() as int;
    let start = 1 + m;
    assert forall|k: int| 0 <= k < inner.len() implies is_one_line(#[trigger] inner[k]) by {
        if k == 0 {
            lemma_one_line("*** Update File: "@, path);
        } else if k < start {
            lemma_one_line("*** Move to: "@, move_to->0);
        } else if k == start {
            if let Some(c) = context {
                lemma_one_line("@@ "@, c);
            }
        } else {
            assert(inner[k] == body[k - start - 1]);
        }
    }
    lemma_patch_text(inner);
    lemma_header("*** Update File: "@, path);
    assert(inner[0] == first);
    assert(inner[start] == head);
    assert(head[0] == '@' && head[1] == '@');
    assert(inner.len() > 1);
    if m == 1 {
        let line = "*** Move to: "@ + move_to->0;
        assert(inner[1] == line);
        assert(line.subrange(0, 13) =~= "*** Move to: "@);
        assert(line.skip(13) =~= move_to->0);
        assert(after_prefix(inner[1], MOVE_TO_MARKER@) == move_to);
    } else {
        assert(inner[1] == head);
        if begins(head, MOVE_TO_MARKER@) {
            assert(head.subrange(0, 13)[0] == head[0]);
        }
        assert(after_prefix(inner[1], MOVE_TO_MARKER@) is None);
    }
    let rest = inner.skip(start);
    assert(rest =~= seq![head] + body);
    assert(rest[0] == head);
    match context {
        Some(c) => {
            assert(head.subrange(0, 3) =~= "@@ "@);
            assert(head.skip(3) =~= c);
            assert(head.len() >= 3);
            assert(head != "@@"@);
        },
        None => {},
    }
    let empty = CodexHunkView { context, old: Seq::empty(), new: Seq::empty(), eof: false };
    let number = capped(capped(2) + start);
    assert(chunk_head(head, number, true) == Ok::<(Option<Seq<char>>, int), ErrorView>(
        (context, 1),
    ));
    assert forall|k: int| 1 <= k < rest.len() implies (#[trigger] rest[k]).len() > 0 && (rest[k][0]
        == ' ' || rest[k][0] == '+' || rest[k][0] == '-') by {
        assert(rest[k] == body[k - 1]);
    }
    lemma_chunk_sides(rest, 1, 1, number, empty);
    lemma_side_skip(rest, 1, 0, '-');
    lemma_side_skip(rest, 1, 0, '+');
    assert(rest.skip(1) =~= body);
    let hunk = CodexHunkView {
        context,
        old: side(body, 0, '-'),
        new: side(body, 0, '+'),
        eof: false,
    };
    assert(Seq::<Seq<char>>::empty() + side(body, 0, '-') =~= side(body, 0, '-'));
    assert(Seq::<Seq<char>>::empty() + side(body, 0, '+') =~= side(body, 0, '+'));
    assert(chunk_of(rest, number, true) == Ok::<ChunkView, ErrorView>(
        ChunkView { hunk, end: rest.len() as int },
    ));
    lemma_trimmed_first(head);
    if begins(head, "***"@) {
        assert(head.subrange(0, 3)[0] == head[0]);
    }
    let hunks = Seq::<CodexHunkView>::empty().push(hunk);
    assert(hunks =~= seq![hunk]);
    assert(chunks_from(inner, inner.len() as int, capped(2), hunks) == Ok::<ChunksView, ErrorView>(
        ChunksView { hunks, end: inner.len() as int },
    ));
    assert(chunks_from(inner, start, capped(2), Seq::empty()) == Ok::<ChunksView, ErrorView>(
        ChunksView { hunks, end: inner.len() as int },
    ));
    assert(inner.skip(0) =~= inner);
    let op = FileOpView::Update { path, move_to, hunks };
    assert(op_of(inner, capped(2)) == Ok::<ParsedOp, ErrorView>(
        ParsedOp { op, end: inner.len() as int },
    ));
    assert(Seq::<FileOpView>::empty().push(op) =~= seq![op]);
    assert(ops_from(inner, inner.len() as int, seq![op]) == Ok::<Seq<FileOpView>, ErrorView>(
        seq![op],
    ));
}

/// Two parts of one line are one line.
proof fn lemma_one_line(a: Seq<char>, b: Seq<char>)
    requires
        is_one_line(a),
        is_one_line(b),
    ensures
        is_one_line(a + b),
{
    let s = a + b;
    assert forall|i: int| 0 <= i < s.len() implies s[i] != '\n' && s[i] != '\r' by {
        if i < a.len() {
            assert(a.contains(a[i]));
        } else {
            assert(b.contains(b[i - a.len()]));
        }
    }
}

/// A line that begins with something else than white space is not blank.
proof fn lemma_trimmed_first(s: Seq<char>)
    requires
        s.len() > 0,
        !is_white(s[0]),
    ensures
        !is_blank(s),
    decreases s.len(),
{
    if is_white(s.last()) {
        assert(s.drop_last()[0] == s[0]);
        lemma_trimmed_first(s.drop_last());
    }
}

/// The text of a patch that adds a file reads as that: the contents are the lines
/// behind the header, without their `+`, each with a line feed. And the text of one that
/// deletes a file reads as that.
pub proof fn law_codex_file_text(path: Seq<char>, lines: Seq<Seq<char>>)
    requires
        is_plain_path(path),
        forall|k: int| 0 <= k < lines.len() ==> is_one_line(#[trigger] lines[k]),
    ensures
        ops_of(
            patch_text(
                seq!["*** Add File: "@ + path] + lines.map_values(
                    |l: Seq<char>| seq!['+'] + l,
                ),
            ),
        ) == Ok::<Seq<FileOpView>, ErrorView>(
            seq![
                FileOpView::Add {
                    path,
                    contents: if lines.len() == 0 {
                        Seq::empty()
                    } else {
                        joined(lines, "\n"@) + "\n"@
                    },
                },
            ],
        ),
        ops_of(patch_text(seq!["*** Delete File: "@ + path])) == Ok::<Seq<FileOpView>, ErrorView>(
            seq![FileOpView::Delete { path }],
        ),
{
    reveal_strlit("*** Update File: ");
    reveal_strlit("*** Add File: ");
    reveal_strlit("*** Delete File: ");
    reveal_strlit("+");
    assert("+"@ =~= seq!['+']);
    let plus = lines.map_values(|l: Seq<char>| seq!['+'] + l);
    let first = "*** Add File: "@ + path;
    let inner = seq![first] + plus;
    let marked = seq!['+'];
    assert forall|k: int| 0 <= k < inner.len() implies is_one_line(#[trigger] inner[k]) by {
        if k == 0 {
            lemma_one_line("*** Add File: "@, path);
        } else {
            assert(inner[k] == marked + lines[k - 1]);
            lemma_one_line(marked, lines[k - 1]);
        }
    }
    lemma_patch_text(inner);
    lemma_header("*** Add File: "@, path);
    assert(inner.skip(0) =~= inner);
    lemma_added_text(inner, lines, 1, Seq::empty());
    let contents = if lines.len() == 0 {
        Seq::empty()
    } else {
        joined(lines, "\n"@) + "\n"@
    };
    assert(lines.skip(0) =~= lines);
    assert(added_text(inner, 1, Seq::empty()) == (contents, inner.len() as int));
    let op = FileOpView::Add { path, contents };
    assert(op_of(inner, capped(2)) == Ok::<ParsedOp, ErrorView>(
        ParsedOp { op, end: inner.len() as int },
    ));
    assert(Seq::<FileOpView>::empty().push(op) =~= seq![op]);
    assert(ops_from(inner, inner.len() as int, seq![op]) == Ok::<Seq<FileOpView>, ErrorView>(
        seq![op],
    ));
    let only = seq!["*** Delete File: "@ + path];
    assert forall|k: int| 0 <= k < only.len() implies is_one_line(#[trigger] only[k]) by {
        lemma_one_line("*** Delete File: "@, path);
    }
    lemma_patch_text(only);
    lemma_header("*** Delete File: "@, path);
    assert(only.skip(0) =~= only);
    let gone = FileOpView::Delete { path };
    assert(op_of(only, capped(2)) == Ok::<ParsedOp, ErrorView>(ParsedOp { op: gone, end: 1 }));
    assert(Seq::<FileOpView>::empty().push(gone) =~= seq![gone]);
    assert(ops_from(only, 1, seq![gone]) == Ok::<Seq<FileOpView>, ErrorView>(seq![gone]));
}

/// The text of added lines, from line `i` on.
proof fn lemma_added_text(inner: Seq<Seq<char>>, lines: Seq<Seq<char>>, i: int, done: Seq<char>)
    requires
        inner.len() == lines.len() + 1,
        1 <= i <= inner.len(),
        forall|k: int| 1 <= k < inner.len() ==> #[trigger] inner[k] == seq!['+'] + lines[k - 1],
    ensures
        added_text(inner, i, done) == (
            if i == inner.len() {
                done
            } else {
                done + joined(lines.skip(i - 1), "\n"@) + "\n"@
            },
            inner.len() as int,
        ),
    decreases inner.len() - i,
{
    reveal_strlit("+");
    assert("+"@ =~= seq!['+']);
    if i < inner.len() {
        let l = lines[i - 1];
        assert(inner[i] == seq!['+'] + l);
        assert(inner[i].subrange(0, 1) =~= seq!['+']);
        assert(inner[i].skip(1) =~= l);
        let next = done + l + "\n"@;
        lemma_added_text(inner, lines, i + 1, next);
        let rest = lines.skip(i - 1);
        let after = lines.skip(i);
        assert(rest =~= seq![l] + after);
        if after.len() == 0 {
            assert(rest =~= seq![l]);
            assert(next =~= done + joined(rest, "\n"@) + "\n"@);
        } else {
            lemma_joined_add(seq![l], after, "\n"@);
            assert(next + joined(after, "\n"@) + "\n"@ =~= done + joined(rest, "\n"@) + "\n"@);
        }
    }
}

/// Fancy punctuation within a line is compared as its plain form: dashes, quotation marks,
/// and spaces of any width.
pub proof fn law_codex_punctuation(a: Seq<char>, c: char, b: Seq<char>)
    requires
        a.len() > 0 && !is_white(a[0]) && !is_white(a.last()),
        b.len() > 0 && !is_white(b[0]) && !is_white(b.last()),
    ensures
        ({
            let whole = plain_line(a + seq![c] + b);
            let left = plain_line(a);
            let right = plain_line(b);
            &&& '\u{2010}' <= c <= '\u{2015}' || c == '\u{2212}' ==> whole == left + seq!['-']
                + right
            &&& '\u{2018}' <= c <= '\u{201B}' ==> whole == left + seq!['\''] + right
            &&& '\u{201C}' <= c <= '\u{201F}' ==> whole == left + seq!['"'] + right
            &&& c == '\u{A0}' || '\u{2002}' <= c <= '\u{200A}' || c == '\u{202F}' || c == '\u{205F}'
                || c == '\u{3000}' ==> whole == left + seq![' '] + right
            &&& c as int <= 0x7F ==> whole == left + seq![c] + right
        }),
{
    let t = a + seq![c] + b;
    assert(t[0] == a[0] && t.last() == b.last());
    lemma_untrimmed(t);
    lemma_untrimmed(a);
    lemma_untrimmed(b);
    assert(plain_line(t) =~= plain_line(a) + seq![plain_char(c)] + plain_line(b));
}

/// Whether the lines at `i` are those of the pattern but for white space around them and
/// the kind of punctuation.
pub open spec fn is_alike_at(lines: Seq<Seq<char>>, pattern: Seq<Seq<char>>, i: int) -> bool {
    forall|k: int| 0 <= k < pattern.len() ==> plain_line(lines[i + k]) == plain_line(
        #[trigger] pattern[k],
    )
}

/// Lines that stand in one place of a file, but for white space around them and the kind
/// of punctuation, are found there. With a strict search they are found only where they
/// stand as they are. At the end of a file nothing but its last lines counts.
pub proof fn law_codex_alike(lines: Seq<Seq<char>>, pattern: Seq<Seq<char>>, start: int, i: int)
    requires
        0 < pattern.len() <= lines.len(),
        0 <= start <= i,
        i + pattern.len() <= lines.len(),
        is_alike_at(lines, pattern, i),
        forall|j: int|
            start <= j <= lines.len() - pattern.len() && j != i ==> !(#[trigger] is_alike_at(
                lines,
                pattern,
                j,
            )),
    ensures
        codex_place(lines, pattern, start, false, true) == Some(i),
        codex_place(lines, pattern, start, false, false) == (if lines.subrange(
            i,
            i + pattern.len(),
        ) == pattern {
            Some(i)
        } else {
            None
        }),
        codex_place(lines, pattern, start, true, true) == (if i == lines.len() - pattern.len() {
            Some(i)
        } else {
            None
        }),
{
    let n = pattern.len() as int;
    let last = lines.len() - n;
    assert forall|rule: CodexRule, j: int|
        start <= j <= last && #[trigger] rule_holds_at(lines, pattern, rule, j) implies j == i by {
        assert forall|k: int| 0 <= k < n implies plain_line(lines[j + k]) == plain_line(
            #[trigger] pattern[k],
        ) by {
            assert(rule_agrees(rule, lines[j + k], pattern[k]));
        }
        assert(is_alike_at(lines, pattern, j));
    }
    assert(rule_holds_at(lines, pattern, CodexRule::Plain, i)) by {
        assert forall|k: int| 0 <= k < n implies rule_agrees(
            CodexRule::Plain,
            lines[i + k],
            #[trigger] pattern[k],
        ) by {
            assert(plain_line(lines[i + k]) == plain_line(pattern[k]));
        }
    }
    assert(rule_holds_at(lines, pattern, CodexRule::Exact, i) <==> lines.subrange(i, i + n)
        == pattern) by {
        if rule_holds_at(lines, pattern, CodexRule::Exact, i) {
            assert forall|k: int| 0 <= k < n implies lines.subrange(i, i + n)[k] == pattern[k] by {
                assert(rule_agrees(CodexRule::Exact, lines[i + k], pattern[k]));
            }
            assert(lines.subrange(i, i + n) =~= pattern);
        } else if lines.subrange(i, i + n) == pattern {
            assert forall|k: int| 0 <= k < n implies rule_agrees(
                CodexRule::Exact,
                lines[i + k],
                #[trigger] pattern[k],
            ) by {
                assert(lines.subrange(i, i + n)[k] == lines[i + k]);
            }
        }
    }
    lemma_rule_at(lines, pattern, CodexRule::Exact, start, i);
    lemma_rule_at(lines, pattern, CodexRule::TrimEnd, start, i);
    lemma_rule_at(lines, pattern, CodexRule::Trim, start, i);
    lemma_rule_at(lines, pattern, CodexRule::Plain, start, i);
    lemma_rule_at(lines, pattern, CodexRule::Exact, last, i);
    lemma_rule_at(lines, pattern, CodexRule::TrimEnd, last, i);
    lemma_rule_at(lines, pattern, CodexRule::Trim, last, i);
    lemma_rule_at(lines, pattern, CodexRule::Plain, last, i);
}

/// A rule that holds in no other place from `from` on finds that place, or nothing.
proof fn lemma_rule_at(
    lines: Seq<Seq<char>>,
    pattern: Seq<Seq<char>>,
    rule: CodexRule,
    from: int,
    i: int,
)
    requires
        0 <= from,
        i + pattern.len() <= lines.len(),
        forall|j: int|
            from <= j <= lines.len() - pattern.len() && #[trigger] rule_holds_at(
                lines,
                pattern,
                rule,
                j,
            ) ==> j == i,
    ensures
        rule_place(lines, pattern, rule, from) == (if from <= i && rule_holds_at(
            lines,
            pattern,
            rule,
            i,
        ) {
            Some(i)
        } else {
            None
        }),
    decreases lines.len() - pattern.len() + 1 - from,
{
    if from + pattern.len() <= lines.len() && !rule_holds_at(lines, pattern, rule, from) {
        lemma_rule_at(lines, pattern, rule, from + 1, i);
    }
}

/// Operations are applied one after the other, each to the files that the one before it
/// left, and report their changes in that order.
pub proof fn law_codex_in_turn(
    files: Files,
    first: Seq<FileOpView>,
    second: Seq<FileOpView>,
    lenient: bool,
)
    ensures
        ({
            let (r, mid) = ops_applied::<InMemoryFs>(files, first, lenient);
            let (s, after) = ops_applied::<InMemoryFs>(mid, second, lenient);
            let both = ops_applied::<InMemoryFs>(files, first + second, lenient);
            match (r, s) {
                (Ok(a), Ok(b)) => both == (Ok::<Seq<ChangeView>, ErrorView>(a + b), after),
                (Ok(_), Err(e)) => both == (Err::<Seq<ChangeView>, ErrorView>(e), after),
                (Err(e), _) => both == (Err::<Seq<ChangeView>, ErrorView>(e), mid),
            }
        }),
    decreases second.len(),
{
    let all = first + second;
    let (r, mid) = ops_applied::<InMemoryFs>(files, first, lenient);
    if second.len() == 0 {
        assert(all =~= first);
        if let Ok(a) = r {
            assert(a + Seq::<ChangeView>::empty() =~= a);
        }
    } else {
        let less = second.drop_last();
        law_codex_in_turn(files, first, less, lenient);
        assert(all.drop_last() =~= first + less);
        assert(all.last() == second.last());
        let (s, before) = ops_applied::<InMemoryFs>(mid, less, lenient);
        if r is Ok && s is Ok {
            let (x, after) = op_applied::<InMemoryFs>(before, second.last(), lenient);
            if let Ok(c) = x {
                assert((r->Ok_0 + s->Ok_0).push(c) =~= r->Ok_0 + s->Ok_0.push(c));
            }
        }
    }
}

/// The path by which a change is named: that to which the file is moved, or else its own.
pub open spec fn shown_path(change: ChangeView) -> Seq<char> {
    match change.new_path {
        Some(p) => p,
        None => change.path,
    }
}

/// Among the rows for one kind of change there is one for each such change, and no other.
proof fn lemma_summary_rows(changes: Seq<ChangeView>, op: ChangeOp, mark: Seq<char>, i: int)
    ensures
        0 <= i < changes.len() && changes[i].op == op ==> summary_lines(changes, op, mark).contains(
            mark + shown_path(changes[i]),
        ),
        forall|k: int|
            0 <= k < summary_lines(changes, op, mark).len() ==> exists|j: int|
                0 <= j < changes.len() && #[trigger] summary_lines(changes, op, mark)[k] == mark
                    + shown_path(#[trigger] changes[j]) && changes[j].op == op,
    decreases changes.len(),
{
    if changes.len() > 0 {
        let before = changes.drop_last();
        lemma_summary_rows(before, op, mark, i);
        let rows = summary_lines(changes, op, mark);
        let old = summary_lines(before, op, mark);
        let last = changes.last();
        assert(changes[changes.len() - 1] == last);
        if 0 <= i < changes.len() && changes[i].op == op {
            if i < before.len() {
                let k = choose|k: int|
                    0 <= k < old.len() && old[k] == mark + shown_path(before[i]);
                assert(rows[k] == old[k]);
            } else {
                assert(rows[rows.len() - 1] == mark + shown_path(last));
            }
        }
        assert forall|k: int| 0 <= k < rows.len() implies exists|j: int|
            0 <= j < changes.len() && #[trigger] rows[k] == mark + shown_path(
                #[trigger] changes[j],
            ) && changes[j].op == op by {
            if k < old.len() {
                assert(rows[k] == old[k]);
                let j = choose|j: int|
                    0 <= j < before.len() && old[k] == mark + shown_path(#[trigger] before[j])
                        && before[j].op == op;
                assert(changes[j] == before[j]);
            } else {
                assert(rows[k] == mark + shown_path(changes[changes.len() - 1]));
            }
        }
    }
}

/// The summary names every file that was changed on a line of its own, with the letter for
/// what was done to it; files that were created come before those that were modified, and
/// these before those that were deleted.
pub proof fn law_codex_summary(changes: Seq<ChangeView>, i: int)
    requires
        0 <= i < changes.len(),
        forall|k: int| 0 <= k < changes.len() ==> !shown_path(#[trigger] changes[k]).contains('\n'),
    ensures
        ({
            let rows = lines_of(changes_summary(changes));
            let mark = match changes[i].op {
                ChangeOp::Create => "A "@,
                ChangeOp::Update => "M "@,
                ChangeOp::Delete => "D "@,
            };
            &&& rows[0] == "Success. Updated the following files:"@
            &&& rows.contains(mark + shown_path(changes[i]))
            &&& forall|k: int, m: int|
                1 <= k < m < rows.len() && begins(#[trigger] rows[k], "M "@) ==> !begins(
                    #[trigger] rows[m],
                    "A "@,
                )
            &&& forall|k: int, m: int|
                1 <= k < m < rows.len() && begins(#[trigger] rows[k], "D "@) ==> begins(
                    #[trigger] rows[m],
                    "D "@,
                )
        }),
{
    reveal_strlit("A ");
    reveal_strlit("M ");
    reveal_strlit("D ");
    reveal_strlit("\n");
    reveal_strlit("Success. Updated the following files:");
    assert("\n"@ =~= seq!['\n']);
    let head = "Success. Updated the following files:"@;
    let a = summary_lines(changes, ChangeOp::Create, "A "@);
    let m = summary_lines(changes, ChangeOp::Update, "M "@);
    let d = summary_lines(changes, ChangeOp::Delete, "D "@);
    let rows = seq![head] + a + m + d;
    lemma_summary_rows(changes, ChangeOp::Create, "A "@, i);
    lemma_summary_rows(changes, ChangeOp::Update, "M "@, i);
    lemma_summary_rows(changes, ChangeOp::Delete, "D "@, i);
    lemma_rows_marked(changes, ChangeOp::Create, "A "@);
    lemma_rows_marked(changes, ChangeOp::Update, "M "@);
    lemma_rows_marked(changes, ChangeOp::Delete, "D "@);
    let p = 1 + a.len();
    let q = p + m.len();
    assert forall|k: int| 0 <= k < rows.len() implies !(#[trigger] rows[k]).contains('\n') && (1
        <= k < p ==> rows[k][0] == 'A') && (p <= k < q ==> rows[k][0] == 'M') && (q <= k
        ==> rows[k][0] == 'D' && begins(rows[k], "D "@)) by {
        if k == 0 {
        } else if k < p {
            assert(rows[k] == a[k - 1]);
        } else if k < q {
            assert(rows[k] == m[k - p]);
        } else {
            assert(rows[k] == d[k - q]);
        }
    }
    law_pieces_join(rows, '\n');
    assert forall|s: Seq<char>, t: Seq<char>| t.len() > 0 && #[trigger] begins(s, t) implies s[0]
        == t[0] by {
        assert(s.subrange(0, t.len() as int)[0] == s[0]);
    }
    match changes[i].op {
        ChangeOp::Create => {
            let k = choose|k: int|
                0 <= k < a.len() && a[k] == "A "@ + shown_path(changes[i]);
            assert(rows[k + 1] == a[k]);
        },
        ChangeOp::Update => {
            let k = choose|k: int|
                0 <= k < m.len() && m[k] == "M "@ + shown_path(changes[i]);
            assert(rows[k + p] == m[k]);
        },
        ChangeOp::Delete => {
            let k = choose|k: int|
                0 <= k < d.len() && d[k] == "D "@ + shown_path(changes[i]);
            assert(rows[k + q] == d[k]);
        },
    }
}

/// The rows for one kind of change begin with its mark, and are one line each.
proof fn lemma_rows_marked(changes: Seq<ChangeView>, op: ChangeOp, mark: Seq<char>)
    requires
        mark.len() > 0,
        !mark.contains('\n'),
        forall|k: int| 0 <= k < changes.len() ==> !shown_path(#[trigger] changes[k]).contains('\n'),
    ensures
        forall|k: int|
            0 <= k < summary_lines(changes, op, mark).len() ==> begins(
                #[trigger] summary_lines(changes, op, mark)[k],
                mark,
            ) && summary_lines(changes, op, mark)[k][0] == mark[0] && !summary_lines(
                changes,
                op,
                mark,
            )[k].contains('\n'),
{
    let rows = summary_lines(changes, op, mark);
    lemma_summary_rows(changes, op, mark, -1);
    assert forall|k: int| 0 <= k < rows.len() implies begins(#[trigger] rows[k], mark) && rows[k][0]
        == mark[0] && !rows[k].contains('\n') by {
        let j = choose|j: int|
            0 <= j < changes.len() && rows[k] == mark + shown_path(#[trigger] changes[j])
                && changes[j].op == op;
        let path = shown_path(changes[j]);
        assert(rows[k].subrange(0, mark.len() as int) =~= mark);
        if rows[k].contains('\n') {
            let x = choose|x: int| 0 <= x < rows[k].len() && rows[k][x] == '\n';
            if x < mark.len() {
                assert(mark[x] == '\n');
            } else {
                assert(path[x - mark.len()] == '\n');
            }
        }
    }
}

/// The method makes the file that a patch text adds, with the lines given, and deletes the
/// file that one deletes; all other files are as they were.
pub proof fn law_codex_method_files(
    files: Files,
    add: Value,
    delete: Value,
    path: Seq<char>,
    lines: Seq<Seq<char>>,
    lenient: bool,
)
    requires
        is_plain_path(path),
        lines.len() > 0,
        forall|k: int| 0 <= k < lines.len() ==> is_one_line(#[trigger] lines[k]),
        add.text() == Some(
            patch_text(
                seq!["*** Add File: "@ + path] + lines.map_values(
                    |l: Seq<char>| seq!['+'] + l,
                ),
            ),
        ),
        delete.text() == Some(patch_text(seq!["*** Delete File: "@ + path])),
    ensures
        ({
            let (r, after) = codex_applied::<InMemoryFs>(files, add, lenient);
            &&& r is Ok
            &&& after == files.insert(path, joined(lines, "\n"@) + "\n"@)
        }),
        ({
            let (r, after) = codex_applied::<InMemoryFs>(files, delete, lenient);
            &&& r is Ok <==> files.contains_key(path)
            &&& after == files.remove(path)
        }),
{
    law_codex_file_text(path, lines);
    let made = seq![FileOpView::Add { path, contents: joined(lines, "\n"@) + "\n"@ }];
    let gone = seq![FileOpView::Delete { path }];
    assert(made.drop_last() =~= Seq::<FileOpView>::empty());
    assert(gone.drop_last() =~= Seq::<FileOpView>::empty());
    assert(ops_applied::<InMemoryFs>(files, Seq::empty(), lenient).1 == files);
    assert(made.last() == made[0] && gone.last() == gone[0]);
    if !files.contains_key(path) {
        assert(files.remove(path) =~= files);
    }
}

} // verus!
