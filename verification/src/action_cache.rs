//! Recording the results of local execution in the local action cache, and reading them
//! back.
//!
//! What is recorded of an action is the paths of its outputs, one to a line.
use vstd::prelude::*;

use crate::bep;
use crate::cache_table;
use crate::cache_table::{LocalActionCacheSqliteTable, TableError, TABLE_NAME};

verus! {

/// The result of a command.
#[derive(Debug)]
pub struct CommandExecutionResult {
    /// Whether the command was executed on this machine.
    pub was_locally_executed: bool,
    /// Whether the command succeeded.
    pub was_success: bool,
    /// The paths of the outputs, as far as they could be resolved.
    pub output_paths: Vec<Option<String>>,
}

/// The paths that could be resolved.
pub open spec fn resolved(paths: Seq<Option<String>>) -> Seq<Seq<char>>
    decreases paths.len(),
{
    if paths.len() == 0 {
        Seq::empty()
    } else {
        match paths.last() {
            Some(path) => resolved(paths.drop_last()).push(path@),
            None => resolved(paths.drop_last()),
        }
    }
}

/// Paths as text, with a line feed between any two.
pub open spec fn joined(paths: Seq<Seq<char>>) -> Seq<char>
    decreases paths.len(),
{
    if paths.len() == 0 {
        Seq::empty()
    } else if paths.len() == 1 {
        paths[0]
    } else {
        joined(paths.drop_last()) + seq!['\n'] + paths.last()
    }
}

/// The paths that could be resolved, as text.
pub fn output_data(paths: &Vec<Option<String>>) -> (data: String)
    ensures
        data@ == joined(resolved(paths@)),
{
    let mut data = String::new();
    let mut is_first = true;
    assert(paths@.subrange(0, 0) =~= Seq::empty());
    assert(data@ =~= Seq::empty());
    for i in 0..paths.len()
        invariant
            data@ == joined(resolved(paths@.subrange(0, i as int))),
            is_first == (resolved(paths@.subrange(0, i as int)).len() == 0),
    {
        let ghost now = paths@.subrange(0, i + 1);
        let ghost before = resolved(now.drop_last());
        assert(now.drop_last() =~= paths@.subrange(0, i as int));
        if let Some(path) = &paths[i] {
            assert(now.last() == Some(*path));
            assert(resolved(now).drop_last() =~= before);
            proof {
                reveal_strlit("\n");
                assert("\n"@ =~= seq!['\n']);
            }
            if !is_first {
                data.append("\n");
            }
            let ghost so_far = data@;
            data.append(path.as_str());
            proof {
                if before.len() == 0 {
                    assert(so_far =~= Seq::empty());
                    assert(data@ =~= path@);
                }
            }
            is_first = false;
        }
    }
    assert(paths@.subrange(0, paths@.len() as int) =~= paths@);
    data
}

/// Where the line that goes on at position `i` ends: at the next line feed, or at the
/// end of the text.
pub open spec fn line_end(text: Seq<char>, i: int) -> int
    decreases text.len() - i,
{
    if 0 <= i < text.len() && text[i] != '\n' {
        line_end(text, i + 1)
    } else {
        i
    }
}

/// A line ends within its text.
proof fn lemma_line_end(text: Seq<char>, i: int)
    requires
        0 <= i <= text.len(),
    ensures
        i <= line_end(text, i) <= text.len(),
        forall|k: int| i <= k < line_end(text, i) ==> #[trigger] text[k] != '\n',
        line_end(text, i) < text.len() ==> text[line_end(text, i)] == '\n',
    decreases text.len() - i,
{
    if i < text.len() && text[i] != '\n' {
        lemma_line_end(text, i + 1);
    }
}

/// A line without the carriage return that ends it, if it is ended by a line feed.
pub open spec fn trimmed(line: Seq<char>, is_ended: bool) -> Seq<char> {
    if is_ended && line.len() > 0 && line.last() == '\r' {
        line.drop_last()
    } else {
        line
    }
}

/// The lines of a text from position `i` on. A line feed at the very end starts no line.
pub open spec fn lines_from(text: Seq<char>, i: int) -> Seq<Seq<char>>
    decreases text.len() + 1 - i,
    via lines_end
{
    if i < 0 || i >= text.len() {
        Seq::empty()
    } else {
        let end = line_end(text, i);
        seq![trimmed(text.subrange(i, end), end < text.len())] + lines_from(text, end + 1)
    }
}

#[via_fn]
proof fn lines_end(text: Seq<char>, i: int) {
    if 0 <= i < text.len() {
        lemma_line_end(text, i);
    }
}

/// The lines of a text.
pub open spec fn lines(text: Seq<char>) -> Seq<Seq<char>> {
    lines_from(text, 0)
}

/// The characters of a text.
fn chars_of(text: &str) -> (chars: Vec<char>)
    ensures
        chars@ == text@,
{
    let mut chars: Vec<char> = Vec::new();
    for c in it: text.chars()
        invariant
            it.seq() == text@,
            chars@ == text@.subrange(0, it.index() as int),
    {
        chars.push(c);
        assert(chars@ =~= text@.subrange(0, it.index() + 1));
    }
    assert(text@.subrange(0, text@.len() as int) =~= text@);
    chars
}

/// The paths that have been recorded for an action: the lines of its data.
pub fn cached_paths(data: &str) -> (paths: Vec<String>)
    ensures
        bep::texts(paths@) == lines(data@),
{
    let chars = chars_of(data);
    let n: usize = chars.len();
    let mut paths: Vec<String> = Vec::new();
    let mut i: usize = 0;
    assert(bep::texts(paths@) =~= Seq::empty());
    assert(Seq::<Seq<char>>::empty() + lines(data@) =~= lines(data@));
    while i < n
        invariant
            n == data@.len(),
            chars@ == data@,
            i <= n || lines_from(data@, i as int).len() == 0,
            bep::texts(paths@) + lines_from(data@, i as int) == lines(data@),
        decreases n + 1 - i,
    {
        let ghost start = i as int;
        let mut end: usize = i;
        while end < n && chars[end] != '\n'
            invariant
                n == data@.len(),
                chars@ == data@,
                start <= end <= n,
                line_end(data@, start) == line_end(data@, end as int),
            decreases n - end,
        {
            end = end + 1;
        }
        proof {
            lemma_line_end(data@, start);
        }
        let mut stop: usize = end;
        if end < n && i < end && chars[end - 1] == '\r' {
            stop = end - 1;
        }
        let line = data.substring_char(i, stop).to_owned();
        proof {
            let whole = data@.subrange(start, end as int);
            if start < end {
                assert(whole.last() == data@[end - 1]);
            }
            assert(line@ =~= trimmed(whole, end < n));
            let before = bep::texts(paths@);
            let rest = lines_from(data@, end + 1);
            assert((before + (seq![line@] + rest)) =~= (before.push(line@) + rest));
        }
        let ghost before = bep::texts(paths@);
        paths.push(line);
        assert(bep::texts(paths@) =~= before.push(line@));
        if end == n {
            assert(lines_from(data@, end + 1) =~= Seq::empty());
            assert(bep::texts(paths@) + Seq::<Seq<char>>::empty() =~= bep::texts(paths@));
            return paths;
        }
        i = end + 1;
    }
    assert(lines_from(data@, i as int) =~= Seq::empty());
    assert(bep::texts(paths@) + Seq::<Seq<char>>::empty() =~= bep::texts(paths@));
    paths
}

/// What recording the outputs of an action makes of the tables of a database.
pub open spec fn recorded(
    tables: Map<Seq<char>, Map<Seq<char>, Seq<char>>>,
    action_digest: Seq<char>,
    result: CommandExecutionResult,
) -> Map<Seq<char>, Map<Seq<char>, Seq<char>>> {
    cache_table::inserted(tables, action_digest, joined(resolved(result.output_paths@)))
}

/// Records the outputs of a command in the action cache, if it was executed on this
/// machine and succeeded. An error tells only that nothing has been recorded.
pub fn record_in_local_action_cache(
    action_cache_table: &mut LocalActionCacheSqliteTable,
    action_digest: &str,
    result: &CommandExecutionResult,
) -> (r: Result<(), TableError>)
    ensures
        !(result.was_locally_executed && result.was_success) ==> r is Ok,
        !(result.was_locally_executed && result.was_success) ==> *final(action_cache_table)
            == *old(action_cache_table),
        r matches Err(e) ==> e matches TableError::Insert { action_digest: digest, .. }
            && digest@ == action_digest@,
        old(action_cache_table).is_own() ==> final(action_cache_table).is_own(),
        result.was_locally_executed && result.was_success && old(action_cache_table).is_own()
            && cache_table::is_comparable(action_digest@) ==> match r {
            Ok(_) => {
                &&& old(action_cache_table).tables().contains_key(TABLE_NAME@)
                &&& final(action_cache_table).tables() == recorded(
                    old(action_cache_table).tables(),
                    action_digest@,
                    *result,
                )
            },
            Err(_) => final(action_cache_table).tables() == old(action_cache_table).tables(),
        },
{
    if !(result.was_locally_executed && result.was_success) {
        return Ok(());
    }
    let data = output_data(&result.output_paths);
    action_cache_table.insert(action_digest, data.as_str())
}

/// What has been uploaded to a cache.
#[derive(Debug)]
pub struct CacheUploadResult {
    pub did_cache_upload: bool,
    pub did_dep_file_cache_upload: bool,
    pub dep_file_cache_upload_key: Option<String>,
}

/// Records the outputs of a command that succeeded on this machine. Nothing is uploaded.
/// The second part of the result tells of an error of the record.
pub fn upload(
    action_cache_table: &mut LocalActionCacheSqliteTable,
    action_digest: &str,
    result: &CommandExecutionResult,
) -> (r: (CacheUploadResult, Result<(), TableError>))
    ensures
        !r.0.did_cache_upload,
        !r.0.did_dep_file_cache_upload,
        r.0.dep_file_cache_upload_key is None,
        !(result.was_locally_executed && result.was_success) ==> r.1 is Ok,
        !(result.was_locally_executed && result.was_success) ==> *final(action_cache_table)
            == *old(action_cache_table),
        r.1 matches Err(e) ==> e matches TableError::Insert { action_digest: digest, .. }
            && digest@ == action_digest@,
        old(action_cache_table).is_own() ==> final(action_cache_table).is_own(),
        result.was_locally_executed && result.was_success && old(action_cache_table).is_own()
            && cache_table::is_comparable(action_digest@) ==> match r.1 {
            Ok(_) => {
                &&& old(action_cache_table).tables().contains_key(TABLE_NAME@)
                &&& final(action_cache_table).tables() == recorded(
                    old(action_cache_table).tables(),
                    action_digest@,
                    *result,
                )
            },
            Err(_) => final(action_cache_table).tables() == old(action_cache_table).tables(),
        },
{
    let outcome = record_in_local_action_cache(action_cache_table, action_digest, result);
    (
        CacheUploadResult {
            did_cache_upload: false,
            did_dep_file_cache_upload: false,
            dep_file_cache_upload_key: None,
        },
        outcome,
    )
}

// Reading back what was recorded

/// What follows a part of a text has the same line ends as it has alone.
proof fn lemma_line_end_shifts(before: Seq<char>, after: Seq<char>, i: int)
    requires
        0 <= i <= after.len(),
    ensures
        line_end(before + after, before.len() + i) == before.len() + line_end(after, i),
    decreases after.len() - i,
{
    if i < after.len() {
        assert((before + after)[before.len() + i] == after[i]);
        if after[i] != '\n' {
            lemma_line_end_shifts(before, after, i + 1);
        }
    }
}

/// What follows a part of a text has the same lines as it has alone.
proof fn lemma_lines_shift(before: Seq<char>, after: Seq<char>, i: int)
    requires
        0 <= i <= after.len() + 1,
    ensures
        lines_from(before + after, before.len() + i) == lines_from(after, i),
    decreases after.len() + 1 - i,
{
    if i < after.len() {
        let text = before + after;
        let n = before.len() as int;
        let end = line_end(after, i);
        lemma_line_end(after, i);
        lemma_line_end_shifts(before, after, i);
        assert(text.subrange(n + i, n + end) =~= after.subrange(i, end));
        lemma_lines_shift(before, after, end + 1);
    }
}

/// A line without line feeds ends where it is ended.
proof fn lemma_whole_line(line: Seq<char>, after: Seq<char>, i: int)
    requires
        0 <= i <= line.len(),
        forall|k: int| 0 <= k < line.len() ==> #[trigger] line[k] != '\n',
        after.len() > 0 ==> after[0] == '\n',
    ensures
        line_end(line + after, i) == line.len(),
    decreases line.len() - i,
{
    let text = line + after;
    if i < line.len() {
        assert(text[i] == line[i]);
        lemma_whole_line(line, after, i + 1);
    } else if after.len() > 0 {
        assert(text[i] == after[0]);
    }
}

/// Paths as text, taken from the first.
proof fn lemma_joined_first(paths: Seq<Seq<char>>)
    requires
        paths.len() >= 2,
    ensures
        joined(paths) == paths[0] + (seq!['\n'] + joined(paths.drop_first())),
    decreases paths.len(),
{
    let rest = paths.drop_first();
    let init = paths.drop_last();
    if paths.len() == 2 {
        assert(joined(init) == paths[0]);
        assert(joined(rest) == paths[1]);
        assert(joined(paths) =~= paths[0] + (seq!['\n'] + joined(rest)));
    } else {
        lemma_joined_first(init);
        assert(init.drop_first() =~= rest.drop_last());
        assert(joined(paths) =~= paths[0] + (seq!['\n'] + joined(rest)));
    }
}

/// Whether paths can be told apart as lines: whether none holds a line feed, none but
/// the last ends in a carriage return, and the last is not empty.
pub open spec fn are_lines(paths: Seq<Seq<char>>) -> bool {
    &&& forall|i: int, k: int|
        0 <= i < paths.len() && 0 <= k < paths[i].len() ==> #[trigger] paths[i][k] != '\n'
    &&& forall|i: int|
        0 <= i < paths.len() - 1 && paths[i].len() > 0 ==> (#[trigger] paths[i]).last() != '\r'
    &&& paths.len() > 0 ==> paths.last().len() > 0
}

/// The paths that are read back from a record are those that were recorded.
pub proof fn law_recorded_paths_are_read_back(paths: Seq<Seq<char>>)
    requires
        are_lines(paths),
    ensures
        lines(joined(paths)) == paths,
    decreases paths.len(),
{
    let text = joined(paths);
    if paths.len() == 0 {
        assert(lines(text) =~= paths);
    } else if paths.len() == 1 {
        let none = Seq::<char>::empty();
        assert forall|k: int| 0 <= k < text.len() implies #[trigger] text[k] != '\n' by {
            assert(paths[0][k] != '\n');
        }
        assert(text + none =~= text);
        lemma_whole_line(text, none, 0);
        assert(text.subrange(0, text.len() as int) =~= text);
        assert(lines_from(text, text.len() as int + 1) =~= Seq::empty());
        assert(lines(text) =~= paths);
    } else {
        let first = paths[0];
        let rest = paths.drop_first();
        let after = joined(rest);
        lemma_joined_first(paths);
        assert forall|k: int| 0 <= k < first.len() implies #[trigger] first[k] != '\n' by {
            assert(paths[0][k] != '\n');
        }
        assert(are_lines(rest)) by {
            assert forall|i: int, k: int|
                0 <= i < rest.len() && 0 <= k < rest[i].len() implies #[trigger] rest[i][k]
                != '\n' by {
                assert(paths[i + 1][k] != '\n');
            }
            assert forall|i: int| 0 <= i < rest.len() - 1 && rest[i].len() > 0 implies (
            #[trigger] rest[i]).last() != '\r' by {
                assert(rest[i] == paths[i + 1]);
            }
        }
        law_recorded_paths_are_read_back(rest);
        let end = seq!['\n'] + after;
        assert(end[0] == '\n');
        lemma_whole_line(first, end, 0);
        assert(text.subrange(0, first.len() as int) =~= first);
        assert(trimmed(first, true) == first) by {
            if first.len() > 0 {
                assert(paths[0].last() != '\r');
            }
        }
        let head = first + seq!['\n'];
        assert(text =~= head + after);
        lemma_lines_shift(head, after, 0);
        assert(head.len() == first.len() + 1);
        assert(lines(text) =~= seq![first] + rest);
        assert(seq![first] + rest =~= paths);
    }
}

/// A text has no lines exactly if it is empty.
pub proof fn law_only_empty_data_has_no_paths(text: Seq<char>)
    ensures
        lines(text).len() == 0 <==> text.len() == 0,
{
}

/// A command none of whose outputs could be resolved is recorded without paths.
pub proof fn law_no_outputs_no_paths(paths: Seq<Option<String>>)
    requires
        forall|i: int| 0 <= i < paths.len() ==> #[trigger] paths[i] is None,
    ensures
        lines(joined(resolved(paths))).len() == 0,
    decreases paths.len(),
{
    if paths.len() > 0 {
        let rest = paths.drop_last();
        assert forall|i: int| 0 <= i < rest.len() implies #[trigger] rest[i] is None by {
            assert(paths[i] is None);
        }
        assert(paths[paths.len() - 1] is None);
        law_no_outputs_no_paths(rest);
    }
}

/// A record is found as its paths with a line feed between any two, whatever the action
/// had before, and leaves the records of other actions as they were. Its lines are the
/// paths.
pub proof fn law_record_is_found(
    tables: Map<Seq<char>, Map<Seq<char>, Seq<char>>>,
    action_digest: Seq<char>,
    result: CommandExecutionResult,
)
    ensures
        ({
            let after = recorded(tables, action_digest, result);
            let paths = resolved(result.output_paths@);
            &&& cache_table::found(after, action_digest) == Some(joined(paths))
            &&& forall|other: Seq<char>|
                other != action_digest ==> #[trigger] cache_table::found(after, other)
                    == cache_table::found(tables, other)
            &&& are_lines(paths) ==> lines(joined(paths)) == paths
        }),
{
    let paths = resolved(result.output_paths@);
    if are_lines(paths) {
        law_recorded_paths_are_read_back(paths);
    }
}

// Paths and lines

/// The paths that could be resolved are kept in order, and only those.
pub proof fn law_resolved_paths_are_kept(
    before: Seq<Option<String>>,
    path: Option<String>,
    after: Seq<Option<String>>,
)
    ensures
        resolved(Seq::empty()) == Seq::<Seq<char>>::empty(),
        resolved(before + seq![path] + after) == match path {
            Some(p) => resolved(before) + seq![p@] + resolved(after),
            None => resolved(before) + resolved(after),
        },
    decreases after.len(),
{
    let all = before + seq![path] + after;
    if after.len() == 0 {
        assert(all.drop_last() =~= before);
        assert(all.last() == path);
        assert(resolved(before) + Seq::<Seq<char>>::empty() =~= resolved(before));
        if let Some(p) = path {
            assert(resolved(all) =~= resolved(before) + seq![p@] + resolved(after));
        }
    } else {
        let rest = after.drop_last();
        law_resolved_paths_are_kept(before, path, rest);
        assert(all.drop_last() =~= before + seq![path] + rest);
        assert(all.last() == after.last());
        match path {
            Some(p) => {
                assert(resolved(all) =~= resolved(before) + seq![p@] + resolved(after));
            },
            None => {
                assert(resolved(all) =~= resolved(before) + resolved(after));
            },
        }
    }
}

/// One path is its own text, and the text of more paths is that of the first, a line feed
/// and the text of the others.
pub proof fn law_paths_are_joined_by_line_feeds(first: Seq<char>, rest: Seq<Seq<char>>)
    ensures
        joined(Seq::empty()) == Seq::<char>::empty(),
        joined(seq![first]) == first,
        rest.len() > 0 ==> joined(seq![first] + rest) == first + seq!['\n'] + joined(rest),
{
    if rest.len() > 0 {
        let all = seq![first] + rest;
        lemma_joined_first(all);
        assert(all.drop_first() =~= rest);
        assert(first + (seq!['\n'] + joined(rest)) =~= first + seq!['\n'] + joined(rest));
    }
}

/// The first line of a text ends at its first line feed, without a carriage return right
/// before that, and the lines of what follows come after it. A text without a line feed is
/// one line, unless it is empty.
pub proof fn law_lines_end_at_line_feeds(line: Seq<char>, after: Seq<char>)
    requires
        forall|k: int| 0 <= k < line.len() ==> #[trigger] line[k] != '\n',
    ensures
        lines(Seq::empty()) == Seq::<Seq<char>>::empty(),
        line.len() > 0 ==> lines(line) == seq![line],
        lines(line + seq!['\n'] + after) == seq![
            if line.len() > 0 && line[line.len() - 1] == '\r' {
                line.subrange(0, line.len() - 1)
            } else {
                line
            },
        ] + lines(after),
{
    let none = Seq::<char>::empty();
    assert(lines(none) =~= Seq::empty());
    if line.len() > 0 {
        assert(line + none =~= line);
        lemma_whole_line(line, none, 0);
        assert(line.subrange(0, line.len() as int) =~= line);
        assert(lines_from(line, line.len() as int + 1) =~= Seq::empty());
        assert(lines(line) =~= seq![line]);
    }
    let end = seq!['\n'] + after;
    let text = line + seq!['\n'] + after;
    assert(text =~= line + end);
    assert(end[0] == '\n');
    lemma_whole_line(line, end, 0);
    assert(text.subrange(0, line.len() as int) =~= line);
    let head = line + seq!['\n'];
    lemma_lines_shift(head, after, 0);
    assert(head.len() == line.len() + 1);
    if line.len() > 0 && line[line.len() - 1] == '\r' {
        assert(line.drop_last() =~= line.subrange(0, line.len() - 1));
    }
}

} // verus!
